//! The immutable input: book scores, libraries, and the day budget.

use vstd::prelude::*;
use crate::ranking::{is_ranked, lemma_rank_order_without_repeats, sort_by_rank};

verus! {

/// A book is named by its index into the score table.
pub type BookId = usize;

/// A source of books. Signing it up takes `signup` days, one library at a
/// time; from then on it scans `concurrency` books per day.
#[derive(Debug, Clone, PartialEq, Eq)]
pub struct Library {
    pub signup: usize,
    pub concurrency: usize,
    /// The catalog, best book first (see [`ranked`]).
    pub books: Vec<BookId>,
}

/// What is to be scheduled: the score of each book, the libraries, and the
/// number of days there are.
#[derive(Debug, Clone, PartialEq, Eq)]
pub struct Problem {
    pub scores: Vec<usize>,
    pub libraries: Vec<Library>,
    pub days: usize,
}

/// Book `a` stands before book `b` in every catalog that holds both: it
/// scores higher, or scores the same and has the smaller id.
pub open spec fn ranks_before(scores: Seq<usize>, a: BookId, b: BookId) -> bool {
    scores[a as int] > scores[b as int] || (scores[a as int] == scores[b as int] && a < b)
}

/// `books` names known books only and lists them strictly in rank order.
/// In particular no book occurs twice.
pub open spec fn ranked(scores: Seq<usize>, books: Seq<BookId>) -> bool {
    &&& forall|i: int| 0 <= i < books.len() ==> (#[trigger] books[i]) < scores.len()
    &&& forall|i: int, j: int|
        0 <= i < j < books.len() ==> ranks_before(scores, #[trigger] books[i], #[trigger] books[j])
}

/// The sum of the scores of the first `n` books that `claimed` holds.
pub open spec fn claimed_score_below(scores: Seq<usize>, claimed: Set<BookId>, n: nat) -> int
    decreases n,
{
    if n == 0 {
        0
    } else {
        let b = (n - 1) as usize;
        claimed_score_below(scores, claimed, (n - 1) as nat) + if claimed.contains(b) {
            scores[n - 1] as int
        } else {
            0
        }
    }
}

/// The sum of the scores of the books in `claimed`, each counted once.
pub open spec fn claimed_score(scores: Seq<usize>, claimed: Set<BookId>) -> int {
    claimed_score_below(scores, claimed, scores.len())
}

/// The sum of all scores.
pub open spec fn total_score(scores: Seq<usize>) -> int {
    claimed_score(scores, Set::full())
}

impl Problem {
    /// Every catalog is ranked, and the sum of all scores fits a `usize`, so
    /// that no score of a schedule can overflow.
    pub open spec fn wf(&self) -> bool {
        &&& forall|l: int|
            0 <= l < self.libraries@.len() ==> ranked(
                self.scores@,
                (#[trigger] self.libraries@[l]).books@,
            )
        &&& total_score(self.scores@) <= usize::MAX
    }
}

/// Tells whether book `a` ranks before book `b`.
pub fn comes_before(scores: &Vec<usize>, a: BookId, b: BookId) -> (r: bool)
    requires
        a < scores@.len(),
        b < scores@.len(),
    ensures
        r == ranks_before(scores@, a, b),
{
    scores[a] > scores[b] || (scores[a] == scores[b] && a < b)
}

/// No book occurs twice in a ranked sequence.
pub proof fn lemma_ranked_no_duplicates(scores: Seq<usize>, books: Seq<BookId>)
    requires
        ranked(scores, books),
    ensures
        books.no_duplicates(),
{
    assert forall|i: int, j: int| 0 <= i < books.len() && 0 <= j < books.len() && i != j implies
        books[i] != books[j] by {
        if i < j {
            assert(ranks_before(scores, books[i], books[j]));
        } else {
            assert(ranks_before(scores, books[j], books[i]));
        }
    }
}

/// Why the parts of a problem do not make a problem.
#[derive(Debug, Clone, Copy, PartialEq, Eq)]
pub enum MalformedInput {
    /// The scores add up to more than a `usize` holds.
    ScoresTooLarge,
    /// The catalog of the library names a book that has no score.
    UnknownBook { library: usize },
    /// The catalog of the library names a book twice.
    RepeatedBook { library: usize },
    /// The word of this index in the text is no decimal number, or too large
    /// a one.
    BadNumber { token: usize },
    /// The numbers end before the problem is complete.
    Truncated,
    /// There are numbers beyond the last library, from the number of this
    /// index on.
    TrailingNumbers { token: usize },
}

/// The catalog names a book that has no score.
pub open spec fn names_unknown_book(scores: Seq<usize>, books: Seq<BookId>) -> bool {
    exists|k: int| 0 <= k < books.len() && (#[trigger] books[k]) >= scores.len()
}

/// The catalog names known books only, and none twice.
pub open spec fn catalog_ok(scores: Seq<usize>, books: Seq<BookId>) -> bool {
    !names_unknown_book(scores, books) && books.no_duplicates()
}

/// `result` is what [`Problem::new`] makes of the parts: the problem with
/// these scores and days and with these libraries, each catalog ranked, if the
/// scores add up to what a `usize` holds and every catalog is in order; else
/// what is wrong, of a catalog with the first library whose catalog is not in
/// order.
pub open spec fn new_says(
    scores: Seq<usize>,
    libraries: Seq<Library>,
    days: usize,
    result: Result<Problem, MalformedInput>,
) -> bool {
    match result {
        Ok(problem) => {
            &&& total_score(scores) <= usize::MAX
            &&& forall|l: int|
                0 <= l < libraries.len() ==> catalog_ok(scores, (#[trigger] libraries[l]).books@)
            &&& problem.wf()
            &&& problem.scores@ == scores
            &&& problem.days == days
            &&& problem.libraries@.len() == libraries.len()
            &&& forall|l: int|
                0 <= l < libraries.len() ==> {
                    &&& (#[trigger] problem.libraries@[l]).signup == libraries[l].signup
                    &&& problem.libraries@[l].concurrency == libraries[l].concurrency
                    &&& problem.libraries@[l].books@.to_multiset()
                        == libraries[l].books@.to_multiset()
                }
        },
        Err(MalformedInput::ScoresTooLarge) => total_score(scores) > usize::MAX,
        Err(MalformedInput::UnknownBook { library }) => {
            &&& total_score(scores) <= usize::MAX
            &&& library < libraries.len()
            &&& names_unknown_book(scores, libraries[library as int].books@)
            &&& forall|l: int|
                0 <= l < library ==> catalog_ok(scores, (#[trigger] libraries[l]).books@)
        },
        Err(MalformedInput::RepeatedBook { library }) => {
            &&& total_score(scores) <= usize::MAX
            &&& library < libraries.len()
            &&& !names_unknown_book(scores, libraries[library as int].books@)
            &&& !libraries[library as int].books@.no_duplicates()
            &&& forall|l: int|
                0 <= l < library ==> catalog_ok(scores, (#[trigger] libraries[l]).books@)
        },
        Err(_) => false,
    }
}

/// The scores of the first books add up to no more than those of all books.
pub proof fn lemma_score_below_grows(scores: Seq<usize>, claimed: Set<BookId>, n: nat, m: nat)
    requires
        n <= m <= scores.len(),
    ensures
        0 <= claimed_score_below(scores, claimed, n) <= claimed_score_below(scores, claimed, m),
    decreases m,
{
    if n < m {
        lemma_score_below_grows(scores, claimed, n, (m - 1) as nat);
    } else if n > 0 {
        lemma_score_below_grows(scores, claimed, (n - 1) as nat, (n - 1) as nat);
    }
}

/// Adds up all scores. `None` if the sum does not fit a `usize`.
pub fn sum_scores(scores: &Vec<usize>) -> (sum: Option<usize>)
    ensures
        match sum {
            Some(total) => total == total_score(scores@),
            None => total_score(scores@) > usize::MAX,
        },
{
    let mut total: usize = 0;
    let mut i: usize = 0;
    while i < scores.len()
        invariant
            i <= scores.len(),
            total == claimed_score_below(scores@, Set::full(), i as nat),
        decreases scores.len() - i,
    {
        match total.checked_add(scores[i]) {
            Some(more) => {
                total = more;
            },
            None => {
                proof {
                    lemma_score_below_grows(scores@, Set::full(), (i + 1) as nat, scores@.len());
                }
                return None;
            },
        }
        i += 1;
    }
    Some(total)
}

/// Tells whether every book of `books` has a score.
fn all_known(scores: &Vec<usize>, books: &Vec<BookId>) -> (all: bool)
    ensures
        all == !names_unknown_book(scores@, books@),
{
    let mut k: usize = 0;
    while k < books.len()
        invariant
            k <= books.len(),
            forall|j: int| 0 <= j < k ==> (#[trigger] books@[j]) < scores@.len(),
        decreases books.len() - k,
    {
        if books[k] >= scores.len() {
            return false;
        }
        k += 1;
    }
    true
}

impl Problem {
    /// Makes a problem of its parts. Each catalog is sorted into rank order.
    /// The parts are refused if the scores add up to more than a `usize`
    /// holds, or if a catalog names a book that has no score or names a book
    /// twice; the error names the first such library.
    pub fn new(scores: Vec<usize>, libraries: Vec<Library>, days: usize) -> (result: Result<
        Problem,
        MalformedInput,
    >)
        ensures
            new_says(scores@, libraries@, days, result),
    {
        if sum_scores(&scores).is_none() {
            return Err(MalformedInput::ScoresTooLarge);
        }
        let mut ranked_libraries: Vec<Library> = Vec::new();
        let mut library: usize = 0;
        while library < libraries.len()
            invariant
                library <= libraries.len(),
                ranked_libraries@.len() == library,
                total_score(scores@) <= usize::MAX,
                forall|l: int|
                    0 <= l < library ==> catalog_ok(scores@, (#[trigger] libraries@[l]).books@),
                forall|l: int|
                    0 <= l < library ==> {
                        &&& (#[trigger] ranked_libraries@[l]).signup == libraries@[l].signup
                        &&& ranked_libraries@[l].concurrency == libraries@[l].concurrency
                        &&& ranked_libraries@[l].books@.to_multiset()
                            == libraries@[l].books@.to_multiset()
                        &&& ranked(scores@, ranked_libraries@[l].books@)
                    },
            decreases libraries.len() - library,
        {
            let given = &libraries[library];
            if !all_known(&scores, &given.books) {
                return Err(MalformedInput::UnknownBook { library });
            }
            let books = sort_by_rank(&scores, &given.books);
            let strict = is_ranked(&scores, &books);
            proof {
                if strict {
                    lemma_ranked_no_duplicates(scores@, books@);
                    books@.lemma_multiset_has_no_duplicates();
                    given.books@.lemma_multiset_has_no_duplicates_conv();
                }
                if given.books@.no_duplicates() {
                    given.books@.lemma_multiset_has_no_duplicates();
                    books@.lemma_multiset_has_no_duplicates_conv();
                    lemma_rank_order_without_repeats(scores@, books@);
                }
            }
            if !strict {
                return Err(MalformedInput::RepeatedBook { library });
            }
            ranked_libraries.push(
                Library { signup: given.signup, concurrency: given.concurrency, books },
            );
            library += 1;
        }
        Ok(Problem { scores, libraries: ranked_libraries, days })
    }
}

} // verus!
