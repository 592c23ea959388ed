//! Schedules: which libraries are signed up, in what order, and which books
//! each of them scans.

use vstd::prelude::*;
use std::collections::{HashMap, HashSet};
use crate::problem::{claimed_score, ranked, total_score, BookId, Library, Problem};
use crate::tally::{lemma_claim_one, lemma_score_bounds, lemma_score_of_nothing};

verus! {

/// One activated library. `books` are the books it scans, `books_left` the
/// rest of its catalog, both best book first. `max_scanned_books` is the number
/// of books it has time to scan.
#[derive(Debug, Clone, PartialEq, Eq)]
pub struct LibraryScanOrder {
    pub id: usize,
    pub books: Vec<BookId>,
    pub books_left: Vec<BookId>,
    pub max_scanned_books: usize,
}

/// A schedule: the activated libraries in activation order, and what follows
/// from them: which library scans a book, which books are scanned at all, and
/// what they score.
#[derive(Debug)]
pub struct Solution {
    pub libs: Vec<LibraryScanOrder>,
    pub libs_by_book_used: HashMap<BookId, usize>,
    pub books_taken: HashSet<BookId>,
    pub score: usize,
}

/// What can be wrong with a schedule.
#[derive(Debug, Clone, Copy, PartialEq, Eq)]
pub enum InvariantViolation {
    /// An entry names a library that the problem does not have.
    UnknownLibrary,
    /// A library is activated twice.
    RepeatedLibrary,
    /// The signups take more days than there are.
    OverBudget,
    /// An entry scans a book that is not in its library's catalog.
    ForeignBook,
    /// The books and the left-over books of an entry are not the catalog of
    /// its library, split in two ranked parts.
    CatalogNotSplit,
    /// An entry does not record the number of books that its library can scan
    /// in the days that are left after its signup.
    WrongCapacity,
    /// An entry scans more books than its library can.
    CapacityExceeded,
    /// An entry scans a book that an entry before it scans.
    DuplicateBook,
    /// What the solution records of scanned books and of who scans them does
    /// not agree with its entries.
    StaleIndex,
    /// The solution does not record what its scanned books score.
    WrongScore,
}

/// What a [`LibraryScanOrder`] holds.
pub struct ScanOrderView {
    pub id: usize,
    pub books: Seq<BookId>,
    pub books_left: Seq<BookId>,
    pub max_scanned_books: usize,
}

/// What a [`Solution`] holds.
pub struct SolutionView {
    pub libs: Seq<ScanOrderView>,
    pub libs_by_book_used: Map<BookId, usize>,
    pub books_taken: Set<BookId>,
    pub score: usize,
}

impl View for LibraryScanOrder {
    type V = ScanOrderView;

    open spec fn view(&self) -> ScanOrderView {
        ScanOrderView {
            id: self.id,
            books: self.books@,
            books_left: self.books_left@,
            max_scanned_books: self.max_scanned_books,
        }
    }
}

/// The entries of a schedule, each by what it holds.
pub open spec fn entry_views(libs: Seq<LibraryScanOrder>) -> Seq<ScanOrderView> {
    Seq::new(libs.len(), |p: int| libs[p]@)
}

impl View for Solution {
    type V = SolutionView;

    open spec fn view(&self) -> SolutionView {
        SolutionView {
            libs: entry_views(self.libs@),
            libs_by_book_used: self.libs_by_book_used@,
            books_taken: self.books_taken@,
            score: self.score,
        }
    }
}

/// The days that the signups of the entries `done` take, one after another.
pub open spec fn signup_total(problem: &Problem, done: Seq<ScanOrderView>) -> int
    decreases done.len(),
{
    if done.len() == 0 {
        0
    } else {
        signup_total(problem, done.drop_last()) + problem.libraries@[done.last().id as int].signup
    }
}

/// The days that are left once the entries `done` are signed up.
pub open spec fn days_left_after(problem: &Problem, done: Seq<ScanOrderView>) -> int {
    problem.days - signup_total(problem, done)
}

/// The number of books that `lib` can scan in `scan_days` days: its rate
/// times the days, and no more than its catalog holds.
pub open spec fn scan_capacity(lib: &Library, scan_days: int) -> int {
    if scan_days <= 0 {
        0
    } else if lib.concurrency * scan_days < lib.books@.len() {
        lib.concurrency * scan_days
    } else {
        lib.books@.len() as int
    }
}

/// Entry `p` of `libs` scans book `b`.
pub open spec fn scans(libs: Seq<ScanOrderView>, p: int, b: BookId) -> bool {
    0 <= p < libs.len() && libs[p].books.contains(b)
}

/// Some entry of `libs` scans book `b`.
pub open spec fn scanned(libs: Seq<ScanOrderView>, b: BookId) -> bool {
    exists|p: int| scans(libs, p, b)
}

/// Some entry of `libs` is library `l`.
pub open spec fn activated(libs: Seq<ScanOrderView>, l: int) -> bool {
    exists|p: int| 0 <= p < libs.len() && #[trigger] libs[p].id == l
}

/// Entry `e` fits its library when `scan_days` days are left after its signup:
/// `books` and `books_left` split the catalog between them, each ranked, and
/// `books` holds no more than the library can scan in that time.
pub open spec fn entry_valid(problem: &Problem, e: ScanOrderView, scan_days: int) -> bool {
    &&& e.id < problem.libraries@.len()
    &&& ranked(problem.scores@, e.books)
    &&& ranked(problem.scores@, e.books_left)
    &&& forall|b: BookId|
        #![trigger problem.libraries@[e.id as int].books@.contains(b)]
        #![trigger e.books.contains(b)]
        #![trigger e.books_left.contains(b)]
        problem.libraries@[e.id as int].books@.contains(b) <==> (e.books.contains(b)
            || e.books_left.contains(b))
    &&& forall|b: BookId| !(#[trigger] e.books.contains(b) && e.books_left.contains(b))
    &&& e.books.len() <= e.max_scanned_books
    &&& e.max_scanned_books == scan_capacity(&problem.libraries@[e.id as int], scan_days)
}

/// The signups up to and including entry `p` fit the day budget, and the
/// entry is valid with the days that are then left.
pub open spec fn slot_valid(problem: &Problem, libs: Seq<ScanOrderView>, p: int) -> bool {
    &&& days_left_after(problem, libs.take(p + 1)) >= 0
    &&& entry_valid(problem, libs[p], days_left_after(problem, libs.take(p + 1)))
}

/// The entries form a feasible schedule: each is valid in its place, no
/// library is activated twice, and no book is scanned by two entries.
pub open spec fn entries_valid(problem: &Problem, libs: Seq<ScanOrderView>) -> bool {
    &&& forall|p: int| 0 <= p < libs.len() ==> #[trigger] slot_valid(problem, libs, p)
    &&& forall|p: int, q: int|
        0 <= p < q < libs.len() ==> (#[trigger] libs[p]).id != (#[trigger] libs[q]).id
    &&& forall|p: int, q: int, b: BookId|
        #[trigger] scans(libs, p, b) && #[trigger] scans(libs, q, b) ==> p == q
}

/// `books_taken` holds the scanned books, and `libs_by_book_used` names for
/// each of them an entry that scans it.
pub open spec fn ownership_valid(sol: SolutionView) -> bool {
    &&& forall|b: BookId| #[trigger] sol.books_taken.contains(b) <==> scanned(sol.libs, b)
    &&& forall|b: BookId|
        #[trigger] sol.libs_by_book_used.contains_key(b) <==> sol.books_taken.contains(b)
    &&& forall|b: BookId| #[trigger]
        sol.libs_by_book_used.contains_key(b) ==> scans(
            sol.libs,
            sol.libs_by_book_used[b] as int,
            b,
        )
}

/// What a solution records beside its entries agrees with them:
/// `books_taken` holds the scanned books, `libs_by_book_used` names for each
/// of them an entry that scans it, and `score` is what they score together.
pub open spec fn indexes_valid(problem: &Problem, sol: SolutionView) -> bool {
    &&& ownership_valid(sol)
    &&& sol.score == claimed_score(problem.scores@, sol.books_taken)
}

/// The solution is a feasible schedule for `problem`, and consistent.
pub open spec fn solution_valid(problem: &Problem, sol: SolutionView) -> bool {
    &&& entries_valid(problem, sol.libs)
    &&& indexes_valid(problem, sol)
}

impl Solution {
    /// The solution is a feasible schedule for `problem`, and consistent.
    pub open spec fn wf(&self, problem: &Problem) -> bool {
        solution_valid(problem, self@)
    }
}

/// One of the first `n` entries of `libs` scans book `b`.
pub open spec fn scanned_before(libs: Seq<ScanOrderView>, n: int, b: BookId) -> bool {
    exists|p: int| p < n && scans(libs, p, b)
}

/// Every book that an entry scans has a score.
pub open spec fn books_known(problem: &Problem, libs: Seq<ScanOrderView>) -> bool {
    forall|p: int, k: int|
        0 <= p < libs.len() && 0 <= k < libs[p].books.len() ==> (#[trigger] libs[p].books[k])
            < problem.scores@.len()
}

/// Records that entry `pos` scans `books`.
pub(crate) fn record_books(
    problem: &Problem,
    books: &Vec<BookId>,
    pos: usize,
    libs_by_book_used: &mut HashMap<BookId, usize>,
    books_taken: &mut HashSet<BookId>,
    score: &mut usize,
)
    requires
        total_score(problem.scores@) <= usize::MAX,
        forall|k: int| 0 <= k < books@.len() ==> (#[trigger] books@[k]) < problem.scores@.len(),
        *old(score) == claimed_score(problem.scores@, old(books_taken)@),
    ensures
        forall|b: BookId| #[trigger]
            final(books_taken)@.contains(b) <==> old(books_taken)@.contains(b) || books@.contains(
                b,
            ),
        forall|b: BookId| #[trigger]
            final(libs_by_book_used)@.contains_key(b) <==> old(libs_by_book_used)@.contains_key(b)
                || books@.contains(b),
        forall|b: BookId| #[trigger] books@.contains(b) ==> final(libs_by_book_used)@[b] == pos,
        forall|b: BookId|
            !books@.contains(b) && old(libs_by_book_used)@.contains_key(b)
                ==> #[trigger] final(libs_by_book_used)@[b] == old(libs_by_book_used)@[b],
        *final(score) == claimed_score(problem.scores@, final(books_taken)@),
{
    let mut k: usize = 0;
    while k < books.len()
        invariant
            k <= books.len(),
            problem.scores@.len() == problem.scores.len(),
            total_score(problem.scores@) <= usize::MAX,
            forall|k: int| 0 <= k < books@.len() ==> (#[trigger] books@[k]) < problem.scores@.len(),
            forall|b: BookId| #[trigger]
                books_taken@.contains(b) <==> old(books_taken)@.contains(b) || books@.take(
                    k as int,
                ).contains(b),
            forall|b: BookId| #[trigger]
                libs_by_book_used@.contains_key(b) <==> old(libs_by_book_used)@.contains_key(b)
                    || books@.take(k as int).contains(b),
            forall|b: BookId| #[trigger]
                books@.take(k as int).contains(b) ==> libs_by_book_used@[b] == pos,
            forall|b: BookId|
                !books@.take(k as int).contains(b) && old(libs_by_book_used)@.contains_key(b)
                    ==> #[trigger] libs_by_book_used@[b] == old(libs_by_book_used)@[b],
            *score == claimed_score(problem.scores@, books_taken@),
        decreases books.len() - k,
    {
        let book = books[k];
        proof {
            assert(books@.take(k as int).push(book) =~= books@.take(k + 1));
            assert forall|b: BookId| #[trigger]
                books@.take(k + 1).contains(b) <==> b == book || books@.take(k as int).contains(
                    b,
                ) by {
                vstd::seq_lib::lemma_seq_contains_after_push(books@.take(k as int), book, b);
            }
            if !books_taken@.contains(book) {
                lemma_claim_one(problem.scores@, books_taken@, book);
                lemma_score_bounds(problem.scores@, books_taken@.insert(book));
            } else {
                assert(books_taken@.insert(book) =~= books_taken@);
            }
        }
        libs_by_book_used.insert(book, pos);
        if books_taken.insert(book) {
            *score = *score + problem.scores[book];
        }
        k += 1;
    }
    proof {
        assert(books@.take(k as int) =~= books@);
    }
}

impl Solution {
    /// Builds the solution that holds the entries `libs`: it records which
    /// books are scanned, for each of them the last entry that scans it, and
    /// what the scanned books score, each counted once.
    pub fn from_libs(problem: &Problem, libs: Vec<LibraryScanOrder>) -> (sol: Solution)
        requires
            total_score(problem.scores@) <= usize::MAX,
            books_known(problem, entry_views(libs@)),
        ensures
            sol.libs@ == libs@,
            indexes_valid(problem, sol@),
            forall|b: BookId, q: int|
                sol@.books_taken.contains(b) && sol@.libs_by_book_used[b] < q ==> !#[trigger] scans(
                    sol@.libs,
                    q,
                    b,
                ),
            entries_valid(problem, sol@.libs) ==> sol.wf(problem),
    {
        let mut libs_by_book_used: HashMap<BookId, usize> = HashMap::new();
        let mut books_taken: HashSet<BookId> = HashSet::new();
        let mut score: usize = 0;
        let ghost views = entry_views(libs@);
        proof {
            lemma_score_of_nothing(problem.scores@, problem.scores@.len());
            assert(books_taken@ =~= Set::empty());
        }
        let mut pos: usize = 0;
        while pos < libs.len()
            invariant
                pos <= libs.len(),
                views == entry_views(libs@),
                total_score(problem.scores@) <= usize::MAX,
                books_known(problem, views),
                forall|b: BookId| #[trigger]
                    books_taken@.contains(b) <==> scanned_before(views, pos as int, b),
                forall|b: BookId| #[trigger]
                    libs_by_book_used@.contains_key(b) <==> books_taken@.contains(b),
                forall|b: BookId| #[trigger]
                    libs_by_book_used@.contains_key(b) ==> libs_by_book_used@[b] < pos && scans(
                        views,
                        libs_by_book_used@[b] as int,
                        b,
                    ),
                forall|b: BookId, q: int|
                    libs_by_book_used@.contains_key(b) && libs_by_book_used@[b] < q < pos
                        ==> !#[trigger] scans(views, q, b),
                score == claimed_score(problem.scores@, books_taken@),
            decreases libs.len() - pos,
        {
            let ghost taken_before = books_taken@;
            let ghost used_before = libs_by_book_used@;
            proof {
                assert forall|k: int| 0 <= k < libs@[pos as int].books@.len() implies (
                #[trigger] libs@[pos as int].books@[k]) < problem.scores@.len() by {
                    assert(views[pos as int].books[k] < problem.scores@.len());
                }
            }
            record_books(
                problem,
                &libs[pos].books,
                pos,
                &mut libs_by_book_used,
                &mut books_taken,
                &mut score,
            );
            proof {
                let here = views[pos as int].books;
                assert forall|b: BookId| #[trigger]
                    books_taken@.contains(b) <==> scanned_before(views, pos + 1, b) by {
                    if books_taken@.contains(b) {
                        if here.contains(b) {
                            assert(scans(views, pos as int, b));
                        } else {
                            assert(scanned_before(views, pos as int, b));
                            let p = choose|p: int| p < pos && scans(views, p, b);
                            assert(p < pos + 1 && scans(views, p, b));
                        }
                    }
                    if scanned_before(views, pos + 1, b) {
                        let p = choose|p: int| p < pos + 1 && scans(views, p, b);
                        if p < pos {
                            assert(scanned_before(views, pos as int, b));
                        }
                    }
                }
                assert forall|b: BookId| #[trigger]
                    libs_by_book_used@.contains_key(b) implies libs_by_book_used@[b] < pos + 1
                    && scans(views, libs_by_book_used@[b] as int, b) by {
                    if !here.contains(b) {
                        assert(used_before.contains_key(b));
                    }
                }
                assert forall|b: BookId, q: int|
                    libs_by_book_used@.contains_key(b) && libs_by_book_used@[b] < q < pos
                        + 1 implies !#[trigger] scans(views, q, b) by {
                    if !here.contains(b) {
                        assert(used_before.contains_key(b));
                    }
                }
            }
            pos += 1;
        }
        let sol = Solution { libs, libs_by_book_used, books_taken, score };
        proof {
            assert(sol@.libs == views);
            assert forall|b: BookId| #[trigger]
                sol@.books_taken.contains(b) <==> scanned(views, b) by {
                if scanned(views, b) {
                    let p = choose|p: int| scans(views, p, b);
                    assert(p < pos && scans(views, p, b));
                }
                if scanned_before(views, pos as int, b) {
                    let p = choose|p: int| p < pos && scans(views, p, b);
                    assert(scans(views, p, b));
                }
            }
        }
        sol
    }
}

/// Line `i` of the numbers that describe the schedule `libs`: first the
/// number of entries, then for each entry in activation order a line with its
/// library and the number of books it scans, and a line with those books, best
/// first.
pub open spec fn output_line(libs: Seq<ScanOrderView>, i: int) -> Seq<usize> {
    if i == 0 {
        seq![libs.len() as usize]
    } else if i % 2 == 1 {
        seq![libs[(i - 1) / 2].id, libs[(i - 1) / 2].books.len() as usize]
    } else {
        libs[(i - 2) / 2].books
    }
}

impl Solution {
    /// The numbers that describe the schedule, line by line.
    pub fn output_numbers(&self) -> (lines: Vec<Vec<usize>>)
        ensures
            lines@.len() == 1 + 2 * self@.libs.len(),
            forall|i: int|
                0 <= i < lines@.len() ==> (#[trigger] lines@[i])@ == output_line(self@.libs, i),
    {
        let mut lines: Vec<Vec<usize>> = Vec::new();
        let mut head: Vec<usize> = Vec::new();
        head.push(self.libs.len());
        lines.push(head);
        let mut p: usize = 0;
        while p < self.libs.len()
            invariant
                p <= self.libs@.len(),
                lines@.len() == 1 + 2 * p,
                forall|i: int|
                    0 <= i < lines@.len() ==> (#[trigger] lines@[i])@ == output_line(self@.libs, i),
            decreases self.libs.len() - p,
        {
            let entry = &self.libs[p];
            let mut first: Vec<usize> = Vec::new();
            first.push(entry.id);
            first.push(entry.books.len());
            let mut second: Vec<usize> = Vec::new();
            let mut k: usize = 0;
            while k < entry.books.len()
                invariant
                    k <= entry.books@.len(),
                    second@ == entry.books@.take(k as int),
                decreases entry.books.len() - k,
            {
                second.push(entry.books[k]);
                proof {
                    assert(second@ =~= entry.books@.take(k + 1));
                }
                k += 1;
            }
            proof {
                assert(entry.books@.take(k as int) =~= entry.books@);
                assert(self@.libs[p as int] == entry@);
                assert(first@ =~= output_line(self@.libs, 1 + 2 * p));
                assert(second@ == output_line(self@.libs, 2 + 2 * p));
            }
            lines.push(first);
            lines.push(second);
            p += 1;
        }
        lines
    }
}

} // verus!
