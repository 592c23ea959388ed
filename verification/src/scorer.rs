//! The scorer: what a schedule is worth, derived from its entries alone.

use vstd::prelude::*;
use std::collections::HashSet;
use crate::problem::{claimed_score, total_score, BookId, Problem};
use crate::ranking::all_in_catalog;
use crate::schedule::capacity_of;
use crate::solution::{
    days_left_after, scan_capacity, signup_total, InvariantViolation, ScanOrderView, Solution,
};
use crate::tally::{lemma_claim_one, lemma_score_bounds, lemma_score_of_nothing};

verus! {

/// The days that are left when the signup of entry `p` starts.
pub open spec fn days_before(problem: &Problem, libs: Seq<ScanOrderView>, p: int) -> int {
    days_left_after(problem, libs.take(p))
}

/// The scorer looks at entry `p`: its signup starts before the deadline.
pub open spec fn reached(problem: &Problem, libs: Seq<ScanOrderView>, p: int) -> bool {
    0 <= p < libs.len() && days_before(problem, libs, p) > 0
}

/// The entry names a library of the problem and scans books of its catalog
/// only.
pub open spec fn entry_known(problem: &Problem, e: ScanOrderView) -> bool {
    &&& e.id < problem.libraries@.len()
    &&& forall|k: int|
        0 <= k < e.books.len() ==> problem.libraries@[e.id as int].books@.contains(
            #[trigger] e.books[k],
        )
}

/// The number of books of entry `p` that count: as many as are assigned to
/// it, but no more than its library can scan in the days that are left after
/// its signup.
pub open spec fn counted_len(problem: &Problem, libs: Seq<ScanOrderView>, p: int) -> int {
    let capacity = scan_capacity(
        &problem.libraries@[libs[p].id as int],
        days_left_after(problem, libs.take(p + 1)),
    );
    if capacity < libs[p].books.len() {
        capacity
    } else {
        libs[p].books.len() as int
    }
}

/// Book `b` counts for entry `p`: the scorer looks at the entry, and the book
/// is among the first of its books, as many as count.
pub open spec fn counts(problem: &Problem, libs: Seq<ScanOrderView>, p: int, b: BookId) -> bool {
    &&& reached(problem, libs, p)
    &&& exists|k: int| 0 <= k < counted_len(problem, libs, p) && #[trigger] libs[p].books[k] == b
}

/// Book `b` counts for one of the first `n` entries.
pub open spec fn counted_before(
    problem: &Problem,
    libs: Seq<ScanOrderView>,
    n: int,
    b: BookId,
) -> bool {
    exists|p: int| p < n && counts(problem, libs, p, b)
}

/// The books that count for some entry.
pub open spec fn counted_books(problem: &Problem, libs: Seq<ScanOrderView>) -> Set<BookId> {
    Set::new(|b: BookId| counted_before(problem, libs, libs.len() as int, b))
}

/// What the schedule scores: the scores of the books that count, each book
/// once however many entries scan it.
pub open spec fn scored(problem: &Problem, libs: Seq<ScanOrderView>) -> int {
    claimed_score(problem.scores@, counted_books(problem, libs))
}

/// Entry `p` is the first that the scorer cannot make sense of.
pub open spec fn first_unknown(problem: &Problem, libs: Seq<ScanOrderView>, p: int) -> bool {
    &&& reached(problem, libs, p)
    &&& !entry_known(problem, libs[p])
    &&& forall|q: int| 0 <= q < p ==> entry_known(problem, #[trigger] libs[q])
}

/// `result` is what the scorer makes of the schedule `libs`: its score if the
/// scorer can make sense of every entry that it looks at; else what is wrong
/// with the first entry of which it cannot, an unknown library or, its library
/// known, a book from outside the catalog.
pub open spec fn scorer_says(
    problem: &Problem,
    libs: Seq<ScanOrderView>,
    result: Result<usize, InvariantViolation>,
) -> bool {
    match result {
        Ok(score) => {
            &&& score == scored(problem, libs)
            &&& forall|p: int| #[trigger]
                reached(problem, libs, p) ==> entry_known(problem, libs[p])
        },
        Err(InvariantViolation::UnknownLibrary) => exists|p: int| #[trigger]
            first_unknown(problem, libs, p) && libs[p].id >= problem.libraries@.len(),
        Err(InvariantViolation::ForeignBook) => exists|p: int| #[trigger]
            first_unknown(problem, libs, p) && libs[p].id < problem.libraries@.len(),
        Err(_) => false,
    }
}

/// The signups of a longer beginning of a schedule take no fewer days.
pub proof fn lemma_signup_total_grows(problem: &Problem, libs: Seq<ScanOrderView>, p: int, q: int)
    requires
        0 <= p <= q <= libs.len(),
    ensures
        signup_total(problem, libs.take(p)) <= signup_total(problem, libs.take(q)),
        0 <= signup_total(problem, libs.take(p)),
    decreases q - p,
{
    if p < q {
        assert(libs.take(q).drop_last() =~= libs.take(q - 1));
        lemma_signup_total_grows(problem, libs, p, q - 1);
    } else {
        lemma_signup_total_positive(problem, libs.take(p));
    }
}

/// Signups take no negative number of days.
pub proof fn lemma_signup_total_positive(problem: &Problem, libs: Seq<ScanOrderView>)
    ensures
        0 <= signup_total(problem, libs),
    decreases libs.len(),
{
    if libs.len() > 0 {
        lemma_signup_total_positive(problem, libs.drop_last());
    }
}

/// Counts the first `n` of `books`: each that is new to `counted` joins it
/// and adds its score.
fn count_books(
    problem: &Problem,
    books: &Vec<BookId>,
    n: usize,
    counted: &mut HashSet<BookId>,
    score: &mut usize,
)
    requires
        total_score(problem.scores@) <= usize::MAX,
        n <= books@.len(),
        forall|k: int| 0 <= k < n ==> (#[trigger] books@[k]) < problem.scores@.len(),
        *old(score) == claimed_score(problem.scores@, old(counted)@),
    ensures
        forall|b: BookId| #[trigger]
            final(counted)@.contains(b) <==> old(counted)@.contains(b) || exists|k: int|
                0 <= k < n && #[trigger] books@[k] == b,
        *final(score) == claimed_score(problem.scores@, final(counted)@),
{
    let mut k: usize = 0;
    while k < n
        invariant
            k <= n <= books@.len(),
            problem.scores@.len() == problem.scores.len(),
            total_score(problem.scores@) <= usize::MAX,
            forall|k: int| 0 <= k < n ==> (#[trigger] books@[k]) < problem.scores@.len(),
            forall|b: BookId| #[trigger]
                counted@.contains(b) <==> old(counted)@.contains(b) || exists|j: int|
                    0 <= j < k && #[trigger] books@[j] == b,
            *score == claimed_score(problem.scores@, counted@),
        decreases n - k,
    {
        let book = books[k];
        proof {
            if !counted@.contains(book) {
                lemma_claim_one(problem.scores@, counted@, book);
                lemma_score_bounds(problem.scores@, counted@.insert(book));
            } else {
                assert(counted@.insert(book) =~= counted@);
            }
        }
        let ghost before = counted@;
        if counted.insert(book) {
            *score = *score + problem.scores[book];
        }
        proof {
            assert forall|b: BookId| #[trigger]
                counted@.contains(b) <==> old(counted)@.contains(b) || exists|j: int|
                    0 <= j < k + 1 && #[trigger] books@[j] == b by {
                if counted@.contains(b) && !old(counted)@.contains(b) {
                    if b == book {
                        assert(books@[k as int] == b);
                    } else {
                        assert(before.contains(b));
                        let j = choose|j: int| 0 <= j < k && #[trigger] books@[j] == b;
                        assert(0 <= j < k + 1 && books@[j] == b);
                    }
                }
                if exists|j: int| 0 <= j < k + 1 && #[trigger] books@[j] == b {
                    let j = choose|j: int| 0 <= j < k + 1 && #[trigger] books@[j] == b;
                    if j < k {
                        assert(before.contains(b));
                    }
                }
            }
        }
        k += 1;
    }
}

/// Derives the score of a schedule from its entries. It walks them in
/// activation order as long as a signup starts before the deadline. Of each
/// entry it counts the first books, as many as the library can still scan
/// after its signup, and it adds up the scores of the books counted, a book
/// that several entries scan once.
///
/// An entry on the way that names no library of the problem, or scans a book
/// that its library does not hold, ends the walk with the error that says so.
pub fn calc_score(problem: &Problem, solution: &Solution) -> (result: Result<
    usize,
    InvariantViolation,
>)
    requires
        problem.wf(),
    ensures
        scorer_says(problem, solution@.libs, result),
{
    let ghost libs = solution@.libs;
    let mut counted: HashSet<BookId> = HashSet::new();
    let mut score: usize = 0;
    let mut days_left: usize = problem.days;
    let mut p: usize = 0;
    proof {
        lemma_score_of_nothing(problem.scores@, problem.scores@.len());
        assert(counted@ =~= Set::empty());
        assert(libs.take(0) =~= Seq::empty());
    }
    while p < solution.libs.len() && days_left > 0
        invariant
            p <= solution.libs@.len(),
            libs == solution@.libs,
            libs.len() == solution.libs@.len(),
            problem.wf(),
            days_left == if days_before(problem, libs, p as int) > 0 {
                days_before(problem, libs, p as int)
            } else {
                0
            },
            forall|q: int| 0 <= q < p ==> entry_known(problem, #[trigger] libs[q]),
            forall|b: BookId| #[trigger]
                counted@.contains(b) <==> counted_before(problem, libs, p as int, b),
            score == claimed_score(problem.scores@, counted@),
        decreases solution.libs.len() - p,
    {
        let lib = &solution.libs[p];
        assert(lib@ == libs[p as int]);
        assert(reached(problem, libs, p as int));
        if lib.id >= problem.libraries.len() {
            assert(first_unknown(problem, libs, p as int));
            return Err(InvariantViolation::UnknownLibrary);
        }
        let lib_input = &problem.libraries[lib.id];
        if !all_in_catalog(&problem.scores, &lib_input.books, &lib.books) {
            proof {
                let k = choose|k: int|
                    0 <= k < lib.books@.len() && !lib_input.books@.contains(
                        #[trigger] lib.books@[k],
                    );
                assert(!problem.libraries@[libs[p as int].id as int].books@.contains(
                    libs[p as int].books[k],
                ));
                assert(!entry_known(problem, libs[p as int]));
                assert(first_unknown(problem, libs, p as int));
            }
            return Err(InvariantViolation::ForeignBook);
        }
        proof {
            assert(entry_known(problem, libs[p as int]));
            assert(libs.take(p + 1).drop_last() =~= libs.take(p as int));
        }
        days_left = days_left.saturating_sub(lib_input.signup);
        let max_scanned_books = capacity_of(lib_input, days_left);
        let total_books_scanned = if max_scanned_books < lib.books.len() {
            max_scanned_books
        } else {
            lib.books.len()
        };
        proof {
            assert(total_books_scanned == counted_len(problem, libs, p as int));
            lemma_known_books_have_scores(problem, libs[p as int]);
        }
        let ghost before = counted@;
        count_books(problem, &lib.books, total_books_scanned, &mut counted, &mut score);
        proof {
            lemma_counted_step(problem, libs, p as int, before, counted@);
        }
        p += 1;
    }
    proof {
        lemma_counted_all(problem, libs, p as int, counted@);
        assert forall|q: int| #[trigger] reached(problem, libs, q) implies entry_known(
            problem,
            libs[q],
        ) by {
            if q >= p {
                lemma_signup_total_grows(problem, libs, p as int, q);
            }
        }
    }
    Ok(score)
}

/// The books of an entry that the scorer can make sense of have scores.
pub proof fn lemma_known_books_have_scores(problem: &Problem, e: ScanOrderView)
    requires
        problem.wf(),
        entry_known(problem, e),
    ensures
        forall|k: int| 0 <= k < e.books.len() ==> (#[trigger] e.books[k]) < problem.scores@.len(),
{
    let catalog = problem.libraries@[e.id as int].books@;
    assert forall|k: int| 0 <= k < e.books.len() implies (#[trigger] e.books[k])
        < problem.scores@.len() by {
        assert(catalog.contains(e.books[k]));
        let i = choose|i: int| 0 <= i < catalog.len() && catalog[i] == e.books[k];
        assert(catalog[i] < problem.scores@.len());
    }
}

/// Once the books that count for entry `p` have joined those that count for
/// the entries before it, the set holds the books that count for the entries
/// up to `p`.
proof fn lemma_counted_step(
    problem: &Problem,
    libs: Seq<ScanOrderView>,
    p: int,
    before: Set<BookId>,
    after: Set<BookId>,
)
    requires
        reached(problem, libs, p),
        forall|b: BookId| #[trigger] before.contains(b) <==> counted_before(problem, libs, p, b),
        forall|b: BookId| #[trigger]
            after.contains(b) <==> before.contains(b) || exists|k: int|
                0 <= k < counted_len(problem, libs, p) && #[trigger] libs[p].books[k] == b,
    ensures
        forall|b: BookId| #[trigger] after.contains(b) <==> counted_before(problem, libs, p + 1, b),
{
    assert forall|b: BookId| #[trigger] after.contains(b) <==> counted_before(
        problem,
        libs,
        p + 1,
        b,
    ) by {
        if after.contains(b) {
            if before.contains(b) {
                let q = choose|q: int| q < p && counts(problem, libs, q, b);
                assert(q < p + 1 && counts(problem, libs, q, b));
            } else {
                assert(counts(problem, libs, p, b));
            }
        }
        if counted_before(problem, libs, p + 1, b) {
            let q = choose|q: int| q < p + 1 && counts(problem, libs, q, b);
            if q < p {
                assert(counted_before(problem, libs, p, b));
            }
        }
    }
}

/// Where the scorer stops, the books counted so far are all that count.
proof fn lemma_counted_all(
    problem: &Problem,
    libs: Seq<ScanOrderView>,
    p: int,
    counted: Set<BookId>,
)
    requires
        0 <= p <= libs.len(),
        p < libs.len() ==> days_before(problem, libs, p) <= 0,
        forall|b: BookId| #[trigger] counted.contains(b) <==> counted_before(problem, libs, p, b),
    ensures
        counted == counted_books(problem, libs),
{
    assert forall|b: BookId| counted.contains(b) <==> counted_books(problem, libs).contains(b) by {
        if counted_before(problem, libs, p, b) {
            let q = choose|q: int| q < p && counts(problem, libs, q, b);
            assert(q < libs.len() && counts(problem, libs, q, b));
        }
        if counted_before(problem, libs, libs.len() as int, b) {
            let q = choose|q: int| q < libs.len() && counts(problem, libs, q, b);
            assert(reached(problem, libs, q));
            if q >= p {
                lemma_signup_total_grows(problem, libs, p, q);
            }
            assert(q < p && counts(problem, libs, q, b));
        }
    }
    assert(counted =~= counted_books(problem, libs));
}

} // verus!
