//! Checking a solution against the problem: is it a feasible schedule, and
//! does it record of itself what is true?

use vstd::prelude::*;
use vstd::std_specs::iter::IteratorSpec;
use std::collections::{HashMap, HashSet};
use crate::problem::{claimed_score, ranked, BookId, Problem};
use crate::ranking::{all_in_catalog, is_ranked, rank_search};
use crate::schedule::{activated_libraries, capacity_of, lemma_push_entry};
use crate::solution::{
    activated, days_left_after, entries_valid, ownership_valid, record_books, scan_capacity,
    scanned, scans, slot_valid, solution_valid, InvariantViolation, ScanOrderView, Solution,
    SolutionView,
};
use crate::tally::lemma_score_of_nothing;

verus! {

/// `books` and `books_left` are the catalog split in two: both are ranked,
/// no book is in both, and together they hold the books of the catalog.
pub open spec fn splits_catalog(
    scores: Seq<usize>,
    catalog: Seq<BookId>,
    books: Seq<BookId>,
    books_left: Seq<BookId>,
) -> bool {
    &&& ranked(scores, books)
    &&& ranked(scores, books_left)
    &&& forall|b: BookId|
        #![trigger catalog.contains(b)]
        #![trigger books.contains(b)]
        #![trigger books_left.contains(b)]
        catalog.contains(b) <==> (books.contains(b) || books_left.contains(b))
    &&& forall|b: BookId| !(#[trigger] books.contains(b) && books_left.contains(b))
}

/// What is wrong with entry `p` where it stands, if anything is: the first
/// of the faults in the order of [`InvariantViolation`].
pub open spec fn entry_fault(problem: &Problem, libs: Seq<ScanOrderView>, p: int) -> Option<
    InvariantViolation,
> {
    let e = libs[p];
    let done = libs.take(p);
    let lib = &problem.libraries@[e.id as int];
    if e.id >= problem.libraries@.len() {
        Some(InvariantViolation::UnknownLibrary)
    } else if activated(done, e.id as int) {
        Some(InvariantViolation::RepeatedLibrary)
    } else if lib.signup > days_left_after(problem, done) {
        Some(InvariantViolation::OverBudget)
    } else if !splits_catalog(problem.scores@, lib.books@, e.books, e.books_left) {
        Some(InvariantViolation::CatalogNotSplit)
    } else if e.max_scanned_books != scan_capacity(
        lib,
        days_left_after(problem, done) - lib.signup,
    ) {
        Some(InvariantViolation::WrongCapacity)
    } else if e.books.len() > e.max_scanned_books {
        Some(InvariantViolation::CapacityExceeded)
    } else if exists|k: int| 0 <= k < e.books.len() && scanned(done, #[trigger] e.books[k]) {
        Some(InvariantViolation::DuplicateBook)
    } else {
        None
    }
}

/// `result` is what the check makes of the solution: nothing if it is valid;
/// else the fault of its first entry that has one; else, its entries being a
/// feasible schedule, that it records wrongly which books are scanned and by
/// whom, or, these being right, what they score.
pub open spec fn check_says(
    problem: &Problem,
    sol: SolutionView,
    result: Result<(), InvariantViolation>,
) -> bool {
    match result {
        Ok(_) => solution_valid(problem, sol),
        Err(InvariantViolation::StaleIndex) => entries_valid(problem, sol.libs)
            && !ownership_valid(sol),
        Err(InvariantViolation::WrongScore) => entries_valid(problem, sol.libs) && ownership_valid(
            sol,
        ) && sol.score != claimed_score(problem.scores@, sol.books_taken),
        Err(fault) => exists|p: int|
            0 <= p < sol.libs.len() && #[trigger] entry_fault(problem, sol.libs, p) == Some(fault)
                && forall|q: int|
                0 <= q < p ==> (#[trigger] entry_fault(problem, sol.libs, q)) is None,
    }
}

/// The first `n` entries of a schedule without a fault are a feasible
/// schedule.
pub proof fn lemma_faultless_is_valid(problem: &Problem, libs: Seq<ScanOrderView>, n: int)
    requires
        0 <= n <= libs.len(),
        forall|p: int| 0 <= p < n ==> (#[trigger] entry_fault(problem, libs, p)) is None,
    ensures
        entries_valid(problem, libs.take(n)),
{
    let head = libs.take(n);
    assert forall|p: int| 0 <= p < head.len() implies #[trigger] slot_valid(problem, head, p) by {
        assert(entry_fault(problem, libs, p) is None);
        assert(head.take(p + 1) =~= libs.take(p + 1));
        assert(libs.take(p + 1).drop_last() =~= libs.take(p));
        assert(head[p] == libs[p]);
    }
    assert forall|p: int, q: int| 0 <= p < q < head.len() implies (#[trigger] head[p]).id != (
    #[trigger] head[q]).id by {
        assert(entry_fault(problem, libs, q) is None);
        assert(libs.take(q)[p].id == libs[p].id);
    }
    assert forall|p: int, q: int, b: BookId| #[trigger]
        scans(head, p, b) && #[trigger] scans(head, q, b) implies p == q by {
        if p < q {
            lemma_scanned_earlier(problem, libs, p, q, b);
        } else if q < p {
            lemma_scanned_earlier(problem, libs, q, p, b);
        }
    }
}

/// An entry without a fault scans no book that an entry before it scans.
proof fn lemma_scanned_earlier(
    problem: &Problem,
    libs: Seq<ScanOrderView>,
    p: int,
    q: int,
    b: BookId,
)
    requires
        0 <= p < q < libs.len(),
        entry_fault(problem, libs, q) is None,
        libs[p].books.contains(b),
    ensures
        !libs[q].books.contains(b),
{
    if libs[q].books.contains(b) {
        let k = choose|k: int| 0 <= k < libs[q].books.len() && libs[q].books[k] == b;
        assert(scans(libs.take(q), p, b));
        assert(scanned(libs.take(q), libs[q].books[k]));
    }
}

/// In a feasible schedule no entry has a fault.
pub proof fn lemma_valid_is_faultless(problem: &Problem, libs: Seq<ScanOrderView>, p: int)
    requires
        entries_valid(problem, libs),
        0 <= p < libs.len(),
    ensures
        entry_fault(problem, libs, p) is None,
{
    let e = libs[p];
    let done = libs.take(p);
    assert(slot_valid(problem, libs, p));
    assert(libs.take(p + 1).drop_last() =~= done);
    if activated(done, e.id as int) {
        let q = choose|q: int| 0 <= q < done.len() && #[trigger] done[q].id == e.id as int;
        assert(libs[q].id != libs[p].id);
    }
    if exists|k: int| 0 <= k < e.books.len() && scanned(done, #[trigger] e.books[k]) {
        let k = choose|k: int| 0 <= k < e.books.len() && scanned(done, #[trigger] e.books[k]);
        let q = choose|q: int| scans(done, q, e.books[k]);
        assert(scans(libs, q, e.books[k]));
        assert(e.books.contains(e.books[k]));
        assert(scans(libs, p, e.books[k]));
    }
}

/// Tells whether none of `books` is in the ranked sequence `others`.
fn none_in(scores: &Vec<usize>, others: &Vec<BookId>, books: &Vec<BookId>) -> (none: bool)
    requires
        ranked(scores@, others@),
        ranked(scores@, books@),
    ensures
        none == forall|k: int| 0 <= k < books@.len() ==> !others@.contains(#[trigger] books@[k]),
{
    let mut k: usize = 0;
    while k < books.len()
        invariant
            k <= books.len(),
            ranked(scores@, others@),
            ranked(scores@, books@),
            forall|j: int| 0 <= j < k ==> !others@.contains(#[trigger] books@[j]),
        decreases books.len() - k,
    {
        if let Ok(at) = rank_search(scores, others, books[k]) {
            assert(others@[at as int] == books@[k as int]);
            assert(others@.contains(books@[k as int]));
            return false;
        }
        k += 1;
    }
    true
}

/// Tells whether each book of `catalog` is in one of the ranked sequences
/// `books` and `books_left`.
fn all_in_either(
    scores: &Vec<usize>,
    catalog: &Vec<BookId>,
    books: &Vec<BookId>,
    books_left: &Vec<BookId>,
) -> (all: bool)
    requires
        ranked(scores@, catalog@),
        ranked(scores@, books@),
        ranked(scores@, books_left@),
    ensures
        all == forall|i: int|
            0 <= i < catalog@.len() ==> books@.contains(#[trigger] catalog@[i])
                || books_left@.contains(catalog@[i]),
{
    let mut i: usize = 0;
    while i < catalog.len()
        invariant
            i <= catalog.len(),
            ranked(scores@, catalog@),
            ranked(scores@, books@),
            ranked(scores@, books_left@),
            forall|j: int|
                0 <= j < i ==> books@.contains(#[trigger] catalog@[j]) || books_left@.contains(
                    catalog@[j],
                ),
        decreases catalog.len() - i,
    {
        let book = catalog[i];
        match rank_search(scores, books, book) {
            Ok(at) => {
                assert(books@[at as int] == catalog@[i as int]);
            },
            Err(_) => {
                match rank_search(scores, books_left, book) {
                    Ok(at) => {
                        assert(books_left@[at as int] == catalog@[i as int]);
                    },
                    Err(_) => {
                        return false;
                    },
                }
            },
        }
        i += 1;
    }
    true
}

/// Tells whether `books` and `books_left` are the catalog split in two
/// ranked parts.
pub fn check_split(
    problem: &Problem,
    catalog: &Vec<BookId>,
    books: &Vec<BookId>,
    books_left: &Vec<BookId>,
) -> (split: bool)
    requires
        ranked(problem.scores@, catalog@),
    ensures
        split == splits_catalog(problem.scores@, catalog@, books@, books_left@),
{
    if !is_ranked(&problem.scores, books) || !is_ranked(&problem.scores, books_left) {
        return false;
    }
    if !all_in_catalog(&problem.scores, catalog, books) {
        proof {
            let k = choose|k: int|
                0 <= k < books@.len() && !catalog@.contains(#[trigger] books@[k]);
            assert(books@.contains(books@[k]));
        }
        return false;
    }
    if !all_in_catalog(&problem.scores, catalog, books_left) {
        proof {
            let k = choose|k: int|
                0 <= k < books_left@.len() && !catalog@.contains(#[trigger] books_left@[k]);
            assert(books_left@.contains(books_left@[k]));
        }
        return false;
    }
    if !none_in(&problem.scores, books_left, books) {
        proof {
            let k = choose|k: int|
                0 <= k < books@.len() && books_left@.contains(#[trigger] books@[k]);
            assert(books@.contains(books@[k]));
        }
        return false;
    }
    if !all_in_either(&problem.scores, catalog, books, books_left) {
        proof {
            let i = choose|i: int|
                0 <= i < catalog@.len() && !(books@.contains(#[trigger] catalog@[i])
                    || books_left@.contains(catalog@[i]));
            assert(catalog@.contains(catalog@[i]));
        }
        return false;
    }
    proof {
        assert forall|b: BookId|
            #![trigger catalog@.contains(b)]
            #![trigger books@.contains(b)]
            #![trigger books_left@.contains(b)]
            catalog@.contains(b) <==> (books@.contains(b) || books_left@.contains(b)) by {
            if catalog@.contains(b) {
                let i = choose|i: int| 0 <= i < catalog@.len() && catalog@[i] == b;
                assert(books@.contains(catalog@[i]) || books_left@.contains(catalog@[i]));
            }
            if books@.contains(b) {
                let k = choose|k: int| 0 <= k < books@.len() && books@[k] == b;
                assert(catalog@.contains(books@[k]));
            }
            if books_left@.contains(b) {
                let k = choose|k: int| 0 <= k < books_left@.len() && books_left@[k] == b;
                assert(catalog@.contains(books_left@[k]));
            }
        }
        assert forall|b: BookId| !(#[trigger] books@.contains(b) && books_left@.contains(b)) by {
            if books@.contains(b) {
                let k = choose|k: int| 0 <= k < books@.len() && books@[k] == b;
                assert(!books_left@.contains(books@[k]));
            }
        }
    }
    true
}

/// Tells whether `taken` holds one of `books`.
fn any_taken(books: &Vec<BookId>, taken: &HashSet<BookId>) -> (any: bool)
    ensures
        any == exists|k: int| 0 <= k < books@.len() && taken@.contains(#[trigger] books@[k]),
{
    let mut k: usize = 0;
    while k < books.len()
        invariant
            k <= books.len(),
            forall|j: int| 0 <= j < k ==> !taken@.contains(#[trigger] books@[j]),
        decreases books.len() - k,
    {
        if taken.contains(&books[k]) {
            return true;
        }
        k += 1;
    }
    false
}

/// What the entries of a solution make of scanned books: who scans which
/// book, which books are scanned, and what they score.
struct Ledger {
    owner: HashMap<BookId, usize>,
    taken: HashSet<BookId>,
    score: usize,
}

/// The ledger is that of the entries `libs`.
spec fn ledger_of(problem: &Problem, libs: Seq<ScanOrderView>, ledger: &Ledger) -> bool {
    &&& forall|b: BookId| #[trigger] ledger.taken@.contains(b) <==> scanned(libs, b)
    &&& forall|b: BookId| #[trigger] ledger.owner@.contains_key(b) <==> ledger.taken@.contains(b)
    &&& forall|b: BookId| #[trigger]
        ledger.owner@.contains_key(b) ==> scans(libs, ledger.owner@[b] as int, b)
    &&& ledger.score == claimed_score(problem.scores@, ledger.taken@)
    &&& ledger.taken@.finite()
}

/// Checks the entries of a solution one after another, and draws up their
/// ledger.
fn check_entries(problem: &Problem, solution: &Solution) -> (result: Result<
    Ledger,
    InvariantViolation,
>)
    requires
        problem.wf(),
    ensures
        match result {
            Ok(ledger) => entries_valid(problem, solution@.libs) && ledger_of(
                problem,
                solution@.libs,
                &ledger,
            ),
            Err(fault) => exists|p: int|
                0 <= p < solution@.libs.len() && #[trigger] entry_fault(problem, solution@.libs, p)
                    == Some(fault) && forall|q: int|
                    0 <= q < p ==> (#[trigger] entry_fault(problem, solution@.libs, q)) is None,
        },
{
    let ghost libs = solution@.libs;
    let mut ledger = Ledger { owner: HashMap::new(), taken: HashSet::new(), score: 0 };
    let mut used_libraries: HashSet<usize> = HashSet::new();
    let mut days_left: usize = problem.days;
    let mut p: usize = 0;
    proof {
        lemma_score_of_nothing(problem.scores@, problem.scores@.len());
        assert(ledger.taken@ =~= Set::empty());
        assert(libs.take(0) =~= Seq::empty());
        assert(used_libraries@ =~= activated_libraries(libs.take(0)));
    }
    while p < solution.libs.len()
        invariant
            p <= solution.libs@.len(),
            libs == solution@.libs,
            libs.len() == solution.libs@.len(),
            problem.wf(),
            forall|q: int| 0 <= q < p ==> (#[trigger] entry_fault(problem, libs, q)) is None,
            ledger_of(problem, libs.take(p as int), &ledger),
            used_libraries@ == activated_libraries(libs.take(p as int)),
            days_left == days_left_after(problem, libs.take(p as int)),
        decreases solution.libs.len() - p,
    {
        let ghost done = libs.take(p as int);
        let entry = &solution.libs[p];
        assert(entry@ == libs[p as int]);
        if entry.id >= problem.libraries.len() {
            assert(entry_fault(problem, libs, p as int) == Some(
                InvariantViolation::UnknownLibrary,
            ));
            return Err(InvariantViolation::UnknownLibrary);
        }
        let lib = &problem.libraries[entry.id];
        proof {
            assert(activated_libraries(done).contains(entry.id) <==> activated(
                done,
                entry.id as int,
            ));
        }
        if used_libraries.contains(&entry.id) {
            assert(entry_fault(problem, libs, p as int) == Some(
                InvariantViolation::RepeatedLibrary,
            ));
            return Err(InvariantViolation::RepeatedLibrary);
        }
        if lib.signup > days_left {
            assert(entry_fault(problem, libs, p as int) == Some(InvariantViolation::OverBudget));
            return Err(InvariantViolation::OverBudget);
        }
        if !check_split(problem, &lib.books, &entry.books, &entry.books_left) {
            assert(entry_fault(problem, libs, p as int) == Some(
                InvariantViolation::CatalogNotSplit,
            ));
            return Err(InvariantViolation::CatalogNotSplit);
        }
        if entry.max_scanned_books != capacity_of(lib, days_left - lib.signup) {
            assert(entry_fault(problem, libs, p as int) == Some(InvariantViolation::WrongCapacity));
            return Err(InvariantViolation::WrongCapacity);
        }
        if entry.books.len() > entry.max_scanned_books {
            assert(entry_fault(problem, libs, p as int) == Some(
                InvariantViolation::CapacityExceeded,
            ));
            return Err(InvariantViolation::CapacityExceeded);
        }
        if any_taken(&entry.books, &ledger.taken) {
            proof {
                let k = choose|k: int|
                    0 <= k < entry.books@.len() && ledger.taken@.contains(
                        #[trigger] entry.books@[k],
                    );
                assert(scanned(done, libs[p as int].books[k]));
                assert(entry_fault(problem, libs, p as int) == Some(
                    InvariantViolation::DuplicateBook,
                ));
            }
            return Err(InvariantViolation::DuplicateBook);
        }
        proof {
            assert forall|k: int| 0 <= k < libs[p as int].books.len() implies !scanned(
                done,
                #[trigger] libs[p as int].books[k],
            ) by {
                assert(!ledger.taken@.contains(entry.books@[k]));
            }
            assert(entry_fault(problem, libs, p as int) is None);
            assert(done.push(libs[p as int]) =~= libs.take(p + 1));
            lemma_push_entry(problem, done, libs[p as int]);
        }
        let ghost before = ledger;
        record_books(
            problem,
            &entry.books,
            p,
            &mut ledger.owner,
            &mut ledger.taken,
            &mut ledger.score,
        );
        days_left -= lib.signup;
        used_libraries.insert(entry.id);
        proof {
            let longer = libs.take(p + 1);
            assert forall|b: BookId| #[trigger]
                ledger.owner@.contains_key(b) implies scans(longer, ledger.owner@[b] as int, b) by {
                if libs[p as int].books.contains(b) {
                    assert(scans(longer, p as int, b));
                } else {
                    assert(before.owner@.contains_key(b));
                    assert(scans(done, before.owner@[b] as int, b));
                }
            }
            assert(ledger.taken@.finite()) by {
                assert(ledger.taken@ =~= before.taken@.union(entry.books@.to_set()));
                vstd::seq_lib::seq_to_set_is_finite(entry.books@);
            }
            assert(used_libraries@ =~= activated_libraries(longer)) by {
                assert forall|x: usize|
                    used_libraries@.contains(x) <==> activated_libraries(longer).contains(x) by {
                    assert(activated_libraries(done).contains(x) <==> activated(done, x as int));
                }
            }
        }
        p += 1;
    }
    proof {
        assert(libs.take(p as int) =~= libs);
        lemma_faultless_is_valid(problem, libs, p as int);
    }
    Ok(ledger)
}

/// Tells whether the solution records of each book that entry `p` scans that
/// it is scanned, and by that entry.
fn entry_recorded(solution: &Solution, p: usize) -> (recorded: bool)
    requires
        p < solution.libs@.len(),
    ensures
        recorded == forall|k: int|
            0 <= k < solution.libs@[p as int].books@.len() ==> {
                let b = #[trigger] solution.libs@[p as int].books@[k];
                &&& solution.books_taken@.contains(b)
                &&& solution.libs_by_book_used@.contains_key(b)
                &&& solution.libs_by_book_used@[b] == p
            },
{
    let books = &solution.libs[p].books;
    let mut k: usize = 0;
    while k < books.len()
        invariant
            k <= books.len(),
            p < solution.libs@.len(),
            books@ == solution.libs@[p as int].books@,
            forall|j: int|
                0 <= j < k ==> {
                    let b = #[trigger] books@[j];
                    &&& solution.books_taken@.contains(b)
                    &&& solution.libs_by_book_used@.contains_key(b)
                    &&& solution.libs_by_book_used@[b] == p
                },
        decreases books.len() - k,
    {
        let book = books[k];
        if !solution.books_taken.contains(&book) {
            return false;
        }
        match solution.libs_by_book_used.get(&book) {
            Some(owner) => {
                if *owner != p {
                    return false;
                }
            },
            None => {
                return false;
            },
        }
        k += 1;
    }
    true
}

/// Tells whether the solution records rightly which books are scanned and by
/// whom.
fn check_ownership(problem: &Problem, solution: &Solution, ledger: &Ledger) -> (ok: bool)
    requires
        entries_valid(problem, solution@.libs),
        ledger_of(problem, solution@.libs, ledger),
    ensures
        ok == ownership_valid(solution@),
{
    let ghost sol = solution@;
    proof {
        // The view of a hash set is the set of what its iterator yields: finite.
        let yielded = solution.books_taken.iter().remaining().unref();
        assert(yielded.to_set() == sol.books_taken);
        vstd::seq_lib::seq_to_set_is_finite(yielded);
        assert(sol.libs_by_book_used.dom().finite());
        assert(ledger.owner@.dom().finite());
        assert(ledger.owner@.dom() =~= ledger.taken@);
        if ownership_valid(sol) {
            assert(sol.books_taken =~= ledger.taken@);
            assert(sol.libs_by_book_used.dom() =~= ledger.owner@.dom());
        }
    }
    if solution.books_taken.len() != ledger.taken.len() || solution.libs_by_book_used.len()
        != ledger.owner.len() {
        return false;
    }
    let mut p: usize = 0;
    while p < solution.libs.len()
        invariant
            p <= solution.libs@.len(),
            sol == solution@,
            entries_valid(problem, sol.libs),
            forall|q: int, b: BookId|
                0 <= q < p && #[trigger] scans(sol.libs, q, b) ==> {
                    &&& sol.books_taken.contains(b)
                    &&& sol.libs_by_book_used.contains_key(b)
                    &&& sol.libs_by_book_used[b] == q
                },
        decreases solution.libs.len() - p,
    {
        if !entry_recorded(solution, p) {
            proof {
                let books = sol.libs[p as int].books;
                let k = choose|k: int|
                    0 <= k < books.len() && !({
                        let b = #[trigger] solution.libs@[p as int].books@[k];
                        &&& solution.books_taken@.contains(b)
                        &&& solution.libs_by_book_used@.contains_key(b)
                        &&& solution.libs_by_book_used@[b] == p
                    });
                let b = books[k];
                assert(books.contains(b));
                assert(scans(sol.libs, p as int, b));
                assert(scanned(sol.libs, b));
                if ownership_valid(sol) {
                    assert(sol.books_taken.contains(b));
                    assert(sol.libs_by_book_used.contains_key(b));
                    assert(scans(sol.libs, sol.libs_by_book_used[b] as int, b));
                    assert(solution.libs@[p as int].books@[k] == b);
                }
            }
            return false;
        }
        proof {
            assert forall|q: int, b: BookId|
                0 <= q < p + 1 && #[trigger] scans(sol.libs, q, b) implies {
                &&& sol.books_taken.contains(b)
                &&& sol.libs_by_book_used.contains_key(b)
                &&& sol.libs_by_book_used[b] == q
            } by {
                if q == p {
                    let books = sol.libs[p as int].books;
                    let k = choose|k: int| 0 <= k < books.len() && books[k] == b;
                    assert(solution.libs@[p as int].books@[k] == b);
                }
            }
        }
        p += 1;
    }
    proof {
        assert(ledger.taken@.subset_of(sol.books_taken)) by {
            assert forall|b: BookId| ledger.taken@.contains(b) implies sol.books_taken.contains(
                b,
            ) by {
                let q = choose|q: int| scans(sol.libs, q, b);
                assert(scans(sol.libs, q, b));
            }
        }
        vstd::set_lib::lemma_subset_equality(ledger.taken@, sol.books_taken);
        assert(ledger.owner@.dom().subset_of(sol.libs_by_book_used.dom())) by {
            assert forall|b: BookId|
                ledger.owner@.dom().contains(b) implies sol.libs_by_book_used.dom().contains(b) by {
                assert(ledger.taken@.contains(b));
                let q = choose|q: int| scans(sol.libs, q, b);
                assert(scans(sol.libs, q, b));
            }
        }
        vstd::set_lib::lemma_subset_equality(ledger.owner@.dom(), sol.libs_by_book_used.dom());
        assert forall|b: BookId| #[trigger]
            sol.libs_by_book_used.contains_key(b) implies scans(
            sol.libs,
            sol.libs_by_book_used[b] as int,
            b,
        ) by {
            assert(ledger.owner@.dom().contains(b));
            assert(ledger.taken@.contains(b));
            let q = choose|q: int| scans(sol.libs, q, b);
            assert(scans(sol.libs, q, b));
        }
    }
    true
}

/// Checks a solution against the problem. It is valid if its entries are a
/// feasible schedule and it records rightly which books are scanned, by whom,
/// and what they score. Else the error says what is wrong: with the first
/// entry that has a fault, or with what the solution records.
pub fn check_invariants(problem: &Problem, solution: &Solution) -> (result: Result<
    (),
    InvariantViolation,
>)
    requires
        problem.wf(),
    ensures
        check_says(problem, solution@, result),
        result is Ok <==> solution.wf(problem),
{
    proof {
        if entries_valid(problem, solution@.libs) {
            assert forall|p: int| 0 <= p < solution@.libs.len() implies (#[trigger] entry_fault(
                problem,
                solution@.libs,
                p,
            )) is None by {
                lemma_valid_is_faultless(problem, solution@.libs, p);
            }
        }
    }
    match check_entries(problem, solution) {
        Err(fault) => {
            proof {
                let p = choose|p: int|
                    0 <= p < solution@.libs.len() && #[trigger] entry_fault(
                        problem,
                        solution@.libs,
                        p,
                    ) == Some(fault);
                assert(entry_fault(problem, solution@.libs, p) is Some);
                assert(fault != InvariantViolation::StaleIndex);
                assert(fault != InvariantViolation::WrongScore);
            }
            Err(fault)
        },
        Ok(ledger) => {
            if !check_ownership(problem, solution, &ledger) {
                return Err(InvariantViolation::StaleIndex);
            }
            proof {
                assert(solution@.books_taken =~= ledger.taken@);
            }
            if solution.score != ledger.score {
                return Err(InvariantViolation::WrongScore);
            }
            Ok(())
        },
    }
}

} // verus!
