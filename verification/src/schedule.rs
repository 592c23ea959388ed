//! Building a schedule entry by entry: what signing up one more library
//! makes of it.

use vstd::prelude::*;
use std::collections::HashSet;
use crate::candidate::{calc_for_lib, lemma_pick_splits, passed_over, picked, scan_budget};
use crate::problem::{lemma_ranked_no_duplicates, BookId, Library, Problem};
use crate::solution::{
    activated, books_known, days_left_after, entries_valid, entry_valid, entry_views, scan_capacity,
    scanned, scans, signup_total, slot_valid, InvariantViolation, LibraryScanOrder, ScanOrderView,
    Solution,
};

verus! {

/// What one more entry at the end changes: its signup days are added, its
/// books are scanned, its library is active. The entries before it stay as
/// they are.
pub proof fn lemma_push_entry(problem: &Problem, done: Seq<ScanOrderView>, e: ScanOrderView)
    ensures
        signup_total(problem, done.push(e)) == signup_total(problem, done)
            + problem.libraries@[e.id as int].signup,
        forall|b: BookId| #[trigger]
            scanned(done.push(e), b) <==> scanned(done, b) || e.books.contains(b),
        forall|l: int| #[trigger] activated(done.push(e), l) <==> activated(done, l) || e.id == l,
        forall|p: int, b: BookId|
            0 <= p < done.len() ==> (#[trigger] scans(done.push(e), p, b) <==> scans(done, p, b)),
        forall|b: BookId| #[trigger]
            scans(done.push(e), done.len() as int, b) <==> e.books.contains(b),
        forall|p: int|
            0 <= p <= done.len() ==> #[trigger] done.push(e).take(p) == done.take(p),
        done.push(e).take(done.len() as int + 1) == done.push(e),
        forall|p: int|
            0 <= p < done.len() ==> (#[trigger] slot_valid(problem, done.push(e), p)
                <==> slot_valid(problem, done, p)),
{
    let longer = done.push(e);
    assert(longer.drop_last() =~= done);
    assert forall|b: BookId| #[trigger] scanned(longer, b) <==> scanned(done, b)
        || e.books.contains(b) by {
        if scanned(longer, b) {
            let p = choose|p: int| scans(longer, p, b);
            if p < done.len() {
                assert(scans(done, p, b));
            }
        }
        if scanned(done, b) {
            let p = choose|p: int| scans(done, p, b);
            assert(scans(longer, p, b));
        }
        if e.books.contains(b) {
            assert(scans(longer, done.len() as int, b));
        }
    }
    assert forall|l: int| #[trigger] activated(longer, l) <==> activated(done, l) || e.id == l by {
        if activated(longer, l) {
            let p = choose|p: int| 0 <= p < longer.len() && #[trigger] longer[p].id == l;
            if p < done.len() {
                assert(done[p].id == l);
            }
        }
        if activated(done, l) {
            let p = choose|p: int| 0 <= p < done.len() && #[trigger] done[p].id == l;
            assert(longer[p].id == l);
        }
        if e.id == l {
            assert(longer[done.len() as int].id == l);
        }
    }
    assert forall|p: int| 0 <= p <= done.len() implies #[trigger] longer.take(p) == done.take(
        p,
    ) by {
        assert(longer.take(p) =~= done.take(p));
    }
    assert(longer.take(done.len() as int + 1) =~= longer);
    assert forall|p: int| 0 <= p < done.len() implies (#[trigger] slot_valid(problem, longer, p)
        <==> slot_valid(problem, done, p)) by {
        assert(longer.take(p + 1) =~= done.take(p + 1));
    }
}

/// A feasible schedule stays feasible when a library that is not active yet
/// is signed up at its end, provided that its signup fits the days that are
/// left, that its entry is valid with the days that remain after the signup,
/// and that it scans no book that is scanned already.
pub proof fn lemma_extend_valid(problem: &Problem, done: Seq<ScanOrderView>, e: ScanOrderView)
    requires
        entries_valid(problem, done),
        !activated(done, e.id as int),
        problem.libraries@[e.id as int].signup <= days_left_after(problem, done),
        entry_valid(
            problem,
            e,
            days_left_after(problem, done) - problem.libraries@[e.id as int].signup,
        ),
        forall|b: BookId| #[trigger] e.books.contains(b) ==> !scanned(done, b),
    ensures
        entries_valid(problem, done.push(e)),
{
    let longer = done.push(e);
    lemma_push_entry(problem, done, e);
    assert forall|p: int| 0 <= p < longer.len() implies #[trigger] slot_valid(
        problem,
        longer,
        p,
    ) by {
        if p < done.len() {
            assert(slot_valid(problem, done, p));
        }
    }
    assert forall|p: int, q: int| 0 <= p < q < longer.len() implies (#[trigger] longer[p]).id != (
    #[trigger] longer[q]).id by {
        if q == done.len() {
            assert(done[p].id == longer[p].id);
        } else {
            assert(done[p].id != done[q].id);
        }
    }
    assert forall|p: int, q: int, b: BookId| #[trigger]
        scans(longer, p, b) && #[trigger] scans(longer, q, b) implies p == q by {
        if p < done.len() {
            assert(scans(done, p, b));
        }
        if q < done.len() {
            assert(scans(done, q, b));
        }
    }
}

/// The books that the entries `done` scan.
pub open spec fn scanned_books(done: Seq<ScanOrderView>) -> Set<BookId> {
    Set::new(|b: BookId| scanned(done, b))
}

/// The libraries that the entries `done` have activated.
pub open spec fn activated_libraries(done: Seq<ScanOrderView>) -> Set<usize> {
    Set::new(|l: usize| activated(done, l as int))
}

/// The entry of library `l` when its signup starts with `days_left` days to go
/// and the books in `claimed` are scanned already: it scans its best books
/// that are not claimed, as many as it has time for.
pub open spec fn entry_for(
    problem: &Problem,
    l: int,
    claimed: Set<BookId>,
    days_left: int,
) -> ScanOrderView {
    let lib = &problem.libraries@[l];
    ScanOrderView {
        id: l as usize,
        books: picked(lib.books@, claimed, scan_budget(lib, days_left)),
        books_left: passed_over(lib.books@, claimed, scan_budget(lib, days_left)),
        max_scanned_books: scan_capacity(lib, days_left - lib.signup) as usize,
    }
}

/// The entry that signing up library `l` after the entries `done` makes.
pub open spec fn activation(problem: &Problem, done: Seq<ScanOrderView>, l: int) -> ScanOrderView {
    entry_for(problem, l, scanned_books(done), days_left_after(problem, done))
}

/// The entry of a library is valid where its signup fits, and it scans no
/// book that is claimed.
pub proof fn lemma_entry_for_valid(
    problem: &Problem,
    l: int,
    claimed: Set<BookId>,
    days_left: int,
)
    requires
        problem.wf(),
        0 <= l < problem.libraries@.len(),
        problem.libraries@[l].signup <= days_left,
    ensures
        entry_valid(
            problem,
            entry_for(problem, l, claimed, days_left),
            days_left - problem.libraries@[l].signup,
        ),
        forall|b: BookId| #[trigger]
            entry_for(problem, l, claimed, days_left).books.contains(b) ==> !claimed.contains(b),
{
    let lib = &problem.libraries@[l];
    let budget = scan_budget(lib, days_left);
    let e = entry_for(problem, l, claimed, days_left);
    lemma_pick_splits(problem.scores@, lib.books@, claimed, budget);
    assert(problem.libraries@.len() == problem.libraries.len());
    assert(lib.books@.len() == lib.books.len());
    assert(e.id == l);
    if days_left - lib.signup > 0 {
        assert(lib.concurrency * (days_left - lib.signup) >= 0) by (nonlinear_arith)
            requires
                lib.concurrency >= 0,
                days_left - lib.signup > 0,
        ;
    }
}

/// The number of books that `lib` can scan in `scan_days` days.
pub fn capacity_of(lib: &Library, scan_days: usize) -> (capacity: usize)
    ensures
        capacity == scan_capacity(lib, scan_days as int),
{
    proof {
        assert(scan_days * lib.concurrency == lib.concurrency * scan_days) by (nonlinear_arith);
        if scan_days == 0 {
            assert(scan_days * lib.concurrency == 0) by (nonlinear_arith)
                requires
                    scan_days == 0,
            ;
        }
    }
    match scan_days.checked_mul(lib.concurrency) {
        Some(by_rate) => if by_rate < lib.books.len() {
            by_rate
        } else {
            lib.books.len()
        },
        None => lib.books.len(),
    }
}

/// Signs up library `lib_id` with `days_left` days to go.
pub fn activate(
    problem: &Problem,
    lib_id: usize,
    days_left: usize,
    used_books: &HashSet<BookId>,
) -> (entry: LibraryScanOrder)
    requires
        problem.wf(),
        lib_id < problem.libraries@.len(),
        problem.libraries@[lib_id as int].signup <= days_left,
    ensures
        entry@ == entry_for(problem, lib_id as int, used_books@, days_left as int),
{
    let lib = &problem.libraries[lib_id];
    proof {
        lemma_ranked_no_duplicates(problem.scores@, lib.books@);
    }
    let (books, books_left) = calc_for_lib(lib, days_left, used_books);
    let max_scanned_books = capacity_of(lib, days_left - lib.signup);
    LibraryScanOrder { id: lib_id, books, books_left, max_scanned_books }
}

/// The schedule that signs up the libraries `order` one after another, each
/// scanning its best books that those before it do not scan, as many as it has
/// time for.
pub open spec fn in_order(problem: &Problem, order: Seq<usize>) -> Seq<ScanOrderView>
    decreases order.len(),
{
    if order.len() == 0 {
        Seq::empty()
    } else {
        let done = in_order(problem, order.drop_last());
        done.push(activation(problem, done, order.last() as int))
    }
}

/// What keeps library `order[p]` from being signed up after those before it
/// in `order`, if anything does.
pub open spec fn order_fault(problem: &Problem, order: Seq<usize>, p: int) -> Option<
    InvariantViolation,
> {
    let done = in_order(problem, order.take(p));
    if order[p] >= problem.libraries@.len() {
        Some(InvariantViolation::UnknownLibrary)
    } else if activated(done, order[p] as int) {
        Some(InvariantViolation::RepeatedLibrary)
    } else if problem.libraries@[order[p] as int].signup > days_left_after(problem, done) {
        Some(InvariantViolation::OverBudget)
    } else {
        None
    }
}

/// The schedule in a given order has one entry for each library of the order.
pub proof fn lemma_in_order_len(problem: &Problem, order: Seq<usize>)
    ensures
        in_order(problem, order).len() == order.len(),
    decreases order.len(),
{
    if order.len() > 0 {
        lemma_in_order_len(problem, order.drop_last());
    }
}

impl Solution {
    /// Builds the schedule that signs up the libraries `order` one after
    /// another: each scans its best books that those before it do not scan, as
    /// many as it has time for. It fails at the first library of `order` that
    /// the problem does not have, that occurs in `order` before, or whose
    /// signup takes more days than are left.
    pub fn from_order(problem: &Problem, order: &Vec<usize>) -> (result: Result<
        Solution,
        InvariantViolation,
    >)
        requires
            problem.wf(),
        ensures
            match result {
                Ok(solution) => {
                    &&& forall|p: int|
                        0 <= p < order@.len() ==> (#[trigger] order_fault(problem, order@, p))
                            is None
                    &&& solution@.libs == in_order(problem, order@)
                    &&& solution.wf(problem)
                },
                Err(fault) => exists|p: int|
                    0 <= p < order@.len() && #[trigger] order_fault(problem, order@, p) == Some(
                        fault,
                    ) && forall|q: int|
                        0 <= q < p ==> (#[trigger] order_fault(problem, order@, q)) is None,
            },
    {
        let mut used_books: HashSet<BookId> = HashSet::new();
        let mut used_libraries: HashSet<usize> = HashSet::new();
        let mut libs: Vec<LibraryScanOrder> = Vec::new();
        let mut days_left = problem.days;
        let mut p: usize = 0;
        proof {
            assert(order@.take(0) =~= Seq::empty());
            assert(entry_views(libs@) =~= Seq::empty());
            assert(used_books@ =~= scanned_books(entry_views(libs@)));
            assert(used_libraries@ =~= activated_libraries(entry_views(libs@)));
        }
        while p < order.len()
            invariant
                p <= order@.len(),
                problem.wf(),
                entry_views(libs@) == in_order(problem, order@.take(p as int)),
                entries_valid(problem, entry_views(libs@)),
                forall|q: int| 0 <= q < p ==> (#[trigger] order_fault(problem, order@, q)) is None,
                used_books@ == scanned_books(entry_views(libs@)),
                used_libraries@ == activated_libraries(entry_views(libs@)),
                days_left == days_left_after(problem, entry_views(libs@)),
            decreases order.len() - p,
        {
            let ghost done = entry_views(libs@);
            let lib_id = order[p];
            if lib_id >= problem.libraries.len() {
                assert(order_fault(problem, order@, p as int) == Some(
                    InvariantViolation::UnknownLibrary,
                ));
                return Err(InvariantViolation::UnknownLibrary);
            }
            proof {
                assert(activated_libraries(done).contains(lib_id) <==> activated(
                    done,
                    lib_id as int,
                ));
            }
            if used_libraries.contains(&lib_id) {
                assert(order_fault(problem, order@, p as int) == Some(
                    InvariantViolation::RepeatedLibrary,
                ));
                return Err(InvariantViolation::RepeatedLibrary);
            }
            if problem.libraries[lib_id].signup > days_left {
                assert(order_fault(problem, order@, p as int) == Some(
                    InvariantViolation::OverBudget,
                ));
                return Err(InvariantViolation::OverBudget);
            }
            assert(order_fault(problem, order@, p as int) is None);
            let entry = activate(problem, lib_id, days_left, &used_books);
            proof {
                let l = lib_id as int;
                assert(entry@ == activation(problem, done, l));
                lemma_entry_for_valid(problem, l, used_books@, days_left as int);
                lemma_extend_valid(problem, done, entry@);
                lemma_push_entry(problem, done, entry@);
                assert(entry_views(libs@.push(entry)) =~= done.push(entry@));
                assert(order@.take(p + 1).drop_last() =~= order@.take(p as int));
            }
            claim_all(&mut used_books, &entry.books);
            days_left -= problem.libraries[lib_id].signup;
            used_libraries.insert(lib_id);
            libs.push(entry);
            proof {
                let longer = entry_views(libs@);
                assert(used_books@ =~= scanned_books(longer));
                assert(used_libraries@ =~= activated_libraries(longer)) by {
                    assert forall|x: usize|
                        used_libraries@.contains(x) <==> activated_libraries(longer).contains(
                            x,
                        ) by {
                        assert(activated_libraries(done).contains(x) <==> activated(
                            done,
                            x as int,
                        ));
                    }
                }
            }
            p += 1;
        }
        proof {
            assert(order@.take(p as int) =~= order@);
            lemma_valid_books_known(problem, entry_views(libs@));
        }
        Ok(Solution::from_libs(problem, libs))
    }
}

/// Marks `books` as scanned.
pub fn claim_all(used_books: &mut HashSet<BookId>, books: &Vec<BookId>)
    ensures
        forall|b: BookId| #[trigger]
            final(used_books)@.contains(b) <==> old(used_books)@.contains(b) || books@.contains(b),
{
    let mut k: usize = 0;
    while k < books.len()
        invariant
            k <= books.len(),
            forall|b: BookId| #[trigger]
                used_books@.contains(b) <==> old(used_books)@.contains(b) || books@.take(
                    k as int,
                ).contains(b),
        decreases books.len() - k,
    {
        proof {
            assert(books@.take(k as int).push(books@[k as int]) =~= books@.take(k + 1));
            assert forall|b: BookId| #[trigger]
                books@.take(k + 1).contains(b) <==> b == books@[k as int] || books@.take(
                    k as int,
                ).contains(b) by {
                vstd::seq_lib::lemma_seq_contains_after_push(
                    books@.take(k as int),
                    books@[k as int],
                    b,
                );
            }
        }
        used_books.insert(books[k]);
        k += 1;
    }
    proof {
        assert(books@.take(k as int) =~= books@);
    }
}

/// In a feasible schedule every scanned book has a score.
pub proof fn lemma_valid_books_known(problem: &Problem, libs: Seq<ScanOrderView>)
    requires
        entries_valid(problem, libs),
    ensures
        books_known(problem, libs),
{
    assert forall|p: int, k: int|
        0 <= p < libs.len() && 0 <= k < libs[p].books.len() implies (#[trigger] libs[p].books[k])
        < problem.scores@.len() by {
        assert(slot_valid(problem, libs, p));
    }
}

/// The first entries of the schedule in a given order are the schedule of
/// the first libraries of the order, and each entry is the activation of its
/// library after those before it.
pub proof fn lemma_in_order_prefix(problem: &Problem, order: Seq<usize>, p: int)
    requires
        0 <= p <= order.len(),
    ensures
        in_order(problem, order).len() == order.len(),
        in_order(problem, order).take(p) == in_order(problem, order.take(p)),
        p < order.len() ==> in_order(problem, order)[p] == activation(
            problem,
            in_order(problem, order.take(p)),
            order[p] as int,
        ),
        p < order.len() ==> in_order(problem, order)[p].id == order[p],
    decreases order.len(),
{
    lemma_in_order_len(problem, order);
    if order.len() == 0 {
        assert(order.take(p) =~= order);
        assert(in_order(problem, order).take(p) =~= in_order(problem, order));
    } else {
        let front = order.drop_last();
        lemma_in_order_len(problem, front);
        if p == order.len() {
            assert(order.take(p) =~= order);
            assert(in_order(problem, order).take(p) =~= in_order(problem, order));
        } else {
            lemma_in_order_prefix(problem, front, p);
            assert(front.take(p) =~= order.take(p));
            assert(in_order(problem, order).take(p) =~= in_order(problem, front).take(p));
            if p == front.len() {
                assert(front.take(p) =~= front);
            }
        }
    }
}

/// The schedule in a given order activates the libraries of the order and no
/// others.
pub proof fn lemma_in_order_activates(problem: &Problem, order: Seq<usize>, l: int)
    ensures
        activated(in_order(problem, order), l) <==> exists|q: int|
            0 <= q < order.len() && #[trigger] order[q] == l,
{
    let libs = in_order(problem, order);
    lemma_in_order_len(problem, order);
    if activated(libs, l) {
        let p = choose|p: int| 0 <= p < libs.len() && #[trigger] libs[p].id == l;
        lemma_in_order_prefix(problem, order, p);
        assert(order[p] == l);
    }
    if exists|q: int| 0 <= q < order.len() && #[trigger] order[q] == l {
        let q = choose|q: int| 0 <= q < order.len() && #[trigger] order[q] == l;
        lemma_in_order_prefix(problem, order, q);
        assert(libs[q].id == l);
    }
}

} // verus!
