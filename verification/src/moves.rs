//! Moves: how books change hands between the entries of a solution, and
//! what a move makes of the solution.

use vstd::prelude::*;
use crate::candidate::{lemma_unclaimed_members, unclaimed};
use crate::problem::{total_score, BookId, Problem};
use crate::ranking::{lemma_with_book, lemma_without, with_book, without};
use crate::solution::{
    days_left_after, entries_valid, entry_valid, scanned, scans, signup_total, slot_valid,
    solution_valid, ScanOrderView, SolutionView,
};
use crate::tally::{lemma_claim_one, lemma_release_one, lemma_score_bounds};

verus! {

/// Entry `e` after it has stopped scanning book `b`.
pub open spec fn unscan(scores: Seq<usize>, e: ScanOrderView, b: BookId) -> ScanOrderView {
    ScanOrderView {
        id: e.id,
        books: without(e.books, b),
        books_left: with_book(scores, e.books_left, b),
        max_scanned_books: e.max_scanned_books,
    }
}

/// Entry `e` after it has started scanning book `b`.
pub open spec fn scan(scores: Seq<usize>, e: ScanOrderView, b: BookId) -> ScanOrderView {
    ScanOrderView {
        id: e.id,
        books: with_book(scores, e.books, b),
        books_left: without(e.books_left, b),
        max_scanned_books: e.max_scanned_books,
    }
}

/// The solution after entry `p` has stopped scanning book `b`.
pub open spec fn released(
    scores: Seq<usize>,
    sol: SolutionView,
    p: usize,
    b: BookId,
) -> SolutionView {
    SolutionView {
        libs: sol.libs.update(p as int, unscan(scores, sol.libs[p as int], b)),
        libs_by_book_used: sol.libs_by_book_used.remove(b),
        books_taken: sol.books_taken.remove(b),
        score: (sol.score - scores[b as int]) as usize,
    }
}

/// The solution after entry `p` has started scanning book `b`.
pub open spec fn acquired(
    scores: Seq<usize>,
    sol: SolutionView,
    p: usize,
    b: BookId,
) -> SolutionView {
    SolutionView {
        libs: sol.libs.update(p as int, scan(scores, sol.libs[p as int], b)),
        libs_by_book_used: sol.libs_by_book_used.insert(b, p),
        books_taken: sol.books_taken.insert(b),
        score: (sol.score + scores[b as int]) as usize,
    }
}

/// Two schedules that activate the same libraries in the same order spend
/// the same days on signups.
pub proof fn lemma_same_libraries_same_days(
    problem: &Problem,
    a: Seq<ScanOrderView>,
    b: Seq<ScanOrderView>,
)
    requires
        a.len() == b.len(),
        forall|p: int| 0 <= p < a.len() ==> (#[trigger] a[p]).id == b[p].id,
    ensures
        signup_total(problem, a) == signup_total(problem, b),
    decreases a.len(),
{
    if a.len() > 0 {
        assert(a[a.len() - 1].id == b[a.len() - 1].id);
        assert forall|p: int| 0 <= p < a.drop_last().len() implies (#[trigger] a.drop_last()[p]).id
            == b.drop_last()[p].id by {
            assert(a[p].id == b[p].id);
        }
        lemma_same_libraries_same_days(problem, a.drop_last(), b.drop_last());
    }
}

/// An entry stays valid when one of its books moves from `books` to
/// `books_left`.
pub proof fn lemma_unscan_entry(problem: &Problem, e: ScanOrderView, b: BookId, scan_days: int)
    requires
        entry_valid(problem, e, scan_days),
        e.books.contains(b),
    ensures
        entry_valid(problem, unscan(problem.scores@, e, b), scan_days),
        unscan(problem.scores@, e, b).books.len() == e.books.len() - 1,
        forall|x: BookId| #[trigger]
            unscan(problem.scores@, e, b).books.contains(x) <==> e.books.contains(x) && x != b,
        forall|x: BookId| #[trigger]
            unscan(problem.scores@, e, b).books_left.contains(x) <==> e.books_left.contains(x) || x
                == b,
{
    let scores = problem.scores@;
    let i = choose|i: int| 0 <= i < e.books.len() && e.books[i] == b;
    assert(e.books[i] < scores.len());
    assert(!e.books_left.contains(b));
    lemma_without(scores, e.books, b);
    lemma_with_book(scores, e.books_left, b);
}

/// An entry that has room stays valid when one of its books moves from
/// `books_left` to `books`.
pub proof fn lemma_scan_entry(problem: &Problem, e: ScanOrderView, b: BookId, scan_days: int)
    requires
        entry_valid(problem, e, scan_days),
        e.books_left.contains(b),
        e.books.len() < e.max_scanned_books,
    ensures
        entry_valid(problem, scan(problem.scores@, e, b), scan_days),
        scan(problem.scores@, e, b).books.len() == e.books.len() + 1,
        forall|x: BookId| #[trigger]
            scan(problem.scores@, e, b).books.contains(x) <==> e.books.contains(x) || x == b,
        forall|x: BookId| #[trigger]
            scan(problem.scores@, e, b).books_left.contains(x) <==> e.books_left.contains(x) && x
                != b,
{
    let scores = problem.scores@;
    let i = choose|i: int| 0 <= i < e.books_left.len() && e.books_left[i] == b;
    assert(e.books_left[i] < scores.len());
    assert(!e.books.contains(b));
    lemma_without(scores, e.books_left, b);
    lemma_with_book(scores, e.books, b);
}

/// Replacing entry `p` by an entry of the same library changes nothing about
/// the days that are left after each entry.
pub proof fn lemma_update_keeps_slots(
    problem: &Problem,
    libs: Seq<ScanOrderView>,
    p: int,
    e: ScanOrderView,
)
    requires
        0 <= p < libs.len(),
        e.id == libs[p].id,
    ensures
        forall|q: int|
            0 <= q < libs.len() ==> days_left_after(problem, libs.update(p, e).take(q + 1))
                == days_left_after(problem, #[trigger] libs.take(q + 1)),
{
    let changed = libs.update(p, e);
    assert forall|q: int| 0 <= q < libs.len() implies days_left_after(
        problem,
        changed.take(q + 1),
    ) == days_left_after(problem, #[trigger] libs.take(q + 1)) by {
        lemma_same_libraries_same_days(problem, changed.take(q + 1), libs.take(q + 1));
    }
}

/// A valid solution stays valid when an entry stops scanning one of its
/// books. That book is then scanned by no entry, and the score falls by what
/// the book scores.
pub proof fn lemma_released(problem: &Problem, sol: SolutionView, at: usize, b: BookId)
    requires
        solution_valid(problem, sol),
        scans(sol.libs, at as int, b),
        problem.scores@.len() <= usize::MAX,
    ensures
        solution_valid(problem, released(problem.scores@, sol, at, b)),
        released(problem.scores@, sol, at, b).score == sol.score - problem.scores@[b as int],
        b < problem.scores@.len(),
        !released(problem.scores@, sol, at, b).books_taken.contains(b),
        released(problem.scores@, sol, at, b).libs[at as int].books.len()
            == sol.libs[at as int].books.len() - 1,
        forall|x: BookId| #[trigger]
            released(problem.scores@, sol, at, b).libs[at as int].books.contains(x)
                <==> sol.libs[at as int].books.contains(x) && x != b,
        forall|x: BookId| #[trigger]
            released(problem.scores@, sol, at, b).libs[at as int].books_left.contains(x)
                <==> sol.libs[at as int].books_left.contains(x) || x == b,
{
    let scores = problem.scores@;
    let p = at as int;
    let after = released(scores, sol, at, b);
    let e = sol.libs[p];
    let e2 = unscan(scores, e, b);
    assert(slot_valid(problem, sol.libs, p));
    let scan_days = days_left_after(problem, sol.libs.take(p + 1));
    lemma_unscan_entry(problem, e, b, scan_days);
    lemma_update_keeps_slots(problem, sol.libs, p, e2);
    assert forall|q: int, x: BookId| #[trigger] scans(after.libs, q, x) implies scans(
        sol.libs,
        q,
        x,
    ) && !(q == p && x == b) by {
        if q == p {
            assert(e2.books.contains(x));
        }
    }
    assert forall|q: int| 0 <= q < after.libs.len() implies #[trigger] slot_valid(
        problem,
        after.libs,
        q,
    ) by {
        assert(slot_valid(problem, sol.libs, q));
        assert(days_left_after(problem, after.libs.take(q + 1)) == days_left_after(
            problem,
            sol.libs.take(q + 1),
        ));
    }
    assert forall|q: int, r: int| 0 <= q < r < after.libs.len() implies (
    #[trigger] after.libs[q]).id != (#[trigger] after.libs[r]).id by {
        assert(sol.libs[q].id != sol.libs[r].id);
    }
    assert(entries_valid(problem, after.libs));
    assert forall|x: BookId| #[trigger] after.books_taken.contains(x) <==> scanned(
        after.libs,
        x,
    ) by {
        if after.books_taken.contains(x) {
            assert(sol.books_taken.contains(x));
            let q = choose|q: int| scans(sol.libs, q, x);
            if q == p {
                assert(e2.books.contains(x));
            }
            assert(scans(after.libs, q, x));
        }
        if scanned(after.libs, x) {
            let q = choose|q: int| scans(after.libs, q, x);
            assert(scans(sol.libs, q, x));
            assert(sol.books_taken.contains(x));
            if x == b {
                assert(scans(sol.libs, p, b));
                assert(q == p);
            }
        }
    }
    assert forall|x: BookId| #[trigger]
        after.libs_by_book_used.contains_key(x) implies scans(
        after.libs,
        after.libs_by_book_used[x] as int,
        x,
    ) by {
        let q = sol.libs_by_book_used[x] as int;
        assert(sol.libs_by_book_used.contains_key(x));
        assert(scans(sol.libs, q, x));
        if q == p {
            assert(e2.books.contains(x));
        }
    }
    assert(sol.books_taken.contains(b)) by {
        assert(scanned(sol.libs, b));
    }
    let i = choose|i: int| 0 <= i < e.books.len() && e.books[i] == b;
    assert(e.books[i] < scores.len());
    lemma_release_one(scores, sol.books_taken, b);
    lemma_score_bounds(scores, after.books_taken);
}

/// A valid solution stays valid when an entry that has room starts scanning
/// a book of its catalog that no entry scans. The score rises by what the
/// book scores.
pub proof fn lemma_acquired(problem: &Problem, sol: SolutionView, at: usize, b: BookId)
    requires
        solution_valid(problem, sol),
        at < sol.libs.len(),
        sol.libs[at as int].books_left.contains(b),
        sol.libs[at as int].books.len() < sol.libs[at as int].max_scanned_books,
        !sol.books_taken.contains(b),
        total_score(problem.scores@) <= usize::MAX,
        problem.scores@.len() <= usize::MAX,
    ensures
        solution_valid(problem, acquired(problem.scores@, sol, at, b)),
        acquired(problem.scores@, sol, at, b).score == sol.score + problem.scores@[b as int],
        b < problem.scores@.len(),
        acquired(problem.scores@, sol, at, b).libs[at as int].books.len()
            == sol.libs[at as int].books.len() + 1,
        forall|x: BookId| #[trigger]
            acquired(problem.scores@, sol, at, b).libs[at as int].books.contains(x)
                <==> sol.libs[at as int].books.contains(x) || x == b,
        forall|x: BookId| #[trigger]
            acquired(problem.scores@, sol, at, b).libs[at as int].books_left.contains(x)
                <==> sol.libs[at as int].books_left.contains(x) && x != b,
{
    let scores = problem.scores@;
    let p = at as int;
    let after = acquired(scores, sol, at, b);
    let e = sol.libs[p];
    let e2 = scan(scores, e, b);
    assert(slot_valid(problem, sol.libs, p));
    let scan_days = days_left_after(problem, sol.libs.take(p + 1));
    lemma_scan_entry(problem, e, b, scan_days);
    lemma_update_keeps_slots(problem, sol.libs, p, e2);
    assert(!scanned(sol.libs, b));
    assert forall|q: int, x: BookId| #[trigger] scans(after.libs, q, x) implies scans(
        sol.libs,
        q,
        x,
    ) || (q == p && x == b) by {
        if q == p {
            assert(e2.books.contains(x));
        }
    }
    assert forall|q: int, x: BookId| #[trigger] scans(sol.libs, q, x) implies scans(
        after.libs,
        q,
        x,
    ) by {
        if q == p {
            assert(e.books.contains(x));
            assert(e2.books.contains(x));
        }
    }
    assert(scans(after.libs, p, b)) by {
        assert(e2.books.contains(b));
    }
    assert forall|q: int| 0 <= q < after.libs.len() implies #[trigger] slot_valid(
        problem,
        after.libs,
        q,
    ) by {
        assert(slot_valid(problem, sol.libs, q));
        assert(days_left_after(problem, after.libs.take(q + 1)) == days_left_after(
            problem,
            sol.libs.take(q + 1),
        ));
    }
    assert forall|q: int, r: int| 0 <= q < r < after.libs.len() implies (
    #[trigger] after.libs[q]).id != (#[trigger] after.libs[r]).id by {
        assert(sol.libs[q].id != sol.libs[r].id);
    }
    assert forall|q: int, r: int, x: BookId| #[trigger]
        scans(after.libs, q, x) && #[trigger] scans(after.libs, r, x) implies q == r by {
        if x == b {
            if scans(sol.libs, q, x) {
                assert(scanned(sol.libs, b));
            }
            if scans(sol.libs, r, x) {
                assert(scanned(sol.libs, b));
            }
        } else {
            assert(scans(sol.libs, q, x) && scans(sol.libs, r, x));
        }
    }
    assert(entries_valid(problem, after.libs));
    assert forall|x: BookId| #[trigger] after.books_taken.contains(x) <==> scanned(
        after.libs,
        x,
    ) by {
        if after.books_taken.contains(x) {
            if x == b {
                assert(scans(after.libs, p, b));
            } else {
                assert(sol.books_taken.contains(x));
                let q = choose|q: int| scans(sol.libs, q, x);
                assert(scans(after.libs, q, x));
            }
        }
        if scanned(after.libs, x) {
            let q = choose|q: int| scans(after.libs, q, x);
            if x != b {
                assert(scans(sol.libs, q, x));
                assert(scanned(sol.libs, x));
            }
        }
    }
    assert forall|x: BookId| #[trigger]
        after.libs_by_book_used.contains_key(x) implies scans(
        after.libs,
        after.libs_by_book_used[x] as int,
        x,
    ) by {
        if x != b {
            assert(sol.libs_by_book_used.contains_key(x));
            assert(scans(sol.libs, sol.libs_by_book_used[x] as int, x));
        }
    }
    let i = choose|i: int| 0 <= i < e.books_left.len() && e.books_left[i] == b;
    assert(e.books_left[i] < scores.len());
    lemma_claim_one(scores, sol.books_taken, b);
    lemma_score_bounds(scores, after.books_taken);
}

/// One step of the search. Entry `lib_with_empty_slot_pos` takes
/// `book_to_swap`, which entry `current_lib_pos` scanned until now; to make
/// room it gives up its last book if it is full. Entry `current_lib_pos`
/// scans `book_to_take` instead, a book that no entry scanned.
#[derive(Debug, Clone, Copy, PartialEq, Eq)]
pub struct Move {
    pub book_to_swap: BookId,
    pub current_lib_pos: usize,
    pub lib_with_empty_slot_pos: usize,
    pub book_to_take: BookId,
}

/// What it costs entry `e` to scan one more book: nothing while it has room,
/// else the score of its last book, which has to go.
pub open spec fn slot_cost(scores: Seq<usize>, e: ScanOrderView) -> int {
    if e.max_scanned_books > e.books.len() {
        0
    } else {
        scores[e.books.last() as int] as int
    }
}

/// The best book of `books` that `taken` does not hold, if there is one.
pub open spec fn best_free(books: Seq<BookId>, taken: Set<BookId>) -> Option<BookId> {
    let free = unclaimed(books, taken);
    if free.len() > 0 {
        Some(free[0])
    } else {
        None
    }
}

/// `m` is a move that can be made and that raises the score: the receiving
/// entry may scan books at all and has `book_to_swap` left over, the giving
/// entry is the one that scans it, `book_to_take` is the best left-over book
/// of the giving entry that no entry scans, and it scores more than the
/// receiving entry's slot costs.
pub open spec fn improving(problem: &Problem, sol: SolutionView, m: Move) -> bool {
    let to = m.lib_with_empty_slot_pos as int;
    let from = m.current_lib_pos as int;
    &&& to < sol.libs.len()
    &&& sol.libs[to].max_scanned_books > 0
    &&& sol.libs[to].books_left.contains(m.book_to_swap)
    &&& sol.libs_by_book_used.contains_key(m.book_to_swap)
    &&& sol.libs_by_book_used[m.book_to_swap] == m.current_lib_pos
    &&& best_free(sol.libs[from].books_left, sol.books_taken) == Some(m.book_to_take)
    &&& problem.scores@[m.book_to_take as int] > slot_cost(problem.scores@, sol.libs[to])
}

/// The solution after the receiving entry has made room for one more book.
pub open spec fn room_made(scores: Seq<usize>, sol: SolutionView, to: usize) -> SolutionView {
    let target = sol.libs[to as int];
    if target.max_scanned_books == target.books.len() {
        released(scores, sol, to, target.books.last())
    } else {
        sol
    }
}

/// The solution after move `m`.
pub open spec fn apply_move(scores: Seq<usize>, sol: SolutionView, m: Move) -> SolutionView {
    let opened = room_made(scores, sol, m.lib_with_empty_slot_pos);
    let parted = released(scores, opened, m.current_lib_pos, m.book_to_swap);
    let joined = acquired(scores, parted, m.lib_with_empty_slot_pos, m.book_to_swap);
    acquired(scores, joined, m.current_lib_pos, m.book_to_take)
}

/// Two solutions activate the same libraries in the same order and allow
/// each the same number of books.
pub open spec fn same_activations(a: SolutionView, b: SolutionView) -> bool {
    &&& a.libs.len() == b.libs.len()
    &&& forall|p: int|
        0 <= p < a.libs.len() ==> (#[trigger] a.libs[p]).id == b.libs[p].id
            && a.libs[p].max_scanned_books == b.libs[p].max_scanned_books
}

/// An improving move leaves a valid solution valid, changes no activation,
/// and raises the score by what the book taken scores beyond the cost of the
/// slot: by more than nothing.
pub proof fn lemma_apply_move(problem: &Problem, sol: SolutionView, m: Move)
    requires
        problem.wf(),
        problem.scores@.len() <= usize::MAX,
        solution_valid(problem, sol),
        improving(problem, sol, m),
    ensures
        solution_valid(problem, apply_move(problem.scores@, sol, m)),
        same_activations(sol, apply_move(problem.scores@, sol, m)),
        apply_move(problem.scores@, sol, m).score == sol.score
            + problem.scores@[m.book_to_take as int] - slot_cost(
            problem.scores@,
            sol.libs[m.lib_with_empty_slot_pos as int],
        ),
        apply_move(problem.scores@, sol, m).score > sol.score,
{
    let scores = problem.scores@;
    let to = m.lib_with_empty_slot_pos;
    let from = m.current_lib_pos;
    let x = m.book_to_swap;
    let y = m.book_to_take;
    let giver = sol.libs[from as int];
    let target = sol.libs[to as int];
    let free = unclaimed(giver.books_left, sol.books_taken);
    assert(scans(sol.libs, from as int, x));
    assert(slot_valid(problem, sol.libs, to as int));
    assert(slot_valid(problem, sol.libs, from as int));
    assert(from != to);
    assert(sol.books_taken.contains(x));
    lemma_unclaimed_members(giver.books_left, sol.books_taken);
    assert(free.contains(y));
    assert(giver.books_left.contains(y) && !sol.books_taken.contains(y));
    let opened = room_made(scores, sol, to);
    if target.max_scanned_books == target.books.len() {
        let last = target.books.last();
        assert(target.books[target.books.len() - 1] == last);
        assert(target.books.contains(last));
        assert(scans(sol.libs, to as int, last));
        lemma_released(problem, sol, to, last);
        assert(opened.libs[from as int] == giver);
    }
    assert(solution_valid(problem, opened));
    assert(opened.libs[to as int].books.len() < target.max_scanned_books);
    assert(opened.libs[to as int].books_left.contains(x));
    assert(scans(opened.libs, from as int, x));
    lemma_released(problem, opened, from, x);
    let parted = released(scores, opened, from, x);
    assert(parted.libs[to as int] == opened.libs[to as int]);
    lemma_acquired(problem, parted, to, x);
    let joined = acquired(scores, parted, to, x);
    assert(joined.libs[from as int] == parted.libs[from as int]);
    assert(joined.libs[from as int].books_left.contains(y));
    assert(!joined.books_taken.contains(y));
    lemma_acquired(problem, joined, from, y);
}

/// What holds between the steps of an improving move: the solution is valid
/// after each of them, and each finds what it needs.
pub proof fn lemma_move_in_steps(problem: &Problem, sol: SolutionView, m: Move)
    requires
        problem.wf(),
        problem.scores@.len() <= usize::MAX,
        solution_valid(problem, sol),
        improving(problem, sol, m),
    ensures
        ({
            let scores = problem.scores@;
            let to = m.lib_with_empty_slot_pos;
            let from = m.current_lib_pos;
            let opened = room_made(scores, sol, to);
            let parted = released(scores, opened, from, m.book_to_swap);
            let joined = acquired(scores, parted, to, m.book_to_swap);
            &&& from < sol.libs.len()
            &&& from != to
            &&& m.book_to_take < scores.len()
            &&& m.book_to_swap < scores.len()
            &&& solution_valid(problem, opened)
            &&& solution_valid(problem, parted)
            &&& solution_valid(problem, joined)
            &&& opened.libs[from as int].books.contains(m.book_to_swap)
            &&& !opened.libs[from as int].books_left.contains(m.book_to_swap)
            &&& opened.libs[to as int].books_left.contains(m.book_to_swap)
            &&& !opened.libs[to as int].books.contains(m.book_to_swap)
            &&& joined.libs == opened.libs.update(
                from as int,
                unscan(scores, opened.libs[from as int], m.book_to_swap),
            ).update(to as int, scan(scores, opened.libs[to as int], m.book_to_swap))
            &&& joined.libs_by_book_used == opened.libs_by_book_used.insert(m.book_to_swap, to)
            &&& joined.books_taken == opened.books_taken
            &&& joined.libs[from as int].books_left.contains(m.book_to_take)
            &&& !joined.libs[from as int].books.contains(m.book_to_take)
        }),
{
    let scores = problem.scores@;
    let to = m.lib_with_empty_slot_pos;
    let from = m.current_lib_pos;
    let x = m.book_to_swap;
    let y = m.book_to_take;
    let giver = sol.libs[from as int];
    let target = sol.libs[to as int];
    assert(scans(sol.libs, from as int, x));
    assert(slot_valid(problem, sol.libs, to as int));
    assert(slot_valid(problem, sol.libs, from as int));
    assert(sol.books_taken.contains(x));
    lemma_unclaimed_members(giver.books_left, sol.books_taken);
    let free = unclaimed(giver.books_left, sol.books_taken);
    assert(free.contains(y));
    let opened = room_made(scores, sol, to);
    if target.max_scanned_books == target.books.len() {
        let last = target.books.last();
        assert(target.books[target.books.len() - 1] == last);
        assert(target.books.contains(last));
        assert(scans(sol.libs, to as int, last));
        lemma_released(problem, sol, to, last);
        assert(opened.libs[from as int] == giver);
    }
    assert(scans(opened.libs, from as int, x));
    assert(slot_valid(problem, opened.libs, to as int));
    assert(slot_valid(problem, opened.libs, from as int));
    lemma_released(problem, opened, from, x);
    let parted = released(scores, opened, from, x);
    assert(parted.libs[to as int] == opened.libs[to as int]);
    lemma_acquired(problem, parted, to, x);
    let joined = acquired(scores, parted, to, x);
    assert(joined.libs[from as int] == parted.libs[from as int]);
    assert(joined.libs =~= opened.libs.update(
        from as int,
        unscan(scores, opened.libs[from as int], x),
    ).update(to as int, scan(scores, opened.libs[to as int], x)));
    assert(joined.libs_by_book_used =~= opened.libs_by_book_used.insert(x, to));
    assert(opened.books_taken.contains(x));
    assert(joined.books_taken =~= opened.books_taken);
    assert(slot_valid(problem, joined.libs, from as int));
    let i = choose|i: int| 0 <= i < giver.books_left.len() && giver.books_left[i] == y;
    assert(giver.books_left[i] < scores.len());
}

} // verus!
