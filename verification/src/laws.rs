//! What holds of every schedule that the scheduler and the search make.

use vstd::prelude::*;
use crate::greedy::{best_choice, eligible, greedy_schedule, greedy_step, preferred, Divisor};
use crate::moves::{apply_move, lemma_apply_move, same_activations, Move};
use crate::optimizer::{first_move, improved, lemma_found_is_improving};
use crate::problem::{BookId, Problem};
use crate::schedule::{lemma_entry_for_valid, lemma_extend_valid, scanned_books};
use crate::scorer::{
    counted_before, counted_books, counted_len, counts, entry_known, first_unknown, reached, scored,
    scorer_says,
};
use crate::solution::{
    days_left_after, entries_valid, scanned, scans, signup_total, slot_valid, solution_valid,
    InvariantViolation, ScanOrderView, SolutionView,
};

verus! {

/// In a valid solution no entry scans more books than its catalog holds, nor
/// more than its library scans in the days that are left after its signup.
pub proof fn capacity_bound(problem: &Problem, solution: SolutionView, p: int)
    requires
        solution_valid(problem, solution),
        0 <= p < solution.libs.len(),
    ensures
        solution.libs[p].id < problem.libraries@.len(),
        solution.libs[p].books.len() <= problem.libraries@[solution.libs[p].id as int].books@.len(),
        solution.libs[p].books.len() <= problem.libraries@[solution.libs[p].id as int].concurrency
            * days_left_after(problem, solution.libs.take(p + 1)),
{
    assert(slot_valid(problem, solution.libs, p));
    let lib = &problem.libraries@[solution.libs[p].id as int];
    let days = days_left_after(problem, solution.libs.take(p + 1));
    assert(lib.concurrency * days >= 0) by (nonlinear_arith)
        requires
            lib.concurrency >= 0,
            days >= 0,
    ;
}

/// In a valid solution no book is scanned by two entries.
pub proof fn no_book_scanned_twice(
    problem: &Problem,
    solution: SolutionView,
    p: int,
    q: int,
    b: BookId,
)
    requires
        solution_valid(problem, solution),
        0 <= p < solution.libs.len(),
        0 <= q < solution.libs.len(),
        solution.libs[p].books.contains(b),
        solution.libs[q].books.contains(b),
    ensures
        p == q,
{
    assert(scans(solution.libs, p, b) && scans(solution.libs, q, b));
}

/// In a valid solution the signups of the first `n` entries, one after
/// another, take no more days than there are, for every `n`.
pub proof fn signups_within_budget(problem: &Problem, solution: SolutionView, n: int)
    requires
        solution_valid(problem, solution),
        0 <= n <= solution.libs.len(),
    ensures
        signup_total(problem, solution.libs.take(n)) <= problem.days,
{
    if n == 0 {
        assert(solution.libs.take(0) =~= Seq::empty());
    } else {
        assert(slot_valid(problem, solution.libs, n - 1));
    }
}

/// The scorer makes of a valid solution the score that the solution records:
/// it looks at no entry that it cannot make sense of, and counts just the
/// scanned books.
pub proof fn scorer_confirms_valid(problem: &Problem, solution: SolutionView)
    requires
        solution_valid(problem, solution),
    ensures
        scored(problem, solution.libs) == solution.score,
        scorer_says(problem, solution.libs, Ok(solution.score)),
{
    let libs = solution.libs;
    assert forall|p: int| 0 <= p < libs.len() implies entry_known(problem, #[trigger] libs[p]) by {
        assert(slot_valid(problem, libs, p));
        let catalog = problem.libraries@[libs[p].id as int].books@;
        assert forall|k: int| 0 <= k < libs[p].books.len() implies catalog.contains(
            #[trigger] libs[p].books[k],
        ) by {
            assert(libs[p].books.contains(libs[p].books[k]));
        }
    }
    let counted = counted_books(problem, libs);
    assert forall|b: BookId| counted.contains(b) <==> solution.books_taken.contains(b) by {
        if counted_before(problem, libs, libs.len() as int, b) {
            let p = choose|p: int| p < libs.len() && counts(problem, libs, p, b);
            let k = choose|k: int|
                0 <= k < counted_len(problem, libs, p) && #[trigger] libs[p].books[k] == b;
            assert(libs[p].books.contains(b));
            assert(scans(libs, p, b));
            assert(scanned(libs, b));
        }
        if scanned(libs, b) {
            let p = choose|p: int| scans(libs, p, b);
            assert(slot_valid(problem, libs, p));
            let k = choose|k: int| 0 <= k < libs[p].books.len() && libs[p].books[k] == b;
            assert(libs.take(p + 1).drop_last() =~= libs.take(p));
            assert(counted_len(problem, libs, p) == libs[p].books.len());
            assert(reached(problem, libs, p));
            assert(counts(problem, libs, p, b));
            assert(counted_before(problem, libs, libs.len() as int, b));
        }
    }
    assert(counted_books(problem, libs) =~= solution.books_taken);
}

/// A step of the search raises what the scorer makes of the solution.
pub proof fn move_raises_score(problem: &Problem, solution: SolutionView, m: Move)
    requires
        problem.wf(),
        solution_valid(problem, solution),
        solution.libs.len() <= usize::MAX,
        first_move(problem, solution) == Some(m),
    ensures
        solution_valid(problem, apply_move(problem.scores@, solution, m)),
        scored(problem, apply_move(problem.scores@, solution, m).libs) > scored(
            problem,
            solution.libs,
        ),
{
    assert(problem.scores@.len() == problem.scores.len());
    lemma_found_is_improving(problem, solution, 0);
    lemma_apply_move(problem, solution, m);
    scorer_confirms_valid(problem, solution);
    scorer_confirms_valid(problem, apply_move(problem.scores@, solution, m));
}

/// However many steps the search makes, the solution stays valid, its
/// activations stay as they are, and the scorer makes no less of it than of
/// the solution that the search began with.
pub proof fn search_never_lowers_score(problem: &Problem, solution: SolutionView, n: nat)
    requires
        problem.wf(),
        solution_valid(problem, solution),
        solution.libs.len() <= usize::MAX,
    ensures
        solution_valid(problem, improved(problem, solution, n)),
        same_activations(solution, improved(problem, solution, n)),
        scored(problem, improved(problem, solution, n).libs) >= scored(problem, solution.libs),
    decreases n,
{
    if n > 0 {
        let before = improved(problem, solution, (n - 1) as nat);
        search_never_lowers_score(problem, solution, (n - 1) as nat);
        if let Some(m) = first_move(problem, before) {
            move_raises_score(problem, before, m);
            assert(problem.scores@.len() == problem.scores.len());
            lemma_found_is_improving(problem, before, 0);
            lemma_apply_move(problem, before, m);
            let after = apply_move(problem.scores@, before, m);
            assert forall|p: int| 0 <= p < solution.libs.len() implies (
            #[trigger] solution.libs[p]).id == after.libs[p].id
                && solution.libs[p].max_scanned_books == after.libs[p].max_scanned_books by {
                assert(before.libs[p].id == after.libs[p].id);
            }
        }
    }
}

/// The scorer makes one thing of a schedule: two results for the same
/// schedule are the same.
pub proof fn scorer_is_a_function(
    problem: &Problem,
    libs: Seq<ScanOrderView>,
    first: Result<usize, InvariantViolation>,
    second: Result<usize, InvariantViolation>,
)
    requires
        scorer_says(problem, libs, first),
        scorer_says(problem, libs, second),
    ensures
        first == second,
{
    if first is Err {
        let p = choose|p: int| #[trigger] first_unknown(problem, libs, p);
        if second is Err {
            let q = choose|q: int| #[trigger] first_unknown(problem, libs, q);
            if p < q {
                assert(entry_known(problem, libs[p]));
            } else if q < p {
                assert(entry_known(problem, libs[q]));
            }
        } else {
            assert(reached(problem, libs, p));
        }
    } else if second is Err {
        let q = choose|q: int| #[trigger] first_unknown(problem, libs, q);
        assert(reached(problem, libs, q));
    }
}

/// The first `n` entries of a greedy schedule are a feasible schedule.
proof fn lemma_greedy_feasible(
    problem: &Problem,
    divisor: Divisor,
    libs: Seq<ScanOrderView>,
    n: int,
)
    requires
        problem.wf(),
        greedy_schedule(problem, divisor, libs),
        0 <= n <= libs.len(),
    ensures
        entries_valid(problem, libs.take(n)),
    decreases n,
{
    if n > 0 {
        lemma_greedy_feasible(problem, divisor, libs, n - 1);
        let done = libs.take(n - 1);
        let l = libs[n - 1].id as int;
        assert(greedy_step(problem, divisor, libs, n - 1));
        lemma_entry_for_valid(problem, l, scanned_books(done), days_left_after(problem, done));
        assert forall|b: BookId| #[trigger] libs[n - 1].books.contains(b) implies !scanned(
            done,
            b,
        ) by {
            assert(!scanned_books(done).contains(b));
        }
        lemma_extend_valid(problem, done, libs[n - 1]);
        assert(done.push(libs[n - 1]) =~= libs.take(n));
    }
}

/// Every greedy schedule is feasible: its signups fit the days, no entry
/// scans more than its library can, and no book is scanned twice.
pub proof fn greedy_schedule_is_feasible(
    problem: &Problem,
    divisor: Divisor,
    libs: Seq<ScanOrderView>,
)
    requires
        problem.wf(),
        greedy_schedule(problem, divisor, libs),
    ensures
        entries_valid(problem, libs),
{
    lemma_greedy_feasible(problem, divisor, libs, libs.len() as int);
    assert(libs.take(libs.len() as int) =~= libs);
}

/// After given entries at most one library is the greedy choice.
pub proof fn best_choice_is_unique(
    problem: &Problem,
    divisor: Divisor,
    done: Seq<ScanOrderView>,
    l: int,
    other: int,
)
    requires
        best_choice(problem, divisor, done, l),
        best_choice(problem, divisor, done, other),
    ensures
        l == other,
{
    if l != other {
        assert(preferred(problem, divisor, done, l, other));
        assert(preferred(problem, divisor, done, other, l));
    }
}

/// The greedy schedule of a problem is determined: two schedules that both
/// are greedy schedules begin with the same entries.
proof fn lemma_greedy_agree(
    problem: &Problem,
    divisor: Divisor,
    a: Seq<ScanOrderView>,
    b: Seq<ScanOrderView>,
    n: int,
)
    requires
        greedy_schedule(problem, divisor, a),
        greedy_schedule(problem, divisor, b),
        0 <= n <= a.len(),
        n <= b.len(),
    ensures
        a.take(n) == b.take(n),
    decreases n,
{
    if n == 0 {
        assert(a.take(0) =~= b.take(0));
    } else {
        lemma_greedy_agree(problem, divisor, a, b, n - 1);
        assert(greedy_step(problem, divisor, a, n - 1));
        assert(greedy_step(problem, divisor, b, n - 1));
        best_choice_is_unique(
            problem,
            divisor,
            a.take(n - 1),
            a[n - 1].id as int,
            b[n - 1].id as int,
        );
        assert(a.take(n) =~= a.take(n - 1).push(a[n - 1]));
        assert(b.take(n) =~= b.take(n - 1).push(b[n - 1]));
    }
}

/// The greedy scheduler is deterministic: a problem has one greedy schedule.
pub proof fn greedy_is_determined(
    problem: &Problem,
    divisor: Divisor,
    a: Seq<ScanOrderView>,
    b: Seq<ScanOrderView>,
)
    requires
        greedy_schedule(problem, divisor, a),
        greedy_schedule(problem, divisor, b),
    ensures
        a == b,
{
    let n = if a.len() <= b.len() {
        a.len() as int
    } else {
        b.len() as int
    };
    lemma_greedy_agree(problem, divisor, a, b, n);
    if a.len() < b.len() {
        assert(a.take(n) =~= a);
        assert(greedy_step(problem, divisor, b, n));
        assert(eligible(problem, a, b[n].id as int));
    } else if b.len() < a.len() {
        assert(b.take(n) =~= b);
        assert(greedy_step(problem, divisor, a, n));
        assert(eligible(problem, b, a[n].id as int));
    } else {
        assert(a.take(n) =~= a);
        assert(b.take(n) =~= b);
    }
}

/// The entries of a valid solution determine the rest of it.
pub proof fn entries_determine_solution(problem: &Problem, a: SolutionView, b: SolutionView)
    requires
        solution_valid(problem, a),
        solution_valid(problem, b),
        a.libs == b.libs,
    ensures
        a == b,
{
    assert(a.books_taken =~= b.books_taken);
    assert forall|x: BookId|
        a.libs_by_book_used.contains_key(x) implies #[trigger] a.libs_by_book_used[x]
        == b.libs_by_book_used[x] by {
        assert(b.libs_by_book_used.contains_key(x));
        assert(scans(a.libs, a.libs_by_book_used[x] as int, x));
        assert(scans(a.libs, b.libs_by_book_used[x] as int, x));
    }
    assert(a.libs_by_book_used =~= b.libs_by_book_used);
}

/// Once no move improves the solution, further steps of the search change
/// nothing.
proof fn lemma_search_rests(problem: &Problem, start: SolutionView, n: nat, more: nat)
    requires
        first_move(problem, improved(problem, start, n)) is None,
    ensures
        improved(problem, start, n + more) == improved(problem, start, n),
    decreases more,
{
    if more > 0 {
        lemma_search_rests(problem, start, n, (more - 1) as nat);
    }
}

/// The search is deterministic: from a given solution it ends in one
/// solution, after however many steps it first finds no move.
pub proof fn search_is_determined(problem: &Problem, start: SolutionView, n: nat, m: nat)
    requires
        first_move(problem, improved(problem, start, n)) is None,
        first_move(problem, improved(problem, start, m)) is None,
    ensures
        improved(problem, start, n) == improved(problem, start, m),
{
    if n <= m {
        lemma_search_rests(problem, start, n, (m - n) as nat);
    } else {
        lemma_search_rests(problem, start, m, (n - m) as nat);
    }
}

} // verus!
