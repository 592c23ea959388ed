//! Solvers for problems of a special shape. Each first makes sure that the
//! problem has the shape it is meant for.

use vstd::prelude::*;
use std::collections::HashSet;
use crate::candidate::{lemma_unclaimed_members, picked, scan_budget, unclaimed};
use crate::greedy::{eligible, greedy_by, greedy_schedule, greedy_step, Divisor};
use crate::problem::{lemma_ranked_no_duplicates, ranks_before, BookId, Problem};
use crate::ranking::sort_by_rank;
use crate::schedule::{
    activation, in_order, lemma_in_order_activates, lemma_in_order_len, lemma_in_order_prefix,
    lemma_push_entry, order_fault, scanned_books,
};
use crate::solution::{activated, days_left_after, ScanOrderView, Solution};

verus! {

/// Why a problem is not of the shape that a solver is meant for.
#[derive(Debug, Clone, Copy, PartialEq, Eq)]
pub enum WrongVariant {
    /// There are no scores, or not all books score the same.
    ScoresNotUniform,
    /// Some catalog does not hold exactly [`UNIFORM_CATALOG_SIZE`] books.
    CatalogSize,
    /// Some library does not scan exactly one book per day.
    ScanRate,
    /// Some book is in the catalogs of two libraries.
    SharedBook,
    /// Some catalog holds more books than its library scans in a day.
    CatalogExceedsRate,
}

/// Every library can scan its whole catalog in one day.
pub open spec fn within_daily_rate(problem: &Problem) -> bool {
    forall|l: int|
        0 <= l < problem.libraries@.len() ==> (#[trigger] problem.libraries@[l]).books@.len()
            <= problem.libraries@[l].concurrency
}

/// A library that can scan its whole catalog in a day, signed up with a day
/// to spare, scans every book of its catalog that is not claimed.
pub proof fn lemma_rate_covers_catalog(
    problem: &Problem,
    l: int,
    claimed: Set<BookId>,
    days_left: int,
)
    requires
        0 <= l < problem.libraries@.len(),
        problem.libraries@[l].books@.len() <= problem.libraries@[l].concurrency,
        problem.libraries@[l].signup < days_left,
    ensures
        picked(
            problem.libraries@[l].books@,
            claimed,
            scan_budget(&problem.libraries@[l], days_left),
        ) == unclaimed(problem.libraries@[l].books@, claimed),
{
    let lib = &problem.libraries@[l];
    lemma_unclaimed_members(lib.books@, claimed);
    assert(lib.concurrency * (days_left - lib.signup) >= lib.concurrency) by (nonlinear_arith)
        requires
            days_left - lib.signup >= 1,
            lib.concurrency >= 0,
    ;
    if unclaimed(lib.books@, claimed).len() == 0 {
        assert(picked(lib.books@, claimed, scan_budget(lib, days_left)) =~= unclaimed(
            lib.books@,
            claimed,
        ));
    }
}

/// Tells whether every library can scan its whole catalog in one day.
fn check_daily_rate(problem: &Problem) -> (ok: bool)
    ensures
        ok == within_daily_rate(problem),
{
    let mut l: usize = 0;
    while l < problem.libraries.len()
        invariant
            l <= problem.libraries.len(),
            forall|k: int|
                0 <= k < l ==> (#[trigger] problem.libraries@[k]).books@.len()
                    <= problem.libraries@[k].concurrency,
        decreases problem.libraries.len() - l,
    {
        if problem.libraries[l].books.len() > problem.libraries[l].concurrency {
            return false;
        }
        l += 1;
    }
    true
}

/// Builds a schedule for a problem in which every library can scan its whole
/// catalog in one day. It is the greedy scheduler with the offer of a library
/// divided by the days of its signup and one more: every library that is
/// signed up scans all books of its catalog that are not scanned yet.
pub fn solve_c(problem: &Problem) -> (result: Result<Solution, WrongVariant>)
    requires
        problem.wf(),
    ensures
        match result {
            Ok(solution) => {
                &&& within_daily_rate(problem)
                &&& solution.wf(problem)
                &&& greedy_schedule(problem, Divisor::SignupAndFirstDay, solution@.libs)
                &&& forall|p: int|
                    0 <= p < solution@.libs.len() ==> (#[trigger] solution@.libs[p]).books
                        == unclaimed(
                        problem.libraries@[solution@.libs[p].id as int].books@,
                        scanned_books(solution@.libs.take(p)),
                    )
            },
            Err(WrongVariant::CatalogExceedsRate) => !within_daily_rate(problem),
            Err(_) => false,
        },
{
    if !check_daily_rate(problem) {
        return Err(WrongVariant::CatalogExceedsRate);
    }
    let solution = greedy_by(problem, Divisor::SignupAndFirstDay);
    proof {
        let libs = solution@.libs;
        assert forall|p: int| 0 <= p < libs.len() implies (#[trigger] libs[p]).books == unclaimed(
            problem.libraries@[libs[p].id as int].books@,
            scanned_books(libs.take(p)),
        ) by {
            assert(greedy_step(problem, Divisor::SignupAndFirstDay, libs, p));
            lemma_rate_covers_catalog(
                problem,
                libs[p].id as int,
                scanned_books(libs.take(p)),
                days_left_after(problem, libs.take(p)),
            );
        }
    }
    Ok(solution)
}

/// The number of books in every catalog of a problem that [`solve_b`] takes.
pub const UNIFORM_CATALOG_SIZE: usize = 1000;

/// There are scores, and all are the same.
pub open spec fn uniform_scores(problem: &Problem) -> bool {
    &&& problem.scores@.len() > 0
    &&& forall|b: int| 0 <= b < problem.scores@.len() ==> #[trigger] problem.scores@[b]
        == problem.scores@[0]
}

/// Every catalog holds [`UNIFORM_CATALOG_SIZE`] books.
pub open spec fn uniform_catalogs(problem: &Problem) -> bool {
    forall|l: int|
        0 <= l < problem.libraries@.len() ==> (#[trigger] problem.libraries@[l]).books@.len()
            == UNIFORM_CATALOG_SIZE
}

/// Every library scans one book per day.
pub open spec fn one_book_per_day(problem: &Problem) -> bool {
    forall|l: int|
        0 <= l < problem.libraries@.len() ==> (#[trigger] problem.libraries@[l]).concurrency == 1
}

/// The catalog of library `l` holds book `b`.
pub open spec fn holds(problem: &Problem, l: int, b: BookId) -> bool {
    0 <= l < problem.libraries@.len() && problem.libraries@[l].books@.contains(b)
}

/// Some book is in the catalogs of two libraries.
pub open spec fn shares_book(problem: &Problem) -> bool {
    exists|l: int, other: int, b: BookId|
        l != other && #[trigger] holds(problem, l, b) && #[trigger] holds(problem, other, b)
}

/// Library `l` is signed up before library `other` where both are: its signup
/// is shorter, or as long and its id smaller.
pub open spec fn signs_up_first(problem: &Problem, l: int, other: int) -> bool {
    problem.libraries@[l].signup < problem.libraries@[other].signup || (
    problem.libraries@[l].signup == problem.libraries@[other].signup && l < other)
}

/// Library `l` is the next in line after `done`: of the libraries that are
/// not active it is the one that signs up first.
pub open spec fn next_in_line(problem: &Problem, done: Seq<ScanOrderView>, l: int) -> bool {
    &&& 0 <= l < problem.libraries@.len()
    &&& !activated(done, l)
    &&& forall|other: int|
        0 <= other < problem.libraries@.len() && other != l && !#[trigger] activated(done, other)
            ==> signs_up_first(problem, l, other)
}

/// `libs` is the schedule that signs up the libraries by length of signup, the
/// shortest first, as long as the next in line can be signed up with a day to
/// spare.
pub open spec fn signup_schedule(problem: &Problem, libs: Seq<ScanOrderView>) -> bool {
    &&& forall|p: int|
        0 <= p < libs.len() ==> {
            &&& #[trigger] next_in_line(problem, libs.take(p), libs[p].id as int)
            &&& eligible(problem, libs.take(p), libs[p].id as int)
            &&& libs[p] == activation(problem, libs.take(p), libs[p].id as int)
        }
    &&& forall|l: int| #[trigger] next_in_line(problem, libs, l) ==> !eligible(problem, libs, l)
}

/// Tells whether there are scores and all are the same.
fn check_uniform_scores(problem: &Problem) -> (ok: bool)
    ensures
        ok == uniform_scores(problem),
{
    if problem.scores.len() == 0 {
        return false;
    }
    let mut b: usize = 1;
    while b < problem.scores.len()
        invariant
            1 <= b <= problem.scores.len(),
            forall|k: int| 0 <= k < b ==> #[trigger] problem.scores@[k] == problem.scores@[0],
        decreases problem.scores.len() - b,
    {
        if problem.scores[b] != problem.scores[0] {
            return false;
        }
        b += 1;
    }
    true
}

/// Tells whether every catalog holds [`UNIFORM_CATALOG_SIZE`] books.
fn check_uniform_catalogs(problem: &Problem) -> (ok: bool)
    ensures
        ok == uniform_catalogs(problem),
{
    let mut l: usize = 0;
    while l < problem.libraries.len()
        invariant
            l <= problem.libraries.len(),
            forall|k: int|
                0 <= k < l ==> (#[trigger] problem.libraries@[k]).books@.len()
                    == UNIFORM_CATALOG_SIZE,
        decreases problem.libraries.len() - l,
    {
        if problem.libraries[l].books.len() != UNIFORM_CATALOG_SIZE {
            return false;
        }
        l += 1;
    }
    true
}

/// Tells whether every library scans one book per day.
fn check_one_book_per_day(problem: &Problem) -> (ok: bool)
    ensures
        ok == one_book_per_day(problem),
{
    let mut l: usize = 0;
    while l < problem.libraries.len()
        invariant
            l <= problem.libraries.len(),
            forall|k: int| 0 <= k < l ==> (#[trigger] problem.libraries@[k]).concurrency == 1,
        decreases problem.libraries.len() - l,
    {
        if problem.libraries[l].concurrency != 1 {
            return false;
        }
        l += 1;
    }
    true
}

/// Adds the books of a catalog to `seen`, unless one of them is there
/// already.
fn add_catalog(seen: &mut HashSet<BookId>, books: &Vec<BookId>) -> (clash: bool)
    requires
        books@.no_duplicates(),
    ensures
        clash == exists|k: int| 0 <= k < books@.len() && old(seen)@.contains(#[trigger] books@[k]),
        !clash ==> forall|b: BookId| #[trigger]
            final(seen)@.contains(b) <==> old(seen)@.contains(b) || books@.contains(b),
{
    let mut k: usize = 0;
    while k < books.len()
        invariant
            k <= books.len(),
            books@.no_duplicates(),
            forall|j: int| 0 <= j < k ==> !old(seen)@.contains(#[trigger] books@[j]),
            forall|b: BookId| #[trigger]
                seen@.contains(b) <==> old(seen)@.contains(b) || exists|j: int|
                    0 <= j < k && #[trigger] books@[j] == b,
        decreases books.len() - k,
    {
        let ghost before = seen@;
        if !seen.insert(books[k]) {
            proof {
                let b = books@[k as int];
                if !old(seen)@.contains(b) {
                    let j = choose|j: int| 0 <= j < k && #[trigger] books@[j] == b;
                    assert(books@[j] == books@[k as int]);
                }
            }
            return true;
        }
        proof {
            assert forall|b: BookId| #[trigger]
                seen@.contains(b) <==> old(seen)@.contains(b) || exists|j: int|
                    0 <= j < k + 1 && #[trigger] books@[j] == b by {
                if seen@.contains(b) && !old(seen)@.contains(b) {
                    if b != books@[k as int] {
                        assert(before.contains(b));
                        let j = choose|j: int| 0 <= j < k && #[trigger] books@[j] == b;
                        assert(0 <= j < k + 1 && books@[j] == b);
                    }
                }
                if exists|j: int| 0 <= j < k + 1 && #[trigger] books@[j] == b {
                    let j = choose|j: int| 0 <= j < k + 1 && #[trigger] books@[j] == b;
                    if j < k {
                        assert(before.contains(b));
                    }
                }
            }
        }
        k += 1;
    }
    proof {
        assert forall|b: BookId| #[trigger]
            seen@.contains(b) <==> old(seen)@.contains(b) || books@.contains(b) by {
            if books@.contains(b) {
                let j = choose|j: int| 0 <= j < books@.len() && books@[j] == b;
                assert(0 <= j < k && books@[j] == b);
            }
        }
    }
    false
}

/// Tells whether some book is in the catalogs of two libraries.
fn check_shares_book(problem: &Problem) -> (shared: bool)
    requires
        problem.wf(),
    ensures
        shared == shares_book(problem),
{
    let mut seen: HashSet<BookId> = HashSet::new();
    let mut l: usize = 0;
    while l < problem.libraries.len()
        invariant
            l <= problem.libraries.len(),
            problem.wf(),
            forall|b: BookId| #[trigger]
                seen@.contains(b) <==> exists|k: int| 0 <= k < l && #[trigger] holds(problem, k, b),
            forall|k: int, other: int, b: BookId|
                0 <= k < l && 0 <= other < l && k != other && #[trigger] holds(problem, k, b)
                    ==> !#[trigger] holds(problem, other, b),
        decreases problem.libraries.len() - l,
    {
        let ghost before = seen@;
        let books = &problem.libraries[l].books;
        proof {
            lemma_ranked_no_duplicates(problem.scores@, books@);
        }
        if add_catalog(&mut seen, books) {
            proof {
                let j = choose|j: int|
                    0 <= j < books@.len() && before.contains(#[trigger] books@[j]);
                let b = books@[j];
                let k = choose|k: int| 0 <= k < l && #[trigger] holds(problem, k, b);
                assert(holds(problem, l as int, b));
                assert(holds(problem, k, b));
            }
            return true;
        }
        proof {
            assert forall|b: BookId| #[trigger]
                seen@.contains(b) <==> exists|k: int|
                    0 <= k < l + 1 && #[trigger] holds(problem, k, b) by {
                if seen@.contains(b) {
                    if before.contains(b) {
                        let k = choose|k: int| 0 <= k < l && #[trigger] holds(problem, k, b);
                        assert(0 <= k < l + 1 && holds(problem, k, b));
                    } else {
                        assert(holds(problem, l as int, b));
                    }
                }
                if exists|k: int| 0 <= k < l + 1 && #[trigger] holds(problem, k, b) {
                    let k = choose|k: int| 0 <= k < l + 1 && #[trigger] holds(problem, k, b);
                    if k < l {
                        assert(before.contains(b));
                    }
                }
            }
            assert forall|k: int, other: int, b: BookId|
                0 <= k < l + 1 && 0 <= other < l + 1 && k != other && #[trigger] holds(
                    problem,
                    k,
                    b,
                ) implies !#[trigger] holds(problem, other, b) by {
                if holds(problem, other, b) {
                    if k == l {
                        assert(before.contains(b));
                        let j = choose|j: int| 0 <= j < books@.len() && books@[j] == b;
                        assert(before.contains(books@[j]));
                    } else if other == l {
                        assert(before.contains(b));
                        let j = choose|j: int| 0 <= j < books@.len() && books@[j] == b;
                        assert(before.contains(books@[j]));
                    }
                }
            }
        }
        l += 1;
    }
    proof {
        if shares_book(problem) {
            let (k, other, b) = choose|k: int, other: int, b: BookId|
                k != other && #[trigger] holds(problem, k, b) && #[trigger] holds(
                    problem,
                    other,
                    b,
                );
            assert(holds(problem, k, b) && holds(problem, other, b));
        }
    }
    false
}

/// The order of signup lengths as an order of ranks: the key of library `l`.
pub open spec fn signup_key(problem: &Problem, l: int) -> usize {
    (usize::MAX - problem.libraries@[l].signup) as usize
}

/// For each library a key that is the larger the shorter its signup is.
fn signup_keys(problem: &Problem) -> (keys: Vec<usize>)
    ensures
        keys@.len() == problem.libraries@.len(),
        forall|l: int| 0 <= l < keys@.len() ==> #[trigger] keys@[l] == signup_key(problem, l),
{
    let mut keys: Vec<usize> = Vec::new();
    let mut l: usize = 0;
    while l < problem.libraries.len()
        invariant
            l <= problem.libraries.len(),
            keys@.len() == l,
            forall|k: int| 0 <= k < l ==> #[trigger] keys@[k] == signup_key(problem, k),
        decreases problem.libraries.len() - l,
    {
        keys.push(usize::MAX - problem.libraries[l].signup);
        l += 1;
    }
    keys
}

/// The numbers below `n`, in order.
fn count_up(n: usize) -> (ids: Vec<usize>)
    ensures
        ids@.len() == n,
        forall|l: int| 0 <= l < n ==> #[trigger] ids@[l] == l,
{
    let mut ids: Vec<usize> = Vec::new();
    let mut l: usize = 0;
    while l < n
        invariant
            l <= n,
            ids@.len() == l,
            forall|k: int| 0 <= k < l ==> #[trigger] ids@[k] == k,
        decreases n - l,
    {
        ids.push(l);
        l += 1;
    }
    ids
}

/// `order` lists every library once, those that sign up first first.
pub open spec fn by_signup(problem: &Problem, order: Seq<usize>) -> bool {
    &&& order.len() == problem.libraries@.len()
    &&& forall|i: int| 0 <= i < order.len() ==> (#[trigger] order[i]) < problem.libraries@.len()
    &&& forall|i: int, j: int|
        0 <= i < j < order.len() ==> signs_up_first(
            problem,
            (#[trigger] order[i]) as int,
            (#[trigger] order[j]) as int,
        )
    &&& forall|l: usize| l < problem.libraries@.len() ==> #[trigger] order.contains(l)
}

/// Lists the libraries by length of signup, the shortest first, and of two
/// with the same signup the one with the smaller id first.
fn order_by_signup(problem: &Problem) -> (order: Vec<usize>)
    ensures
        by_signup(problem, order@),
{
    let keys = signup_keys(problem);
    let ids = count_up(problem.libraries.len());
    let order = sort_by_rank(&keys, &ids);
    proof {
        assert(ids@.no_duplicates());
        ids@.lemma_multiset_has_no_duplicates();
        order@.lemma_multiset_has_no_duplicates_conv();
        order@.to_multiset_ensures();
        ids@.to_multiset_ensures();
        assert forall|i: int, j: int| 0 <= i < j < order@.len() implies signs_up_first(
            problem,
            (#[trigger] order@[i]) as int,
            (#[trigger] order@[j]) as int,
        ) by {
            assert(!ranks_before(keys@, order@[j], order@[i]));
            assert(order@[i] != order@[j]);
            assert(keys@[order@[i] as int] == signup_key(problem, order@[i] as int));
            assert(keys@[order@[j] as int] == signup_key(problem, order@[j] as int));
        }
        assert forall|l: usize| l < problem.libraries@.len() implies #[trigger] order@.contains(
            l,
        ) by {
            assert(ids@[l as int] == l);
            assert(ids@.contains(l));
            assert(order@.to_multiset().count(l) > 0);
        }
    }
    order
}

/// The number of libraries at the head of `order` that can be signed up one
/// after another, each with a day to spare.
fn count_fitting(problem: &Problem, order: &Vec<usize>) -> (fitting: usize)
    requires
        problem.wf(),
        by_signup(problem, order@),
    ensures
        fitting <= order@.len(),
        forall|p: int|
            0 <= p < fitting ==> #[trigger] eligible(
                problem,
                in_order(problem, order@.take(p)),
                order@[p] as int,
            ),
        fitting < order@.len() ==> !eligible(
            problem,
            in_order(problem, order@.take(fitting as int)),
            order@[fitting as int] as int,
        ),
{
    let mut days_left = problem.days;
    let mut p: usize = 0;
    proof {
        assert(order@.take(0) =~= Seq::empty());
    }
    while p < order.len()
        invariant
            p <= order@.len(),
            by_signup(problem, order@),
            days_left == days_left_after(problem, in_order(problem, order@.take(p as int))),
            forall|q: int|
                0 <= q < p ==> #[trigger] eligible(
                    problem,
                    in_order(problem, order@.take(q)),
                    order@[q] as int,
                ),
        decreases order.len() - p,
    {
        let ghost done = in_order(problem, order@.take(p as int));
        let signup = problem.libraries[order[p]].signup;
        if signup >= days_left {
            return p;
        }
        proof {
            let l = order@[p as int] as int;
            lemma_in_order_activates(problem, order@.take(p as int), l);
            if activated(done, l) {
                let q = choose|q: int|
                    0 <= q < order@.take(p as int).len() && #[trigger] order@.take(p as int)[q]
                        == l;
                assert(signs_up_first(problem, order@[q] as int, order@[p as int] as int));
            }
            assert(order@.take(p + 1).drop_last() =~= order@.take(p as int));
            lemma_push_entry(problem, done, activation(problem, done, l));
        }
        days_left -= signup;
        p += 1;
    }
    p
}

/// Builds a schedule for a problem in which all books score the same, every
/// catalog holds [`UNIFORM_CATALOG_SIZE`] books, every library scans one book
/// per day, and no two libraries share a book. It signs up the libraries by
/// length of signup, the shortest first, as long as the next in line can be
/// signed up with a day to spare.
pub fn solve_b(problem: &Problem) -> (result: Result<Solution, WrongVariant>)
    requires
        problem.wf(),
    ensures
        match result {
            Ok(solution) => {
                &&& uniform_scores(problem)
                &&& uniform_catalogs(problem)
                &&& one_book_per_day(problem)
                &&& !shares_book(problem)
                &&& solution.wf(problem)
                &&& signup_schedule(problem, solution@.libs)
            },
            Err(WrongVariant::ScoresNotUniform) => !uniform_scores(problem),
            Err(WrongVariant::CatalogSize) => uniform_scores(problem) && !uniform_catalogs(problem),
            Err(WrongVariant::ScanRate) => uniform_scores(problem) && uniform_catalogs(problem)
                && !one_book_per_day(problem),
            Err(WrongVariant::SharedBook) => uniform_scores(problem) && uniform_catalogs(problem)
                && one_book_per_day(problem) && shares_book(problem),
            Err(WrongVariant::CatalogExceedsRate) => false,
        },
{
    if !check_uniform_scores(problem) {
        return Err(WrongVariant::ScoresNotUniform);
    }
    if !check_uniform_catalogs(problem) {
        return Err(WrongVariant::CatalogSize);
    }
    if !check_one_book_per_day(problem) {
        return Err(WrongVariant::ScanRate);
    }
    if check_shares_book(problem) {
        return Err(WrongVariant::SharedBook);
    }
    let mut order = order_by_signup(problem);
    let fitting = count_fitting(problem, &order);
    let ghost all = order@;
    order.truncate(fitting);
    proof {
        assert(order@ =~= all.take(fitting as int));
        assert forall|p: int| 0 <= p < order@.len() implies (#[trigger] order_fault(
            problem,
            order@,
            p,
        )) is None by {
            assert(order@.take(p) =~= all.take(p));
            assert(eligible(problem, in_order(problem, all.take(p)), all[p] as int));
        }
    }
    match Solution::from_order(problem, &order) {
        Ok(solution) => {
            proof {
                lemma_signup_schedule(problem, all, fitting as int);
            }
            Ok(solution)
        },
        Err(_) => vstd::pervasive::unreached(),
    }
}

/// The schedule of the libraries at the head of the order by signup that fit
/// is the schedule by signup.
proof fn lemma_signup_schedule(problem: &Problem, all: Seq<usize>, fitting: int)
    requires
        by_signup(problem, all),
        0 <= fitting <= all.len(),
        forall|p: int|
            0 <= p < fitting ==> #[trigger] eligible(
                problem,
                in_order(problem, all.take(p)),
                all[p] as int,
            ),
        fitting < all.len() ==> !eligible(
            problem,
            in_order(problem, all.take(fitting)),
            all[fitting] as int,
        ),
    ensures
        signup_schedule(problem, in_order(problem, all.take(fitting))),
{
    let order = all.take(fitting);
    let libs = in_order(problem, order);
    lemma_in_order_len(problem, order);
    assert(problem.libraries@.len() == problem.libraries.len());
    assert forall|p: int| 0 <= p < libs.len() implies {
        &&& #[trigger] next_in_line(problem, libs.take(p), libs[p].id as int)
        &&& eligible(problem, libs.take(p), libs[p].id as int)
        &&& libs[p] == activation(problem, libs.take(p), libs[p].id as int)
    } by {
        lemma_in_order_prefix(problem, order, p);
        assert(order.take(p) =~= all.take(p));
        assert(eligible(problem, in_order(problem, all.take(p)), all[p] as int));
        lemma_next_in_line(problem, all, p);
    }
    assert forall|l: int| #[trigger] next_in_line(problem, libs, l) implies !eligible(
        problem,
        libs,
        l,
    ) by {
        lemma_in_order_activates(problem, order, l);
        assert(all.contains(l as usize));
        let i = choose|i: int| 0 <= i < all.len() && all[i] == l as usize;
        if i < fitting {
            assert(order[i] == l);
        } else {
            lemma_next_in_line(problem, all, fitting);
            let first = all[fitting] as int;
            if l != first {
                assert(signs_up_first(problem, all[fitting] as int, all[i] as int));
                assert(signs_up_first(problem, l, first));
            }
        }
    }
}

/// In the order by signup, each library is the next in line after those
/// before it.
proof fn lemma_next_in_line(problem: &Problem, all: Seq<usize>, p: int)
    requires
        by_signup(problem, all),
        0 <= p < all.len(),
    ensures
        next_in_line(problem, in_order(problem, all.take(p)), all[p] as int),
{
    let done = in_order(problem, all.take(p));
    let l = all[p] as int;
    assert(problem.libraries@.len() == problem.libraries.len());
    lemma_in_order_activates(problem, all.take(p), l);
    if activated(done, l) {
        let q = choose|q: int| 0 <= q < all.take(p).len() && #[trigger] all.take(p)[q] == l;
        assert(signs_up_first(problem, all[q] as int, all[p] as int));
    }
    assert forall|other: int|
        0 <= other < problem.libraries@.len() && other != l && !#[trigger] activated(
            done,
            other,
        ) implies signs_up_first(problem, l, other) by {
        lemma_in_order_activates(problem, all.take(p), other);
        assert(all.contains(other as usize));
        let i = choose|i: int| 0 <= i < all.len() && all[i] == other as usize;
        if i < p {
            assert(all.take(p)[i] == other);
        } else {
            assert(signs_up_first(problem, all[p] as int, all[i] as int));
        }
    }
}

} // verus!
