//! The greedy scheduler: sign up, again and again, the library that offers
//! the most score per day of signup, until none can be signed up in time.

use vstd::prelude::*;
use std::collections::HashSet;
use rayon::iter::{IndexedParallelIterator, IntoParallelRefIterator, ParallelIterator};
use crate::candidate::{
    books_score, calc_lib_score, lemma_books_score_is_set_score, lemma_pick_splits, picked,
    scan_budget,
};
use crate::problem::{BookId, Library, Problem};
use crate::schedule::{
    activate, activated_libraries, activation, claim_all, lemma_entry_for_valid, lemma_extend_valid,
    lemma_push_entry, lemma_valid_books_known, scanned_books,
};
use crate::solution::{
    activated, days_left_after, entries_valid, entry_views, LibraryScanOrder, ScanOrderView,
    Solution,
};

verus! {

/// What the score that a library offers is divided by.
#[derive(Debug, Clone, Copy, PartialEq, Eq)]
pub enum Divisor {
    /// The days of its signup.
    SignupDays,
    /// The days of its signup and its first day of scanning.
    SignupAndFirstDay,
}

/// The days that `lib` is charged for.
pub open spec fn price(divisor: Divisor, lib: &Library) -> int {
    match divisor {
        Divisor::SignupDays => lib.signup as int,
        Divisor::SignupAndFirstDay => lib.signup + 1,
    }
}

/// An offer of `score_a` for `price_a` days is strictly better than one of
/// `score_b` for `price_b` days: it gives more score per day. An offer that
/// costs no days is better than any that costs some; among those that cost
/// none, one of no score is better than one of some score, and all others are
/// alike.
pub open spec fn outbids(score_a: int, price_a: int, score_b: int, price_b: int) -> bool {
    if price_a == 0 && price_b == 0 {
        score_a == 0 && score_b > 0
    } else if price_a == 0 {
        true
    } else if price_b == 0 {
        false
    } else {
        score_a * price_b > score_b * price_a
    }
}

/// An offer that beats a second one beats every offer that the second one is
/// no worse than.
pub proof fn lemma_outbids_carries(
    score_a: int,
    price_a: int,
    score_b: int,
    price_b: int,
    score_c: int,
    price_c: int,
)
    requires
        0 <= score_a && 0 <= price_a,
        0 <= score_b && 0 <= price_b,
        0 <= score_c && 0 <= price_c,
        outbids(score_a, price_a, score_b, price_b),
        !outbids(score_c, price_c, score_b, price_b),
    ensures
        outbids(score_a, price_a, score_c, price_c),
{
    if price_a > 0 && price_b > 0 && price_c > 0 {
        assert(score_a * price_c > score_c * price_a) by (nonlinear_arith)
            requires
                score_a * price_b > score_b * price_a,
                score_c * price_b <= score_b * price_c,
                price_a > 0,
                price_b > 0,
                price_c > 0,
                score_a >= 0,
                score_b >= 0,
                score_c >= 0,
        {
            assert(score_a * price_b * price_c > score_b * price_a * price_c);
            assert(score_c * price_b * price_a <= score_b * price_c * price_a);
            assert((score_a * price_c) * price_b > (score_c * price_a) * price_b);
        }
    }
}

/// No offer beats itself, and of two offers at most one beats the other.
pub proof fn lemma_outbids_one_way(score_a: int, price_a: int, score_b: int, price_b: int)
    ensures
        !(outbids(score_a, price_a, score_b, price_b) && outbids(
            score_b,
            price_b,
            score_a,
            price_a,
        )),
{
}

/// Tells whether the first offer is strictly better than the second.
pub fn is_better_offer(score_a: usize, price_a: usize, score_b: usize, price_b: usize) -> (r: bool)
    ensures
        r == outbids(score_a as int, price_a as int, score_b as int, price_b as int),
{
    if price_a == 0 && price_b == 0 {
        score_a == 0 && score_b > 0
    } else if price_a == 0 {
        true
    } else if price_b == 0 {
        false
    } else {
        assert(score_a * price_b <= u128::MAX && score_b * price_a <= u128::MAX)
            by (nonlinear_arith)
            requires
                score_a <= 0xffff_ffff_ffff_ffff,
                price_a <= 0xffff_ffff_ffff_ffff,
                score_b <= 0xffff_ffff_ffff_ffff,
                price_b <= 0xffff_ffff_ffff_ffff,
        ;
        (score_a as u128) * (price_b as u128) > (score_b as u128) * (price_a as u128)
    }
}

/// Library `l` can be signed up next: it is not active yet, and at least one
/// day is left after its signup.
pub open spec fn eligible(problem: &Problem, done: Seq<ScanOrderView>, l: int) -> bool {
    &&& 0 <= l < problem.libraries@.len()
    &&& !activated(done, l)
    &&& problem.libraries@[l].signup < days_left_after(problem, done)
}

/// The score that library `l` would add if it were signed up after `done`.
pub open spec fn offer(problem: &Problem, done: Seq<ScanOrderView>, l: int) -> int {
    books_score(
        problem.scores@,
        picked(
            problem.libraries@[l].books@,
            scanned_books(done),
            scan_budget(&problem.libraries@[l], days_left_after(problem, done)),
        ),
    )
}

/// Library `l` is chosen rather than library `other`: its offer is no worse,
/// and strictly better if `other` has the smaller id.
pub open spec fn preferred(
    problem: &Problem,
    divisor: Divisor,
    done: Seq<ScanOrderView>,
    l: int,
    other: int,
) -> bool {
    if other < l {
        outbids(
            offer(problem, done, l),
            price(divisor, &problem.libraries@[l]),
            offer(problem, done, other),
            price(divisor, &problem.libraries@[other]),
        )
    } else {
        !outbids(
            offer(problem, done, other),
            price(divisor, &problem.libraries@[other]),
            offer(problem, done, l),
            price(divisor, &problem.libraries@[l]),
        )
    }
}

/// Library `l` is the one to sign up after `done`: of the eligible libraries
/// it makes the best offer, and of those that make the best offer it has the
/// smallest id.
pub open spec fn best_choice(
    problem: &Problem,
    divisor: Divisor,
    done: Seq<ScanOrderView>,
    l: int,
) -> bool {
    &&& eligible(problem, done, l)
    &&& forall|other: int| #[trigger]
        eligible(problem, done, other) && other != l ==> preferred(
            problem,
            divisor,
            done,
            l,
            other,
        )
}

/// Entry `p` of `libs` is the greedy step after the entries before it.
pub open spec fn greedy_step(
    problem: &Problem,
    divisor: Divisor,
    libs: Seq<ScanOrderView>,
    p: int,
) -> bool {
    &&& best_choice(problem, divisor, libs.take(p), libs[p].id as int)
    &&& libs[p] == activation(problem, libs.take(p), libs[p].id as int)
}

/// `libs` is the schedule that the greedy scheduler makes: every entry is the
/// greedy step after those before it, and after the last one no library is
/// eligible.
pub open spec fn greedy_schedule(
    problem: &Problem,
    divisor: Divisor,
    libs: Seq<ScanOrderView>,
) -> bool {
    &&& forall|p: int| 0 <= p < libs.len() ==> #[trigger] greedy_step(problem, divisor, libs, p)
    &&& forall|l: int| !#[trigger] eligible(problem, libs, l)
}

/// What a library offers: the score it would add, and the days it is
/// charged for.
#[derive(Debug, Clone, Copy, PartialEq, Eq)]
pub struct Offer {
    pub score: usize,
    pub days: usize,
}

/// What library `l` offers when the libraries in `used_libraries` are active,
/// the books in `used_books` are scanned and `days_left` days are left, if it
/// can be signed up at all.
pub open spec fn standing_offer(
    problem: &Problem,
    divisor: Divisor,
    l: int,
    used_libraries: Set<usize>,
    used_books: Set<BookId>,
    days_left: int,
) -> Option<Offer> {
    let lib = &problem.libraries@[l];
    if !used_libraries.contains(l as usize) && lib.signup < days_left {
        Some(
            Offer {
                score: books_score(
                    problem.scores@,
                    picked(lib.books@, used_books, scan_budget(lib, days_left)),
                ) as usize,
                days: price(divisor, lib) as usize,
            },
        )
    } else {
        None
    }
}

/// The offer of library `lib_id`, which is `lib`, if it can be signed up.
pub fn lib_offer(
    problem: &Problem,
    divisor: Divisor,
    lib_id: usize,
    lib: &Library,
    used_libraries: &HashSet<usize>,
    used_books: &HashSet<BookId>,
    days_left: usize,
) -> (offered: Option<Offer>)
    requires
        problem.wf(),
        lib_id < problem.libraries@.len(),
        *lib == problem.libraries@[lib_id as int],
    ensures
        offered == standing_offer(
            problem,
            divisor,
            lib_id as int,
            used_libraries@,
            used_books@,
            days_left as int,
        ),
{
    if !used_libraries.contains(&lib_id) && lib.signup < days_left {
        let days = match divisor {
            Divisor::SignupDays => lib.signup,
            Divisor::SignupAndFirstDay => lib.signup + 1,
        };
        Some(Offer { score: calc_lib_score(problem, lib, days_left, used_books), days })
    } else {
        None
    }
}

/// Evaluates every library, on rayon's thread pool. The contract claims of
/// `par_iter`, `enumerate`, `map` and `collect` that the vector holds, at each
/// library's index, what [`lib_offer`] returns for that library.
#[verifier::external_body]
fn par_offers(
    problem: &Problem,
    divisor: Divisor,
    used_libraries: &HashSet<usize>,
    used_books: &HashSet<BookId>,
    days_left: usize,
) -> (offers: Vec<Option<Offer>>)
    requires
        problem.wf(),
    ensures
        offers@.len() == problem.libraries@.len(),
        forall|l: int|
            0 <= l < offers@.len() ==> #[trigger] offers@[l] == standing_offer(
                problem,
                divisor,
                l,
                used_libraries@,
                used_books@,
                days_left as int,
            ),
{
    problem.libraries.par_iter().enumerate().map(
        |(lib_id, lib)|
            lib_offer(problem, divisor, lib_id, lib, used_libraries, used_books, days_left),
    ).collect()
}

/// Among the offers made, that of library `l` is chosen rather than that of
/// library `other`: it is no worse, and strictly better if `other` has the
/// smaller id.
pub open spec fn tops(offers: Seq<Option<Offer>>, l: int, other: int) -> bool {
    let mine = offers[l].unwrap();
    let theirs = offers[other].unwrap();
    if other < l {
        outbids(mine.score as int, mine.days as int, theirs.score as int, theirs.days as int)
    } else {
        !outbids(theirs.score as int, theirs.days as int, mine.score as int, mine.days as int)
    }
}

/// Picks the library that makes the best offer, and of several that make it
/// the one with the smallest id. `None` if no library makes an offer.
pub fn best_offer(offers: &Vec<Option<Offer>>) -> (best: Option<usize>)
    ensures
        match best {
            Some(l) => {
                &&& l < offers@.len()
                &&& offers@[l as int] is Some
                &&& forall|other: int|
                    0 <= other < offers@.len() && other != l && (#[trigger] offers@[other]) is Some
                        ==> tops(offers@, l as int, other)
            },
            None => forall|l: int| 0 <= l < offers@.len() ==> (#[trigger] offers@[l]) is None,
        },
{
    let mut best: Option<usize> = None;
    let mut i: usize = 0;
    while i < offers.len()
        invariant
            i <= offers.len(),
            match best {
                Some(l) => {
                    &&& l < i
                    &&& offers@[l as int] is Some
                    &&& forall|other: int|
                        0 <= other < i && other != l && (#[trigger] offers@[other]) is Some
                            ==> tops(offers@, l as int, other)
                },
                None => forall|l: int| 0 <= l < i ==> (#[trigger] offers@[l]) is None,
            },
        decreases offers.len() - i,
    {
        if let Some(made) = offers[i] {
            match best {
                None => {
                    best = Some(i);
                },
                Some(l) => {
                    let held = offers[l].unwrap();
                    if is_better_offer(made.score, made.days, held.score, held.days) {
                        proof {
                            assert forall|other: int|
                                0 <= other < i + 1 && other != i && (
                                #[trigger] offers@[other]) is Some implies tops(
                                offers@,
                                i as int,
                                other,
                            ) by {
                                if other != l {
                                    let theirs = offers@[other].unwrap();
                                    assert(tops(offers@, l as int, other));
                                    lemma_outbids_one_way(
                                        held.score as int,
                                        held.days as int,
                                        theirs.score as int,
                                        theirs.days as int,
                                    );
                                    lemma_outbids_carries(
                                        made.score as int,
                                        made.days as int,
                                        held.score as int,
                                        held.days as int,
                                        theirs.score as int,
                                        theirs.days as int,
                                    );
                                }
                            }
                        }
                        best = Some(i);
                    }
                },
            }
        }
        i += 1;
    }
    best
}

/// The number of libraries among the first `n` that `done` has not activated.
pub open spec fn waiting(done: Seq<ScanOrderView>, n: nat) -> nat
    decreases n,
{
    if n == 0 {
        0
    } else {
        waiting(done, (n - 1) as nat) + if activated(done, n - 1) {
            0nat
        } else {
            1nat
        }
    }
}

/// Signing up a library that was waiting leaves one fewer waiting.
proof fn lemma_one_fewer_waiting(
    problem: &Problem,
    done: Seq<ScanOrderView>,
    e: ScanOrderView,
    n: nat,
)
    requires
        !activated(done, e.id as int),
    ensures
        waiting(done.push(e), n) + (if e.id < n {
            1nat
        } else {
            0nat
        }) == waiting(done, n),
    decreases n,
{
    lemma_push_entry(problem, done, e);
    if n > 0 {
        lemma_one_fewer_waiting(problem, done, e, (n - 1) as nat);
    }
}

/// Builds a schedule greedily: as long as a library can be signed up with a
/// day to spare, it signs up the one whose offer is best for its price, the
/// one with the smallest id among equals, and gives it its best books that are
/// not scanned yet, as many as it has time for.
pub fn greedy_by(problem: &Problem, divisor: Divisor) -> (solution: Solution)
    requires
        problem.wf(),
    ensures
        solution.wf(problem),
        greedy_schedule(problem, divisor, solution@.libs),
{
    let mut used_books: HashSet<BookId> = HashSet::new();
    let mut used_libraries: HashSet<usize> = HashSet::new();
    let mut solution_part: Vec<LibraryScanOrder> = Vec::new();
    let mut days_left = problem.days;
    proof {
        let done = entry_views(solution_part@);
        assert(done =~= Seq::empty());
        assert(used_books@ =~= scanned_books(done));
        assert(used_libraries@ =~= activated_libraries(done));
    }
    loop
        invariant
            problem.wf(),
            entries_valid(problem, entry_views(solution_part@)),
            forall|p: int|
                0 <= p < solution_part@.len() ==> #[trigger] greedy_step(
                    problem,
                    divisor,
                    entry_views(solution_part@),
                    p,
                ),
            used_books@ == scanned_books(entry_views(solution_part@)),
            used_libraries@ == activated_libraries(entry_views(solution_part@)),
            days_left == days_left_after(problem, entry_views(solution_part@)),
        ensures
            forall|l: int| !#[trigger] eligible(problem, entry_views(solution_part@), l),
        decreases waiting(entry_views(solution_part@), problem.libraries@.len()),
    {
        let ghost done = entry_views(solution_part@);
        let offers = par_offers(problem, divisor, &used_libraries, &used_books, days_left);
        proof {
            assert(problem.libraries@.len() == problem.libraries.len());
            assert forall|l: int| 0 <= l < offers@.len() implies ((#[trigger] offers@[l]) is Some
                <==> eligible(problem, done, l)) by {
                let id = l as usize;
                assert(activated_libraries(done).contains(id) <==> activated(done, id as int));
            }
            assert forall|l: int| 0 <= l < offers@.len() && (#[trigger] offers@[l]) is Some implies
                offers@[l].unwrap().score == offer(problem, done, l) && offers@[l].unwrap().days
                == price(divisor, &problem.libraries@[l]) by {
                let lib = &problem.libraries@[l];
                lemma_pick_splits(
                    problem.scores@,
                    lib.books@,
                    used_books@,
                    scan_budget(lib, days_left as int),
                );
                assert(problem.scores@.len() == problem.scores.len());
                lemma_books_score_is_set_score(
                    problem.scores@,
                    picked(lib.books@, used_books@, scan_budget(lib, days_left as int)),
                );
            }
        }
        match best_offer(&offers) {
            None => {
                proof {
                    assert forall|l: int| !#[trigger] eligible(problem, done, l) by {
                        if 0 <= l < offers@.len() {
                            assert(offers@[l] is None);
                        }
                    }
                }
                break ;
            },
            Some(lib_id) => {
                let entry = activate(problem, lib_id, days_left, &used_books);
                proof {
                    let l = lib_id as int;
                    assert(entry@ == activation(problem, done, l));
                    lemma_entry_for_valid(problem, l, used_books@, days_left as int);
                    lemma_extend_valid(problem, done, entry@);
                    lemma_push_entry(problem, done, entry@);
                    lemma_one_fewer_waiting(problem, done, entry@, problem.libraries@.len());
                    assert(best_choice(problem, divisor, done, l)) by {
                        assert forall|other: int| #[trigger]
                            eligible(problem, done, other) && other != l implies preferred(
                            problem,
                            divisor,
                            done,
                            l,
                            other,
                        ) by {
                            assert(offers@[other] is Some);
                            assert(tops(offers@, l, other));
                        }
                    }
                    assert(entry_views(solution_part@.push(entry)) =~= done.push(entry@));
                    let longer = done.push(entry@);
                    assert forall|p: int| 0 <= p < longer.len() implies #[trigger] greedy_step(
                        problem,
                        divisor,
                        longer,
                        p,
                    ) by {
                        if p < done.len() {
                            assert(greedy_step(problem, divisor, done, p));
                            assert(longer.take(p) == done.take(p));
                        } else {
                            assert(longer.take(p) == done.take(p));
                            assert(done.take(p) =~= done);
                        }
                    }
                }
                claim_all(&mut used_books, &entry.books);
                days_left -= problem.libraries[lib_id].signup;
                used_libraries.insert(lib_id);
                solution_part.push(entry);
                proof {
                    let longer = entry_views(solution_part@);
                    assert(used_books@ =~= scanned_books(longer));
                    assert(used_libraries@ =~= activated_libraries(longer)) by {
                        assert forall|x: usize|
                            used_libraries@.contains(x) <==> activated_libraries(longer).contains(
                                x,
                            ) by {
                            assert(activated_libraries(done).contains(x) <==> activated(
                                done,
                                x as int,
                            ));
                        }
                    }
                }
            },
        }
    }
    proof {
        lemma_valid_books_known(problem, entry_views(solution_part@));
    }
    Solution::from_libs(problem, solution_part)
}

/// Builds a schedule greedily by score per day of signup. See [`greedy_by`].
pub fn solve_greedy(problem: &Problem) -> (solution: Solution)
    requires
        problem.wf(),
    ensures
        solution.wf(problem),
        greedy_schedule(problem, Divisor::SignupDays, solution@.libs),
{
    greedy_by(problem, Divisor::SignupDays)
}

} // verus!
