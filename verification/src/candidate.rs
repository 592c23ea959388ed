//! What a library would add if it were signed up next: the books it would
//! scan, and their score.

use vstd::prelude::*;
use std::collections::HashSet;
use crate::problem::{
    claimed_score, lemma_ranked_no_duplicates, ranked, ranks_before, total_score, BookId, Library,
    Problem,
};
use crate::tally::{lemma_claim_one, lemma_score_bounds, lemma_score_of_nothing};

verus! {

/// The books of `books` that `claimed` does not hold, in the same order.
pub open spec fn unclaimed(books: Seq<BookId>, claimed: Set<BookId>) -> Seq<BookId> {
    books.filter(|b: BookId| !claimed.contains(b))
}

/// The number of books that `lib` can scan before the deadline if its signup
/// starts when `days_left` days are left.
pub open spec fn scan_budget(lib: &Library, days_left: int) -> int {
    if days_left > lib.signup {
        lib.concurrency * (days_left - lib.signup)
    } else {
        0
    }
}

/// The books that a library with catalog `books` scans when the books in
/// `claimed` are taken already and it can scan `budget` books: its best
/// unclaimed ones, as many as the budget allows.
pub open spec fn picked(books: Seq<BookId>, claimed: Set<BookId>, budget: int) -> Seq<BookId> {
    let free = unclaimed(books, claimed);
    if budget <= 0 {
        Seq::empty()
    } else if budget < free.len() {
        free.take(budget)
    } else {
        free
    }
}

/// The rest of the catalog: the books that [`picked`] leaves out.
pub open spec fn passed_over(books: Seq<BookId>, claimed: Set<BookId>, budget: int) -> Seq<
    BookId,
> {
    unclaimed(books, picked(books, claimed, budget).to_set())
}

/// The scores of `books` added up, a book that occurs twice counted twice.
pub open spec fn books_score(scores: Seq<usize>, books: Seq<BookId>) -> int
    decreases books.len(),
{
    if books.len() == 0 {
        0
    } else {
        books_score(scores, books.drop_last()) + scores[books.last() as int]
    }
}

/// A library can scan no negative number of books.
pub proof fn lemma_scan_budget_positive(lib: &Library, days_left: int)
    ensures
        scan_budget(lib, days_left) >= 0,
{
    if days_left > lib.signup {
        assert(lib.concurrency * (days_left - lib.signup) >= 0) by (nonlinear_arith)
            requires
                lib.concurrency >= 0,
                days_left - lib.signup > 0,
        ;
    }
}

/// The library scans as many books as it has time for, or all that are not
/// claimed if those are fewer.
pub proof fn lemma_picked_count(books: Seq<BookId>, claimed: Set<BookId>, budget: int)
    ensures
        picked(books, claimed, budget).len() == if budget <= 0 {
            0
        } else {
            vstd::math::min(budget, unclaimed(books, claimed).len() as int)
        },
{
}

/// The unclaimed books are the books of the catalog that are not claimed.
pub proof fn lemma_unclaimed_members(books: Seq<BookId>, claimed: Set<BookId>)
    ensures
        unclaimed(books, claimed).len() <= books.len(),
        forall|b: BookId| #[trigger]
            unclaimed(books, claimed).contains(b) <==> books.contains(b) && !claimed.contains(b),
{
    let pred = |b: BookId| !claimed.contains(b);
    let out = unclaimed(books, claimed);
    books.lemma_filter_len(pred);
    assert forall|b: BookId| #[trigger] out.contains(b) implies books.contains(b)
        && !claimed.contains(b) by {
        books.lemma_filter_contains_rev(pred, b);
        let i = choose|i: int| 0 <= i < out.len() && out[i] == b;
        books.lemma_filter_pred(pred, i);
    }
    assert forall|b: BookId| books.contains(b) && !claimed.contains(b) implies #[trigger]
        out.contains(b) by {
        let i = choose|i: int| 0 <= i < books.len() && books[i] == b;
        books.lemma_filter_contains(pred, i);
    }
}

/// Which books are unclaimed depends on the claims on the catalog's own books
/// only.
pub proof fn lemma_unclaimed_agrees(books: Seq<BookId>, a: Set<BookId>, b: Set<BookId>)
    requires
        forall|x: BookId| #[trigger] books.contains(x) ==> (a.contains(x) <==> b.contains(x)),
    ensures
        unclaimed(books, a) == unclaimed(books, b),
    decreases books.len(),
{
    if books.len() == 0 {
        reveal(Seq::filter);
    } else {
        let front = books.drop_last();
        let last = books.last();
        assert(front.push(last) =~= books);
        assert forall|x: BookId| #[trigger] front.contains(x) implies (a.contains(x)
            <==> b.contains(x)) by {
            let k = choose|k: int| 0 <= k < front.len() && front[k] == x;
            assert(books[k] == x);
            assert(books.contains(x));
        }
        lemma_unclaimed_agrees(front, a, b);
        front.lemma_filter_push(last, |x: BookId| !a.contains(x));
        front.lemma_filter_push(last, |x: BookId| !b.contains(x));
        assert(books[books.len() - 1] == last);
        assert(books.contains(last));
    }
}

/// One more book at the end of the catalog: what becomes of [`picked`] and
/// [`passed_over`].
pub proof fn lemma_pick_next(books: Seq<BookId>, claimed: Set<BookId>, budget: int, next: BookId)
    requires
        !books.contains(next),
    ensures
        picked(books.push(next), claimed, budget) == if !claimed.contains(next) && picked(
            books,
            claimed,
            budget,
        ).len() < budget {
            picked(books, claimed, budget).push(next)
        } else {
            picked(books, claimed, budget)
        },
        passed_over(books.push(next), claimed, budget) == if !claimed.contains(next) && picked(
            books,
            claimed,
            budget,
        ).len() < budget {
            passed_over(books, claimed, budget)
        } else {
            passed_over(books, claimed, budget).push(next)
        },
{
    let free = unclaimed(books, claimed);
    let chosen = picked(books, claimed, budget);
    let longer = books.push(next);
    let chosen_next = picked(longer, claimed, budget);
    books.lemma_filter_push(next, |b: BookId| !claimed.contains(b));
    lemma_unclaimed_members(books, claimed);
    assert forall|b: BookId| #[trigger] chosen.contains(b) implies free.contains(b) by {
        let i = choose|i: int| 0 <= i < chosen.len() && chosen[i] == b;
        assert(free[i] == b);
    }
    if !claimed.contains(next) && chosen.len() < budget {
        assert(chosen_next =~= chosen.push(next));
        chosen.lemma_push_to_set_commute(next);
        assert forall|x: BookId| #[trigger] books.contains(x) implies (chosen.to_set().contains(x)
            <==> chosen_next.to_set().contains(x)) by {}
        lemma_unclaimed_agrees(books, chosen.to_set(), chosen_next.to_set());
        books.lemma_filter_push(next, |b: BookId| !chosen_next.to_set().contains(b));
        assert(chosen_next.to_set().contains(next));
    } else {
        assert(chosen_next =~= chosen);
        books.lemma_filter_push(next, |b: BookId| !chosen.to_set().contains(b));
        assert(!chosen.to_set().contains(next));
    }
}

/// Filtering keeps a ranked sequence ranked.
pub proof fn lemma_unclaimed_ranked(scores: Seq<usize>, books: Seq<BookId>, claimed: Set<BookId>)
    requires
        ranked(scores, books),
    ensures
        ranked(scores, unclaimed(books, claimed)),
        unclaimed(books, claimed).len() <= books.len(),
        forall|b: BookId| #[trigger]
            unclaimed(books, claimed).contains(b) <==> books.contains(b) && !claimed.contains(b),
    decreases books.len(),
{
    let pred = |b: BookId| !claimed.contains(b);
    let out = unclaimed(books, claimed);
    if books.len() == 0 {
        reveal(Seq::filter);
        assert(out =~= books);
    } else {
        let front = books.drop_last();
        let last = books.last();
        assert(ranked(scores, front));
        lemma_unclaimed_ranked(scores, front, claimed);
        let sub = unclaimed(front, claimed);
        assert(front.push(last) =~= books);
        front.lemma_filter_push(last, pred);
        assert forall|b: BookId| #[trigger]
            out.contains(b) <==> books.contains(b) && !claimed.contains(b) by {
            vstd::seq_lib::lemma_seq_contains_after_push(front, last, b);
            if pred(last) {
                vstd::seq_lib::lemma_seq_contains_after_push(sub, last, b);
            }
        }
        if pred(last) {
            assert forall|i: int, j: int| 0 <= i < j < out.len() implies ranks_before(
                scores,
                #[trigger] out[i],
                #[trigger] out[j],
            ) by {
                if j == out.len() - 1 {
                    assert(sub.contains(out[i]));
                    assert(front.contains(out[i]));
                    let k = choose|k: int| 0 <= k < front.len() && front[k] == out[i];
                    assert(books[k] == out[i]);
                    assert(books[books.len() - 1] == out[j]);
                } else {
                    assert(out[i] == sub[i] && out[j] == sub[j]);
                }
            }
            assert forall|i: int| 0 <= i < out.len() implies (#[trigger] out[i]) < scores.len() by {
                if i < out.len() - 1 {
                    assert(out[i] == sub[i]);
                } else {
                    assert(out[i] == books[books.len() - 1]);
                }
            }
        }
    }
}

/// What [`picked`] and [`passed_over`] make of a ranked catalog: two ranked
/// sequences that split the catalog between them, the first free of claimed
/// books and within the budget.
pub proof fn lemma_pick_splits(
    scores: Seq<usize>,
    books: Seq<BookId>,
    claimed: Set<BookId>,
    budget: int,
)
    requires
        ranked(scores, books),
    ensures
        ranked(scores, picked(books, claimed, budget)),
        ranked(scores, passed_over(books, claimed, budget)),
        picked(books, claimed, budget).len() <= books.len(),
        picked(books, claimed, budget).len() <= budget || budget < 0,
        forall|b: BookId| #[trigger]
            picked(books, claimed, budget).contains(b) ==> books.contains(b) && !claimed.contains(
                b,
            ),
        forall|b: BookId| #[trigger]
            passed_over(books, claimed, budget).contains(b) <==> books.contains(b) && !picked(
                books,
                claimed,
                budget,
            ).contains(b),
{
    let free = unclaimed(books, claimed);
    let chosen = picked(books, claimed, budget);
    lemma_unclaimed_ranked(scores, books, claimed);
    lemma_unclaimed_ranked(scores, books, chosen.to_set());
    assert forall|b: BookId| #[trigger] chosen.contains(b) implies free.contains(b) by {
        let i = choose|i: int| 0 <= i < chosen.len() && chosen[i] == b;
        assert(free[i] == b);
    }
    assert forall|i: int, j: int| 0 <= i < j < chosen.len() implies ranks_before(
        scores,
        #[trigger] chosen[i],
        #[trigger] chosen[j],
    ) by {
        assert(chosen[i] == free[i] && chosen[j] == free[j]);
    }
    assert forall|i: int| 0 <= i < chosen.len() implies (#[trigger] chosen[i]) < scores.len() by {
        assert(chosen[i] == free[i]);
    }
}

/// A sequence of different known books scores what the set of them scores.
pub proof fn lemma_books_score_is_set_score(scores: Seq<usize>, books: Seq<BookId>)
    requires
        ranked(scores, books),
        scores.len() <= usize::MAX,
    ensures
        books_score(scores, books) == claimed_score(scores, books.to_set()),
        0 <= books_score(scores, books) <= total_score(scores),
    decreases books.len(),
{
    if books.len() == 0 {
        assert(books.to_set() =~= Set::empty());
        lemma_score_of_nothing(scores, scores.len());
    } else {
        let front = books.drop_last();
        let last = books.last();
        assert(ranked(scores, front));
        lemma_books_score_is_set_score(scores, front);
        assert(!front.to_set().contains(last)) by {
            if front.contains(last) {
                let k = choose|k: int| 0 <= k < front.len() && front[k] == last;
                assert(ranks_before(scores, books[k], books[books.len() - 1]));
            }
        }
        assert(front.push(last) =~= books);
        front.lemma_push_to_set_commute(last);
        lemma_claim_one(scores, front.to_set(), last);
    }
    lemma_score_bounds(scores, books.to_set());
}

/// Splits the catalog of `lib` into the books it would scan if its signup
/// started with `days_left` days to go, and the rest: it scans its best books
/// that `used_books` does not hold, as many as it has time for.
pub fn calc_for_lib(lib: &Library, days_left: usize, used_books: &HashSet<BookId>) -> (split: (
    Vec<BookId>,
    Vec<BookId>,
))
    requires
        lib.books@.no_duplicates(),
    ensures
        split.0@ == picked(lib.books@, used_books@, scan_budget(lib, days_left as int)),
        split.1@ == passed_over(lib.books@, used_books@, scan_budget(lib, days_left as int)),
        split.0@.len() == vstd::math::min(
            scan_budget(lib, days_left as int),
            unclaimed(lib.books@, used_books@).len() as int,
        ),
{
    proof {
        lemma_picked_count(lib.books@, used_books@, scan_budget(lib, days_left as int));
        lemma_scan_budget_positive(lib, days_left as int);
    }
    let scanning_days_left = days_left.saturating_sub(lib.signup);
    let books_max: usize = match lib.concurrency.checked_mul(scanning_days_left) {
        Some(product) => product,
        None => usize::MAX,
    };
    let ghost budget = scan_budget(lib, days_left as int);
    let mut taken: Vec<BookId> = Vec::new();
    let mut left: Vec<BookId> = Vec::new();
    let mut i: usize = 0;
    proof {
        reveal(Seq::filter);
        assert(lib.books@.take(0) =~= Seq::empty());
        assert(unclaimed(Seq::empty(), used_books@) =~= Seq::empty());
        assert(picked(Seq::empty(), used_books@, budget) =~= Seq::empty());
        assert(unclaimed(Seq::empty(), Seq::<BookId>::empty().to_set()) =~= Seq::empty());
    }
    while i < lib.books.len()
        invariant
            i <= lib.books.len(),
            lib.books@.no_duplicates(),
            budget == scan_budget(lib, days_left as int),
            books_max == budget || (books_max == usize::MAX && budget > usize::MAX),
            taken@ == picked(lib.books@.take(i as int), used_books@, budget),
            left@ == passed_over(lib.books@.take(i as int), used_books@, budget),
            taken.len() <= i,
        decreases lib.books.len() - i,
    {
        let book = lib.books[i];
        proof {
            let prefix = lib.books@.take(i as int);
            assert(prefix.push(book) =~= lib.books@.take(i + 1));
            assert(!prefix.contains(book)) by {
                if prefix.contains(book) {
                    let k = choose|k: int| 0 <= k < prefix.len() && prefix[k] == book;
                    assert(lib.books@[k] == lib.books@[i as int]);
                }
            }
            lemma_pick_next(prefix, used_books@, budget, book);
        }
        if used_books.contains(&book) || taken.len() == books_max {
            left.push(book);
        } else {
            taken.push(book);
        }
        i += 1;
    }
    proof {
        assert(lib.books@.take(i as int) =~= lib.books@);
    }
    (taken, left)
}

/// The scores of a beginning of a sequence of books add up to no more than
/// those of the whole sequence.
pub proof fn lemma_books_score_grows(scores: Seq<usize>, books: Seq<BookId>, n: int)
    requires
        0 <= n <= books.len(),
    ensures
        0 <= books_score(scores, books.take(n)) <= books_score(scores, books),
    decreases books.len(),
{
    if books.len() == 0 {
        assert(books.take(n) =~= books);
    } else if n == books.len() {
        assert(books.take(n) =~= books);
        lemma_books_score_grows(scores, books.drop_last(), n - 1);
    } else {
        assert(books.take(n) =~= books.drop_last().take(n));
        lemma_books_score_grows(scores, books.drop_last(), n);
    }
}

/// Adds up the scores of `books`.
pub fn calc_books_score(problem: &Problem, books: &Vec<BookId>) -> (sum: usize)
    requires
        forall|k: int| 0 <= k < books@.len() ==> (#[trigger] books@[k]) < problem.scores@.len(),
        books_score(problem.scores@, books@) <= usize::MAX,
    ensures
        sum == books_score(problem.scores@, books@),
{
    let mut sum: usize = 0;
    let mut i: usize = 0;
    proof {
        assert(books@.take(0) =~= Seq::empty());
    }
    while i < books.len()
        invariant
            i <= books.len(),
            forall|k: int| 0 <= k < books@.len() ==> (#[trigger] books@[k]) < problem.scores@.len(),
            books_score(problem.scores@, books@) <= usize::MAX,
            sum == books_score(problem.scores@, books@.take(i as int)),
        decreases books.len() - i,
    {
        proof {
            assert(books@.take(i + 1).drop_last() =~= books@.take(i as int));
            lemma_books_score_grows(problem.scores@, books@, i + 1);
        }
        sum += problem.scores[books[i]];
        i += 1;
    }
    proof {
        assert(books@.take(i as int) =~= books@);
    }
    sum
}

/// The score that `lib` would add if its signup started with `days_left` days
/// to go: the score of the books that [`calc_for_lib`] picks.
pub fn calc_lib_score(
    problem: &Problem,
    lib: &Library,
    days_left: usize,
    used_books: &HashSet<BookId>,
) -> (score: usize)
    requires
        ranked(problem.scores@, lib.books@),
        total_score(problem.scores@) <= usize::MAX,
    ensures
        score == books_score(
            problem.scores@,
            picked(lib.books@, used_books@, scan_budget(lib, days_left as int)),
        ),
{
    proof {
        lemma_ranked_no_duplicates(problem.scores@, lib.books@);
        lemma_pick_splits(
            problem.scores@,
            lib.books@,
            used_books@,
            scan_budget(lib, days_left as int),
        );
        assert(problem.scores@.len() == problem.scores.len());
        lemma_books_score_is_set_score(
            problem.scores@,
            picked(lib.books@, used_books@, scan_budget(lib, days_left as int)),
        );
    }
    let (books_for_lib, _) = calc_for_lib(lib, days_left, used_books);
    calc_books_score(problem, &books_for_lib)
}

} // verus!
