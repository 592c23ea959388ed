//! Facts about the score of a set of books.

use vstd::prelude::*;
use crate::problem::{claimed_score, claimed_score_below, total_score, BookId};

verus! {

/// Claiming one more book adds its score.
pub proof fn lemma_claim_one_below(scores: Seq<usize>, claimed: Set<BookId>, b: BookId, n: nat)
    requires
        !claimed.contains(b),
        n <= scores.len() <= usize::MAX,
    ensures
        claimed_score_below(scores, claimed.insert(b), n) == claimed_score_below(scores, claimed, n)
            + if b < n {
            scores[b as int] as int
        } else {
            0
        },
    decreases n,
{
    if n > 0 {
        lemma_claim_one_below(scores, claimed, b, (n - 1) as nat);
    }
}

/// Claiming one more book adds its score.
pub proof fn lemma_claim_one(scores: Seq<usize>, claimed: Set<BookId>, b: BookId)
    requires
        !claimed.contains(b),
        b < scores.len() <= usize::MAX,
    ensures
        claimed_score(scores, claimed.insert(b)) == claimed_score(scores, claimed)
            + scores[b as int],
{
    lemma_claim_one_below(scores, claimed, b, scores.len());
}

/// Releasing a claimed book takes its score away.
pub proof fn lemma_release_one(scores: Seq<usize>, claimed: Set<BookId>, b: BookId)
    requires
        claimed.contains(b),
        b < scores.len() <= usize::MAX,
    ensures
        claimed_score(scores, claimed.remove(b)) == claimed_score(scores, claimed)
            - scores[b as int],
{
    lemma_claim_one(scores, claimed.remove(b), b);
    assert(claimed.remove(b).insert(b) =~= claimed);
}

/// A set of books scores no more than a set that holds all of them.
pub proof fn lemma_score_monotone_below(
    scores: Seq<usize>,
    small: Set<BookId>,
    large: Set<BookId>,
    n: nat,
)
    requires
        small.subset_of(large),
        n <= scores.len(),
    ensures
        0 <= claimed_score_below(scores, small, n) <= claimed_score_below(scores, large, n),
    decreases n,
{
    if n > 0 {
        lemma_score_monotone_below(scores, small, large, (n - 1) as nat);
    }
}

/// No set of books scores less than nothing or more than all books together.
pub proof fn lemma_score_bounds(scores: Seq<usize>, claimed: Set<BookId>)
    ensures
        0 <= claimed_score(scores, claimed) <= total_score(scores),
{
    lemma_score_monotone_below(scores, claimed, Set::full(), scores.len());
}

/// The empty set scores nothing.
pub proof fn lemma_score_of_nothing(scores: Seq<usize>, n: nat)
    requires
        n <= scores.len(),
    ensures
        claimed_score_below(scores, Set::empty(), n) == 0,
    decreases n,
{
    if n > 0 {
        lemma_score_of_nothing(scores, (n - 1) as nat);
    }
}

} // verus!
