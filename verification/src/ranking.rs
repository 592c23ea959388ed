//! Ranked sequences of books: finding a book, taking one out, putting one in.

use vstd::prelude::*;
use crate::problem::{comes_before, ranked, ranks_before, BookId};

verus! {

/// The number of books in `books` that rank before `b`: the place of `b`
/// among them.
pub open spec fn place_of(scores: Seq<usize>, books: Seq<BookId>, b: BookId) -> int
    decreases books.len(),
{
    if books.len() == 0 {
        0
    } else {
        place_of(scores, books.drop_last(), b) + if ranks_before(scores, books.last(), b) {
            1int
        } else {
            0int
        }
    }
}

/// `books` with `b` put in at its place.
pub open spec fn with_book(scores: Seq<usize>, books: Seq<BookId>, b: BookId) -> Seq<BookId> {
    books.insert(place_of(scores, books, b), b)
}

/// `books` with `b` taken out.
pub open spec fn without(books: Seq<BookId>, b: BookId) -> Seq<BookId> {
    books.remove(books.index_of(b))
}

/// Where the books before index `i` rank before `b` and the others do not,
/// `i` is the place of `b`.
pub proof fn lemma_place_at(scores: Seq<usize>, books: Seq<BookId>, b: BookId, i: int)
    requires
        0 <= i <= books.len(),
        forall|j: int| 0 <= j < i ==> ranks_before(scores, #[trigger] books[j], b),
        forall|j: int| i <= j < books.len() ==> !ranks_before(scores, #[trigger] books[j], b),
    ensures
        place_of(scores, books, b) == i,
    decreases books.len(),
{
    if books.len() > 0 {
        let front = books.drop_last();
        if i == books.len() {
            lemma_place_at(scores, front, b, i - 1);
            assert(ranks_before(scores, books[books.len() - 1], b));
        } else {
            lemma_place_at(scores, front, b, i);
            assert(!ranks_before(scores, books[books.len() - 1], b));
        }
    }
}

/// In a ranked sequence that does not hold `b`, the place of `b` parts the
/// books that rank before it from those that rank after it.
pub proof fn lemma_place_parts(scores: Seq<usize>, books: Seq<BookId>, b: BookId)
    requires
        ranked(scores, books),
        b < scores.len(),
        !books.contains(b),
    ensures
        0 <= place_of(scores, books, b) <= books.len(),
        forall|j: int|
            0 <= j < place_of(scores, books, b) ==> ranks_before(scores, #[trigger] books[j], b),
        forall|j: int|
            place_of(scores, books, b) <= j < books.len() ==> ranks_before(
                scores,
                b,
                #[trigger] books[j],
            ),
    decreases books.len(),
{
    if books.len() > 0 {
        let front = books.drop_last();
        let last = books.last();
        assert(ranked(scores, front));
        assert(!front.contains(b)) by {
            if front.contains(b) {
                let k = choose|k: int| 0 <= k < front.len() && front[k] == b;
                assert(books[k] == b);
            }
        }
        assert(books[books.len() - 1] != b);
        if ranks_before(scores, last, b) {
            assert forall|j: int| 0 <= j < front.len() implies ranks_before(
                scores,
                #[trigger] front[j],
                b,
            ) by {
                assert(ranks_before(scores, books[j], books[books.len() - 1]));
            }
            lemma_place_at(scores, front, b, front.len() as int);
            assert forall|j: int| 0 <= j < books.len() implies ranks_before(
                scores,
                #[trigger] books[j],
                b,
            ) by {
                if j < front.len() {
                    assert(books[j] == front[j]);
                }
            }
        } else {
            lemma_place_parts(scores, front, b);
            let at = place_of(scores, front, b);
            assert forall|j: int| 0 <= j < at implies ranks_before(
                scores,
                #[trigger] books[j],
                b,
            ) by {
                assert(books[j] == front[j]);
            }
            assert forall|j: int| at <= j < books.len() implies ranks_before(
                scores,
                b,
                #[trigger] books[j],
            ) by {
                if j < front.len() {
                    assert(books[j] == front[j]);
                }
            }
        }
    }
}

/// Putting a new book into a ranked sequence keeps it ranked and adds just
/// that book.
pub proof fn lemma_with_book(scores: Seq<usize>, books: Seq<BookId>, b: BookId)
    requires
        ranked(scores, books),
        b < scores.len(),
        !books.contains(b),
    ensures
        ranked(scores, with_book(scores, books, b)),
        with_book(scores, books, b).len() == books.len() + 1,
        forall|x: BookId| #[trigger]
            with_book(scores, books, b).contains(x) <==> books.contains(x) || x == b,
{
    lemma_place_parts(scores, books, b);
    let at = place_of(scores, books, b);
    let out = with_book(scores, books, b);
    assert forall|i: int, j: int| 0 <= i < j < out.len() implies ranks_before(
        scores,
        #[trigger] out[i],
        #[trigger] out[j],
    ) by {
        if j < at {
            assert(out[i] == books[i] && out[j] == books[j]);
        } else if j == at {
            assert(out[i] == books[i]);
        } else if i < at {
            assert(out[i] == books[i] && out[j] == books[j - 1]);
        } else if i == at {
            assert(out[j] == books[j - 1]);
        } else {
            assert(out[i] == books[i - 1] && out[j] == books[j - 1]);
        }
    }
    assert forall|i: int| 0 <= i < out.len() implies (#[trigger] out[i]) < scores.len() by {
        if i < at {
            assert(out[i] == books[i]);
        } else if i > at {
            assert(out[i] == books[i - 1]);
        }
    }
    assert forall|x: BookId| #[trigger] out.contains(x) <==> books.contains(x) || x == b by {
        if out.contains(x) {
            let i = choose|i: int| 0 <= i < out.len() && out[i] == x;
            if i < at {
                assert(books[i] == x);
            } else if i > at {
                assert(books[i - 1] == x);
            }
        }
        if books.contains(x) {
            let i = choose|i: int| 0 <= i < books.len() && books[i] == x;
            if i < at {
                assert(out[i] == x);
            } else {
                assert(out[i + 1] == x);
            }
        }
        if x == b {
            assert(out[at] == x);
        }
    }
}

/// Taking a book out of a ranked sequence keeps it ranked and removes just
/// that book.
pub proof fn lemma_without(scores: Seq<usize>, books: Seq<BookId>, b: BookId)
    requires
        ranked(scores, books),
        books.contains(b),
    ensures
        ranked(scores, without(books, b)),
        without(books, b).len() == books.len() - 1,
        forall|x: BookId| #[trigger] without(books, b).contains(x) <==> books.contains(x) && x != b,
{
    let at = books.index_of(b);
    let out = without(books, b);
    assert(0 <= at < books.len() && books[at] == b);
    assert forall|i: int, j: int| 0 <= i < j < out.len() implies ranks_before(
        scores,
        #[trigger] out[i],
        #[trigger] out[j],
    ) by {
        let oi = if i < at { i } else { i + 1 };
        let oj = if j < at { j } else { j + 1 };
        assert(out[i] == books[oi] && out[j] == books[oj]);
    }
    assert forall|i: int| 0 <= i < out.len() implies (#[trigger] out[i]) < scores.len() by {
        let oi = if i < at { i } else { i + 1 };
        assert(out[i] == books[oi]);
    }
    assert forall|x: BookId| #[trigger] out.contains(x) <==> books.contains(x) && x != b by {
        if out.contains(x) {
            let i = choose|i: int| 0 <= i < out.len() && out[i] == x;
            let oi = if i < at { i } else { i + 1 };
            assert(books[oi] == x);
            if oi < at {
                assert(ranks_before(scores, books[oi], books[at]));
            } else {
                assert(ranks_before(scores, books[at], books[oi]));
            }
        }
        if books.contains(x) && x != b {
            let i = choose|i: int| 0 <= i < books.len() && books[i] == x;
            if i < at {
                assert(out[i] == x);
            } else {
                assert(out[i - 1] == x);
            }
        }
    }
}

/// In a ranked sequence a book stands at one index only.
pub proof fn lemma_index_of(scores: Seq<usize>, books: Seq<BookId>, i: int)
    requires
        ranked(scores, books),
        0 <= i < books.len(),
    ensures
        books.index_of(books[i]) == i,
{
    let at = books.index_of(books[i]);
    assert(books.contains(books[i]));
    assert(0 <= at < books.len() && books[at] == books[i]);
    if at < i {
        assert(ranks_before(scores, books[at], books[i]));
    } else if i < at {
        assert(ranks_before(scores, books[i], books[at]));
    }
}

/// Looks for `book` in the ranked sequence `books`: `Ok` with its index if it
/// is there, else `Err` with its place.
pub fn rank_search(scores: &Vec<usize>, books: &Vec<BookId>, book: BookId) -> (found: Result<
    usize,
    usize,
>)
    requires
        ranked(scores@, books@),
        book < scores@.len(),
    ensures
        match found {
            Ok(i) => i < books@.len() && books@[i as int] == book,
            Err(i) => !books@.contains(book) && i == place_of(scores@, books@, book),
        },
{
    let mut lo: usize = 0;
    let mut hi: usize = books.len();
    while lo < hi
        invariant
            lo <= hi <= books@.len(),
            ranked(scores@, books@),
            book < scores@.len(),
            forall|j: int| 0 <= j < lo ==> ranks_before(scores@, #[trigger] books@[j], book),
            forall|j: int|
                hi <= j < books@.len() ==> ranks_before(scores@, book, #[trigger] books@[j]),
        decreases hi - lo,
    {
        let mid = lo + (hi - lo) / 2;
        let at_mid = books[mid];
        if at_mid == book {
            return Ok(mid);
        }
        if comes_before(scores, at_mid, book) {
            proof {
                assert forall|j: int| 0 <= j < mid + 1 implies ranks_before(
                    scores@,
                    #[trigger] books@[j],
                    book,
                ) by {
                    if j < mid {
                        assert(ranks_before(scores@, books@[j], books@[mid as int]));
                    }
                }
            }
            lo = mid + 1;
        } else {
            proof {
                assert forall|j: int| mid <= j < books@.len() implies ranks_before(
                    scores@,
                    book,
                    #[trigger] books@[j],
                ) by {
                    if j > mid {
                        assert(ranks_before(scores@, books@[mid as int], books@[j]));
                    }
                }
            }
            hi = mid;
        }
    }
    proof {
        assert(!books@.contains(book)) by {
            if books@.contains(book) {
                let k = choose|k: int| 0 <= k < books@.len() && books@[k] == book;
                if k < lo {
                    assert(ranks_before(scores@, books@[k], book));
                } else {
                    assert(ranks_before(scores@, book, books@[k]));
                }
            }
        }
        assert forall|j: int| lo <= j < books@.len() implies !ranks_before(
            scores@,
            #[trigger] books@[j],
            book,
        ) by {
            assert(ranks_before(scores@, book, books@[j]));
        }
        lemma_place_at(scores@, books@, book, lo as int);
    }
    Err(lo)
}

/// `books` names known books only, and none of them stands behind a book
/// that it ranks before. A book may occur more than once.
pub open spec fn in_rank_order(scores: Seq<usize>, books: Seq<BookId>) -> bool {
    &&& forall|i: int| 0 <= i < books.len() ==> (#[trigger] books[i]) < scores.len()
    &&& forall|i: int, j: int|
        0 <= i < j < books.len() ==> !ranks_before(scores, #[trigger] books[j], #[trigger] books[i])
}

/// Merges two sequences in rank order into one.
fn merge_by_rank(scores: &Vec<usize>, left: &Vec<BookId>, right: &Vec<BookId>) -> (merged: Vec<
    BookId,
>)
    requires
        in_rank_order(scores@, left@),
        in_rank_order(scores@, right@),
    ensures
        in_rank_order(scores@, merged@),
        merged@.to_multiset() == left@.to_multiset().add(right@.to_multiset()),
{
    let mut merged: Vec<BookId> = Vec::new();
    let mut i: usize = 0;
    let mut j: usize = 0;
    proof {
        assert(left@.take(0) =~= Seq::empty());
        assert(right@.take(0) =~= Seq::empty());
        vstd::seq_lib::lemma_multiset_commutative(left@.take(0), right@.take(0));
        assert(left@.take(0) + right@.take(0) =~= merged@);
    }
    while i < left.len() || j < right.len()
        invariant
            i <= left@.len(),
            j <= right@.len(),
            in_rank_order(scores@, left@),
            in_rank_order(scores@, right@),
            in_rank_order(scores@, merged@),
            merged@.to_multiset() == left@.take(i as int).to_multiset().add(
                right@.take(j as int).to_multiset(),
            ),
            forall|k: int|
                0 <= k < merged@.len() && i < left@.len() ==> !ranks_before(
                    scores@,
                    left@[i as int],
                    #[trigger] merged@[k],
                ),
            forall|k: int|
                0 <= k < merged@.len() && j < right@.len() ==> !ranks_before(
                    scores@,
                    right@[j as int],
                    #[trigger] merged@[k],
                ),
        decreases left.len() - i + right.len() - j,
    {
        let from_left = if i == left.len() {
            false
        } else if j == right.len() {
            true
        } else {
            !comes_before(scores, right[j], left[i])
        };
        if from_left {
            proof {
                assert(left@.take(i as int).push(left@[i as int]) =~= left@.take(i + 1));
                vstd::seq_lib::to_multiset_build(left@.take(i as int), left@[i as int]);
                vstd::seq_lib::to_multiset_build(merged@, left@[i as int]);
                assert(merged@.push(left@[i as int]).to_multiset() =~= left@.take(
                    i + 1,
                ).to_multiset().add(right@.take(j as int).to_multiset()));
                if i + 1 < left@.len() {
                    assert(!ranks_before(scores@, left@[i + 1], left@[i as int]));
                }
            }
            merged.push(left[i]);
            i += 1;
        } else {
            proof {
                assert(right@.take(j as int).push(right@[j as int]) =~= right@.take(j + 1));
                vstd::seq_lib::to_multiset_build(right@.take(j as int), right@[j as int]);
                vstd::seq_lib::to_multiset_build(merged@, right@[j as int]);
                assert(merged@.push(right@[j as int]).to_multiset() =~= left@.take(
                    i as int,
                ).to_multiset().add(right@.take(j + 1).to_multiset()));
                if j + 1 < right@.len() {
                    assert(!ranks_before(scores@, right@[j + 1], right@[j as int]));
                }
            }
            merged.push(right[j]);
            j += 1;
        }
    }
    proof {
        assert(left@.take(i as int) =~= left@);
        assert(right@.take(j as int) =~= right@);
    }
    merged
}

/// Sorts the books `books[lo..hi]` into rank order.
fn sort_range(scores: &Vec<usize>, books: &Vec<BookId>, lo: usize, hi: usize) -> (sorted: Vec<
    BookId,
>)
    requires
        lo <= hi <= books@.len(),
        forall|k: int| 0 <= k < books@.len() ==> (#[trigger] books@[k]) < scores@.len(),
    ensures
        in_rank_order(scores@, sorted@),
        sorted@.to_multiset() == books@.subrange(lo as int, hi as int).to_multiset(),
    decreases hi - lo,
{
    if hi - lo == 0 {
        let sorted: Vec<BookId> = Vec::new();
        proof {
            assert(books@.subrange(lo as int, hi as int) =~= sorted@);
        }
        sorted
    } else if hi - lo == 1 {
        let mut sorted: Vec<BookId> = Vec::new();
        sorted.push(books[lo]);
        proof {
            assert(books@.subrange(lo as int, hi as int) =~= sorted@);
        }
        sorted
    } else {
        let mid = lo + (hi - lo) / 2;
        let left = sort_range(scores, books, lo, mid);
        let right = sort_range(scores, books, mid, hi);
        proof {
            let front = books@.subrange(lo as int, mid as int);
            let back = books@.subrange(mid as int, hi as int);
            assert(front + back =~= books@.subrange(lo as int, hi as int));
            vstd::seq_lib::lemma_multiset_commutative(front, back);
        }
        merge_by_rank(scores, &left, &right)
    }
}

/// Sorts `books` into rank order: best score first, and of two books with the
/// same score the one with the smaller id first. The result holds the same
/// books, each as often as `books` does.
pub fn sort_by_rank(scores: &Vec<usize>, books: &Vec<BookId>) -> (sorted: Vec<BookId>)
    requires
        forall|k: int| 0 <= k < books@.len() ==> (#[trigger] books@[k]) < scores@.len(),
    ensures
        in_rank_order(scores@, sorted@),
        sorted@.to_multiset() == books@.to_multiset(),
        sorted@.len() == books@.len(),
{
    let sorted = sort_range(scores, books, 0, books.len());
    proof {
        assert(books@.subrange(0, books@.len() as int) =~= books@);
        sorted@.to_multiset_ensures();
        books@.to_multiset_ensures();
    }
    sorted
}

/// A sequence in rank order that names no book twice is ranked.
pub proof fn lemma_rank_order_without_repeats(scores: Seq<usize>, books: Seq<BookId>)
    requires
        in_rank_order(scores, books),
        books.no_duplicates(),
    ensures
        ranked(scores, books),
{
    assert forall|i: int, j: int| 0 <= i < j < books.len() implies ranks_before(
        scores,
        #[trigger] books[i],
        #[trigger] books[j],
    ) by {
        assert(!ranks_before(scores, books[j], books[i]));
        assert(books[i] != books[j]);
    }
}

/// Tells whether `books` names known books only, strictly in rank order.
pub fn is_ranked(scores: &Vec<usize>, books: &Vec<BookId>) -> (yes: bool)
    ensures
        yes == ranked(scores@, books@),
{
    let mut k: usize = 0;
    proof {
        assert(books@.take(0) =~= Seq::empty());
    }
    while k < books.len()
        invariant
            k <= books.len(),
            ranked(scores@, books@.take(k as int)),
        decreases books.len() - k,
    {
        if books[k] >= scores.len() {
            return false;
        }
        if k > 0 {
            proof {
                assert(books@.take(k as int)[k - 1] < scores@.len());
            }
            if !comes_before(scores, books[k - 1], books[k]) {
                return false;
            }
        }
        proof {
            let longer = books@.take(k + 1);
            let shorter = books@.take(k as int);
            assert forall|i: int, j: int| 0 <= i < j < longer.len() implies ranks_before(
                scores@,
                #[trigger] longer[i],
                #[trigger] longer[j],
            ) by {
                if j == k {
                    assert(shorter[k - 1] < scores@.len());
                    assert(shorter[i] < scores@.len());
                    if i < k - 1 {
                        assert(ranks_before(scores@, shorter[i], shorter[k - 1]));
                    }
                } else {
                    assert(ranks_before(scores@, shorter[i], shorter[j]));
                }
            }
            assert forall|i: int| 0 <= i < longer.len() implies (#[trigger] longer[i])
                < scores@.len() by {
                if i < k {
                    assert(shorter[i] < scores@.len());
                }
            }
        }
        k += 1;
    }
    proof {
        assert(books@.take(k as int) =~= books@);
    }
    true
}

/// Tells whether every one of `books` is in the ranked `catalog`.
pub fn all_in_catalog(scores: &Vec<usize>, catalog: &Vec<BookId>, books: &Vec<BookId>) -> (all:
    bool)
    requires
        ranked(scores@, catalog@),
    ensures
        all == forall|k: int| 0 <= k < books@.len() ==> catalog@.contains(#[trigger] books@[k]),
{
    let mut k: usize = 0;
    while k < books.len()
        invariant
            k <= books.len(),
            ranked(scores@, catalog@),
            forall|j: int| 0 <= j < k ==> catalog@.contains(#[trigger] books@[j]),
        decreases books.len() - k,
    {
        let book = books[k];
        if book >= scores.len() {
            proof {
                if catalog@.contains(book) {
                    let i = choose|i: int| 0 <= i < catalog@.len() && catalog@[i] == book;
                    assert(catalog@[i] < scores@.len());
                }
                assert(!catalog@.contains(books@[k as int]));
            }
            return false;
        }
        match rank_search(scores, catalog, book) {
            Ok(at) => {
                assert(catalog@[at as int] == books@[k as int]);
            },
            Err(_) => {
                assert(!catalog@.contains(books@[k as int]));
                return false;
            },
        }
        k += 1;
    }
    true
}

} // verus!
