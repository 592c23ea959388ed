//! Local search: books change hands between the activated libraries as long
//! as that raises the score. Neither the activation order nor the number of
//! books a library may scan changes.

use vstd::prelude::*;
use std::collections::HashSet;
use rayon::iter::{IndexedParallelIterator, IntoParallelRefIterator, ParallelIterator};
use crate::candidate::{lemma_unclaimed_members, unclaimed};
use crate::moves::{
    acquired, apply_move, best_free, improving, lemma_apply_move, lemma_move_in_steps, released,
    room_made, same_activations, scan, slot_cost, unscan, Move,
};
use crate::problem::{ranked, total_score, BookId, Problem};
use crate::ranking::{lemma_index_of, lemma_place_parts, rank_search, with_book, without};
use crate::solution::{scans, slot_valid, LibraryScanOrder, Solution, SolutionView};
use crate::tally::lemma_score_bounds;

verus! {

/// The move that brings the `k`-th left-over book of entry `to` into that
/// entry, if that is an improving move.
pub open spec fn move_by(problem: &Problem, sol: SolutionView, to: usize, k: int) -> Option<Move> {
    let target = sol.libs[to as int];
    let book = target.books_left[k];
    if target.max_scanned_books == 0 || !sol.libs_by_book_used.contains_key(book) {
        None
    } else {
        let from = sol.libs_by_book_used[book];
        match best_free(sol.libs[from as int].books_left, sol.books_taken) {
            Some(other) => if problem.scores@[other as int] > slot_cost(problem.scores@, target) {
                Some(
                    Move {
                        book_to_swap: book,
                        current_lib_pos: from,
                        lib_with_empty_slot_pos: to,
                        book_to_take: other,
                    },
                )
            } else {
                None
            },
            None => None,
        }
    }
}

/// The first improving move into entry `to` by one of its left-over books
/// from the `k`-th on.
pub open spec fn first_move_into_from(
    problem: &Problem,
    sol: SolutionView,
    to: usize,
    k: int,
) -> Option<Move>
    decreases sol.libs[to as int].books_left.len() - k,
{
    if k < 0 || k >= sol.libs[to as int].books_left.len() {
        None
    } else if move_by(problem, sol, to, k) is Some {
        move_by(problem, sol, to, k)
    } else {
        first_move_into_from(problem, sol, to, k + 1)
    }
}

/// The first improving move into entry `to`: by its best left-over book that
/// allows one.
pub open spec fn first_move_into(problem: &Problem, sol: SolutionView, to: usize) -> Option<Move> {
    first_move_into_from(problem, sol, to, 0)
}

/// The first improving move into one of the entries from position `to` on.
pub open spec fn first_move_from(problem: &Problem, sol: SolutionView, to: int) -> Option<Move>
    decreases sol.libs.len() - to,
{
    if to < 0 || to >= sol.libs.len() {
        None
    } else if first_move_into(problem, sol, to as usize) is Some {
        first_move_into(problem, sol, to as usize)
    } else {
        first_move_from(problem, sol, to + 1)
    }
}

/// The move that the search makes next: the first improving move into the
/// earliest entry that allows one. `None` if no move improves the solution.
pub open spec fn first_move(problem: &Problem, sol: SolutionView) -> Option<Move> {
    first_move_from(problem, sol, 0)
}

/// A move that the search finds into entry `to` is an improving move.
pub proof fn lemma_found_into_is_improving(
    problem: &Problem,
    sol: SolutionView,
    to: usize,
    k: int,
)
    requires
        to < sol.libs.len(),
        0 <= k,
        first_move_into_from(problem, sol, to, k) is Some,
    ensures
        improving(problem, sol, first_move_into_from(problem, sol, to, k).unwrap()),
        first_move_into_from(problem, sol, to, k).unwrap().lib_with_empty_slot_pos == to,
    decreases sol.libs[to as int].books_left.len() - k,
{
    if move_by(problem, sol, to, k) is Some {
        assert(sol.libs[to as int].books_left.contains(sol.libs[to as int].books_left[k]));
    } else {
        lemma_found_into_is_improving(problem, sol, to, k + 1);
    }
}

/// The move that the search makes next is an improving move.
pub proof fn lemma_found_is_improving(problem: &Problem, sol: SolutionView, to: int)
    requires
        0 <= to,
        sol.libs.len() <= usize::MAX,
        first_move_from(problem, sol, to) is Some,
    ensures
        improving(problem, sol, first_move_from(problem, sol, to).unwrap()),
    decreases sol.libs.len() - to,
{
    if first_move_into(problem, sol, to as usize) is Some {
        lemma_found_into_is_improving(problem, sol, to as usize, 0);
    } else {
        lemma_found_is_improving(problem, sol, to + 1);
    }
}

/// Where no entry allows an improving move, the search finds none; else it
/// finds the first move into the earliest entry that allows one.
pub proof fn lemma_first_move_is_earliest(
    problem: &Problem,
    sol: SolutionView,
    from: int,
    to: int,
)
    requires
        0 <= from <= to <= sol.libs.len() <= usize::MAX,
        forall|p: usize| from <= p < to ==> (#[trigger] first_move_into(problem, sol, p)) is None,
    ensures
        first_move_from(problem, sol, from) == if to < sol.libs.len() && first_move_into(
            problem,
            sol,
            to as usize,
        ) is Some {
            first_move_into(problem, sol, to as usize)
        } else {
            first_move_from(problem, sol, to + 1)
        },
    decreases to - from,
{
    if from < to {
        assert(first_move_into(problem, sol, from as usize) is None);
        lemma_first_move_is_earliest(problem, sol, from + 1, to);
    }
}

/// An entry that may scan no book at all receives none.
pub proof fn lemma_no_move_without_slots(problem: &Problem, sol: SolutionView, to: usize, k: int)
    requires
        sol.libs[to as int].max_scanned_books == 0,
    ensures
        first_move_into_from(problem, sol, to, k) is None,
    decreases sol.libs[to as int].books_left.len() - k,
{
    if 0 <= k < sol.libs[to as int].books_left.len() {
        lemma_no_move_without_slots(problem, sol, to, k + 1);
    }
}

impl LibraryScanOrder {
    /// What it costs this entry to scan one more book: nothing while it has
    /// room, else the score of its last book.
    pub fn empty_slot_cost(&self, problem: &Problem) -> (cost: usize)
        requires
            self.max_scanned_books > self.books@.len() || (self.books@.len() > 0
                && self.books@.last() < problem.scores@.len()),
        ensures
            cost == slot_cost(problem.scores@, self@),
    {
        if self.max_scanned_books > self.books.len() {
            0
        } else {
            problem.scores[self.books[self.books.len() - 1]]
        }
    }
}

/// The first book of `books` that is not claimed is the best free one.
pub proof fn lemma_best_free_at(books: Seq<BookId>, taken: Set<BookId>, k: int)
    requires
        0 <= k <= books.len(),
        forall|j: int| 0 <= j < k ==> taken.contains(#[trigger] books[j]),
        k < books.len() ==> !taken.contains(books[k]),
    ensures
        best_free(books, taken) == if k < books.len() {
            Some(books[k])
        } else {
            None
        },
{
    let pred = |b: BookId| !taken.contains(b);
    let head = books.take(k);
    lemma_unclaimed_members(head, taken);
    let none = unclaimed(head, taken);
    if none.len() > 0 {
        assert(none.contains(none[0]));
        assert(head.contains(none[0]));
        let j = choose|j: int| 0 <= j < head.len() && head[j] == none[0];
        assert(books[j] == head[j]);
    }
    if k < books.len() {
        let tail = books.skip(k + 1);
        assert(head.push(books[k]) + tail =~= books);
        Seq::filter_distributes_over_add(head.push(books[k]), tail, pred);
        head.lemma_filter_push(books[k], pred);
        assert(unclaimed(books, taken)[0] == books[k]);
    } else {
        assert(head =~= books);
    }
}

/// Finds the best book of `books` that `books_taken` does not hold.
pub fn first_free(books: &Vec<BookId>, books_taken: &HashSet<BookId>) -> (found: Option<BookId>)
    ensures
        found == best_free(books@, books_taken@),
{
    let mut k: usize = 0;
    while k < books.len()
        invariant
            k <= books.len(),
            forall|j: int| 0 <= j < k ==> books_taken@.contains(#[trigger] books@[j]),
        decreases books.len() - k,
    {
        if !books_taken.contains(&books[k]) {
            proof {
                lemma_best_free_at(books@, books_taken@, k as int);
            }
            return Some(books[k]);
        }
        k += 1;
    }
    proof {
        lemma_best_free_at(books@, books_taken@, k as int);
    }
    None
}

/// The solution after `n` steps of the search, each the first improving
/// move; a solution that allows no such move stays as it is.
pub open spec fn improved(problem: &Problem, sol: SolutionView, n: nat) -> SolutionView
    decreases n,
{
    if n == 0 {
        sol
    } else {
        let before = improved(problem, sol, (n - 1) as nat);
        match first_move(problem, before) {
            Some(m) => apply_move(problem.scores@, before, m),
            None => before,
        }
    }
}

impl Solution {
    /// Moves `book` from the ranked sequence `from` into the ranked sequence
    /// `to`, at its place.
    pub fn swap_book_usage(
        problem: &Problem,
        book: BookId,
        from: &mut Vec<BookId>,
        to: &mut Vec<BookId>,
    )
        requires
            ranked(problem.scores@, old(from)@),
            ranked(problem.scores@, old(to)@),
            old(from)@.contains(book),
            !old(to)@.contains(book),
        ensures
            final(from)@ == without(old(from)@, book),
            final(to)@ == with_book(problem.scores@, old(to)@, book),
    {
        proof {
            let i = choose|i: int| 0 <= i < from@.len() && from@[i] == book;
            assert(from@[i] < problem.scores@.len());
        }
        if let Ok(at) = rank_search(&problem.scores, from, book) {
            proof {
                lemma_index_of(problem.scores@, from@, at as int);
            }
            from.remove(at);
        }
        if let Err(at) = rank_search(&problem.scores, to, book) {
            proof {
                lemma_place_parts(problem.scores@, to@, book);
            }
            to.insert(at, book);
        }
    }

    /// Entry `from` stops scanning `book` and entry `to` starts scanning it.
    /// What the solution records beside its entries is left as it was.
    pub fn swap_book(&mut self, problem: &Problem, book: BookId, from: usize, to: usize)
        requires
            from < old(self).libs@.len(),
            to < old(self).libs@.len(),
            from != to,
            ranked(problem.scores@, old(self).libs@[from as int].books@),
            ranked(problem.scores@, old(self).libs@[from as int].books_left@),
            ranked(problem.scores@, old(self).libs@[to as int].books@),
            ranked(problem.scores@, old(self).libs@[to as int].books_left@),
            old(self).libs@[from as int].books@.contains(book),
            !old(self).libs@[from as int].books_left@.contains(book),
            old(self).libs@[to as int].books_left@.contains(book),
            !old(self).libs@[to as int].books@.contains(book),
        ensures
            final(self)@.libs == old(self)@.libs.update(
                from as int,
                unscan(problem.scores@, old(self)@.libs[from as int], book),
            ).update(to as int, scan(problem.scores@, old(self)@.libs[to as int], book)),
            final(self)@.libs_by_book_used == old(self)@.libs_by_book_used,
            final(self)@.books_taken == old(self)@.books_taken,
            final(self)@.score == old(self)@.score,
    {
        let lib_from = &mut self.libs[from];
        Self::swap_book_usage(problem, book, &mut lib_from.books, &mut lib_from.books_left);
        let lib_to = &mut self.libs[to];
        Self::swap_book_usage(problem, book, &mut lib_to.books_left, &mut lib_to.books);
        proof {
            assert(self@.libs =~= old(self)@.libs.update(
                from as int,
                unscan(problem.scores@, old(self)@.libs[from as int], book),
            ).update(to as int, scan(problem.scores@, old(self)@.libs[to as int], book)));
        }
    }

    /// Looks for an improving move into entry `lib_with_empty_slot_pos`, by
    /// its left-over books in their order.
    pub fn first_move_into(&self, problem: &Problem, lib_with_empty_slot_pos: usize) -> (found:
        Option<Move>)
        requires
            problem.wf(),
            self.wf(problem),
            lib_with_empty_slot_pos < self.libs@.len(),
        ensures
            found == first_move_into(problem, self@, lib_with_empty_slot_pos),
    {
        let lib_with_empty_slot = &self.libs[lib_with_empty_slot_pos];
        let ghost sol = self@;
        let ghost to = lib_with_empty_slot_pos;
        proof {
            assert(slot_valid(problem, sol.libs, to as int));
            assert(lib_with_empty_slot@ == sol.libs[to as int]);
        }
        if lib_with_empty_slot.max_scanned_books == 0 {
            proof {
                lemma_no_move_without_slots(problem, sol, to, 0);
            }
            return None;
        }
        proof {
            let target = sol.libs[to as int];
            if target.books.len() > 0 {
                assert(target.books[target.books.len() - 1] < problem.scores@.len());
            }
        }
        let cost = lib_with_empty_slot.empty_slot_cost(problem);
        let mut k: usize = 0;
        while k < lib_with_empty_slot.books_left.len()
            invariant
                k <= lib_with_empty_slot.books_left.len(),
                problem.wf(),
                self.wf(problem),
                sol == self@,
                to == lib_with_empty_slot_pos,
                to < self.libs@.len(),
                lib_with_empty_slot@ == sol.libs[to as int],
                lib_with_empty_slot.max_scanned_books != 0,
                cost == slot_cost(problem.scores@, sol.libs[to as int]),
                first_move_into(problem, sol, to) == first_move_into_from(
                    problem,
                    sol,
                    to,
                    k as int,
                ),
            decreases lib_with_empty_slot.books_left.len() - k,
        {
            let book_to_swap = lib_with_empty_slot.books_left[k];
            if let Some(owner) = self.libs_by_book_used.get(&book_to_swap) {
                let current_lib_pos = *owner;
                proof {
                    assert(sol.libs_by_book_used.contains_key(book_to_swap));
                    assert(scans(sol.libs, current_lib_pos as int, book_to_swap));
                    assert(slot_valid(problem, sol.libs, current_lib_pos as int));
                }
                let current_lib = &self.libs[current_lib_pos];
                if let Some(book_to_take) = first_free(&current_lib.books_left, &self.books_taken) {
                    proof {
                        let giver = sol.libs[current_lib_pos as int];
                        lemma_unclaimed_members(giver.books_left, sol.books_taken);
                        let free = unclaimed(giver.books_left, sol.books_taken);
                        assert(free.contains(free[0]));
                        let i = choose|i: int|
                            0 <= i < giver.books_left.len() && giver.books_left[i] == book_to_take;
                        assert(giver.books_left[i] < problem.scores@.len());
                    }
                    if problem.scores[book_to_take] > cost {
                        return Some(
                            Move {
                                book_to_swap,
                                current_lib_pos,
                                lib_with_empty_slot_pos,
                                book_to_take,
                            },
                        );
                    }
                }
            }
            k += 1;
        }
        None
    }

    /// Looks for the move that the search makes next, entry by entry on
    /// rayon's thread pool. The contract claims of `par_iter`, `enumerate` and
    /// `find_map_first` that the result is what [`Solution::first_move_into`]
    /// returns for the earliest entry for which it returns a move, and `None`
    /// where it returns none for any entry.
    #[verifier::external_body]
    fn par_first_move(&self, problem: &Problem) -> (found: Option<Move>)
        requires
            problem.wf(),
            self.wf(problem),
        ensures
            match found {
                Some(m) => exists|to: usize|
                    to < self.libs@.len() && #[trigger] first_move_into(problem, self@, to) == Some(
                        m,
                    ) && forall|earlier: usize|
                        earlier < to ==> (#[trigger] first_move_into(problem, self@, earlier))
                            is None,
                None => forall|to: usize|
                    to < self.libs@.len() ==> (#[trigger] first_move_into(problem, self@, to))
                        is None,
            },
    {
        self.libs.par_iter().enumerate().find_map_first(
            |(lib_with_empty_slot_pos, _)| self.first_move_into(problem, lib_with_empty_slot_pos),
        )
    }

    /// Looks for the move that the search makes next: the first improving
    /// move into the earliest entry that allows one.
    pub fn find_move(&self, problem: &Problem) -> (found: Option<Move>)
        requires
            problem.wf(),
            self.wf(problem),
        ensures
            found == first_move(problem, self@),
    {
        let found = self.par_first_move(problem);
        proof {
            let sol = self@;
            assert(sol.libs.len() == self.libs@.len());
            assert(self.libs@.len() == self.libs.len());
            match found {
                Some(m) => {
                    let to = choose|to: usize|
                        to < self.libs@.len() && #[trigger] first_move_into(problem, sol, to)
                            == Some(m) && forall|earlier: usize|
                            earlier < to ==> (#[trigger] first_move_into(problem, sol, earlier))
                                is None;
                    lemma_first_move_is_earliest(problem, sol, 0, to as int);
                },
                None => {
                    lemma_first_move_is_earliest(problem, sol, 0, sol.libs.len() as int);
                },
            }
        }
        found
    }

    /// Makes the improving move `m`: the receiving entry gives up its last
    /// book if it is full and takes `book_to_swap` from the giving entry,
    /// which scans `book_to_take` instead.
    pub fn apply(&mut self, problem: &Problem, m: Move)
        requires
            problem.wf(),
            old(self).wf(problem),
            improving(problem, old(self)@, m),
        ensures
            final(self)@ == apply_move(problem.scores@, old(self)@, m),
            final(self).wf(problem),
            same_activations(old(self)@, final(self)@),
            final(self).score == old(self).score + problem.scores@[m.book_to_take as int]
                - slot_cost(problem.scores@, old(self)@.libs[m.lib_with_empty_slot_pos as int]),
            final(self).score > old(self).score,
    {
        let Move { book_to_swap, current_lib_pos, lib_with_empty_slot_pos, book_to_take } = m;
        let ghost scores = problem.scores@;
        let ghost start = self@;
        let ghost opened = room_made(scores, start, lib_with_empty_slot_pos);
        let ghost parted = released(scores, opened, current_lib_pos, book_to_swap);
        let ghost joined = acquired(scores, parted, lib_with_empty_slot_pos, book_to_swap);
        let ghost done = acquired(scores, joined, current_lib_pos, book_to_take);
        proof {
            assert(scores.len() == problem.scores.len());
            lemma_apply_move(problem, start, m);
            lemma_move_in_steps(problem, start, m);
            assert(slot_valid(problem, start.libs, lib_with_empty_slot_pos as int));
            let target = start.libs[lib_with_empty_slot_pos as int];
            if target.books.len() > 0 {
                assert(target.books[target.books.len() - 1] < scores.len());
            }
        }
        let cost = self.libs[lib_with_empty_slot_pos].empty_slot_cost(problem);
        let score_delta = problem.scores[book_to_take] - cost;

        let lib_with_empty_slot = &mut self.libs[lib_with_empty_slot_pos];
        if lib_with_empty_slot.max_scanned_books == lib_with_empty_slot.books.len() {
            let last_book = lib_with_empty_slot.books[lib_with_empty_slot.books.len() - 1];
            proof {
                let target = start.libs[lib_with_empty_slot_pos as int];
                assert(target.books[target.books.len() - 1] == last_book);
                assert(target.books.contains(last_book));
            }
            Self::swap_book_usage(
                problem,
                last_book,
                &mut lib_with_empty_slot.books,
                &mut lib_with_empty_slot.books_left,
            );
            self.libs_by_book_used.remove(&last_book);
            self.books_taken.remove(&last_book);
        }
        proof {
            assert(self@.libs =~= opened.libs);
            assert(self@.libs_by_book_used =~= opened.libs_by_book_used);
            assert(self@.books_taken =~= opened.books_taken);
            assert(slot_valid(problem, opened.libs, lib_with_empty_slot_pos as int));
            assert(slot_valid(problem, opened.libs, current_lib_pos as int));
        }

        self.swap_book(problem, book_to_swap, current_lib_pos, lib_with_empty_slot_pos);
        self.libs_by_book_used.insert(book_to_swap, lib_with_empty_slot_pos);
        proof {
            assert(self@.libs =~= joined.libs);
            assert(self@.libs_by_book_used =~= joined.libs_by_book_used);
            assert(self@.books_taken =~= joined.books_taken);
            assert(slot_valid(problem, joined.libs, current_lib_pos as int));
        }

        let current_lib = &mut self.libs[current_lib_pos];
        Self::swap_book_usage(
            problem,
            book_to_take,
            &mut current_lib.books_left,
            &mut current_lib.books,
        );
        self.libs_by_book_used.insert(book_to_take, current_lib_pos);
        self.books_taken.insert(book_to_take);
        self.score += score_delta;
        proof {
            assert(self@.libs =~= done.libs);
            assert(self@.libs_by_book_used =~= done.libs_by_book_used);
            assert(self@.books_taken =~= done.books_taken);
        }
    }

    /// Improves the solution by local search: as long as there is an
    /// improving move it makes the first one. In the end no move improves the
    /// solution. The activations stay as they are, and the score does not
    /// fall.
    pub fn optimize(&mut self, problem: &Problem)
        requires
            problem.wf(),
            old(self).wf(problem),
        ensures
            final(self).wf(problem),
            exists|n: nat| final(self)@ == improved(problem, old(self)@, n),
            first_move(problem, final(self)@) is None,
            same_activations(old(self)@, final(self)@),
            final(self).score >= old(self).score,
    {
        let ghost start = self@;
        let ghost mut steps: nat = 0;
        loop
            invariant
                problem.wf(),
                self.wf(problem),
                self@ == improved(problem, start, steps),
                same_activations(start, self@),
                self.score >= start.score,
            ensures
                first_move(problem, self@) is None,
            decreases total_score(problem.scores@) - self.score,
        {
            match self.find_move(problem) {
                None => {
                    break ;
                },
                Some(found) => {
                    proof {
                        assert(self@.libs.len() == self.libs@.len());
                        assert(self.libs@.len() == self.libs.len());
                        lemma_found_is_improving(problem, self@, 0);
                    }
                    let ghost before = self@;
                    self.apply(problem, found);
                    proof {
                        steps = steps + 1;
                        lemma_score_bounds(problem.scores@, self@.books_taken);
                        assert forall|p: int| 0 <= p < start.libs.len() implies (
                        #[trigger] start.libs[p]).id == self@.libs[p].id
                            && start.libs[p].max_scanned_books
                            == self@.libs[p].max_scanned_books by {
                            assert(before.libs[p].id == self@.libs[p].id);
                        }
                    }
                },
            }
        }
        proof {
            assert(self@ == improved(problem, start, steps));
        }
    }
}

} // verus!
