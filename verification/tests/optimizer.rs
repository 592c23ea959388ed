use book_scanning::greedy::solve_greedy;
use book_scanning::moves::Move;
use book_scanning::optimizer::first_free;
use book_scanning::problem::{Library, Problem};
use book_scanning::ranking::rank_search;
use book_scanning::solution::{LibraryScanOrder, Solution};
use std::collections::HashSet;

fn two_libraries() -> Problem {
    Problem {
        scores: vec![10, 5, 8],
        libraries: vec![
            Library { signup: 3, concurrency: 1, books: vec![0, 2] },
            Library { signup: 0, concurrency: 1, books: vec![0, 1] },
        ],
        days: 4,
    }
}

fn poor_assignment(problem: &Problem) -> Solution {
    Solution::from_libs(
        problem,
        vec![
            LibraryScanOrder { id: 0, books: vec![0], books_left: vec![2], max_scanned_books: 1 },
            LibraryScanOrder { id: 1, books: vec![1], books_left: vec![0], max_scanned_books: 1 },
        ],
    )
}

#[test]
fn from_libs_records_owner_and_score() {
    let problem = two_libraries();
    let solution = poor_assignment(&problem);
    assert_eq!(solution.score, 15);
    assert_eq!(solution.books_taken, HashSet::from([0, 1]));
    assert_eq!(solution.libs_by_book_used.get(&0), Some(&0));
    assert_eq!(solution.libs_by_book_used.get(&1), Some(&1));
    assert_eq!(solution.libs_by_book_used.get(&2), None);
}

#[test]
fn find_move_finds_the_swap_into_the_full_library() {
    let problem = two_libraries();
    let solution = poor_assignment(&problem);
    assert_eq!(solution.first_move_into(&problem, 0), None);
    let expected = Move {
        book_to_swap: 0,
        current_lib_pos: 0,
        lib_with_empty_slot_pos: 1,
        book_to_take: 2,
    };
    assert_eq!(solution.first_move_into(&problem, 1), Some(expected));
    assert_eq!(solution.find_move(&problem), Some(expected));
}

#[test]
fn optimize_swaps_books_and_raises_score() {
    let problem = two_libraries();
    let mut solution = poor_assignment(&problem);
    solution.optimize(&problem);
    assert_eq!(solution.score, 18);
    assert_eq!(solution.libs.len(), 2);
    assert_eq!(solution.libs[0].id, 0);
    assert_eq!(solution.libs[0].books, vec![2]);
    assert_eq!(solution.libs[0].books_left, vec![0]);
    assert_eq!(solution.libs[0].max_scanned_books, 1);
    assert_eq!(solution.libs[1].id, 1);
    assert_eq!(solution.libs[1].books, vec![0]);
    assert_eq!(solution.libs[1].books_left, vec![1]);
    assert_eq!(solution.libs[1].max_scanned_books, 1);
    assert_eq!(solution.books_taken, HashSet::from([0, 2]));
    assert_eq!(solution.libs_by_book_used.get(&0), Some(&1));
    assert_eq!(solution.libs_by_book_used.get(&2), Some(&0));
    assert_eq!(solution.libs_by_book_used.get(&1), None);
    assert_eq!(solution.find_move(&problem), None);
}

#[test]
fn apply_makes_one_move() {
    let problem = two_libraries();
    let mut solution = poor_assignment(&problem);
    let found = solution.find_move(&problem).unwrap();
    solution.apply(&problem, found);
    assert_eq!(solution.score, 15 + 8 - 5);
    assert_eq!(solution.libs[1].books, vec![0]);
}

#[test]
fn optimize_uses_a_free_slot_without_evicting() {
    // Library 1 has room for two books and scans one.
    let problem = Problem {
        scores: vec![10, 5, 8],
        libraries: vec![
            Library { signup: 2, concurrency: 1, books: vec![0, 2] },
            Library { signup: 0, concurrency: 2, books: vec![0, 1] },
        ],
        days: 3,
    };
    let mut solution = Solution::from_libs(
        &problem,
        vec![
            LibraryScanOrder { id: 0, books: vec![0], books_left: vec![2], max_scanned_books: 1 },
            LibraryScanOrder { id: 1, books: vec![1], books_left: vec![0], max_scanned_books: 2 },
        ],
    );
    assert_eq!(solution.libs[1].empty_slot_cost(&problem), 0);
    assert_eq!(solution.libs[0].empty_slot_cost(&problem), 10);
    solution.optimize(&problem);
    assert_eq!(solution.score, 23);
    assert_eq!(solution.libs[0].books, vec![2]);
    assert_eq!(solution.libs[1].books, vec![0, 1]);
    assert_eq!(solution.libs[1].books_left, Vec::<usize>::new());
}

#[test]
fn optimize_leaves_single_library_unchanged() {
    let problem = Problem {
        scores: vec![1, 2, 3],
        libraries: vec![Library { signup: 0, concurrency: 1, books: vec![2, 1, 0] }],
        days: 2,
    };
    let mut solution = solve_greedy(&problem);
    solution.optimize(&problem);
    assert_eq!(solution.libs.len(), 1);
    assert_eq!(solution.libs[0].books, vec![2, 1]);
    assert_eq!(solution.libs[0].books_left, vec![0]);
    assert_eq!(solution.score, 5);
}

#[test]
fn optimize_skips_library_without_capacity() {
    // Library 1 scans nothing per day: it can never receive a book.
    let problem = Problem {
        scores: vec![4, 3],
        libraries: vec![
            Library { signup: 1, concurrency: 1, books: vec![0, 1] },
            Library { signup: 1, concurrency: 0, books: vec![0] },
        ],
        days: 4,
    };
    let mut solution = Solution::from_libs(
        &problem,
        vec![
            LibraryScanOrder { id: 0, books: vec![0], books_left: vec![1], max_scanned_books: 2 },
            LibraryScanOrder { id: 1, books: vec![], books_left: vec![0], max_scanned_books: 0 },
        ],
    );
    solution.optimize(&problem);
    assert_eq!(solution.score, 4);
    assert_eq!(solution.libs[0].books, vec![0]);
}

#[test]
fn swap_book_usage_keeps_both_sequences_ranked() {
    let problem = Problem { scores: vec![5, 9, 5, 7], libraries: vec![], days: 0 };
    let mut from = vec![1, 3, 0, 2];
    let mut to = vec![];
    Solution::swap_book_usage(&problem, 0, &mut from, &mut to);
    assert_eq!(from, vec![1, 3, 2]);
    assert_eq!(to, vec![0]);
    Solution::swap_book_usage(&problem, 1, &mut from, &mut to);
    Solution::swap_book_usage(&problem, 2, &mut from, &mut to);
    assert_eq!(from, vec![3]);
    assert_eq!(to, vec![1, 0, 2]);
    Solution::swap_book_usage(&problem, 3, &mut from, &mut to);
    assert_eq!(to, vec![1, 3, 0, 2]);
}

#[test]
fn rank_search_finds_index_or_place() {
    let scores = vec![5, 9, 5, 7];
    let books = vec![1, 0, 2];
    assert_eq!(rank_search(&scores, &books, 1), Ok(0));
    assert_eq!(rank_search(&scores, &books, 2), Ok(2));
    assert_eq!(rank_search(&scores, &books, 3), Err(1));
    assert_eq!(rank_search(&scores, &vec![1, 3], 2), Err(2));
    assert_eq!(rank_search(&scores, &vec![3, 2], 0), Err(1));
    assert_eq!(rank_search(&scores, &vec![], 0), Err(0));
}

#[test]
fn first_free_skips_taken_books() {
    let taken = HashSet::from([4, 7]);
    assert_eq!(first_free(&vec![4, 7, 1, 2], &taken), Some(1));
    assert_eq!(first_free(&vec![4, 7], &taken), None);
    assert_eq!(first_free(&vec![], &taken), None);
}
