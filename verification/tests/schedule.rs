use book_scanning::candidate::{calc_books_score, calc_for_lib, calc_lib_score};
use book_scanning::problem::{comes_before, sum_scores, Library, MalformedInput, Problem};
use book_scanning::ranking::sort_by_rank;
use book_scanning::schedule::{activate, capacity_of, claim_all};
use book_scanning::solution::{InvariantViolation, Solution};
use std::collections::HashSet;

fn three_books() -> Problem {
    Problem {
        scores: vec![10, 5, 8],
        libraries: vec![
            Library { signup: 1, concurrency: 1, books: vec![0, 2] },
            Library { signup: 1, concurrency: 2, books: vec![0, 1] },
        ],
        days: 3,
    }
}

#[test]
fn from_order_gives_each_library_its_best_free_books() {
    let problem = three_books();
    let solution = Solution::from_order(&problem, &vec![0, 1]).unwrap();
    assert_eq!(solution.libs.len(), 2);
    assert_eq!(solution.libs[0].id, 0);
    assert_eq!(solution.libs[0].books, vec![0, 2]);
    assert_eq!(solution.libs[0].books_left, Vec::<usize>::new());
    assert_eq!(solution.libs[0].max_scanned_books, 2);
    assert_eq!(solution.libs[1].id, 1);
    assert_eq!(solution.libs[1].books, vec![1]);
    assert_eq!(solution.libs[1].books_left, vec![0]);
    assert_eq!(solution.libs[1].max_scanned_books, 2);
    assert_eq!(solution.score, 23);
}

#[test]
fn from_order_in_the_other_order() {
    let problem = three_books();
    let solution = Solution::from_order(&problem, &vec![1, 0]).unwrap();
    assert_eq!(solution.libs[0].id, 1);
    assert_eq!(solution.libs[0].books, vec![0, 1]);
    assert_eq!(solution.libs[0].max_scanned_books, 2);
    assert_eq!(solution.libs[1].id, 0);
    assert_eq!(solution.libs[1].books, vec![2]);
    assert_eq!(solution.libs[1].books_left, vec![0]);
    assert_eq!(solution.libs[1].max_scanned_books, 1);
    assert_eq!(solution.score, 23);
}

#[test]
fn from_order_of_nothing_is_empty() {
    let problem = three_books();
    let solution = Solution::from_order(&problem, &vec![]).unwrap();
    assert_eq!(solution.libs.len(), 0);
    assert_eq!(solution.score, 0);
}

#[test]
fn from_order_rejects_unknown_library() {
    let problem = three_books();
    assert_eq!(
        Solution::from_order(&problem, &vec![0, 2]).err(),
        Some(InvariantViolation::UnknownLibrary)
    );
}

#[test]
fn from_order_rejects_repeated_library() {
    let problem = three_books();
    assert_eq!(
        Solution::from_order(&problem, &vec![1, 1]).err(),
        Some(InvariantViolation::RepeatedLibrary)
    );
}

#[test]
fn from_order_rejects_signups_beyond_the_budget() {
    let mut problem = three_books();
    problem.days = 1;
    assert_eq!(
        Solution::from_order(&problem, &vec![0, 1]).err(),
        Some(InvariantViolation::OverBudget)
    );
    // A signup that ends on the deadline fits; the library scans nothing.
    let solution = Solution::from_order(&problem, &vec![0]).unwrap();
    assert_eq!(solution.libs[0].books, Vec::<usize>::new());
    assert_eq!(solution.libs[0].books_left, vec![0, 2]);
    assert_eq!(solution.libs[0].max_scanned_books, 0);
}

#[test]
fn calc_for_lib_skips_claimed_books_and_stops_at_the_budget() {
    let lib = Library { signup: 2, concurrency: 2, books: vec![5, 4, 3, 2, 1] };
    let used = HashSet::from([4]);
    // One day of scanning, two books per day.
    assert_eq!(calc_for_lib(&lib, 3, &used), (vec![5, 3], vec![4, 2, 1]));
    // No day of scanning.
    assert_eq!(calc_for_lib(&lib, 2, &used), (vec![], vec![5, 4, 3, 2, 1]));
    assert_eq!(calc_for_lib(&lib, 1, &used), (vec![], vec![5, 4, 3, 2, 1]));
    // More time than books.
    assert_eq!(calc_for_lib(&lib, 10, &used), (vec![5, 3, 2, 1], vec![4]));
}

#[test]
fn calc_for_lib_with_a_budget_beyond_usize() {
    let lib = Library { signup: 0, concurrency: usize::MAX, books: vec![1, 0] };
    assert_eq!(calc_for_lib(&lib, 3, &HashSet::new()), (vec![1, 0], vec![]));
    assert_eq!(capacity_of(&lib, 3), 2);
}

#[test]
fn capacity_is_rate_times_days_capped_by_the_catalog() {
    let lib = Library { signup: 0, concurrency: 3, books: vec![0, 1, 2, 3, 4, 5, 6] };
    assert_eq!(capacity_of(&lib, 0), 0);
    assert_eq!(capacity_of(&lib, 1), 3);
    assert_eq!(capacity_of(&lib, 2), 6);
    assert_eq!(capacity_of(&lib, 3), 7);
}

#[test]
fn calc_lib_score_adds_up_the_picked_books() {
    let problem = three_books();
    let used = HashSet::from([0]);
    assert_eq!(calc_lib_score(&problem, &problem.libraries[0], 3, &used), 8);
    assert_eq!(calc_lib_score(&problem, &problem.libraries[1], 3, &HashSet::new()), 15);
    assert_eq!(calc_books_score(&problem, &vec![0, 2, 1]), 23);
    assert_eq!(calc_books_score(&problem, &vec![]), 0);
}

#[test]
fn activate_builds_the_entry() {
    let problem = three_books();
    let entry = activate(&problem, 1, 2, &HashSet::from([0]));
    assert_eq!(entry.id, 1);
    assert_eq!(entry.books, vec![1]);
    assert_eq!(entry.books_left, vec![0]);
    assert_eq!(entry.max_scanned_books, 2);
}

#[test]
fn claim_all_adds_the_books() {
    let mut used = HashSet::from([1]);
    claim_all(&mut used, &vec![3, 1, 2]);
    assert_eq!(used, HashSet::from([1, 2, 3]));
}

#[test]
fn problem_new_sorts_catalogs_by_score_then_id() {
    let problem = Problem::new(
        vec![5, 9, 5, 7],
        vec![
            Library { signup: 2, concurrency: 3, books: vec![0, 1, 2, 3] },
            Library { signup: 4, concurrency: 1, books: vec![2, 0] },
            Library { signup: 0, concurrency: 0, books: vec![] },
        ],
        6,
    )
    .unwrap();
    assert_eq!(problem.scores, vec![5, 9, 5, 7]);
    assert_eq!(problem.days, 6);
    assert_eq!(problem.libraries.len(), 3);
    assert_eq!(problem.libraries[0].books, vec![1, 3, 0, 2]);
    assert_eq!(problem.libraries[0].signup, 2);
    assert_eq!(problem.libraries[0].concurrency, 3);
    assert_eq!(problem.libraries[1].books, vec![0, 2]);
    assert_eq!(problem.libraries[1].signup, 4);
    assert_eq!(problem.libraries[2].books, Vec::<usize>::new());
}

#[test]
fn problem_new_rejects_unknown_book() {
    let result = Problem::new(
        vec![5, 9],
        vec![
            Library { signup: 1, concurrency: 1, books: vec![1, 0] },
            Library { signup: 1, concurrency: 1, books: vec![0, 2] },
        ],
        6,
    );
    assert_eq!(result, Err(MalformedInput::UnknownBook { library: 1 }));
}

#[test]
fn problem_new_rejects_repeated_book() {
    let result = Problem::new(
        vec![5, 9, 7],
        vec![Library { signup: 1, concurrency: 1, books: vec![1, 0, 1] }],
        6,
    );
    assert_eq!(result, Err(MalformedInput::RepeatedBook { library: 0 }));
}

#[test]
fn problem_new_rejects_scores_that_overflow() {
    let result = Problem::new(vec![usize::MAX, 1], vec![], 6);
    assert_eq!(result, Err(MalformedInput::ScoresTooLarge));
    assert_eq!(sum_scores(&vec![usize::MAX, 1]), None);
    assert_eq!(sum_scores(&vec![usize::MAX - 1, 1]), Some(usize::MAX));
    assert_eq!(sum_scores(&vec![]), Some(0));
}

#[test]
fn sort_by_rank_keeps_repeated_books() {
    let scores = vec![5, 9, 5, 7];
    assert_eq!(sort_by_rank(&scores, &vec![2, 3, 2, 0, 1]), vec![1, 3, 0, 2, 2]);
    assert_eq!(sort_by_rank(&scores, &vec![]), Vec::<usize>::new());
    assert_eq!(sort_by_rank(&scores, &vec![3]), vec![3]);
}

#[test]
fn comes_before_orders_by_score_then_id() {
    let scores = vec![5, 9, 5];
    assert!(comes_before(&scores, 1, 0));
    assert!(!comes_before(&scores, 0, 1));
    assert!(comes_before(&scores, 0, 2));
    assert!(!comes_before(&scores, 2, 0));
    assert!(!comes_before(&scores, 2, 2));
}
