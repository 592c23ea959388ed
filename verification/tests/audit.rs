use book_scanning::audit::{check_invariants, check_split};
use book_scanning::ranking::is_ranked;
use book_scanning::greedy::solve_greedy;
use book_scanning::problem::{Library, Problem};
use book_scanning::solution::{InvariantViolation, LibraryScanOrder, Solution};

fn two_libraries() -> Problem {
    Problem {
        scores: vec![10, 5, 8],
        libraries: vec![
            Library { signup: 3, concurrency: 1, books: vec![0, 2] },
            Library { signup: 0, concurrency: 1, books: vec![0, 1] },
        ],
        days: 4,
    }
}

fn entry(id: usize, books: Vec<usize>, books_left: Vec<usize>, max: usize) -> LibraryScanOrder {
    LibraryScanOrder { id, books, books_left, max_scanned_books: max }
}

fn valid(problem: &Problem) -> Solution {
    Solution::from_libs(
        problem,
        vec![entry(0, vec![0], vec![2], 1), entry(1, vec![1], vec![0], 1)],
    )
}

#[test]
fn check_accepts_valid_solutions() {
    let problem = two_libraries();
    let mut solution = valid(&problem);
    assert_eq!(check_invariants(&problem, &solution), Ok(()));
    solution.optimize(&problem);
    assert_eq!(check_invariants(&problem, &solution), Ok(()));
    let mut greedy = solve_greedy(&problem);
    assert_eq!(check_invariants(&problem, &greedy), Ok(()));
    greedy.optimize(&problem);
    assert_eq!(check_invariants(&problem, &greedy), Ok(()));
    assert_eq!(check_invariants(&problem, &Solution::from_libs(&problem, vec![])), Ok(()));
}

#[test]
fn check_accepts_signup_that_ends_on_the_deadline() {
    let mut problem = two_libraries();
    problem.days = 3;
    let solution = Solution::from_libs(
        &problem,
        vec![entry(0, vec![], vec![0, 2], 0), entry(1, vec![], vec![0, 1], 0)],
    );
    assert_eq!(check_invariants(&problem, &solution), Ok(()));
}

#[test]
fn check_finds_unknown_library() {
    let problem = two_libraries();
    let solution = Solution::from_libs(&problem, vec![entry(5, vec![0], vec![2], 1)]);
    assert_eq!(check_invariants(&problem, &solution), Err(InvariantViolation::UnknownLibrary));
}

#[test]
fn check_finds_repeated_library() {
    let problem = two_libraries();
    let solution = Solution::from_libs(
        &problem,
        vec![entry(1, vec![0], vec![1], 2), entry(1, vec![1], vec![0], 2)],
    );
    assert_eq!(check_invariants(&problem, &solution), Err(InvariantViolation::RepeatedLibrary));
}

#[test]
fn check_finds_signups_beyond_the_budget() {
    let mut problem = two_libraries();
    problem.days = 2;
    let solution = Solution::from_libs(
        &problem,
        vec![entry(1, vec![1], vec![0], 2), entry(0, vec![0], vec![2], 1)],
    );
    assert_eq!(check_invariants(&problem, &solution), Err(InvariantViolation::OverBudget));
}

#[test]
fn check_finds_catalog_not_split() {
    let problem = two_libraries();
    // A book of the catalog is missing.
    let solution = Solution::from_libs(&problem, vec![entry(0, vec![0], vec![], 1)]);
    assert_eq!(check_invariants(&problem, &solution), Err(InvariantViolation::CatalogNotSplit));
    // A book is on both sides.
    let solution = Solution::from_libs(&problem, vec![entry(0, vec![0], vec![0, 2], 1)]);
    assert_eq!(check_invariants(&problem, &solution), Err(InvariantViolation::CatalogNotSplit));
    // A book from outside the catalog.
    let solution = Solution::from_libs(&problem, vec![entry(0, vec![0], vec![1, 2], 1)]);
    assert_eq!(check_invariants(&problem, &solution), Err(InvariantViolation::CatalogNotSplit));
    // Not in rank order.
    let solution = Solution::from_libs(&problem, vec![entry(0, vec![], vec![2, 0], 1)]);
    assert_eq!(check_invariants(&problem, &solution), Err(InvariantViolation::CatalogNotSplit));
}

#[test]
fn check_finds_wrong_capacity() {
    let problem = two_libraries();
    let solution = Solution::from_libs(&problem, vec![entry(0, vec![0], vec![2], 2)]);
    assert_eq!(check_invariants(&problem, &solution), Err(InvariantViolation::WrongCapacity));
}

#[test]
fn check_finds_capacity_exceeded() {
    let problem = two_libraries();
    let solution = Solution::from_libs(&problem, vec![entry(0, vec![0, 2], vec![], 1)]);
    assert_eq!(check_invariants(&problem, &solution), Err(InvariantViolation::CapacityExceeded));
}

#[test]
fn check_finds_book_scanned_twice() {
    let problem = two_libraries();
    let solution = Solution::from_libs(
        &problem,
        vec![entry(0, vec![0], vec![2], 1), entry(1, vec![0], vec![1], 1)],
    );
    assert_eq!(check_invariants(&problem, &solution), Err(InvariantViolation::DuplicateBook));
}

#[test]
fn check_finds_the_first_fault() {
    let problem = two_libraries();
    let solution = Solution::from_libs(
        &problem,
        vec![entry(0, vec![0], vec![2], 7), entry(9, vec![0], vec![1], 1)],
    );
    assert_eq!(check_invariants(&problem, &solution), Err(InvariantViolation::WrongCapacity));
}

#[test]
fn check_finds_stale_records() {
    let problem = two_libraries();
    let mut solution = valid(&problem);
    solution.books_taken.insert(2);
    assert_eq!(check_invariants(&problem, &solution), Err(InvariantViolation::StaleIndex));
    let mut solution = valid(&problem);
    solution.books_taken.remove(&0);
    solution.books_taken.insert(2);
    assert_eq!(check_invariants(&problem, &solution), Err(InvariantViolation::StaleIndex));
    let mut solution = valid(&problem);
    solution.libs_by_book_used.insert(0, 1);
    assert_eq!(check_invariants(&problem, &solution), Err(InvariantViolation::StaleIndex));
    let mut solution = valid(&problem);
    solution.libs_by_book_used.insert(2, 0);
    assert_eq!(check_invariants(&problem, &solution), Err(InvariantViolation::StaleIndex));
}

#[test]
fn check_finds_wrong_score() {
    let problem = two_libraries();
    let mut solution = valid(&problem);
    solution.score += 1;
    assert_eq!(check_invariants(&problem, &solution), Err(InvariantViolation::WrongScore));
}

#[test]
fn is_ranked_wants_known_books_in_strict_order() {
    let scores = vec![5, 9, 5, 7];
    assert!(is_ranked(&scores, &vec![1, 3, 0, 2]));
    assert!(is_ranked(&scores, &vec![]));
    assert!(is_ranked(&scores, &vec![2]));
    assert!(!is_ranked(&scores, &vec![1, 3, 2, 0]));
    assert!(!is_ranked(&scores, &vec![1, 1]));
    assert!(!is_ranked(&scores, &vec![4]));
}

#[test]
fn check_split_wants_both_parts_to_make_the_catalog() {
    let problem = Problem { scores: vec![5, 9, 5, 7], libraries: vec![], days: 0 };
    let catalog = vec![1, 3, 0, 2];
    assert!(check_split(&problem, &catalog, &vec![1, 0], &vec![3, 2]));
    assert!(check_split(&problem, &catalog, &vec![], &vec![1, 3, 0, 2]));
    assert!(!check_split(&problem, &catalog, &vec![1, 0], &vec![3]));
    assert!(!check_split(&problem, &catalog, &vec![1, 0], &vec![3, 0, 2]));
    assert!(!check_split(&problem, &vec![1, 3, 0], &vec![1, 0], &vec![3, 2]));
}

#[test]
fn output_numbers_describe_the_schedule() {
    let problem = two_libraries();
    let mut solution = valid(&problem);
    assert_eq!(
        solution.output_numbers(),
        vec![vec![2], vec![0, 1], vec![0], vec![1, 1], vec![1]]
    );
    solution.optimize(&problem);
    assert_eq!(
        solution.output_numbers(),
        vec![vec![2], vec![0, 1], vec![2], vec![1, 1], vec![0]]
    );
    assert_eq!(Solution::from_libs(&problem, vec![]).output_numbers(), vec![vec![0]]);
}
