use book_scanning::greedy::solve_greedy;
use book_scanning::problem::{Library, Problem};
use book_scanning::scorer::calc_score;
use book_scanning::solution::{InvariantViolation, LibraryScanOrder, Solution};

fn entry(id: usize, books: Vec<usize>, books_left: Vec<usize>, max: usize) -> LibraryScanOrder {
    LibraryScanOrder { id, books, books_left, max_scanned_books: max }
}

#[test]
fn scorer_agrees_with_greedy_on_single_library() {
    let problem = Problem {
        scores: vec![1, 2, 3],
        libraries: vec![Library { signup: 0, concurrency: 1, books: vec![2, 1, 0] }],
        days: 2,
    };
    let solution = solve_greedy(&problem);
    assert_eq!(calc_score(&problem, &solution), Ok(5));
    assert_eq!(calc_score(&problem, &solution), Ok(solution.score));
}

#[test]
fn scorer_returns_same_value_twice() {
    let problem = Problem {
        scores: vec![10, 1],
        libraries: vec![
            Library { signup: 1, concurrency: 1, books: vec![0] },
            Library { signup: 1, concurrency: 1, books: vec![1] },
        ],
        days: 2,
    };
    let solution = solve_greedy(&problem);
    let first = calc_score(&problem, &solution);
    let second = calc_score(&problem, &solution);
    assert_eq!(first, Ok(10));
    assert_eq!(first, second);
}

#[test]
fn scorer_counts_no_more_books_than_the_library_can_scan() {
    let problem = Problem {
        scores: vec![1, 2, 3],
        libraries: vec![Library { signup: 0, concurrency: 1, books: vec![2, 1, 0] }],
        days: 2,
    };
    let solution = Solution::from_libs(&problem, vec![entry(0, vec![2, 1, 0], vec![], 3)]);
    assert_eq!(solution.score, 6);
    assert_eq!(calc_score(&problem, &solution), Ok(5));
}

#[test]
fn scorer_counts_a_book_of_two_entries_once() {
    let problem = Problem {
        scores: vec![7, 2],
        libraries: vec![
            Library { signup: 1, concurrency: 1, books: vec![0] },
            Library { signup: 1, concurrency: 1, books: vec![0, 1] },
        ],
        days: 4,
    };
    let solution = Solution::from_libs(
        &problem,
        vec![entry(0, vec![0], vec![], 1), entry(1, vec![0, 1], vec![], 2)],
    );
    assert_eq!(calc_score(&problem, &solution), Ok(9));
    assert_eq!(solution.score, 9);
    assert_eq!(solution.libs_by_book_used.get(&0), Some(&1));
}

#[test]
fn scorer_stops_at_the_deadline() {
    let problem = Problem {
        scores: vec![7, 2],
        libraries: vec![
            Library { signup: 2, concurrency: 1, books: vec![0] },
            Library { signup: 0, concurrency: 1, books: vec![1] },
        ],
        days: 2,
    };
    let solution = Solution::from_libs(
        &problem,
        vec![entry(0, vec![0], vec![], 1), entry(1, vec![1], vec![], 1)],
    );
    assert_eq!(calc_score(&problem, &solution), Ok(0));
    // An entry behind the deadline is not looked at, whatever it names.
    let beyond = Solution::from_libs(
        &problem,
        vec![entry(0, vec![0], vec![], 1), entry(9, vec![1], vec![], 1)],
    );
    assert_eq!(calc_score(&problem, &beyond), Ok(0));
}

#[test]
fn scorer_counts_signup_overshooting_the_deadline_as_no_days() {
    let problem = Problem {
        scores: vec![7, 2],
        libraries: vec![Library { signup: 5, concurrency: 1, books: vec![0, 1] }],
        days: 3,
    };
    let solution = Solution::from_libs(&problem, vec![entry(0, vec![0, 1], vec![], 2)]);
    assert_eq!(calc_score(&problem, &solution), Ok(0));
}

#[test]
fn scorer_of_empty_schedule_is_zero() {
    let problem = Problem { scores: vec![3], libraries: vec![], days: 5 };
    let solution = Solution::from_libs(&problem, vec![]);
    assert_eq!(calc_score(&problem, &solution), Ok(0));
}

#[test]
fn scorer_rejects_unknown_library() {
    let problem = Problem {
        scores: vec![7, 2],
        libraries: vec![Library { signup: 1, concurrency: 1, books: vec![0] }],
        days: 4,
    };
    let solution = Solution::from_libs(
        &problem,
        vec![entry(0, vec![0], vec![], 1), entry(1, vec![1], vec![], 1)],
    );
    assert_eq!(calc_score(&problem, &solution), Err(InvariantViolation::UnknownLibrary));
}

#[test]
fn scorer_rejects_book_outside_the_catalog() {
    let problem = Problem {
        scores: vec![7, 2],
        libraries: vec![Library { signup: 1, concurrency: 1, books: vec![0] }],
        days: 4,
    };
    let solution = Solution::from_libs(&problem, vec![entry(0, vec![0, 1], vec![], 2)]);
    assert_eq!(calc_score(&problem, &solution), Err(InvariantViolation::ForeignBook));
}
