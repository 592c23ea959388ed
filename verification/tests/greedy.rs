use book_scanning::greedy::solve_greedy;
use book_scanning::problem::{Library, Problem};

#[test]
fn single_free_library_scans_two_best_books() {
    let problem = Problem {
        scores: vec![1, 2, 3],
        libraries: vec![Library { signup: 0, concurrency: 1, books: vec![2, 1, 0] }],
        days: 2,
    };
    let solution = solve_greedy(&problem);
    assert_eq!(solution.libs.len(), 1);
    assert_eq!(solution.libs[0].id, 0);
    assert_eq!(solution.libs[0].books, vec![2, 1]);
    assert_eq!(solution.libs[0].books_left, vec![0]);
    assert_eq!(solution.libs[0].max_scanned_books, 2);
    assert_eq!(solution.score, 5);
}

#[test]
fn only_one_of_two_libraries_fits() {
    let problem = Problem {
        scores: vec![10, 1],
        libraries: vec![
            Library { signup: 1, concurrency: 1, books: vec![0] },
            Library { signup: 1, concurrency: 1, books: vec![1] },
        ],
        days: 2,
    };
    let solution = solve_greedy(&problem);
    assert_eq!(solution.libs.len(), 1);
    assert_eq!(solution.libs[0].id, 0);
    assert_eq!(solution.libs[0].books, vec![0]);
    assert_eq!(solution.score, 10);
}
