use book_scanning::audit::check_invariants;
use book_scanning::greedy::solve_greedy;
use book_scanning::problem::{Library, Problem};
use book_scanning::scorer::calc_score;
use book_scanning::solution::Solution;
use std::collections::HashSet;

/// A small generator of numbers, the same on every run.
struct Numbers(u64);

impl Numbers {
    fn next(&mut self, below: usize) -> usize {
        self.0 = self.0.wrapping_mul(6364136223846793005).wrapping_add(1442695040888963407);
        ((self.0 >> 33) as usize) % below
    }
}

fn problem(seed: u64) -> Problem {
    let mut numbers = Numbers(seed);
    let book_count = 40 + numbers.next(30);
    let scores: Vec<usize> = (0..book_count).map(|_| 1 + numbers.next(50)).collect();
    let library_count = 6 + numbers.next(8);
    let libraries = (0..library_count)
        .map(|_| {
            let size = numbers.next(20);
            let mut books: Vec<usize> = Vec::new();
            while books.len() < size {
                let book = numbers.next(book_count);
                if !books.contains(&book) {
                    books.push(book);
                }
            }
            Library { signup: numbers.next(5), concurrency: numbers.next(4), books }
        })
        .collect();
    Problem::new(scores, libraries, 8 + numbers.next(10)).unwrap()
}

fn solutions(problem: &Problem) -> Vec<Solution> {
    let forward: Vec<usize> = (0..problem.libraries.len()).collect();
    let backward: Vec<usize> = forward.iter().rev().copied().collect();
    let mut all = vec![solve_greedy(problem)];
    for order in [forward, backward] {
        // The longest beginning of the order whose signups fit.
        let mut fitting = order.len();
        while Solution::from_order(problem, &order[..fitting].to_vec()).is_err() {
            fitting -= 1;
        }
        all.push(Solution::from_order(problem, &order[..fitting].to_vec()).unwrap());
    }
    all
}

fn assert_feasible(problem: &Problem, solution: &Solution) {
    let mut days_left = problem.days;
    let mut seen = HashSet::new();
    for entry in &solution.libs {
        let library = &problem.libraries[entry.id];
        // The signups fit the days at every point of the schedule.
        assert!(library.signup <= days_left);
        days_left -= library.signup;
        // No entry scans more than its catalog or its time allows.
        assert!(entry.books.len() <= library.books.len());
        assert!(entry.books.len() <= library.concurrency * days_left);
        assert!(entry.books.len() <= entry.max_scanned_books);
        // No book is scanned twice.
        for book in &entry.books {
            assert!(seen.insert(*book));
            assert!(library.books.contains(book));
        }
    }
    assert_eq!(seen, solution.books_taken);
    assert_eq!(check_invariants(problem, solution), Ok(()));
    assert_eq!(calc_score(problem, solution), Ok(solution.score));
}

#[test]
fn schedules_are_feasible_before_and_after_the_search() {
    for seed in 1..40 {
        let problem = problem(seed);
        for mut solution in solutions(&problem) {
            assert_feasible(&problem, &solution);
            solution.optimize(&problem);
            assert_feasible(&problem, &solution);
        }
    }
}

#[test]
fn every_move_raises_what_the_scorer_returns() {
    let mut moves = 0;
    for seed in 1..40 {
        let problem = problem(seed);
        for mut solution in solutions(&problem) {
            let begun_with = calc_score(&problem, &solution).unwrap();
            let activations: Vec<(usize, usize)> =
                solution.libs.iter().map(|lib| (lib.id, lib.max_scanned_books)).collect();
            let mut stepwise = calc_score(&problem, &solution).unwrap();
            while let Some(found) = solution.find_move(&problem) {
                solution.apply(&problem, found);
                let now = calc_score(&problem, &solution).unwrap();
                assert!(now > stepwise);
                assert_eq!(now, solution.score);
                stepwise = now;
                moves += 1;
            }
            assert!(stepwise >= begun_with);
            let after: Vec<(usize, usize)> =
                solution.libs.iter().map(|lib| (lib.id, lib.max_scanned_books)).collect();
            assert_eq!(activations, after);
        }
    }
    // The problems are such that the search has something to do.
    assert!(moves > 20);
}

#[test]
fn search_ends_in_the_same_solution_on_every_run() {
    for seed in 1..40 {
        let problem = problem(seed);
        let first = solutions(&problem);
        let second = solutions(&problem);
        for (mut a, mut b) in first.into_iter().zip(second) {
            assert_eq!(a.libs, b.libs);
            a.optimize(&problem);
            // Step by step is the same as all at once.
            while let Some(found) = b.find_move(&problem) {
                b.apply(&problem, found);
            }
            assert_eq!(a.libs, b.libs);
            assert_eq!(a.score, b.score);
            assert_eq!(a.books_taken, b.books_taken);
            assert_eq!(a.libs_by_book_used, b.libs_by_book_used);
            assert_eq!(a.find_move(&problem), None);
        }
    }
}

#[test]
fn greedy_schedule_leaves_no_library_that_could_be_signed_up() {
    for seed in 1..40 {
        let problem = problem(seed);
        let solution = solve_greedy(&problem);
        let spent: usize = solution.libs.iter().map(|lib| problem.libraries[lib.id].signup).sum();
        let active: HashSet<usize> = solution.libs.iter().map(|lib| lib.id).collect();
        for (id, library) in problem.libraries.iter().enumerate() {
            assert!(active.contains(&id) || library.signup + 1 > problem.days - spent);
        }
    }
}
