use book_scanning::greedy::{
    best_offer, greedy_by, is_better_offer, lib_offer, solve_greedy, Divisor, Offer,
};
use book_scanning::problem::{Library, Problem};
use book_scanning::variants::{solve_b, solve_c, WrongVariant};
use std::collections::HashSet;

fn ids(solution: &book_scanning::solution::Solution) -> Vec<usize> {
    solution.libs.iter().map(|lib| lib.id).collect()
}

#[test]
fn better_offer_compares_score_per_day_exactly() {
    assert!(is_better_offer(2, 3, 3, 5));
    assert!(!is_better_offer(3, 5, 2, 3));
    assert!(!is_better_offer(1, 3, 2, 6));
    assert!(!is_better_offer(2, 6, 1, 3));
    // Large values do not overflow.
    assert!(is_better_offer(usize::MAX, usize::MAX - 1, usize::MAX - 1, usize::MAX - 1));
    assert!(!is_better_offer(usize::MAX, usize::MAX, usize::MAX - 1, usize::MAX - 1));
}

#[test]
fn better_offer_with_free_signup() {
    // Free beats paid, whatever the scores.
    assert!(is_better_offer(1, 0, 1000, 1));
    assert!(is_better_offer(0, 0, 1000, 1));
    assert!(!is_better_offer(1000, 1, 1, 0));
    // Among free offers, one of no score beats one of some score.
    assert!(is_better_offer(0, 0, 5, 0));
    assert!(!is_better_offer(5, 0, 0, 0));
    assert!(!is_better_offer(5, 0, 7, 0));
    assert!(!is_better_offer(7, 0, 5, 0));
    assert!(!is_better_offer(0, 0, 0, 0));
}

#[test]
fn greedy_breaks_ties_by_lower_library_id() {
    let problem = Problem {
        scores: vec![4, 4, 2],
        libraries: vec![
            Library { signup: 2, concurrency: 1, books: vec![2] },
            Library { signup: 2, concurrency: 1, books: vec![0] },
            Library { signup: 2, concurrency: 1, books: vec![1] },
        ],
        days: 3,
    };
    let solution = solve_greedy(&problem);
    assert_eq!(ids(&solution), vec![1]);
    assert_eq!(solution.score, 4);
}

#[test]
fn greedy_prefers_score_per_signup_day_over_score() {
    // Library 0 offers 6 for 3 days, library 1 offers 5 for 2 days.
    let problem = Problem {
        scores: vec![6, 5],
        libraries: vec![
            Library { signup: 3, concurrency: 1, books: vec![0] },
            Library { signup: 2, concurrency: 1, books: vec![1] },
        ],
        days: 10,
    };
    let solution = solve_greedy(&problem);
    assert_eq!(ids(&solution), vec![1, 0]);
    assert_eq!(solution.score, 11);
    assert_eq!(solution.libs[0].max_scanned_books, 1);
}

#[test]
fn greedy_takes_free_libraries_first_and_empty_ones_before_others() {
    let problem = Problem {
        scores: vec![5, 9],
        libraries: vec![
            Library { signup: 1, concurrency: 1, books: vec![1] },
            Library { signup: 0, concurrency: 1, books: vec![0] },
            Library { signup: 0, concurrency: 1, books: vec![] },
        ],
        days: 3,
    };
    let solution = solve_greedy(&problem);
    assert_eq!(ids(&solution), vec![2, 1, 0]);
    assert_eq!(solution.score, 14);
}

#[test]
fn greedy_leaves_out_library_whose_signup_ends_on_the_deadline() {
    let problem = Problem {
        scores: vec![5],
        libraries: vec![Library { signup: 3, concurrency: 1, books: vec![0] }],
        days: 3,
    };
    let solution = solve_greedy(&problem);
    assert_eq!(solution.libs.len(), 0);
    assert_eq!(solution.score, 0);
}

#[test]
fn greedy_on_degenerate_problems() {
    let empty = Problem { scores: vec![], libraries: vec![], days: 0 };
    assert_eq!(solve_greedy(&empty).libs.len(), 0);
    let no_days = Problem {
        scores: vec![1],
        libraries: vec![Library { signup: 0, concurrency: 1, books: vec![0] }],
        days: 0,
    };
    assert_eq!(solve_greedy(&no_days).libs.len(), 0);
    let no_rate = Problem {
        scores: vec![1],
        libraries: vec![Library { signup: 0, concurrency: 0, books: vec![0] }],
        days: 5,
    };
    let solution = solve_greedy(&no_rate);
    assert_eq!(ids(&solution), vec![0]);
    assert_eq!(solution.libs[0].books, Vec::<usize>::new());
    assert_eq!(solution.libs[0].max_scanned_books, 0);
    assert_eq!(solution.score, 0);
}

#[test]
fn greedy_is_the_same_on_every_run() {
    let problem = Problem {
        scores: vec![3, 1, 4, 1, 5, 9, 2, 6],
        libraries: vec![
            Library { signup: 2, concurrency: 2, books: vec![5, 4, 2, 0] },
            Library { signup: 1, concurrency: 1, books: vec![5, 7, 6] },
            Library { signup: 3, concurrency: 3, books: vec![7, 2, 0, 1, 3] },
        ],
        days: 7,
    };
    let first = solve_greedy(&problem);
    let second = solve_greedy(&problem);
    assert_eq!(first.libs, second.libs);
    assert_eq!(first.score, second.score);
    assert_eq!(first.books_taken, second.books_taken);
    assert_eq!(first.libs_by_book_used, second.libs_by_book_used);
    // First round: library 0 offers 21 for 2 days, library 1 offers 17 for 1,
    // library 2 offers 15 for 3. Second round: 12 for 2 against 9 for 3.
    assert_eq!(ids(&first), vec![1, 0, 2]);
    assert_eq!(first.libs[0].books, vec![5, 7, 6]);
    assert_eq!(first.libs[1].books, vec![4, 2, 0]);
    assert_eq!(first.libs[1].books_left, vec![5]);
    assert_eq!(first.libs[2].books, vec![1, 3]);
    assert_eq!(first.libs[2].books_left, vec![7, 2, 0]);
    assert_eq!(first.libs[2].max_scanned_books, 3);
    assert_eq!(first.score, 17 + 12 + 2);
}

#[test]
fn greedy_stops_when_no_signup_leaves_a_day() {
    let problem = Problem {
        scores: vec![3, 1, 4, 1, 5, 9, 2, 6],
        libraries: vec![
            Library { signup: 2, concurrency: 2, books: vec![5, 4, 2, 0] },
            Library { signup: 1, concurrency: 1, books: vec![5, 7, 6] },
            Library { signup: 3, concurrency: 3, books: vec![7, 2, 0, 1, 3] },
        ],
        days: 6,
    };
    let solution = solve_greedy(&problem);
    assert_eq!(ids(&solution), vec![1, 0]);
    assert_eq!(solution.score, 29);
}

#[test]
fn lib_offer_is_none_for_active_or_late_library() {
    let problem = Problem {
        scores: vec![6, 5],
        libraries: vec![Library { signup: 3, concurrency: 1, books: vec![0, 1] }],
        days: 10,
    };
    let lib = &problem.libraries[0];
    let none = HashSet::new();
    let by_signup = Divisor::SignupDays;
    assert_eq!(
        lib_offer(&problem, by_signup, 0, lib, &none, &none, 5),
        Some(Offer { score: 11, days: 3 })
    );
    assert_eq!(
        lib_offer(&problem, Divisor::SignupAndFirstDay, 0, lib, &none, &none, 5),
        Some(Offer { score: 11, days: 4 })
    );
    assert_eq!(
        lib_offer(&problem, by_signup, 0, lib, &none, &none, 4),
        Some(Offer { score: 6, days: 3 })
    );
    assert_eq!(lib_offer(&problem, by_signup, 0, lib, &none, &none, 3), None);
    assert_eq!(lib_offer(&problem, by_signup, 0, lib, &HashSet::from([0]), &none, 5), None);
    assert_eq!(
        lib_offer(&problem, by_signup, 0, lib, &none, &HashSet::from([0]), 5),
        Some(Offer { score: 5, days: 3 })
    );
}

fn offer(score: usize, days: usize) -> Option<Offer> {
    Some(Offer { score, days })
}

#[test]
fn best_offer_picks_first_of_the_best() {
    assert_eq!(best_offer(&vec![offer(3, 2), offer(6, 4), offer(3, 2)]), Some(0));
    assert_eq!(best_offer(&vec![offer(3, 2), offer(7, 4), offer(3, 2)]), Some(1));
    assert_eq!(best_offer(&vec![None, offer(5, 4), offer(3, 2)]), Some(2));
    assert_eq!(best_offer(&vec![None, None, None]), None);
    assert_eq!(best_offer(&vec![]), None);
    // 3/3, 7/5, 4/3.
    assert_eq!(best_offer(&vec![offer(3, 3), offer(7, 5), offer(4, 3)]), Some(1));
    assert_eq!(best_offer(&vec![offer(3, 3), offer(6, 5), offer(4, 3)]), Some(2));
    // Free offers come first, one of no score before the others.
    assert_eq!(best_offer(&vec![offer(9, 1), offer(2, 0), offer(3, 0)]), Some(1));
    assert_eq!(best_offer(&vec![offer(9, 1), offer(2, 0), offer(0, 0)]), Some(2));
}

#[test]
fn solve_c_divides_by_signup_and_one_more_day() {
    // Per signup day library 0 is better (4 against 3); with one more day
    // charged library 1 is (2 against 2.25).
    let problem = Problem {
        scores: vec![4, 9],
        libraries: vec![
            Library { signup: 1, concurrency: 1, books: vec![0] },
            Library { signup: 3, concurrency: 1, books: vec![1] },
        ],
        days: 10,
    };
    assert_eq!(ids(&solve_greedy(&problem)), vec![0, 1]);
    let solution = solve_c(&problem).unwrap();
    assert_eq!(ids(&solution), vec![1, 0]);
    assert_eq!(solution.score, 13);
    assert_eq!(ids(&greedy_by(&problem, Divisor::SignupAndFirstDay)), vec![1, 0]);
}

#[test]
fn solve_c_gives_every_library_all_its_free_books() {
    let problem = Problem {
        scores: vec![3, 4, 5],
        libraries: vec![
            Library { signup: 2, concurrency: 2, books: vec![2, 1] },
            Library { signup: 1, concurrency: 3, books: vec![2, 1, 0] },
        ],
        days: 5,
    };
    // Library 0 offers 9 for 3 days, library 1 offers 12 for 2.
    let solution = solve_c(&problem).unwrap();
    assert_eq!(ids(&solution), vec![1, 0]);
    assert_eq!(solution.libs[0].books, vec![2, 1, 0]);
    assert_eq!(solution.libs[1].books, Vec::<usize>::new());
    assert_eq!(solution.libs[1].books_left, vec![2, 1]);
    assert_eq!(solution.score, 12);
}

#[test]
fn solve_c_rejects_catalog_beyond_daily_rate() {
    let problem = Problem {
        scores: vec![3, 4, 5],
        libraries: vec![Library { signup: 2, concurrency: 1, books: vec![2, 1] }],
        days: 5,
    };
    assert_eq!(solve_c(&problem).err(), Some(WrongVariant::CatalogExceedsRate));
}

fn uniform(signups: &[usize], days: usize) -> Problem {
    let libraries = signups
        .iter()
        .enumerate()
        .map(|(l, &signup)| Library {
            signup,
            concurrency: 1,
            books: (l * 1000..(l + 1) * 1000).collect(),
        })
        .collect();
    Problem { scores: vec![1; signups.len() * 1000], libraries, days }
}

#[test]
fn solve_b_signs_up_shortest_signup_first() {
    let problem = uniform(&[5, 2], 10);
    let solution = solve_b(&problem).unwrap();
    assert_eq!(ids(&solution), vec![1, 0]);
    assert_eq!(solution.libs[0].max_scanned_books, 8);
    assert_eq!(solution.libs[0].books, (1000..1008).collect::<Vec<usize>>());
    assert_eq!(solution.libs[1].max_scanned_books, 3);
    assert_eq!(solution.libs[1].books, vec![0, 1, 2]);
    assert_eq!(solution.score, 11);
}

#[test]
fn solve_b_stops_at_first_library_that_does_not_fit() {
    let problem = uniform(&[5, 2, 5], 7);
    let solution = solve_b(&problem).unwrap();
    assert_eq!(ids(&solution), vec![1]);
    assert_eq!(solution.score, 5);
    let problem = uniform(&[3, 3, 1], 8);
    assert_eq!(ids(&solve_b(&problem).unwrap()), vec![2, 0, 1]);
    assert_eq!(solve_b(&uniform(&[], 8)).err(), Some(WrongVariant::ScoresNotUniform));
}

#[test]
fn solve_b_rejects_other_shapes() {
    let mut problem = uniform(&[5, 2], 10);
    problem.scores[7] = 2;
    assert_eq!(solve_b(&problem).err(), Some(WrongVariant::ScoresNotUniform));

    let mut problem = uniform(&[5, 2], 10);
    problem.libraries[1].books.pop();
    assert_eq!(solve_b(&problem).err(), Some(WrongVariant::CatalogSize));

    let mut problem = uniform(&[5, 2], 10);
    problem.libraries[0].concurrency = 2;
    assert_eq!(solve_b(&problem).err(), Some(WrongVariant::ScanRate));

    let mut problem = uniform(&[5, 2], 10);
    problem.libraries[1].books[0] = 999;
    assert_eq!(solve_b(&problem).err(), Some(WrongVariant::SharedBook));
}
