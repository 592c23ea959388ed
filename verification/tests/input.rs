use book_scanning::greedy::solve_greedy;
use book_scanning::input::{from_numbers, parse_problem, read_numbers};
use book_scanning::problem::{Library, MalformedInput, Problem};

#[test]
fn parse_reads_the_example() {
    let problem = parse_problem(b"3 1 2\n1 2 3\n3 0 1\n2 1 0\n").unwrap();
    assert_eq!(
        problem,
        Problem {
            scores: vec![1, 2, 3],
            libraries: vec![Library { signup: 0, concurrency: 1, books: vec![2, 1, 0] }],
            days: 2,
        }
    );
    assert_eq!(solve_greedy(&problem).score, 5);
}

#[test]
fn parse_sorts_catalogs() {
    let problem = parse_problem(b"4 2 7\n5 9 5 7\n4 2 3\n0 1 2 3\n2 1 1\n2 0").unwrap();
    assert_eq!(problem.days, 7);
    assert_eq!(problem.libraries.len(), 2);
    assert_eq!(
        problem.libraries[0],
        Library { signup: 2, concurrency: 3, books: vec![1, 3, 0, 2] }
    );
    assert_eq!(problem.libraries[1], Library { signup: 1, concurrency: 1, books: vec![0, 2] });
}

#[test]
fn parse_takes_any_white_space_between_numbers() {
    let problem = parse_problem(b"  2\t1 5\r\n4 6\r\n\r\n2 1\t1\n\n1   0  ").unwrap();
    assert_eq!(problem.scores, vec![4, 6]);
    assert_eq!(problem.libraries[0].books, vec![1, 0]);
}

#[test]
fn parse_takes_library_without_books() {
    let problem = parse_problem(b"1 2 5\n4\n0 2 3\n\n1 1 1\n0\n").unwrap();
    assert_eq!(problem.libraries[0], Library { signup: 2, concurrency: 3, books: vec![] });
    assert_eq!(problem.libraries[1], Library { signup: 1, concurrency: 1, books: vec![0] });
}

#[test]
fn parse_of_problem_without_books_or_libraries() {
    let problem = parse_problem(b"0 0 9").unwrap();
    assert_eq!(problem, Problem { scores: vec![], libraries: vec![], days: 9 });
}

#[test]
fn parse_names_the_word_that_is_no_number() {
    assert_eq!(parse_problem(b"3 1 2\n1 x 3"), Err(MalformedInput::BadNumber { token: 4 }));
    assert_eq!(parse_problem(b"-3 1 2"), Err(MalformedInput::BadNumber { token: 0 }));
    assert_eq!(parse_problem(b"3 1.5 2"), Err(MalformedInput::BadNumber { token: 1 }));
    assert_eq!(parse_problem(b"3 1 2 12a 7"), Err(MalformedInput::BadNumber { token: 3 }));
}

#[test]
fn parse_rejects_number_beyond_usize() {
    assert_eq!(
        parse_problem(b"1 0 99999999999999999999999999"),
        Err(MalformedInput::BadNumber { token: 2 })
    );
}

#[test]
fn parse_rejects_text_that_ends_early() {
    assert_eq!(parse_problem(b""), Err(MalformedInput::Truncated));
    assert_eq!(parse_problem(b"3 1"), Err(MalformedInput::Truncated));
    assert_eq!(parse_problem(b"3 1 2\n1 2"), Err(MalformedInput::Truncated));
    assert_eq!(parse_problem(b"3 1 2\n1 2 3\n3 0"), Err(MalformedInput::Truncated));
    assert_eq!(parse_problem(b"3 1 2\n1 2 3\n3 0 1\n2 1"), Err(MalformedInput::Truncated));
    assert_eq!(parse_problem(b"3 2 2\n1 2 3\n3 0 1\n2 1 0"), Err(MalformedInput::Truncated));
}

#[test]
fn parse_rejects_numbers_beyond_the_last_library() {
    assert_eq!(
        parse_problem(b"3 1 2\n1 2 3\n3 0 1\n2 1 0\n7"),
        Err(MalformedInput::TrailingNumbers { token: 12 })
    );
    assert_eq!(parse_problem(b"0 0 9 1"), Err(MalformedInput::TrailingNumbers { token: 3 }));
}

#[test]
fn parse_rejects_bad_catalogs() {
    assert_eq!(
        parse_problem(b"3 2 2\n1 2 3\n1 0 1\n2\n2 0 1\n1 3"),
        Err(MalformedInput::UnknownBook { library: 1 })
    );
    assert_eq!(
        parse_problem(b"3 1 2\n1 2 3\n3 0 1\n2 1 2\n"),
        Err(MalformedInput::RepeatedBook { library: 0 })
    );
}

#[test]
fn parse_rejects_scores_that_do_not_add_up() {
    let text = format!("2 0 1\n{} 1", usize::MAX);
    assert_eq!(parse_problem(text.as_bytes()), Err(MalformedInput::ScoresTooLarge));
}

#[test]
fn read_numbers_reads_decimal_words() {
    assert_eq!(read_numbers(b"  12\t007\r\n5 "), Ok(vec![12, 7, 5]));
    assert_eq!(read_numbers(b""), Ok(vec![]));
    assert_eq!(read_numbers(b" \n "), Ok(vec![]));
    assert_eq!(read_numbers(b"0"), Ok(vec![0]));
    let max = format!("{}", usize::MAX);
    assert_eq!(read_numbers(max.as_bytes()), Ok(vec![usize::MAX]));
    let beyond = format!("1 {}0", usize::MAX);
    assert_eq!(read_numbers(beyond.as_bytes()), Err(MalformedInput::BadNumber { token: 1 }));
    assert_eq!(read_numbers(b"1 2 +3"), Err(MalformedInput::BadNumber { token: 2 }));
}

#[test]
fn from_numbers_lays_out_the_problem() {
    let problem = from_numbers(&vec![2, 2, 6, 10, 20, 1, 3, 4, 0, 2, 5, 6, 0, 1]).unwrap();
    assert_eq!(problem.scores, vec![10, 20]);
    assert_eq!(problem.days, 6);
    assert_eq!(problem.libraries[0], Library { signup: 3, concurrency: 4, books: vec![0] });
    assert_eq!(problem.libraries[1], Library { signup: 5, concurrency: 6, books: vec![1, 0] });
    assert_eq!(
        from_numbers(&vec![2, 1, 6, 10, 20, usize::MAX, 3, 4]),
        Err(MalformedInput::Truncated)
    );
    assert_eq!(from_numbers(&vec![usize::MAX, 1, 6]), Err(MalformedInput::Truncated));
}
