use genetic::job::{Job, Operation};
use genetic::parser::{parse_column, parse_columns, parse_word, ParseError};

fn table(lines: &[&str]) -> Vec<Vec<String>> {
    lines.iter().map(|line| line.split_whitespace().map(String::from).collect()).collect()
}

#[test]
fn column_is_read_line_by_line() {
    let lines = table(&["1 20 -3", "4 +50 6", "7 080 9"]);
    assert_eq!(parse_column(&lines, 1, 1), Ok(vec![20, 50, 80]));
    assert_eq!(parse_column(&lines, 2, 1), Ok(vec![-3, 6, 9]));
    assert_eq!(parse_column(&lines[1..], 0, 2), Ok(vec![4, 7]));
    assert_eq!(parse_column(&lines[0..0], 5, 1), Ok(vec![]));
}

#[test]
fn column_error_names_the_first_bad_line() {
    let lines = table(&["1 2", "x 2", "y"]);
    assert_eq!(parse_column(&lines, 0, 10), Err(ParseError::NotANumber { line: 11, column: 0 }));
    assert_eq!(parse_column(&lines, 1, 10), Err(ParseError::MissingColumn { line: 12, column: 1 }));
    assert_eq!(parse_column(&lines, 7, 0), Err(ParseError::MissingColumn { line: 0, column: 7 }));
}

#[test]
fn word_is_a_number_or_an_error() {
    let words: Vec<String> = vec!["12".into(), "1.5".into(), "".into(), "99999999999".into()];
    assert_eq!(parse_word(&words, 0, 3), Ok(12));
    assert_eq!(parse_word(&words, 1, 3), Err(ParseError::NotANumber { line: 3, column: 1 }));
    assert_eq!(parse_word(&words, 2, 3), Err(ParseError::NotANumber { line: 3, column: 2 }));
    assert_eq!(parse_word(&words, 3, 3), Err(ParseError::NotANumber { line: 3, column: 3 }));
    assert_eq!(parse_word(&words, 4, 3), Err(ParseError::MissingColumn { line: 3, column: 4 }));
}

#[test]
fn columns_are_read_to_the_end_of_each_line() {
    let lines = table(&["1 1 10 0 1 5 6 7", "1 2 12 0 1 8", "2 1 0 0 2"]);
    assert_eq!(parse_columns(&lines, 5, None, 2), Ok(vec![vec![5, 6, 7], vec![8], vec![]]));
    assert_eq!(
        parse_columns(&lines, 0, Some(2), 2),
        Ok(vec![vec![1, 1], vec![1, 2], vec![2, 1]])
    );
    assert_eq!(parse_columns(&lines, 3, Some(3), 2), Ok(vec![vec![], vec![], vec![]]));
}

#[test]
fn columns_error_names_line_and_column() {
    let lines = table(&["1 2 3", "4 z 6", "7"]);
    assert_eq!(
        parse_columns(&lines, 0, None, 1),
        Err(ParseError::NotANumber { line: 2, column: 1 })
    );
    assert_eq!(
        parse_columns(&lines, 2, None, 1),
        Err(ParseError::MissingColumn { line: 3, column: 2 })
    );
    assert_eq!(
        parse_columns(&lines, 0, Some(4), 1),
        Err(ParseError::MissingColumn { line: 1, column: 3 })
    );
    assert_eq!(
        parse_columns(&lines, 2, Some(1), 5),
        Err(ParseError::MissingColumn { line: 5, column: 2 })
    );
}

#[test]
fn job_collects_its_operations() {
    let mut job = Job::new(3);
    assert_eq!(job.number, 3);
    assert!(job.operations.is_empty());
    job.add_operation(Operation { machine: 1, time: 5, part_number: 1, job_number: 3 });
    job.add_operation(Operation { machine: 0, time: 2, part_number: 2, job_number: 3 });
    assert_eq!(job.number, 3);
    assert_eq!(job.operations.len(), 2);
    assert_eq!(job.operations[0].time, 5);
    assert_eq!(job.operations[1].machine, 0);
    assert_eq!(job.operations[1].part_number, 2);
}
