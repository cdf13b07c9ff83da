use vstd::prelude::*;

verus! {

/// The number that a word stands for, as `str::parse::<i32>` reads it, or
/// `None` where that refuses the word.
pub uninterp spec fn parsed_number(word: Seq<char>) -> Option<i32>;

/// Reads a word as a number with `str::parse::<i32>` of the standard
/// library.
///
/// Believed, not proved: what comes back depends on the characters of the
/// word alone. `parsed_number` is the name of that result.
#[verifier::external_body]
fn parse_number(word: &str) -> (number: Option<i32>)
    ensures
        number == parsed_number(word@),
{
    word.parse::<i32>().ok()
}

/// Why a table of words could not be read.
#[derive(Clone, Copy, Debug, PartialEq, Eq, Structural)]
pub enum ParseError {
    /// The line has no word in this column.
    MissingColumn { line: usize, column: usize },
    /// The word in this column of the line is no number.
    NotANumber { line: usize, column: usize },
}

/// What a word that was read gives: its number, or the error for the place
/// where it stands.
pub open spec fn read_value(number: Option<i32>, line: usize, column: usize) -> Result<
    i32,
    ParseError,
> {
    match number {
        Some(number) => Ok(number),
        None => Err(ParseError::NotANumber { line, column }),
    }
}

/// What reading the word in `column` of a line gives: its number, or the
/// error for the line that is counted as `line`.
pub open spec fn word_value(words: Seq<String>, column: int, line: usize) -> Result<
    i32,
    ParseError,
> {
    if 0 <= column < words.len() {
        read_value(parsed_number(words[column]@), line, column as usize)
    } else {
        Err(ParseError::MissingColumn { line, column: column as usize })
    }
}

/// The number of a word that was read, or the error that names where the
/// word stands.
pub fn number_or_error(number: Option<i32>, line: usize, column: usize) -> (value: Result<
    i32,
    ParseError,
>)
    ensures
        value == read_value(number, line, column),
{
    match number {
        Some(number) => Ok(number),
        None => Err(ParseError::NotANumber { line, column }),
    }
}

/// Reads the word in one column of a line.
pub fn parse_word(words: &Vec<String>, column: usize, line: usize) -> (value: Result<
    i32,
    ParseError,
>)
    ensures
        value == word_value(words@, column as int, line),
{
    if column >= words.len() {
        return Err(ParseError::MissingColumn { line, column });
    }
    number_or_error(parse_number(words[column].as_str()), line, column)
}

/// Reads one column of a table of words as numbers, one for each line.
///
/// `line_number` is the number of the first line, by which an error names
/// the line it found. The error is that of the first line that cannot be
/// read.
pub fn parse_column(lines: &[Vec<String>], column: usize, line_number: usize) -> (values: Result<
    Vec<i32>,
    ParseError,
>)
    requires
        line_number + lines@.len() <= usize::MAX,
    ensures
        match values {
            Ok(numbers) => numbers@.len() == lines@.len() && forall|i: int|
                0 <= i < lines@.len() ==> word_value(
                    (#[trigger] lines@[i])@,
                    column as int,
                    (line_number + i) as usize,
                ) == Ok::<i32, ParseError>(numbers@[i]),
            Err(error) => exists|i: int|
                0 <= i < lines@.len() && word_value(
                    (#[trigger] lines@[i])@,
                    column as int,
                    (line_number + i) as usize,
                ) == Err::<i32, ParseError>(error) && forall|k: int|
                    0 <= k < i ==> word_value(
                        (#[trigger] lines@[k])@,
                        column as int,
                        (line_number + k) as usize,
                    ) is Ok,
        },
{
    let mut numbers: Vec<i32> = Vec::new();
    let mut i: usize = 0;
    while i < lines.len()
        invariant
            line_number + lines@.len() <= usize::MAX,
            0 <= i <= lines@.len(),
            numbers@.len() == i,
            forall|k: int|
                0 <= k < i ==> word_value(
                    (#[trigger] lines@[k])@,
                    column as int,
                    (line_number + k) as usize,
                ) == Ok::<i32, ParseError>(numbers@[k]),
        decreases lines@.len() - i,
    {
        match parse_word(&lines[i], column, line_number + i) {
            Ok(number) => {
                numbers.push(number);
            },
            Err(error) => {
                return Err(error);
            },
        }
        i += 1;
    }
    Ok(numbers)
}

/// Where the columns of a line end that are read from `column_start` on: at
/// `column_end`, or at the end of the line where no end is given.
pub open spec fn columns_end(words: Seq<String>, column_end: Option<usize>) -> int {
    match column_end {
        Some(end) => end as int,
        None => words.len() as int,
    }
}

/// Whether `numbers` are what the columns of a line hold from
/// `column_start` up to its end.
pub open spec fn line_values(
    words: Seq<String>,
    column_start: int,
    column_end: Option<usize>,
    line: usize,
    numbers: Seq<i32>,
) -> bool {
    &&& column_start <= columns_end(words, column_end)
    &&& numbers.len() == columns_end(words, column_end) - column_start
    &&& forall|c: int|
        0 <= c < numbers.len() ==> word_value(words, column_start + c, line) == Ok::<
            i32,
            ParseError,
        >(#[trigger] numbers[c])
}

/// Whether each column of a line from `column_start` up to its end can be
/// read.
pub open spec fn line_readable(
    words: Seq<String>,
    column_start: int,
    column_end: Option<usize>,
    line: usize,
) -> bool {
    &&& column_start <= columns_end(words, column_end)
    &&& forall|c: int|
        column_start <= c < columns_end(words, column_end) ==> (#[trigger] word_value(
            words,
            c,
            line,
        )) is Ok
}

/// A line that has values can be read.
pub proof fn lemma_values_readable(
    words: Seq<String>,
    column_start: int,
    column_end: Option<usize>,
    line: usize,
    numbers: Seq<i32>,
)
    requires
        line_values(words, column_start, column_end, line, numbers),
    ensures
        line_readable(words, column_start, column_end, line),
{
    assert forall|c: int| column_start <= c < columns_end(words, column_end) implies (
    #[trigger] word_value(words, c, line)) is Ok by {
        assert(word_value(words, column_start + (c - column_start), line) == Ok::<
            i32,
            ParseError,
        >(numbers[c - column_start]));
    }
}

/// Whether `error` is what reading the columns of a line from
/// `column_start` up to its end stops at: the first column that cannot be
/// read, or the start itself where it lies behind the end.
pub open spec fn line_error(
    words: Seq<String>,
    column_start: int,
    column_end: Option<usize>,
    line: usize,
    error: ParseError,
) -> bool {
    ||| column_start > columns_end(words, column_end) && error == (ParseError::MissingColumn {
        line,
        column: column_start as usize,
    })
    ||| exists|c: int|
        column_start <= c < columns_end(words, column_end) && #[trigger] word_value(words, c, line)
            == Err::<i32, ParseError>(error) && forall|k: int|
            column_start <= k < c ==> (#[trigger] word_value(words, k, line)) is Ok
}

/// Reads the columns of one line from `column_start` up to its end.
pub fn parse_line_columns(
    words: &Vec<String>,
    column_start: usize,
    column_end: Option<usize>,
    line: usize,
) -> (values: Result<Vec<i32>, ParseError>)
    ensures
        match values {
            Ok(numbers) => line_values(words@, column_start as int, column_end, line, numbers@),
            Err(error) => line_error(words@, column_start as int, column_end, line, error),
        },
{
    let end = match column_end {
        Some(end) => end,
        None => words.len(),
    };
    if column_start > end {
        return Err(ParseError::MissingColumn { line, column: column_start });
    }
    let mut numbers: Vec<i32> = Vec::new();
    let mut column = column_start;
    while column < end
        invariant
            column_start <= column <= end,
            end == columns_end(words@, column_end),
            numbers@.len() == column - column_start,
            forall|c: int|
                0 <= c < numbers@.len() ==> word_value(words@, column_start + c, line) == Ok::<
                    i32,
                    ParseError,
                >(#[trigger] numbers@[c]),
        decreases end - column,
    {
        match parse_word(words, column, line) {
            Ok(number) => {
                numbers.push(number);
            },
            Err(error) => {
                assert(forall|k: int|
                    column_start <= k < column ==> (#[trigger] word_value(words@, k, line))
                        == Ok::<i32, ParseError>(numbers@[k - column_start]));
                return Err(error);
            },
        }
        column += 1;
    }
    Ok(numbers)
}

/// Reads the columns from `column_start` up to `column_end`, or to the end
/// of each line where no end is given, as numbers: one list for each line.
///
/// `line_number` is the number of the first line, by which an error names
/// the line it found. The error is that of the first line that cannot be
/// read.
pub fn parse_columns(
    lines: &[Vec<String>],
    column_start: usize,
    column_end: Option<usize>,
    line_number: usize,
) -> (values: Result<Vec<Vec<i32>>, ParseError>)
    requires
        line_number + lines@.len() <= usize::MAX,
    ensures
        match values {
            Ok(rows) => rows@.len() == lines@.len() && forall|i: int|
                0 <= i < lines@.len() ==> line_values(
                    (#[trigger] lines@[i])@,
                    column_start as int,
                    column_end,
                    (line_number + i) as usize,
                    rows@[i]@,
                ),
            Err(error) => exists|i: int|
                0 <= i < lines@.len() && line_error(
                    (#[trigger] lines@[i])@,
                    column_start as int,
                    column_end,
                    (line_number + i) as usize,
                    error,
                ) && forall|k: int|
                    0 <= k < i ==> line_readable(
                        (#[trigger] lines@[k])@,
                        column_start as int,
                        column_end,
                        (line_number + k) as usize,
                    ),
        },
{
    let mut rows: Vec<Vec<i32>> = Vec::new();
    let mut i: usize = 0;
    while i < lines.len()
        invariant
            line_number + lines@.len() <= usize::MAX,
            0 <= i <= lines@.len(),
            rows@.len() == i,
            forall|k: int|
                0 <= k < i ==> line_values(
                    (#[trigger] lines@[k])@,
                    column_start as int,
                    column_end,
                    (line_number + k) as usize,
                    rows@[k]@,
                ),
        decreases lines@.len() - i,
    {
        match parse_line_columns(&lines[i], column_start, column_end, line_number + i) {
            Ok(numbers) => {
                rows.push(numbers);
            },
            Err(error) => {
                proof {
                    assert forall|k: int| 0 <= k < i implies line_readable(
                        (#[trigger] lines@[k])@,
                        column_start as int,
                        column_end,
                        (line_number + k) as usize,
                    ) by {
                        lemma_values_readable(
                            lines@[k]@,
                            column_start as int,
                            column_end,
                            (line_number + k) as usize,
                            rows@[k]@,
                        );
                    }
                }
                return Err(error);
            },
        }
        i += 1;
    }
    Ok(rows)
}

} // verus!
