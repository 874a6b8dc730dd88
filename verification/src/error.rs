//! The failures that the crate reports, and the text that describes each.

use vstd::prelude::*;

verus! {

/// Why an operation failed.
#[derive(Debug)]
pub enum SudokuError {
    /// The puzzle source answered with an error.
    ApiError(String),
    /// The board contradicts the rules or has no solution.
    InvalidBoard,
    /// A cell holds a value that is no digit and not 0.
    InvalidValue { row: usize, col: usize, value: i32 },
    /// A benchmark run was asked for with unusable arguments.
    BenchmarkError(String),
    /// The cache of puzzles could not be locked in time.
    CacheTimeout,
    /// The puzzle generator could not be locked in time.
    GeneratorTimeout,
}

/// `String::push_str` of the standard library appends the given text.
pub assume_specification[ String::push_str ](text: &mut String, tail: &str)
    ensures
        final(text)@ == old(text)@ + tail@,
;

/// `String::push` of the standard library appends the given character.
pub assume_specification[ String::push ](text: &mut String, ch: char)
    ensures
        final(text)@ == old(text)@.push(ch),
;

/// The character of the decimal digit `d`.
pub open spec fn digit_char(d: int) -> char {
    if d == 0 {
        '0'
    } else if d == 1 {
        '1'
    } else if d == 2 {
        '2'
    } else if d == 3 {
        '3'
    } else if d == 4 {
        '4'
    } else if d == 5 {
        '5'
    } else if d == 6 {
        '6'
    } else if d == 7 {
        '7'
    } else if d == 8 {
        '8'
    } else {
        '9'
    }
}

/// The decimal digits of `n`, without leading zeros.
pub open spec fn decimal(n: nat) -> Seq<char>
    decreases n,
{
    if n < 10 {
        seq![digit_char(n as int)]
    } else {
        decimal(n / 10).push(digit_char((n % 10) as int))
    }
}

/// The decimal form of `n`, with a minus sign before a negative number.
pub open spec fn signed_decimal(n: int) -> Seq<char> {
    if n < 0 {
        seq!['-'] + decimal((-n) as nat)
    } else {
        decimal(n as nat)
    }
}

/// The text that describes a failure.
pub open spec fn message_of(error: SudokuError) -> Seq<char> {
    match error {
        SudokuError::ApiError(text) => "API error: "@ + text@,
        SudokuError::InvalidBoard => "Invalid Sudoku board"@,
        SudokuError::InvalidValue { row, col, value } => "Invalid value "@ + signed_decimal(
            value as int,
        ) + " at position ("@ + decimal(row as nat) + ", "@ + decimal(col as nat) + ")"@,
        SudokuError::BenchmarkError(text) => "Benchmark error: "@ + text@,
        SudokuError::CacheTimeout => "Cache lock timeout"@,
        SudokuError::GeneratorTimeout => "Generator lock timeout"@,
    }
}

/// The character of the decimal digit `d`.
fn digit_to_char(d: u64) -> (ch: char)
    requires
        d < 10,
    ensures
        ch == digit_char(d as int),
{
    if d == 0 {
        '0'
    } else if d == 1 {
        '1'
    } else if d == 2 {
        '2'
    } else if d == 3 {
        '3'
    } else if d == 4 {
        '4'
    } else if d == 5 {
        '5'
    } else if d == 6 {
        '6'
    } else if d == 7 {
        '7'
    } else if d == 8 {
        '8'
    } else {
        '9'
    }
}

/// Appends the decimal digits of `n` to `text`.
fn push_decimal(text: &mut String, n: u64)
    ensures
        final(text)@ == old(text)@ + decimal(n as nat),
    decreases n,
{
    if n >= 10 {
        push_decimal(text, n / 10);
    }
    text.push(digit_to_char(n % 10));
    assert(text@ =~= old(text)@ + decimal(n as nat));
}

/// Appends the decimal form of `n` to `text`.
pub(crate) fn push_signed_decimal(text: &mut String, n: i32)
    ensures
        final(text)@ == old(text)@ + signed_decimal(n as int),
{
    if n < 0 {
        text.push('-');
        let magnitude: u64 = (-(n as i64)) as u64;
        push_decimal(text, magnitude);
        assert(text@ =~= old(text)@ + signed_decimal(n as int));
    } else {
        push_decimal(text, n as u64);
    }
}

impl SudokuError {
    /// The text that describes the failure.
    pub fn message(&self) -> (text: String)
        ensures
            text@ == message_of(*self),
    {
        match self {
            SudokuError::ApiError(detail) => {
                let mut text = "API error: ".to_owned();
                text.push_str(detail.as_str());
                text
            },
            SudokuError::InvalidBoard => "Invalid Sudoku board".to_owned(),
            SudokuError::InvalidValue { row, col, value } => {
                let mut text = "Invalid value ".to_owned();
                push_signed_decimal(&mut text, *value);
                text.push_str(" at position (");
                push_decimal(&mut text, *row as u64);
                text.push_str(", ");
                push_decimal(&mut text, *col as u64);
                text.push_str(")");
                text
            },
            SudokuError::BenchmarkError(detail) => {
                let mut text = "Benchmark error: ".to_owned();
                text.push_str(detail.as_str());
                text
            },
            SudokuError::CacheTimeout => "Cache lock timeout".to_owned(),
            SudokuError::GeneratorTimeout => "Generator lock timeout".to_owned(),
        }
    }

    /// The failure that a text from the puzzle source stands for.
    pub fn from_message(text: &str) -> (error: SudokuError)
        ensures
            error matches SudokuError::ApiError(detail) && detail@ == text@,
    {
        SudokuError::ApiError(text.to_owned())
    }
}

} // verus!
