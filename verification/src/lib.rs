//! A lexer and symbolic-value data model for a small Lisp-like notation.
//!
//! The library turns raw source text into a stream of located tokens
//! (`token::tokenize`) and defines the in-memory representation of parsed
//! data — symbols, numbers, strings, and cons-cell lists and pairs —
//! together with a canonical textual rendering (`value`).

use vstd::prelude::*;

pub mod scanner;
pub mod token;
pub mod value;

verus! {

/// A source position: 1-based line and column numbers.
///
/// A newline character ends its line; the character after it stands at
/// column 1 of the next line. Locations are immutable once produced.
#[derive(Debug, Copy, Clone, PartialEq, Eq)]
pub struct Location {
    pub line: usize,
    pub col: usize,
}

/// The mathematical model of a `Location`: a line/column pair over
/// unbounded integers.
pub struct LocModel {
    pub line: int,
    pub col: int,
}

impl View for Location {
    type V = LocModel;

    open spec fn view(&self) -> LocModel {
        LocModel { line: self.line as int, col: self.col as int }
    }
}

/// The line/column position reached after reading the first `i` characters
/// of `s`: position 0 is line 1, column 1, a newline moves to column 1 of
/// the next line, and every other character advances the column by one.
pub open spec fn line_col_at(s: Seq<char>, i: int) -> LocModel
    decreases i,
{
    if i <= 0 {
        LocModel { line: 1, col: 1 }
    } else {
        let prev = line_col_at(s, i - 1);
        if s[i - 1] == '\n' {
            LocModel { line: prev.line + 1, col: 1 }
        } else {
            LocModel { line: prev.line, col: prev.col + 1 }
        }
    }
}

/// Line and column numbers stay positive and grow at most one per
/// character read, so both fit comfortably below `i + 2`.
pub proof fn lemma_line_col_at_bounds(s: Seq<char>, i: int)
    requires
        0 <= i,
    ensures
        1 <= line_col_at(s, i).line,
        1 <= line_col_at(s, i).col,
        line_col_at(s, i).line + line_col_at(s, i).col <= i + 2,
    decreases i,
{
    if i > 0 {
        lemma_line_col_at_bounds(s, i - 1);
    }
}

} // verus!
