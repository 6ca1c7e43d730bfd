//! Parse errors and the positions they carry.

use crate::grammar::{token_text, Fault, Source};
use vstd::prelude::*;

verus! {

/// A place in a text: line and column, both counted from 1. A line feed ends
/// a line; the column counts characters.
#[derive(Clone, Copy, Debug, PartialEq, Eq, Structural)]
pub struct Position {
    pub line: usize,
    pub column: usize,
}

/// Why a text has no parse, and where.
#[derive(Debug, PartialEq, Eq)]
pub enum ParseError {
    /// The text ends inside a block; the position is that of the block's opening brace.
    UnterminatedBlock { position: Position },
    /// A token that fits no item of the grammar. Where the text ends too
    /// early, the token is empty and the position is that of the last token.
    UnknownConstruct { position: Position, token: String },
    /// A token that fits no function signature. Where the text ends too
    /// early, the position is that of the last token.
    MalformedSignature { position: Position },
}

/// A [`ParseError`] as plain values.
pub enum ParseErrorView {
    UnterminatedBlock { position: Position },
    UnknownConstruct { position: Position, token: Seq<char> },
    MalformedSignature { position: Position },
}

impl View for ParseError {
    type V = ParseErrorView;

    open spec fn view(&self) -> ParseErrorView {
        match *self {
            ParseError::UnterminatedBlock { position } => ParseErrorView::UnterminatedBlock {
                position,
            },
            ParseError::UnknownConstruct { position, token } => ParseErrorView::UnknownConstruct {
                position,
                token: token@,
            },
            ParseError::MalformedSignature { position } => ParseErrorView::MalformedSignature {
                position,
            },
        }
    }
}

impl ParseErrorView {
    pub open spec fn position(self) -> Position {
        match self {
            ParseErrorView::UnterminatedBlock { position } => position,
            ParseErrorView::UnknownConstruct { position, .. } => position,
            ParseErrorView::MalformedSignature { position } => position,
        }
    }
}

impl ParseError {
    /// Where the error was found.
    pub fn position(&self) -> (position: Position)
        ensures
            position == self@.position(),
    {
        match self {
            ParseError::UnterminatedBlock { position } => *position,
            ParseError::UnknownConstruct { position, .. } => *position,
            ParseError::MalformedSignature { position } => *position,
        }
    }
}

/// The line of the character at `offset`: one more than the number of line
/// feeds before it.
pub open spec fn line_of(text: Seq<char>, offset: int) -> nat
    decreases offset,
{
    if offset <= 0 {
        1
    } else if text[offset - 1] == '\n' {
        line_of(text, offset - 1) + 1
    } else {
        line_of(text, offset - 1)
    }
}

/// The column of the character at `offset`: one more than the number of
/// characters between it and the start of its line.
pub open spec fn column_of(text: Seq<char>, offset: int) -> nat
    decreases offset,
{
    if offset <= 0 || text[offset - 1] == '\n' {
        1
    } else {
        column_of(text, offset - 1) + 1
    }
}

/// The position of the character at `offset`.
pub open spec fn position_of(text: Seq<char>, offset: int) -> Position {
    Position { line: line_of(text, offset) as usize, column: column_of(text, offset) as usize }
}

/// The index that a fault carries.
pub open spec fn fault_index(fault: Fault) -> usize {
    match fault {
        Fault::UnterminatedBlock(at) => at,
        Fault::UnknownConstruct(at) => at,
        Fault::MalformedSignature(at) => at,
    }
}

/// The character at which a fault is reported: the start of the token that it
/// names or, where it names the end of the text, of the last token.
pub open spec fn fault_offset(tokens: Seq<crate::token::Token>, fault: Fault) -> usize {
    if tokens.len() == 0 {
        0
    } else if fault_index(fault) < tokens.len() {
        tokens[fault_index(fault) as int].start
    } else {
        tokens.last().start
    }
}

/// The error that a fault stands for.
pub open spec fn diagnosis(src: Source, fault: Fault) -> ParseErrorView {
    let position = position_of(src.text, fault_offset(src.tokens, fault) as int);
    match fault {
        Fault::UnterminatedBlock(_) => ParseErrorView::UnterminatedBlock { position },
        Fault::UnknownConstruct(at) => ParseErrorView::UnknownConstruct {
            position,
            token: if at < src.tokens.len() {
                token_text(src, at as int)
            } else {
                Seq::empty()
            },
        },
        Fault::MalformedSignature(_) => ParseErrorView::MalformedSignature { position },
    }
}

/// Line and column are at most one more than the offset.
pub proof fn lemma_position_bounds(text: Seq<char>, offset: int)
    requires
        0 <= offset,
    ensures
        1 <= line_of(text, offset) <= offset + 1,
        1 <= column_of(text, offset) <= offset + 1,
    decreases offset,
{
    if offset > 0 {
        lemma_position_bounds(text, offset - 1);
    }
}

/// The position of the character at `offset`.
pub fn locate(chars: &[char], offset: usize) -> (position: Position)
    requires
        offset <= chars@.len(),
        offset < usize::MAX,
    ensures
        position == position_of(chars@, offset as int),
{
    let mut line: usize = 1;
    let mut column: usize = 1;
    let mut i: usize = 0;
    while i < offset
        invariant
            i <= offset <= chars@.len(),
            offset < usize::MAX,
            line == line_of(chars@, i as int),
            column == column_of(chars@, i as int),
        decreases offset - i,
    {
        proof {
            lemma_position_bounds(chars@, i as int);
        }
        if chars[i] == '\n' {
            line += 1;
            column = 1;
        } else {
            column += 1;
        }
        i += 1;
    }
    Position { line, column }
}

} // verus!
