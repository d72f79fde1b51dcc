//! What the language server decides: editor positions of diagnostics and
//! which document versions it accepts.

use vstd::prelude::*;

use crate::diagnostic::{Diagnostic, TextRange};
use crate::text::{
    chars_of, count_newlines, fit_chars, floor_char_count, last_line, line_position, utf16_len,
};

verus! {

/// A zero-based line and UTF-16 character offset, as editors count them.
#[derive(Clone, Copy, Debug, PartialEq, Eq, Structural)]
pub struct Position {
    pub line: u32,
    pub character: u32,
}

impl Position {
    pub fn new(line: u32, character: u32) -> (r: Position)
        ensures
            r == (Position { line, character }),
    {
        Position { line, character }
    }
}

/// A pair of editor positions.
#[derive(Clone, Copy, Debug, PartialEq, Eq, Structural)]
pub struct Range {
    pub start: Position,
    pub end: Position,
}

impl Range {
    pub fn new(start: Position, end: Position) -> (r: Range)
        ensures
            r == (Range { start, end }),
    {
        Range { start, end }
    }
}

/// `n`, or `u32::MAX` when it does not fit a `u32`.
pub open spec fn saturate_u32(n: nat) -> u32 {
    if n > u32::MAX {
        u32::MAX
    } else {
        n as u32
    }
}

/// The editor position of byte `offset` of `source`: the number of line
/// feeds before it and the UTF-16 length of its line up to it, where an
/// offset inside a character or past the end counts as the character
/// boundary below it; both saturate at `u32::MAX`.
pub open spec fn position_of(source: Seq<char>, offset: int) -> Position {
    let prefix = source.take(fit_chars(source, offset) as int);
    Position {
        line: saturate_u32(count_newlines(prefix)),
        character: saturate_u32(utf16_len(last_line(prefix))),
    }
}

fn saturating_u32(n: usize) -> (r: u32)
    ensures
        r == saturate_u32(n as nat),
{
    if n > 0xFFFF_FFFF {
        0xFFFF_FFFF
    } else {
        n as u32
    }
}

/// The editor position of a byte offset.
pub fn position_at(source: &str, byte_offset: u32) -> (r: Position)
    ensures
        r == position_of(source@, byte_offset as int),
{
    let chars = chars_of(source);
    let (k, _) = floor_char_count(chars.as_slice(), byte_offset as u64);
    let _total = crate::text::str_byte_len(source);
    let (lines, _, units) = line_position(chars.as_slice(), k);
    Position::new(saturating_u32(lines), saturating_u32(units))
}

/// The editor range of a byte range.
pub fn to_lsp_range(source: &str, range: TextRange) -> (r: Range)
    ensures
        r == (Range {
            start: position_of(source@, range.start as int),
            end: position_of(source@, range.end as int),
        }),
{
    Range::new(position_at(source, range.start), position_at(source, range.end))
}

/// The editor range a diagnostic is shown at; one without a range is shown
/// at the start of the document.
pub fn diagnostic_range(diagnostic: &Diagnostic, source: &str) -> (r: Range)
    ensures
        r == match diagnostic.range {
            Some(range) => Range {
                start: position_of(source@, range.start as int),
                end: position_of(source@, range.end as int),
            },
            None => Range {
                start: Position { line: 0, character: 0 },
                end: Position { line: 0, character: 0 },
            },
        },
{
    match diagnostic.range {
        Some(range) => to_lsp_range(source, range),
        None => Range::new(Position::new(0, 0), Position::new(0, 0)),
    }
}

/// An open document as the language server holds it.
#[derive(Debug)]
pub struct Document {
    pub file_name: String,
    pub text: String,
    pub version: i32,
}

impl Document {
    /// Take the full new text of a change when its version is newer than the
    /// document's; report whether it was taken.
    pub fn apply_change(&mut self, version: i32, text: String) -> (r: bool)
        ensures
            r == (version > old(self).version),
            r ==> final(self).text@ == text@ && final(self).version == version,
            !r ==> final(self).text@ == old(self).text@ && final(self).version == old(
                self,
            ).version,
            final(self).file_name@ == old(self).file_name@,
    {
        if version <= self.version {
            false
        } else {
            self.text = text;
            self.version = version;
            true
        }
    }
}

} // verus!
