//! The parts of a SCIP index that the browser is built from, as plain values.
use vstd::prelude::*;

use crate::columns::PositionEncoding;

verus! {

/// The SCIP role bit that marks a definition.
pub const DEFINITION_ROLE: i32 = 1;

/// A range on one line.
#[derive(Clone, Copy, Debug, PartialEq, Eq)]
pub struct SingleLineRange {
    pub line: i32,
    pub start_character: i32,
    pub end_character: i32,
}

/// A range over several lines.
#[derive(Clone, Copy, Debug, PartialEq, Eq)]
pub struct MultiLineRange {
    pub start_line: i32,
    pub start_character: i32,
    pub end_line: i32,
    pub end_character: i32,
}

/// The typed form of an occurrence's range.
#[derive(Clone, Copy, Debug, PartialEq, Eq)]
pub enum TypedRange {
    SingleLineRange(SingleLineRange),
    MultiLineRange(MultiLineRange),
}

/// A symbol occurrence.
pub struct Occurrence {
    /// The untyped range: `[line, start, end]` or `[start line, start, end line, end]`.
    pub range: Vec<i32>,
    /// The typed range, which wins over `range` when present.
    pub typed_range: Option<TypedRange>,
    pub symbol: String,
    pub symbol_roles: i32,
    /// The raw syntax kind number; 0 is unspecified.
    pub syntax_kind: i32,
    /// The occurrence as encoded in the index; equal encodings are the same occurrence.
    pub encoded: Vec<u8>,
}

/// Information about a symbol.
pub struct SymbolInformation {
    pub symbol: String,
    /// Markdown sections.
    pub documentation: Vec<String>,
    /// The information as encoded in the index; equal encodings are the same information.
    pub encoded: Vec<u8>,
}

/// One source document of the index.
pub struct Document {
    pub language: String,
    pub relative_path: String,
    pub occurrences: Vec<Occurrence>,
    pub symbols: Vec<SymbolInformation>,
    /// The text embedded in the index; empty when the index holds none.
    pub text: String,
    /// The raw position encoding number.
    pub position_encoding: i32,
}

/// An occurrence as plain values.
pub struct OccurrenceView {
    pub range: Seq<i32>,
    pub typed_range: Option<TypedRange>,
    pub symbol: Seq<char>,
    pub symbol_roles: i32,
    pub syntax_kind: i32,
    pub encoded: Seq<u8>,
}

impl View for Occurrence {
    type V = OccurrenceView;

    open spec fn view(&self) -> OccurrenceView {
        OccurrenceView {
            range: self.range@,
            typed_range: self.typed_range,
            symbol: self.symbol@,
            symbol_roles: self.symbol_roles,
            syntax_kind: self.syntax_kind,
            encoded: self.encoded@,
        }
    }
}

/// A symbol information as plain values.
pub struct SymbolView {
    pub symbol: Seq<char>,
    pub documentation: Seq<Seq<char>>,
    pub encoded: Seq<u8>,
}

impl View for SymbolInformation {
    type V = SymbolView;

    open spec fn view(&self) -> SymbolView {
        SymbolView {
            symbol: self.symbol@,
            documentation: self.documentation@.map_values(|d: String| d@),
            encoded: self.encoded@,
        }
    }
}

/// A document entirely as plain values.
pub struct DocumentValues {
    pub language: Seq<char>,
    pub relative_path: Seq<char>,
    pub occurrences: Seq<OccurrenceView>,
    pub symbols: Seq<SymbolView>,
    pub text: Seq<char>,
    pub position_encoding: i32,
}

/// The plain values of a document.
pub open spec fn document_values(d: Document) -> DocumentValues {
    DocumentValues {
        language: d.language@,
        relative_path: d.relative_path@,
        occurrences: d.occurrences@.map_values(|o: Occurrence| o@),
        symbols: d.symbols@.map_values(|s: SymbolInformation| s@),
        text: d.text@,
        position_encoding: d.position_encoding,
    }
}

/// A document as plain values: its texts by their characters, its occurrences and symbol
/// informations as they are.
pub struct DocumentView {
    pub language: Seq<char>,
    pub relative_path: Seq<char>,
    pub occurrences: Seq<Occurrence>,
    pub symbols: Seq<SymbolInformation>,
    pub text: Seq<char>,
    pub position_encoding: i32,
}

impl View for Document {
    type V = DocumentView;

    open spec fn view(&self) -> DocumentView {
        DocumentView {
            language: self.language@,
            relative_path: self.relative_path@,
            occurrences: self.occurrences@,
            symbols: self.symbols@,
            text: self.text@,
            position_encoding: self.position_encoding,
        }
    }
}

/// A source range in a document's own encoding.
#[derive(Clone, Copy, Debug, PartialEq, Eq)]
pub struct Range {
    pub start_line: usize,
    pub start_character: usize,
    pub end_line: usize,
    pub end_character: usize,
}

/// The encoding that the raw number `raw` names; unknown numbers read as unspecified.
pub open spec fn encoding_of(raw: i32) -> PositionEncoding {
    if raw == 1 {
        PositionEncoding::UTF8CodeUnitOffsetFromLineStart
    } else if raw == 2 {
        PositionEncoding::UTF16CodeUnitOffsetFromLineStart
    } else if raw == 3 {
        PositionEncoding::UTF32CodeUnitOffsetFromLineStart
    } else {
        PositionEncoding::UnspecifiedPositionEncoding
    }
}

/// The encoding of a document's columns.
pub fn document_encoding(raw: i32) -> (res: PositionEncoding)
    ensures
        res == encoding_of(raw),
{
    if raw == 1 {
        PositionEncoding::UTF8CodeUnitOffsetFromLineStart
    } else if raw == 2 {
        PositionEncoding::UTF16CodeUnitOffsetFromLineStart
    } else if raw == 3 {
        PositionEncoding::UTF32CodeUnitOffsetFromLineStart
    } else {
        PositionEncoding::UnspecifiedPositionEncoding
    }
}

/// The range made of four numbers, when none is negative.
pub open spec fn range_from(a: i32, b: i32, c: i32, d: i32) -> Option<Range> {
    if a >= 0 && b >= 0 && c >= 0 && d >= 0 {
        Some(
            Range {
                start_line: a as usize,
                start_character: b as usize,
                end_line: c as usize,
                end_character: d as usize,
            },
        )
    } else {
        None
    }
}

/// The range of an occurrence: its typed range when it has one, else its three- or
/// four-number range; none when a number is negative or the untyped range has another length.
pub open spec fn range_of(typed: Option<TypedRange>, range: Seq<i32>) -> Option<Range> {
    match typed {
        Some(TypedRange::SingleLineRange(r)) => range_from(
            r.line,
            r.start_character,
            r.line,
            r.end_character,
        ),
        Some(TypedRange::MultiLineRange(r)) => range_from(
            r.start_line,
            r.start_character,
            r.end_line,
            r.end_character,
        ),
        None => if range.len() == 3 {
            range_from(range[0], range[1], range[0], range[2])
        } else if range.len() == 4 {
            range_from(range[0], range[1], range[2], range[3])
        } else {
            None
        },
    }
}

fn range_from_exec(a: i32, b: i32, c: i32, d: i32) -> (res: Option<Range>)
    ensures
        res == range_from(a, b, c, d),
{
    if a >= 0 && b >= 0 && c >= 0 && d >= 0 {
        Some(
            Range {
                start_line: a as usize,
                start_character: b as usize,
                end_line: c as usize,
                end_character: d as usize,
            },
        )
    } else {
        None
    }
}

/// The range of `value`.
pub fn occurrence_range(value: &Occurrence) -> (res: Option<Range>)
    ensures
        res == range_of(value.typed_range, value.range@),
{
    match value.typed_range {
        Some(TypedRange::SingleLineRange(r)) => range_from_exec(
            r.line,
            r.start_character,
            r.line,
            r.end_character,
        ),
        Some(TypedRange::MultiLineRange(r)) => range_from_exec(
            r.start_line,
            r.start_character,
            r.end_line,
            r.end_character,
        ),
        None => {
            if value.range.len() == 3 {
                range_from_exec(value.range[0], value.range[1], value.range[0], value.range[2])
            } else if value.range.len() == 4 {
                range_from_exec(value.range[0], value.range[1], value.range[2], value.range[3])
            } else {
                None
            }
        },
    }
}

} // verus!
