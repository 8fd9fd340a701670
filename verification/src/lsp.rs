//! Positions, ranges and edits as the editor protocol counts them: lines from
//! zero, and UTF-16 code units within a line.

use vstd::prelude::*;
use crate::collect::{copy_opt, Copied};

verus! {

/// A place in a text document.
#[derive(Clone, Copy, Debug, PartialEq, Eq, Structural)]
pub struct Position {
    pub line: u32,
    pub character: u32,
}

/// The text between two places; `end` is exclusive.
#[derive(Clone, Copy, Debug, PartialEq, Eq, Structural)]
pub struct Range {
    pub start: Position,
    pub end: Position,
}

impl DeepView for Position {
    type V = Position;

    open spec fn deep_view(&self) -> Position {
        *self
    }
}

impl DeepView for Range {
    type V = Range;

    open spec fn deep_view(&self) -> Range {
        *self
    }
}

impl Position {
    /// The position on `line` at `character`.
    pub fn new(line: u32, character: u32) -> (r: Position)
        ensures
            r == (Position { line, character }),
    {
        Position { line, character }
    }

    /// Whether `self` comes no later in the document than `other`.
    pub open spec fn at_or_before(self, other: Position) -> bool {
        self.line < other.line || (self.line == other.line && self.character <= other.character)
    }

    /// Whether `self` comes no later in the document than `other`.
    pub fn is_at_or_before(self, other: Position) -> (r: bool)
        ensures
            r == self.at_or_before(other),
    {
        self.line < other.line || (self.line == other.line && self.character <= other.character)
    }
}

impl Range {
    /// The range from `start` to `end`.
    pub fn new(start: Position, end: Position) -> (r: Range)
        ensures
            r == (Range { start, end }),
    {
        Range { start, end }
    }

    /// Whether `pos` lies in the range, both ends counted in.
    pub open spec fn holds(self, pos: Position) -> bool {
        self.start.at_or_before(pos) && pos.at_or_before(self.end)
    }

    /// Whether `pos` lies in the range, both ends counted in.
    pub fn contains(self, pos: Position) -> (r: bool)
        ensures
            r == self.holds(pos),
    {
        self.start.is_at_or_before(pos) && pos.is_at_or_before(self.end)
    }

    /// Whether `inner` lies inside `self`.
    pub open spec fn covers(self, inner: Range) -> bool {
        self.start.at_or_before(inner.start) && inner.end.at_or_before(self.end)
    }

    /// Whether `inner` lies inside `self`.
    pub fn contains_range(self, inner: Range) -> (r: bool)
        ensures
            r == self.covers(inner),
    {
        self.start.is_at_or_before(inner.start) && inner.end.is_at_or_before(self.end)
    }
}

/// A replacement of the text in a range.
#[derive(Clone, Debug, PartialEq, Eq)]
pub struct TextEdit {
    pub range: Range,
    pub new_text: String,
}

/// What a [`TextEdit`] says.
pub ghost struct TextEditView {
    pub range: Range,
    pub new_text: Seq<char>,
}

impl DeepView for TextEdit {
    type V = TextEditView;

    open spec fn deep_view(&self) -> TextEditView {
        TextEditView { range: self.range, new_text: self.new_text@ }
    }
}

/// How bad a finding is.
#[derive(Clone, Copy, Debug, PartialEq, Eq, Structural)]
pub enum Severity {
    Error,
    Warning,
    Information,
    Hint,
}

/// A finding in a document.
#[derive(Clone, Debug)]
pub struct Diagnostic {
    pub range: Range,
    pub severity: Option<Severity>,
    /// Which lint found it.
    pub code: Option<String>,
    /// Which tool found it.
    pub source: Option<String>,
    pub message: String,
    /// Whether the editor may fade what it covers.
    pub unnecessary: bool,
    /// Whether the editor may strike out what it covers.
    pub deprecated: bool,
}

/// What a [`Diagnostic`] says.
pub ghost struct DiagnosticView {
    pub range: Range,
    pub severity: Option<Severity>,
    pub code: Option<Seq<char>>,
    pub source: Option<Seq<char>>,
    pub message: Seq<char>,
    pub unnecessary: bool,
    pub deprecated: bool,
}

impl DeepView for Diagnostic {
    type V = DiagnosticView;

    open spec fn deep_view(&self) -> DiagnosticView {
        DiagnosticView {
            range: self.range,
            severity: self.severity,
            code: self.code.deep_view(),
            source: self.source.deep_view(),
            message: self.message@,
            unnecessary: self.unnecessary,
            deprecated: self.deprecated,
        }
    }
}

impl Copied for Diagnostic {
    fn copied(&self) -> (r: Self) {
        Diagnostic {
            range: self.range,
            severity: self.severity,
            code: copy_opt(&self.code),
            source: copy_opt(&self.source),
            message: self.message.clone(),
            unnecessary: self.unnecessary,
            deprecated: self.deprecated,
        }
    }
}

/// Positions are in one order, by line and then by column.
pub proof fn law_positions_are_in_one_order(a: Position, b: Position, c: Position)
    ensures
        a.at_or_before(b) || b.at_or_before(a),
        a.at_or_before(b) && b.at_or_before(a) <==> a == b,
        a.at_or_before(b) && b.at_or_before(c) ==> a.at_or_before(c),
        a.line < b.line ==> !b.at_or_before(a),
        a.line == b.line ==> (a.at_or_before(b) <==> a.character <= b.character),
{
}

/// A range holds its two ends and what is between them, and nothing else.
pub proof fn law_range_holds_what_is_between(r: Range, pos: Position)
    requires
        r.start.at_or_before(r.end),
    ensures
        r.holds(r.start),
        r.holds(r.end),
        !r.holds(pos) <==> (pos != r.start && pos.at_or_before(r.start)) || (pos != r.end
            && r.end.at_or_before(pos)),
{
}

/// A range covers another where it holds all that the other holds.
pub proof fn law_covering_is_holding_all(r: Range, inner: Range)
    requires
        inner.start.at_or_before(inner.end),
    ensures
        r.covers(inner) <==> forall|pos: Position| #[trigger] inner.holds(pos) ==> r.holds(pos),
{
    assert(inner.holds(inner.start) && inner.holds(inner.end));
}

}
