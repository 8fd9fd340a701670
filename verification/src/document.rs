//! The open documents: their text, and what stands at a position of it.

use vstd::prelude::*;
use vstd::utf8::encode_utf8;
use dashmap::DashMap;
use ropey::Rope;
use crate::chars::{alphanumeric, is_alphanumeric};
use crate::collect::{strs, Copied};
use crate::index::store::{
    counts_held, map_get, map_insert, map_keys, map_remove, new_counters, versions_held, Held,
};
use crate::lsp::{Position, Range};
use crate::rope::{
    lemma_line_start, line_at, line_count, line_ends, line_start, rope_char_to_byte,
    rope_char_to_line, rope_from_str, rope_insert, rope_len_chars, rope_len_lines, rope_line,
    rope_line_to_char, rope_prefix, rope_remove, rope_string, rope_text, text_len, without_end,
};
use crate::syntax::{parse_source, syntax_of, Form, FormView};
use crate::text::{
    chars_of, last_index, lemma_bytes_cover_chars, lemma_encode_concat, lemma_last_index,
    string_of, utf16_len, utf16_width,
};

verus! {

/// Whether `c` can stand in a Clojure identifier.
pub open spec fn ident_char(c: char) -> bool {
    ||| alphanumeric(c)
    ||| c == '-' || c == '_' || c == '/' || c == '.' || c == '?'
    ||| c == '!' || c == '*' || c == '+' || c == '>' || c == '<'
    ||| c == '=' || c == '#' || c == '\'' || c == '&' || c == '%'
}

/// Whether `c` can stand in a Clojure identifier.
pub fn is_clj_ident_char(c: char) -> (r: bool)
    ensures
        r == ident_char(c),
{
    is_alphanumeric(c) || c == '-' || c == '_' || c == '/' || c == '.' || c == '?' || c == '!' || c
        == '*' || c == '+' || c == '>' || c == '<' || c == '=' || c == '#' || c == '\'' || c == '&'
        || c == '%'
}

/// The first character of `cs`, from `i` on, before which at least `units` UTF-16
/// code units stand; the end of `cs` where there is none.
pub open spec fn col_from(cs: Seq<char>, units: nat, i: nat) -> nat
    decreases cs.len() - i,
{
    if i >= cs.len() {
        cs.len()
    } else if utf16_len(cs.take(i as int)) >= units {
        i
    } else {
        col_from(cs, units, i + 1)
    }
}

/// The character of the line `cs` at a UTF-16 column.
pub open spec fn char_col(cs: Seq<char>, units: nat) -> nat {
    col_from(cs, units, 0)
}

/// The UTF-16 column of a character of the line `cs`.
pub open spec fn utf16_col(cs: Seq<char>, col: nat) -> nat {
    utf16_len(cs.take(if col <= cs.len() {
        col as int
    } else {
        cs.len() as int
    }))
}

proof fn lemma_utf16_step(cs: Seq<char>, i: int)
    requires
        0 <= i < cs.len(),
    ensures
        utf16_len(cs.take(i + 1)) == utf16_len(cs.take(i)) + utf16_width(cs[i]),
{
    assert(cs.take(i + 1).drop_last() =~= cs.take(i));
}

proof fn lemma_utf16_increases(cs: Seq<char>, i: int, j: int)
    requires
        0 <= i < j <= cs.len(),
    ensures
        utf16_len(cs.take(i)) < utf16_len(cs.take(j)),
    decreases j - i,
{
    lemma_utf16_step(cs, j - 1);
    if i < j - 1 {
        lemma_utf16_increases(cs, i, j - 1);
    }
}

proof fn lemma_col_from(cs: Seq<char>, units: nat, i: nat)
    requires
        i <= cs.len(),
    ensures
        i <= col_from(cs, units, i) <= cs.len(),
        col_from(cs, units, i) < cs.len() ==> utf16_len(
            cs.take(col_from(cs, units, i) as int),
        ) >= units,
        forall|j: int|
            i <= j < col_from(cs, units, i) ==> utf16_len(#[trigger] cs.take(j)) < units,
    decreases cs.len() - i,
{
    if i < cs.len() && utf16_len(cs.take(i as int)) < units {
        lemma_col_from(cs, units, i + 1);
    }
}

/// A character's column leads back to the character.
pub proof fn law_char_col_undoes_utf16_col(cs: Seq<char>, col: nat)
    requires
        col <= cs.len(),
    ensures
        char_col(cs, utf16_col(cs, col)) == col,
{
    let units = utf16_col(cs, col);
    let c = char_col(cs, units);
    lemma_col_from(cs, units, 0);
    if c < col {
        lemma_utf16_increases(cs, c as int, col as int);
    } else if col < c {
        assert(utf16_len(cs.take(col as int)) < units);
    }
}

/// A column within the line leads to a character that starts no earlier, and fewer
/// than two code units later.
pub proof fn law_utf16_col_rounds_char_col_up(cs: Seq<char>, units: nat)
    requires
        units <= utf16_len(cs),
    ensures
        units <= utf16_col(cs, char_col(cs, units)) < units + 2,
{
    let c = char_col(cs, units);
    lemma_col_from(cs, units, 0);
    assert(cs.take(cs.len() as int) =~= cs);
    if c > 0 {
        assert(utf16_len(cs.take(c - 1)) < units);
        lemma_utf16_step(cs, c - 1);
    } else {
        assert(cs.take(0).len() == 0);
    }
}

/// Columns grow along a line.
pub proof fn lemma_char_col_grows(cs: Seq<char>, a: nat, b: nat)
    requires
        a <= b,
    ensures
        char_col(cs, a) <= char_col(cs, b) <= cs.len(),
{
    lemma_col_from(cs, a, 0);
    lemma_col_from(cs, b, 0);
    let (i, j) = (char_col(cs, a), char_col(cs, b));
    if j < i {
        assert(utf16_len(cs.take(j as int)) < a);
    }
}

/// The character of the line `chars` at a UTF-16 column; the line's end for a
/// column past it.
pub fn utf16_col_to_char(chars: &[char], utf16_col: usize) -> (r: usize)
    ensures
        r == char_col(chars@, utf16_col as nat),
        r <= chars@.len(),
{
    proof {
        lemma_col_from(chars@, utf16_col as nat, 0);
        assert(chars@.take(0).len() == 0);
    }
    let mut units: u128 = 0;
    let mut i: usize = 0;
    while i < chars.len()
        invariant
            i <= chars@.len(),
            units == utf16_len(chars@.take(i as int)),
            units <= 2 * i,
            char_col(chars@, utf16_col as nat) == col_from(chars@, utf16_col as nat, i as nat),
        decreases chars@.len() - i,
    {
        if units >= utf16_col as u128 {
            return i;
        }
        proof {
            lemma_utf16_step(chars@, i as int);
        }
        units += if (chars[i] as u32) < 0x10000 { 1 } else { 2 };
        i += 1;
    }
    chars.len()
}

/// The UTF-16 column of a character of the line `chars`, as far as 32 bits hold it.
pub fn char_col_to_utf16(chars: &[char], col: usize) -> (r: u32)
    ensures
        r == utf16_col(chars@, col as nat) as u32,
{
    let end: usize = if col <= chars.len() {
        col
    } else {
        chars.len()
    };
    let mut units: u128 = 0;
    let mut i: usize = 0;
    assert(chars@.take(0).len() == 0);
    while i < end
        invariant
            i <= end <= chars@.len(),
            units == utf16_len(chars@.take(i as int)),
            units <= 2 * i,
        decreases end - i,
    {
        proof {
            lemma_utf16_step(chars@, i as int);
        }
        units += if (chars[i] as u32) < 0x10000 { 1 } else { 2 };
        i += 1;
    }
    #[verifier::truncate]
    let r: u32 = units as u32;
    r
}

/// Where in `t` a position lies; `None` past the last line. A column past the text of its
/// line lies behind that text, in front of what ends the line.
pub open spec fn position_index(t: Seq<char>, pos: Position) -> Option<nat> {
    if pos.line < line_count(t) {
        Some(
            line_start(t, pos.line as nat) + char_col(
                without_end(line_at(t, pos.line as nat)),
                pos.character as nat,
            ),
        )
    } else {
        None
    }
}

/// Positions that come later in the document lie later in its text.
pub proof fn law_position_index_grows(t: Seq<char>, a: Position, b: Position)
    requires
        a.at_or_before(b),
        position_index(t, b) is Some,
    ensures
        position_index(t, a) is Some,
        position_index(t, a)->0 <= position_index(t, b)->0 <= t.len(),
{
    let (i, j) = (a.line as nat, b.line as nat);
    lemma_line_start(t, i, j);
    lemma_line_start(t, i, i + 1);
    lemma_line_start(t, j, j + 1);
    if i == j {
        lemma_char_col_grows(without_end(line_at(t, i)), a.character as nat, b.character as nat);
    } else {
        lemma_char_col_grows(without_end(line_at(t, i)), a.character as nat, a.character as nat);
        lemma_char_col_grows(without_end(line_at(t, j)), b.character as nat, b.character as nat);
        lemma_line_start(t, i + 1, j);
    }
}

/// A column past the text of its line stays on that line.
pub proof fn law_past_column_stays_on_line(t: Seq<char>, pos: Position)
    requires
        pos.line < line_count(t),
        utf16_len(without_end(line_at(t, pos.line as nat))) <= pos.character,
    ensures
        position_index(t, pos) == Some(
            line_start(t, pos.line as nat) + without_end(line_at(t, pos.line as nat)).len(),
        ),
{
    let cs = without_end(line_at(t, pos.line as nat));
    let c = char_col(cs, pos.character as nat);
    lemma_col_from(cs, pos.character as nat, 0);
    if c < cs.len() {
        lemma_utf16_increases(cs, c as int, cs.len() as int);
        assert(cs.take(cs.len() as int) =~= cs);
    }
}

/// Where in the rope a position lies.
pub fn position_to_char(rope: &Rope, pos: Position) -> (r: Option<usize>)
    ensures
        match r {
            Some(i) => position_index(rope_text(*rope), pos) == Some(i as nat) && i <= rope_text(
                *rope,
            ).len(),
            None => position_index(rope_text(*rope), pos) is None,
        },
{
    let ghost t = rope_text(*rope);
    let line_idx: usize = pos.line as usize;
    if line_idx >= rope_len_lines(rope) {
        return None;
    }
    let mut chars = chars_of(rope_line(rope, line_idx).as_str());
    let end: usize = text_len(&chars);
    chars.truncate(end);
    let col: usize = utf16_col_to_char(&chars, pos.character as usize);
    proof {
        law_position_index_grows(t, pos, pos);
    }
    let len: usize = rope_len_chars(rope);
    assert(len == t.len());
    let start: usize = rope_line_to_char(rope, line_idx);
    Some(start + col)
}

/// A change of a document: the text of a range is replaced, or the whole text where
/// no range is given.
#[derive(Clone, Debug)]
pub struct ContentChange {
    pub range: Option<Range>,
    pub text: String,
}

/// What a [`ContentChange`] says.
pub ghost struct ChangeView {
    pub range: Option<Range>,
    pub text: Seq<char>,
}

impl DeepView for ContentChange {
    type V = ChangeView;

    open spec fn deep_view(&self) -> ChangeView {
        ChangeView { range: self.range, text: self.text@ }
    }
}

/// Why changes were not all applied.
#[derive(Clone, Debug)]
pub enum ChangeError {
    /// No document is open under the name.
    NotOpen(String),
    /// The position lies past the document's last line.
    OutOfRange(Position),
}

/// The text `t` once `s` stands in place of its characters `from..to`.
pub open spec fn replaced(t: Seq<char>, from: nat, to: nat, s: Seq<char>) -> Seq<char> {
    t.take(from as int) + s + t.skip(to as int)
}

/// The text `t` after the change `c`, or the position of `c` that lies past `t`.
pub open spec fn changed(t: Seq<char>, c: ChangeView) -> Result<Seq<char>, Position> {
    match c.range {
        Some(range) => match position_index(t, range.start) {
            Some(from) => match position_index(t, range.end) {
                Some(to) => Ok(replaced(t, from, to, c.text)),
                None => Err(range.end),
            },
            None => Err(range.start),
        },
        None => Ok(c.text),
    }
}

/// The text `t` after the first `n` of the changes `cs`, and the first position that
/// lay past it. The changes after that one are not applied.
pub open spec fn all_changed(t: Seq<char>, cs: Seq<ChangeView>, n: nat) -> (
    Seq<char>,
    Option<Position>,
)
    decreases n,
{
    if n == 0 {
        (t, None)
    } else {
        let (u, stopped) = all_changed(t, cs, (n - 1) as nat);
        match stopped {
            Some(_) => (u, stopped),
            None => match changed(u, cs[n - 1]) {
                Ok(w) => (w, None),
                Err(pos) => (u, Some(pos)),
            },
        }
    }
}

proof fn lemma_stopped(t: Seq<char>, cs: Seq<ChangeView>, m: nat, n: nat)
    requires
        m <= n,
        all_changed(t, cs, m).1 is Some,
    ensures
        all_changed(t, cs, n) == all_changed(t, cs, m),
    decreases n,
{
    if m < n {
        lemma_stopped(t, cs, m, (n - 1) as nat);
    }
}

/// Changes handed over in two goes do what they do in one, as long as none of the
/// first go lies past the text.
pub proof fn law_changes_apply_in_order(t: Seq<char>, a: Seq<ChangeView>, b: Seq<ChangeView>)
    requires
        all_changed(t, a, a.len()).1 is None,
    ensures
        all_changed(t, a + b, (a + b).len()) == all_changed(
            all_changed(t, a, a.len()).0,
            b,
            b.len(),
        ),
{
    lemma_same_prefix(t, a, b, a.len());
    lemma_second_go(t, a, b, b.len());
}

proof fn lemma_same_prefix(t: Seq<char>, a: Seq<ChangeView>, b: Seq<ChangeView>, n: nat)
    requires
        n <= a.len(),
    ensures
        all_changed(t, a + b, n) == all_changed(t, a, n),
    decreases n,
{
    if n > 0 {
        lemma_same_prefix(t, a, b, (n - 1) as nat);
        assert((a + b)[n - 1] == a[n - 1]);
    }
}

proof fn lemma_second_go(t: Seq<char>, a: Seq<ChangeView>, b: Seq<ChangeView>, n: nat)
    requires
        n <= b.len(),
        all_changed(t, a, a.len()).1 is None,
        all_changed(t, a + b, a.len()) == all_changed(t, a, a.len()),
    ensures
        all_changed(t, a + b, a.len() + n) == all_changed(all_changed(t, a, a.len()).0, b, n),
    decreases n,
{
    if n > 0 {
        lemma_second_go(t, a, b, (n - 1) as nat);
        assert((a + b)[a.len() + n - 1] == b[n - 1]);
    }
}

/// An empty replacement of an empty range leaves the text as it was.
pub proof fn law_empty_change_keeps_text(t: Seq<char>, pos: Position)
    requires
        position_index(t, pos) is Some,
    ensures
        changed(t, ChangeView { range: Some(Range { start: pos, end: pos }), text: seq![] })
            == Ok::<Seq<char>, Position>(t),
{
    law_position_index_grows(t, pos, pos);
    let i = position_index(t, pos)->0;
    assert(replaced(t, i, i, seq![]) =~= t);
}

/// Whether the range of each change runs forwards.
pub open spec fn in_order(cs: Seq<ChangeView>) -> bool {
    forall|i: int|
        0 <= i < cs.len() ==> ((#[trigger] cs[i]).range matches Some(range)
            ==> range.start.at_or_before(range.end))
}

fn apply_change(rope: &mut Rope, change: &ContentChange) -> (r: Result<(), Position>)
    requires
        change.range matches Some(range) ==> range.start.at_or_before(range.end),
    ensures
        match r {
            Ok(_) => changed(rope_text(*old(rope)), change.deep_view()) == Ok::<
                Seq<char>,
                Position,
            >(rope_text(*final(rope))),
            Err(pos) => changed(rope_text(*old(rope)), change.deep_view()) == Err::<
                Seq<char>,
                Position,
            >(pos) && rope_text(*final(rope)) == rope_text(*old(rope)),
        },
{
    let ghost t = rope_text(*rope);
    match change.range {
        Some(range) => {
            let start = match position_to_char(rope, range.start) {
                Some(i) => i,
                None => return Err(range.start),
            };
            let end = match position_to_char(rope, range.end) {
                Some(i) => i,
                None => return Err(range.end),
            };
            proof {
                law_position_index_grows(t, range.start, range.end);
            }
            rope_remove(rope, start, end);
            rope_insert(rope, start, change.text.as_str());
            assert(rope_text(*rope) =~= replaced(t, start as nat, end as nat, change.text@));
            Ok(())
        },
        None => {
            *rope = rope_from_str(change.text.as_str());
            Ok(())
        },
    }
}

/// A row and a byte column.
#[derive(Clone, Copy, Debug, PartialEq, Eq, Structural)]
pub struct Point {
    pub row: usize,
    pub column: usize,
}

/// A replacement of text as the syntax tree counts it.
#[derive(Clone, Copy, Debug, PartialEq, Eq, Structural)]
pub struct InputEdit {
    pub start_byte: usize,
    pub old_end_byte: usize,
    pub new_end_byte: usize,
    pub start_position: Point,
    pub old_end_position: Point,
    pub new_end_position: Point,
}

/// How many bytes of UTF-8 `t` takes.
pub open spec fn byte_len(t: Seq<char>) -> nat {
    encode_utf8(t).len()
}

/// Whether `p` is the row and the byte column of the character `i` of `t`.
pub open spec fn is_point(p: Point, t: Seq<char>, i: nat) -> bool {
    &&& p.row == line_ends(t, i)
    &&& p.column == byte_len(t.take(i as int)) - byte_len(
        t.take(line_start(t, line_ends(t, i)) as int),
    )
}

/// How many `c` stand among the first `n` characters of `s`.
pub open spec fn count_char(s: Seq<char>, c: char, n: nat) -> nat
    decreases n,
{
    if n == 0 {
        0
    } else {
        count_char(s, c, (n - 1) as nat) + (if s[n - 1] == c {
            1nat
        } else {
            0
        })
    }
}

proof fn lemma_line_of(t: Seq<char>, i: nat, n: nat, k: nat)
    requires
        n <= i <= t.len(),
        k + line_ends(t, n) == line_ends(t, i),
    ensures
        crate::rope::after_line_ends(t, k, n) <= i,
    decreases i - n,
{
    if k > 0 && n < t.len() {
        if n < i {
            if crate::rope::ends_line(t, n as int) {
                lemma_line_of(t, i, n + 1, (k - 1) as nat);
            } else {
                lemma_line_of(t, i, n + 1, k);
            }
        }
    }
}

proof fn lemma_bytes_grow(t: Seq<char>, i: int, j: int)
    requires
        0 <= i <= j <= t.len(),
    ensures
        byte_len(t.take(i)) <= byte_len(t.take(j)),
{
    lemma_encode_concat(t.take(i), t.subrange(i, j));
    assert(t.take(i) + t.subrange(i, j) =~= t.take(j));
}

fn point_at(rope: &Rope, i: usize) -> (r: Point)
    requires
        i <= rope_text(*rope).len(),
    ensures
        is_point(r, rope_text(*rope), i as nat),
{
    let ghost t = rope_text(*rope);
    let row: usize = rope_char_to_line(rope, i);
    proof {
        lemma_ends_below(t, i as nat);
        lemma_line_of(t, i as nat, 0, row as nat);
        lemma_bytes_grow(t, line_start(t, row as nat) as int, i as int);
    }
    let start: usize = rope_line_to_char(rope, row);
    let column: usize = rope_char_to_byte(rope, i) - rope_char_to_byte(rope, start);
    Point { row, column }
}

proof fn lemma_ends_below(t: Seq<char>, i: nat)
    requires
        i <= t.len(),
    ensures
        line_ends(t, i) < line_count(t),
        line_ends(t, i) <= i,
    decreases t.len() - i, i,
{
    if i < t.len() {
        lemma_ends_below(t, i + 1);
    }
    lemma_ends_at_most(t, i);
}

proof fn lemma_ends_at_most(t: Seq<char>, i: nat)
    ensures
        line_ends(t, i) <= i,
    decreases i,
{
    if i > 0 {
        lemma_ends_at_most(t, (i - 1) as nat);
    }
}

/// Where the text that the edit puts in ends, seen from where it starts.
pub open spec fn inserted_end(start: Point, text: Seq<char>, end: Point) -> bool {
    match last_index(text, '\n', text.len()) {
        Some(i) => end.row == start.row + count_char(text, '\n', text.len()) && end.column
            == byte_len(text.skip(i as int + 1)),
        None => end.row == start.row && end.column == start.column + byte_len(text),
    }
}

/// The replacement of the characters `start..end` of the rope by `text`, as the
/// syntax tree counts it.
pub fn input_edit(rope: &Rope, start: usize, end: usize, text: &str) -> (r: InputEdit)
    requires
        start <= end <= rope_text(*rope).len(),
        byte_len(rope_text(*rope)) + byte_len(text@) <= usize::MAX,
    ensures
        r.start_byte == byte_len(rope_text(*rope).take(start as int)),
        r.old_end_byte == byte_len(rope_text(*rope).take(end as int)),
        r.new_end_byte == r.start_byte + byte_len(text@),
        is_point(r.start_position, rope_text(*rope), start as nat),
        is_point(r.old_end_position, rope_text(*rope), end as nat),
        inserted_end(r.start_position, text@, r.new_end_position),
{
    let ghost t = rope_text(*rope);
    proof {
        lemma_bytes_grow(t, start as int, t.len() as int);
        assert(t.take(t.len() as int) =~= t);
        lemma_bytes_cover_chars(t);
        lemma_bytes_cover_chars(text@);
        lemma_ends_below(t, start as nat);
        lemma_last_index(text@, '\n', text@.len());
    }
    let start_byte: usize = rope_char_to_byte(rope, start);
    let old_end_byte: usize = rope_char_to_byte(rope, end);
    let start_position = point_at(rope, start);
    let bytes: usize = text.len();
    let chars = chars_of(text);
    let len: usize = chars.len();
    let mut newlines: usize = 0;
    let mut last: Option<usize> = None;
    let mut i: usize = 0;
    while i < len
        invariant
            i <= len == chars@.len(),
            chars@ == text@,
            newlines == count_char(text@, '\n', i as nat),
            newlines <= i,
            match last {
                Some(j) => last_index(text@, '\n', i as nat) == Some(j as nat) && j < i,
                None => last_index(text@, '\n', i as nat) is None,
            },
        decreases len - i,
    {
        if chars[i] == '\n' {
            newlines += 1;
            last = Some(i);
        }
        i += 1;
    }
    let new_end_position = match last {
        Some(j) => {
            let tail = string_of(&chars, j + 1, len);
            assert(tail@ =~= text@.skip(j as int + 1));
            proof {
                lemma_encode_concat(text@.take(j as int + 1), tail@);
                assert(text@.take(j as int + 1) + tail@ =~= text@);
            }
            Point { row: start_position.row + newlines, column: tail.as_str().len() }
        },
        None => Point { row: start_position.row, column: start_position.column + bytes },
    };
    InputEdit {
        start_byte,
        old_end_byte,
        new_end_byte: start_byte + bytes,
        start_position,
        old_end_position: point_at(rope, end),
        new_end_position,
    }
}

/// In the text after an edit, what the edit put in ends at the byte that it names.
pub proof fn law_edit_names_the_new_end(t: Seq<char>, from: nat, to: nat, s: Seq<char>)
    requires
        from <= to <= t.len(),
    ensures
        byte_len(replaced(t, from, to, s).take((from + s.len()) as int)) == byte_len(
            t.take(from as int),
        ) + byte_len(s),
{
    lemma_encode_concat(t.take(from as int), s);
    assert(replaced(t, from, to, s).take((from + s.len()) as int) =~= t.take(from as int) + s);
}

/// Where the identifier that reaches up to `i` starts.
pub open spec fn ident_start(cs: Seq<char>, i: nat) -> nat
    decreases i,
{
    if 0 < i <= cs.len() && ident_char(cs[i - 1]) {
        ident_start(cs, (i - 1) as nat)
    } else {
        i
    }
}

/// Where the identifier that goes on at `i` ends.
pub open spec fn ident_end(cs: Seq<char>, i: nat) -> nat
    decreases cs.len() - i,
{
    if i < cs.len() && ident_char(cs[i as int]) {
        ident_end(cs, i + 1)
    } else {
        i
    }
}

fn scan_back(chars: &[char], col: usize) -> (r: usize)
    requires
        col <= chars@.len(),
    ensures
        r == ident_start(chars@, col as nat),
        r <= col,
{
    let mut start: usize = col;
    while start > 0 && is_clj_ident_char(chars[start - 1])
        invariant
            start <= col <= chars@.len(),
            ident_start(chars@, col as nat) == ident_start(chars@, start as nat),
        decreases start,
    {
        start -= 1;
    }
    start
}

fn scan_on(chars: &[char], col: usize) -> (r: usize)
    requires
        col <= chars@.len(),
    ensures
        r == ident_end(chars@, col as nat),
        col <= r <= chars@.len(),
{
    let mut end: usize = col;
    while end < chars.len() && is_clj_ident_char(chars[end])
        invariant
            col <= end <= chars@.len(),
            ident_end(chars@, col as nat) == ident_end(chars@, end as nat),
        decreases chars@.len() - end,
    {
        end += 1;
    }
    end
}

/// The identifier of the line `cs` that the character `col` touches.
pub open spec fn word_in(cs: Seq<char>, col: nat) -> Option<Seq<char>> {
    let (start, end) = (ident_start(cs, col), ident_end(cs, col));
    if start == end {
        None
    } else {
        Some(cs.subrange(start as int, end as int))
    }
}

/// The identifier of a line that a UTF-16 column touches.
pub fn word_in_line(line: &str, character: u32) -> (r: Option<String>)
    ensures
        r.deep_view() == word_in(line@, char_col(line@, character as nat)),
{
    let chars = chars_of(line);
    let col: usize = utf16_col_to_char(&chars, character as usize);
    let start: usize = scan_back(&chars, col);
    let end: usize = scan_on(&chars, col);
    if start == end {
        None
    } else {
        Some(string_of(&chars, start, end))
    }
}

/// The keyword token under the cursor.
#[derive(Clone, Debug)]
pub struct KeywordContext {
    /// Whether the token is auto-resolved (`::name`) rather than plain (`:name`).
    pub auto_resolved: bool,
    /// What follows the marker up to the cursor.
    pub text: String,
    /// Where the first `:` of the token stands.
    pub start: Position,
    /// Where the whole token ends.
    pub end: Position,
}

/// What a [`KeywordContext`] says.
pub ghost struct KeywordView {
    pub auto_resolved: bool,
    pub text: Seq<char>,
    pub start: Position,
    pub end: Position,
}

impl DeepView for KeywordContext {
    type V = KeywordView;

    open spec fn deep_view(&self) -> KeywordView {
        KeywordView {
            auto_resolved: self.auto_resolved,
            text: self.text@,
            start: self.start,
            end: self.end,
        }
    }
}

/// The position of a character of the line `cs`.
pub open spec fn col_position(line: u32, cs: Seq<char>, col: nat) -> Position {
    Position { line, character: utf16_col(cs, col) as u32 }
}

/// The keyword of the line `cs` in which the character `col` lies.
pub open spec fn keyword_in(line: u32, cs: Seq<char>, col: nat) -> Option<KeywordView> {
    let start = ident_start(cs, col);
    if start == 0 || cs[start - 1] != ':' {
        None
    } else {
        let auto_resolved = start > 1 && cs[start - 2] == ':';
        let marker = if auto_resolved {
            (start - 2) as nat
        } else {
            (start - 1) as nat
        };
        Some(
            KeywordView {
                auto_resolved,
                text: cs.subrange(start as int, col as int),
                start: col_position(line, cs, marker),
                end: col_position(line, cs, ident_end(cs, col)),
            },
        )
    }
}

/// The keyword of a line in which a UTF-16 column lies.
pub fn keyword_in_line(text: &str, line: u32, character: u32) -> (r: Option<KeywordContext>)
    ensures
        r.deep_view() == keyword_in(line, text@, char_col(text@, character as nat)),
{
    let chars = chars_of(text);
    let col: usize = utf16_col_to_char(&chars, character as usize);
    let start: usize = scan_back(&chars, col);
    if start == 0 || chars[start - 1] != ':' {
        return None;
    }
    let auto_resolved = start > 1 && chars[start - 2] == ':';
    let marker: usize = if auto_resolved {
        start - 2
    } else {
        start - 1
    };
    let end: usize = scan_on(&chars, col);
    Some(
        KeywordContext {
            auto_resolved,
            text: string_of(&chars, start, col),
            start: Position::new(line, char_col_to_utf16(&chars, marker)),
            end: Position::new(line, char_col_to_utf16(&chars, end)),
        },
    )
}

/// A document's text and the tree of exactly that text.
pub struct Snapshot {
    pub text: String,
    pub tree: Form,
}

impl Snapshot {
    /// Whether the tree is that of the text.
    pub open spec fn in_step(&self) -> bool {
        syntax_of(self.text@) == Some(self.tree@)
    }

    /// A snapshot of `text`; `None` only where the text cannot be parsed.
    pub fn parse(text: &str) -> (r: Option<Snapshot>)
        ensures
            match r {
                Some(s) => s.text@ == text@ && s.in_step(),
                None => syntax_of(text@) is None,
            },
    {
        match parse_source(text) {
            Some(tree) => Some(Snapshot { text: text.to_owned(), tree }),
            None => None,
        }
    }
}

/// One open document.
pub struct Doc {
    rope: Rope,
}

impl DeepView for Doc {
    type V = Seq<char>;

    closed spec fn deep_view(&self) -> Seq<char> {
        rope_text(self.rope)
    }
}

impl Copied for Doc {
    fn copied(&self) -> (r: Self) {
        Doc { rope: self.rope.clone() }
    }
}

/// The texts of a map of documents.
pub uninterp spec fn docs_held(m: DashMap<String, Doc>) -> Map<Seq<char>, Seq<char>>;

impl Held for Doc {
    open spec fn held(m: DashMap<String, Doc>) -> Map<Seq<char>, Seq<char>> {
        docs_held(m)
    }
}

/// `dashmap::DashMap::new`, of documents: the map is empty.
#[verifier::external_body]
fn new_docs() -> (r: DashMap<String, Doc>)
    ensures
        (docs_held(r) == Map::<Seq<char>, Seq<char>>::empty()),
{
    DashMap::new()
}

/// The open documents.
pub struct DocumentStore {
    docs: DashMap<String, Doc>,
    versions: DashMap<String, i32>,
    lint_epochs: DashMap<String, u64>,
}

/// What a [`DocumentStore`] holds: each open document's text, the version that the
/// editor gave it, and how many passes of the linter it has started.
pub ghost struct StoreView {
    pub docs: Map<Seq<char>, Seq<char>>,
    pub versions: Map<Seq<char>, i32>,
    pub epochs: Map<Seq<char>, u64>,
}

impl StoreView {
    /// How many passes of the linter the document has started.
    pub open spec fn epoch(self, uri: Seq<char>) -> u64 {
        if self.epochs.dom().contains(uri) {
            self.epochs[uri]
        } else {
            0
        }
    }

    /// The text of an open document.
    pub open spec fn text(self, uri: Seq<char>) -> Option<Seq<char>> {
        if self.docs.dom().contains(uri) {
            Some(self.docs[uri])
        } else {
            None
        }
    }

    /// A line of an open document.
    pub open spec fn line(self, uri: Seq<char>, line: u32) -> Option<Seq<char>> {
        if self.docs.dom().contains(uri) && line < line_count(self.docs[uri]) {
            Some(line_at(self.docs[uri], line as nat))
        } else {
            None
        }
    }

    /// The identifier at a position of an open document.
    pub open spec fn word(self, uri: Seq<char>, pos: Position) -> Option<Seq<char>> {
        match self.line(uri, pos.line) {
            Some(cs) => word_in(cs, char_col(cs, pos.character as nat)),
            None => None,
        }
    }

    /// The tree of an open document.
    pub open spec fn tree(self, uri: Seq<char>) -> Option<FormView> {
        match self.text(uri) {
            Some(text) => syntax_of(text),
            None => None,
        }
    }

    /// The keyword at a position of an open document.
    pub open spec fn keyword(self, uri: Seq<char>, pos: Position) -> Option<KeywordView> {
        match self.line(uri, pos.line) {
            Some(cs) => keyword_in(pos.line, cs, char_col(cs, pos.character as nat)),
            None => None,
        }
    }
}

impl View for DocumentStore {
    type V = StoreView;

    closed spec fn view(&self) -> StoreView {
        StoreView {
            docs: docs_held(self.docs),
            versions: versions_held(self.versions),
            epochs: counts_held(self.lint_epochs),
        }
    }
}

impl DocumentStore {
    /// A store without documents.
    pub fn new() -> (r: DocumentStore)
        ensures
            r@.docs == Map::<Seq<char>, Seq<char>>::empty(),
            r@.versions == Map::<Seq<char>, i32>::empty(),
            r@.epochs == Map::<Seq<char>, u64>::empty(),
    {
        let (lint_epochs, versions) = new_counters();
        DocumentStore { docs: new_docs(), versions, lint_epochs }
    }

    /// Opens a document, or replaces the text of one that is open.
    pub fn open(&mut self, uri: String, text: String)
        ensures
            final(self)@ == (StoreView {
                docs: old(self)@.docs.insert(uri@, text@),
                ..old(self)@
            }),
    {
        let rope = rope_from_str(text.as_str());
        map_insert(&mut self.docs, uri, Doc { rope });
    }

    /// Closes a document and forgets everything about it.
    pub fn close(&mut self, uri: &str)
        ensures
            final(self)@ == (StoreView {
                docs: old(self)@.docs.remove(uri@),
                versions: old(self)@.versions.remove(uri@),
                epochs: old(self)@.epochs.remove(uri@),
            }),
    {
        let _ = map_remove(&mut self.docs, uri);
        let _ = map_remove(&mut self.versions, uri);
        let _ = map_remove(&mut self.lint_epochs, uri);
    }

    /// Records the version that the editor gives a document.
    pub fn set_version(&mut self, uri: &str, version: i32)
        ensures
            final(self)@ == (StoreView {
                versions: old(self)@.versions.insert(uri@, version),
                ..old(self)@
            }),
    {
        map_insert(&mut self.versions, uri.to_owned(), version);
    }

    /// The version last recorded for a document.
    pub fn current_version(&self, uri: &str) -> (r: Option<i32>)
        ensures
            r == (if self@.versions.dom().contains(uri@) {
                Some(self@.versions[uri@])
            } else {
                None
            }),
    {
        map_get(&self.versions, uri)
    }

    /// Retires every lint pass still pending for a document, and gives the epoch of
    /// the next one.
    pub fn bump_lint_epoch(&mut self, uri: &str) -> (r: u64)
        requires
            old(self)@.epoch(uri@) < u64::MAX,
        ensures
            r == old(self)@.epoch(uri@) + 1,
            final(self)@ == (StoreView {
                epochs: old(self)@.epochs.insert(uri@, r),
                ..old(self)@
            }),
    {
        let next: u64 = self.lint_epoch(uri) + 1;
        map_insert(&mut self.lint_epochs, uri.to_owned(), next);
        next
    }

    /// The current lint epoch of a document. A pass that carries another one has been
    /// superseded.
    pub fn lint_epoch(&self, uri: &str) -> (r: u64)
        ensures
            r == self@.epoch(uri@),
    {
        match map_get(&self.lint_epochs, uri) {
            Some(n) => n,
            None => 0,
        }
    }

    /// Applies the editor's changes in order, up to the first that lies past the text.
    pub fn apply_changes(&mut self, uri: &str, changes: &[ContentChange]) -> (r: Result<
        (),
        ChangeError,
    >)
        requires
            in_order(changes.deep_view()),
        ensures
            match r {
                Ok(_) => old(self)@.docs.dom().contains(uri@) && all_changed(
                    old(self)@.docs[uri@],
                    changes.deep_view(),
                    changes@.len(),
                ).1 is None,
                Err(ChangeError::NotOpen(name)) => !old(self)@.docs.dom().contains(uri@) && name@
                    == uri@,
                Err(ChangeError::OutOfRange(pos)) => old(self)@.docs.dom().contains(uri@)
                    && all_changed(
                    old(self)@.docs[uri@],
                    changes.deep_view(),
                    changes@.len(),
                ).1 == Some(pos),
            },
            final(self)@ == (if old(self)@.docs.dom().contains(uri@) {
                StoreView {
                    docs: old(self)@.docs.insert(
                        uri@,
                        all_changed(
                            old(self)@.docs[uri@],
                            changes.deep_view(),
                            changes@.len(),
                        ).0,
                    ),
                    ..old(self)@
                }
            } else {
                old(self)@
            }),
    {
        let doc = match map_get(&self.docs, uri) {
            Some(doc) => doc,
            None => return Err(ChangeError::NotOpen(uri.to_owned())),
        };
        let mut rope = doc.rope;
        let ghost t = rope_text(rope);
        let ghost cs = changes.deep_view();
        let mut i: usize = 0;
        while i < changes.len()
            invariant
                i <= changes@.len(),
                cs == changes.deep_view(),
                in_order(cs),
                all_changed(t, cs, i as nat) == (rope_text(rope), None::<Position>),
                *self == *old(self),
                old(self)@.docs.dom().contains(uri@),
                t == old(self)@.docs[uri@],
            decreases changes@.len() - i,
        {
            assert(cs[i as int] == changes@[i as int].deep_view());
            match apply_change(&mut rope, &changes[i]) {
                Ok(_) => {},
                Err(pos) => {
                    proof {
                        lemma_stopped(t, cs, (i + 1) as nat, changes@.len());
                    }
                    map_insert(&mut self.docs, uri.to_owned(), Doc { rope });
                    return Err(ChangeError::OutOfRange(pos));
                },
            }
            i += 1;
        }
        map_insert(&mut self.docs, uri.to_owned(), Doc { rope });
        Ok(())
    }

    /// The text and the tree of an open document, of one and the same version.
    pub fn snapshot(&self, uri: &str) -> (r: Option<Snapshot>)
        ensures
            match r {
                Some(s) => self@.text(uri@) == Some(s.text@) && s.in_step(),
                None => self@.tree(uri@) is None,
            },
    {
        match self.text(uri) {
            Some(text) => Snapshot::parse(text.as_str()),
            None => None,
        }
    }

    /// The identifier at a position of an open document.
    pub fn word_at(&self, uri: &str, pos: Position) -> (r: Option<String>)
        ensures
            r.deep_view() == self@.word(uri@, pos),
    {
        match self.line_text(uri, pos.line) {
            Some(line) => word_in_line(line.as_str(), pos.character),
            None => None,
        }
    }

    /// Whether the identifier at a position is a keyword.
    pub fn is_keyword_at(&self, uri: &str, pos: Position) -> (r: bool)
        ensures
            r == (self@.keyword(uri@, pos) is Some),
    {
        self.keyword_at(uri, pos).is_some()
    }

    /// The keyword at a position of an open document.
    pub fn keyword_at(&self, uri: &str, pos: Position) -> (r: Option<KeywordContext>)
        ensures
            r.deep_view() == self@.keyword(uri@, pos),
    {
        match self.line_text(uri, pos.line) {
            Some(line) => keyword_in_line(line.as_str(), pos.line, pos.character),
            None => None,
        }
    }

    /// The text of an open document.
    pub fn text(&self, uri: &str) -> (r: Option<String>)
        ensures
            r.deep_view() == self@.text(uri@),
    {
        match map_get(&self.docs, uri) {
            Some(doc) => Some(rope_string(&doc.rope)),
            None => None,
        }
    }

    /// The open documents, each once, in no order that is told.
    pub fn open_uris(&self) -> (r: Vec<String>)
        ensures
            strs(r@).no_duplicates(),
            forall|k: Seq<char>| strs(r@).contains(k) <==> self@.docs.dom().contains(k),
    {
        map_keys(&self.docs)
    }

    /// The text of an open document before a position.
    pub fn text_up_to(&self, uri: &str, pos: Position) -> (r: Option<String>)
        ensures
            r.deep_view() == (match self@.text(uri@) {
                Some(t) => match position_index(t, pos) {
                    Some(i) => Some(t.take(i as int)),
                    None => None,
                },
                None => None,
            }),
    {
        match map_get(&self.docs, uri) {
            Some(doc) => match position_to_char(&doc.rope, pos) {
                Some(i) => Some(rope_prefix(&doc.rope, i)),
                None => None,
            },
            None => None,
        }
    }

    /// A line of an open document, with what ends it.
    pub fn line_text(&self, uri: &str, line: u32) -> (r: Option<String>)
        ensures
            r.deep_view() == self@.line(uri@, line),
    {
        match map_get(&self.docs, uri) {
            Some(doc) => {
                let line_idx: usize = line as usize;
                if line_idx >= rope_len_lines(&doc.rope) {
                    None
                } else {
                    Some(rope_line(&doc.rope, line_idx))
                }
            },
            None => None,
        }
    }
}

impl Default for DocumentStore {
    fn default() -> (r: DocumentStore)
        ensures
            r@.docs == Map::<Seq<char>, Seq<char>>::empty(),
            r@.versions == Map::<Seq<char>, i32>::empty(),
            r@.epochs == Map::<Seq<char>, u64>::empty(),
    {
        DocumentStore::new()
    }
}

/// A pass that carries the epoch before a bump is superseded after it, and one that
/// carries the epoch the bump gave is not.
pub proof fn law_bump_supersedes(before: StoreView, after: StoreView, uri: Seq<char>, r: u64)
    requires
        before.epoch(uri) < u64::MAX,
        r == before.epoch(uri) + 1,
        after == (StoreView { epochs: before.epochs.insert(uri, r), ..before }),
    ensures
        after.epoch(uri) == r,
        after.epoch(uri) > before.epoch(uri),
        forall|other: Seq<char>| other != uri ==> after.epoch(other) == before.epoch(other),
{
}

/// A keyword's text is the part of its word that stands before the cursor, and the
/// token covers the cursor.
pub proof fn law_keyword_is_a_word(line: u32, cs: Seq<char>, col: nat)
    requires
        col <= cs.len(),
        keyword_in(line, cs, col) is Some,
        utf16_len(cs) <= u32::MAX,
    ensures
        word_in(cs, col) matches Some(w) ==> keyword_in(line, cs, col)->0.text.is_prefix_of(w),
        keyword_in(line, cs, col)->0.start.at_or_before(col_position(line, cs, col)),
        col_position(line, cs, col).at_or_before(keyword_in(line, cs, col)->0.end),
{
    lemma_ident_bounds(cs, col);
    let k = keyword_in(line, cs, col)->0;
    let (start, end) = (ident_start(cs, col), ident_end(cs, col));
    assert(cs.take(cs.len() as int) =~= cs);
    if end < cs.len() {
        lemma_utf16_increases(cs, end as int, cs.len() as int);
    }
    if col < end {
        lemma_utf16_increases(cs, col as int, end as int);
    }
    lemma_utf16_increases(cs, start - 1, col as int);
    if start > 1 {
        lemma_utf16_increases(cs, start - 2, col as int);
    }
    if start != end {
        let w = cs.subrange(start as int, end as int);
        assert(k.text =~= w.take(col - start));
    }
}

proof fn lemma_ident_bounds(cs: Seq<char>, col: nat)
    requires
        col <= cs.len(),
    ensures
        ident_start(cs, col) <= col <= ident_end(cs, col) <= cs.len(),
{
    lemma_ident_start(cs, col);
    lemma_ident_end(cs, col);
}

proof fn lemma_ident_start(cs: Seq<char>, i: nat)
    ensures
        ident_start(cs, i) <= i,
    decreases i,
{
    if 0 < i <= cs.len() && ident_char(cs[i - 1]) {
        lemma_ident_start(cs, (i - 1) as nat);
    }
}

proof fn lemma_ident_end(cs: Seq<char>, i: nat)
    requires
        i <= cs.len(),
    ensures
        i <= ident_end(cs, i) <= cs.len(),
    decreases cs.len() - i,
{
    if i < cs.len() && ident_char(cs[i as int]) {
        lemma_ident_end(cs, i + 1);
    }
}

proof fn lemma_word_start(cs: Seq<char>, i: nat)
    requires
        i <= cs.len(),
    ensures
        ident_start(cs, i) <= i,
        forall|k: int| ident_start(cs, i) <= k < i ==> ident_char(#[trigger] cs[k]),
        ident_start(cs, i) == 0 || !ident_char(cs[ident_start(cs, i) - 1]),
    decreases i,
{
    if 0 < i && ident_char(cs[i - 1]) {
        lemma_word_start(cs, (i - 1) as nat);
    }
}

proof fn lemma_word_end(cs: Seq<char>, i: nat)
    requires
        i <= cs.len(),
    ensures
        i <= ident_end(cs, i) <= cs.len(),
        forall|k: int| i <= k < ident_end(cs, i) ==> ident_char(#[trigger] cs[k]),
        ident_end(cs, i) == cs.len() || !ident_char(cs[ident_end(cs, i) as int]),
    decreases cs.len() - i,
{
    if i < cs.len() && ident_char(cs[i as int]) {
        lemma_word_end(cs, i + 1);
    }
}

/// Whether the characters `from..to` of a line are a word: identifier characters only, and none
/// next to them on either side.
pub open spec fn is_whole_word(cs: Seq<char>, from: int, to: int) -> bool {
    &&& 0 <= from < to <= cs.len()
    &&& forall|k: int| from <= k < to ==> ident_char(#[trigger] cs[k])
    &&& from == 0 || !ident_char(cs[from - 1])
    &&& to == cs.len() || !ident_char(cs[to])
}

/// The word at a column is the whole word that the column stands in or at either end of; there
/// is none where no identifier character is next to the column.
pub proof fn law_word_is_whole(cs: Seq<char>, col: nat, w: Seq<char>)
    requires
        col <= cs.len(),
    ensures
        word_in(cs, col) == Some(w) <==> exists|from: int, to: int|
            from <= col <= to && #[trigger] is_whole_word(cs, from, to) && w == cs.subrange(from, to),
{
    lemma_word_start(cs, col);
    lemma_word_end(cs, col);
    let (start, end) = (ident_start(cs, col) as int, ident_end(cs, col) as int);
    if word_in(cs, col) == Some(w) {
        assert(is_whole_word(cs, start, end));
    }
    if exists|from: int, to: int|
        from <= col <= to && #[trigger] is_whole_word(cs, from, to) && w == cs.subrange(from, to) {
        let (from, to) = choose|from: int, to: int|
            from <= col <= to && #[trigger] is_whole_word(cs, from, to) && w == cs.subrange(from, to);
        if from < start {
            assert(ident_char(cs[start - 1]));
        }
        if start < from {
            assert(ident_char(cs[from - 1]));
        }
        if end < to {
            assert(ident_char(cs[end]));
        }
        if to < end {
            assert(ident_char(cs[to]));
        }
    }
}

/// The cursor is in a keyword where only identifier characters stand between it and a colon;
/// two colons make the keyword one of the file's namespace or an alias. What is typed so far is what
/// stands between.
pub proof fn law_keyword_follows_its_colon(line: u32, cs: Seq<char>, col: nat, from: int)
    requires
        0 <= from <= col <= cs.len(),
        forall|k: int| from <= k < col ==> ident_char(#[trigger] cs[k]),
    ensures
        from > 0 && cs[from - 1] == ':' ==> (keyword_in(line, cs, col) matches Some(kw) && {
            &&& kw.text == cs.subrange(from, col as int)
            &&& kw.auto_resolved <==> from > 1 && cs[from - 2] == ':'
            &&& kw.start == col_position(
                line,
                cs,
                (from - (if kw.auto_resolved {
                    2int
                } else {
                    1int
                })) as nat,
            )
        }),
        from == 0 || (!ident_char(cs[from - 1]) && cs[from - 1] != ':') ==> keyword_in(
            line,
            cs,
            col,
        ) is None,
{
    lemma_word_start(cs, col);
    let start = ident_start(cs, col) as int;
    assert(!ident_char(':'));
    if start < from {
        assert(ident_char(cs[from - 1]));
    }
    if from < start {
        assert(ident_char(cs[start - 1]));
    }
}

/// The characters of ASCII that a Clojure symbol cannot hold end a word.
pub proof fn law_delimiters_end_words(c: char)
    requires
        '!' <= c <= '~',
    ensures
        !ident_char(c) <==> c == '"' || c == '$' || c == '(' || c == ')' || c == ',' || c == ':' || c
            == ';' || c == '@' || c == '[' || c == '\\' || c == ']' || c == '^' || c == '`' || c
            == '{' || c == '|' || c == '}' || c == '~',
{
}

/// A column in UTF-16 units is the first character with that many units before it, or the end.
pub proof fn law_column_is_the_first_that_reaches(cs: Seq<char>, units: nat)
    ensures
        char_col(cs, units) <= cs.len(),
        char_col(cs, units) == cs.len() || utf16_len(cs.take(char_col(cs, units) as int)) >= units,
        forall|i: int| 0 <= i < char_col(cs, units) ==> utf16_len(#[trigger] cs.take(i)) < units,
{
    lemma_column_from(cs, units, 0);
}

proof fn lemma_column_from(cs: Seq<char>, units: nat, from: nat)
    requires
        from <= cs.len(),
    ensures
        from <= col_from(cs, units, from) <= cs.len(),
        col_from(cs, units, from) == cs.len() || utf16_len(
            cs.take(col_from(cs, units, from) as int),
        ) >= units,
        forall|i: int|
            from <= i < col_from(cs, units, from) ==> utf16_len(#[trigger] cs.take(i)) < units,
    decreases cs.len() - from,
{
    if from < cs.len() && utf16_len(cs.take(from as int)) < units {
        lemma_column_from(cs, units, from + 1);
    }
}

/// A change puts its text in place of what stands between its two positions, and leaves what stands
/// before and behind them as it is.
pub proof fn law_change_replaces_its_range(
    before: Seq<char>,
    gone: Seq<char>,
    behind: Seq<char>,
    range: Range,
    text: Seq<char>,
)
    requires
        position_index(before + gone + behind, range.start) == Some(before.len()),
        position_index(before + gone + behind, range.end) == Some(before.len() + gone.len()),
    ensures
        changed(before + gone + behind, ChangeView { range: Some(range), text }) == Ok::<
            Seq<char>,
            Position,
        >(before + text + behind),
{
    let t = before + gone + behind;
    assert(t.take(before.len() as int) =~= before);
    assert(t.skip((before.len() + gone.len()) as int) =~= behind);
}

/// A change without a range gives the whole text; one whose range is not in the text changes
/// nothing and says which of its ends is not.
pub proof fn law_whole_and_misplaced_changes(t: Seq<char>, c: ChangeView)
    ensures
        c.range is None ==> all_changed(t, seq![c], 1) == (c.text, None::<Position>),
        c.range matches Some(range) ==> range.start.line >= line_count(t) ==> all_changed(
            t,
            seq![c],
            1,
        ) == (t, Some(range.start)),
        c.range matches Some(range) ==> range.start.line < line_count(t) <= range.end.line
            ==> all_changed(t, seq![c], 1) == (t, Some(range.end)),
{
    reveal_with_fuel(all_changed, 2);
}

/// Where a position is in the text, as many line ends stand before it as its line says.
pub proof fn law_position_is_on_its_line(t: Seq<char>, pos: Position)
    ensures
        position_index(t, pos) is Some <==> pos.line < line_count(t),
        position_index(t, pos) matches Some(i) ==> line_start(t, pos.line as nat) <= i
            && t.subrange(line_start(t, pos.line as nat) as int, i as int).is_prefix_of(
            line_at(t, pos.line as nat),
        ),
{
    if pos.line < line_count(t) {
        let cs = without_end(line_at(t, pos.line as nat));
        law_column_is_the_first_that_reaches(cs, pos.character as nat);
        law_position_index_grows(t, pos, pos);
        crate::rope::lemma_line_start(t, pos.line as nat, pos.line as nat + 1);
        let from = line_start(t, pos.line as nat) as int;
        let i = position_index(t, pos)->0 as int;
        assert(t.subrange(from, i) =~= line_at(t, pos.line as nat).take(i - from));
    }
}

}
