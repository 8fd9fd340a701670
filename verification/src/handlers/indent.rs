//! The indent of a new line. It is the column just after the innermost bracket that
//! is still open, and one more where that bracket is a list's and the first form in
//! it a symbol. Vectors, maps, sets and other lists align to their first element. A
//! cursor inside a string gets no indent, and the top level has column 0.
//!
//! Only the text before the cursor counts, so code that is still unbalanced is no
//! obstacle.

use vstd::prelude::*;
use vstd::utf8::encode_utf8;
use crate::chars::{alphabetic, ascii_digit, is_alphabetic, is_ascii_digit};
use crate::document::{char_col, utf16_col_to_char, DocumentStore};
use crate::lsp::{Position, Range, TextEdit, TextEditView};
use crate::text::{
    after_feeds, chars_of, index_from, lemma_index_from, line_from, line_stop, stop_of, str_eq,
    string_of, utf16_len, utf16_width,
};

verus! {

/// A bracket that is still open.
#[derive(Clone, Copy, Debug)]
pub struct Frame {
    /// The UTF-16 column just after the bracket.
    pub col_after: u128,
    /// Whether it is a list's.
    pub paren_like: bool,
    /// What closes it. Another closing bracket is passed over.
    pub closer: char,
    /// Whether the first form in it is a symbol; `None` until there is one.
    pub first_form_symbol: Option<bool>,
}

/// What the scan of a text is in the middle of.
#[derive(Clone, Copy, Debug, PartialEq, Eq, Structural)]
pub enum Mode {
    Code,
    /// A comment, up to the end of the line.
    Comment,
    /// A string or regular expression.
    Text,
    /// A backslash in one of those.
    Escape,
    /// A backslash that starts a character.
    Literal,
}

/// How far a scan has come: the open brackets, innermost last, and the UTF-16 column.
pub ghost struct Scan {
    pub stack: Seq<Frame>,
    pub mode: Mode,
    pub col: nat,
}

/// The open brackets once a form has been seen in the innermost.
pub open spec fn marked(stack: Seq<Frame>, is_symbol: bool) -> Seq<Frame> {
    if stack.len() > 0 && stack.last().first_form_symbol is None {
        stack.update(
            stack.len() - 1,
            Frame { first_form_symbol: Some(is_symbol), ..stack.last() },
        )
    } else {
        stack
    }
}

/// Whether a token that starts with `c` is a symbol. A sign is one unless it starts a
/// number.
pub open spec fn starts_symbol(c: char, next: Option<char>) -> bool {
    if c == '+' || c == '-' {
        !(next matches Some(d) && ascii_digit(d))
    } else {
        ||| c == '*' || c == '!' || c == '_' || c == '?' || c == '<' || c == '>'
        ||| c == '=' || c == '&' || c == '%' || c == '$' || c == '.' || c == '/'
        ||| c == '|' || alphabetic(c)
    }
}

/// Whether `c` only separates forms.
pub open spec fn separates(c: char) -> bool {
    c == ' ' || c == '\t' || c == ',' || c == '\n' || c == '\r'
}

/// What closes the bracket `c`.
pub open spec fn closer_of(c: char) -> char {
    if c == '(' {
        ')'
    } else if c == '[' {
        ']'
    } else {
        '}'
    }
}

/// The column after `c`.
pub open spec fn col_past(col: nat, c: char) -> nat {
    if c == '\n' {
        0
    } else {
        col + utf16_width(c)
    }
}

/// The open brackets after the character `c` of code; `col` is the column after it.
pub open spec fn code_stack(stack: Seq<Frame>, c: char, next: Option<char>, col: nat) -> Seq<Frame> {
    if separates(c) || c == ';' {
        stack
    } else if c == '"' || c == '\\' || c == '#' {
        marked(stack, false)
    } else if c == '(' || c == '[' || c == '{' {
        marked(stack, false).push(
            Frame {
                col_after: col as u128,
                paren_like: c == '(',
                closer: closer_of(c),
                first_form_symbol: None,
            },
        )
    } else if c == ')' || c == ']' || c == '}' {
        if stack.len() > 0 && stack.last().closer == c {
            stack.drop_last()
        } else {
            stack
        }
    } else {
        marked(stack, starts_symbol(c, next))
    }
}

/// What a scan is in the middle of after `c`.
pub open spec fn mode_after(mode: Mode, c: char) -> Mode {
    match mode {
        Mode::Code => if c == ';' {
            Mode::Comment
        } else if c == '"' {
            Mode::Text
        } else if c == '\\' {
            Mode::Literal
        } else {
            Mode::Code
        },
        Mode::Comment => if c == '\n' {
            Mode::Code
        } else {
            Mode::Comment
        },
        Mode::Text => if c == '\\' {
            Mode::Escape
        } else if c == '"' {
            Mode::Code
        } else {
            Mode::Text
        },
        Mode::Escape => Mode::Text,
        Mode::Literal => Mode::Code,
    }
}

/// The scan after one more character.
pub open spec fn stepped(s: Scan, c: char, next: Option<char>) -> Scan {
    let col = col_past(s.col, c);
    Scan {
        stack: if s.mode == Mode::Code {
            code_stack(s.stack, c, next, col)
        } else {
            s.stack
        },
        mode: mode_after(s.mode, c),
        col,
    }
}

/// The scan of the first `n` characters of `cs`.
pub open spec fn scanned(cs: Seq<char>, n: nat) -> Scan
    decreases n,
{
    if n == 0 {
        Scan { stack: seq![], mode: Mode::Code, col: 0 }
    } else {
        stepped(
            scanned(cs, (n - 1) as nat),
            cs[n - 1],
            if n < cs.len() {
                Some(cs[n as int])
            } else {
                None
            },
        )
    }
}

/// The indent of a line that starts after `prefix`; `None` inside a string.
pub open spec fn indent_after(prefix: Seq<char>) -> Option<u32> {
    let s = scanned(prefix, prefix.len());
    if s.mode == Mode::Text || s.mode == Mode::Escape {
        None
    } else if s.stack.len() == 0 {
        Some(0)
    } else {
        let frame = s.stack.last();
        Some(
            (frame.col_after + (if frame.paren_like && frame.first_form_symbol == Some(true) {
                1int
            } else {
                0
            })) as u32,
        )
    }
}

/// The character at a position. A column past the end of its line is that end, and a
/// line past the end of the text is that end.
pub open spec fn cut_at(cs: Seq<char>, pos: Position) -> nat {
    match after_feeds(cs, pos.line as nat, 0) {
        Some(start) => start + char_col(
            cs.subrange(start as int, line_stop(cs, start) as int),
            pos.character as nat,
        ),
        None => cs.len(),
    }
}

/// The indent of a new line at a position; `None` inside a string.
pub open spec fn indent_of(cs: Seq<char>, pos: Position) -> Option<u32> {
    indent_after(cs.take(cut_at(cs, pos) as int))
}

/// Records the first form of the innermost open bracket, once.
pub fn mark_first_form(stack: &mut Vec<Frame>, is_symbol: bool)
    ensures
        final(stack)@ == marked(old(stack)@, is_symbol),
{
    let n: usize = stack.len();
    if n > 0 {
        let frame = stack[n - 1];
        if frame.first_form_symbol.is_none() {
            stack.set(n - 1, Frame { first_form_symbol: Some(is_symbol), ..frame });
        }
    }
}

/// Whether a token that starts with `c` is a symbol.
pub fn symbol_start(c: char, next: Option<char>) -> (r: bool)
    ensures
        r == starts_symbol(c, next),
{
    if c == '+' || c == '-' {
        match next {
            Some(d) => !is_ascii_digit(d),
            None => true,
        }
    } else {
        c == '*' || c == '!' || c == '_' || c == '?' || c == '<' || c == '>' || c == '=' || c == '&'
            || c == '%' || c == '$' || c == '.' || c == '/' || c == '|' || is_alphabetic(c)
    }
}

fn step_code(stack: &mut Vec<Frame>, c: char, next: Option<char>, col: u128)
    ensures
        final(stack)@ == code_stack(old(stack)@, c, next, col as nat),
{
    if c == ' ' || c == '\t' || c == ',' || c == '\n' || c == '\r' || c == ';' {
    } else if c == '"' || c == '\\' || c == '#' {
        mark_first_form(stack, false);
    } else if c == '(' || c == '[' || c == '{' {
        mark_first_form(stack, false);
        let closer = if c == '(' {
            ')'
        } else if c == '[' {
            ']'
        } else {
            '}'
        };
        stack.push(
            Frame { col_after: col, paren_like: c == '(', closer, first_form_symbol: None },
        );
    } else if c == ')' || c == ']' || c == '}' {
        let n: usize = stack.len();
        if n > 0 && stack[n - 1].closer == c {
            let _ = stack.pop();
        }
    } else {
        mark_first_form(stack, symbol_start(c, next));
    }
}

fn step_mode(mode: Mode, c: char) -> (r: Mode)
    ensures
        r == mode_after(mode, c),
{
    match mode {
        Mode::Code => if c == ';' {
            Mode::Comment
        } else if c == '"' {
            Mode::Text
        } else if c == '\\' {
            Mode::Literal
        } else {
            Mode::Code
        },
        Mode::Comment => if c == '\n' {
            Mode::Code
        } else {
            Mode::Comment
        },
        Mode::Text => if c == '\\' {
            Mode::Escape
        } else if c == '"' {
            Mode::Code
        } else {
            Mode::Text
        },
        Mode::Escape => Mode::Text,
        Mode::Literal => Mode::Code,
    }
}

proof fn lemma_columns(cs: Seq<char>, n: nat)
    ensures
        scanned(cs, n).col <= 2 * n,
        forall|i: int|
            0 <= i < scanned(cs, n).stack.len() ==> (#[trigger] scanned(cs, n).stack[i]).col_after
                <= 2 * n,
    decreases n,
{
    if n > 0 {
        lemma_columns(cs, (n - 1) as nat);
    }
}

/// The indent of a line that starts after the first `end` characters.
pub fn indent_after_chars(chars: &[char], end: usize) -> (r: Option<u32>)
    requires
        end <= chars@.len(),
    ensures
        r == indent_after(chars@.take(end as int)),
{
    let ghost cs = chars@.take(end as int);
    let mut stack: Vec<Frame> = Vec::new();
    let mut mode = Mode::Code;
    let mut col: u128 = 0;
    let mut i: usize = 0;
    while i < end
        invariant
            i <= end <= chars@.len(),
            cs == chars@.take(end as int),
            stack@ == scanned(cs, i as nat).stack,
            mode == scanned(cs, i as nat).mode,
            col == scanned(cs, i as nat).col,
        decreases end - i,
    {
        proof {
            lemma_columns(cs, i as nat);
        }
        let c = chars[i];
        assert(c == cs[i as int]);
        let next = if i + 1 < end {
            assert(chars@[i + 1] == cs[i + 1]);
            Some(chars[i + 1])
        } else {
            None
        };
        if c == '\n' {
            col = 0;
        } else {
            col += if (c as u32) < 0x10000 { 1 } else { 2 };
        }
        match mode {
            Mode::Code => step_code(&mut stack, c, next, col),
            _ => {},
        }
        mode = step_mode(mode, c);
        i += 1;
    }
    proof {
        lemma_columns(cs, end as nat);
    }
    match mode {
        Mode::Text | Mode::Escape => None,
        _ => {
            let n: usize = stack.len();
            if n == 0 {
                Some(0)
            } else {
                let frame = stack[n - 1];
                let head = match frame.first_form_symbol {
                    Some(is_symbol) => is_symbol,
                    None => false,
                };
                let offset: u128 = if frame.paren_like && head {
                    1
                } else {
                    0
                };
                #[verifier::truncate]
                let indent: u32 = (frame.col_after + offset) as u32;
                Some(indent)
            }
        },
    }
}

fn sub_chars(chars: &[char], from: usize, to: usize) -> (r: Vec<char>)
    requires
        from <= to <= chars@.len(),
    ensures
        r@ == chars@.subrange(from as int, to as int),
{
    chars_of(string_of(chars, from, to).as_str())
}

/// The character at a position.
pub fn position_to_index(chars: &[char], pos: Position) -> (r: usize)
    ensures
        r == cut_at(chars@, pos),
        r <= chars@.len(),
{
    match line_from(chars, pos.line) {
        Some(start) => {
            let stop: usize = stop_of(chars, start);
            let line = sub_chars(chars, start, stop);
            start + utf16_col_to_char(&line, pos.character as usize)
        },
        None => chars.len(),
    }
}

/// How many bytes stand before a position.
pub fn position_to_byte(source: &str, pos: Position) -> (r: usize)
    ensures
        r == encode_utf8(source@.take(cut_at(source@, pos) as int)).len() as usize,
{
    let chars = chars_of(source);
    let i: usize = position_to_index(&chars, pos);
    let head = string_of(&chars, 0, i);
    assert(head@ =~= source@.take(i as int));
    head.as_str().len()
}

/// The indent of a new line at a position; `None` inside a string.
pub fn indent_at(source: &str, pos: Position) -> (r: Option<u32>)
    ensures
        r == indent_of(source@, pos),
{
    let chars = chars_of(source);
    let end: usize = position_to_index(&chars, pos);
    indent_after_chars(&chars, end)
}

/// How many blanks and tabs stand in `cs` from `i` on, before `stop`.
pub open spec fn blanks_from(cs: Seq<char>, i: nat, stop: nat) -> nat
    decreases stop - i,
{
    if i < stop && (cs[i as int] == ' ' || cs[i as int] == '\t') {
        blanks_from(cs, i + 1, stop) + 1
    } else {
        0
    }
}

/// `n` blanks.
pub open spec fn blanks(n: nat) -> Seq<char> {
    Seq::new(n, |i: int| ' ')
}

/// The edit that indents the line of a position, unless it is indented already.
pub open spec fn reindent(cs: Seq<char>, pos: Position) -> Option<TextEditView> {
    match indent_of(cs, pos) {
        Some(indent) => {
            let start = match after_feeds(cs, pos.line as nat, 0) {
                Some(start) => start,
                None => cs.len(),
            };
            let ws = blanks_from(cs, start, line_stop(cs, start));
            if cs.subrange(start as int, (start + ws) as int) == blanks(indent as nat) {
                None
            } else {
                Some(
                    TextEditView {
                        range: Range {
                            start: Position { line: pos.line, character: 0 },
                            end: Position { line: pos.line, character: ws as u32 },
                        },
                        new_text: blanks(indent as nat),
                    },
                )
            }
        },
        None => None,
    }
}

/// `n` blanks.
pub fn blank_string(n: usize) -> (r: String)
    ensures
        r@ == blanks(n as nat),
{
    let mut out = String::new();
    let mut i: usize = 0;
    assert(out@ =~= blanks(0));
    while i < n
        invariant
            i <= n,
            out@ == blanks(i as nat),
        decreases n - i,
    {
        out.push(' ');
        assert(out@ =~= blanks((i + 1) as nat));
        i += 1;
    }
    out
}

proof fn lemma_blanks_from(cs: Seq<char>, i: nat, stop: nat)
    requires
        i <= stop,
    ensures
        i + blanks_from(cs, i, stop) <= stop,
    decreases stop - i,
{
    if i < stop && (cs[i as int] == ' ' || cs[i as int] == '\t') {
        lemma_blanks_from(cs, i + 1, stop);
    }
}

/// The edit that indents the line of a position, unless it is indented already.
pub fn reindent_line(source: &str, pos: Position) -> (r: Option<TextEdit>)
    ensures
        r.deep_view() == reindent(source@, pos),
{
    let indent: u32 = match indent_at(source, pos) {
        Some(indent) => indent,
        None => return None,
    };
    let chars = chars_of(source);
    let start: usize = match line_from(&chars, pos.line) {
        Some(start) => start,
        None => chars.len(),
    };
    let stop: usize = stop_of(&chars, start);
    let mut i: usize = start;
    while i < stop && (chars[i] == ' ' || chars[i] == '\t')
        invariant
            start <= i <= stop <= chars@.len(),
            blanks_from(chars@, start as nat, stop as nat) == blanks_from(
                chars@,
                i as nat,
                stop as nat,
            ) + (i - start),
        decreases stop - i,
    {
        i += 1;
    }
    let desired = blank_string(indent as usize);
    let leading = string_of(&chars, start, i);
    if str_eq(leading.as_str(), desired.as_str()) {
        return None;
    }
    #[verifier::truncate]
    let ws: u32 = (i - start) as u32;
    Some(
        TextEdit {
            range: Range::new(Position::new(pos.line, 0), Position::new(pos.line, ws)),
            new_text: desired,
        },
    )
}

/// The edits after the character `ch` has been typed: after a line feed, the new line
/// is indented.
pub fn on_type_formatting(documents: &DocumentStore, uri: &str, pos: Position, ch: &str) -> (r:
    Option<TextEdit>)
    ensures
        r.deep_view() == (if ch@ == "\n"@ {
            match documents@.text(uri@) {
                Some(text) => reindent(text, pos),
                None => None,
            }
        } else {
            None
        }),
{
    if !str_eq(ch, "\n") {
        return None;
    }
    match documents.text(uri) {
        Some(text) => reindent_line(text.as_str(), pos),
        None => None,
    }
}

/// What stands after the cursor does not matter.
pub proof fn law_indent_ignores_what_follows(
    prefix: Seq<char>,
    a: Seq<char>,
    b: Seq<char>,
    pos: Position,
)
    requires
        cut_at(prefix + a, pos) == prefix.len(),
        cut_at(prefix + b, pos) == prefix.len(),
    ensures
        indent_of(prefix + a, pos) == indent_of(prefix + b, pos),
{
    assert((prefix + a).take(prefix.len() as int) =~= prefix);
    assert((prefix + b).take(prefix.len() as int) =~= prefix);
}

proof fn lemma_scan_of_longer(p: Seq<char>, c: char, n: nat)
    requires
        n <= p.len(),
        p.len() > 0,
        p.last() == '\n',
    ensures
        scanned(p.push(c), n) == scanned(p, n),
    decreases n,
{
    if n > 0 {
        lemma_scan_of_longer(p, c, (n - 1) as nat);
        let q = p.push(c);
        assert(q[n - 1] == p[n - 1]);
        if n < p.len() {
            assert(q[n as int] == p[n as int]);
        }
    }
}

/// Blanks at the start of the new line do not change its indent.
pub proof fn law_blanks_keep_the_indent(p: Seq<char>, c: char)
    requires
        p.len() > 0,
        p.last() == '\n',
        c == ' ' || c == '\t',
    ensures
        indent_after(p.push(c)) == indent_after(p),
{
    lemma_scan_of_longer(p, c, p.len());
    let (before, after) = (scanned(p, p.len()), scanned(p.push(c), p.len() + 1));
    assert(p.push(c).last() == c);
    assert(after.stack == before.stack);
    assert(before.mode != Mode::Comment && before.mode != Mode::Literal ==> mode_after(
        before.mode,
        c,
    ) == (if before.mode == Mode::Escape {
        Mode::Text
    } else {
        before.mode
    }));
    assert(scanned(p, (p.len() - 1) as nat).mode != Mode::Escape ==> before.mode
        != Mode::Comment);
}

/// A closing bracket that closes nothing leaves the open brackets as they are.
pub proof fn law_stray_closer_is_ignored(stack: Seq<Frame>, c: char, next: Option<char>, col: nat)
    requires
        c == ')' || c == ']' || c == '}',
        stack.len() == 0 || stack.last().closer != c,
    ensures
        code_stack(stack, c, next, col) == stack,
{
}

/// A bracket and what closes it leave the brackets around them open; the form counts
/// as one that is no symbol.
pub proof fn law_closed_form_leaves_the_stack(stack: Seq<Frame>, c: char, col1: nat, col2: nat)
    requires
        c == '(' || c == '[' || c == '{',
    ensures
        code_stack(code_stack(stack, c, None, col1), closer_of(c), None, col2) == marked(
            stack,
            false,
        ),
{
    assert(code_stack(stack, c, None, col1).drop_last() =~= marked(stack, false));
}

proof fn lemma_blanks_are_blank(cs: Seq<char>, i: nat, stop: nat, k: int)
    requires
        i <= stop,
        i <= k < i + blanks_from(cs, i, stop),
    ensures
        cs[k] == ' ' || cs[k] == '\t',
    decreases stop - i,
{
    if k > i {
        lemma_blanks_are_blank(cs, i + 1, stop, k);
    }
}

proof fn lemma_after_feeds_fit(cs: Seq<char>, k: nat, i: nat)
    requires
        i <= cs.len(),
    ensures
        after_feeds(cs, k, i) matches Some(j) ==> j <= cs.len(),
    decreases k,
{
    if k > 0 {
        lemma_index_from(cs, '\n', i);
        if let Some(j) = index_from(cs, '\n', i) {
            lemma_after_feeds_fit(cs, (k - 1) as nat, j + 1);
        }
    }
}

/// Indenting changes nothing but the blanks that a line starts with: an edit covers only
/// blanks and tabs, from the start of the line on, and puts blanks in their place.
pub proof fn law_indenting_replaces_blanks_only(cs: Seq<char>, pos: Position, start: nat)
    requires
        after_feeds(cs, pos.line as nat, 0) == Some(start),
        reindent(cs, pos) is Some,
    ensures
        ({
            let edit = reindent(cs, pos)->0;
            let n = blanks_from(cs, start, line_stop(cs, start));
            &&& edit.range.start == Position { line: pos.line, character: 0 }
            &&& edit.range.end == Position { line: pos.line, character: n as u32 }
            &&& forall|j: int| 0 <= j < edit.new_text.len() ==> edit.new_text[j] == ' '
            &&& forall|k: int|
                start <= k < start + n ==> #[trigger] cs[k] == ' ' || cs[k] == '\t'
        }),
{
    lemma_after_feeds_fit(cs, pos.line as nat, 0);
    lemma_index_from(cs, '\n', start);
    let n = blanks_from(cs, start, line_stop(cs, start));
    assert forall|k: int| start <= k < start + n implies #[trigger] cs[k] == ' ' || cs[k] == '\t' by {
        lemma_blanks_are_blank(cs, start, line_stop(cs, start), k);
    }
}

/// Whether a character is neither a bracket nor starts a string, a comment, a character
/// literal or a dispatch form.
pub open spec fn plain(c: char) -> bool {
    c != '(' && c != ')' && c != '[' && c != ']' && c != '{' && c != '}' && c != '"' && c != ';' && c
        != '\\' && c != '#'
}

proof fn lemma_scan_modes(a: Seq<char>, b: Seq<char>, n: nat)
    requires
        n <= a.len(),
        n <= b.len(),
        forall|i: int| 0 <= i < n ==> a[i] == b[i],
    ensures
        scanned(a, n).mode == scanned(b, n).mode,
        scanned(a, n).col == scanned(b, n).col,
    decreases n,
{
    if n > 0 {
        lemma_scan_modes(a, b, (n - 1) as nat);
        assert(a[n - 1] == b[n - 1]);
    }
}

proof fn lemma_plain_scan(cs: Seq<char>, from: nat, n: nat, base: Seq<Frame>, f: Frame)
    requires
        from <= n <= cs.len(),
        scanned(cs, from).mode == Mode::Code,
        scanned(cs, from).stack == base.push(f),
        f.first_form_symbol is Some,
        forall|i: int| from <= i < n ==> plain(#[trigger] cs[i]),
    ensures
        scanned(cs, n).mode == Mode::Code,
        scanned(cs, n).stack == base.push(f),
    decreases n,
{
    if n > from {
        lemma_plain_scan(cs, from, (n - 1) as nat, base, f);
        assert(plain(cs[n - 1]));
    }
}

/// A new line is indented by the innermost form that is open, whatever stands before it:
/// inside a list that starts with a symbol two columns behind its bracket, inside a vector
/// or map, or a list that starts with a number, one column.
pub proof fn law_innermost_form_indents(
    p: Seq<char>,
    open: char,
    first: char,
    tail: Seq<char>,
)
    requires
        scanned(p, p.len()).mode == Mode::Code,
        open == '(' || open == '[' || open == '{',
        alphabetic(first) || ascii_digit(first),
        alphabetic(first) ==> !separates(first) && plain(first) && !ascii_digit(first) && first
            != '+' && first != '-',
        forall|i: int| 0 <= i < tail.len() ==> plain(#[trigger] tail[i]),
        scanned(p, p.len()).col + 2 <= u32::MAX,
    ensures
        indent_after(p + seq![open, first] + tail) == Some(
            (scanned(p, p.len()).col + 1 + (if open == '(' && alphabetic(first) {
                1int
            } else {
                0
            })) as u32,
        ),
{
    let cs = p + seq![open, first] + tail;
    let n = p.len();
    lemma_scan_modes(p, cs, n);
    let before = scanned(cs, n);
    assert(cs[n as int] == open && cs[n as int + 1] == first);
    let base = marked(before.stack, false);
    let f = Frame {
        col_after: (before.col + 1) as u128,
        paren_like: open == '(',
        closer: closer_of(open),
        first_form_symbol: None,
    };
    assert(utf16_width(open) == 1);
    assert(scanned(cs, n + 1).stack =~= base.push(f));
    let g = Frame { first_form_symbol: Some(alphabetic(first)), ..f };
    assert(scanned(cs, n + 2).stack =~= base.push(g));
    assert forall|i: int| n + 2 <= i < cs.len() implies plain(#[trigger] cs[i]) by {
        assert(cs[i] == tail[i - n - 2]);
    }
    lemma_plain_scan(cs, n + 2, cs.len(), base, g);
}

/// Outside of all forms a line is not indented, and inside a string it is left alone.
pub proof fn law_top_level_and_strings(p: Seq<char>, tail: Seq<char>)
    requires
        scanned(p, p.len()).mode == Mode::Code,
        forall|i: int| 0 <= i < tail.len() ==> #[trigger] tail[i] != '"' && tail[i] != '\\',
    ensures
        scanned(p, p.len()).stack.len() == 0 ==> indent_after(p) == Some(0u32),
        indent_after(p + seq!['"'] + tail) is None,
{
    let cs = p + seq!['"'] + tail;
    let n = p.len();
    lemma_scan_modes(p, cs, n);
    assert(cs[n as int] == '"');
    lemma_text_scan(cs, n + 1, cs.len());
}

proof fn lemma_text_scan(cs: Seq<char>, from: nat, n: nat)
    requires
        from <= n <= cs.len(),
        scanned(cs, from).mode == Mode::Text,
        forall|i: int| from <= i < cs.len() ==> #[trigger] cs[i] != '"' && cs[i] != '\\',
    ensures
        scanned(cs, n).mode == Mode::Text,
    decreases n,
{
    if n > from {
        lemma_text_scan(cs, from, (n - 1) as nat);
        assert(cs[n - 1] != '"' && cs[n - 1] != '\\');
    }
}

/// The column that a form is indented by counts from the last line feed.
pub proof fn law_columns_count_from_the_line_feed(p: Seq<char>, line: Seq<char>)
    requires
        forall|i: int| 0 <= i < line.len() ==> #[trigger] line[i] != '\n',
    ensures
        scanned(p + seq!['\n'] + line, (p.len() + 1 + line.len()) as nat).col == utf16_len(line),
        scanned(line, line.len()).col == utf16_len(line),
{
    let cs = p + seq!['\n'] + line;
    assert(cs[p.len() as int] == '\n');
    lemma_line_columns(cs, p.len() + 1, line, line.len());
    assert(line.take(line.len() as int) =~= line);
    lemma_line_columns(line, 0, line, line.len());
}

proof fn lemma_line_columns(cs: Seq<char>, from: nat, line: Seq<char>, n: nat)
    requires
        n <= line.len(),
        from + line.len() <= cs.len(),
        scanned(cs, from).col == 0,
        forall|i: int| 0 <= i < line.len() ==> cs[from + i] == line[i] && #[trigger] line[i] != '\n',
    ensures
        scanned(cs, from + n).col == utf16_len(line.take(n as int)),
    decreases n,
{
    if n > 0 {
        lemma_line_columns(cs, from, line, (n - 1) as nat);
        assert(line[n - 1] != '\n');
        assert(line.take(n as int).drop_last() =~= line.take(n - 1));
        assert(line.take(n as int).last() == line[n - 1]);
    } else {
        assert(line.take(0) =~= seq![]);
    }
}

}
