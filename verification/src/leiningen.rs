//! The dependencies that a Leiningen `project.clj` declares.
//!
//! A `project.clj` is Clojure, with metadata and regular expressions that are no EDN. So
//! its text is masked, the keywords of interest are found in it, and only the plain data
//! behind each of them is parsed.

use vstd::prelude::*;
use crate::chars::{alphabetic, is_alphabetic, is_whitespace, white_space};
use crate::collect::{contains_str, push_item, push_str, strs};
use crate::edn::{
    as_str, is_readable, lemma_edn, parse, parsed_edn, readable, text_of, views, Edn, EdnView,
};
use crate::path::{components_of, contains_path, join, joined, lists_path};
use crate::text::{
    chars_of, concat2, concat3, find_char, index_from, lemma_index_from, matches_at, stands_at, str_eq,
    string_of,
};
use crate::words::space_end;

verus! {

/// Where the masking of a text stands.
#[derive(Clone, Copy, Debug, PartialEq, Eq, Structural)]
pub enum Mode {
    Code,
    /// In a string.
    Str,
    /// Behind a backslash in a string.
    StrEscape,
    Comment,
    /// Behind the backslash of a character literal.
    CharEscape,
}

/// Where the masking stands behind a character.
pub open spec fn next_mode(mode: Mode, c: char) -> Mode {
    match mode {
        Mode::Code => if c == '"' {
            Mode::Str
        } else if c == ';' {
            Mode::Comment
        } else if c == '\\' {
            Mode::CharEscape
        } else {
            Mode::Code
        },
        Mode::Str => if c == '\\' {
            Mode::StrEscape
        } else if c == '"' {
            Mode::Code
        } else {
            Mode::Str
        },
        Mode::StrEscape => Mode::Str,
        Mode::Comment => if c == '\n' {
            Mode::Code
        } else {
            Mode::Comment
        },
        Mode::CharEscape => Mode::Code,
    }
}

fn step(mode: Mode, c: char) -> (r: Mode)
    ensures
        r == next_mode(mode, c),
{
    match mode {
        Mode::Code => if c == '"' {
            Mode::Str
        } else if c == ';' {
            Mode::Comment
        } else if c == '\\' {
            Mode::CharEscape
        } else {
            Mode::Code
        },
        Mode::Str => if c == '\\' {
            Mode::StrEscape
        } else if c == '"' {
            Mode::Code
        } else {
            Mode::Str
        },
        Mode::StrEscape => Mode::Str,
        Mode::Comment => if c == '\n' {
            Mode::Code
        } else {
            Mode::Comment
        },
        Mode::CharEscape => Mode::Code,
    }
}

/// Where the masking stands before the character `n`.
pub open spec fn mode_at(s: Seq<char>, n: nat) -> Mode
    decreases n,
{
    if n == 0 {
        Mode::Code
    } else {
        next_mode(mode_at(s, (n - 1) as nat), s[n - 1])
    }
}

/// Whether the character is code, or a quote around a string, or ends a comment.
pub open spec fn is_code(mode: Mode, c: char) -> bool {
    match mode {
        Mode::Code => c != ';' && c != '\\',
        Mode::Str => c == '"',
        Mode::StrEscape => false,
        Mode::Comment => c == '\n',
        Mode::CharEscape => false,
    }
}

/// Whether the character stands in a comment.
pub open spec fn is_comment(mode: Mode, c: char) -> bool {
    (mode == Mode::Comment && c != '\n') || (mode == Mode::Code && c == ';')
}

/// The text with blanks for what stands in strings, comments and character literals.
pub open spec fn masked(s: Seq<char>) -> Seq<char> {
    Seq::new(
        s.len(),
        |i: int|
            if is_code(mode_at(s, i as nat), s[i]) {
                s[i]
            } else {
                ' '
            },
    )
}

/// The text with blanks for its comments.
pub open spec fn without_comments(s: Seq<char>) -> Seq<char> {
    Seq::new(
        s.len(),
        |i: int|
            if is_comment(mode_at(s, i as nat), s[i]) {
                ' '
            } else {
                s[i]
            },
    )
}

/// Whether a bracket opens here.
pub open spec fn opens(c: char) -> bool {
    c == '(' || c == '[' || c == '{'
}

/// Whether a bracket closes here.
pub open spec fn closes(c: char) -> bool {
    c == ')' || c == ']' || c == '}'
}

/// Where the bracket ends that is `depth` deep open at `i`.
pub open spec fn bracket_end(loc: Seq<char>, i: nat, depth: nat, in_str: bool) -> nat
    decreases loc.len() - i,
{
    if i >= loc.len() {
        i
    } else if loc[i as int] == '"' {
        bracket_end(loc, i + 1, depth, !in_str)
    } else if opens(loc[i as int]) && !in_str {
        bracket_end(loc, i + 1, depth + 1, in_str)
    } else if closes(loc[i as int]) && !in_str {
        if depth <= 1 {
            i + 1
        } else {
            bracket_end(loc, i + 1, (depth - 1) as nat, in_str)
        }
    } else {
        bracket_end(loc, i + 1, depth, in_str)
    }
}

/// Where the atom at `i` ends.
pub open spec fn atom_end(loc: Seq<char>, i: nat) -> nat
    decreases loc.len() - i,
{
    if i < loc.len() && !white_space(loc[i as int]) && !opens(loc[i as int]) && !closes(
        loc[i as int],
    ) && loc[i as int] != '"' {
        atom_end(loc, i + 1)
    } else {
        i
    }
}

/// Whether the character at `i` is a mark in front of a form that it belongs to: a quote,
/// or what makes a collection or a string another literal.
pub open spec fn marks_form(loc: Seq<char>, i: nat) -> bool {
    let c = loc[i as int];
    c == '\'' || c == '`' || c == '~' || c == '@' || (c == '#' && i + 1 < loc.len() && (opens(
        loc[i as int + 1],
    ) || loc[i as int + 1] == '"'))
}

/// Whether a tag starts at `i`, to which the form behind it belongs.
pub open spec fn tags_form(loc: Seq<char>, i: nat) -> bool {
    loc[i as int] == '#' && i + 1 < loc.len() && (alphabetic(loc[i as int + 1]) || loc[i as int + 1]
        == '?' || loc[i as int + 1] == ':')
}

/// Where the next form from `start` on ends, with the marks, the tag and the metadata in
/// front of it.
pub open spec fn end_of_form(loc: Seq<char>, start: nat) -> nat
    decreases loc.len() - start,
{
    let i = space_end(loc, start);
    if i >= loc.len() || i < start {
        i
    } else if opens(loc[i as int]) {
        bracket_end(loc, i, 0, false)
    } else if loc[i as int] == '"' {
        match index_from(loc, '"', i + 1) {
            Some(close) => close + 1,
            None => loc.len(),
        }
    } else if marks_form(loc, i) {
        end_of_form(loc, i + 1)
    } else if loc[i as int] == '^' {
        let end = end_of_form(loc, i + 1);
        if i < end <= loc.len() {
            end_of_form(loc, end)
        } else {
            end
        }
    } else if tags_form(loc, i) {
        let end = atom_end(loc, i);
        if i < end <= loc.len() {
            end_of_form(loc, end)
        } else {
            end
        }
    } else {
        atom_end(loc, i)
    }
}

fn end_atom(loc: &[char], first: usize) -> (r: usize)
    requires
        first <= loc@.len(),
    ensures
        r == atom_end(loc@, first as nat),
        first <= r <= loc@.len(),
{
    let len: usize = loc.len();
    let mut i: usize = first;
    while i < len && !is_whitespace(loc[i]) && loc[i] != '(' && loc[i] != '[' && loc[i] != '{'
        && loc[i] != ')' && loc[i] != ']' && loc[i] != '}' && loc[i] != '"'
        invariant
            first <= i <= len == loc@.len(),
            atom_end(loc@, first as nat) == atom_end(loc@, i as nat),
        decreases len - i,
    {
        i += 1;
    }
    i
}

/// Where the next form from `start` on ends, with what stands in front of it.
pub fn form_end(loc: &[char], start: usize) -> (r: usize)
    requires
        start <= loc@.len(),
    ensures
        r == end_of_form(loc@, start as nat),
        start <= r <= loc@.len(),
    decreases loc@.len() - start,
{
    let len: usize = loc.len();
    let mut i: usize = start;
    while i < len && is_whitespace(loc[i])
        invariant
            start <= i <= len == loc@.len(),
            space_end(loc@, start as nat) == space_end(loc@, i as nat),
        decreases len - i,
    {
        i += 1;
    }
    if i >= len {
        return i;
    }
    let first: usize = i;
    match loc[i] {
        '(' | '[' | '{' => {
            let mut depth: usize = 0;
            let mut in_str = false;
            while i < len
                invariant
                    start <= first <= i <= len == loc@.len(),
                    depth <= i - first,
                    i > first ==> depth > 0,
                    i == first ==> !in_str && depth == 0,
                    first < len,
                    opens(loc@[first as int]),
                    first == space_end(loc@, start as nat),
                    bracket_end(loc@, first as nat, 0, false) == bracket_end(
                        loc@,
                        i as nat,
                        depth as nat,
                        in_str,
                    ),
                decreases len - i,
            {
                match loc[i] {
                    '"' => {
                        in_str = !in_str;
                    },
                    '(' | '[' | '{' => {
                        if !in_str {
                            depth += 1;
                        }
                    },
                    ')' | ']' | '}' => {
                        if !in_str {
                            depth -= 1;
                            if depth == 0 {
                                return i + 1;
                            }
                        }
                    },
                    _ => {},
                }
                i += 1;
            }
            i
        },
        '"' => {
            proof {
                lemma_index_from(loc@, '"', (i + 1) as nat);
            }
            match find_char(loc, '"', i + 1) {
                Some(close) => close + 1,
                None => len,
            }
        },
        '\'' | '`' | '~' | '@' => form_end(loc, i + 1),
        '#' => {
            if len - i > 1 {
                let next = loc[i + 1];
                if next == '(' || next == '[' || next == '{' || next == '"' {
                    return form_end(loc, i + 1);
                }
                if is_alphabetic(next) || next == '?' || next == ':' {
                    let end: usize = end_atom(loc, i + 1);
                    return form_end(loc, end);
                }
            }
            end_atom(loc, i)
        },
        '^' => {
            let end: usize = form_end(loc, i + 1);
            form_end(loc, end)
        },
        _ => end_atom(loc, i),
    }
}

/// Whether a `#_` stands at `i`.
pub open spec fn discards_at(loc: Seq<char>, i: nat) -> bool {
    i + 1 < loc.len() && loc[i as int] == '#' && loc[i as int + 1] == '_'
}

/// The end of the last of the next `owed` forms. A `#_` in front of a form makes it one
/// more.
pub open spec fn discard_end(loc: Seq<char>, i: nat, owed: nat) -> nat
    decreases loc.len() - i, owed,
{
    let from = space_end(loc, i);
    if owed == 0 {
        i
    } else if i <= from && discards_at(loc, from) {
        discard_end(loc, from + 2, owed + 1)
    } else {
        let end = end_of_form(loc, i);
        if i <= end <= loc.len() {
            discard_end(loc, end, (owed - 1) as nat)
        } else {
            i
        }
    }
}

/// The forms behind a `#_` from `i` on, each from the `#` to its end.
pub open spec fn discards_from(loc: Seq<char>, i: nat) -> Seq<(usize, usize)>
    decreases loc.len() - i,
{
    if i + 1 >= loc.len() {
        seq![]
    } else if discards_at(loc, i) {
        let end = discard_end(loc, i + 2, 1);
        if i < end <= loc.len() {
            seq![(i as usize, end as usize)] + discards_from(loc, end)
        } else {
            seq![]
        }
    } else {
        discards_from(loc, i + 1)
    }
}

fn discarded_to(loc: &[char], from: usize) -> (r: usize)
    requires
        from <= loc@.len(),
    ensures
        r == discard_end(loc@, from as nat, 1),
        from <= r <= loc@.len(),
{
    let len: usize = loc.len();
    let mut i: usize = from;
    let mut owed: usize = 1;
    while owed > 0
        invariant
            from <= i <= len == loc@.len(),
            owed <= i - from + 1,
            discard_end(loc@, from as nat, 1) == discard_end(loc@, i as nat, owed as nat),
        decreases len - i, owed,
    {
        let mut k: usize = i;
        while k < len && is_whitespace(loc[k])
            invariant
                i <= k <= len == loc@.len(),
                space_end(loc@, i as nat) == space_end(loc@, k as nat),
            decreases len - k,
        {
            k += 1;
        }
        if k < len && len - k >= 2 && loc[k] == '#' && loc[k + 1] == '_' {
            i = k + 2;
            owed += 1;
        } else {
            i = form_end(loc, i);
            owed -= 1;
        }
    }
    i
}

/// The forms that a masked text discards. As many `#_` as stand in a row discard as many
/// forms.
pub fn discard_ranges(loc: &[char]) -> (r: Vec<(usize, usize)>)
    ensures
        r@ == discards_from(loc@, 0),
        forall|k: int| 0 <= k < r@.len() ==> (#[trigger] r@[k]).0 <= r@[k].1 <= loc@.len(),
{
    let len: usize = loc.len();
    let mut out: Vec<(usize, usize)> = Vec::new();
    let mut i: usize = 0;
    assert(out@ + discards_from(loc@, 0) =~= discards_from(loc@, 0));
    while i < len && len - i > 1
        invariant
            i <= len == loc@.len(),
            out@ + discards_from(loc@, i as nat) == discards_from(loc@, 0),
            forall|k: int| 0 <= k < out@.len() ==> (#[trigger] out@[k]).0 <= out@[k].1 <= len,
        decreases len - i,
    {
        if loc[i] == '#' && loc[i + 1] == '_' {
            let end: usize = discarded_to(loc, i + 2);
            let ghost had = out@;
            out.push((i, end));
            assert(had + discards_from(loc@, i as nat) =~= out@ + discards_from(loc@, end as nat));
            i = end;
        } else {
            i += 1;
        }
    }
    assert(out@ + discards_from(loc@, i as nat) =~= out@);
    out
}

/// Whether the character `k` lies in one of the ranges.
pub open spec fn discarded(ranges: Seq<(usize, usize)>, k: int) -> bool {
    exists|j: int| 0 <= j < ranges.len() && (#[trigger] ranges[j]).0 <= k < ranges[j].1
}

/// `s` with blanks in the ranges.
pub open spec fn blanked(s: Seq<char>, ranges: Seq<(usize, usize)>) -> Seq<char> {
    Seq::new(
        s.len(),
        |k: int|
            if discarded(ranges, k) {
                ' '
            } else {
                s[k]
            },
    )
}

/// The text that keywords are found in: without strings, comments, character literals
/// and discarded forms.
pub open spec fn locator(s: Seq<char>) -> Seq<char> {
    blanked(masked(s), discards_from(masked(s), 0))
}

/// The text that values are parsed from: without comments and discarded forms.
pub open spec fn parse_text(s: Seq<char>) -> Seq<char> {
    blanked(without_comments(s), discards_from(masked(s), 0))
}

fn blank(chars: &mut Vec<char>, ranges: &Vec<(usize, usize)>)
    requires
        forall|k: int|
            0 <= k < ranges@.len() ==> (#[trigger] ranges@[k]).0 <= ranges@[k].1
                <= old(chars)@.len(),
    ensures
        final(chars)@ == blanked(old(chars)@, ranges@),
{
    let ghost all = chars@;
    let mut j: usize = 0;
    assert(chars@ =~= blanked(all, ranges@.take(0)));
    while j < ranges.len()
        invariant
            j <= ranges@.len(),
            chars@ == blanked(all, ranges@.take(j as int)),
            forall|k: int|
                0 <= k < ranges@.len() ==> (#[trigger] ranges@[k]).0 <= ranges@[k].1 <= all.len(),
        decreases ranges@.len() - j,
    {
        let (start, end) = ranges[j];
        let ghost before = chars@;
        let mut k: usize = start;
        while k < end
            invariant
                start <= k <= end <= chars@.len(),
                chars@.len() == before.len() == all.len(),
                forall|m: int|
                    0 <= m < chars@.len() ==> chars@[m] == (if start <= m < k {
                        ' '
                    } else {
                        before[m]
                    }),
            decreases end - k,
        {
            chars.set(k, ' ');
            k += 1;
        }
        let ghost shorter = ranges@.take(j as int);
        let ghost longer = ranges@.take(j + 1);
        assert forall|m: int| 0 <= m < all.len() implies #[trigger] discarded(longer, m) == (
        discarded(shorter, m) || start <= m < end) by {
            if discarded(shorter, m) {
                let q = choose|q: int|
                    0 <= q < shorter.len() && (#[trigger] shorter[q]).0 <= m < shorter[q].1;
                assert(longer[q] == shorter[q]);
            }
            if start <= m < end {
                assert(longer[j as int] == (start, end));
            }
            if discarded(longer, m) {
                let q = choose|q: int|
                    0 <= q < longer.len() && (#[trigger] longer[q]).0 <= m < longer[q].1;
                if q < j {
                    assert(shorter[q] == longer[q]);
                }
            }
        }
        assert(chars@ =~= blanked(all, longer));
        j += 1;
    }
    assert(ranges@.take(ranges@.len() as int) =~= ranges@);
}

/// The text that keywords are found in and the text that values are parsed from, of the
/// same length.
pub fn prepare(src: &str) -> (r: (Vec<char>, Vec<char>))
    ensures
        r.0@ == locator(src@),
        r.1@ == parse_text(src@),
{
    let original = chars_of(src);
    let ghost s = src@;
    let mut found: Vec<char> = Vec::new();
    let mut kept: Vec<char> = Vec::new();
    let mut mode = Mode::Code;
    let mut i: usize = 0;
    while i < original.len()
        invariant
            original@ == s,
            i <= original@.len(),
            mode == mode_at(s, i as nat),
            found@ =~= masked(s).take(i as int),
            kept@ =~= without_comments(s).take(i as int),
        decreases original@.len() - i,
    {
        let c = original[i];
        let code = match mode {
            Mode::Code => c != ';' && c != '\\',
            Mode::Str => c == '"',
            Mode::StrEscape => false,
            Mode::Comment => c == '\n',
            Mode::CharEscape => false,
        };
        let comment = (mode == Mode::Comment && c != '\n') || (mode == Mode::Code && c == ';');
        found.push(
            if code {
                c
            } else {
                ' '
            },
        );
        kept.push(
            if comment {
                ' '
            } else {
                c
            },
        );
        mode = step(mode, c);
        i += 1;
    }
    assert(found@ =~= masked(s));
    assert(kept@ =~= without_comments(s));
    let ranges = discard_ranges(&found);
    blank(&mut found, &ranges);
    blank(&mut kept, &ranges);
    (found, kept)
}

/// Whether a word may end or start at a character.
pub open spec fn boundary(c: char) -> bool {
    white_space(c) || opens(c) || closes(c) || c == '"'
}

/// Whether a word may end or start at a character.
pub fn is_boundary(c: char) -> (r: bool)
    ensures
        r == boundary(c),
{
    is_whitespace(c) || c == '(' || c == ')' || c == '[' || c == ']' || c == '{' || c == '}' || c
        == '"'
}

/// Whether `word` stands at `i`, and not inside a longer one.
pub open spec fn word_at(loc: Seq<char>, i: int, word: Seq<char>) -> bool {
    &&& stands_at(loc, word, i)
    &&& i == 0 || boundary(loc[i - 1])
    &&& i + word.len() >= loc.len() || boundary(loc[i + word.len()])
}

/// Whether `word` stands at `i`, and not inside a longer one.
pub fn at_word(loc: &[char], i: usize, word: &[char]) -> (r: bool)
    requires
        i <= loc@.len(),
    ensures
        r == word_at(loc@, i as int, word@),
{
    if !matches_at(loc, word, i) {
        return false;
    }
    let before = i == 0 || is_boundary(loc[i - 1]);
    let after: usize = i + word.len();
    before && (after >= loc.len() || is_boundary(loc[after]))
}

/// The values behind the keyword `word` from `i` on: at each place where it stands, the
/// one that the next `open` starts.
pub open spec fn values_from(
    buf: Seq<char>,
    loc: Seq<char>,
    word: Seq<char>,
    open: char,
    i: nat,
) -> Seq<EdnView>
    decreases loc.len() - i,
{
    if i >= loc.len() || word.len() == 0 {
        seq![]
    } else if word_at(loc, i as int, word) {
        let rest = values_from(buf, loc, word, open, i + word.len());
        match index_from(loc, open, i + word.len()) {
            Some(j) => match parsed_edn(buf.skip(j as int)) {
                Some(v) => seq![v] + rest,
                None => rest,
            },
            None => rest,
        }
    } else {
        values_from(buf, loc, word, open, i + 1)
    }
}

/// Whether the values behind the keyword `word` from `i` on can be parsed without the
/// parser's panicking.
pub open spec fn readable_from(
    buf: Seq<char>,
    loc: Seq<char>,
    word: Seq<char>,
    open: char,
    i: nat,
) -> bool
    decreases loc.len() - i,
{
    if i >= loc.len() || word.len() == 0 {
        true
    } else if word_at(loc, i as int, word) {
        &&& index_from(loc, open, i + word.len()) matches Some(j) ==> readable(buf.skip(j as int))
        &&& readable_from(buf, loc, word, open, i + word.len())
    } else {
        readable_from(buf, loc, word, open, i + 1)
    }
}

/// Whether the values behind a keyword of a project file can be parsed without the
/// parser's panicking.
pub open spec fn readable_at(src: Seq<char>, word: Seq<char>, open: char) -> bool {
    readable_from(parse_text(src), locator(src), word, open, 0)
}

fn can_read_after(buf: &[char], loc: &[char], word: &str, open: char) -> (r: bool)
    requires
        buf@.len() == loc@.len(),
        word@.len() > 0,
    ensures
        r == readable_from(buf@, loc@, word@, open, 0),
{
    let key = chars_of(word);
    let step: usize = key.len();
    let len: usize = loc.len();
    let mut i: usize = 0;
    while i < len
        invariant
            i <= len == loc@.len() == buf@.len(),
            key@ == word@,
            step == word@.len() > 0,
            readable_from(buf@, loc@, word@, open, 0) == readable_from(
                buf@,
                loc@,
                word@,
                open,
                i as nat,
            ),
        decreases len - i,
    {
        if at_word(loc, i, &key) {
            proof {
                lemma_index_from(loc@, open, (i + step) as nat);
            }
            if let Some(j) = find_char(loc, open, i + step) {
                let text = string_of(buf, j, len);
                assert(text@ =~= buf@.skip(j as int));
                if !is_readable(&chars_of(text.as_str())) {
                    return false;
                }
            }
            i += step;
        } else {
            i += 1;
        }
    }
    true
}

/// Whether the source directories of a project file can be parsed without the parser's
/// panicking.
pub fn can_read_paths(src: &str) -> (r: bool)
    ensures
        r == (readable_at(src@, ":source-paths"@, '[') && readable_at(src@, ":test-paths"@, '[')),
{
    proof {
        reveal_strlit(":source-paths");
        reveal_strlit(":test-paths");
    }
    let (found, kept) = prepare(src);
    can_read_after(&kept, &found, ":source-paths", '[') && can_read_after(
        &kept,
        &found,
        ":test-paths",
        '[',
    )
}

/// Whether the dependencies and the repository of a project file can be parsed without
/// the parser's panicking.
pub fn can_read_deps(src: &str) -> (r: bool)
    ensures
        r == (readable_at(src@, ":dependencies"@, '[') && readable_at(src@, ":local-repo"@, '"')),
{
    proof {
        reveal_strlit(":dependencies");
        reveal_strlit(":local-repo");
    }
    let (found, kept) = prepare(src);
    can_read_after(&kept, &found, ":dependencies", '[') && can_read_after(
        &kept,
        &found,
        ":local-repo",
        '"',
    )
}

/// The values behind a keyword.
pub fn forms_after(buf: &[char], loc: &[char], word: &str, open: char) -> (r: Vec<Edn>)
    requires
        buf@.len() == loc@.len(),
        readable_from(buf@, loc@, word@, open, 0),
        word@.len() > 0,
    ensures
        views(r@) == values_from(buf@, loc@, word@, open, 0),
{
    let key = chars_of(word);
    let step: usize = key.len();
    let len: usize = loc.len();
    let mut out: Vec<Edn> = Vec::new();
    let mut i: usize = 0;
    assert(views(out@) + values_from(buf@, loc@, word@, open, 0) =~= values_from(
        buf@,
        loc@,
        word@,
        open,
        0,
    ));
    while i < len
        invariant
            i <= len == loc@.len() == buf@.len(),
            key@ == word@,
            step == word@.len() > 0,
            readable_from(buf@, loc@, word@, open, i as nat),
            views(out@) + values_from(buf@, loc@, word@, open, i as nat) == values_from(
                buf@,
                loc@,
                word@,
                open,
                0,
            ),
        decreases len - i,
    {
        if at_word(loc, i, &key) {
            let ghost had = views(out@);
            let ghost rest = values_from(buf@, loc@, word@, open, (i + step) as nat);
            proof {
                lemma_index_from(loc@, open, (i + step) as nat);
            }
            if let Some(j) = find_char(loc, open, i + step) {
                let text = string_of(buf, j, len);
                assert(text@ =~= buf@.skip(j as int));
                if let Some(v) = parse(text.as_str()) {
                    let ghost x = v@;
                    out.push(v);
                    assert(views(out@) =~= had.push(x));
                    assert(had + (seq![x] + rest) =~= had.push(x) + rest);
                }
            }
            i += step;
        } else {
            i += 1;
        }
    }
    assert(views(out@) + values_from(buf@, loc@, word@, open, i as nat) =~= views(out@));
    out
}

/// A Maven coordinate.
#[derive(Clone, Debug, PartialEq, Eq)]
pub struct Coord {
    pub group: String,
    pub artifact: String,
    pub version: String,
}

/// What a [`Coord`] says.
pub ghost struct CoordView {
    pub group: Seq<char>,
    pub artifact: Seq<char>,
    pub version: Seq<char>,
}

impl DeepView for Coord {
    type V = CoordView;

    open spec fn deep_view(&self) -> CoordView {
        CoordView { group: self.group@, artifact: self.artifact@, version: self.version@ }
    }
}

/// The coordinate of an entry `[group/artifact "version" …]`; what follows the version
/// does not count. A symbol without a namespace is its own group.
pub open spec fn coord_of(parts: Seq<EdnView>) -> Option<CoordView> {
    if parts.len() < 2 {
        None
    } else {
        match (parts[0], parts[1]) {
            (EdnView::Symbol(n), EdnView::Text(version)) => Some(
                CoordView {
                    group: match n.namespace {
                        Some(ns) => ns,
                        None => n.name,
                    },
                    artifact: n.name,
                    version,
                },
            ),
            _ => None,
        }
    }
}

/// The coordinate of an entry.
pub fn coord_from(parts: &Vec<Edn>) -> (r: Option<Coord>)
    ensures
        r.deep_view() == coord_of(views(parts@)),
{
    if parts.len() < 2 {
        return None;
    }
    proof {
        lemma_edn(parts@[0]);
        lemma_edn(parts@[1]);
        assert(views(parts@)[0] == parts@[0]@);
        assert(views(parts@)[1] == parts@[1]@);
    }
    match (&parts[0], &parts[1]) {
        (Edn::Symbol(n), Edn::Text(version)) => {
            let group = match &n.namespace {
                Some(ns) => ns.clone(),
                None => n.name.clone(),
            };
            Some(Coord { group, artifact: n.name.clone(), version: version.clone() })
        },
        _ => None,
    }
}

/// `found` with the coordinate of an entry, unless it has it already.
pub open spec fn with_entry(found: Seq<CoordView>, entry: EdnView) -> Seq<CoordView> {
    match entry {
        EdnView::Vector(parts) => match coord_of(parts) {
            Some(c) => if found.contains(c) {
                found
            } else {
                found.push(c)
            },
            None => found,
        },
        _ => found,
    }
}

/// `found` with the coordinates of the first `n` entries.
pub open spec fn with_entries(found: Seq<CoordView>, items: Seq<EdnView>, n: nat) -> Seq<CoordView>
    decreases n,
{
    if n == 0 {
        found
    } else {
        with_entry(with_entries(found, items, (n - 1) as nat), items[n - 1])
    }
}

/// The coordinates in the first `n` dependency vectors.
pub open spec fn coords_in(forms: Seq<EdnView>, n: nat) -> Seq<CoordView>
    decreases n,
{
    if n == 0 {
        seq![]
    } else {
        let before = coords_in(forms, (n - 1) as nat);
        match forms[n - 1] {
            EdnView::Vector(items) => with_entries(before, items, items.len()),
            _ => before,
        }
    }
}

/// The coordinates of every `:dependencies` vector of a project file, each once.
pub open spec fn declared(src: Seq<char>) -> Seq<CoordView> {
    let forms = values_from(parse_text(src), locator(src), ":dependencies"@, '[', 0);
    coords_in(forms, forms.len())
}

fn has_coord(list: &Vec<Coord>, c: &Coord) -> (r: bool)
    ensures
        r == list.deep_view().contains(c.deep_view()),
{
    let ghost all = list.deep_view();
    let mut i: usize = 0;
    while i < list.len()
        invariant
            i <= list@.len(),
            all == list.deep_view(),
            forall|k: int| 0 <= k < i ==> #[trigger] all[k] != c.deep_view(),
        decreases list@.len() - i,
    {
        assert(all[i as int] == list@[i as int].deep_view());
        if str_eq(list[i].group.as_str(), c.group.as_str()) && str_eq(
            list[i].artifact.as_str(),
            c.artifact.as_str(),
        ) && str_eq(list[i].version.as_str(), c.version.as_str()) {
            return true;
        }
        i += 1;
    }
    false
}

fn add_entries(items: &Vec<Edn>, out: &mut Vec<Coord>)
    ensures
        final(out).deep_view() == with_entries(old(out).deep_view(), views(items@), items@.len()),
{
    let ghost found = out.deep_view();
    let ghost all = views(items@);
    let mut i: usize = 0;
    while i < items.len()
        invariant
            i <= items@.len(),
            all == views(items@),
            out.deep_view() == with_entries(found, all, i as nat),
        decreases items@.len() - i,
    {
        proof {
            lemma_edn(items@[i as int]);
            assert(all[i as int] == items@[i as int]@);
        }
        if let Edn::Vector(parts) = &items[i] {
            if let Some(c) = coord_from(parts) {
                if !has_coord(out, &c) {
                    push_item(out, c);
                }
            }
        }
        i += 1;
    }
}

fn add_coords(forms: &Vec<Edn>) -> (r: Vec<Coord>)
    ensures
        r.deep_view() == coords_in(views(forms@), forms@.len()),
{
    let ghost all = views(forms@);
    let mut out: Vec<Coord> = Vec::new();
    assert(out.deep_view() =~= seq![]);
    let mut i: usize = 0;
    while i < forms.len()
        invariant
            i <= forms@.len(),
            all == views(forms@),
            out.deep_view() == coords_in(all, i as nat),
        decreases forms@.len() - i,
    {
        proof {
            lemma_edn(forms@[i as int]);
            assert(all[i as int] == forms@[i as int]@);
        }
        if let Edn::Vector(items) = &forms[i] {
            add_entries(items, &mut out);
        }
        i += 1;
    }
    out
}

/// The coordinates of every `:dependencies` vector of a project file, each once.
pub fn parse_deps(src: &str) -> (r: Vec<Coord>)
    requires
        readable_at(src@, ":dependencies"@, '['),
    ensures
        r.deep_view() == declared(src@),
{
    proof {
        reveal_strlit(":dependencies");
    }
    let (found, kept) = prepare(src);
    let forms = forms_after(&kept, &found, ":dependencies", '[');
    add_coords(&forms)
}

/// `found` with the strings among the first `n` values, each once.
pub open spec fn with_texts(found: Seq<Seq<char>>, items: Seq<EdnView>, n: nat) -> Seq<Seq<char>>
    decreases n,
{
    if n == 0 {
        found
    } else {
        let before = with_texts(found, items, (n - 1) as nat);
        match text_of(Some(items[n - 1])) {
            Some(s) => if before.contains(s) {
                before
            } else {
                before.push(s)
            },
            None => before,
        }
    }
}

/// `found` with the strings in the first `n` vectors.
pub open spec fn with_vectors(found: Seq<Seq<char>>, forms: Seq<EdnView>, n: nat) -> Seq<Seq<char>>
    decreases n,
{
    if n == 0 {
        found
    } else {
        let before = with_vectors(found, forms, (n - 1) as nat);
        match forms[n - 1] {
            EdnView::Vector(items) => with_texts(before, items, items.len()),
            _ => before,
        }
    }
}

/// The directories that a project file keeps sources and tests in, each once.
pub open spec fn declared_paths(src: Seq<char>) -> Seq<Seq<char>> {
    let sources = values_from(parse_text(src), locator(src), ":source-paths"@, '[', 0);
    let tests = values_from(parse_text(src), locator(src), ":test-paths"@, '[', 0);
    with_vectors(with_vectors(seq![], sources, sources.len()), tests, tests.len())
}

fn add_texts(items: &Vec<Edn>, out: &mut Vec<String>)
    ensures
        strs(final(out)@) == with_texts(strs(old(out)@), views(items@), items@.len()),
{
    let ghost found = strs(out@);
    let ghost all = views(items@);
    let mut i: usize = 0;
    while i < items.len()
        invariant
            i <= items@.len(),
            all == views(items@),
            strs(out@) == with_texts(found, all, i as nat),
        decreases items@.len() - i,
    {
        assert(all[i as int] == items@[i as int]@);
        if let Some(s) = as_str(&items[i]) {
            if !contains_str(out, s) {
                push_str(out, s.to_owned());
            }
        }
        i += 1;
    }
}

fn add_vectors(forms: &Vec<Edn>, out: &mut Vec<String>)
    ensures
        strs(final(out)@) == with_vectors(strs(old(out)@), views(forms@), forms@.len()),
{
    let ghost found = strs(out@);
    let ghost all = views(forms@);
    let mut i: usize = 0;
    while i < forms.len()
        invariant
            i <= forms@.len(),
            all == views(forms@),
            strs(out@) == with_vectors(found, all, i as nat),
        decreases forms@.len() - i,
    {
        proof {
            lemma_edn(forms@[i as int]);
            assert(all[i as int] == forms@[i as int]@);
        }
        if let Edn::Vector(items) = &forms[i] {
            add_texts(items, out);
        }
        i += 1;
    }
}

/// The directories that a project file keeps sources and tests in, each once.
pub fn source_paths(edn: &str) -> (r: Vec<String>)
    requires
        readable_at(edn@, ":source-paths"@, '['),
        readable_at(edn@, ":test-paths"@, '['),
    ensures
        strs(r@) == declared_paths(edn@),
{
    proof {
        reveal_strlit(":source-paths");
        reveal_strlit(":test-paths");
    }
    let (found, kept) = prepare(edn);
    let mut out: Vec<String> = Vec::new();
    assert(strs(out@) =~= seq![]);
    add_vectors(&forms_after(&kept, &found, ":source-paths", '['), &mut out);
    add_vectors(&forms_after(&kept, &found, ":test-paths", '['), &mut out);
    out
}

/// `s` with `/` for every `.`.
pub open spec fn slashed(s: Seq<char>) -> Seq<char> {
    s.map_values(
        |c: char|
            if c == '.' {
                '/'
            } else {
                c
            },
    )
}

fn slash(s: &str) -> (r: String)
    ensures
        r@ == slashed(s@),
{
    let chars = chars_of(s);
    let mut out = String::new();
    let mut i: usize = 0;
    while i < chars.len()
        invariant
            chars@ == s@,
            i <= chars@.len(),
            out@ =~= slashed(s@).take(i as int),
        decreases chars@.len() - i,
    {
        out.push(
            if chars[i] == '.' {
                '/'
            } else {
                chars[i]
            },
        );
        i += 1;
    }
    assert(out@ =~= slashed(s@));
    out
}

/// Where a Maven repository keeps the archive of a coordinate:
/// `<repo>/<group>/<artifact>/<version>/<artifact>-<version>.jar`, the group's dots as
/// directories.
pub open spec fn archive_of(repo: Seq<char>, c: CoordView) -> Seq<char> {
    joined(
        joined(joined(joined(repo, slashed(c.group)), c.artifact), c.version),
        c.artifact + "-"@ + c.version + ".jar"@,
    )
}

/// Where a Maven repository keeps the archive of a coordinate.
pub fn jar_path(repo: &str, coord: &Coord) -> (r: String)
    ensures
        r@ == archive_of(repo@, coord.deep_view()),
{
    let group = join(repo, slash(coord.group.as_str()).as_str());
    let artifact = join(group.as_str(), coord.artifact.as_str());
    let version = join(artifact.as_str(), coord.version.as_str());
    let base = concat3(coord.artifact.as_str(), "-", coord.version.as_str());
    let file = concat2(base.as_str(), ".jar");
    join(version.as_str(), file.as_str())
}

/// The Maven repository of a user.
pub open spec fn user_repo(home: Option<Seq<char>>) -> Option<Seq<char>> {
    match home {
        Some(home) => Some(joined(joined(home, ".m2"@), "repository"@)),
        None => None,
    }
}

/// The Maven repository of the user whose home directory is `home`.
pub fn default_m2(home: &Option<String>) -> (r: Option<String>)
    ensures
        r.deep_view() == user_repo(home.deep_view()),
{
    match home {
        Some(home) => {
            let m2 = join(home.as_str(), ".m2");
            Some(join(m2.as_str(), "repository"))
        },
        None => None,
    }
}

/// The first string from `i` on.
pub open spec fn first_text(forms: Seq<EdnView>, i: nat) -> Option<Seq<char>>
    decreases forms.len() - i,
{
    if i >= forms.len() {
        None
    } else {
        match text_of(Some(forms[i as int])) {
            Some(s) => Some(s),
            None => first_text(forms, i + 1),
        }
    }
}

/// The Maven repository of a project: the one that it declares, which is relative to the
/// project unless it is absolute, and else the user's.
pub open spec fn repo_of(root: Seq<char>, src: Seq<char>, home: Option<Seq<char>>) -> Option<
    Seq<char>,
> {
    match first_text(values_from(parse_text(src), locator(src), ":local-repo"@, '"', 0), 0) {
        Some(p) => Some(joined(root, p)),
        None => user_repo(home),
    }
}

/// The Maven repository of a project.
pub fn m2_repo(root: &str, edn: &str, home: &Option<String>) -> (r: Option<String>)
    requires
        readable_at(edn@, ":local-repo"@, '"'),
    ensures
        r.deep_view() == repo_of(root@, edn@, home.deep_view()),
{
    proof {
        reveal_strlit(":local-repo");
    }
    let (found, kept) = prepare(edn);
    let forms = forms_after(&kept, &found, ":local-repo", '"');
    let ghost all = views(forms@);
    let mut i: usize = 0;
    while i < forms.len()
        invariant
            i <= forms@.len(),
            all == views(forms@),
            all == values_from(parse_text(edn@), locator(edn@), ":local-repo"@, '"', 0),
            first_text(all, 0) == first_text(all, i as nat),
        decreases forms@.len() - i,
    {
        assert(all[i as int] == forms@[i as int]@);
        if let Some(p) = as_str(&forms[i]) {
            return Some(join(root, p));
        }
        i += 1;
    }
    default_m2(home)
}

/// Of the first `n` coordinates, the archives that are on disk, each once.
pub open spec fn archives(
    repo: Seq<char>,
    coords: Seq<CoordView>,
    on_disk: Seq<Seq<char>>,
    n: nat,
) -> Seq<Seq<char>>
    decreases n,
{
    if n == 0 {
        seq![]
    } else {
        let before = archives(repo, coords, on_disk, (n - 1) as nat);
        let jar = archive_of(repo, coords[n - 1]);
        if on_disk.contains(jar) && !lists_path(before, jar) {
            before.push(jar)
        } else {
            before
        }
    }
}

/// The archives of a project's dependencies that are on disk, of which `on_disk` lists
/// the files.
pub fn resolve_with_repo(edn: &str, repo: &str, on_disk: &Vec<String>) -> (r: Vec<String>)
    requires
        readable_at(edn@, ":dependencies"@, '['),
    ensures
        strs(r@) == archives(repo@, declared(edn@), strs(on_disk@), declared(edn@).len()),
{
    let coords = parse_deps(edn);
    let ghost all = coords.deep_view();
    let mut out: Vec<String> = Vec::new();
    assert(strs(out@) =~= seq![]);
    let mut i: usize = 0;
    while i < coords.len()
        invariant
            i <= coords@.len(),
            all == coords.deep_view(),
            strs(out@) == archives(repo@, all, strs(on_disk@), i as nat),
        decreases coords@.len() - i,
    {
        assert(all[i as int] == coords@[i as int].deep_view());
        let jar = jar_path(repo, &coords[i]);
        if contains_str(on_disk, jar.as_str()) && !contains_path(&out, jar.as_str()) {
            push_str(&mut out, jar);
        }
        i += 1;
    }
    out
}

/// The archives that a project's dependencies would be kept in; none where no repository
/// is known.
pub fn wanted(root: &str, edn: &str, home: &Option<String>) -> (r: Vec<String>)
    requires
        readable_at(edn@, ":dependencies"@, '['),
        readable_at(edn@, ":local-repo"@, '"'),
    ensures
        strs(r@) == (match repo_of(root@, edn@, home.deep_view()) {
            Some(repo) => declared(edn@).map_values(|c: CoordView| archive_of(repo, c)),
            None => seq![],
        }),
{
    let mut out: Vec<String> = Vec::new();
    match m2_repo(root, edn, home) {
        Some(repo) => {
            let coords = parse_deps(edn);
            let ghost all = declared(edn@).map_values(|c: CoordView| archive_of(repo@, c));
            let mut i: usize = 0;
            while i < coords.len()
                invariant
                    i <= coords@.len(),
                    coords.deep_view() == declared(edn@),
                    all == declared(edn@).map_values(|c: CoordView| archive_of(repo@, c)),
                    strs(out@) =~= all.take(i as int),
                decreases coords@.len() - i,
            {
                assert(coords.deep_view()[i as int] == coords@[i as int].deep_view());
                push_str(&mut out, jar_path(repo.as_str(), &coords[i]));
                i += 1;
            }
            assert(strs(out@) =~= all);
        },
        None => {
            assert(strs(out@) =~= seq![]);
        },
    }
    out
}

/// The archives of the dependencies of the project in `root` that are on disk: `edn` is
/// its project file, where it has one, and `on_disk` lists the files there are.
pub fn resolve(root: &str, edn: &Option<String>, home: &Option<String>, on_disk: &Vec<String>) -> (r:
    Vec<String>)
    requires
        edn matches Some(text) ==> readable_at(text@, ":dependencies"@, '[') && readable_at(
            text@,
            ":local-repo"@,
            '"',
        ),
    ensures
        strs(r@) == (match edn {
            Some(text) => match repo_of(root@, text@, home.deep_view()) {
                Some(repo) => archives(repo, declared(text@), strs(on_disk@), declared(text@).len()),
                None => seq![],
            },
            None => seq![],
        }),
{
    if let Some(text) = edn {
        if let Some(repo) = m2_repo(root, text.as_str(), home) {
            return resolve_with_repo(text.as_str(), repo.as_str(), on_disk);
        }
    }
    let none: Vec<String> = Vec::new();
    assert(strs(none@) =~= seq![]);
    none
}

/// What a string, a comment or a discarded form says declares nothing: only code is left
/// to find a keyword in.
pub proof fn law_only_code_declares(src: Seq<char>, i: int)
    requires
        0 <= i < src.len(),
        locator(src)[i] != ' ',
    ensures
        locator(src)[i] == src[i],
        is_code(mode_at(src, i as nat), src[i]),
        !discarded(discards_from(masked(src), 0), i),
{
}

/// Each dependency is declared once, however often the file names it.
pub proof fn law_declared_once(forms: Seq<EdnView>, n: nat)
    requires
        n <= forms.len(),
    ensures
        coords_in(forms, n).no_duplicates(),
    decreases n,
{
    if n > 0 {
        law_declared_once(forms, (n - 1) as nat);
        match forms[n - 1] {
            EdnView::Vector(items) => {
                lemma_entries_once(coords_in(forms, (n - 1) as nat), items, items.len());
            },
            _ => {},
        }
    }
}

proof fn lemma_entries_once(found: Seq<CoordView>, items: Seq<EdnView>, n: nat)
    requires
        found.no_duplicates(),
    ensures
        with_entries(found, items, n).no_duplicates(),
    decreases n,
{
    if n > 0 {
        lemma_entries_once(found, items, (n - 1) as nat);
    }
}

/// Only archives on disk are handed on.
pub proof fn law_only_present_archives(
    repo: Seq<char>,
    coords: Seq<CoordView>,
    on_disk: Seq<Seq<char>>,
    n: nat,
    jar: Seq<char>,
)
    requires
        n <= coords.len(),
        archives(repo, coords, on_disk, n).contains(jar),
    ensures
        on_disk.contains(jar),
    decreases n,
{
    if n > 0 {
        let before = archives(repo, coords, on_disk, (n - 1) as nat);
        crate::sort::lemma_push_contains(before, archive_of(repo, coords[n - 1]), jar);
        if before.contains(jar) {
            law_only_present_archives(repo, coords, on_disk, (n - 1) as nat, jar);
        }
    }
}

/// Whether the entry declares the dependency: a vector that starts with the symbol of the artifact
/// and the text of its version. The group is that of the symbol, or the artifact where it has none.
pub open spec fn declares(entry: EdnView, c: CoordView) -> bool {
    entry matches EdnView::Vector(parts) && parts.len() >= 2 && (parts[0] matches EdnView::Symbol(n)
        && c.artifact == n.name && (n.namespace matches Some(group) ==> c.group == group) && (
    n.namespace is None ==> c.group == n.name)) && (parts[1] matches EdnView::Text(version)
        && c.version == version)
}

proof fn lemma_entries_declare(found: Seq<CoordView>, items: Seq<EdnView>, n: nat, c: CoordView)
    requires
        n <= items.len(),
    ensures
        with_entries(found, items, n).contains(c) <==> found.contains(c) || exists|k: int|
            0 <= k < n && declares(#[trigger] items[k], c),
    decreases n,
{
    if n > 0 {
        lemma_entries_declare(found, items, (n - 1) as nat, c);
        let before = with_entries(found, items, (n - 1) as nat);
        if let EdnView::Vector(parts) = items[n - 1] {
            if let Some(d) = coord_of(parts) {
                crate::sort::lemma_push_contains(before, d, c);
                assert(declares(items[n - 1], c) <==> c == d);
            }
        }
    }
}

/// The dependencies of a project are those that the entries of all its vectors of dependencies
/// declare.
pub proof fn law_every_dependency_is_declared(forms: Seq<EdnView>, n: nat, c: CoordView)
    requires
        n <= forms.len(),
    ensures
        coords_in(forms, n).contains(c) <==> exists|f: int, k: int|
            0 <= f < n && #[trigger] declared_at(forms[f], k, c),
    decreases n,
{
    if n > 0 {
        law_every_dependency_is_declared(forms, (n - 1) as nat, c);
        let before = coords_in(forms, (n - 1) as nat);
        if let EdnView::Vector(items) = forms[n - 1] {
            lemma_entries_declare(before, items, items.len(), c);
            if exists|k: int| 0 <= k < items.len() && declares(#[trigger] items[k], c) {
                let k = choose|k: int| 0 <= k < items.len() && declares(#[trigger] items[k], c);
                assert(declared_at(forms[n - 1], k, c));
            }
        }
        if exists|f: int, k: int| 0 <= f < n && #[trigger] declared_at(forms[f], k, c) {
            let (f, k) = choose|f: int, k: int| 0 <= f < n && #[trigger] declared_at(forms[f], k, c);
            if f < n - 1 {
                assert(before.contains(c));
            } else {
                assert(declares(forms[n - 1]->Vector_0[k], c));
            }
        }
        if before.contains(c) {
            let (f, k) = choose|f: int, k: int|
                0 <= f < n - 1 && #[trigger] declared_at(forms[f], k, c);
            assert(declared_at(forms[f], k, c));
        }
    } else {
        assert(coords_in(forms, n) =~= seq![]);
    }
}

/// Whether the entry at `k` of a vector declares the dependency.
pub open spec fn declared_at(form: EdnView, k: int, c: CoordView) -> bool {
    form matches EdnView::Vector(items) && 0 <= k < items.len() && declares(items[k], c)
}

/// Whether the text at `k` of a vector is the path.
pub open spec fn path_at(form: EdnView, k: int, p: Seq<char>) -> bool {
    form matches EdnView::Vector(items) && 0 <= k < items.len() && text_of(Some(items[k])) == Some(p)
}

proof fn lemma_texts_hold(found: Seq<Seq<char>>, items: Seq<EdnView>, n: nat, p: Seq<char>)
    requires
        n <= items.len(),
    ensures
        with_texts(found, items, n).contains(p) <==> found.contains(p) || exists|k: int|
            0 <= k < n && text_of(Some(#[trigger] items[k])) == Some(p),
    decreases n,
{
    if n > 0 {
        lemma_texts_hold(found, items, (n - 1) as nat, p);
        let before = with_texts(found, items, (n - 1) as nat);
        if let Some(s) = text_of(Some(items[n - 1])) {
            crate::sort::lemma_push_contains(before, s, p);
        }
    }
}

proof fn lemma_vectors_hold(found: Seq<Seq<char>>, forms: Seq<EdnView>, n: nat, p: Seq<char>)
    requires
        n <= forms.len(),
    ensures
        with_vectors(found, forms, n).contains(p) <==> found.contains(p) || exists|f: int, k: int|
            0 <= f < n && #[trigger] path_at(forms[f], k, p),
    decreases n,
{
    if n > 0 {
        lemma_vectors_hold(found, forms, (n - 1) as nat, p);
        let before = with_vectors(found, forms, (n - 1) as nat);
        if let EdnView::Vector(items) = forms[n - 1] {
            lemma_texts_hold(before, items, items.len(), p);
            if exists|k: int| 0 <= k < items.len() && text_of(Some(#[trigger] items[k])) == Some(p) {
                let k = choose|k: int|
                    0 <= k < items.len() && text_of(Some(#[trigger] items[k])) == Some(p);
                assert(path_at(forms[n - 1], k, p));
            }
        }
        if exists|f: int, k: int| 0 <= f < n && #[trigger] path_at(forms[f], k, p) {
            let (f, k) = choose|f: int, k: int| 0 <= f < n && #[trigger] path_at(forms[f], k, p);
            if f < n - 1 {
                assert(before.contains(p));
            } else {
                assert(text_of(Some(forms[n - 1]->Vector_0[k])) == Some(p));
            }
        }
    }
}

/// The paths of a project are the texts of all its vectors of source paths and of test paths.
pub proof fn law_every_path_is_declared(src: Seq<char>, p: Seq<char>)
    ensures
        ({
            let sources = values_from(parse_text(src), locator(src), ":source-paths"@, '[', 0);
            let tests = values_from(parse_text(src), locator(src), ":test-paths"@, '[', 0);
            declared_paths(src).contains(p) <==> {
                ||| exists|f: int, k: int|
                    0 <= f < sources.len() && #[trigger] path_at(sources[f], k, p)
                ||| exists|f: int, k: int| 0 <= f < tests.len() && #[trigger] path_at(tests[f], k, p)
            }
        }),
{
    let sources = values_from(parse_text(src), locator(src), ":source-paths"@, '[', 0);
    let tests = values_from(parse_text(src), locator(src), ":test-paths"@, '[', 0);
    lemma_vectors_hold(seq![], sources, sources.len(), p);
    lemma_vectors_hold(
        with_vectors(seq![], sources, sources.len()),
        tests,
        tests.len(),
        p,
    );
    assert(!Seq::<Seq<char>>::empty().contains(p));
}

/// Whether the value is what the first `open` behind the word at `i` starts.
pub open spec fn value_behind(
    buf: Seq<char>,
    loc: Seq<char>,
    word: Seq<char>,
    open: char,
    i: int,
    v: EdnView,
) -> bool {
    &&& 0 <= i
    &&& word_at(loc, i, word)
    &&& index_from(loc, open, (i + word.len()) as nat) matches Some(j) && parsed_edn(
        buf.skip(j as int),
    ) == Some(v)
}

proof fn lemma_words_apart(loc: Seq<char>, word: Seq<char>, i: int, j: int)
    requires
        forall|k: int| 0 <= k < word.len() ==> !boundary(#[trigger] word[k]),
        0 <= i < j < i + word.len(),
        word_at(loc, i, word),
    ensures
        !word_at(loc, j, word),
{
    assert(loc.subrange(i, i + word.len())[j - 1 - i] == loc[j - 1]);
    assert(loc[j - 1] == word[j - 1 - i]);
}

/// The values behind a word are those behind each place where the word stands on its own.
pub proof fn law_values_stand_behind_the_word(
    buf: Seq<char>,
    loc: Seq<char>,
    word: Seq<char>,
    open: char,
    i: nat,
    v: EdnView,
)
    requires
        word.len() > 0,
        forall|k: int| 0 <= k < word.len() ==> !boundary(#[trigger] word[k]),
    ensures
        values_from(buf, loc, word, open, i).contains(v) <==> exists|k: int|
            i <= k && #[trigger] value_behind(buf, loc, word, open, k, v),
    decreases loc.len() - i,
{
    let at = i as int;
    if i >= loc.len() {
        assert(values_from(buf, loc, word, open, i) =~= seq![]);
    } else if word_at(loc, at, word) {
        let next = (i + word.len()) as nat;
        let rest = values_from(buf, loc, word, open, next);
        law_values_stand_behind_the_word(buf, loc, word, open, next, v);
        match index_from(loc, open, next) {
            Some(j) => match parsed_edn(buf.skip(j as int)) {
                Some(first) => {
                    assert(seq![first][0] == first);
                    crate::handlers::references::lemma_concat_contains(seq![first], rest, v);
                    assert(value_behind(buf, loc, word, open, at, v) <==> v == first);
                },
                None => {},
            },
            None => {},
        }
        assert forall|k: int|
            i <= k && #[trigger] value_behind(buf, loc, word, open, k, v) implies k == at || next
            <= k by {
            if at < k < next {
                lemma_words_apart(loc, word, at, k);
            }
        }
    } else {
        law_values_stand_behind_the_word(buf, loc, word, open, i + 1, v);
        assert forall|k: int|
            i <= k && #[trigger] value_behind(buf, loc, word, open, k, v) implies i + 1 <= k by {}
    }
}

/// What a string holds is masked, up to the quote that ends it; behind that quote there is code
/// again.
pub proof fn law_strings_are_masked(s: Seq<char>, i: nat, j: nat, k: nat)
    requires
        i < j < s.len(),
        mode_at(s, i) == Mode::Code,
        s[i as int] == '"',
        s[j as int] == '"',
        forall|m: int| i < m < j ==> (#[trigger] s[m]) != '"' && s[m] != '\\',
    ensures
        i < k < j ==> masked(s)[k as int] == ' ',
        masked(s)[i as int] == '"',
        masked(s)[j as int] == '"',
        mode_at(s, j + 1) == Mode::Code,
{
    lemma_in_string(s, i, j);
    if i < k < j {
        lemma_in_string(s, i, k);
    }
}

proof fn lemma_in_string(s: Seq<char>, i: nat, j: nat)
    requires
        i < j < s.len(),
        mode_at(s, i) == Mode::Code,
        s[i as int] == '"',
        forall|m: int| i < m < j ==> (#[trigger] s[m]) != '"' && s[m] != '\\',
    ensures
        mode_at(s, j) == Mode::Str,
    decreases j,
{
    if j > i + 1 {
        lemma_in_string(s, i, (j - 1) as nat);
    }
}

/// A comment is masked up to the end of its line, in what is searched and in what is read.
pub proof fn law_comments_are_masked(s: Seq<char>, i: nat, k: nat)
    requires
        i <= k < s.len(),
        mode_at(s, i) == Mode::Code,
        s[i as int] == ';',
        forall|m: int| i <= m <= k ==> (#[trigger] s[m]) != '\n',
    ensures
        masked(s)[k as int] == ' ',
        without_comments(s)[k as int] == ' ',
    decreases k,
{
    if i < k {
        lemma_in_comment(s, i, k);
    }
}

proof fn lemma_in_comment(s: Seq<char>, i: nat, k: nat)
    requires
        i < k < s.len(),
        mode_at(s, i) == Mode::Code,
        s[i as int] == ';',
        forall|m: int| i <= m <= k ==> (#[trigger] s[m]) != '\n',
    ensures
        mode_at(s, k) == Mode::Comment,
    decreases k,
{
    if k > i + 1 {
        lemma_in_comment(s, i, (k - 1) as nat);
    }
}

/// Every archive on disk that a dependency names is listed.
pub proof fn law_present_archives_are_listed(
    repo: Seq<char>,
    coords: Seq<CoordView>,
    on_disk: Seq<Seq<char>>,
    n: nat,
    k: int,
)
    requires
        0 <= k < n <= coords.len(),
        on_disk.contains(archive_of(repo, coords[k])),
    ensures
        lists_path(archives(repo, coords, on_disk, n), archive_of(repo, coords[k])),
    decreases n,
{
    let before = archives(repo, coords, on_disk, (n - 1) as nat);
    let after = archives(repo, coords, on_disk, n);
    let jar = archive_of(repo, coords[k]);
    if k < n - 1 {
        law_present_archives_are_listed(repo, coords, on_disk, (n - 1) as nat, k);
        let i = choose|i: int|
            0 <= i < before.len() && components_of(#[trigger] before[i]) == components_of(jar);
        assert(after[i] == before[i]);
    } else if !lists_path(before, jar) {
        assert(after[before.len() as int] == jar);
    }
}

}
