//! The text of an open document, kept in a rope, and how it falls into lines.

use vstd::prelude::*;
use vstd::utf8::encode_utf8;
use ropey::Rope;

verus! {

/// `ropey::Rope`, a text that is cheap to edit and to copy.
#[verifier::external_type_specification]
#[verifier::external_body]
pub struct ExRope(ropey::Rope);

/// The characters of a rope.
pub uninterp spec fn rope_text(rope: Rope) -> Seq<char>;

/// Whether a line of `t` ends with the character at `i`. A carriage return that a
/// line feed follows does not end a line; the line feed does.
pub open spec fn ends_line(t: Seq<char>, i: int) -> bool {
    let c = t[i];
    ||| c == '\n' || c == '\u{b}' || c == '\u{c}' || c == '\u{85}'
    ||| c == '\u{2028}' || c == '\u{2029}'
    ||| c == '\r' && !(i + 1 < t.len() && t[i + 1] == '\n')
}

/// How many lines end among the first `n` characters of `t`.
pub open spec fn line_ends(t: Seq<char>, n: nat) -> nat
    decreases n,
{
    if n == 0 {
        0
    } else {
        line_ends(t, (n - 1) as nat) + (if ends_line(t, n - 1) {
            1nat
        } else {
            0
        })
    }
}

/// How many lines `t` has; an empty text has one.
pub open spec fn line_count(t: Seq<char>) -> nat {
    line_ends(t, t.len()) + 1
}

/// Where in `t` the text after the `k`-th line end from `i` on starts.
pub open spec fn after_line_ends(t: Seq<char>, k: nat, i: nat) -> nat
    decreases t.len() - i,
{
    if k == 0 || i >= t.len() {
        i
    } else if ends_line(t, i as int) {
        after_line_ends(t, (k - 1) as nat, i + 1)
    } else {
        after_line_ends(t, k, i + 1)
    }
}

/// Where line `k` of `t` starts; the end of `t` for the lines that it lacks.
pub open spec fn line_start(t: Seq<char>, k: nat) -> nat {
    after_line_ends(t, k, 0)
}

/// Line `k` of `t`, with what ends it.
pub open spec fn line_at(t: Seq<char>, k: nat) -> Seq<char> {
    t.subrange(line_start(t, k) as int, line_start(t, k + 1) as int)
}

/// A line without what ends it.
pub open spec fn without_end(line: Seq<char>) -> Seq<char> {
    let n = line.len() as int;
    if n > 0 && ends_line(line, n - 1) {
        if n > 1 && line[n - 1] == '\n' && line[n - 2] == '\r' {
            line.take(n - 2)
        } else {
            line.take(n - 1)
        }
    } else {
        line
    }
}

/// How long a line is without what ends it.
pub fn text_len(line: &[char]) -> (r: usize)
    ensures
        r == without_end(line@).len(),
        without_end(line@) == line@.take(r as int),
{
    let n: usize = line.len();
    assert(line@.take(n as int) =~= line@);
    if n == 0 {
        return 0;
    }
    let c = line[n - 1];
    let ends = c == '\n' || c == '\u{b}' || c == '\u{c}' || c == '\u{85}' || c == '\u{2028}' || c
        == '\u{2029}' || c == '\r';
    if !ends {
        n
    } else if n > 1 && c == '\n' && line[n - 2] == '\r' {
        n - 2
    } else {
        n - 1
    }
}

proof fn lemma_after_line_ends(t: Seq<char>, k: nat, i: nat)
    requires
        i <= t.len(),
    ensures
        i <= after_line_ends(t, k, i) <= after_line_ends(t, k + 1, i) <= t.len(),
    decreases t.len() - i,
{
    if i < t.len() {
        if ends_line(t, i as int) {
            if k > 0 {
                lemma_after_line_ends(t, (k - 1) as nat, i + 1);
            } else {
                lemma_after_line_ends(t, 0, i + 1);
            }
        } else {
            lemma_after_line_ends(t, k, i + 1);
        }
    }
}

/// Lines start one after the other, within the text.
pub proof fn lemma_line_start(t: Seq<char>, j: nat, k: nat)
    requires
        j <= k,
    ensures
        line_start(t, j) <= line_start(t, k) <= t.len(),
        line_at(t, j).len() == line_start(t, j + 1) - line_start(t, j),
    decreases k - j,
{
    lemma_after_line_ends(t, j, 0);
    if j < k {
        lemma_line_start(t, j + 1, k);
    }
}

proof fn lemma_line_ends_from(t: Seq<char>, k: nat, i: nat)
    requires
        i <= t.len(),
        k <= line_ends(t, t.len()) - line_ends(t, i),
    ensures
        line_ends(t, after_line_ends(t, k, i)) == line_ends(t, i) + k,
    decreases t.len() - i,
{
    if k > 0 && i < t.len() {
        if ends_line(t, i as int) {
            lemma_line_ends_from(t, (k - 1) as nat, i + 1);
        } else {
            lemma_line_ends_from(t, k, i + 1);
        }
    }
}

/// As many lines end before line `k` as its number says.
pub proof fn law_line_number_counts_ends(t: Seq<char>, k: nat)
    requires
        k < line_count(t),
    ensures
        line_ends(t, line_start(t, k)) == k,
{
    lemma_line_ends_from(t, k, 0);
}

/// The first `n` lines of `t`, one after the other.
pub open spec fn first_lines(t: Seq<char>, n: nat) -> Seq<char>
    decreases n,
{
    if n == 0 {
        seq![]
    } else {
        first_lines(t, (n - 1) as nat) + line_at(t, (n - 1) as nat)
    }
}

proof fn lemma_first_lines(t: Seq<char>, n: nat)
    ensures
        first_lines(t, n) == t.take(line_start(t, n) as int),
    decreases n,
{
    if n > 0 {
        lemma_first_lines(t, (n - 1) as nat);
        lemma_line_start(t, (n - 1) as nat, n);
        assert(first_lines(t, n) =~= t.take(line_start(t, n) as int));
    } else {
        assert(first_lines(t, n) =~= t.take(0));
    }
}

proof fn lemma_past_last_line(t: Seq<char>, k: nat, i: nat)
    requires
        i <= t.len(),
        k > line_ends(t, t.len()) - line_ends(t, i),
    ensures
        after_line_ends(t, k, i) == t.len(),
    decreases t.len() - i,
{
    if i < t.len() {
        lemma_line_ends_mono(t, i + 1, t.len());
        if ends_line(t, i as int) {
            lemma_past_last_line(t, (k - 1) as nat, i + 1);
        } else {
            lemma_past_last_line(t, k, i + 1);
        }
    }
}

proof fn lemma_line_ends_mono(t: Seq<char>, i: nat, j: nat)
    requires
        i <= j,
    ensures
        line_ends(t, i) <= line_ends(t, j),
    decreases j,
{
    if i < j {
        lemma_line_ends_mono(t, i, (j - 1) as nat);
    }
}

/// The lines of a text, one after the other, are the text.
pub proof fn law_lines_make_the_text(t: Seq<char>)
    ensures
        first_lines(t, line_count(t)) == t,
{
    lemma_first_lines(t, line_count(t));
    lemma_past_last_line(t, line_count(t), 0);
    assert(t.take(t.len() as int) =~= t);
}

/// `ropey::Rope::from_str`: a rope of the characters of `s`.
#[verifier::external_body]
pub(crate) fn rope_from_str(s: &str) -> (r: Rope)
    ensures
        rope_text(r) == s@,
{
    Rope::from_str(s)
}

/// `ropey::Rope`'s `Display`: the characters of the rope.
#[verifier::external_body]
pub(crate) fn rope_string(rope: &Rope) -> (r: String)
    ensures
        r@ == rope_text(*rope),
{
    rope.to_string()
}

/// `ropey::Rope`'s `Clone`: the copy has the same characters.
pub assume_specification[ <ropey::Rope as Clone>::clone ](rope: &Rope) -> (r: Rope)
    ensures
        rope_text(r) == rope_text(*rope),
;

/// `ropey::Rope::len_chars`: how many characters the rope has.
#[verifier::external_body]
pub(crate) fn rope_len_chars(rope: &Rope) -> (r: usize)
    ensures
        r == rope_text(*rope).len(),
{
    rope.len_chars()
}

/// `ropey::Rope::len_lines`: how many lines the rope has. The line ends are those
/// that the crate's default features recognise.
#[verifier::external_body]
pub(crate) fn rope_len_lines(rope: &Rope) -> (r: usize)
    ensures
        r == line_count(rope_text(*rope)),
{
    rope.len_lines()
}

/// `ropey::Rope::line`: a line of the rope, with what ends it.
#[verifier::external_body]
pub(crate) fn rope_line(rope: &Rope, k: usize) -> (r: String)
    requires
        k < line_count(rope_text(*rope)),
    ensures
        r@ == line_at(rope_text(*rope), k as nat),
{
    rope.line(k).to_string()
}

/// `ropey::Rope::line_to_char`: where a line of the rope starts.
#[verifier::external_body]
pub(crate) fn rope_line_to_char(rope: &Rope, k: usize) -> (r: usize)
    requires
        k < line_count(rope_text(*rope)),
    ensures
        r == line_start(rope_text(*rope), k as nat),
{
    rope.line_to_char(k)
}

/// `ropey::Rope::char_to_line`: how many lines end before a character.
#[verifier::external_body]
pub(crate) fn rope_char_to_line(rope: &Rope, i: usize) -> (r: usize)
    requires
        i <= rope_text(*rope).len(),
    ensures
        r == line_ends(rope_text(*rope), i as nat),
{
    rope.char_to_line(i)
}

/// `ropey::Rope::char_to_byte`: how many bytes of UTF-8 stand before a character.
#[verifier::external_body]
pub(crate) fn rope_char_to_byte(rope: &Rope, i: usize) -> (r: usize)
    requires
        i <= rope_text(*rope).len(),
    ensures
        r == encode_utf8(rope_text(*rope).take(i as int)).len(),
{
    rope.char_to_byte(i)
}

/// `ropey::Rope::slice`: the first `n` characters of the rope.
#[verifier::external_body]
pub(crate) fn rope_prefix(rope: &Rope, n: usize) -> (r: String)
    requires
        n <= rope_text(*rope).len(),
    ensures
        r@ == rope_text(*rope).take(n as int),
{
    rope.slice(..n).to_string()
}

/// `ropey::Rope::remove`: the characters `from..to` leave the rope.
#[verifier::external_body]
pub(crate) fn rope_remove(rope: &mut Rope, from: usize, to: usize)
    requires
        from <= to <= rope_text(*old(rope)).len(),
    ensures
        rope_text(*final(rope)) == rope_text(*old(rope)).take(from as int) + rope_text(
            *old(rope),
        ).skip(to as int),
{
    rope.remove(from..to)
}

/// `ropey::Rope::insert`: the text stands in the rope at a character.
#[verifier::external_body]
pub(crate) fn rope_insert(rope: &mut Rope, at: usize, text: &str)
    requires
        at <= rope_text(*old(rope)).len(),
    ensures
        rope_text(*final(rope)) == rope_text(*old(rope)).take(at as int) + text@ + rope_text(
            *old(rope),
        ).skip(at as int),
{
    rope.insert(at, text)
}

}
