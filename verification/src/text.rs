//! Strings as sequences of characters: comparing, cutting and joining them.

use vstd::prelude::*;
use vstd::utf8::{decode_utf8, encode_utf8, is_char_boundary, valid_utf8};

verus! {

broadcast use vstd::utf8::group_utf8_lib;

/// `str::eq`: two strings are equal exactly when they hold the same characters.
#[verifier::external_body]
pub(crate) fn str_eq(a: &str, b: &str) -> (r: bool)
    ensures
        r == (a@ == b@),
{
    a == b
}

/// `String::push` appends one character.
pub assume_specification[ String::push ](s: &mut String, c: char)
    ensures
        final(s)@ == old(s)@.push(c),
;

/// The characters of `s`.
pub fn chars_of(s: &str) -> (r: Vec<char>)
    ensures
        r@ == s@,
{
    let mut out: Vec<char> = Vec::new();
    for c in it: s.chars()
        invariant
            out@ == it.seq().take(it.index()),
            it.seq() == s@,
    {
        out.push(c);
    }
    out
}

/// The string that the characters `cs[from..to]` spell.
pub fn string_of(cs: &[char], from: usize, to: usize) -> (r: String)
    requires
        from <= to <= cs@.len(),
    ensures
        r@ == cs@.subrange(from as int, to as int),
{
    let mut out = String::new();
    let mut i: usize = from;
    while i < to
        invariant
            from <= i <= to <= cs@.len(),
            out@ == cs@.subrange(from as int, i as int),
        decreases to - i,
    {
        out.push(cs[i]);
        i += 1;
    }
    out
}

/// `a` followed by `b`.
pub fn concat2(a: &str, b: &str) -> (r: String)
    ensures
        r@ == a@ + b@,
{
    let mut out = a.to_owned();
    out.append(b);
    out
}

/// `a`, `b` and `c`, one after the other.
pub fn concat3(a: &str, b: &str, c: &str) -> (r: String)
    ensures
        r@ == a@ + b@ + c@,
{
    let mut out = a.to_owned();
    out.append(b);
    out.append(c);
    out
}

/// Whether `from..to` are byte offsets that cut `s` between characters.
pub open spec fn cuts(s: Seq<char>, from: int, to: int) -> bool {
    &&& from <= to
    &&& is_char_boundary(encode_utf8(s), from)
    &&& is_char_boundary(encode_utf8(s), to)
}

/// The part of `s` between two byte offsets.
pub open spec fn slice(s: Seq<char>, from: int, to: int) -> Seq<char> {
    decode_utf8(encode_utf8(s).subrange(from, to))
}

proof fn lemma_boundary_in_prefix(bytes: Seq<u8>, from: int, to: int)
    requires
        valid_utf8(bytes),
        0 <= from <= to <= bytes.len(),
        is_char_boundary(bytes, from),
        is_char_boundary(bytes, to),
    ensures
        is_char_boundary(bytes.subrange(0, to), from),
{
    let head = bytes.subrange(0, to);
    vstd::utf8::valid_utf8_split(bytes, to);
    if from == to {
        vstd::utf8::is_char_boundary_start_end_of_seq(head);
    } else {
        vstd::utf8::is_char_boundary_iff_not_is_continuation_byte(bytes, from);
        vstd::utf8::is_char_boundary_iff_not_is_continuation_byte(head, from);
        assert(head[from] == bytes[from]);
    }
}

proof fn lemma_boundary_in_bounds(bytes: Seq<u8>, index: int)
    requires
        valid_utf8(bytes),
        is_char_boundary(bytes, index),
    ensures
        0 <= index <= bytes.len(),
{
}

/// The part of `s` between two byte offsets, `None` where they do not cut it.
pub fn get_slice<'a>(s: &'a str, from: usize, to: usize) -> (r: Option<&'a str>)
    ensures
        r is Some <==> cuts(s@, from as int, to as int),
        r matches Some(t) ==> t@ == slice(s@, from as int, to as int),
{
    if from <= to && s.is_char_boundary(from) && s.is_char_boundary(to) {
        proof {
            lemma_boundary_in_bounds(encode_utf8(s@), from as int);
            lemma_boundary_in_bounds(encode_utf8(s@), to as int);
        }
        let (head, _) = s.split_at(to);
        proof {
            lemma_boundary_in_prefix(encode_utf8(s@), from as int, to as int);
            assert(encode_utf8(head@) == encode_utf8(s@).subrange(0, to as int));
        }
        let (_, t) = head.split_at(from);
        assert(encode_utf8(t@) =~= encode_utf8(s@).subrange(from as int, to as int));
        Some(t)
    } else {
        None
    }
}

/// The bytes of two texts, one after the other, are the bytes of the two.
pub proof fn lemma_encode_concat(a: Seq<char>, b: Seq<char>)
    ensures
        encode_utf8(a + b) == encode_utf8(a) + encode_utf8(b),
    decreases a.len(),
{
    if a.len() == 0 {
        assert(a + b =~= b);
    } else {
        assert((a + b).drop_first() =~= a.drop_first() + b);
        lemma_encode_concat(a.drop_first(), b);
    }
}

/// A text takes at least one byte for each character.
pub proof fn lemma_bytes_cover_chars(s: Seq<char>)
    ensures
        s.len() <= encode_utf8(s).len(),
    decreases s.len(),
{
    if s.len() > 0 {
        lemma_bytes_cover_chars(s.drop_first());
    }
}

/// How many UTF-16 code units a character takes.
pub open spec fn utf16_width(c: char) -> nat {
    if (c as u32) < 0x10000 {
        1
    } else {
        2
    }
}

/// How many UTF-16 code units `s` takes.
pub open spec fn utf16_len(s: Seq<char>) -> nat
    decreases s.len(),
{
    if s.len() == 0 {
        0
    } else {
        utf16_len(s.drop_last()) + utf16_width(s.last())
    }
}

/// How many UTF-16 code units `s` takes.
pub fn utf16_count(s: &str) -> (r: u128)
    ensures
        r == utf16_len(s@),
{
    let len: usize = s.unicode_len();
    let mut n: u128 = 0;
    for c in it: s.chars()
        invariant
            it.seq() == s@,
            len == s@.len(),
            n == utf16_len(it.seq().take(it.index())),
            n <= 2 * it.index(),
    {
        proof {
            assert(s@.take(it.index() + 1).drop_last() =~= s@.take(it.index()));
        }
        n += if (c as u32) < 0x10000 { 1 } else { 2 };
    }
    assert(s@.take(s@.len() as int) =~= s@);
    n
}

/// Where the first `c` of `s` from `i` on stands.
pub open spec fn index_from(s: Seq<char>, c: char, i: nat) -> Option<nat>
    decreases s.len() - i,
{
    if i >= s.len() {
        None
    } else if s[i as int] == c {
        Some(i)
    } else {
        index_from(s, c, i + 1)
    }
}

/// Where the last `c` among the first `n` characters of `s` stands.
pub open spec fn last_index(s: Seq<char>, c: char, n: nat) -> Option<nat>
    decreases n,
{
    if n == 0 || n > s.len() {
        None
    } else if s[n - 1] == c {
        Some((n - 1) as nat)
    } else {
        last_index(s, c, (n - 1) as nat)
    }
}

pub proof fn lemma_index_from(s: Seq<char>, c: char, i: nat)
    ensures
        match index_from(s, c, i) {
            Some(j) => i <= j < s.len() && s[j as int] == c && forall|m: int|
                i <= m < j ==> s[m] != c,
            None => forall|m: int| i <= m < s.len() ==> s[m] != c,
        },
    decreases s.len() - i,
{
    if i < s.len() && s[i as int] != c {
        lemma_index_from(s, c, i + 1);
    }
}

pub proof fn lemma_last_index(s: Seq<char>, c: char, n: nat)
    requires
        n <= s.len(),
    ensures
        match last_index(s, c, n) {
            Some(j) => j < n && s[j as int] == c && forall|m: int| j < m < n ==> s[m] != c,
            None => forall|m: int| 0 <= m < n ==> s[m] != c,
        },
    decreases n,
{
    if n > 0 && s[n - 1] != c {
        lemma_last_index(s, c, (n - 1) as nat);
    }
}

/// Where the first `c` of `s` from `i` on stands.
pub fn find_char(s: &[char], c: char, i: usize) -> (r: Option<usize>)
    ensures
        match r {
            Some(j) => index_from(s@, c, i as nat) == Some(j as nat) && i <= j < s@.len(),
            None => index_from(s@, c, i as nat) is None,
        },
{
    let mut j: usize = i;
    while j < s.len()
        invariant
            i <= j,
            index_from(s@, c, i as nat) == index_from(s@, c, j as nat),
        decreases s@.len() - j,
    {
        if s[j] == c {
            return Some(j);
        }
        j += 1;
    }
    None
}

/// Where the text after the `k`-th line feed from `i` on starts, if there are as many.
pub open spec fn after_feeds(cs: Seq<char>, k: nat, i: nat) -> Option<nat>
    decreases k,
{
    if k == 0 {
        Some(i)
    } else {
        match index_from(cs, '\n', i) {
            Some(j) => after_feeds(cs, (k - 1) as nat, j + 1),
            None => None,
        }
    }
}

/// Where the line that holds the character `i` ends.
pub open spec fn line_stop(cs: Seq<char>, i: nat) -> nat {
    match index_from(cs, '\n', i) {
        Some(j) => j,
        None => cs.len(),
    }
}

/// Where the text after `line` line feeds starts, if there are as many.
pub fn line_from(chars: &[char], line: u32) -> (r: Option<usize>)
    ensures
        match r {
            Some(i) => after_feeds(chars@, line as nat, 0) == Some(i as nat) && i <= chars@.len(),
            None => after_feeds(chars@, line as nat, 0) is None,
        },
{
    let len: usize = chars.len();
    let mut start: usize = 0;
    let mut k: u32 = line;
    while k > 0
        invariant
            start <= len == chars@.len(),
            after_feeds(chars@, line as nat, 0) == after_feeds(chars@, k as nat, start as nat),
        decreases k,
    {
        match find_char(chars, '\n', start) {
            Some(j) => {
                start = j + 1;
            },
            None => return None,
        }
        k -= 1;
    }
    Some(start)
}

/// Where the line that holds the character `i` ends.
pub fn stop_of(chars: &[char], i: usize) -> (r: usize)
    requires
        i <= chars@.len(),
    ensures
        r == line_stop(chars@, i as nat),
        i <= r <= chars@.len(),
{
    match find_char(chars, '\n', i) {
        Some(j) => j,
        None => chars.len(),
    }
}

/// Line `k` of `cs`, without what ends it. A line feed at the very end starts no line.
pub open spec fn nth_line(cs: Seq<char>, k: nat) -> Option<Seq<char>> {
    match after_feeds(cs, k, 0) {
        Some(start) => {
            let stop = line_stop(cs, start);
            if start >= cs.len() {
                None
            } else if start < stop < cs.len() && cs[stop - 1] == '\r' {
                Some(cs.subrange(start as int, stop - 1))
            } else {
                Some(cs.subrange(start as int, stop as int))
            }
        },
        None => None,
    }
}

/// Line `k` of `s`, without what ends it.
pub fn line_of(s: &str, k: u32) -> (r: Option<String>)
    ensures
        r.deep_view() == nth_line(s@, k as nat),
{
    let chars = chars_of(s);
    match line_from(&chars, k) {
        Some(start) => {
            let stop: usize = stop_of(&chars, start);
            if start >= chars.len() {
                None
            } else if start < stop && stop < chars.len() && chars[stop - 1] == '\r' {
                Some(string_of(&chars, start, stop - 1))
            } else {
                Some(string_of(&chars, start, stop))
            }
        },
        None => None,
    }
}

/// What the UTF-16 code units `from..to` of the first `n` characters of `cs` spell. Half
/// of a character spells the replacement character.
pub open spec fn units_between(cs: Seq<char>, from: nat, to: nat, n: nat) -> Seq<char>
    decreases n,
{
    if n == 0 {
        seq![]
    } else {
        let before = units_between(cs, from, to, (n - 1) as nat);
        let u = utf16_len(cs.take(n - 1));
        let w = utf16_width(cs[n - 1]);
        if from <= u && u + w <= to {
            before.push(cs[n - 1])
        } else if w == 2 && (from <= u < to || from <= u + 1 < to) {
            before.push('\u{fffd}')
        } else {
            before
        }
    }
}

/// What the UTF-16 code units `from..to` of a text spell; `None` where it has fewer.
pub open spec fn utf16_slice(cs: Seq<char>, from: nat, to: nat) -> Option<Seq<char>> {
    if from > to || to > utf16_len(cs) {
        None
    } else {
        Some(units_between(cs, from, to, cs.len()))
    }
}

/// What the UTF-16 code units `from..to` of `s` spell.
pub fn slice_units(s: &str, from: u32, to: u32) -> (r: Option<String>)
    ensures
        r.deep_view() == utf16_slice(s@, from as nat, to as nat),
{
    if from > to || to as u128 > utf16_count(s) {
        return None;
    }
    let chars = chars_of(s);
    let mut out = String::new();
    assert(out@ =~= seq![]);
    let mut u: u128 = 0;
    let mut i: usize = 0;
    assert(s@.take(0).len() == 0);
    while i < chars.len()
        invariant
            i <= chars@.len(),
            chars@ == s@,
            u == utf16_len(s@.take(i as int)),
            u <= 2 * i,
            out@ == units_between(s@, from as nat, to as nat, i as nat),
        decreases chars@.len() - i,
    {
        let c = chars[i];
        let w: u128 = if (c as u32) < 0x10000 {
            1
        } else {
            2
        };
        let (a, b): (u128, u128) = (from as u128, to as u128);
        if a <= u && u + w <= b {
            out.push(c);
        } else if w == 2 && ((a <= u && u < b) || (a <= u + 1 && u + 1 < b)) {
            out.push('\u{fffd}');
        }
        proof {
            assert(s@.take(i as int + 1).drop_last() =~= s@.take(i as int));
        }
        u += w;
        i += 1;
    }
    Some(out)
}

/// What stands before and after the first `c` of `s`.
pub open spec fn split_first(s: Seq<char>, c: char) -> Option<(Seq<char>, Seq<char>)> {
    match index_from(s, c, 0) {
        Some(i) => Some((s.take(i as int), s.skip(i as int + 1))),
        None => None,
    }
}

/// What stands before and after the last `c` of `s`.
pub open spec fn split_last(s: Seq<char>, c: char) -> Option<(Seq<char>, Seq<char>)> {
    match last_index(s, c, s.len()) {
        Some(i) => Some((s.take(i as int), s.skip(i as int + 1))),
        None => None,
    }
}

/// What stands before and after the first `c` of `s`.
pub fn split_once(s: &str, c: char) -> (r: Option<(String, String)>)
    ensures
        r.deep_view() == split_first(s@, c),
{
    let cs = chars_of(s);
    let mut i: usize = 0;
    while i < cs.len()
        invariant
            i <= cs@.len(),
            cs@ == s@,
            index_from(s@, c, 0) == index_from(s@, c, i as nat),
        decreases cs@.len() - i,
    {
        if cs[i] == c {
            let n: usize = cs.len();
            return Some((string_of(&cs, 0, i), string_of(&cs, i + 1, n)));
        }
        i += 1;
    }
    None
}

/// What stands before and after the last `c` of `s`.
pub fn rsplit_once(s: &str, c: char) -> (r: Option<(String, String)>)
    ensures
        r.deep_view() == split_last(s@, c),
{
    let cs = chars_of(s);
    let len: usize = cs.len();
    let mut n: usize = len;
    while n > 0
        invariant
            n <= len == cs@.len(),
            cs@ == s@,
            last_index(s@, c, s@.len()) == last_index(s@, c, n as nat),
        decreases n,
    {
        if cs[n - 1] == c {
            return Some((string_of(&cs, 0, n - 1), string_of(&cs, n, len)));
        }
        n -= 1;
    }
    None
}

/// The decimal digit of a number below ten.
pub open spec fn digit_char(n: u8) -> char {
    if n == 0 {
        '0'
    } else if n == 1 {
        '1'
    } else if n == 2 {
        '2'
    } else if n == 3 {
        '3'
    } else if n == 4 {
        '4'
    } else if n == 5 {
        '5'
    } else if n == 6 {
        '6'
    } else if n == 7 {
        '7'
    } else if n == 8 {
        '8'
    } else {
        '9'
    }
}

/// The decimal digit of a number below ten.
pub fn digit_of(n: u8) -> (r: char)
    ensures
        r == digit_char(n),
{
    match n {
        0 => '0',
        1 => '1',
        2 => '2',
        3 => '3',
        4 => '4',
        5 => '5',
        6 => '6',
        7 => '7',
        8 => '8',
        _ => '9',
    }
}

/// `n` in decimal digits.
pub open spec fn decimal_of(n: nat) -> Seq<char>
    decreases n,
{
    if n < 10 {
        seq![digit_char(n as u8)]
    } else {
        decimal_of(n / 10).push(digit_char((n % 10) as u8))
    }
}

/// `n` in decimal digits.
pub fn decimal(n: u64) -> (r: String)
    ensures
        r@ == decimal_of(n as nat),
    decreases n,
{
    if n < 10 {
        let mut out = String::new();
        out.push(digit_of(n as u8));
        assert(out@ =~= decimal_of(n as nat));
        out
    } else {
        let mut out = decimal(n / 10);
        out.push(digit_of((n % 10) as u8));
        out
    }
}

/// Whether `s` starts with `c`.
pub fn starts_with_char(s: &str, c: char) -> (r: bool)
    ensures
        r == (s@.len() > 0 && s@[0] == c),
{
    if s.is_empty() {
        false
    } else {
        s.get_char(0) == c
    }
}

/// Whether `t` stands in `s` at `i`.
pub open spec fn stands_at(s: Seq<char>, t: Seq<char>, i: int) -> bool {
    0 <= i && i + t.len() <= s.len() && s.subrange(i, i + t.len()) == t
}

/// Where the first `t` in `s` from `i` on stands.
pub open spec fn find_from(s: Seq<char>, t: Seq<char>, i: nat) -> Option<nat>
    decreases s.len() + 1 - i,
{
    if i > s.len() {
        None
    } else if stands_at(s, t, i as int) {
        Some(i)
    } else {
        find_from(s, t, i + 1)
    }
}

/// `s` without `prefix`, where it starts with it.
pub open spec fn unprefixed(s: Seq<char>, prefix: Seq<char>) -> Option<Seq<char>> {
    if prefix.is_prefix_of(s) {
        Some(s.skip(prefix.len() as int))
    } else {
        None
    }
}

/// Whether `t` stands in `s` at `i`.
pub fn matches_at(s: &[char], t: &[char], i: usize) -> (r: bool)
    ensures
        r == stands_at(s@, t@, i as int),
{
    if i > s.len() || t.len() > s.len() - i {
        return false;
    }
    let len: usize = s.len();
    let mut k: usize = 0;
    while k < t.len()
        invariant
            k <= t@.len(),
            i + t@.len() <= len == s@.len(),
            forall|j: int| 0 <= j < k ==> s@[i + j] == t@[j],
        decreases t@.len() - k,
    {
        if s[i + k] != t[k] {
            assert(s@.subrange(i as int, i + t@.len())[k as int] != t@[k as int]);
            return false;
        }
        k += 1;
    }
    assert(s@.subrange(i as int, i + t@.len()) =~= t@);
    true
}

/// Where the first `t` in `s` from `i` on stands.
pub fn find_chars(s: &[char], t: &[char], i: usize) -> (r: Option<usize>)
    requires
        i <= s@.len(),
    ensures
        match r {
            Some(j) => find_from(s@, t@, i as nat) == Some(j as nat) && j + t@.len() <= s@.len(),
            None => find_from(s@, t@, i as nat) is None,
        },
{
    let mut j: usize = i;
    while j < s.len()
        invariant
            i <= j <= s@.len(),
            find_from(s@, t@, i as nat) == find_from(s@, t@, j as nat),
        decreases s@.len() - j,
    {
        if matches_at(s, t, j) {
            return Some(j);
        }
        j += 1;
    }
    if matches_at(s, t, j) {
        Some(j)
    } else {
        assert(find_from(s@, t@, (j + 1) as nat) is None);
        None
    }
}

/// Whether `t` stands somewhere in `s`.
pub open spec fn has_part(s: Seq<char>, t: Seq<char>) -> bool {
    find_from(s, t, 0) is Some
}

/// Whether `t` stands somewhere in `s`.
pub fn contains(s: &str, t: &str) -> (r: bool)
    ensures
        r == has_part(s@, t@),
{
    find_chars(&chars_of(s), &chars_of(t), 0).is_some()
}

/// A text is split at the first separator: what has none in front of it comes back whole.
pub proof fn law_split_at_the_first(a: Seq<char>, c: char, b: Seq<char>)
    requires
        !a.contains(c),
    ensures
        split_first(a + seq![c] + b, c) == Some((a, b)),
        split_first(a, c) is None,
{
    let s = a + seq![c] + b;
    lemma_index_from(s, c, 0);
    lemma_index_from(a, c, 0);
    assert(s[a.len() as int] == c);
    match index_from(s, c, 0) {
        Some(i) => {
            if i < a.len() {
                assert(a[i as int] == s[i as int]);
                assert(a.contains(c));
            }
            assert(s.take(i as int) =~= a);
            assert(s.skip(i as int + 1) =~= b);
        },
        None => {},
    }
    match index_from(a, c, 0) {
        Some(i) => {
            assert(a.contains(a[i as int]));
        },
        None => {},
    }
}

/// A text is split at the last separator: what has none in it stands behind.
pub proof fn law_split_at_the_last(a: Seq<char>, c: char, b: Seq<char>)
    requires
        !b.contains(c),
    ensures
        split_last(a + seq![c] + b, c) == Some((a, b)),
        split_last(b, c) is None,
{
    let s = a + seq![c] + b;
    lemma_last_index(s, c, s.len());
    lemma_last_index(b, c, b.len());
    assert(s[a.len() as int] == c);
    match last_index(s, c, s.len()) {
        Some(i) => {
            if i > a.len() {
                assert(b[i - a.len() - 1] == s[i as int]);
                assert(b.contains(c));
            }
            assert(s.take(i as int) =~= a);
            assert(s.skip(i as int + 1) =~= b);
        },
        None => {},
    }
    match last_index(b, c, b.len()) {
        Some(i) => {
            assert(b.contains(b[i as int]));
        },
        None => {},
    }
}

}
