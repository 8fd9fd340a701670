//! Cutting text at white space and at separators.

use vstd::prelude::*;
use crate::chars::{is_whitespace, white_space};
use crate::text::{chars_of, find_chars, find_from, string_of};

verus! {

/// Where the white space from `i` on ends.
pub open spec fn space_end(cs: Seq<char>, i: nat) -> nat
    decreases cs.len() - i,
{
    if i < cs.len() && white_space(cs[i as int]) {
        space_end(cs, i + 1)
    } else {
        i
    }
}

/// Where the white space that ends with the character `i` starts.
pub open spec fn space_start(cs: Seq<char>, i: nat) -> nat
    decreases i,
{
    if 0 < i <= cs.len() && white_space(cs[i - 1]) {
        space_start(cs, (i - 1) as nat)
    } else {
        i
    }
}

/// `cs` without the white space at its ends.
pub open spec fn trimmed(cs: Seq<char>) -> Seq<char> {
    let from = space_end(cs, 0);
    let to = space_start(cs, cs.len());
    if from <= to {
        cs.subrange(from as int, to as int)
    } else {
        seq![]
    }
}

/// `s` without the white space at its ends.
pub fn trim(s: &str) -> (r: String)
    ensures
        r@ == trimmed(s@),
{
    let chars = chars_of(s);
    let len: usize = chars.len();
    let mut from: usize = 0;
    while from < len && is_whitespace(chars[from])
        invariant
            from <= len == chars@.len(),
            chars@ == s@,
            space_end(s@, 0) == space_end(s@, from as nat),
        decreases len - from,
    {
        from += 1;
    }
    let mut to: usize = len;
    while to > 0 && is_whitespace(chars[to - 1])
        invariant
            to <= len == chars@.len(),
            chars@ == s@,
            space_start(s@, s@.len()) == space_start(s@, to as nat),
        decreases to,
    {
        to -= 1;
    }
    if from <= to {
        string_of(&chars, from, to)
    } else {
        let out = String::new();
        assert(out@ =~= seq![]);
        out
    }
}

/// `cs` without the white space that it starts with.
pub open spec fn trimmed_start(cs: Seq<char>) -> Seq<char> {
    cs.skip(space_end(cs, 0) as int)
}

/// `s` without the white space that it starts with.
pub fn trim_start(s: &str) -> (r: String)
    ensures
        r@ == trimmed_start(s@),
{
    let chars = chars_of(s);
    let len: usize = chars.len();
    let mut from: usize = 0;
    while from < len && is_whitespace(chars[from])
        invariant
            from <= len == chars@.len(),
            chars@ == s@,
            space_end(s@, 0) == space_end(s@, from as nat),
        decreases len - from,
    {
        from += 1;
    }
    let out = string_of(&chars, from, len);
    assert(out@ =~= trimmed_start(s@));
    out
}

/// The parts of `s` from `i` on, as `sep` separates them.
pub open spec fn parts_from(s: Seq<char>, sep: Seq<char>, i: nat) -> Seq<Seq<char>>
    decreases s.len() + 1 - i,
{
    if i > s.len() {
        seq![]
    } else {
        match find_from(s, sep, i) {
            Some(p) => if i < p + sep.len() <= s.len() {
                seq![s.subrange(i as int, p as int)] + parts_from(s, sep, p + sep.len())
            } else {
                seq![s.skip(i as int)]
            },
            None => seq![s.skip(i as int)],
        }
    }
}

/// The parts of `s`, as `sep` separates them.
pub open spec fn parts(s: Seq<char>, sep: Seq<char>) -> Seq<Seq<char>> {
    parts_from(s, sep, 0)
}

proof fn lemma_find_from(s: Seq<char>, t: Seq<char>, i: nat)
    ensures
        find_from(s, t, i) matches Some(p) ==> i <= p,
    decreases s.len() + 1 - i,
{
    if i <= s.len() {
        lemma_find_from(s, t, i + 1);
    }
}

/// The parts of `s`, as `sep` separates them; `sep` is not empty.
pub fn split_by(s: &str, sep: &str) -> (r: Vec<String>)
    requires
        sep@.len() > 0,
    ensures
        r.deep_view() == parts(s@, sep@),
{
    let chars = chars_of(s);
    let mark = chars_of(sep);
    let len: usize = chars.len();
    let mut out: Vec<String> = Vec::new();
    assert(out.deep_view() =~= seq![]);
    let mut i: usize = 0;
    let mut done = false;
    assert(out.deep_view() + parts_from(s@, sep@, 0) =~= parts_from(s@, sep@, 0));
    while !done
        invariant
            chars@ == s@,
            mark@ == sep@,
            sep@.len() > 0,
            i <= len == s@.len(),
            !done ==> parts(s@, sep@) == out.deep_view() + parts_from(s@, sep@, i as nat),
            done ==> parts(s@, sep@) == out.deep_view(),
        decreases
                len - i,
                if done {
                    0int
                } else {
                    1int
                },
    {
        let ghost had = out.deep_view();
        proof {
            lemma_find_from(s@, sep@, i as nat);
        }
        match find_chars(&chars, &mark, i) {
            Some(p) => {
                out.push(string_of(&chars, i, p));
                let ghost rest = parts_from(s@, sep@, (p + sep@.len()) as nat);
                assert(out.deep_view() =~= had.push(s@.subrange(i as int, p as int)));
                assert(had + parts_from(s@, sep@, i as nat) =~= out.deep_view() + rest);
                i = p + mark.len();
            },
            None => {
                let last = string_of(&chars, i, len);
                assert(last@ =~= s@.skip(i as int));
                out.push(last);
                assert(out.deep_view() =~= had.push(s@.skip(i as int)));
                assert(had + parts_from(s@, sep@, i as nat) =~= out.deep_view());
                done = true;
            },
        }
    }
    out
}

/// Splitting loses nothing but the separators: putting them back gives the text.
pub proof fn law_parts_make_the_text(s: Seq<char>, sep: Seq<char>, i: nat)
    requires
        sep.len() > 0,
        i <= s.len(),
    ensures
        parts_from(s, sep, i).len() > 0,
        rejoined(parts_from(s, sep, i), sep) == s.skip(i as int),
    decreases s.len() - i,
{
    lemma_find_from(s, sep, i);
    lemma_found(s, sep, i);
    match find_from(s, sep, i) {
        Some(p) => {
            law_parts_make_the_text(s, sep, p + sep.len());
            let rest = parts_from(s, sep, p + sep.len());
            let all = parts_from(s, sep, i);
            assert(all.drop_first() =~= rest);
            assert(s.subrange(p as int, (p + sep.len()) as int) == sep);
            assert(rejoined(all, sep) =~= s.subrange(i as int, p as int) + sep + s.skip(
                (p + sep.len()) as int,
            ));
            assert(s.skip(i as int) =~= s.subrange(i as int, p as int) + sep + s.skip(
                (p + sep.len()) as int,
            ));
        },
        None => {
            assert(parts_from(s, sep, i).drop_first() =~= seq![]);
        },
    }
}

/// The parts with the separator between them.
pub open spec fn rejoined(list: Seq<Seq<char>>, sep: Seq<char>) -> Seq<char>
    decreases list.len(),
{
    if list.len() == 0 {
        seq![]
    } else if list.len() == 1 {
        list[0]
    } else {
        list[0] + sep + rejoined(list.drop_first(), sep)
    }
}

proof fn lemma_found(s: Seq<char>, t: Seq<char>, i: nat)
    ensures
        find_from(s, t, i) matches Some(p) ==> p + t.len() <= s.len() && s.subrange(
            p as int,
            (p + t.len()) as int,
        ) == t,
    decreases s.len() + 1 - i,
{
    if i <= s.len() {
        lemma_found(s, t, i + 1);
    }
}

}
