//! Colours by what the text is: comments, strings, regular expressions, numbers and
//! keywords. Nothing is resolved.

use vstd::prelude::*;
use crate::collect::Copied;
use crate::lsp::Position;
use crate::sort::{arrange, arranged, law_arranged, ordered, Place, Sorted};
use crate::syntax::{lemma_children, parse_source, syntax_of, Form, FormView, Kind};
use crate::text::{
    chars_of, index_from, lemma_index_from, line_stop, stop_of, string_of, utf16_count, utf16_len,
};

verus! {

broadcast use lemma_children;

/// The type of a comment in the legend.
pub const TYPE_COMMENT: u32 = 0;

/// The type of a string in the legend.
pub const TYPE_STRING: u32 = 1;

/// The type of a regular expression in the legend.
pub const TYPE_REGEXP: u32 = 2;

/// The type of a number in the legend.
pub const TYPE_NUMBER: u32 = 3;

/// The type of a keyword in the legend.
pub const TYPE_KEYWORD: u32 = 4;

/// The names of the types, each at its index.
pub open spec fn legend_types() -> Seq<Seq<char>> {
    seq!["comment"@, "string"@, "regexp"@, "number"@, "keyword"@]
}

/// The names of the types, each at its index.
pub fn legend() -> (r: Vec<&'static str>)
    ensures
        r@.len() == legend_types().len(),
        forall|i: int| 0 <= i < r@.len() ==> (#[trigger] r@[i])@ == legend_types()[i],
{
    let mut out: Vec<&'static str> = Vec::new();
    out.push("comment");
    out.push("string");
    out.push("regexp");
    out.push("number");
    out.push("keyword");
    out
}

/// One token, on one line.
#[derive(Clone, Copy, Debug, PartialEq, Eq, Structural)]
pub struct AbsToken {
    pub line: u32,
    pub start_char: u32,
    pub len: u32,
    pub type_index: u32,
}

impl DeepView for AbsToken {
    type V = AbsToken;

    open spec fn deep_view(&self) -> AbsToken {
        *self
    }
}

impl Copied for AbsToken {
    fn copied(&self) -> (r: Self) {
        *self
    }
}

impl AbsToken {
    /// What decides its place in a list.
    pub open spec fn place_of(v: AbsToken) -> Place {
        Place { line: v.line, character: v.start_char, rank: 0 }
    }

    fn place(&self) -> (r: Place)
        ensures
            r == AbsToken::place_of(*self),
    {
        Place { line: self.line, character: self.start_char, rank: 0 }
    }
}

impl Sorted for AbsToken {
    open spec fn le(a: AbsToken, b: AbsToken) -> bool {
        AbsToken::place_of(a).le(AbsToken::place_of(b))
    }

    proof fn lemma_order(a: AbsToken, b: AbsToken, c: AbsToken) {
    }

    fn is_le(&self, other: &AbsToken) -> (r: bool) {
        self.place().is_le(other.place())
    }
}

/// The type of a form that is one token; `None` of a form that holds others.
pub open spec fn type_of(kind: Kind) -> Option<u32> {
    match kind {
        Kind::Comment | Kind::DisExpr => Some(TYPE_COMMENT),
        Kind::StrLit | Kind::CharLit => Some(TYPE_STRING),
        Kind::RegexLit => Some(TYPE_REGEXP),
        Kind::NumLit => Some(TYPE_NUMBER),
        Kind::KwdLit => Some(TYPE_KEYWORD),
        _ => None,
    }
}

/// The type of a form that is one token.
pub fn token_type_for(kind: Kind) -> (r: Option<u32>)
    ensures
        r == type_of(kind),
{
    match kind {
        Kind::Comment | Kind::DisExpr => Some(TYPE_COMMENT),
        Kind::StrLit | Kind::CharLit => Some(TYPE_STRING),
        Kind::RegexLit => Some(TYPE_REGEXP),
        Kind::NumLit => Some(TYPE_NUMBER),
        Kind::KwdLit => Some(TYPE_KEYWORD),
        _ => None,
    }
}

/// The line of `text` from `i` on, without the carriage return at its end.
pub open spec fn segment(text: Seq<char>, i: nat) -> Seq<char> {
    let stop = line_stop(text, i);
    if i < stop && text[stop - 1] == '\r' {
        text.subrange(i as int, stop - 1)
    } else {
        text.subrange(i as int, stop as int)
    }
}

/// The tokens of the lines of `text` from `i` on, which is its line `k`. The first line
/// starts where the text does, the others at column 0; empty lines have none.
pub open spec fn line_tokens(text: Seq<char>, start: Position, kind: u32, i: nat, k: nat) -> Seq<
    AbsToken,
>
    decreases text.len() + 1 - i,
{
    if i > text.len() {
        seq![]
    } else {
        let stop = line_stop(text, i);
        let len = utf16_len(segment(text, i)) as u32;
        let rest = if i <= stop < text.len() {
            line_tokens(text, start, kind, stop + 1, k + 1)
        } else {
            seq![]
        };
        if len == 0 {
            rest
        } else {
            seq![
                AbsToken {
                    line: (start.line + k) as u32,
                    start_char: if k == 0 {
                        start.character
                    } else {
                        0
                    },
                    len,
                    type_index: kind,
                },
            ] + rest
        }
    }
}

/// The tokens of a form, in reading order. What is inside a token is no token.
pub open spec fn tokens_of(f: FormView) -> Seq<AbsToken>
    decreases f, f.children.len() + 1,
{
    match type_of(f.kind) {
        Some(kind) => line_tokens(f.text, f.range.start, kind, 0, 0),
        None => tokens_in(f, f.children.len()),
    }
}

/// The tokens of the first `n` children of a form.
pub open spec fn tokens_in(f: FormView, n: nat) -> Seq<AbsToken>
    decreases f, n,
{
    if n == 0 || n > f.children.len() {
        seq![]
    } else {
        tokens_in(f, (n - 1) as nat) + tokens_of(f.children[n - 1])
    }
}

fn push_node(f: &Form, kind: u32, out: &mut Vec<AbsToken>)
    ensures
        final(out)@ == old(out)@ + line_tokens(f@.text, f@.range.start, kind, 0, 0),
{
    let chars = chars_of(f.text.as_str());
    let ghost text = f@.text;
    let start = f.range.start;
    let ghost before = out@;
    let len: usize = chars.len();
    let mut i: usize = 0;
    let mut k: u64 = 0;
    let mut done = false;
    assert(before + line_tokens(text, start, kind, 0, 0) =~= out@ + line_tokens(
        text,
        start,
        kind,
        0,
        0,
    ));
    while !done
        invariant
            chars@ == text,
            len == text.len(),
            i <= len,
            k <= i,
            !done ==> before + line_tokens(text, start, kind, 0, 0) == out@ + line_tokens(
                text,
                start,
                kind,
                i as nat,
                k as nat,
            ),
            done ==> before + line_tokens(text, start, kind, 0, 0) == out@,
        decreases len - i, if done { 0int } else { 1int },
    {
        let ghost had = out@;
        let stop: usize = stop_of(&chars, i);
        let end: usize = if i < stop && chars[stop - 1] == '\r' {
            stop - 1
        } else {
            stop
        };
        let seg = string_of(&chars, i, end);
        assert(seg@ == segment(text, i as nat));
        #[verifier::truncate]
        let units: u32 = utf16_count(seg.as_str()) as u32;
        let ghost rest = if stop < len {
            line_tokens(text, start, kind, (stop + 1) as nat, (k + 1) as nat)
        } else {
            seq![]
        };
        if units != 0 {
            #[verifier::truncate]
            let line: u32 = (start.line as u128 + k as u128) as u32;
            let start_char: u32 = if k == 0 {
                start.character
            } else {
                0
            };
            out.push(AbsToken { line, start_char, len: units, type_index: kind });
            assert(had + line_tokens(text, start, kind, i as nat, k as nat) =~= out@ + rest);
        }
        if stop < len {
            i = stop + 1;
            k += 1;
        } else {
            assert(out@ + rest =~= out@);
            done = true;
        }
    }
}

fn walk(f: &Form, out: &mut Vec<AbsToken>)
    ensures
        final(out)@ == old(out)@ + tokens_of(f@),
    decreases f@,
{
    if let Some(kind) = token_type_for(f.kind) {
        push_node(f, kind, out);
        return;
    }
    let ghost before = out@;
    let mut i: usize = 0;
    assert(before + tokens_in(f@, 0) =~= before);
    while i < f.children.len()
        invariant
            i <= f.children@.len(),
            out@ == before + tokens_in(f@, i as nat),
        decreases f.children@.len() - i,
    {
        assert(decreases_to!(f@ => f@.children[i as int]));
        walk(&f.children[i], out);
        assert(out@ =~= before + tokens_in(f@, (i + 1) as nat));
        i += 1;
    }
}

/// The tokens of `source`, in reading order; none where it cannot be parsed.
pub fn compute_tokens(source: &str) -> (r: Vec<AbsToken>)
    ensures
        r@ == (match syntax_of(source@) {
            Some(root) => tokens_of(root),
            None => seq![],
        }),
{
    let mut out: Vec<AbsToken> = Vec::new();
    if let Some(root) = parse_source(source) {
        walk(&root, &mut out);
        assert(out@ =~= tokens_of(root@));
    }
    out
}

/// A token as the protocol sends it: relative to the one before.
#[derive(Clone, Copy, Debug, PartialEq, Eq, Structural)]
pub struct SemanticToken {
    pub delta_line: u32,
    pub delta_start: u32,
    pub length: u32,
    pub token_type: u32,
    pub token_modifiers_bitset: u32,
}

/// Where the token before token `n` stands; the start of the document before the first.
pub open spec fn place_before(s: Seq<AbsToken>, n: nat) -> (u32, u32) {
    if n == 0 {
        (0, 0)
    } else {
        (s[n - 1].line, s[n - 1].start_char)
    }
}

/// A token relative to a place. On another line its column counts from the line's start.
pub open spec fn relative(t: AbsToken, from: (u32, u32)) -> SemanticToken {
    SemanticToken {
        delta_line: (t.line - from.0) as u32,
        delta_start: (if t.line == from.0 {
            t.start_char - from.1
        } else {
            t.start_char as int
        }) as u32,
        length: t.len,
        token_type: t.type_index,
        token_modifiers_bitset: 0,
    }
}

/// The tokens, each relative to the one before.
pub open spec fn encoded(s: Seq<AbsToken>) -> Seq<SemanticToken> {
    Seq::new(s.len(), |i: int| relative(s[i], place_before(s, i as nat)))
}

/// The tokens in document order, each relative to the one before.
pub fn encode(tokens: &Vec<AbsToken>) -> (r: Vec<SemanticToken>)
    ensures
        r@ == encoded(arranged::<AbsToken>(tokens@, tokens@.len())),
{
    assert(tokens.deep_view() =~= tokens@);
    let sorted = arrange(tokens);
    assert(sorted.deep_view() =~= sorted@);
    let ghost s = sorted@;
    proof {
        law_arranged::<AbsToken>(tokens@, tokens@.len());
    }
    let mut out: Vec<SemanticToken> = Vec::new();
    let mut prev: (u32, u32) = (0, 0);
    let mut i: usize = 0;
    while i < sorted.len()
        invariant
            i <= sorted@.len(),
            s == sorted@,
            ordered::<AbsToken>(s),
            prev == place_before(s, i as nat),
            out@ =~= encoded(s).take(i as int),
        decreases sorted@.len() - i,
    {
        let t = sorted[i];
        proof {
            if i > 0 {
                assert(AbsToken::le(s[i - 1], s[i as int]));
            }
        }
        let delta_line: u32 = t.line - prev.0;
        let delta_start: u32 = if delta_line == 0 {
            t.start_char - prev.1
        } else {
            t.start_char
        };
        out.push(
            SemanticToken {
                delta_line,
                delta_start,
                length: t.len,
                token_type: t.type_index,
                token_modifiers_bitset: 0,
            },
        );
        prev = (t.line, t.start_char);
        i += 1;
    }
    assert(out@ =~= encoded(s));
    out
}

/// The first `n` tokens that an editor reads from relative ones.
pub open spec fn decoded(s: Seq<SemanticToken>, n: nat) -> Seq<AbsToken>
    decreases n,
{
    if n == 0 {
        seq![]
    } else {
        let before = decoded(s, (n - 1) as nat);
        let from = place_before(before, before.len());
        let t = s[n - 1];
        before.push(
            AbsToken {
                line: (from.0 + t.delta_line) as u32,
                start_char: (if t.delta_line == 0 {
                    from.1 + t.delta_start
                } else {
                    t.delta_start as int
                }) as u32,
                len: t.length,
                type_index: t.token_type,
            },
        )
    }
}

/// An editor reads back the tokens that were encoded, in document order.
pub proof fn law_decoding_undoes_encoding(s: Seq<AbsToken>, n: nat)
    requires
        ordered::<AbsToken>(s),
        n <= s.len(),
    ensures
        decoded(encoded(s), n) == s.take(n as int),
    decreases n,
{
    if n > 0 {
        law_decoding_undoes_encoding(s, (n - 1) as nat);
        let before = decoded(encoded(s), (n - 1) as nat);
        assert(before =~= s.take(n - 1));
        if n > 1 {
            assert(before.last() == s[n - 2]);
            assert(AbsToken::le(s[n - 2], s[n - 1]));
        }
        assert(place_before(before, before.len()) == place_before(s, (n - 1) as nat));
        assert(encoded(s)[n - 1] == relative(s[n - 1], place_before(s, (n - 1) as nat)));
        assert(decoded(encoded(s), n) =~= s.take(n as int));
    } else {
        assert(s.take(0) =~= seq![]);
    }
}

/// Whether a token is one of the form that the path leads to, a comment, string, number or
/// keyword that does not stand inside another such form.
pub open spec fn token_stands(f: FormView, path: Seq<int>, t: AbsToken) -> bool
    decreases path.len(),
{
    if path.len() == 0 {
        type_of(f.kind) matches Some(kind) && line_tokens(f.text, f.range.start, kind, 0, 0).contains(t)
    } else {
        let i = path[0];
        &&& 0 <= i < f.children.len()
        &&& type_of(f.kind) is None
        &&& token_stands(f.children[i], path.drop_first(), t)
    }
}

proof fn lemma_tokens_of_stands(f: FormView, t: AbsToken) -> (path: Seq<int>)
    requires
        tokens_of(f).contains(t),
    ensures
        token_stands(f, path, t),
    decreases f, f.children.len() + 1,
{
    if type_of(f.kind) is Some {
        Seq::empty()
    } else {
        lemma_tokens_in_stands(f, f.children.len(), t)
    }
}

proof fn lemma_tokens_in_stands(f: FormView, n: nat, t: AbsToken) -> (path: Seq<int>)
    requires
        !(type_of(f.kind) is Some),
        tokens_in(f, n).contains(t),
    ensures
        token_stands(f, path, t),
    decreases f, n,
{
    let before = tokens_in(f, (n - 1) as nat);
    let k = tokens_in(f, n).index_of(t);
    if k < before.len() {
        assert(before[k] == t);
        lemma_tokens_in_stands(f, (n - 1) as nat, t)
    } else {
        let last = tokens_of(f.children[n - 1]);
        assert(last[k - before.len()] == t);
        let rest = lemma_tokens_of_stands(f.children[n - 1], t);
        assert((seq![n - 1] + rest).drop_first() =~= rest);
        seq![n - 1] + rest
    }
}

proof fn lemma_tokens_of_holds(f: FormView, path: Seq<int>, t: AbsToken)
    requires
        token_stands(f, path, t),
    ensures
        tokens_of(f).contains(t),
    decreases path.len(),
{
    if path.len() > 0 {
        let i = path[0];
        lemma_tokens_of_holds(f.children[i], path.drop_first(), t);
        lemma_tokens_in_holds(f, f.children.len(), i, t);
    }
}

proof fn lemma_tokens_in_holds(f: FormView, n: nat, i: int, t: AbsToken)
    requires
        0 <= i < n <= f.children.len(),
        type_of(f.kind) is None,
        tokens_of(f.children[i]).contains(t),
    ensures
        tokens_in(f, n).contains(t),
    decreases n,
{
    let before = tokens_in(f, (n - 1) as nat);
    let last = tokens_of(f.children[n - 1]);
    let all = tokens_in(f, n);
    if i < n - 1 {
        lemma_tokens_in_holds(f, (n - 1) as nat, i, t);
        assert(all[before.index_of(t)] == t);
    } else {
        assert(all[before.len() + last.index_of(t)] == t);
    }
}

/// The tokens of a text are those of all its comments, strings, numbers and keywords, however
/// deep they stand, and no others.
pub proof fn law_tokens_are_those_of_all_forms(f: FormView, t: AbsToken)
    ensures
        tokens_of(f).contains(t) <==> exists|path: Seq<int>| #[trigger]
            token_stands(f, path, t),
{
    if tokens_of(f).contains(t) {
        let path = lemma_tokens_of_stands(f, t);
        assert(token_stands(f, path, t));
    }
    if exists|path: Seq<int>| #[trigger] token_stands(f, path, t) {
        let path = choose|path: Seq<int>| #[trigger] token_stands(f, path, t);
        lemma_tokens_of_holds(f, path, t);
    }
}

/// A form of one line is one token, from its start on, as long as its text.
pub proof fn law_one_line_is_one_token(text: Seq<char>, start: Position, kind: u32)
    requires
        text.len() > 0,
        !text.contains('\n'),
        text.last() != '\r',
        utf16_len(text) <= u32::MAX,
    ensures
        line_tokens(text, start, kind, 0, 0) == seq![
            AbsToken {
                line: start.line,
                start_char: start.character,
                len: utf16_len(text) as u32,
                type_index: kind,
            },
        ],
{
    lemma_index_from(text, '\n', 0);
    if index_from(text, '\n', 0) is Some {
        assert(text.contains(text[index_from(text, '\n', 0)->0 as int]));
    }
    assert(line_stop(text, 0) == text.len());
    assert(segment(text, 0) =~= text);
    assert(utf16_len(text) > 0);
}

/// What the editor is sent gives back every token, in document order.
pub proof fn law_sent_tokens_are_all_tokens(tokens: Seq<AbsToken>)
    ensures
        ({
            let sent = encoded(arranged::<AbsToken>(tokens, tokens.len()));
            let read = decoded(sent, sent.len());
            &&& read.to_multiset() == tokens.to_multiset()
            &&& forall|i: int, j: int|
                0 <= i < j < read.len() ==> (#[trigger] read[i]).line < (#[trigger] read[j]).line
                    || (read[i].line == read[j].line && read[i].start_char <= read[j].start_char)
        }),
{
    let sorted = arranged::<AbsToken>(tokens, tokens.len());
    law_arranged::<AbsToken>(tokens, tokens.len());
    assert(tokens.take(tokens.len() as int) =~= tokens);
    law_decoding_undoes_encoding(sorted, sorted.len());
    assert(sorted.take(sorted.len() as int) =~= sorted);
    assert forall|i: int, j: int| 0 <= i < j < sorted.len() implies (#[trigger] sorted[i]).line < (
    #[trigger] sorted[j]).line || (sorted[i].line == sorted[j].line && sorted[i].start_char
        <= sorted[j].start_char) by {
        assert(AbsToken::le(sorted[i], sorted[j]));
    }
}

/// A form is shown as what it is: the type of its tokens is the one that the legend gives that name.
pub proof fn law_types_have_their_names(kind: Kind)
    ensures
        type_of(kind) matches Some(t) ==> t < legend_types().len(),
        kind == Kind::Comment || kind == Kind::DisExpr ==> legend_types()[type_of(kind)->0 as int]
            == "comment"@,
        kind == Kind::StrLit || kind == Kind::CharLit ==> legend_types()[type_of(kind)->0 as int]
            == "string"@,
        kind == Kind::RegexLit ==> legend_types()[type_of(kind)->0 as int] == "regexp"@,
        kind == Kind::NumLit ==> legend_types()[type_of(kind)->0 as int] == "number"@,
        kind == Kind::KwdLit ==> legend_types()[type_of(kind)->0 as int] == "keyword"@,
        type_of(kind) is Some <==> kind == Kind::Comment || kind == Kind::DisExpr || kind
            == Kind::StrLit || kind == Kind::CharLit || kind == Kind::RegexLit || kind == Kind::NumLit
            || kind == Kind::KwdLit,
{
}

}
