//! The signature of the function whose call the cursor is in.

use vstd::prelude::*;
use crate::chars::{is_whitespace, white_space};
use crate::collect::{copy_opt, join_by, joined_by, push_str, strs};
use crate::document::{ident_char, ident_end, is_clj_ident_char, position_index, DocumentStore, StoreView};
use crate::handlers::completion::{ns_of, some_text};
use crate::handlers::resolve::{resolve_symbol, resolved, ResolvedSymbol, ResolvedView};
use crate::index::model::SymbolView;
use crate::index::symbols::Index;
use crate::lsp::Position;
use crate::text::{chars_of, concat2, concat3, starts_with_char, str_eq, string_of};
use crate::words::{space_end, space_start, trim, trimmed};

verus! {

/// An open bracket before the cursor.
#[derive(Clone, Copy, Debug)]
pub struct CallFrame {
    pub kind: char,
    /// Where the bracket stands.
    pub start: usize,
    /// How many forms have started in it.
    pub tokens: usize,
    /// Whether the last of them may still go on.
    pub in_token: bool,
}

/// What a scan for calls is in the middle of.
#[derive(Clone, Copy, Debug, PartialEq, Eq, Structural)]
pub enum CallMode {
    Code,
    Text,
    Escape,
    Comment,
}

/// How far a scan for calls has come.
pub ghost struct CallScan {
    pub stack: Seq<CallFrame>,
    pub mode: CallMode,
}

/// The open brackets once the last form of the innermost has ended.
pub open spec fn ended(stack: Seq<CallFrame>) -> Seq<CallFrame> {
    if stack.len() > 0 {
        stack.update(stack.len() - 1, CallFrame { in_token: false, ..stack.last() })
    } else {
        stack
    }
}

/// The open brackets once a form of the innermost has started, or gone on.
pub open spec fn touched(stack: Seq<CallFrame>, goes_on: bool) -> Seq<CallFrame> {
    if stack.len() > 0 {
        let f = stack.last();
        stack.update(
            stack.len() - 1,
            CallFrame {
                tokens: if f.in_token {
                    f.tokens
                } else {
                    (f.tokens + 1) as usize
                },
                in_token: goes_on,
                ..f
            },
        )
    } else {
        stack
    }
}

/// The scan after the character `c`, which stands at `i`.
pub open spec fn call_step(s: CallScan, c: char, i: nat) -> CallScan {
    match s.mode {
        CallMode::Text => if c == '\\' {
            CallScan { mode: CallMode::Escape, ..s }
        } else if c == '"' {
            CallScan { stack: ended(s.stack), mode: CallMode::Code }
        } else {
            s
        },
        CallMode::Escape => CallScan { mode: CallMode::Text, ..s },
        CallMode::Comment => if c == '\n' {
            CallScan { mode: CallMode::Code, ..s }
        } else {
            s
        },
        CallMode::Code => if c == '(' || c == '[' || c == '{' {
            CallScan {
                stack: touched(s.stack, false).push(
                    CallFrame { kind: c, start: i as usize, tokens: 0, in_token: false },
                ),
                ..s
            }
        } else if c == ')' || c == ']' || c == '}' {
            CallScan {
                stack: ended(
                    if s.stack.len() > 0 {
                        s.stack.drop_last()
                    } else {
                        s.stack
                    },
                ),
                ..s
            }
        } else if c == '"' {
            CallScan { stack: touched(s.stack, true), mode: CallMode::Text }
        } else if c == ';' {
            CallScan { stack: ended(s.stack), mode: CallMode::Comment }
        } else if white_space(c) || c == ',' {
            CallScan { stack: ended(s.stack), ..s }
        } else {
            CallScan { stack: touched(s.stack, true), ..s }
        },
    }
}

/// The scan of the first `n` characters of `cs`.
pub open spec fn call_scan(cs: Seq<char>, n: nat) -> CallScan
    decreases n,
{
    if n == 0 {
        CallScan { stack: seq![], mode: CallMode::Code }
    } else {
        call_step(call_scan(cs, (n - 1) as nat), cs[n - 1], (n - 1) as nat)
    }
}

/// The last of the first `n` brackets that is a list's.
pub open spec fn last_list(stack: Seq<CallFrame>, n: nat) -> Option<nat>
    decreases n,
{
    if n == 0 || n > stack.len() {
        None
    } else if stack[n - 1].kind == '(' {
        Some((n - 1) as nat)
    } else {
        last_list(stack, (n - 1) as nat)
    }
}

/// Where the first form from `i` on starts: behind white space, commas and comments.
pub open spec fn form_start(cs: Seq<char>, i: nat, in_comment: bool) -> nat
    decreases cs.len() - i,
{
    if i >= cs.len() {
        i
    } else if in_comment {
        form_start(cs, i + 1, cs[i as int] != '\n')
    } else if white_space(cs[i as int]) || cs[i as int] == ',' {
        form_start(cs, i + 1, false)
    } else if cs[i as int] == ';' {
        form_start(cs, i + 1, true)
    } else {
        i
    }
}

/// The head of the innermost list that is still open at the end of `cs`, and the index
/// of the argument that stands there. While the head is still being typed there is
/// none.
pub open spec fn call_at_end(cs: Seq<char>) -> Option<(Seq<char>, u32)> {
    let stack = call_scan(cs, cs.len()).stack;
    match last_list(stack, stack.len()) {
        Some(idx) => {
            let f = stack[idx as int];
            let from = form_start(cs, f.start as nat + 1, false);
            let to = ident_end(cs, from);
            if f.tokens == 0 || (f.tokens == 1 && f.in_token) || from == to {
                None
            } else {
                let consumed = f.tokens - 1;
                let inside = f.in_token || idx + 1 < stack.len();
                Some(
                    (
                        cs.subrange(from as int, to as int),
                        (if inside && consumed > 0 {
                            consumed - 1
                        } else {
                            consumed
                        }) as u32,
                    ),
                )
            }
        },
        None => None,
    }
}

proof fn lemma_call_scan(cs: Seq<char>, n: nat)
    requires
        n <= usize::MAX,
    ensures
        forall|i: int|
            0 <= i < call_scan(cs, n).stack.len() ==> (#[trigger] call_scan(
                cs,
                n,
            ).stack[i]).tokens <= n && call_scan(cs, n).stack[i].start < n,
    decreases n,
{
    if n > 0 {
        lemma_call_scan(cs, (n - 1) as nat);
    }
}

/// Whether `h` is the head of a call: one identifier character or more.
pub open spec fn is_head(h: Seq<char>) -> bool {
    h.len() > 0 && forall|i: int| 0 <= i < h.len() ==> ident_char(#[trigger] h[i])
}

/// While the head of a call is being typed there is no call. Once a blank follows it, the
/// call is that of the head, at its first argument.
pub proof fn law_head_is_whole_before_a_call(h: Seq<char>)
    requires
        is_head(h),
    ensures
        call_at_end("("@ + h) is None,
        call_at_end("("@ + h + " "@) == Some((h, 0u32)),
{
    reveal_strlit("(");
    reveal_strlit(" ");
    let typed = "("@ + h;
    let cs = typed + " "@;
    let n = h.len();
    lemma_head_scan(typed, h, n);
    lemma_head_scan(cs, h, n);
    let f = CallFrame { kind: '(', start: 0, tokens: 1, in_token: true };
    assert(last_list(seq![f], 1) == Some(0nat));
    let g = CallFrame { in_token: false, ..f };
    assert(cs[n as int + 1] == ' ');
    assert(call_scan(cs, n + 2).stack =~= seq![g]);
    assert(last_list(seq![g], 1) == Some(0nat));
    assert(cs[1] == h[0]);
    assert(form_start(cs, 1, false) == 1);
    lemma_head_end(cs, h, 0);
    assert(cs.subrange(1, n as int + 1) =~= h);
}

proof fn lemma_head_scan(cs: Seq<char>, h: Seq<char>, n: nat)
    requires
        is_head(h),
        1 <= n <= h.len(),
        cs.len() > h.len(),
        cs[0] == '(',
        forall|i: int| 0 <= i < h.len() ==> cs[i + 1] == #[trigger] h[i],
    ensures
        call_scan(cs, n + 1).mode == CallMode::Code,
        call_scan(cs, n + 1).stack == seq![
            CallFrame { kind: '(', start: 0, tokens: 1, in_token: true },
        ],
    decreases n,
{
    let c = cs[n as int];
    assert(c == h[n - 1]);
    if n == 1 {
        reveal_with_fuel(call_scan, 3);
        let open = CallFrame { kind: '(', start: 0, tokens: 0, in_token: false };
        assert(call_scan(cs, 1).stack =~= seq![open]);
        assert(call_scan(cs, 2).stack =~= seq![CallFrame { tokens: 1, in_token: true, ..open }]);
    } else {
        lemma_head_scan(cs, h, (n - 1) as nat);
        assert(call_scan(cs, n + 1).stack =~= call_scan(cs, n).stack);
    }
}

proof fn lemma_head_end(cs: Seq<char>, h: Seq<char>, i: nat)
    requires
        is_head(h),
        i <= h.len(),
        cs.len() == h.len() + 2,
        cs[h.len() as int + 1] == ' ',
        forall|k: int| 0 <= k < h.len() ==> cs[k + 1] == #[trigger] h[k],
    ensures
        ident_end(cs, i + 1) == h.len() + 1,
    decreases h.len() - i,
{
    if i < h.len() {
        assert(cs[i as int + 1] == h[i as int]);
        lemma_head_end(cs, h, i + 1);
    }
}

fn end_token(stack: &mut Vec<CallFrame>)
    ensures
        final(stack)@ == ended(old(stack)@),
{
    let n: usize = stack.len();
    if n > 0 {
        let f = stack[n - 1];
        stack.set(n - 1, CallFrame { in_token: false, ..f });
    }
}

fn touch_token(stack: &mut Vec<CallFrame>, goes_on: bool)
    requires
        old(stack)@.len() > 0 ==> old(stack)@.last().tokens < usize::MAX,
    ensures
        final(stack)@ == touched(old(stack)@, goes_on),
{
    let n: usize = stack.len();
    if n > 0 {
        let f = stack[n - 1];
        let tokens: usize = if f.in_token {
            f.tokens
        } else {
            f.tokens + 1
        };
        stack.set(n - 1, CallFrame { tokens, in_token: goes_on, ..f });
    }
}

/// The function whose call the text ends in, and the index of the argument there.
pub fn find_call_context(text: &str) -> (r: Option<(String, u32)>)
    ensures
        match r {
            Some((name, arg)) => call_at_end(text@) == Some((name@, arg)),
            None => call_at_end(text@) is None,
        },
{
    let chars = chars_of(text);
    let ghost cs = text@;
    let len: usize = chars.len();
    let mut stack: Vec<CallFrame> = Vec::new();
    let mut mode = CallMode::Code;
    let mut i: usize = 0;
    while i < len
        invariant
            i <= len == chars@.len(),
            chars@ == cs,
            stack@ == call_scan(cs, i as nat).stack,
            mode == call_scan(cs, i as nat).mode,
        decreases len - i,
    {
        proof {
            lemma_call_scan(cs, i as nat);
        }
        let c = chars[i];
        match mode {
            CallMode::Text => {
                if c == '\\' {
                    mode = CallMode::Escape;
                } else if c == '"' {
                    end_token(&mut stack);
                    mode = CallMode::Code;
                }
            },
            CallMode::Escape => {
                mode = CallMode::Text;
            },
            CallMode::Comment => {
                if c == '\n' {
                    mode = CallMode::Code;
                }
            },
            CallMode::Code => {
                if c == '(' || c == '[' || c == '{' {
                    touch_token(&mut stack, false);
                    stack.push(CallFrame { kind: c, start: i, tokens: 0, in_token: false });
                } else if c == ')' || c == ']' || c == '}' {
                    let _ = stack.pop();
                    end_token(&mut stack);
                } else if c == '"' {
                    touch_token(&mut stack, true);
                    mode = CallMode::Text;
                } else if c == ';' {
                    end_token(&mut stack);
                    mode = CallMode::Comment;
                } else if is_whitespace(c) || c == ',' {
                    end_token(&mut stack);
                } else {
                    touch_token(&mut stack, true);
                }
            },
        }
        i += 1;
    }
    proof {
        lemma_call_scan(cs, len as nat);
    }
    let depth: usize = stack.len();
    let mut n: usize = depth;
    while n > 0 && stack[n - 1].kind != '('
        invariant
            n <= depth == stack@.len(),
            last_list(stack@, stack@.len()) == last_list(stack@, n as nat),
        decreases n,
    {
        n -= 1;
    }
    if n == 0 {
        return None;
    }
    let f = stack[n - 1];
    assert(call_scan(cs, len as nat).stack[n - 1] == f);
    if f.tokens == 0 || (f.tokens == 1 && f.in_token) {
        return None;
    }
    let mut from: usize = f.start + 1;
    let ghost first = from as nat;
    let mut in_comment = false;
    while from < len && (in_comment || is_whitespace(chars[from]) || chars[from] == ','
        || chars[from] == ';')
        invariant
            first <= from <= len == chars@.len(),
            chars@ == cs,
            form_start(cs, first, false) == form_start(cs, from as nat, in_comment),
        decreases len - from,
    {
        in_comment = if in_comment {
            chars[from] != '\n'
        } else {
            chars[from] == ';'
        };
        from += 1;
    }
    let mut to: usize = from;
    while to < len && is_clj_ident_char(chars[to])
        invariant
            from <= to <= len == chars@.len(),
            chars@ == cs,
            ident_end(cs, from as nat) == ident_end(cs, to as nat),
        decreases len - to,
    {
        to += 1;
    }
    if from == to {
        return None;
    }
    let consumed: usize = f.tokens - 1;
    let inside = f.in_token || n < depth;
    let active: usize = if inside && consumed > 0 {
        consumed - 1
    } else {
        consumed
    };
    #[verifier::truncate]
    let arg: u32 = active as u32;
    Some((string_of(&chars, from, to), arg))
}

/// What stands between the brackets of an argument vector.
pub open spec fn inner_of(arity: Seq<char>) -> Seq<char> {
    let t = trimmed(arity);
    if t.len() >= 2 && t[0] == '[' && t.last() == ']' {
        t.subrange(1, t.len() - 1)
    } else {
        arity
    }
}

/// The split of a text into top-level forms: those that have ended, the one that goes
/// on, and how deep in brackets it is.
pub ghost struct Split {
    pub tokens: Seq<Seq<char>>,
    pub current: Seq<char>,
    pub depth: int,
}

/// The split of the first `n` characters of `cs`.
pub open spec fn split_scan(cs: Seq<char>, n: nat) -> Split
    decreases n,
{
    if n == 0 {
        Split { tokens: seq![], current: seq![], depth: 0 }
    } else {
        let s = split_scan(cs, (n - 1) as nat);
        let c = cs[n - 1];
        if c == '[' || c == '{' || c == '(' {
            Split { current: s.current.push(c), depth: s.depth + 1, ..s }
        } else if c == ']' || c == '}' || c == ')' {
            Split { current: s.current.push(c), depth: s.depth - 1, ..s }
        } else if white_space(c) && s.depth == 0 {
            if s.current.len() > 0 {
                Split { tokens: s.tokens.push(s.current), current: seq![], ..s }
            } else {
                s
            }
        } else {
            Split { current: s.current.push(c), ..s }
        }
    }
}

/// The top-level forms of `cs`.
pub open spec fn top_forms(cs: Seq<char>) -> Seq<Seq<char>> {
    let s = split_scan(cs, cs.len());
    if s.current.len() > 0 {
        s.tokens.push(s.current)
    } else {
        s.tokens
    }
}

fn split_forms(chars: &Vec<char>) -> (r: Vec<String>)
    ensures
        strs(r@) == top_forms(chars@),
{
    let ghost cs = chars@;
    let mut tokens: Vec<String> = Vec::new();
    let mut current = String::new();
    let mut depth: i128 = 0;
    assert(strs(tokens@) =~= seq![]);
    assert(current@ =~= seq![]);
    let mut i: usize = 0;
    while i < chars.len()
        invariant
            i <= chars@.len(),
            chars@ == cs,
            strs(tokens@) == split_scan(cs, i as nat).tokens,
            current@ == split_scan(cs, i as nat).current,
            depth == split_scan(cs, i as nat).depth,
            -i <= depth <= i,
        decreases chars@.len() - i,
    {
        let c = chars[i];
        if c == '[' || c == '{' || c == '(' {
            depth += 1;
            current.push(c);
        } else if c == ']' || c == '}' || c == ')' {
            depth -= 1;
            current.push(c);
        } else if is_whitespace(c) && depth == 0 {
            if !current.as_str().is_empty() {
                push_str(&mut tokens, current);
                current = String::new();
                assert(current@ =~= seq![]);
            }
        } else {
            current.push(c);
        }
        i += 1;
    }
    if !current.as_str().is_empty() {
        push_str(&mut tokens, current);
    }
    tokens
}

/// Parameters, and the type hints that wait for the next one.
pub ghost struct Hinted {
    pub params: Seq<Seq<char>>,
    pub pending: Seq<char>,
}

/// The parameters of the first `n` forms, each with the hints before it.
pub open spec fn hinted(tokens: Seq<Seq<char>>, n: nat) -> Hinted
    decreases n,
{
    if n == 0 {
        Hinted { params: seq![], pending: seq![] }
    } else {
        let h = hinted(tokens, (n - 1) as nat);
        let tok = tokens[n - 1];
        if tok.len() > 0 && tok[0] == '^' {
            Hinted {
                pending: if h.pending.len() == 0 {
                    tok
                } else {
                    h.pending + " "@ + tok
                },
                ..h
            }
        } else if h.pending.len() == 0 {
            Hinted { params: h.params.push(tok), ..h }
        } else {
            Hinted { params: h.params.push(h.pending + " "@ + tok), pending: seq![] }
        }
    }
}

/// The parameters of the forms; hints with nothing after them stand by themselves.
pub open spec fn with_hints(tokens: Seq<Seq<char>>) -> Seq<Seq<char>> {
    let h = hinted(tokens, tokens.len());
    if h.pending.len() > 0 {
        h.params.push(h.pending)
    } else {
        h.params
    }
}

fn join_hints(tokens: &Vec<String>) -> (r: Vec<String>)
    ensures
        strs(r@) == with_hints(strs(tokens@)),
{
    let ghost all = strs(tokens@);
    let mut params: Vec<String> = Vec::new();
    let mut pending = String::new();
    assert(strs(params@) =~= seq![]);
    assert(pending@ =~= seq![]);
    let mut i: usize = 0;
    while i < tokens.len()
        invariant
            i <= tokens@.len(),
            all == strs(tokens@),
            strs(params@) == hinted(all, i as nat).params,
            pending@ == hinted(all, i as nat).pending,
        decreases tokens@.len() - i,
    {
        let tok = tokens[i].as_str();
        assert(all[i as int] == tok@);
        if starts_with_char(tok, '^') {
            if pending.as_str().is_empty() {
                pending = tok.to_owned();
            } else {
                pending = concat3(pending.as_str(), " ", tok);
            }
        } else if pending.as_str().is_empty() {
            push_str(&mut params, tok.to_owned());
        } else {
            push_str(&mut params, concat3(pending.as_str(), " ", tok));
            pending = String::new();
            assert(pending@ =~= seq![]);
        }
        i += 1;
    }
    if !pending.as_str().is_empty() {
        push_str(&mut params, pending);
    }
    params
}

/// The parameters from `i` on, where `& more` is one.
pub open spec fn rest_joined(params: Seq<Seq<char>>, i: nat) -> Seq<Seq<char>>
    decreases params.len() + 1 - i,
{
    if i >= params.len() {
        seq![]
    } else if params[i as int] == "&"@ && i + 1 < params.len() {
        seq!["& "@ + params[i as int + 1]] + rest_joined(params, i + 2)
    } else {
        seq![params[i as int]] + rest_joined(params, i + 1)
    }
}

fn join_rest(params: &Vec<String>) -> (r: Vec<String>)
    ensures
        strs(r@) == rest_joined(strs(params@), 0),
{
    let ghost all = strs(params@);
    let mut out: Vec<String> = Vec::new();
    assert(strs(out@) =~= seq![]);
    assert(rest_joined(all, 0) =~= strs(out@) + rest_joined(all, 0));
    let len: usize = params.len();
    let mut i: usize = 0;
    while i < len
        invariant
            i <= len == params@.len(),
            all == strs(params@),
            rest_joined(all, 0) == strs(out@) + rest_joined(all, i as nat),
        decreases len - i,
    {
        let ghost done = strs(out@);
        assert(all[i as int] == params@[i as int]@);
        if str_eq(params[i].as_str(), "&") && i + 1 < len {
            assert(all[i as int + 1] == params@[i as int + 1]@);
            push_str(&mut out, concat2("& ", params[i + 1].as_str()));
            assert(strs(out@) + rest_joined(all, i as nat + 2) =~= done + rest_joined(
                all,
                i as nat,
            ));
            i += 2;
        } else {
            push_str(&mut out, params[i].clone());
            assert(strs(out@) + rest_joined(all, i as nat + 1) =~= done + rest_joined(
                all,
                i as nat,
            ));
            i += 1;
        }
    }
    assert(strs(out@) + rest_joined(all, i as nat) =~= strs(out@));
    out
}

/// The parameters of an argument vector: destructuring forms stay whole, a hint goes
/// with the parameter after it, and `& more` is one.
pub open spec fn params_of(arity: Seq<char>) -> Seq<Seq<char>> {
    rest_joined(with_hints(top_forms(inner_of(arity))), 0)
}

/// The parameters of an argument vector.
pub fn split_params(arity: &str) -> (r: Vec<String>)
    ensures
        strs(r@) == params_of(arity@),
{
    let t = chars_of(trim(arity).as_str());
    let n: usize = t.len();
    let inner = if n >= 2 && t[0] == '[' && t[n - 1] == ']' {
        chars_of(string_of(&t, 1, n - 1).as_str())
    } else {
        chars_of(arity)
    };
    assert(inner@ =~= inner_of(arity@));
    join_rest(&join_hints(&split_forms(&inner)))
}

/// The split of a list of argument vectors.
pub open spec fn arity_scan(cs: Seq<char>, n: nat) -> Split
    decreases n,
{
    if n == 0 {
        Split { tokens: seq![], current: seq![], depth: 0 }
    } else {
        let s = arity_scan(cs, (n - 1) as nat);
        let c = cs[n - 1];
        if c == '[' {
            Split { current: s.current.push(c), depth: s.depth + 1, ..s }
        } else if c == ']' {
            if s.depth == 1 {
                Split { tokens: s.tokens.push(s.current.push(c)), current: seq![], depth: 0 }
            } else {
                Split { current: s.current.push(c), depth: s.depth - 1, ..s }
            }
        } else if s.depth > 0 {
            Split { current: s.current.push(c), ..s }
        } else {
            s
        }
    }
}

/// The argument vectors of a list of them.
pub fn split_arity_list(params: &str) -> (r: Vec<String>)
    ensures
        strs(r@) == arity_scan(params@, params@.len()).tokens,
{
    let chars = chars_of(params);
    let ghost cs = params@;
    let mut arities: Vec<String> = Vec::new();
    let mut current = String::new();
    let mut depth: i128 = 0;
    assert(strs(arities@) =~= seq![]);
    assert(current@ =~= seq![]);
    let mut i: usize = 0;
    while i < chars.len()
        invariant
            i <= chars@.len(),
            chars@ == cs,
            strs(arities@) == arity_scan(cs, i as nat).tokens,
            current@ == arity_scan(cs, i as nat).current,
            depth == arity_scan(cs, i as nat).depth,
            -i <= depth <= i,
        decreases chars@.len() - i,
    {
        let c = chars[i];
        if c == '[' {
            depth += 1;
            current.push(c);
        } else if c == ']' {
            depth -= 1;
            current.push(c);
            if depth == 0 {
                push_str(&mut arities, current);
                current = String::new();
                assert(current@ =~= seq![]);
            }
        } else if depth > 0 {
            current.push(c);
        }
        i += 1;
    }
    arities
}

/// Whether the parameter takes all the arguments that are left.
pub open spec fn takes_rest(params: Seq<Seq<char>>) -> bool {
    exists|i: int| 0 <= i < params.len() && (#[trigger] params[i]).len() > 0 && params[i][0] == '&'
}

/// Whether a call with an argument at `arg` fits the parameters.
pub open spec fn fits(params: Seq<Seq<char>>, arg: u32) -> bool {
    arg < params.len() || takes_rest(params)
}

/// The first arity from `i` on that fits; the last where none does.
pub open spec fn fitting(arities: Seq<Seq<char>>, arg: u32, i: nat) -> nat
    decreases arities.len() - i,
{
    if i + 1 >= arities.len() || fits(params_of(arities[i as int]), arg) {
        i
    } else {
        fitting(arities, arg, i + 1)
    }
}

/// The arity that fits an argument, and the parameter that the argument is for.
pub open spec fn active(arities: Seq<Seq<char>>, arg: u32) -> (u32, u32) {
    let i = fitting(arities, arg, 0);
    let params = params_of(arities[i as int]);
    (
        i as u32,
        (if arg < params.len() {
            arg as int
        } else if params.len() > 0 {
            params.len() - 1
        } else {
            0
        }) as u32,
    )
}

fn has_rest(params: &Vec<String>) -> (r: bool)
    ensures
        r == takes_rest(strs(params@)),
{
    let ghost all = strs(params@);
    let mut i: usize = 0;
    while i < params.len()
        invariant
            i <= params@.len(),
            all == strs(params@),
            forall|j: int| 0 <= j < i ==> !((#[trigger] all[j]).len() > 0 && all[j][0] == '&'),
        decreases params@.len() - i,
    {
        assert(all[i as int] == params@[i as int]@);
        if starts_with_char(params[i].as_str(), '&') {
            return true;
        }
        i += 1;
    }
    false
}

/// The arity that fits an argument, and the parameter that the argument is for.
pub fn pick_active(arities: &Vec<String>, active_arg: u32) -> (r: (u32, u32))
    requires
        arities@.len() > 0,
    ensures
        r == active(strs(arities@), active_arg),
{
    let ghost all = strs(arities@);
    let len: usize = arities.len();
    let mut i: usize = 0;
    loop
        invariant
            i < len == arities@.len(),
            all == strs(arities@),
            fitting(all, active_arg, 0) == fitting(all, active_arg, i as nat),
        decreases len - i,
    {
        assert(all[i as int] == arities@[i as int]@);
        let params = split_params(arities[i].as_str());
        if i + 1 >= len || (active_arg as usize) < params.len() || has_rest(&params) {
            let clamped: usize = if (active_arg as usize) < params.len() {
                active_arg as usize
            } else if params.len() > 0 {
                params.len() - 1
            } else {
                0
            };
            #[verifier::truncate]
            let r: (u32, u32) = (i as u32, clamped as u32);
            return r;
        }
        i += 1;
    }
}

/// One signature of a function.
#[derive(Clone, Debug)]
pub struct SignatureInformation {
    pub label: String,
    /// Documentation in Markdown.
    pub documentation: Option<String>,
    pub parameters: Vec<String>,
}

/// What a [`SignatureInformation`] says.
pub ghost struct SignatureView {
    pub label: Seq<char>,
    pub documentation: Option<Seq<char>>,
    pub parameters: Seq<Seq<char>>,
}

impl DeepView for SignatureInformation {
    type V = SignatureView;

    open spec fn deep_view(&self) -> SignatureView {
        SignatureView {
            label: self.label@,
            documentation: self.documentation.deep_view(),
            parameters: strs(self.parameters@),
        }
    }
}

/// The signatures of a function, and which of them the cursor is in.
#[derive(Clone, Debug)]
pub struct SignatureHelp {
    pub signatures: Vec<SignatureInformation>,
    pub active_signature: u32,
    pub active_parameter: u32,
}

/// What a [`SignatureHelp`] says.
pub ghost struct HelpView {
    pub signatures: Seq<SignatureView>,
    pub active_signature: u32,
    pub active_parameter: u32,
}

impl DeepView for SignatureHelp {
    type V = HelpView;

    open spec fn deep_view(&self) -> HelpView {
        HelpView {
            signatures: self.signatures.deep_view(),
            active_signature: self.active_signature,
            active_parameter: self.active_parameter,
        }
    }
}

/// The signature of one arity.
pub open spec fn signature_of(name: Seq<char>, arity: Seq<char>, doc: Option<Seq<char>>) -> SignatureView {
    let params = params_of(arity);
    SignatureView {
        label: if params.len() == 0 {
            "("@ + name + ")"@
        } else {
            "("@ + name + " "@ + joined_by(params, " "@, params.len()) + ")"@
        },
        documentation: doc,
        parameters: params,
    }
}

/// The help on a function with the arities, at an argument; none without arities.
pub open spec fn help_of(
    name: Seq<char>,
    arities: Seq<Seq<char>>,
    doc: Option<Seq<char>>,
    arg: u32,
) -> Option<HelpView> {
    if arities.len() == 0 {
        None
    } else {
        Some(
            HelpView {
                signatures: Seq::new(
                    arities.len(),
                    |i: int| signature_of(name, arities[i], doc),
                ),
                active_signature: active(arities, arg).0,
                active_parameter: active(arities, arg).1,
            },
        )
    }
}

fn build_signature(name: &str, arity: &str, doc: &Option<String>) -> (r: SignatureInformation)
    ensures
        r.deep_view() == signature_of(name@, arity@, doc.deep_view()),
{
    let parameters = split_params(arity);
    let mut label = concat2("(", name);
    if parameters.len() > 0 {
        label.append(" ");
        label.append(join_by(&parameters, " ").as_str());
    }
    label.append(")");
    SignatureInformation { label, documentation: copy_opt(doc), parameters }
}

/// The help on a function with the arities, at an argument.
pub fn build_help(name: &str, arities: &Vec<String>, doc: &Option<String>, arg: u32) -> (r: Option<
    SignatureHelp,
>)
    ensures
        r.deep_view() == help_of(name@, strs(arities@), doc.deep_view(), arg),
{
    if arities.len() == 0 {
        return None;
    }
    let mut signatures: Vec<SignatureInformation> = Vec::new();
    let mut i: usize = 0;
    while i < arities.len()
        invariant
            i <= arities@.len(),
            signatures@.len() == i,
            forall|j: int|
                0 <= j < i ==> (#[trigger] signatures@[j]).deep_view() == signature_of(
                    name@,
                    strs(arities@)[j],
                    doc.deep_view(),
                ),
        decreases arities@.len() - i,
    {
        signatures.push(build_signature(name, arities[i].as_str(), doc));
        i += 1;
    }
    let (active_signature, active_parameter) = pick_active(arities, arg);
    let r = SignatureHelp { signatures, active_signature, active_parameter };
    assert(r.deep_view().signatures =~= help_of(
        name@,
        strs(arities@),
        doc.deep_view(),
        arg,
    )->0.signatures);
    Some(r)
}

/// The help on what a name stands for. Special forms and native functions have none.
pub open spec fn help_for(resolved: Option<ResolvedView>, arg: u32) -> Option<HelpView> {
    match resolved {
        Some(ResolvedView::Project(sym)) => help_of(sym.name, sym.params, sym.doc, arg),
        Some(ResolvedView::Core(c)) => help_of(
            c.name,
            arity_scan(c.params, c.params.len()).tokens,
            some_text(c.doc),
            arg,
        ),
        _ => None,
    }
}

/// The help on what a name stands for.
pub fn describe(resolved: Option<ResolvedSymbol>, arg: u32) -> (r: Option<SignatureHelp>)
    ensures
        r.deep_view() == help_for(resolved.deep_view(), arg),
{
    match resolved {
        Some(ResolvedSymbol::Project(sym)) => build_help(
            sym.name.as_str(),
            &sym.params,
            &sym.doc,
            arg,
        ),
        Some(ResolvedSymbol::Core(c)) => {
            let doc = if c.doc.as_str().is_empty() {
                None
            } else {
                Some(c.doc.clone())
            };
            build_help(c.name.as_str(), &split_arity_list(c.params.as_str()), &doc, arg)
        },
        _ => None,
    }
}

/// The text of an open document before a position.
pub open spec fn text_before(store: StoreView, uri: Seq<char>, pos: Position) -> Option<Seq<char>> {
    match store.text(uri) {
        Some(t) => match position_index(t, pos) {
            Some(i) => Some(t.take(i as int)),
            None => None,
        },
        None => None,
    }
}

/// The help at a position of the document `uri`, which is the file `path`.
pub fn handle(index: &Index, documents: &DocumentStore, uri: &str, path: &str, pos: Position) -> (r:
    Option<SignatureHelp>)
    ensures
        r.deep_view() == (match text_before(documents@, uri@, pos) {
            Some(text) => match call_at_end(text) {
                Some((name, arg)) => help_for(
                    resolved(index@, name, ns_of(index@, path@)),
                    arg,
                ),
                None => None,
            },
            None => None,
        }),
{
    let text = match documents.text_up_to(uri, pos) {
        Some(text) => text,
        None => return None,
    };
    let (name, arg) = match find_call_context(text.as_str()) {
        Some((name, arg)) => (name, arg),
        None => return None,
    };
    let current_ns = match index.file_ns(path) {
        Some(ns) => ns,
        None => String::new(),
    };
    assert(current_ns@ =~= ns_of(index@, path@));
    describe(resolve_symbol(index, name.as_str(), current_ns.as_str()), arg)
}

/// The arity that help shows as active is one of the function's, and so is the
/// parameter, if the arity has any.
pub proof fn law_active_is_in_range(arities: Seq<Seq<char>>, arg: u32)
    requires
        0 < arities.len() <= u32::MAX,
        forall|i: int| 0 <= i < arities.len() ==> params_of(#[trigger] arities[i]).len() <= u32::MAX,
    ensures
        active(arities, arg).0 < arities.len(),
        ({
            let params = params_of(arities[active(arities, arg).0 as int]);
            params.len() > 0 ==> active(arities, arg).1 < params.len()
        }),
{
    lemma_fitting(arities, arg, 0);
}

proof fn lemma_fitting(arities: Seq<Seq<char>>, arg: u32, i: nat)
    requires
        i < arities.len(),
    ensures
        i <= fitting(arities, arg, i) < arities.len(),
        fits(params_of(arities[fitting(arities, arg, i) as int]), arg) || fitting(arities, arg, i)
            == arities.len() - 1,
        forall|j: int|
            i <= j < fitting(arities, arg, i) ==> !fits(params_of(#[trigger] arities[j]), arg),
    decreases arities.len() - i,
{
    if i + 1 < arities.len() && !fits(params_of(arities[i as int]), arg) {
        lemma_fitting(arities, arg, i + 1);
    }
}

/// The arity that help shows as active is the first that the argument fits, where
/// there is one.
pub proof fn law_active_is_the_first_that_fits(arities: Seq<Seq<char>>, arg: u32, k: int)
    requires
        0 <= k < arities.len() <= u32::MAX,
        fits(params_of(arities[k]), arg),
    ensures
        active(arities, arg).0 <= k,
        fits(params_of(arities[active(arities, arg).0 as int]), arg),
{
    lemma_fitting(arities, arg, 0);
}

/// The first `n` arguments, with a blank in front of each.
pub open spec fn spaced(args: Seq<Seq<char>>, n: nat) -> Seq<char>
    decreases n,
{
    if n == 0 {
        seq![]
    } else {
        spaced(args, (n - 1) as nat) + seq![' '] + args[n - 1]
    }
}

/// The call at the end of a text is the innermost one that is open, whatever stands around
/// it, and the argument is the one that is being typed: behind a blank the next one, behind
/// a character the one that the character belongs to.
pub proof fn law_call_is_the_innermost_open_one(p: Seq<char>, h: Seq<char>, args: Seq<Seq<char>>)
    requires
        call_scan(p, p.len()).mode == CallMode::Code,
        is_head(h),
        forall|i: int| 0 <= i < args.len() ==> is_head(#[trigger] args[i]),
        args.len() < u32::MAX,
        p.len() + h.len() + spaced(args, args.len()).len() < usize::MAX,
        args.len() < usize::MAX - 2,
    ensures
        call_at_end(p + seq!['('] + h + spaced(args, args.len()) + seq![' ']) == Some(
            (h, args.len() as u32),
        ),
        args.len() > 0 ==> call_at_end(p + seq!['('] + h + spaced(args, args.len())) == Some(
            (h, (args.len() - 1) as u32),
        ),
{
    let n = args.len();
    let base = touched(call_scan(p, p.len()).stack, false);
    let typed = p + seq!['('] + h + spaced(args, n);
    let cs = typed + seq![' '];
    lemma_calls_scan(p, h, args, n, typed);
    lemma_calls_scan(p, h, args, n, cs);
    let f = CallFrame {
        kind: '(',
        start: p.len() as usize,
        tokens: (n + 1) as usize,
        in_token: true,
    };
    let g = CallFrame { in_token: false, ..f };
    assert(typed.len() == p.len() + 1 + h.len() + spaced(args, n).len());
    assert(cs[typed.len() as int] == ' ');
    assert(call_scan(cs, cs.len()).stack =~= base.push(g));
    assert(call_scan(typed, typed.len()).stack == base.push(f));
    assert(last_list(base.push(g), base.len() + 1) == Some(base.len()));
    assert(last_list(base.push(f), base.len() + 1) == Some(base.len()));
    if n > 0 {
        lemma_spaced_starts_blank(args, n);
        assert(typed[p.len() + 1 + h.len() as int] == spaced(args, n)[0]);
        assert(typed.take(p.len() as int + 1 + h.len()) =~= p + seq!['('] + h);
        lemma_head_of_call(p, h, typed);
        assert(cs[p.len() + 1 + h.len() as int] == typed[p.len() + 1 + h.len() as int]);
    }
    assert(cs.take(p.len() as int + 1 + h.len()) =~= p + seq!['('] + h);
    lemma_head_of_call(p, h, cs);
}

proof fn lemma_spaced_starts_blank(args: Seq<Seq<char>>, n: nat)
    requires
        n > 0,
    ensures
        spaced(args, n).len() > 0,
        spaced(args, n)[0] == ' ',
    decreases n,
{
    if n > 1 {
        lemma_spaced_starts_blank(args, (n - 1) as nat);
    } else {
        assert(spaced(args, 0) =~= seq![]);
    }
}

proof fn lemma_scan_prefix(p: Seq<char>, cs: Seq<char>, n: nat)
    requires
        n <= p.len() <= cs.len(),
        forall|i: int| 0 <= i < p.len() ==> p[i] == cs[i],
    ensures
        call_scan(cs, n) == call_scan(p, n),
    decreases n,
{
    if n > 0 {
        lemma_scan_prefix(p, cs, (n - 1) as nat);
        assert(p[n - 1] == cs[n - 1]);
    }
}

/// Reading the characters of a word makes one token of them.
proof fn lemma_word_scan(
    cs: Seq<char>,
    from: nat,
    h: Seq<char>,
    m: nat,
    base: Seq<CallFrame>,
    f: CallFrame,
)
    requires
        is_head(h),
        1 <= m <= h.len(),
        from + h.len() <= cs.len(),
        forall|i: int| 0 <= i < h.len() ==> cs[from + i] == #[trigger] h[i],
        call_scan(cs, from).mode == CallMode::Code,
        call_scan(cs, from).stack == base.push(f),
        !f.in_token,
        f.tokens < usize::MAX,
    ensures
        call_scan(cs, from + m).mode == CallMode::Code,
        call_scan(cs, from + m).stack == base.push(
            CallFrame { tokens: (f.tokens + 1) as usize, in_token: true, ..f },
        ),
    decreases m,
{
    let g = CallFrame { tokens: (f.tokens + 1) as usize, in_token: true, ..f };
    let c = cs[from + m - 1];
    assert(c == h[m - 1]);
    if m == 1 {
        assert(call_scan(cs, from + 1).stack =~= base.push(g));
    } else {
        lemma_word_scan(cs, from, h, (m - 1) as nat, base, f);
        assert(call_scan(cs, from + m).stack =~= base.push(g));
    }
}

proof fn lemma_calls_scan(
    p: Seq<char>,
    h: Seq<char>,
    args: Seq<Seq<char>>,
    n: nat,
    cs: Seq<char>,
)
    requires
        n <= args.len(),
        call_scan(p, p.len()).mode == CallMode::Code,
        is_head(h),
        forall|i: int| 0 <= i < args.len() ==> is_head(#[trigger] args[i]),
        n < usize::MAX - 2,
        p.len() + h.len() + spaced(args, n).len() < usize::MAX,
        (p + seq!['('] + h + spaced(args, n)).is_prefix_of(cs),
    ensures
        ({
            let len = (p.len() + 1 + h.len() + spaced(args, n).len()) as nat;
            &&& call_scan(cs, len).mode == CallMode::Code
            &&& call_scan(cs, len).stack == touched(call_scan(p, p.len()).stack, false).push(
                CallFrame {
                    kind: '(',
                    start: p.len() as usize,
                    tokens: (n + 1) as usize,
                    in_token: true,
                },
            )
        }),
    decreases n,
{
    let base = touched(call_scan(p, p.len()).stack, false);
    let typed = p + seq!['('] + h + spaced(args, n);
    assert forall|i: int| 0 <= i < typed.len() implies cs[i] == typed[i] by {
        assert(cs.take(typed.len() as int)[i] == typed[i]);
    }
    if n == 0 {
        assert(typed =~= p + seq!['('] + h);
        lemma_scan_prefix(p, cs, p.len());
        let open = CallFrame {
            kind: '(',
            start: p.len() as usize,
            tokens: 0,
            in_token: false,
        };
        assert(cs[p.len() as int] == typed[p.len() as int]);
        assert(call_scan(cs, p.len() + 1).stack =~= base.push(open));
        assert forall|i: int| 0 <= i < h.len() implies cs[p.len() + 1 + i] == #[trigger] h[i] by {
            assert(cs[p.len() + 1 + i] == typed[p.len() + 1 + i]);
        }
        lemma_word_scan(cs, p.len() + 1, h, h.len(), base, open);
    } else {
        let m = (n - 1) as nat;
        let before = p + seq!['('] + h + spaced(args, m);
        let a = args[n - 1];
        assert(typed =~= before + seq![' '] + a);
        assert(before.is_prefix_of(cs)) by {
            assert(cs.take(before.len() as int) =~= before);
        }
        lemma_calls_scan(p, h, args, m, cs);
        let f = CallFrame {
            kind: '(',
            start: p.len() as usize,
            tokens: n as usize,
            in_token: false,
        };
        let at = before.len();
        assert(cs[at as int] == typed[at as int]);
        assert(call_scan(cs, at + 1).stack =~= base.push(f));
        assert forall|i: int| 0 <= i < a.len() implies cs[at + 1 + i] == #[trigger] a[i] by {
            assert(cs[at + 1 + i] == typed[at + 1 + i]);
        }
        lemma_word_scan(cs, at + 1, a, a.len(), base, f);
    }
}

proof fn lemma_word_end(cs: Seq<char>, from: nat, h: Seq<char>, i: nat)
    requires
        is_head(h),
        i <= h.len(),
        from + h.len() < cs.len(),
        cs[from + h.len() as int] == ' ',
        forall|k: int| 0 <= k < h.len() ==> cs[from + k] == #[trigger] h[k],
    ensures
        ident_end(cs, from + i) == from + h.len(),
    decreases h.len() - i,
{
    if i < h.len() {
        assert(cs[from + i as int] == h[i as int]);
        lemma_word_end(cs, from, h, i + 1);
    }
}

proof fn lemma_head_of_call(p: Seq<char>, h: Seq<char>, cs: Seq<char>)
    requires
        is_head(h),
        (p + seq!['('] + h).is_prefix_of(cs),
        p.len() + 1 + h.len() < cs.len(),
        cs[p.len() + 1 + h.len() as int] == ' ',
    ensures
        form_start(cs, p.len() + 1, false) == p.len() + 1,
        ident_end(cs, p.len() + 1) == p.len() + 1 + h.len(),
        cs.subrange(p.len() as int + 1, p.len() as int + 1 + h.len()) == h,
{
    let typed = p + seq!['('] + h;
    assert forall|k: int| 0 <= k < h.len() implies cs[p.len() + 1 + k] == #[trigger] h[k] by {
        assert(cs.take(typed.len() as int)[p.len() + 1 + k] == typed[p.len() + 1 + k]);
    }
    assert(cs[p.len() as int + 1] == h[0]);
    lemma_word_end(cs, p.len() + 1, h, 0);
    assert(cs.subrange(p.len() as int + 1, p.len() as int + 1 + h.len()) =~= h);
}

/// Whether a parameter is a plain name: neither a destructuring form nor a type hint, nor the
/// `&` before the rest.
pub open spec fn plain_param(name: Seq<char>) -> bool {
    &&& name.len() > 0
    &&& name[0] != '^'
    &&& name != "&"@
    &&& forall|i: int|
        0 <= i < name.len() ==> !white_space(#[trigger] name[i]) && name[i] != '[' && name[i] != ']'
            && name[i] != '{' && name[i] != '}' && name[i] != '(' && name[i] != ')'
}

/// The parameters of an arity are the names that it is written with, in order.
pub proof fn law_parameters_are_the_names(names: Seq<Seq<char>>)
    requires
        names.len() > 0,
        forall|i: int| 0 <= i < names.len() ==> plain_param(#[trigger] names[i]),
    ensures
        params_of(seq!['['] + joined_by(names, " "@, names.len()) + seq![']']) == names,
{
    let inner = joined_by(names, " "@, names.len());
    let arity = seq!['['] + inner + seq![']'];
    assert(arity[0] == '[' && arity.last() == ']');
    assert(space_end(arity, 0) == 0);
    assert(space_start(arity, arity.len()) == arity.len());
    assert(trimmed(arity) =~= arity);
    assert(arity.subrange(1, arity.len() - 1) =~= inner);
    lemma_names_scan(names, names.len(), inner);
    let n = names.len();
    assert(top_forms(inner) =~= names) by {
        assert(names.take(n - 1).push(names[n - 1]) =~= names);
    }
    lemma_no_hints(names, n);
    lemma_no_rest(names, 0);
    assert(names.skip(0) =~= names);
}

proof fn lemma_split_prefix(a: Seq<char>, cs: Seq<char>, n: nat)
    requires
        n <= a.len() <= cs.len(),
        forall|i: int| 0 <= i < a.len() ==> a[i] == cs[i],
    ensures
        split_scan(a, n) == split_scan(cs, n),
    decreases n,
{
    if n > 0 {
        lemma_split_prefix(a, cs, (n - 1) as nat);
        assert(a[n - 1] == cs[n - 1]);
    }
}

proof fn lemma_name_scan(cs: Seq<char>, from: nat, w: Seq<char>, m: nat, tokens: Seq<Seq<char>>)
    requires
        plain_param(w),
        m <= w.len(),
        from + w.len() <= cs.len(),
        forall|i: int| 0 <= i < w.len() ==> cs[from + i] == #[trigger] w[i],
        split_scan(cs, from) == (Split { tokens, current: seq![], depth: 0 }),
    ensures
        split_scan(cs, from + m) == (Split { tokens, current: w.take(m as int), depth: 0 }),
    decreases m,
{
    if m > 0 {
        lemma_name_scan(cs, from, w, (m - 1) as nat, tokens);
        assert(cs[from + m - 1] == w[m - 1]);
        assert(w.take(m - 1).push(w[m - 1]) =~= w.take(m as int));
    } else {
        assert(w.take(0) =~= seq![]);
    }
}

proof fn lemma_names_scan(names: Seq<Seq<char>>, n: nat, cs: Seq<char>)
    requires
        0 < n <= names.len(),
        forall|i: int| 0 <= i < names.len() ==> plain_param(#[trigger] names[i]),
        joined_by(names, " "@, n).is_prefix_of(cs),
    ensures
        split_scan(cs, joined_by(names, " "@, n).len()) == (Split {
            tokens: names.take(n - 1),
            current: names[n - 1],
            depth: 0,
        }),
    decreases n,
{
    reveal_strlit(" ");
    assert(" "@ =~= seq![' ']);
    let all = joined_by(names, " "@, n);
    let w = names[n - 1];
    assert forall|i: int| 0 <= i < all.len() implies cs[i] == all[i] by {
        assert(cs.take(all.len() as int)[i] == all[i]);
    }
    if n == 1 {
        assert(names.take(0) =~= seq![]);
        lemma_name_scan(cs, 0, w, w.len(), seq![]);
        assert(w.take(w.len() as int) =~= w);
    } else {
        let before = joined_by(names, " "@, (n - 1) as nat);
        let at = before.len();
        assert(before.is_prefix_of(cs)) by {
            assert(cs.take(at as int) =~= before);
        }
        lemma_names_scan(names, (n - 1) as nat, cs);
        assert(cs[at as int] == ' ');
        assert(names[n - 2].len() > 0) by {
            assert(plain_param(names[n - 2]));
        }
        assert(names.take(n - 2).push(names[n - 2]) =~= names.take(n - 1));
        assert(split_scan(cs, at + 1) == (Split {
            tokens: names.take(n - 1),
            current: seq![],
            depth: 0,
        }));
        assert forall|i: int| 0 <= i < w.len() implies cs[at + 1 + i] == #[trigger] w[i] by {
            assert(cs[at + 1 + i] == all[at + 1 + i]);
        }
        lemma_name_scan(cs, at + 1, w, w.len(), names.take(n - 1));
        assert(w.take(w.len() as int) =~= w);
    }
}

proof fn lemma_no_hints(names: Seq<Seq<char>>, n: nat)
    requires
        n <= names.len(),
        forall|i: int| 0 <= i < names.len() ==> plain_param(#[trigger] names[i]),
    ensures
        hinted(names, n) == (Hinted { params: names.take(n as int), pending: seq![] }),
    decreases n,
{
    if n > 0 {
        lemma_no_hints(names, (n - 1) as nat);
        assert(plain_param(names[n - 1]));
        assert(names.take(n - 1).push(names[n - 1]) =~= names.take(n as int));
    } else {
        assert(names.take(0) =~= seq![]);
    }
    if n == names.len() {
        assert(names.take(n as int) =~= names);
    }
}

proof fn lemma_no_rest(names: Seq<Seq<char>>, i: nat)
    requires
        i <= names.len(),
        forall|k: int| 0 <= k < names.len() ==> plain_param(#[trigger] names[k]),
    ensures
        rest_joined(names, i) == names.skip(i as int),
    decreases names.len() - i,
{
    if i < names.len() {
        assert(plain_param(names[i as int]));
        lemma_no_rest(names, i + 1);
        assert(seq![names[i as int]] + names.skip(i as int + 1) =~= names.skip(i as int));
    } else {
        assert(names.skip(i as int) =~= seq![]);
    }
}

/// The help for a definition has one signature for each of its arities, in order, with the
/// parameters of that arity, and none where it has no arity.
pub proof fn law_help_lists_every_arity(sym: SymbolView, arg: u32, i: int)
    ensures
        help_for(Some(ResolvedView::Project(sym)), arg) is Some <==> sym.params.len() > 0,
        help_for(Some(ResolvedView::Project(sym)), arg) matches Some(help) ==> {
            &&& help.signatures.len() == sym.params.len()
            &&& 0 <= i < sym.params.len() ==> {
                let s = help.signatures[i];
                &&& s.parameters == params_of(sym.params[i])
                &&& s.documentation == sym.doc
                &&& s.label == "("@ + sym.name + (if s.parameters.len() == 0 {
                    seq![]
                } else {
                    " "@ + joined_by(s.parameters, " "@, s.parameters.len())
                }) + ")"@
            }
        },
{
    if sym.params.len() > 0 && 0 <= i < sym.params.len() {
        let params = params_of(sym.params[i]);
        if params.len() == 0 {
            assert("("@ + sym.name + seq![] + ")"@ =~= "("@ + sym.name + ")"@);
        } else {
            let joined = joined_by(params, " "@, params.len());
            assert("("@ + sym.name + (" "@ + joined) + ")"@ =~= "("@ + sym.name + " "@ + joined
                + ")"@);
        }
    }
}

/// Each vector of a list of arities is one arity: behind any whole arities another vector adds
/// itself, brackets and all.
pub proof fn law_vectors_are_arities(cs: Seq<char>, n: nat, m: nat)
    requires
        n < m < cs.len(),
        arity_scan(cs, n).depth == 0,
        cs[n as int] == '[',
        cs[m as int] == ']',
        forall|k: int| n < k < m ==> (#[trigger] cs[k]) != '[' && cs[k] != ']',
        arity_scan(cs, n).current == Seq::<char>::empty(),
    ensures
        arity_scan(cs, m + 1).tokens == arity_scan(cs, n).tokens.push(
            cs.subrange(n as int, m as int + 1),
        ),
        arity_scan(cs, m + 1).depth == 0,
        arity_scan(cs, m + 1).current == Seq::<char>::empty(),
{
    lemma_inside_arity(cs, n, m);
    assert(cs.subrange(n as int, m as int).push(cs[m as int]) =~= cs.subrange(n as int, m as int + 1));
}

proof fn lemma_inside_arity(cs: Seq<char>, n: nat, m: nat)
    requires
        n < m < cs.len(),
        arity_scan(cs, n).depth == 0,
        cs[n as int] == '[',
        forall|k: int| n < k < m ==> (#[trigger] cs[k]) != '[' && cs[k] != ']',
        arity_scan(cs, n).current == Seq::<char>::empty(),
    ensures
        arity_scan(cs, m).depth == 1,
        arity_scan(cs, m).tokens == arity_scan(cs, n).tokens,
        arity_scan(cs, m).current == cs.subrange(n as int, m as int),
    decreases m,
{
    if m == n + 1 {
        assert(Seq::<char>::empty().push(cs[n as int]) =~= cs.subrange(n as int, m as int));
    } else {
        lemma_inside_arity(cs, n, (m - 1) as nat);
        assert(cs.subrange(n as int, m - 1).push(cs[m - 1]) =~= cs.subrange(n as int, m as int));
    }
}

}
