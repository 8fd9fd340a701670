//! Which locals are visible at a place in a file, and where one is used.
//!
//! The walk goes down one path: at each binding form around the place it collects
//! the names that are visible there, and then goes into the child that holds the
//! place. It follows the scope rules of the walk in `occurrences`. It knows forms
//! by their heads alone: a macro that stands for `defn` binds nothing here.

use vstd::prelude::*;
use crate::collect::push_item;
use crate::index::extractor::{sym_name, sym_name_range, sym_range, sym_text};
use crate::index::model::{def_symbol_kind, DefKind};
use crate::index::occurrences::{arity_body, is_arity, is_let_like, let_like};
use crate::index::scope::{BindingView, LocalBinding};
use crate::lsp::{Position, Range};
use crate::syntax::{form_at, lemma_path_through, lemma_children, parse_source, syntax_of, Form, FormView, Kind};
use crate::text::str_eq;

verus! {

broadcast use lemma_children;

// --- patterns ---------------------------------------------------------------

/// The names that a pattern binds, after those in `out`. An `:or` entry gives
/// defaults for names bound elsewhere in the pattern and binds none itself.
pub open spec fn targets(f: FormView, out: Seq<BindingView>) -> Seq<BindingView>
    decreases f, 1nat, 0nat,
{
    if f.kind == Kind::SymLit {
        let name = sym_name(f);
        if name == "&"@ || name == "_"@ {
            out
        } else {
            out.push(BindingView { name, name_range: sym_range(f) })
        }
    } else if f.kind == Kind::MapLit {
        map_targets(f, f.children.len() / 2, out)
    } else {
        child_targets(f, f.children.len(), out)
    }
}

/// The names that the first `n` children of a pattern bind.
pub open spec fn child_targets(f: FormView, n: nat, out: Seq<BindingView>) -> Seq<BindingView>
    decreases f, 0nat, n,
{
    if n == 0 || n > f.children.len() {
        out
    } else {
        targets(f.children[n - 1], child_targets(f, (n - 1) as nat, out))
    }
}

/// The names that the first `n` entries of a map pattern bind.
pub open spec fn map_targets(f: FormView, n: nat, out: Seq<BindingView>) -> Seq<BindingView>
    decreases f, 0nat, n,
{
    if n == 0 || 2 * n > f.children.len() {
        out
    } else {
        let before = map_targets(f, (n - 1) as nat, out);
        let k = f.children[2 * n - 2];
        let v = f.children[2 * n - 1];
        if k.kind == Kind::KwdLit {
            if k.text != ":or"@ {
                targets(v, before)
            } else {
                before
            }
        } else {
            targets(k, before)
        }
    }
}

fn collect_binding_targets(f: &Form, out: &mut Vec<LocalBinding>)
    ensures
        final(out).deep_view() == targets(f@, old(out).deep_view()),
    decreases f@,
{
    let ghost before = out.deep_view();
    if f.kind == Kind::SymLit {
        let name = sym_text(f);
        if !str_eq(name, "&") && !str_eq(name, "_") {
            let b = LocalBinding { name: name.to_owned(), name_range: sym_name_range(f) };
            push_item(out, b);
        }
        return;
    }
    let len: usize = f.children.len();
    if f.kind == Kind::MapLit {
        let mut p: usize = 0;
        while p < len / 2
            invariant
                len == f.children@.len(),
                p <= len / 2,
                out.deep_view() == map_targets(f@, p as nat, before),
            decreases len / 2 - p,
        {
            let k = &f.children[2 * p];
            let v = &f.children[2 * p + 1];
            assert(decreases_to!(f@ => f@.children[2 * p as int]));
            assert(decreases_to!(f@ => f@.children[2 * p as int + 1]));
            if k.kind == Kind::KwdLit {
                if !str_eq(k.text.as_str(), ":or") {
                    collect_binding_targets(v, out);
                }
            } else {
                collect_binding_targets(k, out);
            }
            p += 1;
        }
        return;
    }
    let mut i: usize = 0;
    while i < len
        invariant
            len == f.children@.len(),
            i <= len,
            out.deep_view() == child_targets(f@, i as nat, before),
        decreases len - i,
    {
        assert(decreases_to!(f@ => f@.children[i as int]));
        collect_binding_targets(&f.children[i], out);
        i += 1;
    }
}

/// Whether `pos` lies in one of the first `n` defaults of an `:or` map.
pub open spec fn in_some_default(f: FormView, n: nat, pos: Position) -> bool
    decreases n,
{
    n > 0 && 2 * n <= f.children.len() && (f.children[2 * n - 1].range.holds(pos)
        || in_some_default(f, (n - 1) as nat, pos))
}

/// Whether `pos` lies in a default of an `:or` among the first `n` entries of a
/// map pattern.
pub open spec fn in_or_entry(f: FormView, n: nat, pos: Position) -> bool
    decreases n,
{
    n > 0 && 2 * n <= f.children.len() && ((f.children[2 * n - 2].kind == Kind::KwdLit
        && f.children[2 * n - 2].text == ":or"@ && f.children[2 * n - 1].kind == Kind::MapLit
        && in_some_default(f.children[2 * n - 1], f.children[2 * n - 1].children.len() / 2, pos))
        || in_or_entry(f, (n - 1) as nat, pos))
}

/// Whether `pos` lies in a default of an `:or` somewhere in a pattern. A default
/// is evaluated in the scope around the pattern and does not see its names.
pub open spec fn in_default(f: FormView, pos: Position) -> bool
    decreases f, 1nat, 0nat,
{
    (f.kind == Kind::MapLit && in_or_entry(f, f.children.len() / 2, pos)) || child_in_default(
        f,
        f.children.len(),
        pos,
    )
}

/// Whether `pos` lies in such a default in one of the first `n` children.
pub open spec fn child_in_default(f: FormView, n: nat, pos: Position) -> bool
    decreases f, 0nat, n,
{
    n > 0 && n <= f.children.len() && (in_default(f.children[n - 1], pos) || child_in_default(
        f,
        (n - 1) as nat,
        pos,
    ))
}

fn pos_in_some_default(f: &Form, pos: Position) -> (r: bool)
    ensures
        r == in_some_default(f@, f@.children.len() / 2, pos),
{
    let len: usize = f.children.len();
    let mut n: usize = len / 2;
    while n > 0
        invariant
            len == f.children@.len(),
            n <= len / 2,
            in_some_default(f@, f@.children.len() / 2, pos) == in_some_default(f@, n as nat, pos),
        decreases n,
    {
        if f.children[2 * n - 1].range.contains(pos) {
            return true;
        }
        n -= 1;
    }
    false
}

fn pos_in_or_default(f: &Form, pos: Position) -> (r: bool)
    ensures
        r == in_default(f@, pos),
    decreases f@,
{
    let len: usize = f.children.len();
    if f.kind == Kind::MapLit {
        let mut n: usize = len / 2;
        while n > 0
            invariant
                f.kind == Kind::MapLit,
                len == f.children@.len(),
                n <= len / 2,
                in_or_entry(f@, f@.children.len() / 2, pos) == in_or_entry(f@, n as nat, pos),
            decreases n,
        {
            let k = &f.children[2 * n - 2];
            let v = &f.children[2 * n - 1];
            if k.kind == Kind::KwdLit && str_eq(k.text.as_str(), ":or") && v.kind == Kind::MapLit
                && pos_in_some_default(v, pos) {
                return true;
            }
            n -= 1;
        }
    }
    let mut n: usize = len;
    while n > 0
        invariant
            len == f.children@.len(),
            n <= len,
            in_default(f@, pos) == child_in_default(f@, n as nat, pos),
        decreases n,
    {
        assert(decreases_to!(f@ => f@.children[n - 1]));
        if pos_in_or_default(&f.children[n - 1], pos) {
            return true;
        }
        n -= 1;
    }
    false
}

// --- going down -------------------------------------------------------------

/// The first child from `i` on that holds `pos`.
pub open spec fn child_holding(f: FormView, i: nat, pos: Position) -> Option<nat>
    decreases f.children.len() - i,
{
    if i >= f.children.len() {
        None
    } else if f.children[i as int].range.holds(pos) {
        Some(i)
    } else {
        child_holding(f, i + 1, pos)
    }
}

pub proof fn lemma_child_holding(f: FormView, i: nat, pos: Position)
    ensures
        child_holding(f, i, pos) matches Some(j) ==> i <= j < f.children.len(),
    decreases f.children.len() - i,
{
    if i < f.children.len() {
        lemma_child_holding(f, i + 1, pos);
    }
}

fn find_child_holding(f: &Form, start: usize, pos: Position) -> (r: Option<usize>)
    ensures
        match r {
            Some(i) => child_holding(f@, start as nat, pos) == Some(i as nat) && i
                < f.children@.len(),
            None => child_holding(f@, start as nat, pos) is None,
        },
{
    let mut i: usize = start;
    while i < f.children.len()
        invariant
            child_holding(f@, start as nat, pos) == child_holding(f@, i as nat, pos),
        decreases f.children@.len() - i,
    {
        if f.children[i].range.contains(pos) {
            return Some(i);
        }
        i += 1;
    }
    None
}

/// The locals visible at `pos` after those in `out`, going into the child of `f`
/// from `start` on that holds `pos`.
pub open spec fn descended(
    f: FormView,
    start: nat,
    pos: Position,
    out: Seq<BindingView>,
) -> Seq<BindingView>
    decreases f, 10nat, 0nat,
    via descended_decreases
{
    match child_holding(f, start, pos) {
        Some(i) => scoped(f.children[i as int], pos, out),
        None => out,
    }
}

#[via_fn]
proof fn descended_decreases(f: FormView, start: nat, pos: Position, out: Seq<BindingView>) {
    lemma_child_holding(f, start, pos);
    match child_holding(f, start, pos) {
        Some(i) => {
            assert(decreases_to!(f => f.children[i as int]));
        },
        None => {},
    }
}

/// Whether the head of a list names a core form: unqualified, or qualified to
/// `clojure.core` itself.
pub open spec fn plain_core_head(head: FormView) -> bool {
    head.kind == Kind::SymLit && (head.namespace matches Some(p) ==> p.text == "clojure.core"@)
}

/// The locals visible at `pos`, which `f` holds, after those in `out`.
pub open spec fn scoped(f: FormView, pos: Position, out: Seq<BindingView>) -> Seq<BindingView>
    decreases f, 20nat, 0nat,
{
    if f.kind == Kind::ListLit && f.children.len() > 0 && plain_core_head(f.children[0]) {
        let name = sym_name(f.children[0]);
        if def_symbol_kind(name) is Some {
            def_scoped(def_symbol_kind(name)->0, f, pos, out)
        } else if let_like(name) {
            let_scoped(f, pos, out)
        } else if name == "fn"@ {
            fn_scoped(f, pos, out)
        } else if name == "letfn"@ {
            letfn_scoped(f, pos, out)
        } else if name == "catch"@ || name == "as->"@ {
            binding_tail_scoped(f, pos, out)
        } else {
            descended(f, 0, pos, out)
        }
    } else {
        descended(f, 0, pos, out)
    }
}

/// `(let [pattern expr …] body…)`.
pub open spec fn let_scoped(f: FormView, pos: Position, out: Seq<BindingView>) -> Seq<BindingView>
    decreases f, 18nat, 0nat,
{
    if f.children.len() > 1 && f.children[1].kind == Kind::VecLit {
        let (o, inside) = pairs_scoped(f.children[1], 0, pos, out);
        if inside {
            o
        } else {
            descended(f, 2, pos, o)
        }
    } else {
        descended(f, 2, pos, out)
    }
}

/// The bindings of a `[pattern expr …]` vector from child `i` on, and whether
/// `pos` lies in the vector. The names of a pair are visible to what follows it,
/// and not to its own expression.
pub open spec fn pairs_scoped(
    f: FormView,
    i: nat,
    pos: Position,
    out: Seq<BindingView>,
) -> (Seq<BindingView>, bool)
    decreases f, 10nat, (f.children.len() + 2 - i) as nat,
{
    if i >= f.children.len() {
        (out, f.range.holds(pos))
    } else {
        let lhs = f.children[i as int];
        let has_rhs = i + 1 < f.children.len();
        let rhs = f.children[i as int + 1];
        if lhs.kind == Kind::KwdLit && lhs.text == ":let"@ {
            if has_rhs && rhs.kind == Kind::VecLit {
                let (o, inside) = pairs_scoped(rhs, 0, pos, out);
                if inside {
                    (o, true)
                } else {
                    pairs_scoped(f, i + 2, pos, o)
                }
            } else {
                pairs_scoped(f, i + 2, pos, out)
            }
        } else if has_rhs && rhs.range.holds(pos) {
            (scoped(rhs, pos, out), true)
        } else if lhs.kind == Kind::KwdLit {
            pairs_scoped(f, i + 2, pos, out)
        } else {
            let o = targets(lhs, out);
            if lhs.range.holds(pos) {
                (o, true)
            } else {
                pairs_scoped(f, i + 2, pos, o)
            }
        }
    }
}

/// `(catch Class name body…)` and `(as-> expr name body…)`: the name is visible
/// on itself and in the body.
pub open spec fn binding_tail_scoped(f: FormView, pos: Position, out: Seq<BindingView>) -> Seq<
    BindingView,
>
    decreases f, 18nat, 0nat,
    via binding_tail_scoped_decreases
{
    if f.children.len() > 1 && f.children[1].range.holds(pos) {
        scoped(f.children[1], pos, out)
    } else {
        let named = f.children.len() > 2 && f.children[2].kind == Kind::SymLit;
        let o = if named {
            targets(f.children[2], out)
        } else {
            out
        };
        if named && f.children[2].range.holds(pos) {
            o
        } else {
            match child_holding(f, 3, pos) {
                Some(i) => scoped(f.children[i as int], pos, o),
                None => out,
            }
        }
    }
}

#[via_fn]
proof fn binding_tail_scoped_decreases(f: FormView, pos: Position, out: Seq<BindingView>) {
    lemma_child_holding(f, 3, pos);
    match child_holding(f, 3, pos) {
        Some(i) => {
            assert(decreases_to!(f => f.children[i as int]));
        },
        None => {},
    }
    if f.children.len() > 1 {
        assert(decreases_to!(f => f.children[1]));
    }
}

/// `(fn name? [params] body…)`.
pub open spec fn fn_scoped(f: FormView, pos: Position, out: Seq<BindingView>) -> Seq<BindingView>
    decreases f, 18nat, 0nat,
{
    if f.children.len() > 1 && f.children[1].kind == Kind::SymLit {
        fn_tail_scoped(f, 2, false, pos, targets(f.children[1], out))
    } else {
        fn_tail_scoped(f, 1, false, pos, out)
    }
}

/// The parameters and bodies of a function from child `i` on; `met` once its
/// parameter vector was met. Each arity is a scope of its own.
pub open spec fn fn_tail_scoped(
    f: FormView,
    i: nat,
    met: bool,
    pos: Position,
    out: Seq<BindingView>,
) -> Seq<BindingView>
    decreases f, 11nat, (f.children.len() + 1 - i) as nat,
{
    if i >= f.children.len() {
        out
    } else {
        let c = f.children[i as int];
        let here = c.range.holds(pos);
        if c.kind == Kind::VecLit && !met {
            if here && in_default(c, pos) {
                out
            } else if here {
                targets(c, out)
            } else {
                fn_tail_scoped(f, i + 1, true, pos, targets(c, out))
            }
        } else if is_arity(c) {
            if here {
                arity_scoped(c, pos, out)
            } else {
                fn_tail_scoped(f, i + 1, met, pos, out)
            }
        } else if here {
            scoped(c, pos, out)
        } else {
            fn_tail_scoped(f, i + 1, met, pos, out)
        }
    }
}

/// One arity `([params] body…)` that holds `pos`.
pub open spec fn arity_scoped(f: FormView, pos: Position, out: Seq<BindingView>) -> Seq<BindingView>
    decreases f, 17nat, 0nat,
{
    let params = f.children[0];
    let o = if params.range.holds(pos) && in_default(params, pos) {
        out
    } else {
        targets(params, out)
    };
    descended(f, 1, pos, o)
}

/// A definition: a function binds its parameters, a record or type its fields,
/// and any other form nothing.
pub open spec fn def_scoped(
    kind: DefKind,
    f: FormView,
    pos: Position,
    out: Seq<BindingView>,
) -> Seq<BindingView>
    decreases f, 18nat, 0nat,
{
    let len = f.children.len();
    if kind == DefKind::Defn || kind == DefKind::DefnPrivate || kind == DefKind::Defmacro {
        fn_tail_scoped(f, params_start(f), false, pos, out)
    } else if kind == DefKind::Defmethod {
        if len > 2 && f.children[2].range.holds(pos) {
            scoped(f.children[2], pos, out)
        } else {
            fn_tail_scoped(f, 3, false, pos, out)
        }
    } else if kind == DefKind::Defrecord || kind == DefKind::Deftype {
        if len > 2 && f.children[2].kind == Kind::VecLit {
            descended(f, 3, pos, targets(f.children[2], out))
        } else {
            descended(f, 3, pos, out)
        }
    } else {
        descended(f, 2, pos, out)
    }
}

/// Where the parameters of a `defn` start: behind the name, a docstring and an
/// attribute map.
pub open spec fn params_start(f: FormView) -> nat {
    let a = if f.children.len() > 2 && f.children[2].kind == Kind::StrLit {
        3nat
    } else {
        2nat
    };
    if a < f.children.len() && f.children[a as int].kind == Kind::MapLit {
        a + 1
    } else {
        a
    }
}

/// The names of the first `n` functions of a `letfn`.
pub open spec fn letfn_targets(specs: FormView, n: nat, out: Seq<BindingView>) -> Seq<BindingView>
    decreases n,
{
    if n == 0 || n > specs.children.len() {
        out
    } else {
        let before = letfn_targets(specs, (n - 1) as nat, out);
        let c = specs.children[n - 1];
        if c.kind == Kind::ListLit && c.children.len() > 0 && c.children[0].kind == Kind::SymLit {
            targets(c.children[0], before)
        } else {
            before
        }
    }
}

/// The first function of a `letfn` from `i` on that holds `pos`.
pub open spec fn letfn_holding(specs: FormView, i: nat, pos: Position) -> Option<nat>
    decreases specs.children.len() - i,
{
    if i >= specs.children.len() {
        None
    } else if specs.children[i as int].kind == Kind::ListLit && specs.children[i as int].range.holds(
        pos,
    ) {
        Some(i)
    } else {
        letfn_holding(specs, i + 1, pos)
    }
}

pub proof fn lemma_letfn_holding(specs: FormView, i: nat, pos: Position)
    ensures
        letfn_holding(specs, i, pos) matches Some(j) ==> i <= j < specs.children.len(),
    decreases specs.children.len() - i,
{
    if i < specs.children.len() {
        lemma_letfn_holding(specs, i + 1, pos);
    }
}

/// `(letfn [(name [params] body…) …] body…)`.
pub open spec fn letfn_scoped(f: FormView, pos: Position, out: Seq<BindingView>) -> Seq<BindingView>
    decreases f, 18nat, 0nat,
    via letfn_scoped_decreases
{
    if f.children.len() > 1 && f.children[1].kind == Kind::VecLit {
        let specs = f.children[1];
        let o = letfn_targets(specs, specs.children.len(), out);
        match letfn_holding(specs, 0, pos) {
            Some(i) => fn_tail_scoped(specs.children[i as int], 1, false, pos, o),
            None => descended(f, 2, pos, o),
        }
    } else {
        descended(f, 2, pos, out)
    }
}

#[via_fn]
proof fn letfn_scoped_decreases(f: FormView, pos: Position, out: Seq<BindingView>) {
    if f.children.len() > 1 {
        let specs = f.children[1];
        assert(decreases_to!(f => f.children[1]));
        lemma_letfn_holding(specs, 0, pos);
        match letfn_holding(specs, 0, pos) {
            Some(i) => {
                assert(decreases_to!(specs => specs.children[i as int]));
            },
            None => {},
        }
    }
}

fn descend_into(f: &Form, start: usize, pos: Position, out: &mut Vec<LocalBinding>)
    ensures
        final(out).deep_view() == descended(f@, start as nat, pos, old(out).deep_view()),
    decreases f@, 10nat,
{
    match find_child_holding(f, start, pos) {
        Some(i) => {
            assert(decreases_to!(f@ => f@.children[i as int]));
            walk_scope(&f.children[i], pos, out);
        },
        None => {},
    }
}

fn head_is_plain_core(head: &Form) -> (r: bool)
    ensures
        r == plain_core_head(head@),
{
    head.kind == Kind::SymLit && match &head.namespace {
        None => true,
        Some(p) => str_eq(p.text.as_str(), "clojure.core"),
    }
}

fn walk_scope(f: &Form, pos: Position, out: &mut Vec<LocalBinding>)
    ensures
        final(out).deep_view() == scoped(f@, pos, old(out).deep_view()),
    decreases f@, 20nat,
{
    if f.kind == Kind::ListLit && f.children.len() > 0 && head_is_plain_core(&f.children[0]) {
        let name = sym_text(&f.children[0]);
        if let Some(kind) = DefKind::from_def_symbol(name) {
            walk_scope_def(kind, f, pos, out);
        } else if is_let_like(name) {
            walk_scope_let(f, pos, out);
        } else if str_eq(name, "fn") {
            walk_scope_fn(f, pos, out);
        } else if str_eq(name, "letfn") {
            walk_scope_letfn(f, pos, out);
        } else if str_eq(name, "catch") || str_eq(name, "as->") {
            walk_scope_binding_tail(f, pos, out);
        } else {
            descend_into(f, 0, pos, out);
        }
    } else {
        descend_into(f, 0, pos, out);
    }
}

fn walk_scope_let(f: &Form, pos: Position, out: &mut Vec<LocalBinding>)
    ensures
        final(out).deep_view() == let_scoped(f@, pos, old(out).deep_view()),
    decreases f@, 18nat,
{
    if f.children.len() > 1 && f.children[1].kind == Kind::VecLit {
        assert(decreases_to!(f@ => f@.children[1]));
        if walk_scope_binding_vec(&f.children[1], pos, out) {
            return;
        }
    }
    descend_into(f, 2, pos, out);
}

fn walk_scope_binding_vec(f: &Form, pos: Position, out: &mut Vec<LocalBinding>) -> (r: bool)
    ensures
        (final(out).deep_view(), r) == pairs_scoped(f@, 0, pos, old(out).deep_view()),
    decreases f@, 10nat,
{
    let ghost all = pairs_scoped(f@, 0, pos, out.deep_view());
    let len: usize = f.children.len();
    let mut i: usize = 0;
    while i < len
        invariant
            len == f.children@.len(),
            i <= len,
            all == pairs_scoped(f@, 0, pos, old(out).deep_view()),
            all == pairs_scoped(f@, i as nat, pos, out.deep_view()),
        decreases len - i,
    {
        let lhs = &f.children[i];
        let has_rhs = i + 1 < len;
        assert(decreases_to!(f@ => f@.children[i as int]));
        if has_rhs {
            assert(decreases_to!(f@ => f@.children[i as int + 1]));
        }
        if lhs.kind == Kind::KwdLit && str_eq(lhs.text.as_str(), ":let") {
            if has_rhs && f.children[i + 1].kind == Kind::VecLit {
                if walk_scope_binding_vec(&f.children[i + 1], pos, out) {
                    return true;
                }
            }
        } else if has_rhs && f.children[i + 1].range.contains(pos) {
            walk_scope(&f.children[i + 1], pos, out);
            return true;
        } else if lhs.kind != Kind::KwdLit {
            collect_binding_targets(lhs, out);
            if lhs.range.contains(pos) {
                return true;
            }
        }
        if has_rhs {
            i += 2;
        } else {
            assert(pairs_scoped(f@, (i + 2) as nat, pos, out.deep_view()) == pairs_scoped(
                f@,
                (i + 1) as nat,
                pos,
                out.deep_view(),
            ));
            i += 1;
        }
    }
    f.range.contains(pos)
}

fn walk_scope_binding_tail(f: &Form, pos: Position, out: &mut Vec<LocalBinding>)
    ensures
        final(out).deep_view() == binding_tail_scoped(f@, pos, old(out).deep_view()),
    decreases f@, 18nat,
{
    let len: usize = f.children.len();
    if len > 1 && f.children[1].range.contains(pos) {
        assert(decreases_to!(f@ => f@.children[1]));
        walk_scope(&f.children[1], pos, out);
        return;
    }
    let named = len > 2 && f.children[2].kind == Kind::SymLit;
    if named && f.children[2].range.contains(pos) {
        collect_binding_targets(&f.children[2], out);
        return;
    }
    match find_child_holding(f, 3, pos) {
        Some(i) => {
            if named {
                collect_binding_targets(&f.children[2], out);
            }
            assert(decreases_to!(f@ => f@.children[i as int]));
            walk_scope(&f.children[i], pos, out);
        },
        None => {},
    }
}

fn walk_scope_fn(f: &Form, pos: Position, out: &mut Vec<LocalBinding>)
    ensures
        final(out).deep_view() == fn_scoped(f@, pos, old(out).deep_view()),
    decreases f@, 18nat,
{
    if f.children.len() > 1 && f.children[1].kind == Kind::SymLit {
        collect_binding_targets(&f.children[1], out);
        walk_scope_fn_tail(f, 2, pos, out);
    } else {
        walk_scope_fn_tail(f, 1, pos, out);
    }
}

fn walk_scope_fn_tail(f: &Form, start: usize, pos: Position, out: &mut Vec<LocalBinding>)
    ensures
        final(out).deep_view() == fn_tail_scoped(
            f@,
            start as nat,
            false,
            pos,
            old(out).deep_view(),
        ),
    decreases f@, 11nat,
{
    let ghost all = fn_tail_scoped(f@, start as nat, false, pos, out.deep_view());
    let mut met = false;
    let mut i: usize = start;
    while i < f.children.len()
        invariant
            all == fn_tail_scoped(f@, start as nat, false, pos, old(out).deep_view()),
            all == fn_tail_scoped(f@, i as nat, met, pos, out.deep_view()),
        decreases f.children@.len() - i,
    {
        let c = &f.children[i];
        let here = c.range.contains(pos);
        assert(decreases_to!(f@ => f@.children[i as int]));
        if c.kind == Kind::VecLit && !met {
            if here && pos_in_or_default(c, pos) {
                return;
            }
            collect_binding_targets(c, out);
            if here {
                return;
            }
            met = true;
        } else if arity_body(c) {
            if here {
                walk_scope_arity(c, pos, out);
                return;
            }
        } else if here {
            walk_scope(c, pos, out);
            return;
        }
        i += 1;
    }
}

fn walk_scope_arity(f: &Form, pos: Position, out: &mut Vec<LocalBinding>)
    requires
        is_arity(f@),
    ensures
        final(out).deep_view() == arity_scoped(f@, pos, old(out).deep_view()),
    decreases f@, 17nat,
{
    let params = &f.children[0];
    if !(params.range.contains(pos) && pos_in_or_default(params, pos)) {
        collect_binding_targets(params, out);
    }
    descend_into(f, 1, pos, out);
}

fn walk_scope_def(kind: DefKind, f: &Form, pos: Position, out: &mut Vec<LocalBinding>)
    ensures
        final(out).deep_view() == def_scoped(kind, f@, pos, old(out).deep_view()),
    decreases f@, 18nat,
{
    let len: usize = f.children.len();
    if kind == DefKind::Defn || kind == DefKind::DefnPrivate || kind == DefKind::Defmacro {
        let mut rest: usize = 2;
        if rest < len && f.children[rest].kind == Kind::StrLit {
            rest += 1;
        }
        if rest < len && f.children[rest].kind == Kind::MapLit {
            rest += 1;
        }
        walk_scope_fn_tail(f, rest, pos, out);
    } else if kind == DefKind::Defmethod {
        if len > 2 && f.children[2].range.contains(pos) {
            assert(decreases_to!(f@ => f@.children[2]));
            walk_scope(&f.children[2], pos, out);
        } else {
            walk_scope_fn_tail(f, 3, pos, out);
        }
    } else if kind == DefKind::Defrecord || kind == DefKind::Deftype {
        if len > 2 && f.children[2].kind == Kind::VecLit {
            collect_binding_targets(&f.children[2], out);
        }
        descend_into(f, 3, pos, out);
    } else {
        descend_into(f, 2, pos, out);
    }
}

fn walk_scope_letfn(f: &Form, pos: Position, out: &mut Vec<LocalBinding>)
    ensures
        final(out).deep_view() == letfn_scoped(f@, pos, old(out).deep_view()),
    decreases f@, 18nat,
{
    if f.children.len() > 1 && f.children[1].kind == Kind::VecLit {
        let specs = &f.children[1];
        assert(decreases_to!(f@ => f@.children[1]));
        let ghost before = out.deep_view();
        let mut i: usize = 0;
        while i < specs.children.len()
            invariant
                i <= specs.children@.len(),
                out.deep_view() == letfn_targets(specs@, i as nat, before),
            decreases specs.children@.len() - i,
        {
            let c = &specs.children[i];
            if c.kind == Kind::ListLit && c.children.len() > 0 && c.children[0].kind
                == Kind::SymLit {
                collect_binding_targets(&c.children[0], out);
            }
            i += 1;
        }
        let ghost bound = out.deep_view();
        i = 0;
        while i < specs.children.len()
            invariant
                i <= specs.children@.len(),
                f@.children.len() > 1,
                f@.children[1].kind == Kind::VecLit,
                specs@ == f@.children[1],
                decreases_to!(f@ => specs@),
                before == old(out).deep_view(),
                out.deep_view() == bound,
                bound == letfn_targets(specs@, specs@.children.len(), before),
                letfn_holding(specs@, 0, pos) == letfn_holding(specs@, i as nat, pos),
            decreases specs.children@.len() - i,
        {
            let c = &specs.children[i];
            if c.kind == Kind::ListLit && c.range.contains(pos) {
                assert(decreases_to!(specs@ => specs@.children[i as int]));
                walk_scope_fn_tail(c, 1, pos, out);
                return;
            }
            i += 1;
        }
    }
    descend_into(f, 2, pos, out);
}

/// The locals visible at `pos` in a file, outermost first, so that the last of a
/// name shadows the others.
pub open spec fn visible(root: FormView, pos: Position) -> Seq<BindingView> {
    descended(root, 0, pos, Seq::empty())
}

/// The locals visible at `pos` in a file, outermost first. A place on a binding
/// name sees that binding.
pub fn locals_in_tree(root: &Form, pos: Position) -> (r: Vec<LocalBinding>)
    ensures
        r.deep_view() == visible(root@, pos),
{
    let mut out: Vec<LocalBinding> = Vec::new();
    assert(out.deep_view() =~= Seq::empty());
    descend_into(root, 0, pos, &mut out);
    out
}

/// The locals visible at `pos` in `source`, outermost first, so that the last of
/// a name shadows the others.
pub fn locals_in_scope_at(source: &str, pos: Position) -> (r: Vec<LocalBinding>)
    ensures
        r.deep_view() == match syntax_of(source@) {
            Some(root) => visible(root, pos),
            None => Seq::empty(),
        },
{
    match parse_source(source) {
        Some(root) => locals_in_tree(&root, pos),
        None => {
            let out: Vec<LocalBinding> = Vec::new();
            assert(out.deep_view() =~= Seq::empty());
            out
        },
    }
}

// --- where a local is used --------------------------------------------------

/// Where a local is bound, and where it is used, in one file.
#[derive(Clone, Debug, PartialEq, Eq)]
pub struct LocalRefs {
    pub declaration: Range,
    pub usages: Vec<Range>,
    /// Whether it is bound in a `:keys`, `:strs` or `:syms` vector, where the
    /// name is the key looked up too. A rename would read another key.
    pub destructured_key: bool,
}

/// What a [`LocalRefs`] says.
pub ghost struct LocalRefsView {
    pub declaration: Range,
    pub usages: Seq<Range>,
    pub destructured_key: bool,
}

impl DeepView for LocalRefs {
    type V = LocalRefsView;

    open spec fn deep_view(&self) -> LocalRefsView {
        LocalRefsView {
            declaration: self.declaration,
            usages: self.usages@,
            destructured_key: self.destructured_key,
        }
    }
}

/// Where the unqualified symbols named `name` stand, in reading order. Quoted
/// data names nothing.
pub open spec fn name_sites(f: FormView, name: Seq<char>) -> Seq<Range>
    decreases f, f.children.len() + 1,
{
    if f.kind == Kind::QuotingLit {
        Seq::empty()
    } else if f.kind == Kind::SymLit {
        if f.namespace is None && sym_name(f) == name {
            seq![sym_range(f)]
        } else {
            Seq::empty()
        }
    } else {
        child_name_sites(f, f.children.len(), name)
    }
}

/// Where they stand in the first `n` children.
pub open spec fn child_name_sites(f: FormView, n: nat, name: Seq<char>) -> Seq<Range>
    decreases f, n,
{
    if n == 0 || n > f.children.len() {
        Seq::empty()
    } else {
        child_name_sites(f, (n - 1) as nat, name) + name_sites(f.children[n - 1], name)
    }
}

fn collect_name_occurrences(f: &Form, name: &str, out: &mut Vec<Range>)
    ensures
        final(out)@ == old(out)@ + name_sites(f@, name@),
    decreases f@,
{
    let ghost before = out@;
    if f.kind == Kind::QuotingLit {
        assert(before =~= before + name_sites(f@, name@));
        return;
    }
    if f.kind == Kind::SymLit {
        if f.namespace.is_none() && str_eq(sym_text(f), name) {
            out.push(sym_name_range(f));
        }
        assert(out@ =~= before + name_sites(f@, name@));
        return;
    }
    let mut i: usize = 0;
    assert(before =~= before + child_name_sites(f@, 0, name@));
    while i < f.children.len()
        invariant
            i <= f.children@.len(),
            out@ == before + child_name_sites(f@, i as nat, name@),
        decreases f.children@.len() - i,
    {
        assert(decreases_to!(f@ => f@.children[i as int]));
        collect_name_occurrences(&f.children[i], name, out);
        assert(out@ =~= before + child_name_sites(f@, (i + 1) as nat, name@));
        i += 1;
    }
}

/// Where the last of the first `n` bindings that bind `name` stands.
pub open spec fn bound_at(locals: Seq<BindingView>, n: nat, name: Seq<char>) -> Option<Range>
    decreases n,
{
    if n == 0 || n > locals.len() {
        None
    } else if locals[n - 1].name == name {
        Some(locals[n - 1].name_range)
    } else {
        bound_at(locals, (n - 1) as nat, name)
    }
}

/// Where the local `name` that is visible at `pos` is bound.
pub open spec fn declared_at(root: FormView, pos: Position, name: Seq<char>) -> Option<Range> {
    bound_at(visible(root, pos), visible(root, pos).len(), name)
}

/// Where the local `name` that is visible at `pos` is bound.
pub fn find_declaration(root: &Form, pos: Position, name: &str) -> (r: Option<Range>)
    ensures
        r == declared_at(root@, pos, name@),
{
    let locals = locals_in_tree(root, pos);
    let ghost views = locals.deep_view();
    let mut n: usize = locals.len();
    while n > 0
        invariant
            n <= locals@.len(),
            views == locals.deep_view(),
            views == visible(root@, pos),
            bound_at(views, views.len(), name@) == bound_at(views, n as nat, name@),
        decreases n,
    {
        assert(views[n - 1] == locals@[n - 1].deep_view());
        if str_eq(locals[n - 1].name.as_str(), name) {
            return Some(locals[n - 1].name_range);
        }
        n -= 1;
    }
    None
}

/// Whether a keyword directs the destructuring of names that are keys. It may be
/// qualified (`:user/keys`, `::keys`).
pub open spec fn keys_directive(f: FormView) -> bool {
    f.kind == Kind::KwdLit && (f.name matches Some(p) && (p.text == "keys"@ || p.text == "strs"@
        || p.text == "syms"@))
}

fn is_keys_directive(f: &Form) -> (r: bool)
    ensures
        r == keys_directive(f@),
{
    f.kind == Kind::KwdLit && match &f.name {
        Some(p) => str_eq(p.text.as_str(), "keys") || str_eq(p.text.as_str(), "strs") || str_eq(
            p.text.as_str(),
            "syms",
        ),
        None => false,
    }
}

/// Whether child `i` of `f` is what a keys directive applies to.
pub open spec fn directed(f: FormView, i: int) -> bool {
    f.kind == Kind::MapLit && i > 0 && f.children[i].kind == Kind::VecLit && keys_directive(
        f.children[i - 1],
    )
}

/// Of the first symbol in `f` whose name stands at `at`: whether it stands in a
/// vector that a keys directive applies to. `keys` says so of `f` itself, and
/// `in_keys` of what `f` stands in. `None` where there is no such symbol.
pub open spec fn key_at(f: FormView, keys: bool, in_keys: bool, at: Range) -> Option<bool>
    decreases f, f.children.len() + 1,
{
    if f.kind == Kind::QuotingLit {
        None
    } else if f.kind == Kind::SymLit && sym_range(f) == at {
        Some(in_keys)
    } else {
        child_key_at(f, 0, keys, at)
    }
}

/// The same, of the children of `f` from `i` on.
pub open spec fn child_key_at(f: FormView, i: nat, keys: bool, at: Range) -> Option<bool>
    decreases f, f.children.len() - i,
{
    if i >= f.children.len() {
        None
    } else {
        match key_at(f.children[i as int], directed(f, i as int), keys, at) {
            Some(b) => Some(b),
            None => child_key_at(f, i + 1, keys, at),
        }
    }
}

fn find_key_at(f: &Form, keys: bool, in_keys: bool, at: Range) -> (r: Option<bool>)
    ensures
        r == key_at(f@, keys, in_keys, at),
    decreases f@,
{
    if f.kind == Kind::QuotingLit {
        return None;
    }
    if f.kind == Kind::SymLit && sym_name_range(f) == at {
        return Some(in_keys);
    }
    let mut i: usize = 0;
    while i < f.children.len()
        invariant
            i <= f.children@.len(),
            key_at(f@, keys, in_keys, at) == child_key_at(f@, i as nat, keys, at),
        decreases f.children@.len() - i,
    {
        assert(decreases_to!(f@ => f@.children[i as int]));
        let d = f.kind == Kind::MapLit && i > 0 && f.children[i].kind == Kind::VecLit
            && is_keys_directive(&f.children[i - 1]);
        if let Some(b) = find_key_at(&f.children[i], d, keys, at) {
            return Some(b);
        }
        i += 1;
    }
    None
}

/// Whether the name bound at `declaration` is a key too.
pub open spec fn destructured(root: FormView, declaration: Range) -> bool {
    key_at(root, false, false, declaration) == Some(true)
}

/// Of the first `n` sites, those other than `declaration` at which `name` means
/// the local bound there.
pub open spec fn usages_of(
    root: FormView,
    sites: Seq<Range>,
    n: nat,
    declaration: Range,
    name: Seq<char>,
) -> Seq<Range>
    decreases n,
{
    if n == 0 || n > sites.len() {
        Seq::empty()
    } else {
        let before = usages_of(root, sites, (n - 1) as nat, declaration, name);
        let site = sites[n - 1];
        if site != declaration && declared_at(root, site.start, name) == Some(declaration) {
            before.push(site)
        } else {
            before
        }
    }
}

/// Whether one of the ranges holds `pos`.
pub open spec fn some_holds(sites: Seq<Range>, pos: Position) -> bool {
    exists|i: int| 0 <= i < sites.len() && (#[trigger] sites[i]).holds(pos)
}

/// The local named `name` at `pos`: where it is bound and where it is used. A
/// site counts where the innermost binding visible there is the same one, so a
/// nested rebinding is left out. `None` where `pos` is on no such local.
pub open spec fn local_refs(root: FormView, pos: Position, name: Seq<char>) -> Option<LocalRefsView> {
    let sites = name_sites(root, name);
    if !some_holds(sites, pos) {
        None
    } else {
        match declared_at(root, pos, name) {
            Some(declaration) => Some(
                LocalRefsView {
                    declaration,
                    usages: usages_of(root, sites, sites.len(), declaration, name),
                    destructured_key: destructured(root, declaration),
                },
            ),
            None => None,
        }
    }
}

/// The local named `name` at `pos` in a syntax tree.
pub fn local_references_in(root: &Form, pos: Position, name: &str) -> (r: Option<LocalRefs>)
    ensures
        r.deep_view() == local_refs(root@, pos, name@),
{
    let mut sites: Vec<Range> = Vec::new();
    collect_name_occurrences(root, name, &mut sites);
    assert(sites@ =~= name_sites(root@, name@));
    let mut on_site = false;
    let mut i: usize = 0;
    while i < sites.len()
        invariant
            i <= sites@.len(),
            on_site == exists|j: int| 0 <= j < i && (#[trigger] sites@[j]).holds(pos),
        decreases sites@.len() - i,
    {
        if sites[i].contains(pos) {
            on_site = true;
        }
        i += 1;
    }
    if !on_site {
        return None;
    }
    let declaration = match find_declaration(root, pos, name) {
        Some(d) => d,
        None => {
            return None;
        },
    };
    let mut usages: Vec<Range> = Vec::new();
    assert(usages@ =~= usages_of(root@, sites@, 0, declaration, name@));
    i = 0;
    while i < sites.len()
        invariant
            i <= sites@.len(),
            usages@ == usages_of(root@, sites@, i as nat, declaration, name@),
        decreases sites@.len() - i,
    {
        let site = sites[i];
        if site != declaration {
            if let Some(d) = find_declaration(root, site.start, name) {
                if d == declaration {
                    usages.push(site);
                }
            }
        }
        i += 1;
    }
    let destructured_key = match find_key_at(root, false, false, declaration) {
        Some(b) => b,
        None => false,
    };
    Some(LocalRefs { declaration, usages, destructured_key })
}

/// The local named `name` at `pos` in `source`. `None` where `pos` is on no such
/// local.
pub fn local_references_at(source: &str, pos: Position, name: &str) -> (r: Option<LocalRefs>)
    ensures
        r.deep_view() == match syntax_of(source@) {
            Some(root) => local_refs(root, pos, name@),
            None => None,
        },
{
    match parse_source(source) {
        Some(root) => local_references_in(&root, pos, name),
        None => None,
    }
}

/// Whether the binding at `k` is the innermost of that name: the last one, as the list goes
/// from the outermost to the innermost.
pub open spec fn binds_innermost(all: Seq<BindingView>, k: int, name: Seq<char>) -> bool {
    &&& 0 <= k < all.len()
    &&& all[k].name == name
    &&& forall|j: int| k < j < all.len() ==> (#[trigger] all[j]).name != name
}

proof fn lemma_bound_at(locals: Seq<BindingView>, n: nat, name: Seq<char>)
    requires
        n <= locals.len(),
    ensures
        match bound_at(locals, n, name) {
            Some(range) => exists|k: int|
                0 <= k < n && (#[trigger] locals[k]).name == name && locals[k].name_range == range
                    && forall|j: int| k < j < n ==> (#[trigger] locals[j]).name != name,
            None => forall|j: int| 0 <= j < n ==> (#[trigger] locals[j]).name != name,
        },
    decreases n,
{
    if n > 0 && locals[n - 1].name != name {
        lemma_bound_at(locals, (n - 1) as nat, name);
        match bound_at(locals, (n - 1) as nat, name) {
            Some(range) => {
                let k = choose|k: int|
                    0 <= k < n - 1 && (#[trigger] locals[k]).name == name && locals[k].name_range
                        == range && forall|j: int|
                        k < j < n - 1 ==> (#[trigger] locals[j]).name != name;
                assert(locals[k].name_range == range);
            },
            None => {},
        }
    } else if n > 0 {
        assert(locals[n - 1].name == name);
    }
}

/// What declares a name at a position is the innermost visible binding of that name, and
/// there is a declaration wherever there is such a binding.
pub proof fn law_declaration_is_the_innermost_binding(root: FormView, pos: Position, name: Seq<char>)
    ensures
        forall|k: int|
            #[trigger] binds_innermost(visible(root, pos), k, name) ==> declared_at(root, pos, name)
                == Some(visible(root, pos)[k].name_range),
        declared_at(root, pos, name) matches Some(range) ==> exists|k: int|
            #[trigger] binds_innermost(visible(root, pos), k, name) && visible(root, pos)[k].name_range
                == range,
        (exists|k: int|
            0 <= k < visible(root, pos).len() && (#[trigger] visible(root, pos)[k]).name == name)
            ==> declared_at(root, pos, name) is Some,
{
    let all = visible(root, pos);
    lemma_bound_at(all, all.len(), name);
    if let Some(range) = declared_at(root, pos, name) {
        let k = choose|k: int|
            0 <= k < all.len() && (#[trigger] all[k]).name == name && all[k].name_range == range
                && forall|j: int| k < j < all.len() ==> (#[trigger] all[j]).name != name;
        assert(binds_innermost(all, k, name));
        assert forall|m: int| #[trigger] binds_innermost(all, m, name) implies m == k by {
            if m < k {
                assert(all[k].name != name);
            }
            if k < m {
                assert(all[m].name != name);
            }
        }
    }
}

proof fn lemma_usages_of(
    root: FormView,
    sites: Seq<Range>,
    n: nat,
    declaration: Range,
    name: Seq<char>,
)
    requires
        n <= sites.len(),
    ensures
        forall|u: Range|
            #[trigger] usages_of(root, sites, n, declaration, name).contains(u) <==> {
                &&& exists|i: int| 0 <= i < n && #[trigger] sites[i] == u
                &&& u != declaration
                &&& declared_at(root, u.start, name) == Some(declaration)
            },
    decreases n,
{
    let after = usages_of(root, sites, n, declaration, name);
    if n > 0 {
        lemma_usages_of(root, sites, (n - 1) as nat, declaration, name);
        let before = usages_of(root, sites, (n - 1) as nat, declaration, name);
        let site = sites[n - 1];
        assert forall|u: Range| #[trigger] after.contains(u) <==> {
            &&& exists|i: int| 0 <= i < n && #[trigger] sites[i] == u
            &&& u != declaration
            &&& declared_at(root, u.start, name) == Some(declaration)
        } by {
            crate::sort::lemma_push_contains(before, site, u);
            if exists|i: int| 0 <= i < n && #[trigger] sites[i] == u {
                let i = choose|i: int| 0 <= i < n && #[trigger] sites[i] == u;
                if i < n - 1 {
                    assert(before.contains(u) <==> u != declaration && declared_at(
                        root,
                        u.start,
                        name,
                    ) == Some(declaration));
                }
            }
            if before.contains(u) {
                let i = choose|i: int| 0 <= i < n - 1 && #[trigger] sites[i] == u;
                assert(sites[i] == u);
            }
            assert(sites[n - 1] == site);
        }
    } else {
        assert(after =~= Seq::empty());
    }
}

/// The references of a local: its declaration is the innermost visible binding of the name at
/// the position, and its usages are exactly the other places of the name at which that
/// same binding is the innermost one.
pub proof fn law_usages_mean_the_same_binding(root: FormView, pos: Position, name: Seq<char>)
    ensures
        local_refs(root, pos, name) is Some <==> {
            &&& exists|i: int|
                0 <= i < name_sites(root, name).len() && (#[trigger] name_sites(
                    root,
                    name,
                )[i]).holds(pos)
            &&& exists|k: int|
                0 <= k < visible(root, pos).len() && (#[trigger] visible(root, pos)[k]).name == name
        },
        local_refs(root, pos, name) matches Some(refs) ==> {
            &&& exists|k: int|
                #[trigger] binds_innermost(visible(root, pos), k, name) && visible(
                    root,
                    pos,
                )[k].name_range == refs.declaration
            &&& forall|u: Range| #[trigger]
                refs.usages.contains(u) <==> {
                    &&& name_sites(root, name).contains(u)
                    &&& u != refs.declaration
                    &&& exists|k: int|
                        #[trigger] binds_innermost(visible(root, u.start), k, name) && visible(
                            root,
                            u.start,
                        )[k].name_range == refs.declaration
                }
        },
{
    let sites = name_sites(root, name);
    law_declaration_is_the_innermost_binding(root, pos, name);
    if let Some(refs) = local_refs(root, pos, name) {
        lemma_usages_of(root, sites, sites.len(), refs.declaration, name);
        let k = choose|k: int|
            #[trigger] binds_innermost(visible(root, pos), k, name) && visible(
                root,
                pos,
            )[k].name_range == refs.declaration;
        assert(visible(root, pos)[k].name == name);
        assert forall|u: Range| #[trigger] refs.usages.contains(u) <==> {
            &&& sites.contains(u)
            &&& u != refs.declaration
            &&& exists|k: int|
                #[trigger] binds_innermost(visible(root, u.start), k, name) && visible(
                    root,
                    u.start,
                )[k].name_range == refs.declaration
        } by {
            law_declaration_is_the_innermost_binding(root, u.start, name);
            if sites.contains(u) {
                assert(sites[sites.index_of(u)] == u);
            }
        }
    }
}

/// Whether a path leads to a form that stands for itself: no form on the way to it is quoted
/// or a symbol.
pub open spec fn unquoted(f: FormView, path: Seq<int>) -> bool {
    forall|m: int|
        0 <= m < path.len() ==> ((#[trigger] form_at(f, path.take(m))) matches Some(g) ==> g.kind
            != Kind::QuotingLit && g.kind != Kind::SymLit)
}

/// Whether a form is the unqualified symbol of that name, and its name has that range.
pub open spec fn is_symbol_at(g: Option<FormView>, name: Seq<char>, range: Range) -> bool {
    g matches Some(f) && f.kind == Kind::SymLit && f.namespace is None && sym_name(f) == name
        && sym_range(f) == range
}

proof fn lemma_unquoted_through(f: FormView, i: int, path: Seq<int>)
    requires
        0 <= i < f.children.len(),
    ensures
        unquoted(f, seq![i] + path) <==> f.kind != Kind::QuotingLit && f.kind != Kind::SymLit
            && unquoted(f.children[i], path),
{
    let whole = seq![i] + path;
    assert(form_at(f, whole.take(0)) == Some(f));
    if f.kind != Kind::QuotingLit && f.kind != Kind::SymLit && unquoted(f.children[i], path) {
        assert forall|m: int| 0 <= m < whole.len() implies ((#[trigger] form_at(f, whole.take(m)))
            matches Some(g) ==> g.kind != Kind::QuotingLit && g.kind != Kind::SymLit) by {
            if m > 0 {
                lemma_path_through(f, i, path.take(m - 1));
                assert(whole.take(m) =~= seq![i] + path.take(m - 1));
            } else {
                assert(whole.take(0) =~= Seq::empty());
            }
        }
    }
    if unquoted(f, whole) {
        assert forall|m: int| 0 <= m < path.len() implies ((#[trigger] form_at(
            f.children[i],
            path.take(m),
        )) matches Some(g) ==> g.kind != Kind::QuotingLit && g.kind != Kind::SymLit) by {
            lemma_path_through(f, i, path.take(m));
            assert(whole.take(m + 1) =~= seq![i] + path.take(m));
            assert(form_at(f, whole.take(m + 1)) == form_at(f.children[i], path.take(m)));
        }
    }
}

proof fn lemma_name_sites_are_symbols(f: FormView, name: Seq<char>, range: Range) -> (path: Seq<int>)
    requires
        name_sites(f, name).contains(range),
    ensures
        unquoted(f, path),
        is_symbol_at(form_at(f, path), name, range),
    decreases f, f.children.len() + 1,
{
    if f.kind == Kind::SymLit {
        Seq::empty()
    } else {
        lemma_child_sites_are_symbols(f, f.children.len(), name, range)
    }
}

proof fn lemma_child_sites_are_symbols(f: FormView, n: nat, name: Seq<char>, range: Range) -> (path:
    Seq<int>)
    requires
        f.kind != Kind::QuotingLit,
        f.kind != Kind::SymLit,
        child_name_sites(f, n, name).contains(range),
    ensures
        unquoted(f, path),
        is_symbol_at(form_at(f, path), name, range),
    decreases f, n,
{
    let before = child_name_sites(f, (n - 1) as nat, name);
    let last = name_sites(f.children[n - 1], name);
    let i = child_name_sites(f, n, name).index_of(range);
    if i < before.len() {
        assert(before[i] == range);
        lemma_child_sites_are_symbols(f, (n - 1) as nat, name, range)
    } else {
        assert(last[i - before.len()] == range);
        let rest = lemma_name_sites_are_symbols(f.children[n - 1], name, range);
        lemma_unquoted_through(f, n - 1, rest);
        lemma_path_through(f, n - 1, rest);
        seq![n - 1] + rest
    }
}

proof fn lemma_child_sites_hold(f: FormView, n: nat, i: int, name: Seq<char>, range: Range)
    requires
        0 <= i < n <= f.children.len(),
        name_sites(f.children[i], name).contains(range),
    ensures
        child_name_sites(f, n, name).contains(range),
    decreases n,
{
    let before = child_name_sites(f, (n - 1) as nat, name);
    let last = name_sites(f.children[n - 1], name);
    let all = child_name_sites(f, n, name);
    if i < n - 1 {
        lemma_child_sites_hold(f, (n - 1) as nat, i, name, range);
        assert(all[before.index_of(range)] == range);
    } else {
        assert(all[before.len() + last.index_of(range)] == range);
    }
}

proof fn lemma_symbols_are_name_sites(f: FormView, path: Seq<int>, name: Seq<char>, range: Range)
    requires
        unquoted(f, path),
        is_symbol_at(form_at(f, path), name, range),
    ensures
        name_sites(f, name).contains(range),
    decreases path.len(),
{
    if path.len() == 0 {
        assert(name_sites(f, name)[0] == range);
    } else {
        let i = path[0];
        let rest = path.drop_first();
        assert(path =~= seq![i] + rest);
        lemma_unquoted_through(f, i, rest);
        lemma_path_through(f, i, rest);
        lemma_symbols_are_name_sites(f.children[i], rest, name, range);
        lemma_child_sites_hold(f, f.children.len(), i, name, range);
    }
}

/// The places of a name are those of its unqualified symbols, wherever they stand in the
/// tree, but for what is quoted.
pub proof fn law_name_sites_are_the_unquoted_symbols(root: FormView, name: Seq<char>, range: Range)
    ensures
        name_sites(root, name).contains(range) <==> exists|path: Seq<int>|
            #[trigger] unquoted(root, path) && is_symbol_at(form_at(root, path), name, range),
{
    if name_sites(root, name).contains(range) {
        let path = lemma_name_sites_are_symbols(root, name, range);
        assert(unquoted(root, path) && is_symbol_at(form_at(root, path), name, range));
    }
    if exists|path: Seq<int>|
        #[trigger] unquoted(root, path) && is_symbol_at(form_at(root, path), name, range) {
        let path = choose|path: Seq<int>|
            #[trigger] unquoted(root, path) && is_symbol_at(form_at(root, path), name, range);
        lemma_symbols_are_name_sites(root, path, name, range);
    }
}

/// Whether the path leads to a symbol at that range, through no quoted form and no other symbol there.
pub open spec fn leads_to_symbol(f: FormView, path: Seq<int>, at: Range) -> bool
    decreases path.len(),
{
    &&& f.kind != Kind::QuotingLit
    &&& if path.len() == 0 {
        f.kind == Kind::SymLit && sym_range(f) == at
    } else {
        &&& !(f.kind == Kind::SymLit && sym_range(f) == at)
        &&& 0 <= path[0] < f.children.len()
        &&& leads_to_symbol(f.children[path[0]], path.drop_first(), at)
    }
}

/// Whether the form that the path leads to stands in a vector right behind `:keys` and the like.
pub open spec fn stands_in_keys(f: FormView, path: Seq<int>, keys: bool, in_keys: bool) -> bool
    decreases path.len(),
{
    if path.len() == 0 {
        in_keys
    } else {
        stands_in_keys(f.children[path[0]], path.drop_first(), directed(f, path[0]), keys)
    }
}

proof fn lemma_key_at(f: FormView, keys: bool, in_keys: bool, at: Range)
    ensures
        match key_at(f, keys, in_keys, at) {
            Some(b) => exists|path: Seq<int>| #[trigger]
                leads_to_symbol(f, path, at) && stands_in_keys(f, path, keys, in_keys) == b,
            None => forall|path: Seq<int>| !(#[trigger] leads_to_symbol(f, path, at)),
        },
    decreases f, f.children.len() + 1,
{
    let none: Seq<int> = Seq::empty();
    if f.kind == Kind::QuotingLit {
    } else if f.kind == Kind::SymLit && sym_range(f) == at {
        assert(leads_to_symbol(f, none, at));
    } else {
        lemma_child_key_at(f, 0, keys, at);
        if key_at(f, keys, in_keys, at) is Some {
            let path = choose|path: Seq<int>|
                path.len() > 0 && #[trigger] leads_to_symbol(f, path, at) && stands_in_keys(
                    f.children[path[0]],
                    path.drop_first(),
                    directed(f, path[0]),
                    keys,
                ) == child_key_at(f, 0, keys, at)->0;
            assert(leads_to_symbol(f, path, at));
        } else {
            assert forall|path: Seq<int>| !(#[trigger] leads_to_symbol(f, path, at)) by {
                if leads_to_symbol(f, path, at) {
                    assert(path.len() > 0);
                }
            }
        }
    }
}

proof fn lemma_child_key_at(f: FormView, i: nat, keys: bool, at: Range)
    requires
        f.kind != Kind::QuotingLit,
        !(f.kind == Kind::SymLit && sym_range(f) == at),
    ensures
        match child_key_at(f, i, keys, at) {
            Some(b) => exists|path: Seq<int>|
                path.len() > 0 && #[trigger] leads_to_symbol(f, path, at) && stands_in_keys(
                    f.children[path[0]],
                    path.drop_first(),
                    directed(f, path[0]),
                    keys,
                ) == b,
            None => forall|path: Seq<int>|
                path.len() > 0 && path[0] >= i ==> !(#[trigger] leads_to_symbol(f, path, at)),
        },
    decreases f, f.children.len() - i,
{
    if i < f.children.len() {
        let c = f.children[i as int];
        lemma_key_at(c, directed(f, i as int), keys, at);
        match key_at(c, directed(f, i as int), keys, at) {
            Some(b) => {
                let rest = choose|path: Seq<int>| #[trigger]
                    leads_to_symbol(c, path, at) && stands_in_keys(
                        c,
                        path,
                        directed(f, i as int),
                        keys,
                    ) == b;
                let path = seq![i as int] + rest;
                assert(path.drop_first() =~= rest);
                assert(leads_to_symbol(f, path, at));
            },
            None => {
                lemma_child_key_at(f, i + 1, keys, at);
                assert forall|path: Seq<int>|
                    path.len() > 0 && path[0] >= i && child_key_at(f, i, keys, at)
                        is None implies !(#[trigger] leads_to_symbol(f, path, at)) by {
                    if path[0] == i {
                        assert(!leads_to_symbol(c, path.drop_first(), at));
                    }
                }
            },
        }
    }
}

/// A local is destructured from a key where its declaration stands in a vector behind `:keys`,
/// `:strs` or `:syms`, and nowhere else.
pub proof fn law_destructured_names_stand_behind_keys(
    root: FormView,
    declaration: Range,
    path: Seq<int>,
)
    requires
        leads_to_symbol(root, path, declaration),
        forall|other: Seq<int>| #[trigger]
            leads_to_symbol(root, other, declaration) ==> other == path,
    ensures
        destructured(root, declaration) <==> stands_in_keys(root, path, false, false),
{
    lemma_key_at(root, false, false, declaration);
}

}
