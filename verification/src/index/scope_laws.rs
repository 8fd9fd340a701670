//! What is local where: the names that the forms around a position bind, and no others.

use vstd::prelude::*;
use crate::index::extractor::{sym_name, sym_range};
use crate::index::locals::{
    arity_scoped, binding_tail_scoped, child_holding, child_targets, def_scoped, descended, fn_scoped,
    fn_tail_scoped, in_default, let_scoped, letfn_holding, letfn_scoped, letfn_targets, map_targets,
    pairs_scoped, params_start, plain_core_head, scoped, targets, visible,
};
use crate::index::model::{def_symbol_kind, DefKind};
use crate::index::occurrences::{is_arity, let_like};
use crate::index::scope::BindingView;
use crate::lsp::Position;
use crate::sort::lemma_push_contains;
use crate::syntax::{FormView, Kind};

verus! {

proof fn lemma_first_holding(f: FormView, i: nat, pos: Position)
    ensures
        match child_holding(f, i, pos) {
            Some(k) => i <= k < f.children.len() && f.children[k as int].range.holds(pos)
                && forall|j: int| i <= j < k ==> !(#[trigger] f.children[j]).range.holds(pos),
            None => forall|j: int|
                i <= j < f.children.len() ==> !(#[trigger] f.children[j]).range.holds(pos),
        },
    decreases f.children.len() - i,
{
    if i < f.children.len() && !f.children[i as int].range.holds(pos) {
        lemma_first_holding(f, i + 1, pos);
    }
}

proof fn lemma_targets_grow(f: FormView, out: Seq<BindingView>)
    ensures
        out.is_prefix_of(targets(f, out)),
    decreases f, 1nat, 0nat,
{
    if f.kind == Kind::MapLit {
        lemma_map_targets_grow(f, f.children.len() / 2, out);
    } else if f.kind != Kind::SymLit {
        lemma_child_targets_grow(f, f.children.len(), out);
    }
}

proof fn lemma_child_targets_grow(f: FormView, n: nat, out: Seq<BindingView>)
    ensures
        out.is_prefix_of(child_targets(f, n, out)),
    decreases f, 0nat, n,
{
    if n > 0 && n <= f.children.len() {
        lemma_child_targets_grow(f, (n - 1) as nat, out);
        lemma_targets_grow(f.children[n - 1], child_targets(f, (n - 1) as nat, out));
    }
}

proof fn lemma_map_targets_grow(f: FormView, n: nat, out: Seq<BindingView>)
    ensures
        out.is_prefix_of(map_targets(f, n, out)),
    decreases f, 0nat, n,
{
    if n > 0 && 2 * n <= f.children.len() {
        lemma_map_targets_grow(f, (n - 1) as nat, out);
        let before = map_targets(f, (n - 1) as nat, out);
        lemma_targets_grow(f.children[2 * n - 1], before);
        lemma_targets_grow(f.children[2 * n - 2], before);
    }
}

proof fn lemma_descended_grows(f: FormView, start: nat, pos: Position, out: Seq<BindingView>)
    ensures
        out.is_prefix_of(descended(f, start, pos, out)),
    decreases f, 10nat, 0nat,
{
    lemma_first_holding(f, start, pos);
    if let Some(i) = child_holding(f, start, pos) {
        assert(decreases_to!(f => f.children[i as int]));
        lemma_scoped_grows(f.children[i as int], pos, out);
    }
}

proof fn lemma_scoped_grows(f: FormView, pos: Position, out: Seq<BindingView>)
    ensures
        out.is_prefix_of(scoped(f, pos, out)),
    decreases f, 20nat, 0nat,
{
    lemma_descended_grows(f, 0, pos, out);
    if f.kind == Kind::ListLit && f.children.len() > 0 && plain_core_head(f.children[0]) {
        let name = sym_name(f.children[0]);
        if def_symbol_kind(name) is Some {
            lemma_def_grows(def_symbol_kind(name)->0, f, pos, out);
        } else if let_like(name) {
            lemma_let_grows(f, pos, out);
        } else if name == "fn"@ {
            lemma_fn_grows(f, pos, out);
        } else if name == "letfn"@ {
            lemma_letfn_grows(f, pos, out);
        } else if name == "catch"@ || name == "as->"@ {
            lemma_tail_grows(f, pos, out);
        }
    }
}

proof fn lemma_let_grows(f: FormView, pos: Position, out: Seq<BindingView>)
    ensures
        out.is_prefix_of(let_scoped(f, pos, out)),
    decreases f, 18nat, 0nat,
{
    lemma_descended_grows(f, 2, pos, out);
    if f.children.len() > 1 && f.children[1].kind == Kind::VecLit {
        assert(decreases_to!(f => f.children[1]));
        lemma_pairs_grow(f.children[1], 0, pos, out);
        lemma_descended_grows(f, 2, pos, pairs_scoped(f.children[1], 0, pos, out).0);
    }
}

proof fn lemma_pairs_grow(f: FormView, i: nat, pos: Position, out: Seq<BindingView>)
    ensures
        out.is_prefix_of(pairs_scoped(f, i, pos, out).0),
    decreases f, 10nat, (f.children.len() + 2 - i) as nat,
{
    if i < f.children.len() {
        let lhs = f.children[i as int];
        let has_rhs = i + 1 < f.children.len();
        let rhs = f.children[i as int + 1];
        lemma_pairs_grow(f, i + 2, pos, out);
        if lhs.kind == Kind::KwdLit && lhs.text == ":let"@ {
            if has_rhs && rhs.kind == Kind::VecLit {
                lemma_pairs_grow(rhs, 0, pos, out);
                lemma_pairs_grow(f, i + 2, pos, pairs_scoped(rhs, 0, pos, out).0);
            }
        } else if has_rhs && rhs.range.holds(pos) {
            lemma_scoped_grows(rhs, pos, out);
        } else if lhs.kind != Kind::KwdLit {
            lemma_targets_grow(lhs, out);
            lemma_pairs_grow(f, i + 2, pos, targets(lhs, out));
        }
    }
}

proof fn lemma_tail_grows(f: FormView, pos: Position, out: Seq<BindingView>)
    ensures
        out.is_prefix_of(binding_tail_scoped(f, pos, out)),
    decreases f, 18nat, 0nat,
{
    if f.children.len() > 1 && f.children[1].range.holds(pos) {
        lemma_scoped_grows(f.children[1], pos, out);
    } else {
        let named = f.children.len() > 2 && f.children[2].kind == Kind::SymLit;
        let o = if named {
            targets(f.children[2], out)
        } else {
            out
        };
        if named {
            lemma_targets_grow(f.children[2], out);
        }
        lemma_first_holding(f, 3, pos);
        if let Some(i) = child_holding(f, 3, pos) {
            assert(decreases_to!(f => f.children[i as int]));
            lemma_scoped_grows(f.children[i as int], pos, o);
        }
    }
}

proof fn lemma_fn_grows(f: FormView, pos: Position, out: Seq<BindingView>)
    ensures
        out.is_prefix_of(fn_scoped(f, pos, out)),
    decreases f, 18nat, 0nat,
{
    if f.children.len() > 1 && f.children[1].kind == Kind::SymLit {
        lemma_targets_grow(f.children[1], out);
        lemma_fn_tail_grows(f, 2, false, pos, targets(f.children[1], out));
    } else {
        lemma_fn_tail_grows(f, 1, false, pos, out);
    }
}

proof fn lemma_fn_tail_grows(
    f: FormView,
    i: nat,
    met: bool,
    pos: Position,
    out: Seq<BindingView>,
)
    ensures
        out.is_prefix_of(fn_tail_scoped(f, i, met, pos, out)),
    decreases f, 11nat, (f.children.len() + 1 - i) as nat,
{
    if i < f.children.len() {
        let c = f.children[i as int];
        lemma_targets_grow(c, out);
        lemma_fn_tail_grows(f, i + 1, met, pos, out);
        if c.kind == Kind::VecLit && !met {
            lemma_fn_tail_grows(f, i + 1, true, pos, targets(c, out));
        } else if is_arity(c) {
            lemma_arity_grows(c, pos, out);
        } else {
            lemma_scoped_grows(c, pos, out);
        }
    }
}

proof fn lemma_arity_grows(f: FormView, pos: Position, out: Seq<BindingView>)
    ensures
        out.is_prefix_of(arity_scoped(f, pos, out)),
    decreases f, 17nat, 0nat,
{
    let params = f.children[0];
    let o = if params.range.holds(pos) && in_default(params, pos) {
        out
    } else {
        targets(params, out)
    };
    lemma_targets_grow(params, out);
    lemma_descended_grows(f, 1, pos, o);
}

proof fn lemma_def_grows(kind: DefKind, f: FormView, pos: Position, out: Seq<BindingView>)
    ensures
        out.is_prefix_of(def_scoped(kind, f, pos, out)),
    decreases f, 18nat, 0nat,
{
    let len = f.children.len();
    if kind == DefKind::Defn || kind == DefKind::DefnPrivate || kind == DefKind::Defmacro {
        lemma_fn_tail_grows(f, params_start(f), false, pos, out);
    } else if kind == DefKind::Defmethod {
        if len > 2 && f.children[2].range.holds(pos) {
            lemma_scoped_grows(f.children[2], pos, out);
        } else {
            lemma_fn_tail_grows(f, 3, false, pos, out);
        }
    } else if kind == DefKind::Defrecord || kind == DefKind::Deftype {
        if len > 2 && f.children[2].kind == Kind::VecLit {
            lemma_targets_grow(f.children[2], out);
            lemma_descended_grows(f, 3, pos, targets(f.children[2], out));
        } else {
            lemma_descended_grows(f, 3, pos, out);
        }
    } else {
        lemma_descended_grows(f, 2, pos, out);
    }
}

proof fn lemma_letfn_targets_grow(specs: FormView, n: nat, out: Seq<BindingView>)
    ensures
        out.is_prefix_of(letfn_targets(specs, n, out)),
    decreases n,
{
    if n > 0 && n <= specs.children.len() {
        lemma_letfn_targets_grow(specs, (n - 1) as nat, out);
        lemma_targets_grow(
            specs.children[n - 1].children[0],
            letfn_targets(specs, (n - 1) as nat, out),
        );
    }
}

proof fn lemma_letfn_held(specs: FormView, i: nat, pos: Position)
    ensures
        match letfn_holding(specs, i, pos) {
            Some(k) => i <= k < specs.children.len() && specs.children[k as int].kind
                == Kind::ListLit && specs.children[k as int].range.holds(pos),
            None => forall|j: int|
                i <= j < specs.children.len() ==> !((#[trigger] specs.children[j]).kind
                    == Kind::ListLit && specs.children[j].range.holds(pos)),
        },
    decreases specs.children.len() - i,
{
    if i < specs.children.len() && !(specs.children[i as int].kind == Kind::ListLit
        && specs.children[i as int].range.holds(pos)) {
        lemma_letfn_held(specs, i + 1, pos);
    }
}

proof fn lemma_letfn_grows(f: FormView, pos: Position, out: Seq<BindingView>)
    ensures
        out.is_prefix_of(letfn_scoped(f, pos, out)),
    decreases f, 18nat, 0nat,
{
    lemma_descended_grows(f, 2, pos, out);
    if f.children.len() > 1 && f.children[1].kind == Kind::VecLit {
        let specs = f.children[1];
        let o = letfn_targets(specs, specs.children.len(), out);
        lemma_letfn_targets_grow(specs, specs.children.len(), out);
        lemma_descended_grows(f, 2, pos, o);
        lemma_letfn_held(specs, 0, pos);
        if let Some(i) = letfn_holding(specs, 0, pos) {
            assert(decreases_to!(f => f.children[1]));
            assert(decreases_to!(specs => specs.children[i as int]));
            lemma_fn_tail_grows(specs.children[i as int], 1, false, pos, o);
        }
    }
}

/// What is local around a form is local in it too, and is bound further out than what the form
/// itself binds.
pub proof fn law_outer_locals_stay_visible(f: FormView, pos: Position, out: Seq<BindingView>)
    ensures
        out.is_prefix_of(scoped(f, pos, out)),
{
    lemma_scoped_grows(f, pos, out);
}

/// The names of the core library that bind.
pub open spec fn binding_head(name: Seq<char>) -> bool {
    def_symbol_kind(name) is Some || let_like(name) || name == "fn"@ || name == "letfn"@ || name
        == "catch"@ || name == "as->"@
}

/// A form that binds nothing adds nothing: in it the same names are local as around it, but for those
/// that the form in it binds that the position is in.
pub proof fn law_other_forms_bind_nothing(f: FormView, pos: Position, out: Seq<BindingView>, i: int)
    requires
        f.kind == Kind::ListLit && f.children.len() > 0 && plain_core_head(f.children[0])
            ==> !binding_head(sym_name(f.children[0])),
    ensures
        0 <= i < f.children.len() && f.children[i].range.holds(pos) && (forall|j: int|
            0 <= j < i ==> !(#[trigger] f.children[j]).range.holds(pos)) ==> scoped(f, pos, out)
            == scoped(f.children[i], pos, out),
        (forall|j: int|
            0 <= j < f.children.len() ==> !(#[trigger] f.children[j]).range.holds(pos)) ==> scoped(
            f,
            pos,
            out,
        ) == out,
{
    lemma_first_holding(f, 0, pos);
    if 0 <= i < f.children.len() && f.children[i].range.holds(pos) && (forall|j: int|
        0 <= j < i ==> !(#[trigger] f.children[j]).range.holds(pos)) {
        let k = child_holding(f, 0, pos)->0 as int;
        assert(f.children[k].range.holds(pos));
        assert(k == i);
    }
}

/// Whether the form that the path leads to in a binding pattern is a symbol that the pattern makes
/// local: any symbol in a vector; in a map the keys that are no keywords and the values of those
/// that are, but for what stands behind `:or`.
pub open spec fn target_stands(f: FormView, path: Seq<int>, b: BindingView) -> bool
    decreases path.len(),
{
    if f.kind == Kind::SymLit {
        path.len() == 0 && sym_name(f) == b.name && sym_range(f) == b.name_range && b.name != "&"@
            && b.name != "_"@
    } else if path.len() == 0 {
        false
    } else if f.kind == Kind::MapLit {
        let p = path[0] / 2;
        &&& 0 <= path[0] && 2 * p + 1 < f.children.len()
        &&& if path[0] == 2 * p {
            f.children[2 * p].kind != Kind::KwdLit
        } else {
            f.children[2 * p].kind == Kind::KwdLit && f.children[2 * p].text != ":or"@
        }
        &&& target_stands(f.children[path[0]], path.drop_first(), b)
    } else {
        0 <= path[0] < f.children.len() && target_stands(
            f.children[path[0]],
            path.drop_first(),
            b,
        )
    }
}

/// Whether the pattern makes the name local.
pub open spec fn makes_local(f: FormView, b: BindingView) -> bool {
    exists|path: Seq<int>| #[trigger] target_stands(f, path, b)
}

proof fn lemma_path_step(i: int, path: Seq<int>)
    ensures
        (seq![i] + path).drop_first() == path,
        (seq![i] + path)[0] == i,
        (seq![i] + path).len() == path.len() + 1,
{
    assert((seq![i] + path).drop_first() =~= path);
}

proof fn lemma_child_targets_stand(f: FormView, n: nat, out: Seq<BindingView>, b: BindingView)
    requires
        n <= f.children.len(),
        f.kind != Kind::SymLit && f.kind != Kind::MapLit,
    ensures
        child_targets(f, n, out).contains(b) <==> out.contains(b) || exists|path: Seq<int>|
            path.len() > 0 && path[0] < n && #[trigger] target_stands(f, path, b),
    decreases f, 0nat, n,
{
    if n > 0 {
        let before = child_targets(f, (n - 1) as nat, out);
        let c = f.children[n - 1];
        lemma_child_targets_stand(f, (n - 1) as nat, out, b);
        law_pattern_makes_its_names_local(c, before, b);
        if makes_local(c, b) {
            let path = choose|path: Seq<int>| #[trigger] target_stands(c, path, b);
            lemma_path_step(n - 1, path);
            assert(target_stands(f, seq![n - 1] + path, b));
        }
        if exists|path: Seq<int>|
            path.len() > 0 && path[0] < n && #[trigger] target_stands(f, path, b) {
            let path = choose|path: Seq<int>|
                path.len() > 0 && path[0] < n && #[trigger] target_stands(f, path, b);
            if path[0] == n - 1 {
                assert(target_stands(c, path.drop_first(), b));
            } else {
                assert(before.contains(b));
            }
        }
    }
}

proof fn lemma_map_targets_stand(f: FormView, n: nat, out: Seq<BindingView>, b: BindingView)
    requires
        2 * n <= f.children.len(),
        f.kind == Kind::MapLit,
    ensures
        map_targets(f, n, out).contains(b) <==> out.contains(b) || exists|path: Seq<int>|
            path.len() > 0 && path[0] < 2 * n && #[trigger] target_stands(f, path, b),
    decreases f, 0nat, n,
{
    if n > 0 {
        let before = map_targets(f, (n - 1) as nat, out);
        let k = f.children[2 * n - 2];
        lemma_map_targets_stand(f, (n - 1) as nat, out, b);
        let by_value = k.kind == Kind::KwdLit;
        let i = if by_value {
            2 * n - 1
        } else {
            2 * n - 2
        };
        let c = f.children[i];
        let counts = !(by_value && k.text == ":or"@);
        assert((2 * n - 1) / 2 == n - 1 && (2 * n - 2) / 2 == n - 1);
        if counts {
            law_pattern_makes_its_names_local(c, before, b);
            if makes_local(c, b) {
                let path = choose|path: Seq<int>| #[trigger] target_stands(c, path, b);
                lemma_path_step(i, path);
                assert(target_stands(f, seq![i] + path, b));
            }
        }
        if exists|path: Seq<int>|
            path.len() > 0 && path[0] < 2 * n && #[trigger] target_stands(f, path, b) {
            let path = choose|path: Seq<int>|
                path.len() > 0 && path[0] < 2 * n && #[trigger] target_stands(f, path, b);
            if path[0] < 2 * n - 2 {
                assert(before.contains(b));
            } else {
                assert(path[0] == i && counts);
                assert(target_stands(c, path.drop_first(), b));
            }
        }
        if exists|path: Seq<int>|
            path.len() > 0 && path[0] < 2 * n - 2 && #[trigger] target_stands(f, path, b) {
            let path = choose|path: Seq<int>|
                path.len() > 0 && path[0] < 2 * n - 2 && #[trigger] target_stands(f, path, b);
            assert(target_stands(f, path, b));
        }
    }
}

/// A binding pattern makes local exactly the symbols in it that stand for names: nested vectors and
/// maps are taken apart, and `&`, `_` and what stands behind `:or` bind nothing.
pub proof fn law_pattern_makes_its_names_local(f: FormView, out: Seq<BindingView>, b: BindingView)
    ensures
        targets(f, out).contains(b) <==> out.contains(b) || makes_local(f, b),
    decreases f, 1nat, 0nat,
{
    if f.kind == Kind::SymLit {
        lemma_push_contains(
            out,
            BindingView { name: sym_name(f), name_range: sym_range(f) },
            b,
        );
        let none: Seq<int> = Seq::empty();
        assert(target_stands(f, none, b) <==> sym_name(f) == b.name && sym_range(f) == b.name_range
            && b.name != "&"@ && b.name != "_"@);
    } else if f.kind == Kind::MapLit {
        lemma_map_targets_stand(f, f.children.len() / 2, out, b);
        assert forall|path: Seq<int>| #[trigger] target_stands(f, path, b) implies path.len() > 0
            && path[0] < 2 * (f.children.len() / 2) by {}
    } else {
        lemma_child_targets_stand(f, f.children.len(), out, b);
    }
}

/// Whether the pair that the path starts with makes the name local, in its pattern or, behind
/// `:let`, in one of the pairs of its vector.
pub open spec fn pair_makes_local(f: FormView, path: Seq<int>, b: BindingView) -> bool
    decreases path.len(),
{
    if path.len() == 0 {
        false
    } else {
        let k = path[0];
        &&& 0 <= k && 2 * k < f.children.len()
        &&& if f.children[2 * k].kind == Kind::KwdLit {
            &&& f.children[2 * k].text == ":let"@ && 2 * k + 1 < f.children.len() && f.children[2 * k
                + 1].kind == Kind::VecLit
            &&& pair_makes_local(f.children[2 * k + 1], path.drop_first(), b)
        } else {
            target_stands(f.children[2 * k], path.drop_first(), b)
        }
    }
}

/// Whether a position is in no part of a form.
pub open spec fn clear_of(f: FormView, pos: Position) -> bool
    decreases f,
{
    &&& !f.range.holds(pos)
    &&& forall|i: int| 0 <= i < f.children.len() ==> clear_of(#[trigger] f.children[i], pos)
}

/// What the pairs from `i` up to the one at `k` make local, where the position is in none of them.
proof fn lemma_pairs_until(
    f: FormView,
    i: nat,
    k: nat,
    pos: Position,
    out: Seq<BindingView>,
) -> (mid: Seq<BindingView>)
    requires
        i <= k,
        2 * k <= f.children.len() + 1,
        forall|j: int| 2 * i <= j < 2 * k && j < f.children.len() ==> clear_of(
            #[trigger] f.children[j],
            pos,
        ),
    ensures
        pairs_scoped(f, 2 * i, pos, out) == pairs_scoped(f, 2 * k, pos, mid),
        forall|b: BindingView| #[trigger]
            mid.contains(b) <==> out.contains(b) || exists|path: Seq<int>|
                path.len() > 0 && i <= path[0] < k && #[trigger] pair_makes_local(f, path, b),
    decreases f, k - i,
{
    if i == k {
        out
    } else {
        let at = 2 * i as int;
        let lhs = f.children[at];
        let has_rhs = at + 1 < f.children.len();
        let rhs = f.children[at + 1];
        assert(clear_of(lhs, pos));
        if has_rhs {
            assert(clear_of(rhs, pos));
        }
        let after = if lhs.kind == Kind::KwdLit {
            if lhs.text == ":let"@ && has_rhs && rhs.kind == Kind::VecLit {
                assert(decreases_to!(f => f.children[at + 1]));
                let n = (rhs.children.len() + 1) / 2;
                let inner = lemma_pairs_until(rhs, 0, n, pos, out);
                assert(pairs_scoped(rhs, 2 * n, pos, inner) == (inner, false));
                assert forall|b: BindingView, path: Seq<int>| #[trigger]
                    pair_makes_local(rhs, path, b) implies path.len() > 0 && 0 <= path[0] < n by {}
                inner
            } else {
                out
            }
        } else {
            targets(lhs, out)
        };
        assert(pairs_scoped(f, 2 * i, pos, out) == pairs_scoped(f, 2 * (i + 1), pos, after));
        let mid = lemma_pairs_until(f, i + 1, k, pos, after);
        assert forall|b: BindingView| #[trigger]
            mid.contains(b) <==> out.contains(b) || exists|path: Seq<int>|
                path.len() > 0 && i <= path[0] < k && #[trigger] pair_makes_local(f, path, b) by {
            law_pattern_makes_its_names_local(lhs, out, b);
            assert(mid.contains(b) <==> after.contains(b) || exists|path: Seq<int>|
                path.len() > 0 && i + 1 <= path[0] < k && #[trigger] pair_makes_local(f, path, b));
            let here = i as int;
            if lhs.kind != Kind::KwdLit && makes_local(lhs, b) {
                let path = choose|path: Seq<int>| #[trigger] target_stands(lhs, path, b);
                lemma_path_step(here, path);
                assert(pair_makes_local(f, seq![here] + path, b));
            }
            if lhs.kind == Kind::KwdLit && lhs.text == ":let"@ && has_rhs && rhs.kind
                == Kind::VecLit {
                if exists|path: Seq<int>| #[trigger] pair_makes_local(rhs, path, b) {
                    let path = choose|path: Seq<int>| #[trigger] pair_makes_local(rhs, path, b);
                    lemma_path_step(here, path);
                    assert(pair_makes_local(f, seq![here] + path, b));
                    assert(after.contains(b));
                }
            }
            if exists|path: Seq<int>|
                path.len() > 0 && i <= path[0] < k && #[trigger] pair_makes_local(f, path, b) {
                let path = choose|path: Seq<int>|
                    path.len() > 0 && i <= path[0] < k && #[trigger] pair_makes_local(f, path, b);
                if path[0] == i {
                    let rest = path.drop_first();
                    if lhs.kind == Kind::KwdLit {
                        assert(pair_makes_local(rhs, rest, b));
                    } else {
                        assert(target_stands(lhs, rest, b));
                    }
                    assert(after.contains(b));
                }
            }
            if exists|path: Seq<int>|
                path.len() > 0 && i + 1 <= path[0] < k && #[trigger] pair_makes_local(f, path, b) {
                let path = choose|path: Seq<int>|
                    path.len() > 0 && i + 1 <= path[0] < k && #[trigger] pair_makes_local(
                        f,
                        path,
                        b,
                    );
                assert(pair_makes_local(f, path, b));
            }
        }
        mid
    }
}

/// The names of the binding forms are different names.
proof fn lemma_binding_heads(head: Seq<char>)
    ensures
        let_like(head) ==> def_symbol_kind(head) is None,
        head == "fn"@ || head == "letfn"@ || head == "catch"@ || head == "as->"@ ==> def_symbol_kind(
            head,
        ) is None && !let_like(head),
        "fn"@ != "letfn"@ && "fn"@ != "catch"@ && "fn"@ != "as->"@ && "letfn"@ != "catch"@
            && "letfn"@ != "as->"@,
{
    reveal_strlit("let");
    reveal_strlit("loop");
    reveal_strlit("for");
    reveal_strlit("doseq");
    reveal_strlit("when-let");
    reveal_strlit("if-let");
    reveal_strlit("when-some");
    reveal_strlit("if-some");
    reveal_strlit("with-open");
    reveal_strlit("dotimes");
    reveal_strlit("fn");
    reveal_strlit("letfn");
    reveal_strlit("catch");
    reveal_strlit("as->");
    reveal_strlit("def");
    reveal_strlit("defonce");
    reveal_strlit("defn");
    reveal_strlit("defn-");
    reveal_strlit("defmacro");
    reveal_strlit("defmulti");
    reveal_strlit("defmethod");
    reveal_strlit("defprotocol");
    reveal_strlit("defrecord");
    reveal_strlit("deftype");
    assert("as->"@.len() == 4 && "as->"@[0] == 'a');
    assert("catch"@.len() == 5 && "catch"@[0] == 'c');
    assert("letfn"@.len() == 5 && "letfn"@[0] == 'l');
    assert("fn"@.len() == 2);
    assert(let_like(head) ==> head.len() > 2 && (head[0] != 'd' || head[1] != 'e') && head[0] != 'a'
        && head[0] != 'c' && !(head.len() == 5 && head[0] == 'l'));
    assert(def_symbol_kind(head) is Some ==> head.len() > 2 && head[0] == 'd' && head[1] == 'e');
}

/// Whether a form is a list whose head is that name of the core library, bare or qualified.
pub open spec fn is_form_of(f: FormView, head: Seq<char>) -> bool {
    f.kind == Kind::ListLit && f.children.len() > 0 && plain_core_head(f.children[0]) && sym_name(
        f.children[0],
    ) == head
}

/// Whether the position is in the child at `i`, in none between `from` and it, and that child has no
/// forms in it.
pub open spec fn in_leaf(f: FormView, from: int, i: int, pos: Position) -> bool {
    &&& from <= i < f.children.len()
    &&& f.children[i].range.holds(pos)
    &&& f.children[i].children.len() == 0
    &&& forall|j: int| from <= j < i ==> !(#[trigger] f.children[j]).range.holds(pos)
}

proof fn lemma_leaf(f: FormView, from: nat, i: int, pos: Position, out: Seq<BindingView>)
    requires
        in_leaf(f, from as int, i, pos),
    ensures
        descended(f, from, pos, out) == out,
        scoped(f.children[i], pos, out) == out,
        child_holding(f, from, pos) == Some(i as nat),
{
    lemma_first_holding(f, from, pos);
    let k = child_holding(f, from, pos)->0 as int;
    assert(f.children[k].range.holds(pos));
    assert(k == i);
    let leaf = f.children[i];
    lemma_first_holding(leaf, 0, pos);
    assert(child_holding(leaf, 0, pos) is None);
    assert(descended(leaf, 0, pos, out) == out);
    assert(scoped(leaf, pos, out) == out);
    assert(descended(f, from, pos, out) == scoped(leaf, pos, out));
}

/// In the body of a `let` the names of its vector are local, with those around it and no others.
pub proof fn law_let_body_sees_the_vector(
    f: FormView,
    head: Seq<char>,
    i: int,
    pos: Position,
    out: Seq<BindingView>,
    b: BindingView,
)
    requires
        let_like(head),
        is_form_of(f, head),
        f.children.len() > 1,
        f.children[1].kind == Kind::VecLit,
        clear_of(f.children[1], pos),
        in_leaf(f, 2, i, pos),
    ensures
        scoped(f, pos, out).contains(b) <==> out.contains(b) || exists|path: Seq<int>| #[trigger]
            pair_makes_local(f.children[1], path, b),
{
    lemma_binding_heads(head);
    let v = f.children[1];
    let n = (v.children.len() + 1) / 2;
    let mid = lemma_pairs_until(v, 0, n, pos, out);
    assert(pairs_scoped(v, 2 * n, pos, mid) == (mid, false));
    lemma_leaf(f, 2, i, pos, mid);
    assert(scoped(f, pos, out) == mid);
    assert forall|path: Seq<int>| #[trigger] pair_makes_local(v, path, b) implies path.len() > 0 && 0
        <= path[0] < n by {}
}

/// In the value of a pair only the names of the pairs before it are local, not its own.
pub proof fn law_value_sees_the_pairs_before(
    f: FormView,
    head: Seq<char>,
    k: nat,
    pos: Position,
    out: Seq<BindingView>,
    b: BindingView,
)
    requires
        let_like(head),
        is_form_of(f, head),
        f.children.len() > 1,
        f.children[1].kind == Kind::VecLit,
        2 * k + 1 < f.children[1].children.len(),
        f.children[1].children[2 * k as int].kind != Kind::KwdLit,
        f.children[1].children[2 * k as int + 1].range.holds(pos),
        f.children[1].children[2 * k as int + 1].children.len() == 0,
        forall|j: int| 0 <= j < 2 * k ==> clear_of(#[trigger] f.children[1].children[j], pos),
    ensures
        scoped(f, pos, out).contains(b) <==> out.contains(b) || exists|path: Seq<int>|
            path.len() > 0 && path[0] < k && #[trigger] pair_makes_local(f.children[1], path, b),
{
    lemma_binding_heads(head);
    let v = f.children[1];
    let mid = lemma_pairs_until(v, 0, k, pos, out);
    let leaf = v.children[2 * k as int + 1];
    lemma_first_holding(leaf, 0, pos);
    assert(scoped(leaf, pos, mid) == mid);
    assert(pairs_scoped(v, 2 * k, pos, mid) == (mid, true));
    assert(scoped(f, pos, out) == mid);
    assert forall|path: Seq<int>| #[trigger] pair_makes_local(v, path, b) implies path.len() > 0 && 0
        <= path[0] by {}
}

proof fn lemma_fn_tail_to(
    f: FormView,
    j: nat,
    i: nat,
    met: bool,
    pos: Position,
    out: Seq<BindingView>,
)
    requires
        j <= i <= f.children.len(),
        forall|k: int|
            j <= k < i ==> !(#[trigger] f.children[k]).range.holds(pos) && (met || f.children[k].kind
                != Kind::VecLit),
    ensures
        fn_tail_scoped(f, j, met, pos, out) == fn_tail_scoped(f, i, met, pos, out),
    decreases i - j,
{
    if j < i {
        assert(!f.children[j as int].range.holds(pos));
        lemma_fn_tail_to(f, j + 1, i, met, pos, out);
    }
}

proof fn lemma_params_are_local(
    f: FormView,
    p: nat,
    i: int,
    pos: Position,
    out: Seq<BindingView>,
    b: BindingView,
)
    requires
        p < f.children.len(),
        f.children[p as int].kind == Kind::VecLit,
        clear_of(f.children[p as int], pos),
        in_leaf(f, p as int + 1, i, pos),
    ensures
        fn_tail_scoped(f, p, false, pos, out).contains(b) <==> out.contains(b) || makes_local(
            f.children[p as int],
            b,
        ),
{
    let params = f.children[p as int];
    let o = targets(params, out);
    law_pattern_makes_its_names_local(params, out, b);
    lemma_fn_tail_to(f, p + 1, i as nat, true, pos, o);
    lemma_leaf(f, p + 1, i, pos, o);
    assert(fn_tail_scoped(f, i as nat, true, pos, o) == o);
}

/// In the body of a function its parameters are local, and the name that it gives itself.
pub proof fn law_fn_body_sees_the_parameters(
    f: FormView,
    i: int,
    pos: Position,
    out: Seq<BindingView>,
    b: BindingView,
)
    requires
        is_form_of(f, "fn"@),
        f.children.len() > 2,
    ensures
        f.children[1].kind == Kind::VecLit && clear_of(f.children[1], pos) && in_leaf(f, 2, i, pos)
            ==> (scoped(f, pos, out).contains(b) <==> out.contains(b) || makes_local(
            f.children[1],
            b,
        )),
        f.children[1].kind == Kind::SymLit && f.children[2].kind == Kind::VecLit && clear_of(
            f.children[2],
            pos,
        ) && in_leaf(f, 3, i, pos) ==> (scoped(f, pos, out).contains(b) <==> out.contains(b)
            || makes_local(f.children[1], b) || makes_local(f.children[2], b)),
{
    lemma_binding_heads("fn"@);
    assert(scoped(f, pos, out) == fn_scoped(f, pos, out));
    if f.children[1].kind == Kind::VecLit && clear_of(f.children[1], pos) && in_leaf(f, 2, i, pos) {
        lemma_params_are_local(f, 1, i, pos, out, b);
    }
    if f.children[1].kind == Kind::SymLit && f.children[2].kind == Kind::VecLit && clear_of(
        f.children[2],
        pos,
    ) && in_leaf(f, 3, i, pos) {
        law_pattern_makes_its_names_local(f.children[1], out, b);
        lemma_params_are_local(f, 2, i, pos, targets(f.children[1], out), b);
    }
}

/// In the body of a defined function its parameters are local.
pub proof fn law_defn_body_sees_the_parameters(
    f: FormView,
    head: Seq<char>,
    i: int,
    pos: Position,
    out: Seq<BindingView>,
    b: BindingView,
)
    requires
        is_form_of(f, head),
        def_symbol_kind(head) == Some(DefKind::Defn) || def_symbol_kind(head) == Some(
            DefKind::DefnPrivate,
        ) || def_symbol_kind(head) == Some(DefKind::Defmacro),
        f.children.len() > 3,
        f.children[2].kind == Kind::VecLit,
        clear_of(f.children[2], pos),
        in_leaf(f, 3, i, pos),
    ensures
        scoped(f, pos, out).contains(b) <==> out.contains(b) || makes_local(f.children[2], b),
{
    lemma_params_are_local(f, 2, i, pos, out, b);
}

/// In one arity of a function its own parameters are local, and not those of the others.
pub proof fn law_arity_sees_its_own_parameters(
    f: FormView,
    c: int,
    i: int,
    pos: Position,
    out: Seq<BindingView>,
    b: BindingView,
)
    requires
        is_form_of(f, "fn"@),
        1 <= c < f.children.len(),
        f.children[1].kind != Kind::SymLit,
        forall|k: int|
            1 <= k < c ==> !(#[trigger] f.children[k]).range.holds(pos) && f.children[k].kind
                != Kind::VecLit,
        f.children[c].range.holds(pos),
        is_arity(f.children[c]),
        clear_of(f.children[c].children[0], pos),
        in_leaf(f.children[c], 1, i, pos),
    ensures
        scoped(f, pos, out).contains(b) <==> out.contains(b) || makes_local(
            f.children[c].children[0],
            b,
        ),
{
    lemma_binding_heads("fn"@);
    let arity = f.children[c];
    let params = arity.children[0];
    lemma_fn_tail_to(f, 1, c as nat, false, pos, out);
    law_pattern_makes_its_names_local(params, out, b);
    lemma_leaf(arity, 1, i, pos, targets(params, out));
    assert(scoped(f, pos, out) == fn_scoped(f, pos, out));
    assert(fn_tail_scoped(f, c as nat, false, pos, out) == arity_scoped(arity, pos, out));
}

proof fn lemma_letfn_targets_stand(specs: FormView, n: nat, out: Seq<BindingView>, b: BindingView)
    requires
        n <= specs.children.len(),
    ensures
        letfn_targets(specs, n, out).contains(b) <==> out.contains(b) || exists|k: int|
            0 <= k < n && names_function(#[trigger] specs.children[k], b),
    decreases n,
{
    if n > 0 {
        lemma_letfn_targets_stand(specs, (n - 1) as nat, out, b);
        let before = letfn_targets(specs, (n - 1) as nat, out);
        law_pattern_makes_its_names_local(specs.children[n - 1].children[0], before, b);
    }
}

/// Whether a spec of a `letfn` gives a function the name.
pub open spec fn names_function(spec: FormView, b: BindingView) -> bool {
    spec.kind == Kind::ListLit && spec.children.len() > 0 && spec.children[0].kind == Kind::SymLit
        && makes_local(spec.children[0], b)
}

/// In the body of a `letfn` its functions are local.
pub proof fn law_letfn_body_sees_the_functions(
    f: FormView,
    i: int,
    pos: Position,
    out: Seq<BindingView>,
    b: BindingView,
)
    requires
        is_form_of(f, "letfn"@),
        f.children.len() > 1,
        f.children[1].kind == Kind::VecLit,
        clear_of(f.children[1], pos),
        in_leaf(f, 2, i, pos),
    ensures
        scoped(f, pos, out).contains(b) <==> out.contains(b) || exists|k: int|
            0 <= k < f.children[1].children.len() && names_function(
                #[trigger] f.children[1].children[k],
                b,
            ),
{
    lemma_binding_heads("letfn"@);
    let specs = f.children[1];
    let o = letfn_targets(specs, specs.children.len(), out);
    lemma_letfn_targets_stand(specs, specs.children.len(), out, b);
    lemma_letfn_held(specs, 0, pos);
    if let Some(k) = letfn_holding(specs, 0, pos) {
        assert(clear_of(specs.children[k as int], pos));
    }
    lemma_leaf(f, 2, i, pos, o);
    assert(scoped(f, pos, out) == letfn_scoped(f, pos, out));
}

/// Behind the name that a `catch` or an `as->` binds that name is local.
pub proof fn law_tail_sees_the_name(
    f: FormView,
    head: Seq<char>,
    i: int,
    pos: Position,
    out: Seq<BindingView>,
    b: BindingView,
)
    requires
        head == "catch"@ || head == "as->"@,
        is_form_of(f, head),
        f.children.len() > 2,
        f.children[2].kind == Kind::SymLit,
        !f.children[1].range.holds(pos),
        !f.children[2].range.holds(pos),
        in_leaf(f, 3, i, pos),
    ensures
        scoped(f, pos, out).contains(b) <==> out.contains(b) || makes_local(f.children[2], b),
{
    lemma_binding_heads(head);
    let o = targets(f.children[2], out);
    law_pattern_makes_its_names_local(f.children[2], out, b);
    lemma_leaf(f, 3, i, pos, o);
    assert(scoped(f, pos, out) == binding_tail_scoped(f, pos, out));
}

/// In the methods of a record or type its fields are local.
pub proof fn law_methods_see_the_fields(
    f: FormView,
    head: Seq<char>,
    pos: Position,
    out: Seq<BindingView>,
    b: BindingView,
)
    requires
        is_form_of(f, head),
        def_symbol_kind(head) == Some(DefKind::Defrecord) || def_symbol_kind(head) == Some(
            DefKind::Deftype,
        ),
        f.children.len() > 2,
        f.children[2].kind == Kind::VecLit,
        makes_local(f.children[2], b) || out.contains(b),
    ensures
        scoped(f, pos, out).contains(b),
{
    law_pattern_makes_its_names_local(f.children[2], out, b);
    let o = targets(f.children[2], out);
    lemma_descended_grows(f, 3, pos, o);
    let k = o.index_of(b);
    assert(scoped(f, pos, out)[k] == b);
}

/// At the top level nothing is local but what the form there binds.
pub proof fn law_nothing_is_local_outside(root: FormView, pos: Position, i: int)
    ensures
        (forall|j: int|
            0 <= j < root.children.len() ==> !(#[trigger] root.children[j]).range.holds(pos))
            ==> visible(root, pos) == Seq::<BindingView>::empty(),
        0 <= i < root.children.len() && root.children[i].range.holds(pos) && (forall|j: int|
            0 <= j < i ==> !(#[trigger] root.children[j]).range.holds(pos)) ==> visible(root, pos)
            == scoped(root.children[i], pos, Seq::empty()),
{
    lemma_first_holding(root, 0, pos);
    if 0 <= i < root.children.len() && root.children[i].range.holds(pos) && (forall|j: int|
        0 <= j < i ==> !(#[trigger] root.children[j]).range.holds(pos)) {
        let k = child_holding(root, 0, pos)->0 as int;
        assert(root.children[k].range.holds(pos));
        assert(k == i);
    }
}

}
