//! What holds of every walk: it leaves each frame that it enters, forgets nothing that it has
//! found, finds every free name, takes no local for a usage, and never reports a name that opts
//! out.

use vstd::prelude::*;
use crate::index::definitions::{init_key_name, macro_definition};
use crate::collect::dict_get;
use crate::index::extractor::{keyword_name, sym_name, sym_range};
use crate::index::model::{def_symbol_kind, DefKind, OccurrenceView};
use crate::index::occurrences::{
    arity_walked, bare_fqn, binding_tail_walked, child_names_bound, children_walked, def_tail_walked,
    def_walked, defaults_walked, file_walked, fn_tail_walked, fn_walked, is_arity, is_core_head, is_placeholder,
    let_like, let_walked, letfn_bodies, letfn_names, letfn_walked, list_walked, map_names_bound,
    method_arities_walked, method_walked, names_bound, pairs_walked, protocol_home, specs_walked,
    symbol_used, walked, Binding, CtxView, WalkView,
};
use crate::index::scope::{
    harvest, law_use_counts_for_the_innermost_binding, lemma_innermost, stands_innermost, BindingView,
    ScopeView, SlotView,
};
use crate::syntax::{FormView, Kind};

verus! {

/// Whether none of the reported bindings starts with `_`.
pub open spec fn honours_opt_out(unused: Seq<BindingView>) -> bool {
    forall|i: int|
        0 <= i < unused.len() ==> !((#[trigger] unused[i]).name.len() > 0 && unused[i].name[0]
            == '_')
}

/// Whether the bindings of a frame still stand in it, each at least as much used as before.
pub open spec fn grown(a: Seq<SlotView>, b: Seq<SlotView>) -> bool {
    &&& a.len() <= b.len()
    &&& forall|j: int|
        0 <= j < a.len() ==> (#[trigger] b[j]).name == a[j].name && b[j].name_range
            == a[j].name_range && b[j].lintable == a[j].lintable && (a[j].used ==> b[j].used)
}

/// Whether the walk from `a` to `b` ended in the frame in which it started, bound names in no
/// other frame, forgot nothing that it had found, and reported no name that opts out.
pub open spec fn sound(a: WalkView, b: WalkView) -> bool {
    &&& a.scope.frames.len() == b.scope.frames.len()
    &&& forall|i: int|
        0 <= i < a.scope.frames.len() ==> grown(#[trigger] a.scope.frames[i], b.scope.frames[i])
            && (i + 1 < a.scope.frames.len() ==> a.scope.frames[i].len()
            == b.scope.frames[i].len())
    &&& a.out.is_prefix_of(b.out)
    &&& a.scope.unused.is_prefix_of(b.scope.unused)
    &&& honours_opt_out(a.scope.unused) ==> honours_opt_out(b.scope.unused)
}

/// Whether the walk from `a` to `b` is sound and bound no name at all in the frames around it.
pub open spec fn steady(a: WalkView, b: WalkView) -> bool {
    &&& sound(a, b)
    &&& a.scope.frames.len() > 0 ==> a.scope.frames.last().len() == b.scope.frames.last().len()
}

/// What is left of a walk in the frames that were there before it.
spec fn outer(w: WalkView, depth: nat) -> WalkView {
    WalkView {
        scope: ScopeView { frames: w.scope.frames.take(depth as int), ..w.scope },
        ..w
    }
}

proof fn lemma_harvest(frame: Seq<SlotView>, n: nat)
    ensures
        honours_opt_out(harvest(frame, n)),
    decreases n,
{
    if n > 0 && n <= frame.len() {
        lemma_harvest(frame, (n - 1) as nat);
    }
}

proof fn lemma_then(a: WalkView, b: WalkView, c: WalkView)
    requires
        steady(a, b),
        steady(b, c),
    ensures
        steady(a, c),
{
}

/// Entering a frame, walking and leaving it.
proof fn lemma_in_frame(a: WalkView, names: Seq<BindingView>, lintable: bool, b: WalkView)
    requires
        sound(a.entered(names, lintable), b),
    ensures
        steady(a, b.left()),
{
    let frame = b.scope.frames.last();
    lemma_harvest(frame, frame.len());
    let inside = a.entered(names, lintable);
    assert forall|i: int| 0 <= i < a.scope.frames.len() implies grown(
        #[trigger] a.scope.frames[i],
        b.left().scope.frames[i],
    ) && a.scope.frames[i].len() == b.left().scope.frames[i].len() by {
        assert(inside.scope.frames[i] == a.scope.frames[i]);
    }
}

proof fn lemma_symbol(f: FormView, ctx: CtxView, w: WalkView)
    ensures
        steady(w, symbol_used(f, ctx, w)),
{
    lemma_innermost(w.scope.frames, sym_name(f), w.scope.frames.len());
}

proof fn lemma_walked(f: FormView, ctx: CtxView, w: WalkView)
    ensures
        steady(w, walked(f, ctx, w)),
    decreases f, 20nat, 0nat,
{
    if f.kind == Kind::SymLit {
        lemma_symbol(f, ctx, w);
    } else if f.kind == Kind::ListLit {
        lemma_list(f, ctx, w);
    } else if f.kind != Kind::KwdLit && f.kind != Kind::QuotingLit {
        lemma_children_walked(f, 0, f.children.len(), ctx, w);
    }
}

proof fn lemma_children_walked(f: FormView, start: nat, n: nat, ctx: CtxView, w: WalkView)
    ensures
        steady(w, children_walked(f, start, n, ctx, w)),
    decreases f, 10nat, n,
{
    if n > start && n <= f.children.len() {
        lemma_children_walked(f, start, (n - 1) as nat, ctx, w);
        lemma_walked(
            f.children[n - 1],
            ctx,
            children_walked(f, start, (n - 1) as nat, ctx, w),
        );
    }
}

proof fn lemma_list(f: FormView, ctx: CtxView, w: WalkView)
    ensures
        steady(w, list_walked(f, ctx, w)),
    decreases f, 19nat, 0nat,
{
    if f.children.len() > 0 {
        let head = f.children[0];
        let len = f.children.len();
        let used = symbol_used(head, ctx, w);
        lemma_symbol(head, ctx, w);
        if head.kind == Kind::SymLit && macro_definition(head, ctx.meta, ctx.cfg.lint_as) is Some {
            let (fqn, kind) = macro_definition(head, ctx.meta, ctx.cfg.lint_as)->0;
            lemma_def(kind, f, ctx, w.found(fqn, sym_range(head)));
        } else if !is_core_head(head, ctx) {
            lemma_children_walked(f, 0, len, ctx, w);
        } else {
            let name = sym_name(head);
            if name == "ns"@ || name == "quote"@ {
            } else if name == "letfn"@ {
                lemma_letfn(f, ctx, used);
            } else if def_symbol_kind(name) is Some {
                lemma_def(def_symbol_kind(name)->0, f, ctx, w);
            } else if let_like(name) {
                lemma_let(f, ctx, used);
            } else if name == "fn"@ {
                lemma_fn(f, ctx, used);
            } else if name == "catch"@ || name == "as->"@ {
                lemma_binding_tail(f, ctx, used);
            } else if name == "extend-type"@ || name == "extend-protocol"@ {
                let w2 = if len > 1 {
                    lemma_walked(f.children[1], ctx, used);
                    walked(f.children[1], ctx, used)
                } else {
                    used
                };
                let home = if len > 1 && f.children[1].kind == Kind::SymLit {
                    protocol_home(f.children[1], ctx)
                } else {
                    None
                };
                lemma_specs(f, 2, len, true, None, ctx, w2);
                lemma_specs(f, 2, len, false, home, ctx, w2);
            } else if name == "reify"@ {
                lemma_specs(f, 1, len, true, None, ctx, used);
            } else {
                lemma_children_walked(f, 0, len, ctx, w);
            }
        }
    }
}

proof fn lemma_def(kind: DefKind, f: FormView, ctx: CtxView, w: WalkView)
    ensures
        steady(w, def_walked(kind, f, ctx, w)),
    decreases f, 18nat, 0nat,
{
    let len = f.children.len();
    let none = Binding { w, names: Seq::empty() };
    if kind == DefKind::Defprotocol {
    } else if kind == DefKind::Defrecord || kind == DefKind::Deftype {
        let b = if len > 2 && f.children[2].kind == Kind::VecLit {
            lemma_names(f.children[2], ctx, none);
            names_bound(f.children[2], ctx, none)
        } else {
            none
        };
        let inside = b.w.entered(b.names, false);
        lemma_specs(f, 3, len, true, None, ctx, inside);
        lemma_in_frame(b.w, b.names, false, specs_walked(f, 3, len, true, None, ctx, inside).0);
    } else if !(kind == DefKind::Defn || kind == DefKind::DefnPrivate || kind == DefKind::Defmacro
        || kind == DefKind::Defmethod) {
        lemma_children_walked(f, 2, len, ctx, w);
    } else if kind == DefKind::Defmethod {
        let w1 = if len > 1 && f.children[1].kind == Kind::SymLit {
            lemma_symbol(f.children[1], ctx, w);
            symbol_used(f.children[1], ctx, w)
        } else {
            w
        };
        let w2 = if len > 2 && init_key_name(f, ctx.meta) is None {
            lemma_walked(f.children[2], ctx, w1);
            walked(f.children[2], ctx, w1)
        } else {
            w1
        };
        lemma_def_tail(f, 3, len, ctx, w2);
    } else {
        lemma_def_tail(f, 2, len, ctx, w);
    }
}

/// The tail of a definition may stand one frame further in; leaving that frame
/// restores the depth.
proof fn lemma_def_tail(f: FormView, start: nat, n: nat, ctx: CtxView, w: WalkView)
    ensures
        ({
            let (b, entered) = def_tail_walked(f, start, n, ctx, w);
            &&& b.scope.frames.len() == w.scope.frames.len() + (if entered {
                1int
            } else {
                0
            })
            &&& steady(w, outer(b, w.scope.frames.len()))
            &&& entered ==> steady(w, b.left())
        }),
    decreases f, 10nat, n,
{
    if n > start && n <= f.children.len() {
        lemma_def_tail(f, start, (n - 1) as nat, ctx, w);
        let (before, entered) = def_tail_walked(f, start, (n - 1) as nat, ctx, w);
        let c = f.children[n - 1];
        if c.kind == Kind::VecLit && !entered {
            lemma_names(c, ctx, Binding { w: before, names: Seq::empty() });
        } else if is_arity(c) {
            lemma_arity(c, true, ctx, before);
        } else {
            lemma_walked(c, ctx, before);
        }
    }
    let (b, entered) = def_tail_walked(f, start, n, ctx, w);
    if entered {
        let frame = b.scope.frames.last();
        lemma_harvest(frame, frame.len());
    }
}

proof fn lemma_arity(f: FormView, lintable: bool, ctx: CtxView, w: WalkView)
    ensures
        steady(w, arity_walked(f, lintable, ctx, w)),
    decreases f, 17nat, 0nat,
{
    if f.children.len() > 0 {
        let none = Binding { w, names: Seq::empty() };
        lemma_names(f.children[0], ctx, none);
        let b = names_bound(f.children[0], ctx, none);
        let inside = b.w.entered(b.names, lintable);
        lemma_children_walked(f, 1, f.children.len(), ctx, inside);
        lemma_in_frame(
            b.w,
            b.names,
            lintable,
            children_walked(f, 1, f.children.len(), ctx, inside),
        );
    }
}

proof fn lemma_specs(
    f: FormView,
    start: nat,
    n: nat,
    interleaved: bool,
    home: Option<Seq<char>>,
    ctx: CtxView,
    w: WalkView,
)
    ensures
        steady(w, specs_walked(f, start, n, interleaved, home, ctx, w).0),
    decreases f, 10nat, n,
{
    if n > start && n <= f.children.len() {
        lemma_specs(f, start, (n - 1) as nat, interleaved, home, ctx, w);
        let (before, current) = specs_walked(f, start, (n - 1) as nat, interleaved, home, ctx, w);
        let c = f.children[n - 1];
        if c.kind == Kind::SymLit {
            lemma_symbol(c, ctx, before);
        } else if c.kind == Kind::ListLit {
            lemma_method(c, current, ctx, before);
        } else {
            lemma_walked(c, ctx, before);
        }
    }
}

proof fn lemma_method(f: FormView, home: Option<Seq<char>>, ctx: CtxView, w: WalkView)
    ensures
        steady(w, method_walked(f, home, ctx, w)),
    decreases f, 18nat, 0nat,
{
    let len = f.children.len();
    if len == 0 || f.children[0].kind != Kind::SymLit {
        lemma_children_walked(f, 0, len, ctx, w);
    } else {
        let head = f.children[0];
        let w1 = match home {
            Some(ns) => w.found(
                crate::index::extractor::qualify(ns, sym_name(head)),
                sym_range(head),
            ),
            None => w,
        };
        assert(steady(w, w1));
        if len > 1 && f.children[1].kind == Kind::VecLit {
            let none = Binding { w: w1, names: Seq::empty() };
            lemma_names(f.children[1], ctx, none);
            let b = names_bound(f.children[1], ctx, none);
            let inside = b.w.entered(b.names, false);
            lemma_children_walked(f, 2, len, ctx, inside);
            lemma_in_frame(b.w, b.names, false, children_walked(f, 2, len, ctx, inside));
            lemma_then(w, w1, b.w);
            lemma_then(w, b.w, method_walked(f, home, ctx, w));
        } else {
            lemma_method_arities(f, len, ctx, w1);
            lemma_then(w, w1, method_walked(f, home, ctx, w));
        }
    }
}

proof fn lemma_method_arities(f: FormView, n: nat, ctx: CtxView, w: WalkView)
    ensures
        steady(w, method_arities_walked(f, n, ctx, w)),
    decreases f, 10nat, n,
{
    if n > 1 && n <= f.children.len() {
        lemma_method_arities(f, (n - 1) as nat, ctx, w);
        let before = method_arities_walked(f, (n - 1) as nat, ctx, w);
        let c = f.children[n - 1];
        if is_arity(c) {
            lemma_arity(c, false, ctx, before);
        } else {
            lemma_walked(c, ctx, before);
        }
    }
}

proof fn lemma_let(f: FormView, ctx: CtxView, w: WalkView)
    ensures
        steady(w, let_walked(f, ctx, w)),
    decreases f, 18nat, 0nat,
{
    let len = f.children.len();
    let w1 = w.entered(Seq::empty(), true);
    let w2 = if len > 1 && f.children[1].kind == Kind::VecLit {
        lemma_pairs(f.children[1], f.children[1].children.len() / 2, ctx, w1);
        pairs_walked(f.children[1], f.children[1].children.len() / 2, ctx, w1)
    } else {
        w1
    };
    lemma_children_walked(f, 2, len, ctx, w2);
    lemma_in_frame(w, Seq::empty(), true, children_walked(f, 2, len, ctx, w2));
}

proof fn lemma_pairs(f: FormView, n: nat, ctx: CtxView, w: WalkView)
    ensures
        sound(w, pairs_walked(f, n, ctx, w)),
    decreases f, 10nat, n,
{
    if n > 0 && 2 * n <= f.children.len() {
        lemma_pairs(f, (n - 1) as nat, ctx, w);
        let before = pairs_walked(f, (n - 1) as nat, ctx, w);
        let lhs = f.children[2 * n - 2];
        let rhs = f.children[2 * n - 1];
        if lhs.kind == Kind::KwdLit && lhs.text == ":let"@ && rhs.kind == Kind::VecLit {
            lemma_pairs(rhs, rhs.children.len() / 2, ctx, before);
        } else {
            lemma_walked(rhs, ctx, before);
            lemma_names(
                lhs,
                ctx,
                Binding { w: walked(rhs, ctx, before), names: Seq::empty() },
            );
        }
    }
}

proof fn lemma_binding_tail(f: FormView, ctx: CtxView, w: WalkView)
    ensures
        steady(w, binding_tail_walked(f, ctx, w)),
    decreases f, 18nat, 0nat,
{
    let len = f.children.len();
    let w1 = if len > 1 {
        lemma_walked(f.children[1], ctx, w);
        walked(f.children[1], ctx, w)
    } else {
        w
    };
    let none = Binding { w: w1, names: Seq::empty() };
    let b = if len > 2 && f.children[2].kind == Kind::SymLit {
        lemma_names(f.children[2], ctx, none);
        names_bound(f.children[2], ctx, none)
    } else {
        none
    };
    let inside = b.w.entered(b.names, true);
    lemma_children_walked(f, 3, len, ctx, inside);
    lemma_in_frame(b.w, b.names, true, children_walked(f, 3, len, ctx, inside));
}

proof fn lemma_fn(f: FormView, ctx: CtxView, w: WalkView)
    ensures
        steady(w, fn_walked(f, ctx, w)),
    decreases f, 18nat, 0nat,
{
    let len = f.children.len();
    let named = len > 1 && f.children[1].kind == Kind::SymLit;
    let none = Binding { w, names: Seq::empty() };
    let b = if named {
        lemma_names(f.children[1], ctx, none);
        names_bound(f.children[1], ctx, none)
    } else {
        none
    };
    let start = if named {
        2nat
    } else {
        1nat
    };
    let inside = b.w.entered(b.names, false);
    lemma_fn_tail(f, start, len, ctx, inside);
    lemma_in_frame(b.w, b.names, false, fn_tail_walked(f, start, len, ctx, inside).0);
}

proof fn lemma_fn_tail(f: FormView, start: nat, n: nat, ctx: CtxView, w: WalkView)
    ensures
        sound(w, fn_tail_walked(f, start, n, ctx, w).0),
    decreases f, 10nat, n,
{
    if n > start && n <= f.children.len() {
        lemma_fn_tail(f, start, (n - 1) as nat, ctx, w);
        let (before, bound) = fn_tail_walked(f, start, (n - 1) as nat, ctx, w);
        let c = f.children[n - 1];
        if c.kind == Kind::VecLit && !bound {
            lemma_names(c, ctx, Binding { w: before, names: Seq::empty() });
        } else if is_arity(c) {
            lemma_arity(c, true, ctx, before);
        } else {
            lemma_walked(c, ctx, before);
        }
    }
}

proof fn lemma_letfn(f: FormView, ctx: CtxView, w: WalkView)
    ensures
        steady(w, letfn_walked(f, ctx, w)),
    decreases f, 18nat, 0nat,
{
    let len = f.children.len();
    let has_specs = len > 1 && f.children[1].kind == Kind::VecLit;
    let specs = f.children[1];
    let none = Binding { w, names: Seq::empty() };
    let b = if has_specs {
        lemma_letfn_names(specs, specs.children.len(), ctx, none);
        letfn_names(specs, specs.children.len(), ctx, none)
    } else {
        none
    };
    let w1 = b.w.entered(b.names, false);
    let w2 = if has_specs {
        lemma_letfn_bodies(specs, specs.children.len(), ctx, w1);
        letfn_bodies(specs, specs.children.len(), ctx, w1)
    } else {
        w1
    };
    lemma_children_walked(f, 2, len, ctx, w2);
    lemma_in_frame(b.w, b.names, false, children_walked(f, 2, len, ctx, w2));
}

proof fn lemma_letfn_names(specs: FormView, n: nat, ctx: CtxView, b: Binding)
    ensures
        steady(b.w, letfn_names(specs, n, ctx, b).w),
    decreases specs, 10nat, n,
{
    if n > 0 && n <= specs.children.len() {
        lemma_letfn_names(specs, (n - 1) as nat, ctx, b);
        let before = letfn_names(specs, (n - 1) as nat, ctx, b);
        let c = specs.children[n - 1];
        if c.kind == Kind::ListLit && c.children.len() > 0 && c.children[0].kind == Kind::SymLit {
            assert(decreases_to!(specs => specs.children[n - 1]));
            assert(decreases_to!(c => c.children[0]));
            lemma_names(c.children[0], ctx, before);
        }
    }
}

proof fn lemma_letfn_bodies(specs: FormView, n: nat, ctx: CtxView, w: WalkView)
    ensures
        steady(w, letfn_bodies(specs, n, ctx, w)),
    decreases specs, 11nat, n,
{
    if n > 0 && n <= specs.children.len() {
        lemma_letfn_bodies(specs, (n - 1) as nat, ctx, w);
        let before = letfn_bodies(specs, (n - 1) as nat, ctx, w);
        let c = specs.children[n - 1];
        if c.kind == Kind::ListLit {
            let inside = before.entered(Seq::empty(), true);
            lemma_fn_tail(c, 1, c.children.len(), ctx, inside);
            lemma_in_frame(
                before,
                Seq::empty(),
                true,
                fn_tail_walked(c, 1, c.children.len(), ctx, inside).0,
            );
        }
    }
}

proof fn lemma_names(f: FormView, ctx: CtxView, b: Binding)
    ensures
        steady(b.w, names_bound(f, ctx, b).w),
    decreases f, 16nat, 0nat,
{
    if f.kind == Kind::SymLit {
    } else if f.kind == Kind::MapLit {
        lemma_map_names(f, f.children.len() / 2, ctx, b);
    } else {
        lemma_child_names(f, f.children.len(), ctx, b);
    }
}

proof fn lemma_child_names(f: FormView, n: nat, ctx: CtxView, b: Binding)
    ensures
        steady(b.w, child_names_bound(f, n, ctx, b).w),
    decreases f, 10nat, n,
{
    if n > 0 && n <= f.children.len() {
        lemma_child_names(f, (n - 1) as nat, ctx, b);
        lemma_names(f.children[n - 1], ctx, child_names_bound(f, (n - 1) as nat, ctx, b));
    }
}

proof fn lemma_map_names(f: FormView, n: nat, ctx: CtxView, b: Binding)
    ensures
        steady(b.w, map_names_bound(f, n, ctx, b).w),
    decreases f, 10nat, n,
{
    if n > 0 && 2 * n <= f.children.len() {
        lemma_map_names(f, (n - 1) as nat, ctx, b);
        let before = map_names_bound(f, (n - 1) as nat, ctx, b);
        let k = f.children[2 * n - 2];
        let v = f.children[2 * n - 1];
        if k.kind == Kind::KwdLit {
            if k.text == ":or"@ && v.kind == Kind::MapLit {
                lemma_defaults(v, v.children.len() / 2, ctx, before.w);
            } else {
                lemma_names(v, ctx, before);
            }
        } else {
            lemma_names(k, ctx, before);
        }
    }
}

proof fn lemma_defaults(f: FormView, n: nat, ctx: CtxView, w: WalkView)
    ensures
        steady(w, defaults_walked(f, n, ctx, w)),
    decreases f, 10nat, n,
{
    if n > 0 && 2 * n <= f.children.len() {
        lemma_defaults(f, (n - 1) as nat, ctx, w);
        lemma_walked(f.children[2 * n - 1], ctx, defaults_walked(f, (n - 1) as nat, ctx, w));
    }
}

/// Walking any form leaves every frame that it enters, so the depth of the scope
/// is the same before and after.
pub proof fn law_walk_leaves_what_it_enters(f: FormView, ctx: CtxView, w: WalkView)
    ensures
        walked(f, ctx, w).scope.frames.len() == w.scope.frames.len(),
{
    lemma_walked(f, ctx, w);
}

/// At the end of a file no frame is open, so nothing keeps a binding back from
/// the report; and no reported name starts with `_`.
pub proof fn law_unused_report_is_complete_and_honours_opt_out(root: FormView, ctx: CtxView)
    ensures
        file_walked(root, ctx).scope.frames.len() == 0,
        honours_opt_out(file_walked(root, ctx).scope.unused),
{
    lemma_children_walked(
        root,
        0,
        root.children.len(),
        ctx,
        WalkView { scope: ScopeView::outside(), out: Seq::empty() },
    );
}

proof fn lemma_same_names(a: WalkView, b: WalkView, name: Seq<char>)
    requires
        steady(a, b),
    ensures
        a.scope.binds(name) <==> b.scope.binds(name),
{
    law_use_counts_for_the_innermost_binding(a.scope, name);
    law_use_counts_for_the_innermost_binding(b.scope, name);
    if a.scope.binds(name) {
        let (i, j) = choose|i: int, j: int|
            0 <= i < a.scope.frames.len() && 0 <= j < a.scope.frames[i].len() && (
            #[trigger] a.scope.frames[i][j]).name == name;
        assert(b.scope.frames[i][j].name == name);
    }
    if b.scope.binds(name) {
        let (i, j) = choose|i: int, j: int|
            0 <= i < b.scope.frames.len() && 0 <= j < b.scope.frames[i].len() && (
            #[trigger] b.scope.frames[i][j]).name == name;
        assert(grown(a.scope.frames[i], b.scope.frames[i]));
        assert(a.scope.frames[i][j].name == name);
    }
}

/// A walk forgets nothing: what was found and reported stays, and the names that are bound around a
/// form are the same before and after it.
pub proof fn law_walk_only_adds(f: FormView, ctx: CtxView, w: WalkView, name: Seq<char>)
    ensures
        w.out.is_prefix_of(walked(f, ctx, w).out),
        w.scope.unused.is_prefix_of(walked(f, ctx, w).scope.unused),
        w.scope.binds(name) <==> walked(f, ctx, w).scope.binds(name),
        forall|i: int, j: int|
            0 <= i < w.scope.frames.len() && 0 <= j < w.scope.frames[i].len()
                && w.scope.frames[i][j].used ==> (#[trigger] walked(
                f,
                ctx,
                w,
            ).scope.frames[i][j]).used,
{
    lemma_walked(f, ctx, w);
    lemma_same_names(w, walked(f, ctx, w), name);
    assert forall|i: int, j: int|
        0 <= i < w.scope.frames.len() && 0 <= j < w.scope.frames[i].len()
            && w.scope.frames[i][j].used implies (#[trigger] walked(
        f,
        ctx,
        w,
    ).scope.frames[i][j]).used by {
        assert(grown(w.scope.frames[i], walked(f, ctx, w).scope.frames[i]));
    }
}

/// What a name in a file means that no scope binds: what it was referred from, else a definition of
/// the file, else a name of the core library, else a name of the file's namespace.
pub proof fn law_bare_names_mean(name: Seq<char>, ctx: CtxView)
    requires
        ctx.meta.name.len() > 0,
    ensures
        dict_get(ctx.meta.refers, name) matches Some(fqn) ==> bare_fqn(name, ctx) == fqn,
        dict_get(ctx.meta.refers, name) is None && ctx.def_names.contains(name) ==> bare_fqn(name, ctx)
            == ctx.meta.name + "/"@ + name,
        dict_get(ctx.meta.refers, name) is None && !ctx.def_names.contains(name)
            && ctx.cfg.core_names.contains(name) ==> bare_fqn(name, ctx) == "clojure.core/"@ + name,
        dict_get(ctx.meta.refers, name) is None && !ctx.def_names.contains(name)
            && !ctx.cfg.core_names.contains(name) ==> bare_fqn(name, ctx) == ctx.meta.name + "/"@
            + name,
{
}

/// Whether a name at the head of a form is no form of the core library that binds, defines or
/// quotes.
pub open spec fn is_ordinary(head: Seq<char>) -> bool {
    &&& head != "ns"@ && head != "quote"@ && head != "letfn"@ && head != "fn"@
    &&& head != "catch"@ && head != "as->"@
    &&& head != "extend-type"@ && head != "extend-protocol"@ && head != "reify"@
    &&& def_symbol_kind(head) is None
    &&& !let_like(head)
}

/// Whether a form binds nothing and quotes nothing, so that each form in it means what it says: a
/// vector, a map, a set and the like, or an ordinary call.
pub open spec fn means_its_parts(f: FormView, ctx: CtxView) -> bool {
    if f.kind == Kind::ListLit {
        &&& f.children.len() > 0
        &&& !(f.children[0].kind == Kind::SymLit && macro_definition(
            f.children[0],
            ctx.meta,
            ctx.cfg.lint_as,
        ) is Some)
        &&& is_core_head(f.children[0], ctx) ==> is_ordinary(sym_name(f.children[0]))
    } else {
        f.kind != Kind::SymLit && f.kind != Kind::KwdLit && f.kind != Kind::QuotingLit
    }
}

/// Whether the path leads to the form, through forms that mean their parts.
pub open spec fn plainly_at(f: FormView, path: Seq<int>, ctx: CtxView, sym: FormView) -> bool
    decreases path.len(),
{
    if path.len() == 0 {
        f == sym
    } else {
        means_its_parts(f, ctx) && 0 <= path[0] < f.children.len() && plainly_at(
            f.children[path[0]],
            path.drop_first(),
            ctx,
            sym,
        )
    }
}

/// Whether the symbol or keyword at a place is a usage, and of what, where no scope binds its name.
pub open spec fn is_free_usage(sym: FormView, ctx: CtxView, w: WalkView, u: OccurrenceView) -> bool {
    if sym.kind == Kind::SymLit {
        &&& !is_placeholder(sym_name(sym))
        &&& u.name_range == sym_range(sym)
        &&& {
            ||| sym.namespace matches Some(p) && u.fqn == ctx.meta.alias_target(p.text) + "/"@
                + sym_name(sym)
            ||| sym.namespace is None && !w.scope.binds(sym_name(sym)) && u.fqn == bare_fqn(
                sym_name(sym),
                ctx,
            )
        }
    } else {
        &&& sym.kind == Kind::KwdLit
        &&& u.name_range == sym.range
        &&& keyword_name(sym, ctx.meta) == Some(u.fqn)
    }
}

proof fn lemma_child_usage_is_found(
    f: FormView,
    n: nat,
    path: Seq<int>,
    ctx: CtxView,
    w: WalkView,
    sym: FormView,
    u: OccurrenceView,
)
    requires
        path.len() > 0,
        0 <= path[0] < n <= f.children.len(),
        plainly_at(f.children[path[0]], path.drop_first(), ctx, sym),
        is_free_usage(sym, ctx, w, u),
    ensures
        children_walked(f, 0, n, ctx, w).out.contains(u),
    decreases path.len(), n,
{
    let before = children_walked(f, 0, (n - 1) as nat, ctx, w);
    let after = children_walked(f, 0, n, ctx, w);
    lemma_children_walked(f, 0, (n - 1) as nat, ctx, w);
    if path[0] < n - 1 {
        lemma_child_usage_is_found(f, (n - 1) as nat, path, ctx, w, sym, u);
        lemma_walked(f.children[n - 1], ctx, before);
        let k = before.out.index_of(u);
        assert(after.out[k] == u);
    } else {
        lemma_same_names(w, before, sym_name(sym));
        lemma_usage_is_found(f.children[n - 1], path.drop_first(), ctx, before, sym, u);
    }
}

proof fn lemma_usage_is_found(
    f: FormView,
    path: Seq<int>,
    ctx: CtxView,
    w: WalkView,
    sym: FormView,
    u: OccurrenceView,
)
    requires
        plainly_at(f, path, ctx, sym),
        is_free_usage(sym, ctx, w, u),
    ensures
        walked(f, ctx, w).out.contains(u),
    decreases path.len(), f.children.len() + 1,
{
    if path.len() == 0 {
        let after = walked(f, ctx, w).out;
        assert(after[w.out.len() as int] == u);
    } else {
        lemma_child_usage_is_found(f, f.children.len(), path, ctx, w, sym, u);
    }
}

/// A qualified symbol or a keyword, and any symbol whose name no scope binds, is found wherever it
/// stands in forms that mean their parts, however deep.
pub proof fn law_free_names_are_found(
    f: FormView,
    path: Seq<int>,
    ctx: CtxView,
    w: WalkView,
    sym: FormView,
    u: OccurrenceView,
)
    requires
        plainly_at(f, path, ctx, sym),
        is_free_usage(sym, ctx, w, u),
    ensures
        walked(f, ctx, w).out.contains(u),
{
    lemma_usage_is_found(f, path, ctx, w, sym, u);
}

/// A name that a scope binds is a use of the binding and of nothing else; quoted forms use nothing.
pub proof fn law_bound_names_are_no_usages(f: FormView, ctx: CtxView, w: WalkView)
    ensures
        f.kind == Kind::SymLit && f.namespace is None && w.scope.binds(sym_name(f)) && !is_placeholder(
            sym_name(f),
        ) ==> walked(f, ctx, w).out == w.out && walked(f, ctx, w).scope == w.scope.using(
            sym_name(f),
        ),
        f.kind == Kind::QuotingLit ==> walked(f, ctx, w) == w,
{
}

/// Whether the form that the path leads to in a binding pattern is a symbol that the pattern binds:
/// any symbol in a vector; in a map the keys that are no keywords and the values of those that are,
/// but for the defaults behind `:or`.
pub open spec fn pattern_binds(f: FormView, path: Seq<int>, b: BindingView) -> bool
    decreases path.len(),
{
    if f.kind == Kind::SymLit {
        path.len() == 0 && sym_name(f) == b.name && sym_range(f) == b.name_range && b.name != "&"@
            && b.name != "_"@
    } else if path.len() == 0 {
        false
    } else if f.kind == Kind::MapLit {
        let p = path[0] / 2;
        &&& 0 <= path[0] && 2 * p + 1 < f.children.len()
        &&& if path[0] == 2 * p {
            f.children[2 * p].kind != Kind::KwdLit
        } else {
            f.children[2 * p].kind == Kind::KwdLit && !(f.children[2 * p].text == ":or"@
                && f.children[2 * p + 1].kind == Kind::MapLit)
        }
        &&& pattern_binds(f.children[path[0]], path.drop_first(), b)
    } else {
        0 <= path[0] < f.children.len() && pattern_binds(
            f.children[path[0]],
            path.drop_first(),
            b,
        )
    }
}

proof fn lemma_step(i: int, path: Seq<int>)
    ensures
        (seq![i] + path).drop_first() == path,
        (seq![i] + path)[0] == i,
        (seq![i] + path).len() == path.len() + 1,
{
    assert((seq![i] + path).drop_first() =~= path);
}

proof fn lemma_child_pattern(f: FormView, n: nat, ctx: CtxView, into: Binding, b: BindingView)
    requires
        n <= f.children.len(),
        f.kind != Kind::SymLit && f.kind != Kind::MapLit,
    ensures
        child_names_bound(f, n, ctx, into).names.contains(b) <==> into.names.contains(b) || exists|
            path: Seq<int>,
        | path.len() > 0 && path[0] < n && #[trigger] pattern_binds(f, path, b),
    decreases f, 10nat, n,
{
    if n > 0 {
        let before = child_names_bound(f, (n - 1) as nat, ctx, into);
        let c = f.children[n - 1];
        lemma_child_pattern(f, (n - 1) as nat, ctx, into, b);
        lemma_pattern(c, ctx, before, b);
        if exists|path: Seq<int>| #[trigger] pattern_binds(c, path, b) {
            let path = choose|path: Seq<int>| #[trigger] pattern_binds(c, path, b);
            lemma_step(n - 1, path);
            assert(pattern_binds(f, seq![n - 1] + path, b));
        }
        if exists|path: Seq<int>|
            path.len() > 0 && path[0] < n && #[trigger] pattern_binds(f, path, b) {
            let path = choose|path: Seq<int>|
                path.len() > 0 && path[0] < n && #[trigger] pattern_binds(f, path, b);
            if path[0] == n - 1 {
                assert(pattern_binds(c, path.drop_first(), b));
            } else {
                assert(before.names.contains(b));
            }
        }
    }
}

proof fn lemma_map_pattern(f: FormView, n: nat, ctx: CtxView, into: Binding, b: BindingView)
    requires
        2 * n <= f.children.len(),
        f.kind == Kind::MapLit,
    ensures
        map_names_bound(f, n, ctx, into).names.contains(b) <==> into.names.contains(b) || exists|
            path: Seq<int>,
        | path.len() > 0 && path[0] < 2 * n && #[trigger] pattern_binds(f, path, b),
    decreases f, 10nat, n,
{
    if n > 0 {
        let before = map_names_bound(f, (n - 1) as nat, ctx, into);
        let k = f.children[2 * n - 2];
        let v = f.children[2 * n - 1];
        lemma_map_pattern(f, (n - 1) as nat, ctx, into, b);
        let by_value = k.kind == Kind::KwdLit;
        let i = if by_value {
            2 * n - 1
        } else {
            2 * n - 2
        };
        let c = f.children[i];
        let counts = !(by_value && k.text == ":or"@ && v.kind == Kind::MapLit);
        assert(i / 2 == n - 1);
        assert((2 * n - 1) / 2 == n - 1 && (2 * n - 2) / 2 == n - 1);
        if counts {
            lemma_pattern(c, ctx, before, b);
            if exists|path: Seq<int>| #[trigger] pattern_binds(c, path, b) {
                let path = choose|path: Seq<int>| #[trigger] pattern_binds(c, path, b);
                lemma_step(i, path);
                assert(pattern_binds(f, seq![i] + path, b));
            }
        }
        if exists|path: Seq<int>|
            path.len() > 0 && path[0] < 2 * n && #[trigger] pattern_binds(f, path, b) {
            let path = choose|path: Seq<int>|
                path.len() > 0 && path[0] < 2 * n && #[trigger] pattern_binds(f, path, b);
            if path[0] < 2 * n - 2 {
                assert(before.names.contains(b));
            } else {
                assert(path[0] == i && counts);
                assert(pattern_binds(c, path.drop_first(), b));
            }
        }
        if exists|path: Seq<int>|
            path.len() > 0 && path[0] < 2 * n - 2 && #[trigger] pattern_binds(f, path, b) {
            let path = choose|path: Seq<int>|
                path.len() > 0 && path[0] < 2 * n - 2 && #[trigger] pattern_binds(f, path, b);
            assert(pattern_binds(f, path, b));
        }
    }
}

proof fn lemma_pattern(f: FormView, ctx: CtxView, into: Binding, b: BindingView)
    ensures
        names_bound(f, ctx, into).names.contains(b) <==> into.names.contains(b) || exists|
            path: Seq<int>,
        | #[trigger] pattern_binds(f, path, b),
    decreases f, 16nat, 0nat,
{
    if f.kind == Kind::SymLit {
        crate::sort::lemma_push_contains(
            into.names,
            BindingView { name: sym_name(f), name_range: sym_range(f) },
            b,
        );
        let none: Seq<int> = Seq::empty();
        assert(pattern_binds(f, none, b) <==> sym_name(f) == b.name && sym_range(f) == b.name_range
            && b.name != "&"@ && b.name != "_"@);
    } else if f.kind == Kind::MapLit {
        lemma_map_pattern(f, f.children.len() / 2, ctx, into, b);
        assert forall|path: Seq<int>| #[trigger] pattern_binds(f, path, b) implies path.len() > 0
            && path[0] < 2 * (f.children.len() / 2) by {}
    } else {
        lemma_child_pattern(f, f.children.len(), ctx, into, b);
    }
}

/// A binding pattern binds exactly the symbols in it that stand for names: nested vectors and maps
/// are taken apart, and `&`, `_` and the defaults of a map bind nothing.
pub proof fn law_pattern_binds_its_names(f: FormView, ctx: CtxView, w: WalkView, b: BindingView)
    ensures
        names_bound(f, ctx, Binding { w, names: Seq::empty() }).names.contains(b) <==> exists|
            path: Seq<int>,
        | #[trigger] pattern_binds(f, path, b),
{
    lemma_pattern(f, ctx, Binding { w, names: Seq::empty() }, b);
}

proof fn lemma_binding_binds(s: ScopeView, names: Seq<BindingView>, lintable: bool, name: Seq<char>)
    requires
        s.frames.len() > 0,
    ensures
        s.binding(names, lintable).binds(name) <==> s.binds(name) || exists|i: int|
            0 <= i < names.len() && (#[trigger] names[i]).name == name,
{
    let t = s.binding(names, lintable);
    law_use_counts_for_the_innermost_binding(s, name);
    law_use_counts_for_the_innermost_binding(t, name);
    let last = s.frames.len() - 1;
    let old_len = s.frames[last].len() as int;
    if s.binds(name) {
        let (i, j) = choose|i: int, j: int|
            0 <= i < s.frames.len() && 0 <= j < s.frames[i].len() && (#[trigger] s.frames[i][j]).name
                == name;
        assert(t.frames[i][j].name == name);
    }
    if exists|i: int| 0 <= i < names.len() && (#[trigger] names[i]).name == name {
        let i = choose|i: int| 0 <= i < names.len() && (#[trigger] names[i]).name == name;
        assert(t.frames[last][old_len + i].name == name);
    }
    if t.binds(name) {
        let (i, j) = choose|i: int, j: int|
            0 <= i < t.frames.len() && 0 <= j < t.frames[i].len() && (#[trigger] t.frames[i][j]).name
                == name;
        if i < last || j < old_len {
            assert(s.frames[i][j].name == name);
        } else {
            assert(names[j - old_len].name == name);
        }
    }
}

/// Whether the pair that the path starts with binds the name, in its pattern or, behind `:let`, in
/// one of the pairs of its vector.
pub open spec fn pair_binds(f: FormView, path: Seq<int>, name: Seq<char>) -> bool
    decreases path.len(),
{
    if path.len() == 0 {
        false
    } else {
        let k = path[0];
        &&& 0 <= k && 2 * k + 1 < f.children.len()
        &&& if f.children[2 * k].kind == Kind::KwdLit {
            &&& f.children[2 * k].text == ":let"@ && f.children[2 * k + 1].kind == Kind::VecLit
            &&& pair_binds(f.children[2 * k + 1], path.drop_first(), name)
        } else {
            exists|b: BindingView|
                b.name == name && #[trigger] pattern_binds(
                    f.children[2 * k],
                    path.drop_first(),
                    b,
                )
        }
    }
}

proof fn lemma_pairs_bind(f: FormView, n: nat, ctx: CtxView, w: WalkView, name: Seq<char>)
    requires
        2 * n <= f.children.len(),
        w.scope.frames.len() > 0,
    ensures
        pairs_walked(f, n, ctx, w).scope.binds(name) <==> w.scope.binds(name) || exists|
            path: Seq<int>,
        | path.len() > 0 && path[0] < n && #[trigger] pair_binds(f, path, name),
    decreases f, 10nat, n,
{
    if n > 0 {
        let before = pairs_walked(f, (n - 1) as nat, ctx, w);
        let after = pairs_walked(f, n, ctx, w);
        let lhs = f.children[2 * n - 2];
        let rhs = f.children[2 * n - 1];
        let k = n - 1;
        lemma_pairs_bind(f, (n - 1) as nat, ctx, w, name);
        lemma_pairs(f, (n - 1) as nat, ctx, w);
        if lhs.kind == Kind::KwdLit {
            if lhs.text == ":let"@ && rhs.kind == Kind::VecLit {
                lemma_pairs_bind(rhs, rhs.children.len() / 2, ctx, before, name);
                if exists|path: Seq<int>| #[trigger] pair_binds(rhs, path, name) {
                    let path = choose|path: Seq<int>| #[trigger] pair_binds(rhs, path, name);
                    lemma_step(k, path);
                    assert(pair_binds(f, seq![k] + path, name));
                    assert(path[0] < rhs.children.len() / 2);
                }
            } else {
                lemma_walked(rhs, ctx, before);
                lemma_same_names(before, after, name);
            }
        } else {
            let none = Binding { w: walked(rhs, ctx, before), names: Seq::empty() };
            let b = names_bound(lhs, ctx, none);
            lemma_walked(rhs, ctx, before);
            lemma_names(lhs, ctx, none);
            lemma_same_names(before, none.w, name);
            lemma_same_names(none.w, b.w, name);
            lemma_binding_binds(b.w.scope, b.names, true, name);
            if exists|i: int| 0 <= i < b.names.len() && (#[trigger] b.names[i]).name == name {
                let i = choose|i: int| 0 <= i < b.names.len() && (#[trigger] b.names[i]).name == name;
                lemma_pattern(lhs, ctx, none, b.names[i]);
                let path = choose|path: Seq<int>| #[trigger] pattern_binds(lhs, path, b.names[i]);
                lemma_step(k, path);
                assert(pair_binds(f, seq![k] + path, name));
            }
            if exists|path: Seq<int>, x: BindingView|
                x.name == name && #[trigger] pattern_binds(lhs, path, x) {
                let (path, x) = choose|path: Seq<int>, x: BindingView|
                    x.name == name && #[trigger] pattern_binds(lhs, path, x);
                lemma_pattern(lhs, ctx, none, x);
                assert(b.names[b.names.index_of(x)].name == name);
            }
        }
        if exists|path: Seq<int>|
            path.len() > 0 && path[0] < n && #[trigger] pair_binds(f, path, name) {
            let path = choose|path: Seq<int>|
                path.len() > 0 && path[0] < n && #[trigger] pair_binds(f, path, name);
            if path[0] < n - 1 {
                assert(before.scope.binds(name));
            } else {
                if lhs.kind == Kind::KwdLit {
                    let rest = path.drop_first();
                    assert(pair_binds(rhs, rest, name));
                    assert(rest[0] < rhs.children.len() / 2);
                } else {
                    let x = choose|x: BindingView|
                        x.name == name && #[trigger] pattern_binds(lhs, path.drop_first(), x);
                    assert(pattern_binds(lhs, path.drop_first(), x));
                }
            }
        }
    }
}

/// The forms of the core library that bind like `let` are none of the others.
proof fn lemma_let_like_names(head: Seq<char>)
    requires
        let_like(head),
    ensures
        head != "ns"@,
        head != "quote"@,
        head != "letfn"@,
        def_symbol_kind(head) is None,
{
    reveal_strlit("let");
    reveal_strlit("loop");
    reveal_strlit("for");
    reveal_strlit("doseq");
    reveal_strlit("when-let");
    reveal_strlit("if-let");
    reveal_strlit("when-some");
    reveal_strlit("if-some");
    reveal_strlit("with-open");
    reveal_strlit("dotimes");
    reveal_strlit("ns");
    reveal_strlit("quote");
    reveal_strlit("letfn");
    reveal_strlit("def");
    reveal_strlit("defonce");
    reveal_strlit("defn");
    reveal_strlit("defn-");
    reveal_strlit("defmacro");
    reveal_strlit("defmulti");
    reveal_strlit("defmethod");
    reveal_strlit("defprotocol");
    reveal_strlit("defrecord");
    reveal_strlit("deftype");
    assert(head.len() > 2 && (head[0] != 'd' || head[1] != 'e'));
    assert(head[0] != 'q');
    assert(!(head.len() == 5 && head[0] == 'l'));
}

/// Whether a form is a call of a name of the core library, written bare or qualified, that no
/// configured macro takes over.
pub open spec fn is_core_form(f: FormView, ctx: CtxView) -> bool {
    &&& f.kind == Kind::ListLit
    &&& f.children.len() > 0
    &&& is_core_head(f.children[0], ctx)
    &&& macro_definition(f.children[0], ctx.meta, ctx.cfg.lint_as) is None
}

/// In the body of a `let` the names of its vector are local: a symbol there of such a name is no usage
/// of anything else, and one of a name that nothing binds is a usage of what it means.
pub proof fn law_let_names_are_local(f: FormView, ctx: CtxView, w: WalkView)
    requires
        is_core_form(f, ctx),
        let_like(sym_name(f.children[0])),
        f.children.len() == 3,
        f.children[1].kind == Kind::VecLit,
        f.children[2].kind == Kind::SymLit,
        f.children[2].namespace is None,
        !is_placeholder(sym_name(f.children[2])),
    ensures
        ({
            let name = sym_name(f.children[2]);
            let vector = pairs_walked(
                f.children[1],
                f.children[1].children.len() / 2,
                ctx,
                symbol_used(f.children[0], ctx, w).entered(Seq::empty(), true),
            );
            let usage = OccurrenceView {
                fqn: bare_fqn(name, ctx),
                name_range: sym_range(f.children[2]),
            };
            &&& w.scope.binds(name) || (exists|path: Seq<int>| #[trigger]
                pair_binds(f.children[1], path, name)) ==> walked(f, ctx, w).out == vector.out
            &&& !w.scope.binds(name) && !(exists|path: Seq<int>| #[trigger]
                pair_binds(f.children[1], path, name)) ==> walked(f, ctx, w).out == vector.out.push(
                usage,
            )
        }),
{
    let name = sym_name(f.children[2]);
    lemma_let_like_names(sym_name(f.children[0]));
    let used = symbol_used(f.children[0], ctx, w);
    let inside = used.entered(Seq::empty(), true);
    let v = f.children[1];
    let n = v.children.len() / 2;
    let vector = pairs_walked(v, n, ctx, inside);
    lemma_symbol(f.children[0], ctx, w);
    lemma_same_names(w, used, name);
    lemma_entered_binds(used.scope, Seq::empty(), true, name);
    lemma_pairs_bind(v, n, ctx, inside, name);
    reveal_with_fuel(children_walked, 2);
    assert forall|path: Seq<int>| #[trigger] pair_binds(v, path, name) implies path.len() > 0
        && path[0] < n by {}
    assert(children_walked(f, 2, 3, ctx, vector) == walked(f.children[2], ctx, vector));
    assert(walked(f, ctx, w) == let_walked(f, ctx, used));
}

proof fn lemma_entered_binds(s: ScopeView, names: Seq<BindingView>, lintable: bool, name: Seq<char>)
    ensures
        s.entered().binding(names, lintable).binds(name) <==> s.binds(name) || exists|i: int|
            0 <= i < names.len() && (#[trigger] names[i]).name == name,
{
    let t = s.entered();
    lemma_binding_binds(t, names, lintable, name);
    law_use_counts_for_the_innermost_binding(s, name);
    law_use_counts_for_the_innermost_binding(t, name);
    if s.binds(name) {
        let (i, j) = choose|i: int, j: int|
            0 <= i < s.frames.len() && 0 <= j < s.frames[i].len() && (#[trigger] s.frames[i][j]).name
                == name;
        assert(t.frames[i][j].name == name);
    }
    if t.binds(name) {
        let (i, j) = choose|i: int, j: int|
            0 <= i < t.frames.len() && 0 <= j < t.frames[i].len() && (#[trigger] t.frames[i][j]).name
                == name;
        assert(s.frames[i][j].name == name);
    }
}

proof fn lemma_pattern_names(f: FormView, ctx: CtxView, w: WalkView, name: Seq<char>)
    ensures
        ({
            let b = names_bound(f, ctx, Binding { w, names: Seq::empty() });
            (exists|i: int| 0 <= i < b.names.len() && (#[trigger] b.names[i]).name == name)
                <==> exists|path: Seq<int>, x: BindingView|
                x.name == name && #[trigger] pattern_binds(f, path, x)
        }),
{
    let none = Binding { w, names: Seq::empty() };
    let b = names_bound(f, ctx, none);
    if exists|i: int| 0 <= i < b.names.len() && (#[trigger] b.names[i]).name == name {
        let i = choose|i: int| 0 <= i < b.names.len() && (#[trigger] b.names[i]).name == name;
        lemma_pattern(f, ctx, none, b.names[i]);
        let path = choose|path: Seq<int>| #[trigger] pattern_binds(f, path, b.names[i]);
        assert(pattern_binds(f, path, b.names[i]));
    }
    if exists|path: Seq<int>, x: BindingView|
        x.name == name && #[trigger] pattern_binds(f, path, x) {
        let (path, x) = choose|path: Seq<int>, x: BindingView|
            x.name == name && #[trigger] pattern_binds(f, path, x);
        lemma_pattern(f, ctx, none, x);
        assert(b.names[b.names.index_of(x)].name == name);
    }
}

/// In the body of a function its parameters are local, whether the function has a name or not and
/// whether it has one arity or many.
pub proof fn law_parameters_are_local(f: FormView, kind: DefKind, ctx: CtxView, w: WalkView)
    requires
        kind == DefKind::Defn || kind == DefKind::DefnPrivate || kind == DefKind::Defmacro,
        f.children.len() == 4,
        f.children[2].kind == Kind::VecLit,
        f.children[3].kind == Kind::SymLit,
        f.children[3].namespace is None,
        !is_placeholder(sym_name(f.children[3])),
    ensures
        ({
            let name = sym_name(f.children[3]);
            let params = names_bound(f.children[2], ctx, Binding { w, names: Seq::empty() });
            let usage = OccurrenceView {
                fqn: bare_fqn(name, ctx),
                name_range: sym_range(f.children[3]),
            };
            &&& w.scope.binds(name) || (exists|path: Seq<int>, x: BindingView|
                x.name == name && #[trigger] pattern_binds(f.children[2], path, x)) ==> def_walked(
                kind,
                f,
                ctx,
                w,
            ).out == params.w.out
            &&& !w.scope.binds(name) && !(exists|path: Seq<int>, x: BindingView|
                x.name == name && #[trigger] pattern_binds(f.children[2], path, x)) ==> def_walked(
                kind,
                f,
                ctx,
                w,
            ).out == params.w.out.push(usage)
        }),
{
    let name = sym_name(f.children[3]);
    let none = Binding { w, names: Seq::empty() };
    let b = names_bound(f.children[2], ctx, none);
    reveal_with_fuel(def_tail_walked, 3);
    lemma_names(f.children[2], ctx, none);
    lemma_same_names(w, b.w, name);
    lemma_entered_binds(b.w.scope, b.names, true, name);
    lemma_pattern_names(f.children[2], ctx, w, name);
    assert(def_tail_walked(f, 2, 3, ctx, w) == (b.w.entered(b.names, true), true));
    assert(def_tail_walked(f, 2, 4, ctx, w).0 == walked(
        f.children[3],
        ctx,
        b.w.entered(b.names, true),
    ));
}

/// In the body of an arity its parameters are local.
pub proof fn law_parameters_of_an_arity_are_local(
    f: FormView,
    lintable: bool,
    ctx: CtxView,
    w: WalkView,
)
    requires
        f.children.len() == 2,
        f.children[1].kind == Kind::SymLit,
        f.children[1].namespace is None,
        !is_placeholder(sym_name(f.children[1])),
    ensures
        ({
            let name = sym_name(f.children[1]);
            let params = names_bound(f.children[0], ctx, Binding { w, names: Seq::empty() });
            let usage = OccurrenceView {
                fqn: bare_fqn(name, ctx),
                name_range: sym_range(f.children[1]),
            };
            &&& w.scope.binds(name) || (exists|path: Seq<int>, x: BindingView|
                x.name == name && #[trigger] pattern_binds(f.children[0], path, x)) ==> arity_walked(
                f,
                lintable,
                ctx,
                w,
            ).out == params.w.out
            &&& !w.scope.binds(name) && !(exists|path: Seq<int>, x: BindingView|
                x.name == name && #[trigger] pattern_binds(f.children[0], path, x)) ==> arity_walked(
                f,
                lintable,
                ctx,
                w,
            ).out == params.w.out.push(usage)
        }),
{
    let name = sym_name(f.children[1]);
    let none = Binding { w, names: Seq::empty() };
    let b = names_bound(f.children[0], ctx, none);
    reveal_with_fuel(children_walked, 2);
    lemma_names(f.children[0], ctx, none);
    lemma_same_names(w, b.w, name);
    lemma_entered_binds(b.w.scope, b.names, lintable, name);
    lemma_pattern_names(f.children[0], ctx, w, name);
    let inside = b.w.entered(b.names, lintable);
    assert(children_walked(f, 1, 2, ctx, inside) == walked(f.children[1], ctx, inside));
}

/// A local that a `let` binds to one value is reported where the body does not use it, and not
/// where it does.
pub proof fn law_unused_local_is_reported(f: FormView, ctx: CtxView, w: WalkView)
    requires
        is_core_form(f, ctx),
        let_like(sym_name(f.children[0])),
        f.children.len() == 3,
        f.children[1].kind == Kind::VecLit,
        f.children[1].children.len() == 2,
        f.children[1].children[0].kind == Kind::SymLit,
        sym_name(f.children[1].children[0]) != "&"@,
        sym_name(f.children[1].children[0]) != "_"@,
        f.children[2].kind == Kind::SymLit,
        f.children[2].namespace is None,
        !is_placeholder(sym_name(f.children[2])),
    ensures
        ({
            let local = BindingView {
                name: sym_name(f.children[1].children[0]),
                name_range: sym_range(f.children[1].children[0]),
            };
            let before = walked(
                f.children[1].children[1],
                ctx,
                symbol_used(f.children[0], ctx, w).entered(Seq::empty(), true),
            ).scope.unused;
            if sym_name(f.children[2]) == local.name || (local.name.len() > 0 && local.name[0]
                == '_') {
                walked(f, ctx, w).scope.unused == before
            } else {
                walked(f, ctx, w).scope.unused == before.push(local)
            }
        }),
{
    let name = sym_name(f.children[2]);
    lemma_let_like_names(sym_name(f.children[0]));
    let used = symbol_used(f.children[0], ctx, w);
    let inside = used.entered(Seq::empty(), true);
    let v = f.children[1];
    let lhs = v.children[0];
    let rhs = v.children[1];
    let local = BindingView { name: sym_name(lhs), name_range: sym_range(lhs) };
    let mid = walked(rhs, ctx, inside);
    lemma_walked(rhs, ctx, inside);
    reveal_with_fuel(children_walked, 2);
    reveal_with_fuel(pairs_walked, 2);
    let b = names_bound(lhs, ctx, Binding { w: mid, names: Seq::empty() });
    assert(b.w == mid && b.names =~= seq![local]);
    let vector = pairs_walked(v, 1, ctx, inside);
    assert(lhs.kind != Kind::KwdLit);
    assert(v.children.len() / 2 == 1);
    assert(pairs_walked(v, 0, ctx, inside) == inside);
    assert(vector == mid.binding(b.names, true));
    let end = walked(f.children[2], ctx, vector);
    assert(children_walked(f, 2, 3, ctx, vector) == end);
    assert(walked(f, ctx, w) == let_walked(f, ctx, used));
    assert(walked(f, ctx, w) == end.left());
    let depth = used.scope.frames.len() as int;
    assert(inside.scope.frames.len() == depth + 1 && inside.scope.frames.last().len() == 0);
    assert(mid.scope.frames.last().len() == 0);
    let slot = SlotView {
        name: local.name,
        name_range: local.name_range,
        used: false,
        lintable: true,
    };
    assert(vector.scope.frames.last() =~= seq![slot]);
    law_use_counts_for_the_innermost_binding(vector.scope, name);
    let frame = end.scope.frames.last();
    assert(frame.len() == 1);
    reveal_with_fuel(harvest, 2);
    let last = vector.scope.frames;
    assert(last[depth][0] == slot);
    if name == local.name {
        assert(stands_innermost(last, name, depth, 0));
        assert(vector.scope.binds(name));
        assert(vector.scope.using(name).frames[depth][0].used);
    } else {
        assert(!stands_innermost(last, name, depth, 0));
        if vector.scope.binds(name) {
            assert(!vector.scope.using(name).frames[depth][0].used);
        }
    }
    assert(frame[0].name == local.name && frame[0].name_range == local.name_range
        && frame[0].lintable);
    assert(end.scope.unused == mid.scope.unused);
    if frame[0].reported() {
        assert(harvest(frame, 1) =~= seq![local]);
    } else {
        assert(harvest(frame, 1) =~= Seq::empty());
    }
}

}
