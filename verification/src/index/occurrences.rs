//! The walk that resolves every name used in a file, and finds the locals that
//! nothing uses.

use vstd::prelude::*;
use crate::collect::{contains_str, dict_get, push_item, strs};
use crate::index::definitions::{
    init_key_fqn, init_key_name, macro_def_kind, macro_definition,
};
use crate::index::extractor::{
    in_ns, keyword_fqn, keyword_name, name_in_ns, qualify, sym_name, sym_name_range, sym_range,
    sym_text,
};
use crate::index::model::{
    def_symbol_kind, DefKind, ExtractConfig, ExtractConfigView, NsMeta, NsMetaView, Occurrence,
    OccurrenceView,
};
use crate::index::scope::{BindingView, LocalBinding, Scope, ScopeView};
use crate::syntax::{lemma_children, Form, FormView, Kind};
use crate::text::{concat3, rsplit_once, split_last, starts_with_char, str_eq};

verus! {

broadcast use lemma_children;

/// What names are resolved against: the file's namespace, the names that it
/// defines, and the configuration.
pub struct OccurrenceCtx<'a> {
    pub ns_meta: &'a NsMeta,
    pub def_names: Vec<String>,
    pub cfg: &'a ExtractConfig,
}

/// What an [`OccurrenceCtx`] says.
pub ghost struct CtxView {
    pub meta: NsMetaView,
    pub def_names: Seq<Seq<char>>,
    pub cfg: ExtractConfigView,
}

impl<'a> View for OccurrenceCtx<'a> {
    type V = CtxView;

    open spec fn view(&self) -> CtxView {
        CtxView {
            meta: self.ns_meta.deep_view(),
            def_names: strs(self.def_names@),
            cfg: self.cfg.deep_view(),
        }
    }
}

/// A walk under way: the scope that it is in, and the usages found.
pub struct Walk {
    pub scope: Scope,
    pub out: Vec<Occurrence>,
}

/// What a [`Walk`] says.
pub ghost struct WalkView {
    pub scope: ScopeView,
    pub out: Seq<OccurrenceView>,
}

impl View for Walk {
    type V = WalkView;

    open spec fn view(&self) -> WalkView {
        WalkView { scope: self.scope@, out: self.out.deep_view() }
    }
}

impl WalkView {
    /// With one more usage found.
    pub open spec fn found(self, fqn: Seq<char>, name_range: crate::lsp::Range) -> WalkView {
        WalkView { out: self.out.push(OccurrenceView { fqn, name_range }), ..self }
    }

    /// With a frame entered that holds `bindings`.
    pub open spec fn entered(self, bindings: Seq<BindingView>, lintable: bool) -> WalkView {
        WalkView { scope: self.scope.entered().binding(bindings, lintable), ..self }
    }

    /// With `bindings` in the innermost frame.
    pub open spec fn binding(self, bindings: Seq<BindingView>, lintable: bool) -> WalkView {
        WalkView { scope: self.scope.binding(bindings, lintable), ..self }
    }

    /// With the innermost frame left.
    pub open spec fn left(self) -> WalkView {
        WalkView { scope: self.scope.left(), ..self }
    }
}

impl Walk {
    fn record(&mut self, fqn: String, name_range: crate::lsp::Range)
        ensures
            final(self)@ == old(self)@.found(fqn@, name_range),
    {
        push_item(&mut self.out, Occurrence { fqn, name_range });
    }

    fn enter(&mut self, bindings: Vec<LocalBinding>, lintable: bool)
        ensures
            final(self)@ == old(self)@.entered(bindings.deep_view(), lintable),
    {
        self.scope.push();
        self.scope.bind_all(bindings, lintable);
    }

    fn bind(&mut self, bindings: Vec<LocalBinding>, lintable: bool)
        ensures
            final(self)@ == old(self)@.binding(bindings.deep_view(), lintable),
    {
        self.scope.bind_all(bindings, lintable);
    }

    fn leave(&mut self)
        ensures
            final(self)@ == old(self)@.left(),
    {
        self.scope.pop();
    }
}

// --- single names -----------------------------------------------------------

/// The name that an unqualified, unbound symbol stands for: a referred name, one
/// of the file's own, a core name, else one of the file's namespace.
pub open spec fn bare_fqn(name: Seq<char>, ctx: CtxView) -> Seq<char> {
    if dict_get(ctx.meta.refers, name) is Some {
        dict_get(ctx.meta.refers, name)->0
    } else if ctx.def_names.contains(name) {
        in_ns(ctx.meta.name, name)
    } else if ctx.cfg.core_names.contains(name) {
        "clojure.core/"@ + name
    } else {
        in_ns(ctx.meta.name, name)
    }
}

/// Whether a name is no name of anything: `&`, `_`, and the arguments `%`, `%1`, …
pub open spec fn is_placeholder(name: Seq<char>) -> bool {
    name == "&"@ || name == "_"@ || (name.len() > 0 && name[0] == '%')
}

/// What a symbol adds to a walk: a usage of the var that it stands for, or, of
/// a local, that the local is used.
pub open spec fn symbol_used(f: FormView, ctx: CtxView, w: WalkView) -> WalkView {
    let name = sym_name(f);
    if is_placeholder(name) {
        w
    } else if f.namespace is Some {
        w.found(qualify(ctx.meta.alias_target(f.namespace->0.text), name), sym_range(f))
    } else if w.scope.binds(name) {
        WalkView { scope: w.scope.using(name), ..w }
    } else {
        w.found(bare_fqn(name, ctx), sym_range(f))
    }
}

fn resolve_bare(name: &str, ctx: &OccurrenceCtx) -> (r: String)
    ensures
        r@ == bare_fqn(name@, ctx@),
{
    if let Some(fqn) = ctx.ns_meta.refers.get(name) {
        return fqn.clone();
    }
    if contains_str(&ctx.def_names, name) {
        name_in_ns(ctx.ns_meta.name.as_str(), name)
    } else if contains_str(&ctx.cfg.core_names, name) {
        crate::text::concat2("clojure.core/", name)
    } else {
        name_in_ns(ctx.ns_meta.name.as_str(), name)
    }
}

fn record_occurrence(f: &Form, ctx: &OccurrenceCtx, w: &mut Walk)
    ensures
        final(w)@ == symbol_used(f@, ctx@, old(w)@),
{
    let name = sym_text(f);
    if str_eq(name, "&") || str_eq(name, "_") || starts_with_char(name, '%') {
        return;
    }
    if let Some(p) = &f.namespace {
        let fqn = concat3(ctx.ns_meta.resolve_alias(p.text.as_str()), "/", name);
        w.record(fqn, sym_name_range(f));
        return;
    }
    if w.scope.mark_used(name) {
        return;
    }
    w.record(resolve_bare(name, ctx), sym_name_range(f));
}

/// What a keyword adds to a walk: a usage, where it is qualified.
pub open spec fn keyword_used(f: FormView, ctx: CtxView, w: WalkView) -> WalkView {
    match keyword_name(f, ctx.meta) {
        Some(fqn) => w.found(fqn, f.range),
        None => w,
    }
}

fn record_keyword_occurrence(f: &Form, ctx: &OccurrenceCtx, w: &mut Walk)
    ensures
        final(w)@ == keyword_used(f@, ctx@, old(w)@),
{
    if let Some(fqn) = keyword_fqn(f, ctx.ns_meta) {
        w.record(fqn, f.range);
    }
}

/// Whether the head of a list names a core form: it is unqualified, or qualified
/// to `clojure.core`, directly or through an alias. So `clojure.core/let` binds,
/// and `s/def` is no `def`.
pub open spec fn is_core_head(head: FormView, ctx: CtxView) -> bool {
    head.kind == Kind::SymLit && (head.namespace matches Some(p) ==> ctx.meta.alias_target(p.text)
        == "clojure.core"@)
}

fn head_is_core_form(head: &Form, ctx: &OccurrenceCtx) -> (r: bool)
    ensures
        r == is_core_head(head@, ctx@),
{
    if head.kind != Kind::SymLit {
        return false;
    }
    match &head.namespace {
        None => true,
        Some(p) => str_eq(ctx.ns_meta.resolve_alias(p.text.as_str()), "clojure.core"),
    }
}

/// Whether a core form takes a vector of `[pattern expr …]` pairs first.
/// `binding` and `with-redefs` rebind vars: what they name is used, not bound.
pub open spec fn let_like(head: Seq<char>) -> bool {
    head == "let"@ || head == "loop"@ || head == "for"@ || head == "doseq"@ || head == "when-let"@
        || head == "if-let"@ || head == "when-some"@ || head == "if-some"@ || head == "with-open"@
        || head == "dotimes"@
}

/// Whether a core form takes a vector of `[pattern expr …]` pairs first.
pub fn is_let_like(head: &str) -> (r: bool)
    ensures
        r == let_like(head@),
{
    str_eq(head, "let") || str_eq(head, "loop") || str_eq(head, "for") || str_eq(head, "doseq")
        || str_eq(head, "when-let") || str_eq(head, "if-let") || str_eq(head, "when-some")
        || str_eq(head, "if-some") || str_eq(head, "with-open") || str_eq(head, "dotimes")
}

/// Whether a list is one arity of a function: `([params] body…)`.
pub open spec fn is_arity(f: FormView) -> bool {
    f.kind == Kind::ListLit && f.children.len() > 0 && f.children[0].kind == Kind::VecLit
}

/// Whether a list is one arity of a function: `([params] body…)`.
pub fn arity_body(f: &Form) -> (r: bool)
    ensures
        r == is_arity(f@),
{
    f.kind == Kind::ListLit && f.children.len() > 0 && f.children[0].kind == Kind::VecLit
}

/// The namespace in which the methods of the protocol `sym` live: through an
/// alias, that of a referred name, or the file's own where the file defines it.
/// `None` for interfaces and `Object`.
pub open spec fn protocol_home(sym: FormView, ctx: CtxView) -> Option<Seq<char>> {
    match sym.namespace {
        Some(p) => Some(ctx.meta.alias_target(p.text)),
        None => match dict_get(ctx.meta.refers, sym_name(sym)) {
            Some(fqn) => match split_last(fqn, '/') {
                Some((ns, _)) => Some(ns),
                None => None,
            },
            None => if ctx.def_names.contains(sym_name(sym)) {
                Some(ctx.meta.name)
            } else {
                None
            },
        },
    }
}

fn protocol_ns(sym: &Form, ctx: &OccurrenceCtx) -> (r: Option<String>)
    ensures
        r.deep_view() == protocol_home(sym@, ctx@),
{
    if let Some(p) = &sym.namespace {
        return Some(ctx.ns_meta.resolve_alias(p.text.as_str()).to_owned());
    }
    let name = sym_text(sym);
    if let Some(fqn) = ctx.ns_meta.refers.get(name) {
        return match rsplit_once(fqn.as_str(), '/') {
            Some((ns, _)) => Some(ns),
            None => None,
        };
    }
    if contains_str(&ctx.def_names, name) {
        Some(ctx.ns_meta.name.clone())
    } else {
        None
    }
}

// --- names in an ns form ----------------------------------------------------

/// The usages that the first `n` names of a `:refer` vector make.
pub open spec fn referred(names: FormView, n: nat, ns: Seq<char>) -> Seq<OccurrenceView>
    decreases n,
{
    if n == 0 || n > names.children.len() {
        Seq::empty()
    } else {
        let before = referred(names, (n - 1) as nat, ns);
        let sym = names.children[n - 1];
        if sym.kind == Kind::SymLit {
            before.push(
                OccurrenceView { fqn: qualify(ns, sym_name(sym)), name_range: sym_range(sym) },
            )
        } else {
            before
        }
    }
}

/// The usages that the `:refer` options of a libspec from child `i` on make.
pub open spec fn libspec_referred(spec: FormView, i: nat, ns: Seq<char>) -> Seq<OccurrenceView>
    decreases spec.children.len() - i,
{
    if i >= spec.children.len() {
        Seq::empty()
    } else {
        let item = spec.children[i as int];
        if item.kind == Kind::KwdLit && item.text == ":refer"@ && i + 1 < spec.children.len() {
            let here = if spec.children[i as int + 1].kind == Kind::VecLit {
                referred(
                    spec.children[i as int + 1],
                    spec.children[i as int + 1].children.len(),
                    ns,
                )
            } else {
                Seq::empty()
            };
            here + libspec_referred(spec, i + 2, ns)
        } else {
            libspec_referred(spec, i + 1, ns)
        }
    }
}

/// The usages that a libspec vector makes.
pub open spec fn spec_referred(spec: FormView) -> Seq<OccurrenceView> {
    if spec.kind == Kind::VecLit && spec.children.len() > 0 && spec.children[0].kind
        == Kind::SymLit {
        libspec_referred(spec, 1, sym_name(spec.children[0]))
    } else {
        Seq::empty()
    }
}

/// The usages that the specs of a clause from child 1 up to `n` make.
pub open spec fn clause_referred(clause: FormView, n: nat) -> Seq<OccurrenceView>
    decreases n,
{
    if n <= 1 || n > clause.children.len() {
        Seq::empty()
    } else {
        clause_referred(clause, (n - 1) as nat) + spec_referred(clause.children[n - 1])
    }
}

/// Whether a clause of an `ns` form is a `(:require …)`.
pub open spec fn is_require_clause(clause: FormView) -> bool {
    clause.kind == Kind::ListLit && clause.children.len() > 0 && clause.children[0].kind
        == Kind::KwdLit && clause.children[0].text == ":require"@
}

/// The usages that the `(:require …)` clauses among the children from 2 up to
/// `n` make: each referred name, so that a rename reaches the clause.
pub open spec fn ns_referred(form: FormView, n: nat) -> Seq<OccurrenceView>
    decreases n,
{
    if n <= 2 || n > form.children.len() {
        Seq::empty()
    } else {
        let before = ns_referred(form, (n - 1) as nat);
        let clause = form.children[n - 1];
        if is_require_clause(clause) {
            before + clause_referred(clause, clause.children.len())
        } else {
            before
        }
    }
}

fn collect_spec_refers(spec: &Form, out: &mut Vec<Occurrence>)
    ensures
        final(out).deep_view() == old(out).deep_view() + spec_referred(spec@),
{
    let ghost before = out.deep_view();
    if spec.kind != Kind::VecLit || spec.children.len() == 0 || spec.children[0].kind
        != Kind::SymLit {
        assert(before =~= before + spec_referred(spec@));
        return;
    }
    let ns = sym_text(&spec.children[0]);
    let ghost all = before + spec_referred(spec@);
    let mut i: usize = 1;
    while i < spec.children.len()
        invariant
            1 <= i <= spec.children@.len(),
            out.deep_view() + libspec_referred(spec@, i as nat, ns@) == all,
        decreases spec.children@.len() - i,
    {
        let ghost here = out.deep_view();
        let ghost rest = libspec_referred(spec@, i as nat, ns@);
        let item = &spec.children[i];
        if item.kind == Kind::KwdLit && str_eq(item.text.as_str(), ":refer") && i + 1
            < spec.children.len() {
            if spec.children[i + 1].kind == Kind::VecLit {
                let names = &spec.children[i + 1];
                let mut k: usize = 0;
                assert(here =~= here + referred(names@, 0, ns@));
                while k < names.children.len()
                    invariant
                        k <= names.children@.len(),
                        out.deep_view() == here + referred(names@, k as nat, ns@),
                    decreases names.children@.len() - k,
                {
                    let sym = &names.children[k];
                    if sym.kind == Kind::SymLit {
                        let occ = Occurrence {
                            fqn: concat3(ns, "/", sym_text(sym)),
                            name_range: sym_name_range(sym),
                        };
                        push_item(out, occ);
                        assert(out.deep_view() =~= here + referred(names@, (k + 1) as nat, ns@));
                    }
                    k += 1;
                }
            }
            assert(out.deep_view() + libspec_referred(spec@, (i + 2) as nat, ns@) =~= here + rest);
            i += 2;
        } else {
            i += 1;
        }
    }
    assert(out.deep_view() =~= out.deep_view() + libspec_referred(spec@, i as nat, ns@));
}

fn collect_refer_occurrences(form: &Form, out: &mut Vec<Occurrence>)
    ensures
        final(out).deep_view() == old(out).deep_view() + ns_referred(
            form@,
            form@.children.len(),
        ),
{
    let ghost before = out.deep_view();
    assert(before =~= before + ns_referred(form@, 2));
    if form.children.len() < 2 {
        assert(before =~= before + ns_referred(form@, form@.children.len()));
        return;
    }
    let mut i: usize = 2;
    while i < form.children.len()
        invariant
            2 <= i <= form.children@.len(),
            out.deep_view() == before + ns_referred(form@, i as nat),
        decreases form.children@.len() - i,
    {
        let clause = &form.children[i];
        if clause.kind == Kind::ListLit && clause.children.len() > 0 && clause.children[0].kind
            == Kind::KwdLit && str_eq(clause.children[0].text.as_str(), ":require") {
            let ghost here = out.deep_view();
            let mut k: usize = 1;
            assert(here =~= here + clause_referred(clause@, 1));
            while k < clause.children.len()
                invariant
                    1 <= k <= clause.children@.len(),
                    out.deep_view() == here + clause_referred(clause@, k as nat),
                decreases clause.children@.len() - k,
            {
                collect_spec_refers(&clause.children[k], out);
                assert(out.deep_view() =~= here + clause_referred(clause@, (k + 1) as nat));
                k += 1;
            }
            assert(out.deep_view() =~= before + ns_referred(form@, (i + 1) as nat));
        }
        i += 1;
    }
}

// --- the walk ---------------------------------------------------------------

/// A walk that collects the names that a pattern binds.
pub ghost struct Binding {
    pub w: WalkView,
    pub names: Seq<BindingView>,
}

/// Whether the form at `f` reads `text` and is a keyword.
pub open spec fn is_keyword(f: FormView, text: Seq<char>) -> bool {
    f.kind == Kind::KwdLit && f.text == text
}

/// What walking a form adds. Quoted data uses nothing; a syntax-quoted form in a
/// macro names real vars and is walked.
pub open spec fn walked(f: FormView, ctx: CtxView, w: WalkView) -> WalkView
    decreases f, 20nat, 0nat,
{
    if f.kind == Kind::SymLit {
        symbol_used(f, ctx, w)
    } else if f.kind == Kind::KwdLit {
        keyword_used(f, ctx, w)
    } else if f.kind == Kind::ListLit {
        list_walked(f, ctx, w)
    } else if f.kind == Kind::QuotingLit {
        w
    } else {
        children_walked(f, 0, f.children.len(), ctx, w)
    }
}

/// What walking the children from `start` up to `n` adds.
pub open spec fn children_walked(
    f: FormView,
    start: nat,
    n: nat,
    ctx: CtxView,
    w: WalkView,
) -> WalkView
    decreases f, 10nat, n,
{
    if n <= start || n > f.children.len() {
        w
    } else {
        walked(f.children[n - 1], ctx, children_walked(f, start, (n - 1) as nat, ctx, w))
    }
}

/// What walking a list adds.
pub open spec fn list_walked(f: FormView, ctx: CtxView, w: WalkView) -> WalkView
    decreases f, 19nat, 0nat,
{
    if f.children.len() == 0 {
        w
    } else {
        let head = f.children[0];
        let len = f.children.len();
        if head.kind == Kind::SymLit && macro_definition(head, ctx.meta, ctx.cfg.lint_as) is Some {
            let (fqn, kind) = macro_definition(head, ctx.meta, ctx.cfg.lint_as)->0;
            def_walked(kind, f, ctx, w.found(fqn, sym_range(head)))
        } else if !is_core_head(head, ctx) {
            children_walked(f, 0, len, ctx, w)
        } else {
            let name = sym_name(head);
            if name == "ns"@ {
                WalkView { out: w.out + ns_referred(f, len), ..w }
            } else if name == "quote"@ {
                w
            } else if name == "letfn"@ {
                letfn_walked(f, ctx, symbol_used(head, ctx, w))
            } else if def_symbol_kind(name) is Some {
                def_walked(def_symbol_kind(name)->0, f, ctx, w)
            } else if let_like(name) {
                let_walked(f, ctx, symbol_used(head, ctx, w))
            } else if name == "fn"@ {
                fn_walked(f, ctx, symbol_used(head, ctx, w))
            } else if name == "catch"@ || name == "as->"@ {
                binding_tail_walked(f, ctx, symbol_used(head, ctx, w))
            } else if name == "extend-type"@ {
                let w1 = symbol_used(head, ctx, w);
                let w2 = if len > 1 {
                    walked(f.children[1], ctx, w1)
                } else {
                    w1
                };
                specs_walked(f, 2, len, true, None, ctx, w2).0
            } else if name == "extend-protocol"@ {
                let w1 = symbol_used(head, ctx, w);
                let w2 = if len > 1 {
                    walked(f.children[1], ctx, w1)
                } else {
                    w1
                };
                let home = if len > 1 && f.children[1].kind == Kind::SymLit {
                    protocol_home(f.children[1], ctx)
                } else {
                    None
                };
                specs_walked(f, 2, len, false, home, ctx, w2).0
            } else if name == "reify"@ {
                specs_walked(f, 1, len, true, None, ctx, symbol_used(head, ctx, w)).0
            } else {
                children_walked(f, 0, len, ctx, w)
            }
        }
    }
}

/// What walking a definition adds. Its name is no usage, except that a method
/// names the multimethod that it extends. A protocol only declares. The fields
/// of a record or type and the parameters of a function are bound in what
/// follows them; elsewhere a vector is an ordinary value.
pub open spec fn def_walked(kind: DefKind, f: FormView, ctx: CtxView, w: WalkView) -> WalkView
    decreases f, 18nat, 0nat,
{
    let len = f.children.len();
    if kind == DefKind::Defprotocol {
        w
    } else if kind == DefKind::Defrecord || kind == DefKind::Deftype {
        let b = if len > 2 && f.children[2].kind == Kind::VecLit {
            names_bound(f.children[2], ctx, Binding { w, names: Seq::empty() })
        } else {
            Binding { w, names: Seq::empty() }
        };
        specs_walked(f, 3, len, true, None, ctx, b.w.entered(b.names, false)).0.left()
    } else if !(kind == DefKind::Defn || kind == DefKind::DefnPrivate || kind == DefKind::Defmacro
        || kind == DefKind::Defmethod) {
        children_walked(f, 2, len, ctx, w)
    } else if kind == DefKind::Defmethod {
        let w1 = if len > 1 && f.children[1].kind == Kind::SymLit {
            symbol_used(f.children[1], ctx, w)
        } else {
            w
        };
        let w2 = if len > 2 && init_key_name(f, ctx.meta) is None {
            walked(f.children[2], ctx, w1)
        } else {
            w1
        };
        let (w3, entered) = def_tail_walked(f, 3, len, ctx, w2);
        if entered {
            w3.left()
        } else {
            w3
        }
    } else {
        let (w3, entered) = def_tail_walked(f, 2, len, ctx, w);
        if entered {
            w3.left()
        } else {
            w3
        }
    }
}

/// What walking the children of a definition from `start` up to `n` adds, and
/// whether a frame was entered for a parameter vector that stands by itself.
pub open spec fn def_tail_walked(
    f: FormView,
    start: nat,
    n: nat,
    ctx: CtxView,
    w: WalkView,
) -> (WalkView, bool)
    decreases f, 10nat, n,
{
    if n <= start || n > f.children.len() {
        (w, false)
    } else {
        let (before, entered) = def_tail_walked(f, start, (n - 1) as nat, ctx, w);
        let c = f.children[n - 1];
        if c.kind == Kind::VecLit && !entered {
            let b = names_bound(c, ctx, Binding { w: before, names: Seq::empty() });
            (b.w.entered(b.names, true), true)
        } else if is_arity(c) {
            (arity_walked(c, true, ctx, before), entered)
        } else {
            (walked(c, ctx, before), entered)
        }
    }
}

/// What walking one arity `([params] body…)` adds.
pub open spec fn arity_walked(f: FormView, lintable: bool, ctx: CtxView, w: WalkView) -> WalkView
    decreases f, 17nat, 0nat,
{
    if f.children.len() == 0 {
        w
    } else {
        let b = names_bound(f.children[0], ctx, Binding { w, names: Seq::empty() });
        children_walked(f, 1, f.children.len(), ctx, b.w.entered(b.names, lintable)).left()
    }
}

/// What walking the specs of a type form from child `start` up to `n` adds, and
/// the protocol reached: a symbol names a protocol or a type, and a list
/// implements a method. Where `interleaved`, each symbol is the protocol of the
/// methods after it; else the one given stays.
pub open spec fn specs_walked(
    f: FormView,
    start: nat,
    n: nat,
    interleaved: bool,
    home: Option<Seq<char>>,
    ctx: CtxView,
    w: WalkView,
) -> (WalkView, Option<Seq<char>>)
    decreases f, 10nat, n,
{
    if n <= start || n > f.children.len() {
        (w, home)
    } else {
        let (before, current) = specs_walked(f, start, (n - 1) as nat, interleaved, home, ctx, w);
        let c = f.children[n - 1];
        if c.kind == Kind::SymLit {
            (
                symbol_used(c, ctx, before),
                if interleaved {
                    protocol_home(c, ctx)
                } else {
                    current
                },
            )
        } else if c.kind == Kind::ListLit {
            (method_walked(c, current, ctx, before), current)
        } else {
            (walked(c, ctx, before), current)
        }
    }
}

/// What walking a method implementation `(name [params] body…)` adds. Its head
/// is a usage of the protocol's method where the protocol is known. The protocol
/// fixes the parameters, so an unused one is not reported.
pub open spec fn method_walked(
    f: FormView,
    home: Option<Seq<char>>,
    ctx: CtxView,
    w: WalkView,
) -> WalkView
    decreases f, 18nat, 0nat,
{
    let len = f.children.len();
    if len == 0 || f.children[0].kind != Kind::SymLit {
        children_walked(f, 0, len, ctx, w)
    } else {
        let head = f.children[0];
        let w1 = match home {
            Some(ns) => w.found(qualify(ns, sym_name(head)), sym_range(head)),
            None => w,
        };
        if len > 1 && f.children[1].kind == Kind::VecLit {
            let b = names_bound(f.children[1], ctx, Binding { w: w1, names: Seq::empty() });
            children_walked(f, 2, len, ctx, b.w.entered(b.names, false)).left()
        } else {
            method_arities_walked(f, len, ctx, w1)
        }
    }
}

/// What walking the arities of a method from child 1 up to `n` adds.
pub open spec fn method_arities_walked(f: FormView, n: nat, ctx: CtxView, w: WalkView) -> WalkView
    decreases f, 10nat, n,
{
    if n <= 1 || n > f.children.len() {
        w
    } else {
        let before = method_arities_walked(f, (n - 1) as nat, ctx, w);
        let c = f.children[n - 1];
        if is_arity(c) {
            arity_walked(c, false, ctx, before)
        } else {
            walked(c, ctx, before)
        }
    }
}

/// What walking `(let [pattern expr …] body…)` adds.
pub open spec fn let_walked(f: FormView, ctx: CtxView, w: WalkView) -> WalkView
    decreases f, 18nat, 0nat,
{
    let len = f.children.len();
    let w1 = w.entered(Seq::empty(), true);
    let w2 = if len > 1 && f.children[1].kind == Kind::VecLit {
        pairs_walked(f.children[1], f.children[1].children.len() / 2, ctx, w1)
    } else {
        w1
    };
    children_walked(f, 2, len, ctx, w2).left()
}

/// What walking the first `n` pairs of a binding vector adds: the expression is
/// used under the names bound so far, and the pattern binds. Of a comprehension,
/// `:let [..]` is a binding vector of its own, and any other keyword takes an
/// expression.
pub open spec fn pairs_walked(f: FormView, n: nat, ctx: CtxView, w: WalkView) -> WalkView
    decreases f, 10nat, n,
{
    if n == 0 || 2 * n > f.children.len() {
        w
    } else {
        let before = pairs_walked(f, (n - 1) as nat, ctx, w);
        let lhs = f.children[2 * n - 2];
        let rhs = f.children[2 * n - 1];
        if lhs.kind == Kind::KwdLit {
            if lhs.text == ":let"@ && rhs.kind == Kind::VecLit {
                pairs_walked(rhs, rhs.children.len() / 2, ctx, before)
            } else {
                walked(rhs, ctx, before)
            }
        } else {
            let b = names_bound(
                lhs,
                ctx,
                Binding { w: walked(rhs, ctx, before), names: Seq::empty() },
            );
            b.w.binding(b.names, true)
        }
    }
}

/// What walking `(catch Class name body…)` or `(as-> expr name body…)` adds: the
/// name is bound in the body alone.
pub open spec fn binding_tail_walked(f: FormView, ctx: CtxView, w: WalkView) -> WalkView
    decreases f, 18nat, 0nat,
{
    let len = f.children.len();
    let w1 = if len > 1 {
        walked(f.children[1], ctx, w)
    } else {
        w
    };
    let b = if len > 2 && f.children[2].kind == Kind::SymLit {
        names_bound(f.children[2], ctx, Binding { w: w1, names: Seq::empty() })
    } else {
        Binding { w: w1, names: Seq::empty() }
    };
    children_walked(f, 3, len, ctx, b.w.entered(b.names, true)).left()
}

/// What walking `(fn name? [params] body…)` adds. The name serves recursion and
/// is not reported.
pub open spec fn fn_walked(f: FormView, ctx: CtxView, w: WalkView) -> WalkView
    decreases f, 18nat, 0nat,
{
    let len = f.children.len();
    let named = len > 1 && f.children[1].kind == Kind::SymLit;
    let b = if named {
        names_bound(f.children[1], ctx, Binding { w, names: Seq::empty() })
    } else {
        Binding { w, names: Seq::empty() }
    };
    let start = if named {
        2nat
    } else {
        1nat
    };
    fn_tail_walked(f, start, len, ctx, b.w.entered(b.names, false)).0.left()
}

/// What walking the parameters and bodies of a function from child `start` up to
/// `n` adds, and whether its parameter vector was met.
pub open spec fn fn_tail_walked(
    f: FormView,
    start: nat,
    n: nat,
    ctx: CtxView,
    w: WalkView,
) -> (WalkView, bool)
    decreases f, 10nat, n,
{
    if n <= start || n > f.children.len() {
        (w, false)
    } else {
        let (before, bound) = fn_tail_walked(f, start, (n - 1) as nat, ctx, w);
        let c = f.children[n - 1];
        if c.kind == Kind::VecLit && !bound {
            let b = names_bound(c, ctx, Binding { w: before, names: Seq::empty() });
            (b.w.binding(b.names, true), true)
        } else if is_arity(c) {
            (arity_walked(c, true, ctx, before), bound)
        } else {
            (walked(c, ctx, before), bound)
        }
    }
}

/// What walking `(letfn [(name [params] body…) …] body…)` adds. The functions
/// may call each other, so their names are bound in every body, and none is
/// reported.
pub open spec fn letfn_walked(f: FormView, ctx: CtxView, w: WalkView) -> WalkView
    decreases f, 18nat, 0nat,
{
    let len = f.children.len();
    let has_specs = len > 1 && f.children[1].kind == Kind::VecLit;
    let specs = f.children[1];
    let b = if has_specs {
        letfn_names(specs, specs.children.len(), ctx, Binding { w, names: Seq::empty() })
    } else {
        Binding { w, names: Seq::empty() }
    };
    let w1 = b.w.entered(b.names, false);
    let w2 = if has_specs {
        letfn_bodies(specs, specs.children.len(), ctx, w1)
    } else {
        w1
    };
    children_walked(f, 2, len, ctx, w2).left()
}

/// The names of the first `n` functions of a `letfn`.
pub open spec fn letfn_names(specs: FormView, n: nat, ctx: CtxView, b: Binding) -> Binding
    decreases specs, 10nat, n,
{
    if n == 0 || n > specs.children.len() {
        b
    } else {
        let before = letfn_names(specs, (n - 1) as nat, ctx, b);
        let c = specs.children[n - 1];
        if c.kind == Kind::ListLit && c.children.len() > 0 && c.children[0].kind == Kind::SymLit {
            names_bound(c.children[0], ctx, before)
        } else {
            before
        }
    }
}

/// What walking the first `n` functions of a `letfn` adds.
pub open spec fn letfn_bodies(specs: FormView, n: nat, ctx: CtxView, w: WalkView) -> WalkView
    decreases specs, 11nat, n,
{
    if n == 0 || n > specs.children.len() {
        w
    } else {
        let before = letfn_bodies(specs, (n - 1) as nat, ctx, w);
        let c = specs.children[n - 1];
        if c.kind == Kind::ListLit {
            fn_tail_walked(c, 1, c.children.len(), ctx, before.entered(Seq::empty(), true)).0.left()
        } else {
            before
        }
    }
}

/// The names that a pattern binds, plain or destructured, but for `&` and `_`.
/// The defaults of `:or` are expressions and are walked; the keys that they are
/// given for bind elsewhere in the pattern.
pub open spec fn names_bound(f: FormView, ctx: CtxView, b: Binding) -> Binding
    decreases f, 16nat, 0nat,
{
    if f.kind == Kind::SymLit {
        let name = sym_name(f);
        if name == "&"@ || name == "_"@ {
            b
        } else {
            Binding {
                names: b.names.push(BindingView { name, name_range: sym_range(f) }),
                ..b
            }
        }
    } else if f.kind == Kind::MapLit {
        map_names_bound(f, f.children.len() / 2, ctx, b)
    } else {
        child_names_bound(f, f.children.len(), ctx, b)
    }
}

/// The names that the first `n` children of a pattern bind.
pub open spec fn child_names_bound(f: FormView, n: nat, ctx: CtxView, b: Binding) -> Binding
    decreases f, 10nat, n,
{
    if n == 0 || n > f.children.len() {
        b
    } else {
        names_bound(f.children[n - 1], ctx, child_names_bound(f, (n - 1) as nat, ctx, b))
    }
}

/// The names that the first `n` entries of a map pattern bind.
pub open spec fn map_names_bound(f: FormView, n: nat, ctx: CtxView, b: Binding) -> Binding
    decreases f, 10nat, n,
{
    if n == 0 || 2 * n > f.children.len() {
        b
    } else {
        let before = map_names_bound(f, (n - 1) as nat, ctx, b);
        let k = f.children[2 * n - 2];
        let v = f.children[2 * n - 1];
        if k.kind == Kind::KwdLit {
            if k.text == ":or"@ && v.kind == Kind::MapLit {
                Binding { w: defaults_walked(v, v.children.len() / 2, ctx, before.w), ..before }
            } else {
                names_bound(v, ctx, before)
            }
        } else {
            let bound = names_bound(k, ctx, before);
            if v.kind == Kind::KwdLit {
                Binding { w: keyword_used(v, ctx, bound.w), ..bound }
            } else {
                bound
            }
        }
    }
}

/// What walking the first `n` defaults of an `:or` map adds.
pub open spec fn defaults_walked(f: FormView, n: nat, ctx: CtxView, w: WalkView) -> WalkView
    decreases f, 10nat, n,
{
    if n == 0 || 2 * n > f.children.len() {
        w
    } else {
        walked(f.children[2 * n - 1], ctx, defaults_walked(f, (n - 1) as nat, ctx, w))
    }
}

fn walk_occurrences(f: &Form, ctx: &OccurrenceCtx, w: &mut Walk)
    ensures
        final(w)@ == walked(f@, ctx@, old(w)@),
    decreases f@, 20nat,
{
    match f.kind {
        Kind::SymLit => record_occurrence(f, ctx, w),
        Kind::KwdLit => record_keyword_occurrence(f, ctx, w),
        Kind::ListLit => walk_list(f, ctx, w),
        Kind::QuotingLit => {},
        _ => walk_children(f, 0, ctx, w),
    }
}

fn walk_children(f: &Form, start: usize, ctx: &OccurrenceCtx, w: &mut Walk)
    ensures
        final(w)@ == children_walked(f@, start as nat, f@.children.len(), ctx@, old(w)@),
    decreases f@, 10nat,
{
    let ghost before = w@;
    let mut i: usize = start;
    while i < f.children.len()
        invariant
            start <= i,
            i <= f.children@.len() || i == start,
            w@ == children_walked(f@, start as nat, i as nat, ctx@, before),
        decreases f.children@.len() - i,
    {
        assert(decreases_to!(f@ => f@.children[i as int]));
        walk_occurrences(&f.children[i], ctx, w);
        i += 1;
    }
}

fn walk_list(f: &Form, ctx: &OccurrenceCtx, w: &mut Walk)
    ensures
        final(w)@ == list_walked(f@, ctx@, old(w)@),
    decreases f@, 19nat,
{
    if f.children.len() == 0 {
        return;
    }
    let head = &f.children[0];
    if head.kind == Kind::SymLit {
        if let Some((fqn, kind)) = macro_def_kind(head, ctx.ns_meta, &ctx.cfg.lint_as) {
            w.record(fqn, sym_name_range(head));
            walk_def_form(kind, f, ctx, w);
            return;
        }
    }
    if !head_is_core_form(head, ctx) {
        walk_children(f, 0, ctx, w);
        return;
    }
    let name = sym_text(head);
    if str_eq(name, "ns") {
        collect_refer_occurrences(f, &mut w.out);
    } else if str_eq(name, "quote") {
    } else if str_eq(name, "letfn") {
        record_occurrence(head, ctx, w);
        walk_letfn_form(f, ctx, w);
    } else if let Some(kind) = DefKind::from_def_symbol(name) {
        walk_def_form(kind, f, ctx, w);
    } else if is_let_like(name) {
        record_occurrence(head, ctx, w);
        walk_let_form(f, ctx, w);
    } else if str_eq(name, "fn") {
        record_occurrence(head, ctx, w);
        walk_fn_form(f, ctx, w);
    } else if str_eq(name, "catch") || str_eq(name, "as->") {
        record_occurrence(head, ctx, w);
        walk_binding_tail(f, ctx, w);
    } else if str_eq(name, "extend-type") {
        record_occurrence(head, ctx, w);
        if f.children.len() > 1 {
            assert(decreases_to!(f@ => f@.children[1]));
            walk_occurrences(&f.children[1], ctx, w);
        }
        walk_type_specs(f, 2, true, None, ctx, w);
    } else if str_eq(name, "extend-protocol") {
        record_occurrence(head, ctx, w);
        let mut home: Option<String> = None;
        if f.children.len() > 1 {
            assert(decreases_to!(f@ => f@.children[1]));
            walk_occurrences(&f.children[1], ctx, w);
            if f.children[1].kind == Kind::SymLit {
                home = protocol_ns(&f.children[1], ctx);
            }
        }
        walk_type_specs(f, 2, false, home, ctx, w);
    } else if str_eq(name, "reify") {
        record_occurrence(head, ctx, w);
        walk_type_specs(f, 1, true, None, ctx, w);
    } else {
        walk_children(f, 0, ctx, w);
    }
}

fn walk_def_form(kind: DefKind, f: &Form, ctx: &OccurrenceCtx, w: &mut Walk)
    ensures
        final(w)@ == def_walked(kind, f@, ctx@, old(w)@),
    decreases f@, 18nat,
{
    let len: usize = f.children.len();
    if kind == DefKind::Defprotocol {
        return;
    }
    if kind == DefKind::Defrecord || kind == DefKind::Deftype {
        let mut bound: Vec<LocalBinding> = Vec::new();
        assert(bound.deep_view() =~= Seq::empty());
        if len > 2 && f.children[2].kind == Kind::VecLit {
            assert(decreases_to!(f@ => f@.children[2]));
            collect_binding_names(&f.children[2], ctx, w, &mut bound);
        }
        w.enter(bound, false);
        walk_type_specs(f, 3, true, None, ctx, w);
        w.leave();
        return;
    }
    if !(kind == DefKind::Defn || kind == DefKind::DefnPrivate || kind == DefKind::Defmacro || kind
        == DefKind::Defmethod) {
        walk_children(f, 2, ctx, w);
        return;
    }
    let mut rest: usize = 2;
    if kind == DefKind::Defmethod {
        if len > 1 && f.children[1].kind == Kind::SymLit {
            record_occurrence(&f.children[1], ctx, w);
        }
        if len > 2 && init_key_fqn(f, ctx.ns_meta).is_none() {
            assert(decreases_to!(f@ => f@.children[2]));
            walk_occurrences(&f.children[2], ctx, w);
        }
        rest = 3;
    }
    let entered = walk_def_tail(f, rest, ctx, w);
    if entered {
        w.leave();
    }
}

fn walk_def_tail(f: &Form, start: usize, ctx: &OccurrenceCtx, w: &mut Walk) -> (r: bool)
    ensures
        (final(w)@, r) == def_tail_walked(f@, start as nat, f@.children.len(), ctx@, old(w)@),
    decreases f@, 10nat,
{
    let ghost before = w@;
    let mut entered = false;
    let mut i: usize = start;
    while i < f.children.len()
        invariant
            start <= i,
            i <= f.children@.len() || i == start,
            (w@, entered) == def_tail_walked(f@, start as nat, i as nat, ctx@, before),
        decreases f.children@.len() - i,
    {
        assert(decreases_to!(f@ => f@.children[i as int]));
        let c = &f.children[i];
        if c.kind == Kind::VecLit && !entered {
            let mut bound: Vec<LocalBinding> = Vec::new();
            assert(bound.deep_view() =~= Seq::empty());
            collect_binding_names(c, ctx, w, &mut bound);
            w.enter(bound, true);
            entered = true;
        } else if arity_body(c) {
            walk_arity(c, true, ctx, w);
        } else {
            walk_occurrences(c, ctx, w);
        }
        i += 1;
    }
    entered
}

fn walk_arity(f: &Form, lintable: bool, ctx: &OccurrenceCtx, w: &mut Walk)
    ensures
        final(w)@ == arity_walked(f@, lintable, ctx@, old(w)@),
    decreases f@, 17nat,
{
    if f.children.len() == 0 {
        return;
    }
    let mut bound: Vec<LocalBinding> = Vec::new();
    assert(bound.deep_view() =~= Seq::empty());
    assert(decreases_to!(f@ => f@.children[0]));
    collect_binding_names(&f.children[0], ctx, w, &mut bound);
    w.enter(bound, lintable);
    walk_children(f, 1, ctx, w);
    w.leave();
}

fn walk_type_specs(
    f: &Form,
    start: usize,
    interleaved: bool,
    home: Option<String>,
    ctx: &OccurrenceCtx,
    w: &mut Walk,
)
    ensures
        final(w)@ == specs_walked(
            f@,
            start as nat,
            f@.children.len(),
            interleaved,
            home.deep_view(),
            ctx@,
            old(w)@,
        ).0,
    decreases f@, 10nat,
{
    let ghost before = w@;
    let ghost given = home.deep_view();
    let mut current = home;
    let mut i: usize = start;
    while i < f.children.len()
        invariant
            start <= i,
            i <= f.children@.len() || i == start,
            (w@, current.deep_view()) == specs_walked(
                f@,
                start as nat,
                i as nat,
                interleaved,
                given,
                ctx@,
                before,
            ),
        decreases f.children@.len() - i,
    {
        assert(decreases_to!(f@ => f@.children[i as int]));
        let c = &f.children[i];
        if c.kind == Kind::SymLit {
            record_occurrence(c, ctx, w);
            if interleaved {
                current = protocol_ns(c, ctx);
            }
        } else if c.kind == Kind::ListLit {
            walk_method_impl(c, &current, ctx, w);
        } else {
            walk_occurrences(c, ctx, w);
        }
        i += 1;
    }
}

fn walk_method_impl(f: &Form, home: &Option<String>, ctx: &OccurrenceCtx, w: &mut Walk)
    ensures
        final(w)@ == method_walked(f@, home.deep_view(), ctx@, old(w)@),
    decreases f@, 18nat,
{
    let len: usize = f.children.len();
    if len == 0 || f.children[0].kind != Kind::SymLit {
        walk_children(f, 0, ctx, w);
        return;
    }
    let head = &f.children[0];
    if let Some(ns) = home {
        w.record(concat3(ns.as_str(), "/", sym_text(head)), sym_name_range(head));
    }
    if len > 1 && f.children[1].kind == Kind::VecLit {
        let mut bound: Vec<LocalBinding> = Vec::new();
        assert(bound.deep_view() =~= Seq::empty());
        assert(decreases_to!(f@ => f@.children[1]));
        collect_binding_names(&f.children[1], ctx, w, &mut bound);
        w.enter(bound, false);
        walk_children(f, 2, ctx, w);
        w.leave();
        return;
    }
    let ghost before = w@;
    let mut i: usize = 1;
    while i < f.children.len()
        invariant
            1 <= i <= f.children@.len(),
            w@ == method_arities_walked(f@, i as nat, ctx@, before),
        decreases f.children@.len() - i,
    {
        assert(decreases_to!(f@ => f@.children[i as int]));
        let c = &f.children[i];
        if arity_body(c) {
            walk_arity(c, false, ctx, w);
        } else {
            walk_occurrences(c, ctx, w);
        }
        i += 1;
    }
}

fn walk_let_form(f: &Form, ctx: &OccurrenceCtx, w: &mut Walk)
    ensures
        final(w)@ == let_walked(f@, ctx@, old(w)@),
    decreases f@, 18nat,
{
    let none: Vec<LocalBinding> = Vec::new();
    assert(none.deep_view() =~= Seq::empty());
    w.enter(none, true);
    if f.children.len() > 1 && f.children[1].kind == Kind::VecLit {
        assert(decreases_to!(f@ => f@.children[1]));
        process_binding_pairs(&f.children[1], ctx, w);
    }
    walk_children(f, 2, ctx, w);
    w.leave();
}

fn process_binding_pairs(f: &Form, ctx: &OccurrenceCtx, w: &mut Walk)
    ensures
        final(w)@ == pairs_walked(f@, f@.children.len() / 2, ctx@, old(w)@),
    decreases f@, 10nat,
{
    let ghost before = w@;
    let len: usize = f.children.len();
    let mut p: usize = 0;
    while p < len / 2
        invariant
            len == f.children@.len(),
            p <= len / 2,
            w@ == pairs_walked(f@, p as nat, ctx@, before),
        decreases len / 2 - p,
    {
        let lhs = &f.children[2 * p];
        let rhs = &f.children[2 * p + 1];
        assert(decreases_to!(f@ => f@.children[2 * p as int]));
        assert(decreases_to!(f@ => f@.children[2 * p as int + 1]));
        if lhs.kind == Kind::KwdLit {
            if str_eq(lhs.text.as_str(), ":let") && rhs.kind == Kind::VecLit {
                process_binding_pairs(rhs, ctx, w);
            } else {
                walk_occurrences(rhs, ctx, w);
            }
        } else {
            walk_occurrences(rhs, ctx, w);
            let mut bound: Vec<LocalBinding> = Vec::new();
            assert(bound.deep_view() =~= Seq::empty());
            collect_binding_names(lhs, ctx, w, &mut bound);
            w.bind(bound, true);
        }
        p += 1;
    }
}

fn walk_binding_tail(f: &Form, ctx: &OccurrenceCtx, w: &mut Walk)
    ensures
        final(w)@ == binding_tail_walked(f@, ctx@, old(w)@),
    decreases f@, 18nat,
{
    let len: usize = f.children.len();
    if len > 1 {
        assert(decreases_to!(f@ => f@.children[1]));
        walk_occurrences(&f.children[1], ctx, w);
    }
    let mut bound: Vec<LocalBinding> = Vec::new();
    assert(bound.deep_view() =~= Seq::empty());
    if len > 2 && f.children[2].kind == Kind::SymLit {
        assert(decreases_to!(f@ => f@.children[2]));
        collect_binding_names(&f.children[2], ctx, w, &mut bound);
    }
    w.enter(bound, true);
    walk_children(f, 3, ctx, w);
    w.leave();
}

fn walk_fn_form(f: &Form, ctx: &OccurrenceCtx, w: &mut Walk)
    ensures
        final(w)@ == fn_walked(f@, ctx@, old(w)@),
    decreases f@, 18nat,
{
    let mut own: Vec<LocalBinding> = Vec::new();
    assert(own.deep_view() =~= Seq::empty());
    let mut start: usize = 1;
    if f.children.len() > 1 && f.children[1].kind == Kind::SymLit {
        assert(decreases_to!(f@ => f@.children[1]));
        collect_binding_names(&f.children[1], ctx, w, &mut own);
        start = 2;
    }
    w.enter(own, false);
    walk_fn_tail(f, start, ctx, w);
    w.leave();
}

fn walk_fn_tail(f: &Form, start: usize, ctx: &OccurrenceCtx, w: &mut Walk)
    ensures
        final(w)@ == fn_tail_walked(f@, start as nat, f@.children.len(), ctx@, old(w)@).0,
    decreases f@, 10nat,
{
    let ghost before = w@;
    let mut met = false;
    let mut i: usize = start;
    while i < f.children.len()
        invariant
            start <= i,
            i <= f.children@.len() || i == start,
            (w@, met) == fn_tail_walked(f@, start as nat, i as nat, ctx@, before),
        decreases f.children@.len() - i,
    {
        assert(decreases_to!(f@ => f@.children[i as int]));
        let c = &f.children[i];
        if c.kind == Kind::VecLit && !met {
            let mut bound: Vec<LocalBinding> = Vec::new();
            assert(bound.deep_view() =~= Seq::empty());
            collect_binding_names(c, ctx, w, &mut bound);
            w.bind(bound, true);
            met = true;
        } else if arity_body(c) {
            walk_arity(c, true, ctx, w);
        } else {
            walk_occurrences(c, ctx, w);
        }
        i += 1;
    }
}

fn walk_letfn_form(f: &Form, ctx: &OccurrenceCtx, w: &mut Walk)
    ensures
        final(w)@ == letfn_walked(f@, ctx@, old(w)@),
    decreases f@, 18nat,
{
    let has_specs = f.children.len() > 1 && f.children[1].kind == Kind::VecLit;
    let mut names: Vec<LocalBinding> = Vec::new();
    assert(names.deep_view() =~= Seq::empty());
    if has_specs {
        assert(decreases_to!(f@ => f@.children[1]));
        collect_letfn_names(&f.children[1], ctx, w, &mut names);
    }
    w.enter(names, false);
    if has_specs {
        assert(decreases_to!(f@ => f@.children[1]));
        walk_letfn_bodies(&f.children[1], ctx, w);
    }
    walk_children(f, 2, ctx, w);
    w.leave();
}

fn collect_letfn_names(
    specs: &Form,
    ctx: &OccurrenceCtx,
    w: &mut Walk,
    names: &mut Vec<LocalBinding>,
)
    ensures
        (Binding { w: final(w)@, names: final(names).deep_view() }) == letfn_names(
            specs@,
            specs@.children.len(),
            ctx@,
            Binding { w: old(w)@, names: old(names).deep_view() },
        ),
    decreases specs@, 10nat,
{
    let ghost before = Binding { w: w@, names: names.deep_view() };
    let mut i: usize = 0;
    while i < specs.children.len()
        invariant
            i <= specs.children@.len(),
            (Binding { w: w@, names: names.deep_view() }) == letfn_names(
                specs@,
                i as nat,
                ctx@,
                before,
            ),
        decreases specs.children@.len() - i,
    {
        let c = &specs.children[i];
        if c.kind == Kind::ListLit && c.children.len() > 0 && c.children[0].kind == Kind::SymLit {
            assert(decreases_to!(specs@ => specs@.children[i as int]));
            assert(decreases_to!(c@ => c@.children[0]));
            collect_binding_names(&c.children[0], ctx, w, names);
        }
        i += 1;
    }
}

fn walk_letfn_bodies(specs: &Form, ctx: &OccurrenceCtx, w: &mut Walk)
    ensures
        final(w)@ == letfn_bodies(specs@, specs@.children.len(), ctx@, old(w)@),
    decreases specs@, 11nat,
{
    let ghost before = w@;
    let mut i: usize = 0;
    while i < specs.children.len()
        invariant
            i <= specs.children@.len(),
            w@ == letfn_bodies(specs@, i as nat, ctx@, before),
        decreases specs.children@.len() - i,
    {
        let c = &specs.children[i];
        if c.kind == Kind::ListLit {
            let none: Vec<LocalBinding> = Vec::new();
            assert(none.deep_view() =~= Seq::empty());
            w.enter(none, true);
            assert(decreases_to!(specs@ => specs@.children[i as int]));
            walk_fn_tail(c, 1, ctx, w);
            w.leave();
        }
        i += 1;
    }
}

fn collect_binding_names(
    f: &Form,
    ctx: &OccurrenceCtx,
    w: &mut Walk,
    names: &mut Vec<LocalBinding>,
)
    ensures
        (Binding { w: final(w)@, names: final(names).deep_view() }) == names_bound(
            f@,
            ctx@,
            Binding { w: old(w)@, names: old(names).deep_view() },
        ),
    decreases f@, 16nat,
{
    let ghost before = Binding { w: w@, names: names.deep_view() };
    if f.kind == Kind::SymLit {
        let name = sym_text(f);
        if !str_eq(name, "&") && !str_eq(name, "_") {
            let b = LocalBinding { name: name.to_owned(), name_range: sym_name_range(f) };
            push_item(names, b);
        }
        return;
    }
    if f.kind == Kind::MapLit {
        collect_map_names(f, ctx, w, names);
        return;
    }
    let mut i: usize = 0;
    while i < f.children.len()
        invariant
            i <= f.children@.len(),
            (Binding { w: w@, names: names.deep_view() }) == child_names_bound(
                f@,
                i as nat,
                ctx@,
                before,
            ),
        decreases f.children@.len() - i,
    {
        assert(decreases_to!(f@ => f@.children[i as int]));
        collect_binding_names(&f.children[i], ctx, w, names);
        i += 1;
    }
}

fn collect_map_names(f: &Form, ctx: &OccurrenceCtx, w: &mut Walk, names: &mut Vec<LocalBinding>)
    ensures
        (Binding { w: final(w)@, names: final(names).deep_view() }) == map_names_bound(
            f@,
            f@.children.len() / 2,
            ctx@,
            Binding { w: old(w)@, names: old(names).deep_view() },
        ),
    decreases f@, 10nat,
{
    let ghost before = Binding { w: w@, names: names.deep_view() };
    let len: usize = f.children.len();
    let mut p: usize = 0;
    while p < len / 2
        invariant
            len == f.children@.len(),
            p <= len / 2,
            (Binding { w: w@, names: names.deep_view() }) == map_names_bound(
                f@,
                p as nat,
                ctx@,
                before,
            ),
        decreases len / 2 - p,
    {
        let k = &f.children[2 * p];
        let v = &f.children[2 * p + 1];
        assert(decreases_to!(f@ => f@.children[2 * p as int]));
        assert(decreases_to!(f@ => f@.children[2 * p as int + 1]));
        if k.kind == Kind::KwdLit {
            if str_eq(k.text.as_str(), ":or") && v.kind == Kind::MapLit {
                walk_defaults(v, ctx, w);
            } else {
                collect_binding_names(v, ctx, w, names);
            }
        } else {
            collect_binding_names(k, ctx, w, names);
            if v.kind == Kind::KwdLit {
                record_keyword_occurrence(v, ctx, w);
            }
        }
        p += 1;
    }
}

fn walk_defaults(f: &Form, ctx: &OccurrenceCtx, w: &mut Walk)
    ensures
        final(w)@ == defaults_walked(f@, f@.children.len() / 2, ctx@, old(w)@),
    decreases f@, 10nat,
{
    let ghost before = w@;
    let len: usize = f.children.len();
    let mut p: usize = 0;
    while p < len / 2
        invariant
            len == f.children@.len(),
            p <= len / 2,
            w@ == defaults_walked(f@, p as nat, ctx@, before),
        decreases len / 2 - p,
    {
        assert(decreases_to!(f@ => f@.children[2 * p as int + 1]));
        walk_occurrences(&f.children[2 * p + 1], ctx, w);
        p += 1;
    }
}

/// What walking the whole file adds to a fresh walk.
pub open spec fn file_walked(root: FormView, ctx: CtxView) -> WalkView {
    children_walked(
        root,
        0,
        root.children.len(),
        ctx,
        WalkView { scope: ScopeView::outside(), out: Seq::empty() },
    )
}

/// Walks a whole file: the usages in it, and the locals that nothing uses.
pub fn walk_file(root: &Form, ctx: &OccurrenceCtx) -> (r: (Vec<Occurrence>, Vec<LocalBinding>))
    ensures
        r.0.deep_view() == file_walked(root@, ctx@).out,
        r.1.deep_view() == file_walked(root@, ctx@).scope.unused,
{
    let mut w = Walk { scope: Scope::new(), out: Vec::new() };
    assert(w.out.deep_view() =~= Seq::empty());
    walk_children(root, 0, ctx, &mut w);
    (w.out, w.scope.unused)
}

}
