//! The findings of this server in a file, and how they go together with those of another
//! linter.

use vstd::prelude::*;
use crate::chars::{is_uppercase, uppercase};
use crate::collect::{dict_get, push_item, Copied};
use crate::config::{clojure_source, is_clojure_source};
use crate::handlers::clean_ns::{
    duplicate_requires, repeated_of, unused_of, unused_requires, RequireSite, RequireView,
};
use crate::handlers::references::lemma_concat_contains;
use crate::index::extractor::{
    analysis_of, extract_analysis_with, qualified, qualified_usages, QualifiedUsage,
    QualifiedUsageView,
};
use crate::index::jdk::{simple_name, simple_name_of};
use crate::index::model::{
    DefKind, ExtractConfig, ExtractConfigView, NsMeta, NsMetaView, Occurrence, OccurrenceView,
    Symbol, SymbolView,
};
use crate::index::scope::{BindingView, LocalBinding};
use crate::lsp::{Diagnostic, DiagnosticView, Range, Severity};
use crate::path::{extension_of, file_name_of};
use crate::sort::lemma_push_contains;
use crate::syntax::syntax_of;
use crate::text::{concat2, str_eq};

verus! {

/// A warning of this server.
pub open spec fn warning(range: Range, code: Seq<char>, message: Seq<char>, unnecessary: bool) -> DiagnosticView {
    DiagnosticView {
        range,
        severity: Some(Severity::Warning),
        code: Some(code),
        source: Some("clj-pulse"@),
        message,
        unnecessary,
        deprecated: false,
    }
}

fn warn(out: &mut Vec<Diagnostic>, range: Range, code: &str, message: String, unnecessary: bool)
    ensures
        final(out).deep_view() == old(out).deep_view().push(
            warning(range, code@, message@, unnecessary),
        ),
{
    push_item(
        out,
        Diagnostic {
            range,
            severity: Some(Severity::Warning),
            code: Some(code.to_owned()),
            source: Some("clj-pulse".to_owned()),
            message,
            unnecessary,
            deprecated: false,
        },
    );
}

/// Whether a prefix is a Java class or JavaScript's global object: a class starts with an
/// upper-case letter, a namespace does not.
pub open spec fn interop(prefix: Seq<char>) -> bool {
    prefix == "js"@ || (simple_name_of(prefix).len() > 0 && uppercase(simple_name_of(prefix)[0]))
}

/// Whether a prefix is a Java class or JavaScript's global object.
pub fn is_interop(prefix: &str) -> (r: bool)
    ensures
        r == interop(prefix@),
{
    if str_eq(prefix, "js") {
        return true;
    }
    let last = simple_name(prefix);
    if last.as_str().is_empty() {
        false
    } else {
        is_uppercase(last.as_str().get_char(0))
    }
}

/// Whether a usage's prefix stands for nothing in the file.
pub open spec fn prefix_unresolved(meta: NsMetaView, prefix: Seq<char>) -> bool {
    !meta.prefix_resolves(prefix) && prefix != "clojure.core"@ && !interop(prefix)
}

/// The findings of the first `n` qualified usages whose prefix stands for nothing.
pub open spec fn unresolved_findings(meta: NsMetaView, usages: Seq<QualifiedUsageView>, n: nat) -> Seq<
    DiagnosticView,
>
    decreases n,
{
    if n == 0 {
        seq![]
    } else {
        let before = unresolved_findings(meta, usages, (n - 1) as nat);
        let u = usages[n - 1];
        if prefix_unresolved(meta, u.prefix) {
            before.push(
                warning(
                    u.range,
                    "unresolved-namespace"@,
                    "Unresolved namespace: "@ + u.prefix,
                    false,
                ),
            )
        } else {
            before
        }
    }
}

fn add_unresolved(out: &mut Vec<Diagnostic>, meta: &NsMeta, usages: &Vec<QualifiedUsage>)
    ensures
        final(out).deep_view() == old(out).deep_view() + unresolved_findings(
            meta.deep_view(),
            usages.deep_view(),
            usages@.len(),
        ),
{
    let ghost before = out.deep_view();
    let ghost (mv, all) = (meta.deep_view(), usages.deep_view());
    let mut i: usize = 0;
    assert(before + seq![] =~= before);
    while i < usages.len()
        invariant
            i <= usages@.len(),
            all == usages.deep_view(),
            mv == meta.deep_view(),
            out.deep_view() == before + unresolved_findings(mv, all, i as nat),
        decreases usages@.len() - i,
    {
        assert(all[i as int] == usages@[i as int].deep_view());
        let ghost done = unresolved_findings(mv, all, i as nat);
        let prefix = usages[i].prefix.as_str();
        if !meta.resolves_prefix(prefix) && !str_eq(prefix, "clojure.core") && !is_interop(prefix) {
            warn(
                out,
                usages[i].range,
                "unresolved-namespace",
                concat2("Unresolved namespace: ", prefix),
                false,
            );
            let ghost x = out.deep_view().last();
            assert((before + done).push(x) =~= before + done.push(x));
        }
        i += 1;
    }
}

/// The findings of the first `n` requires.
pub open spec fn require_findings(
    sites: Seq<RequireView>,
    code: Seq<char>,
    label: Seq<char>,
    unnecessary: bool,
    n: nat,
) -> Seq<DiagnosticView>
    decreases n,
{
    if n == 0 {
        seq![]
    } else {
        let site = sites[n - 1];
        require_findings(sites, code, label, unnecessary, (n - 1) as nat).push(
            warning(site.range, code, label + site.namespace, unnecessary),
        )
    }
}

fn add_requires(
    out: &mut Vec<Diagnostic>,
    sites: &Vec<RequireSite>,
    code: &str,
    label: &str,
    unnecessary: bool,
)
    ensures
        final(out).deep_view() == old(out).deep_view() + require_findings(
            sites.deep_view(),
            code@,
            label@,
            unnecessary,
            sites@.len(),
        ),
{
    let ghost before = out.deep_view();
    let ghost all = sites.deep_view();
    let mut i: usize = 0;
    assert(before + seq![] =~= before);
    while i < sites.len()
        invariant
            i <= sites@.len(),
            all == sites.deep_view(),
            out.deep_view() == before + require_findings(
                all,
                code@,
                label@,
                unnecessary,
                i as nat,
            ),
        decreases sites@.len() - i,
    {
        assert(all[i as int] == sites@[i as int].deep_view());
        let ghost done = require_findings(all, code@, label@, unnecessary, i as nat);
        warn(
            out,
            sites[i].range,
            code,
            concat2(label, sites[i].namespace.as_str()),
            unnecessary,
        );
        let ghost x = out.deep_view().last();
        assert((before + done).push(x) =~= before + done.push(x));
        i += 1;
    }
}

/// The findings of the first `n` locals that nothing uses.
pub open spec fn binding_findings(locals: Seq<BindingView>, n: nat) -> Seq<DiagnosticView>
    decreases n,
{
    if n == 0 {
        seq![]
    } else {
        let b = locals[n - 1];
        binding_findings(locals, (n - 1) as nat).push(
            warning(b.name_range, "unused-binding"@, "Unused binding: "@ + b.name, true),
        )
    }
}

fn add_bindings(out: &mut Vec<Diagnostic>, locals: &Vec<LocalBinding>)
    ensures
        final(out).deep_view() == old(out).deep_view() + binding_findings(
            locals.deep_view(),
            locals@.len(),
        ),
{
    let ghost before = out.deep_view();
    let ghost all = locals.deep_view();
    let mut i: usize = 0;
    assert(before + seq![] =~= before);
    while i < locals.len()
        invariant
            i <= locals@.len(),
            all == locals.deep_view(),
            out.deep_view() == before + binding_findings(all, i as nat),
        decreases locals@.len() - i,
    {
        assert(all[i as int] == locals@[i as int].deep_view());
        let ghost done = binding_findings(all, i as nat);
        warn(
            out,
            locals[i].name_range,
            "unused-binding",
            concat2("Unused binding: ", locals[i].name.as_str()),
            true,
        );
        let ghost x = out.deep_view().last();
        assert((before + done).push(x) =~= before + done.push(x));
        i += 1;
    }
}

/// Whether a private definition of the kind is worth a finding. A test is called by its
/// runner, and types and protocols are reached through what they generate.
pub open spec fn lintable_kind(kind: DefKind) -> bool {
    match kind {
        DefKind::Def | DefKind::Defonce | DefKind::Defn | DefKind::DefnPrivate
        | DefKind::Defmacro | DefKind::Defmulti => true,
        _ => false,
    }
}

/// Whether a private definition of the kind is worth a finding.
pub fn is_lintable_private_kind(kind: DefKind) -> (r: bool)
    ensures
        r == lintable_kind(kind),
{
    match kind {
        DefKind::Def | DefKind::Defonce | DefKind::Defn | DefKind::DefnPrivate
        | DefKind::Defmacro | DefKind::Defmulti => true,
        _ => false,
    }
}

/// Whether the file uses the definition outside its own form. A recursive call is no use.
pub open spec fn used_elsewhere(occs: Seq<OccurrenceView>, sym: SymbolView) -> bool {
    exists|i: int|
        0 <= i < occs.len() && (#[trigger] occs[i]).fqn == sym.fqn && !sym.range.covers(
            occs[i].name_range,
        )
}

fn is_used_elsewhere(occs: &Vec<Occurrence>, sym: &Symbol) -> (r: bool)
    ensures
        r == used_elsewhere(occs.deep_view(), sym.deep_view()),
{
    let ghost all = occs.deep_view();
    let mut i: usize = 0;
    while i < occs.len()
        invariant
            i <= occs@.len(),
            all == occs.deep_view(),
            forall|j: int|
                0 <= j < i ==> !((#[trigger] all[j]).fqn == sym.fqn@ && !sym.range.covers(
                    all[j].name_range,
                )),
        decreases occs@.len() - i,
    {
        assert(all[i as int] == occs@[i as int].deep_view());
        if str_eq(occs[i].fqn.as_str(), sym.fqn.as_str()) && !sym.range.contains_range(
            occs[i].name_range,
        ) {
            return true;
        }
        i += 1;
    }
    false
}

/// Whether nothing can use the definition: only the file could, and it does not.
pub open spec fn dead_private(occs: Seq<OccurrenceView>, sym: SymbolView) -> bool {
    sym.private && lintable_kind(sym.kind) && !used_elsewhere(occs, sym)
}

/// The findings of the first `n` definitions that nothing can use.
pub open spec fn private_findings(syms: Seq<SymbolView>, occs: Seq<OccurrenceView>, n: nat) -> Seq<
    DiagnosticView,
>
    decreases n,
{
    if n == 0 {
        seq![]
    } else {
        let before = private_findings(syms, occs, (n - 1) as nat);
        let sym = syms[n - 1];
        if dead_private(occs, sym) {
            before.push(
                warning(
                    sym.name_range,
                    "unused-private-var"@,
                    "Unused private var: "@ + sym.name,
                    true,
                ),
            )
        } else {
            before
        }
    }
}

fn add_private(out: &mut Vec<Diagnostic>, syms: &Vec<Symbol>, occs: &Vec<Occurrence>)
    ensures
        final(out).deep_view() == old(out).deep_view() + private_findings(
            syms.deep_view(),
            occs.deep_view(),
            syms@.len(),
        ),
{
    let ghost before = out.deep_view();
    let ghost (all, ov) = (syms.deep_view(), occs.deep_view());
    let mut i: usize = 0;
    assert(before + seq![] =~= before);
    while i < syms.len()
        invariant
            i <= syms@.len(),
            all == syms.deep_view(),
            ov == occs.deep_view(),
            out.deep_view() == before + private_findings(all, ov, i as nat),
        decreases syms@.len() - i,
    {
        assert(all[i as int] == syms@[i as int].deep_view());
        let ghost done = private_findings(all, ov, i as nat);
        let sym = &syms[i];
        if sym.private && is_lintable_private_kind(sym.kind) && !is_used_elsewhere(occs, sym) {
            warn(
                out,
                sym.name_range,
                "unused-private-var",
                concat2("Unused private var: ", sym.name.as_str()),
                true,
            );
            let ghost x = out.deep_view().last();
            assert((before + done).push(x) =~= before + done.push(x));
        }
        i += 1;
    }
}

/// The findings in the file: prefixes that stand for nothing, requires that nothing uses
/// or that stand there twice, locals that nothing uses, and private definitions that
/// nothing uses. They come from the file's own text alone. A file that is no source has
/// none.
pub open spec fn findings(source: Seq<char>, path: Seq<char>, cfg: ExtractConfigView) -> Seq<
    DiagnosticView,
> {
    match analysis_of(source, path, cfg) {
        Some(a) => if clojure_source(path) {
            let usages = qualified(syntax_of(source)->0);
            let (unused, repeated) = (unused_of(source), repeated_of(source));
            unresolved_findings(a.meta, usages, usages.len()) + require_findings(
                unused,
                "unused-namespace"@,
                "Unused namespace: "@,
                true,
                unused.len(),
            ) + require_findings(
                repeated,
                "duplicate-require"@,
                "Duplicate require: "@,
                false,
                repeated.len(),
            ) + binding_findings(a.unused_bindings, a.unused_bindings.len())
                + private_findings(a.symbols, a.occurrences, a.symbols.len())
        } else {
            seq![]
        },
        None => seq![],
    }
}

/// The findings in the file.
pub fn compute(source: &str, path: &str, cfg: &ExtractConfig) -> (r: Vec<Diagnostic>)
    ensures
        r.deep_view() == findings(source@, path@, cfg.deep_view()),
{
    let mut out: Vec<Diagnostic> = Vec::new();
    assert(out.deep_view() =~= seq![]);
    if !is_clojure_source(path) {
        return out;
    }
    let analysis = match extract_analysis_with(source, path, cfg) {
        Ok(analysis) => analysis,
        Err(_) => return out,
    };
    let usages = qualified_usages(source);
    add_unresolved(&mut out, &analysis.ns_meta, &usages);
    let unused = unused_requires(source);
    add_requires(&mut out, &unused, "unused-namespace", "Unused namespace: ", true);
    let repeated = duplicate_requires(source);
    add_requires(&mut out, &repeated, "duplicate-require", "Duplicate require: ", false);
    add_bindings(&mut out, &analysis.unused_bindings);
    add_private(&mut out, &analysis.symbols, &analysis.occurrences);
    assert(out.deep_view() =~= findings(source@, path@, cfg.deep_view()));
    out
}

/// Whether the other linter finds what the code stands for too.
pub open spec fn owned_code(code: Seq<char>) -> bool {
    code == "unresolved-namespace"@ || code == "unused-namespace"@ || code
        == "duplicate-require"@ || code == "unused-binding"@ || code == "unused-private-var"@
}

/// Whether the other linter finds such a thing too.
pub open spec fn owned(d: DiagnosticView) -> bool {
    d.code matches Some(code) && owned_code(code)
}

/// Whether the other linter finds such a thing too.
pub fn is_kondo_owned(d: &Diagnostic) -> (r: bool)
    ensures
        r == owned(d.deep_view()),
{
    match &d.code {
        Some(code) => {
            let c = code.as_str();
            str_eq(c, "unresolved-namespace") || str_eq(c, "unused-namespace") || str_eq(
                c,
                "duplicate-require",
            ) || str_eq(c, "unused-binding") || str_eq(c, "unused-private-var")
        },
        None => false,
    }
}

/// Those of the first `n` findings that the other linter does not find.
pub open spec fn native_only(native: Seq<DiagnosticView>, n: nat) -> Seq<DiagnosticView>
    decreases n,
{
    if n == 0 {
        seq![]
    } else {
        let before = native_only(native, (n - 1) as nat);
        if owned(native[n - 1]) {
            before
        } else {
            before.push(native[n - 1])
        }
    }
}

/// The findings of this server together with the other linter's. Where that one ran, what
/// it finds too is left to it, even where it found nothing; where it failed, nothing is
/// lost.
pub fn merge(native: Vec<Diagnostic>, kondo: Result<Vec<Diagnostic>, String>) -> (r: Vec<Diagnostic>)
    ensures
        r.deep_view() == (match kondo {
            Ok(found) => found.deep_view() + native_only(native.deep_view(), native@.len()),
            Err(_) => native.deep_view(),
        }),
{
    let mut out = match kondo {
        Ok(found) => found,
        Err(_) => return native,
    };
    let ghost before = out.deep_view();
    let ghost all = native.deep_view();
    let mut i: usize = 0;
    assert(before + seq![] =~= before);
    while i < native.len()
        invariant
            i <= native@.len(),
            all == native.deep_view(),
            out.deep_view() == before + native_only(all, i as nat),
        decreases native@.len() - i,
    {
        assert(all[i as int] == native@[i as int].deep_view());
        let ghost done = native_only(all, i as nat);
        if !is_kondo_owned(&native[i]) {
            push_item(&mut out, native[i].copied());
            let ghost x = out.deep_view().last();
            assert((before + done).push(x) =~= before + done.push(x));
        }
        i += 1;
    }
    out
}

/// Of this server's findings, exactly those that the other linter does not find stay.
pub proof fn law_merge_keeps_exactly_the_rest(native: Seq<DiagnosticView>, n: nat)
    requires
        n <= native.len(),
    ensures
        forall|i: int|
            0 <= i < native_only(native, n).len() ==> !owned(#[trigger] native_only(native, n)[i]),
        forall|i: int|
            0 <= i < n && !owned(#[trigger] native[i]) ==> native_only(native, n).contains(
                native[i],
            ),
    decreases n,
{
    if n > 0 {
        law_merge_keeps_exactly_the_rest(native, (n - 1) as nat);
        let before = native_only(native, (n - 1) as nat);
        let after = native_only(native, n);
        assert forall|i: int| 0 <= i < n && !owned(#[trigger] native[i]) implies after.contains(
            native[i],
        ) by {
            if i < n - 1 {
                assert(before.contains(native[i]));
                let j = choose|j: int| 0 <= j < before.len() && before[j] == native[i];
                assert(after[j] == native[i]);
            } else {
                assert(after.last() == native[i]);
            }
        }
    }
}

/// Every code that this server gives is one that the other linter finds too.
pub proof fn law_own_findings_are_all_owned(source: Seq<char>, path: Seq<char>, cfg: ExtractConfigView, i: int)
    requires
        0 <= i < findings(source, path, cfg).len(),
    ensures
        owned(findings(source, path, cfg)[i]),
{
    let a = analysis_of(source, path, cfg)->0;
    let usages = qualified(syntax_of(source)->0);
    let (unused, repeated) = (unused_of(source), repeated_of(source));
    lemma_unresolved_owned(a.meta, usages, usages.len());
    lemma_requires_owned(unused, "unused-namespace"@, "Unused namespace: "@, true, unused.len());
    lemma_requires_owned(
        repeated,
        "duplicate-require"@,
        "Duplicate require: "@,
        false,
        repeated.len(),
    );
    lemma_bindings_owned(a.unused_bindings, a.unused_bindings.len());
    lemma_private_owned(a.symbols, a.occurrences, a.symbols.len());
}

spec fn all_owned(s: Seq<DiagnosticView>) -> bool {
    forall|i: int| 0 <= i < s.len() ==> owned(#[trigger] s[i])
}

proof fn lemma_owned_push(s: Seq<DiagnosticView>, d: DiagnosticView)
    requires
        all_owned(s),
    ensures
        owned(d) ==> all_owned(s.push(d)),
{
}

proof fn lemma_unresolved_owned(meta: NsMetaView, usages: Seq<QualifiedUsageView>, n: nat)
    ensures
        all_owned(unresolved_findings(meta, usages, n)),
    decreases n,
{
    if n > 0 {
        lemma_unresolved_owned(meta, usages, (n - 1) as nat);
        lemma_owned_push(
            unresolved_findings(meta, usages, (n - 1) as nat),
            unresolved_findings(meta, usages, n).last(),
        );
    }
}

proof fn lemma_requires_owned(
    sites: Seq<RequireView>,
    code: Seq<char>,
    label: Seq<char>,
    unnecessary: bool,
    n: nat,
)
    requires
        owned_code(code),
    ensures
        all_owned(require_findings(sites, code, label, unnecessary, n)),
    decreases n,
{
    if n > 0 {
        lemma_requires_owned(sites, code, label, unnecessary, (n - 1) as nat);
        lemma_owned_push(
            require_findings(sites, code, label, unnecessary, (n - 1) as nat),
            require_findings(sites, code, label, unnecessary, n).last(),
        );
    }
}

proof fn lemma_bindings_owned(locals: Seq<BindingView>, n: nat)
    ensures
        all_owned(binding_findings(locals, n)),
    decreases n,
{
    if n > 0 {
        lemma_bindings_owned(locals, (n - 1) as nat);
        lemma_owned_push(
            binding_findings(locals, (n - 1) as nat),
            binding_findings(locals, n).last(),
        );
    }
}

proof fn lemma_private_owned(syms: Seq<SymbolView>, occs: Seq<OccurrenceView>, n: nat)
    ensures
        all_owned(private_findings(syms, occs, n)),
    decreases n,
{
    if n > 0 {
        lemma_private_owned(syms, occs, (n - 1) as nat);
        lemma_owned_push(
            private_findings(syms, occs, (n - 1) as nat),
            private_findings(syms, occs, n).last(),
        );
    }
}

/// Configuration and build manifests are never linted: their coordinates look like
/// usages of namespaces.
pub proof fn law_only_sources_are_linted(source: Seq<char>, path: Seq<char>, cfg: ExtractConfigView)
    requires
        extension_of(path) == Some("edn"@) || file_name_of(path) == Some("project.clj"@),
    ensures
        findings(source, path, cfg) == Seq::<DiagnosticView>::empty(),
{
    reveal_strlit("edn");
    reveal_strlit("clj");
    reveal_strlit("cljs");
    reveal_strlit("cljc");
    reveal_strlit("lg");
    assert("edn"@[0] != "clj"@[0]);
    assert("edn"@[0] != "cljs"@[0]);
    assert("edn"@[0] != "cljc"@[0]);
    assert("edn"@[0] != "lg"@[0]);
}

/// A warning of this server, field by field.
pub open spec fn is_warning(
    d: DiagnosticView,
    range: Range,
    code: Seq<char>,
    message: Seq<char>,
    unnecessary: bool,
) -> bool {
    &&& d.range == range
    &&& d.severity == Some(Severity::Warning)
    &&& d.code == Some(code)
    &&& d.source == Some("clj-pulse"@)
    &&& d.message == message
    &&& d.unnecessary == unnecessary
    &&& !d.deprecated
}

/// Whether a finding says that the private definition at `k`, which is a function, a macro or
/// a value, is used nowhere in the file outside its own form.
pub open spec fn says_private_is_unused(
    syms: Seq<SymbolView>,
    occs: Seq<OccurrenceView>,
    k: int,
    d: DiagnosticView,
) -> bool {
    &&& 0 <= k < syms.len()
    &&& syms[k].private
    &&& match syms[k].kind {
        DefKind::Def | DefKind::Defonce | DefKind::Defn | DefKind::DefnPrivate
        | DefKind::Defmacro | DefKind::Defmulti => true,
        _ => false,
    }
    &&& forall|j: int|
        0 <= j < occs.len() && (#[trigger] occs[j]).fqn == syms[k].fqn ==> syms[k].range.covers(
            occs[j].name_range,
        )
    &&& is_warning(
        d,
        syms[k].name_range,
        "unused-private-var"@,
        "Unused private var: "@ + syms[k].name,
        true,
    )
}

/// Whether a finding says that the prefix of the qualified usage at `k` stands for nothing:
/// neither for the file's own namespace nor for an alias or a required namespace of it, nor
/// for the core library, a class or JavaScript's global object.
pub open spec fn says_prefix_is_unresolved(
    meta: NsMetaView,
    usages: Seq<QualifiedUsageView>,
    k: int,
    d: DiagnosticView,
) -> bool {
    &&& 0 <= k < usages.len()
    &&& usages[k].prefix != meta.name
    &&& dict_get(meta.aliases, usages[k].prefix) is None
    &&& !meta.requires.contains(usages[k].prefix)
    &&& usages[k].prefix != "clojure.core"@
    &&& usages[k].prefix != "js"@
    &&& !(simple_name_of(usages[k].prefix).len() > 0 && uppercase(
        simple_name_of(usages[k].prefix)[0],
    ))
    &&& is_warning(
        d,
        usages[k].range,
        "unresolved-namespace"@,
        "Unresolved namespace: "@ + usages[k].prefix,
        false,
    )
}

/// Whether a finding says that nothing uses the binding at `k`.
pub open spec fn says_binding_is_unused(locals: Seq<BindingView>, k: int, d: DiagnosticView) -> bool {
    0 <= k < locals.len() && is_warning(
        d,
        locals[k].name_range,
        "unused-binding"@,
        "Unused binding: "@ + locals[k].name,
        true,
    )
}

/// Whether a finding is of the require at `k`.
pub open spec fn says_of_require(
    sites: Seq<RequireView>,
    code: Seq<char>,
    label: Seq<char>,
    unnecessary: bool,
    k: int,
    d: DiagnosticView,
) -> bool {
    0 <= k < sites.len() && is_warning(
        d,
        sites[k].range,
        code,
        label + sites[k].namespace,
        unnecessary,
    )
}

proof fn lemma_private_findings(
    syms: Seq<SymbolView>,
    occs: Seq<OccurrenceView>,
    n: nat,
    d: DiagnosticView,
)
    requires
        n <= syms.len(),
    ensures
        private_findings(syms, occs, n).contains(d) <==> exists|k: int|
            k < n && #[trigger] says_private_is_unused(syms, occs, k, d),
    decreases n,
{
    if n > 0 {
        let before = private_findings(syms, occs, (n - 1) as nat);
        let sym = syms[n - 1];
        let last = warning(
            sym.name_range,
            "unused-private-var"@,
            "Unused private var: "@ + sym.name,
            true,
        );
        lemma_private_findings(syms, occs, (n - 1) as nat, d);
        lemma_push_contains(before, last, d);
        assert(dead_private(occs, sym) && d == last <==> says_private_is_unused(
            syms,
            occs,
            n - 1,
            d,
        ));
        if exists|k: int| k < n && #[trigger] says_private_is_unused(syms, occs, k, d) {
            let k = choose|k: int| k < n && #[trigger] says_private_is_unused(syms, occs, k, d);
            if k < n - 1 {
                assert(before.contains(d));
            }
        }
    } else {
        assert(private_findings(syms, occs, n) =~= seq![]);
    }
}

proof fn lemma_unresolved_findings(
    meta: NsMetaView,
    usages: Seq<QualifiedUsageView>,
    n: nat,
    d: DiagnosticView,
)
    requires
        n <= usages.len(),
    ensures
        unresolved_findings(meta, usages, n).contains(d) <==> exists|k: int|
            k < n && #[trigger] says_prefix_is_unresolved(meta, usages, k, d),
    decreases n,
{
    if n > 0 {
        let before = unresolved_findings(meta, usages, (n - 1) as nat);
        let u = usages[n - 1];
        let last = warning(
            u.range,
            "unresolved-namespace"@,
            "Unresolved namespace: "@ + u.prefix,
            false,
        );
        lemma_unresolved_findings(meta, usages, (n - 1) as nat, d);
        lemma_push_contains(before, last, d);
        assert(prefix_unresolved(meta, u.prefix) && d == last <==> says_prefix_is_unresolved(
            meta,
            usages,
            n - 1,
            d,
        ));
        if exists|k: int| k < n && #[trigger] says_prefix_is_unresolved(meta, usages, k, d) {
            let k = choose|k: int| k < n && #[trigger] says_prefix_is_unresolved(meta, usages, k, d);
            if k < n - 1 {
                assert(before.contains(d));
            }
        }
    } else {
        assert(unresolved_findings(meta, usages, n) =~= seq![]);
    }
}

proof fn lemma_binding_findings(locals: Seq<BindingView>, n: nat, d: DiagnosticView)
    requires
        n <= locals.len(),
    ensures
        binding_findings(locals, n).contains(d) <==> exists|k: int|
            k < n && #[trigger] says_binding_is_unused(locals, k, d),
    decreases n,
{
    if n > 0 {
        let before = binding_findings(locals, (n - 1) as nat);
        let b = locals[n - 1];
        let last = warning(b.name_range, "unused-binding"@, "Unused binding: "@ + b.name, true);
        lemma_binding_findings(locals, (n - 1) as nat, d);
        lemma_push_contains(before, last, d);
        assert(d == last <==> says_binding_is_unused(locals, n - 1, d));
        if exists|k: int| k < n && #[trigger] says_binding_is_unused(locals, k, d) {
            let k = choose|k: int| k < n && #[trigger] says_binding_is_unused(locals, k, d);
            if k < n - 1 {
                assert(before.contains(d));
            }
        }
    } else {
        assert(binding_findings(locals, n) =~= seq![]);
    }
}

proof fn lemma_require_findings(
    sites: Seq<RequireView>,
    code: Seq<char>,
    label: Seq<char>,
    unnecessary: bool,
    n: nat,
    d: DiagnosticView,
)
    requires
        n <= sites.len(),
    ensures
        require_findings(sites, code, label, unnecessary, n).contains(d) <==> exists|k: int|
            k < n && #[trigger] says_of_require(sites, code, label, unnecessary, k, d),
    decreases n,
{
    if n > 0 {
        let before = require_findings(sites, code, label, unnecessary, (n - 1) as nat);
        let site = sites[n - 1];
        let last = warning(site.range, code, label + site.namespace, unnecessary);
        lemma_require_findings(sites, code, label, unnecessary, (n - 1) as nat, d);
        lemma_push_contains(before, last, d);
        assert(d == last <==> says_of_require(sites, code, label, unnecessary, n - 1, d));
        if exists|k: int|
            k < n && #[trigger] says_of_require(sites, code, label, unnecessary, k, d) {
            let k = choose|k: int|
                k < n && #[trigger] says_of_require(sites, code, label, unnecessary, k, d);
            if k < n - 1 {
                assert(before.contains(d));
            }
        }
    } else {
        assert(require_findings(sites, code, label, unnecessary, n) =~= seq![]);
    }
}

/// The findings in a source file are these and no others: each qualified usage whose prefix
/// stands for nothing, each require that nothing uses or that stands there twice, each
/// binding that nothing uses, and each private definition that the file does not use outside
/// the definition's own form.
pub proof fn law_findings_say_what_is_wrong(
    source: Seq<char>,
    path: Seq<char>,
    cfg: ExtractConfigView,
    d: DiagnosticView,
)
    requires
        clojure_source(path),
        syntax_of(source) is Some,
    ensures
        findings(source, path, cfg).contains(d) <==> {
            let a = analysis_of(source, path, cfg)->0;
            ||| exists|k: int| #[trigger]
                says_prefix_is_unresolved(a.meta, qualified(syntax_of(source)->0), k, d)
            ||| exists|k: int| #[trigger]
                says_of_require(
                    unused_of(source),
                    "unused-namespace"@,
                    "Unused namespace: "@,
                    true,
                    k,
                    d,
                )
            ||| exists|k: int| #[trigger]
                says_of_require(
                    repeated_of(source),
                    "duplicate-require"@,
                    "Duplicate require: "@,
                    false,
                    k,
                    d,
                )
            ||| exists|k: int| #[trigger] says_binding_is_unused(a.unused_bindings, k, d)
            ||| exists|k: int| #[trigger]
                says_private_is_unused(a.symbols, a.occurrences, k, d)
        },
{
    let a = analysis_of(source, path, cfg)->0;
    let usages = qualified(syntax_of(source)->0);
    let (unused, repeated) = (unused_of(source), repeated_of(source));
    let one = unresolved_findings(a.meta, usages, usages.len());
    let two = require_findings(
        unused,
        "unused-namespace"@,
        "Unused namespace: "@,
        true,
        unused.len(),
    );
    let three = require_findings(
        repeated,
        "duplicate-require"@,
        "Duplicate require: "@,
        false,
        repeated.len(),
    );
    let four = binding_findings(a.unused_bindings, a.unused_bindings.len());
    let five = private_findings(a.symbols, a.occurrences, a.symbols.len());
    lemma_unresolved_findings(a.meta, usages, usages.len(), d);
    lemma_require_findings(
        unused,
        "unused-namespace"@,
        "Unused namespace: "@,
        true,
        unused.len(),
        d,
    );
    lemma_require_findings(
        repeated,
        "duplicate-require"@,
        "Duplicate require: "@,
        false,
        repeated.len(),
        d,
    );
    lemma_binding_findings(a.unused_bindings, a.unused_bindings.len(), d);
    lemma_private_findings(a.symbols, a.occurrences, a.symbols.len(), d);
    lemma_concat_contains(one + two + three + four, five, d);
    lemma_concat_contains(one + two + three, four, d);
    lemma_concat_contains(one + two, three, d);
    lemma_concat_contains(one, two, d);
}

/// A private definition that is used outside its own form, wherever and however often it is
/// used inside, is not reported; one that is used nowhere else is, where it is a function, a
/// macro or a value.
pub proof fn law_private_vars_are_reported_when_unused(
    source: Seq<char>,
    path: Seq<char>,
    cfg: ExtractConfigView,
    k: int,
)
    requires
        clojure_source(path),
        analysis_of(source, path, cfg) matches Some(a) && 0 <= k < a.symbols.len()
            && a.symbols[k].private && (forall|j: int|
            0 <= j < a.symbols.len() && (#[trigger] a.symbols[j]).name_range
                == a.symbols[k].name_range ==> j == k),
    ensures
        ({
            let a = analysis_of(source, path, cfg)->0;
            let sym = a.symbols[k];
            let reported = exists|i: int|
                0 <= i < findings(source, path, cfg).len() && (#[trigger] findings(
                    source,
                    path,
                    cfg,
                )[i]).range == sym.name_range && findings(source, path, cfg)[i].code == Some(
                    "unused-private-var"@,
                );
            &&& (exists|j: int|
                0 <= j < a.occurrences.len() && (#[trigger] a.occurrences[j]).fqn == sym.fqn
                    && !sym.range.covers(a.occurrences[j].name_range)) ==> !reported
            &&& (forall|j: int|
                0 <= j < a.occurrences.len() && (#[trigger] a.occurrences[j]).fqn == sym.fqn
                    ==> sym.range.covers(a.occurrences[j].name_range)) && (sym.kind
                == DefKind::Def || sym.kind == DefKind::Defn || sym.kind == DefKind::DefnPrivate
                || sym.kind == DefKind::Defonce || sym.kind == DefKind::Defmacro || sym.kind
                == DefKind::Defmulti) ==> reported
        }),
{
    let a = analysis_of(source, path, cfg)->0;
    let sym = a.symbols[k];
    let all = findings(source, path, cfg);
    lemma_codes_apart();
    assert forall|i: int|
        0 <= i < all.len() && (#[trigger] all[i]).range == sym.name_range && all[i].code == Some(
            "unused-private-var"@,
        ) implies says_private_is_unused(a.symbols, a.occurrences, k, all[i]) by {
        law_findings_say_what_is_wrong(source, path, cfg, all[i]);
        assert(all.contains(all[i]));
        let m = choose|m: int| #[trigger]
            says_private_is_unused(a.symbols, a.occurrences, m, all[i]);
        assert(a.symbols[m].name_range == sym.name_range);
    }
    let d = warning(
        sym.name_range,
        "unused-private-var"@,
        "Unused private var: "@ + sym.name,
        true,
    );
    law_findings_say_what_is_wrong(source, path, cfg, d);
    if says_private_is_unused(a.symbols, a.occurrences, k, d) {
        assert(all.contains(d));
        assert(all[all.index_of(d)] == d);
    }
}

proof fn lemma_codes_apart()
    ensures
        "unused-private-var"@ != "unresolved-namespace"@,
        "unused-private-var"@ != "unused-namespace"@,
        "unused-private-var"@ != "duplicate-require"@,
        "unused-private-var"@ != "unused-binding"@,
{
    reveal_strlit("unused-private-var");
    reveal_strlit("unresolved-namespace");
    reveal_strlit("unused-namespace");
    reveal_strlit("duplicate-require");
    reveal_strlit("unused-binding");
    assert("unused-private-var"@[2] == 'u' && "unresolved-namespace"@[2] == 'r');
    assert("unused-private-var"@[7] == 'p' && "unused-namespace"@[7] == 'n');
    assert("duplicate-require"@[0] == 'd');
    assert("unused-binding"@[7] == 'b');
}

}
