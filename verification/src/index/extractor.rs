//! Reading namespaces, definitions and qualified names off a syntax tree.

use vstd::prelude::*;
use crate::collect::{dict_get, push_item, push_str, strs};
use crate::config::{build_manifest, is_build_manifest, is_edn};
use crate::index::core_library::core_name_list;
use crate::index::definitions::{extract_outline, file_outline};
use crate::index::model::{
    ExtractConfig, ExtractConfigView, NsMeta, NsMetaView, Occurrence, OccurrenceView, Symbol,
    SymbolView,
};
use crate::index::occurrences::{file_walked, walk_file, CtxView, OccurrenceCtx};
use crate::index::scope::{BindingView, LocalBinding};
use crate::lsp::Range;
use crate::path::extension_of;
use crate::syntax::{lemma_children, parse_source, syntax_of, Form, FormView, Kind};
use crate::text::{concat3, contains, has_part, str_eq};

verus! {

broadcast use lemma_children;

/// The name that a symbol form spells. Its text would take in metadata too
/// (`^:private foo`).
pub open spec fn sym_name(f: FormView) -> Seq<char> {
    match f.name {
        Some(p) => p.text,
        None => f.text,
    }
}

/// Where the name of a symbol form stands.
pub open spec fn sym_range(f: FormView) -> Range {
    match f.name {
        Some(p) => p.range,
        None => f.range,
    }
}

/// The name that a symbol form spells.
pub fn sym_text(f: &Form) -> (r: &str)
    ensures
        r@ == sym_name(f@),
{
    match &f.name {
        Some(p) => p.text.as_str(),
        None => f.text.as_str(),
    }
}

/// Where the name of a symbol form stands.
pub fn sym_name_range(f: &Form) -> (r: Range)
    ensures
        r == sym_range(f@),
{
    match &f.name {
        Some(p) => p.range,
        None => f.range,
    }
}

/// `ns/name`.
pub open spec fn qualify(ns: Seq<char>, name: Seq<char>) -> Seq<char> {
    ns + "/"@ + name
}

/// `ns/name`, or the name alone where there is no namespace.
pub open spec fn in_ns(ns: Seq<char>, name: Seq<char>) -> Seq<char> {
    if ns.len() == 0 {
        name
    } else {
        qualify(ns, name)
    }
}

/// `ns/name`, or the name alone where there is no namespace.
pub fn name_in_ns(ns: &str, name: &str) -> (r: String)
    ensures
        r@ == in_ns(ns@, name@),
{
    if ns.is_empty() {
        name.to_owned()
    } else {
        concat3(ns, "/", name)
    }
}

// --- qualified usages -------------------------------------------------------

/// A usage of a name through a namespace (`str/join`). `range` covers the whole
/// symbol.
#[derive(Clone, Debug, PartialEq, Eq)]
pub struct QualifiedUsage {
    pub prefix: String,
    pub name: String,
    pub range: Range,
}

/// What a [`QualifiedUsage`] says.
pub ghost struct QualifiedUsageView {
    pub prefix: Seq<char>,
    pub name: Seq<char>,
    pub range: Range,
}

impl DeepView for QualifiedUsage {
    type V = QualifiedUsageView;

    open spec fn deep_view(&self) -> QualifiedUsageView {
        QualifiedUsageView { prefix: self.prefix@, name: self.name@, range: self.range }
    }
}

/// Whether the first child is a `kind` that reads `text`.
pub open spec fn starts_with_token(f: FormView, kind: Kind, text: Seq<char>) -> bool {
    f.children.len() > 0 && f.children[0].kind == kind && f.children[0].text == text
}

/// Whether the first child is a `kind` that reads `text`.
pub fn first_token_is(f: &Form, kind: Kind, text: &str) -> (r: bool)
    ensures
        r == starts_with_token(f@, kind, text@),
{
    f.children.len() > 0 && f.children[0].kind == kind && str_eq(f.children[0].text.as_str(), text)
}

/// Whether child `i` of a map is the vector of a `:keys`, `:syms` or `:strs`
/// entry. A symbol `foo/bar` there binds a local from the key `:foo/bar`; it uses
/// no namespace.
pub open spec fn destructures_keys(f: FormView, i: int) -> bool {
    &&& f.kind == Kind::MapLit
    &&& i % 2 == 1
    &&& f.children[i].kind == Kind::VecLit
    &&& f.children[i - 1].kind == Kind::KwdLit
    &&& (f.children[i - 1].text == ":keys"@ || f.children[i - 1].text == ":syms"@
        || f.children[i - 1].text == ":strs"@)
}

/// The qualified usages in a form, in reading order. Quoted data (`'a/b`,
/// `(quote …)`) and discarded forms use nothing.
pub open spec fn qualified(f: FormView) -> Seq<QualifiedUsageView>
    decreases f, f.children.len() + 1,
{
    if f.kind == Kind::QuotingLit || f.kind == Kind::DisExpr {
        Seq::empty()
    } else if f.kind == Kind::SymLit {
        match (f.namespace, f.name) {
            (Some(ns), Some(name)) => if ns.text.len() > 0 && name.text.len() > 0 {
                seq![
                    QualifiedUsageView {
                        prefix: ns.text,
                        name: name.text,
                        range: Range { start: ns.range.start, end: name.range.end },
                    },
                ]
            } else {
                Seq::empty()
            },
            _ => Seq::empty(),
        }
    } else if f.kind == Kind::ListLit && starts_with_token(f, Kind::SymLit, "quote"@) {
        Seq::empty()
    } else {
        qualified_in_children(f, f.children.len())
    }
}

/// The qualified usages in the first `n` children of a form.
pub open spec fn qualified_in_children(f: FormView, n: nat) -> Seq<QualifiedUsageView>
    decreases f, n,
{
    if n == 0 || n > f.children.len() {
        Seq::empty()
    } else {
        let before = qualified_in_children(f, (n - 1) as nat);
        if destructures_keys(f, n - 1) {
            before
        } else {
            before + qualified(f.children[n - 1])
        }
    }
}

fn collect_qualified(f: &Form, out: &mut Vec<QualifiedUsage>)
    ensures
        final(out).deep_view() == old(out).deep_view() + qualified(f@),
    decreases f@,
{
    let ghost before = out.deep_view();
    if f.kind == Kind::QuotingLit || f.kind == Kind::DisExpr {
        assert(before + qualified(f@) =~= before);
        return;
    }
    if f.kind == Kind::SymLit {
        if let (Some(ns), Some(name)) = (&f.namespace, &f.name) {
            if !ns.text.as_str().is_empty() && !name.text.as_str().is_empty() {
                let usage = QualifiedUsage {
                    prefix: ns.text.clone(),
                    name: name.text.clone(),
                    range: Range { start: ns.range.start, end: name.range.end },
                };
                push_item(out, usage);
                assert(out.deep_view() =~= before + qualified(f@));
                return;
            }
        }
        assert(before + qualified(f@) =~= before);
        return;
    }
    if f.kind == Kind::ListLit && first_token_is(f, Kind::SymLit, "quote") {
        assert(before + qualified(f@) =~= before);
        return;
    }
    let mut i: usize = 0;
    assert(before + qualified_in_children(f@, 0) =~= before);
    while i < f.children.len()
        invariant
            i <= f.children@.len(),
            out.deep_view() == before + qualified_in_children(f@, i as nat),
        decreases f.children@.len() - i,
    {
        let skip = f.kind == Kind::MapLit && i % 2 == 1 && f.children[i].kind == Kind::VecLit
            && f.children[i - 1].kind == Kind::KwdLit && (str_eq(
            f.children[i - 1].text.as_str(),
            ":keys",
        ) || str_eq(f.children[i - 1].text.as_str(), ":syms") || str_eq(
            f.children[i - 1].text.as_str(),
            ":strs",
        ));
        assert(skip == destructures_keys(f@, i as int));
        if !skip {
            assert(decreases_to!(f@ => f@.children[i as int]));
            collect_qualified(&f.children[i], out);
            assert(out.deep_view() =~= before + qualified_in_children(f@, (i + 1) as nat));
        }
        i += 1;
    }
}

/// The qualified usages in a syntax tree.
pub fn qualified_usages_in(root: &Form) -> (r: Vec<QualifiedUsage>)
    ensures
        r.deep_view() == qualified(root@),
{
    let mut out: Vec<QualifiedUsage> = Vec::new();
    assert(out.deep_view() =~= Seq::empty());
    collect_qualified(root, &mut out);
    assert(out.deep_view() =~= qualified(root@));
    out
}

/// Every usage of a name through a namespace in `source`, in reading order.
/// Quoted data is no usage; a syntax-quoted form is, since macro bodies name real
/// vars.
pub fn qualified_usages(source: &str) -> (r: Vec<QualifiedUsage>)
    ensures
        r.deep_view() == match syntax_of(source@) {
            Some(root) => qualified(root),
            None => Seq::empty(),
        },
{
    match parse_source(source) {
        Some(root) => qualified_usages_in(&root),
        None => {
            let out: Vec<QualifiedUsage> = Vec::new();
            assert(out.deep_view() =~= Seq::empty());
            out
        },
    }
}

// --- keywords -----------------------------------------------------------------

/// The fully qualified name of a keyword form, colon first (`:ns/name`), so that
/// it never equals a var's. `None` for an unqualified keyword.
///
/// `::name` takes the file's own namespace and `::alias/name` what the alias
/// stands for; the namespace of `:ns/name` is taken as it is.
pub open spec fn keyword_name(f: FormView, meta: NsMetaView) -> Option<Seq<char>> {
    match f.name {
        None => None,
        Some(name) => {
            let auto = f.marker matches Some(m) && m.text == "::"@;
            match f.namespace {
                Some(ns) => Some(
                    ":"@ + (if auto {
                        meta.alias_target(ns.text)
                    } else {
                        ns.text
                    }) + ("/"@ + name.text),
                ),
                None => if auto && meta.name.len() > 0 {
                    Some(":"@ + meta.name + ("/"@ + name.text))
                } else {
                    None
                },
            }
        },
    }
}

/// The fully qualified name of a keyword form.
pub fn keyword_fqn(f: &Form, meta: &NsMeta) -> (r: Option<String>)
    ensures
        r.deep_view() == keyword_name(f@, meta.deep_view()),
{
    let name = match &f.name {
        Some(p) => p.text.as_str(),
        None => {
            return None;
        },
    };
    let auto = match &f.marker {
        Some(m) => str_eq(m.text.as_str(), "::"),
        None => false,
    };
    match &f.namespace {
        Some(p) => {
            let ns = if auto {
                meta.resolve_alias(p.text.as_str())
            } else {
                p.text.as_str()
            };
            let tail = crate::text::concat2("/", name);
            Some(concat3(":", ns, tail.as_str()))
        },
        None => {
            if auto && !meta.name.as_str().is_empty() {
                let tail = crate::text::concat2("/", name);
                Some(concat3(":", meta.name.as_str(), tail.as_str()))
            } else {
                None
            }
        },
    }
}

/// The qualified keywords in a form, in reading order.
pub open spec fn edn_keywords(f: FormView, meta: NsMetaView) -> Seq<OccurrenceView>
    decreases f, f.children.len() + 1,
{
    if f.kind == Kind::KwdLit {
        match keyword_name(f, meta) {
            Some(fqn) => seq![OccurrenceView { fqn, name_range: f.range }],
            None => Seq::empty(),
        }
    } else {
        edn_keywords_in_children(f, f.children.len(), meta)
    }
}

/// The qualified keywords in the first `n` children of a form.
pub open spec fn edn_keywords_in_children(f: FormView, n: nat, meta: NsMetaView) -> Seq<
    OccurrenceView,
>
    decreases f, n,
{
    if n == 0 || n > f.children.len() {
        Seq::empty()
    } else {
        edn_keywords_in_children(f, (n - 1) as nat, meta) + edn_keywords(f.children[n - 1], meta)
    }
}

fn collect_edn_keywords(f: &Form, meta: &NsMeta, out: &mut Vec<Occurrence>)
    ensures
        final(out).deep_view() == old(out).deep_view() + edn_keywords(f@, meta.deep_view()),
    decreases f@,
{
    let ghost before = out.deep_view();
    let ghost m = meta.deep_view();
    if f.kind == Kind::KwdLit {
        match keyword_fqn(f, meta) {
            Some(fqn) => {
                push_item(out, Occurrence { fqn, name_range: f.range });
            },
            None => {},
        }
        assert(out.deep_view() =~= before + edn_keywords(f@, m));
        return;
    }
    let mut i: usize = 0;
    assert(before + edn_keywords_in_children(f@, 0, m) =~= before);
    while i < f.children.len()
        invariant
            i <= f.children@.len(),
            m == meta.deep_view(),
            out.deep_view() == before + edn_keywords_in_children(f@, i as nat, m),
        decreases f.children@.len() - i,
    {
        assert(decreases_to!(f@ => f@.children[i as int]));
        collect_edn_keywords(&f.children[i], meta, out);
        assert(out.deep_view() =~= before + edn_keywords_in_children(f@, (i + 1) as nat, m));
        i += 1;
    }
}

/// The keyword occurrences of a configuration file, given its syntax tree.
pub fn edn_occurrences_in(root: &Form) -> (r: Vec<Occurrence>)
    ensures
        r.deep_view() == edn_keywords(root@, NsMetaView::blank(Seq::empty())),
{
    let meta = NsMeta::empty("");
    proof {
        reveal_strlit("");
        assert(""@ =~= Seq::empty());
    }
    let mut out: Vec<Occurrence> = Vec::new();
    assert(out.deep_view() =~= Seq::empty());
    collect_edn_keywords(root, &meta, &mut out);
    assert(out.deep_view() =~= edn_keywords(root@, meta.deep_view()));
    out
}

/// What [`extract_edn`] gives for `source`.
pub open spec fn edn_occurrences(source: Seq<char>) -> Seq<OccurrenceView> {
    match syntax_of(source) {
        Some(root) => edn_keywords(root, NsMetaView::blank(Seq::empty())),
        None => Seq::empty(),
    }
}

/// The qualified keywords of a configuration file (an Integrant or Aero system
/// map). Such a file has no `ns` form and no `::`, so only a literal `:ns/name`
/// qualifies, at any depth.
pub fn extract_edn(source: &str) -> (r: Vec<Occurrence>)
    ensures
        r.deep_view() == edn_occurrences(source@),
{
    match parse_source(source) {
        Some(root) => edn_occurrences_in(&root),
        None => {
            let out: Vec<Occurrence> = Vec::new();
            assert(out.deep_view() =~= Seq::empty());
            out
        },
    }
}

// --- configuration files ----------------------------------------------------

/// The reader tag that marks an EDN file as an Integrant system.
pub const INTEGRANT_REF_TAG: &'static str = "#ig/ref";

/// Where the first map among the top-level forms from `i` on stands.
pub open spec fn first_map(root: FormView, i: nat) -> Option<nat>
    decreases root.children.len() - i,
{
    if i >= root.children.len() {
        None
    } else if root.children[i as int].kind == Kind::MapLit {
        Some(i)
    } else {
        first_map(root, i + 1)
    }
}

/// Whether some key of the map is a qualified keyword.
pub open spec fn has_qualified_key(map: FormView) -> bool {
    exists|p: int|
        0 <= p && 2 * p < map.children.len() && (#[trigger] map.children[2 * p]).kind
            == Kind::KwdLit && map.children[2 * p].namespace is Some
}

/// Whether the first top-level map has a qualified key: the mark of a system map.
/// The keys of a manifest are unqualified.
pub open spec fn system_map(root: FormView) -> bool {
    match first_map(root, 0) {
        Some(i) => has_qualified_key(root.children[i as int]),
        None => false,
    }
}

/// Whether the first top-level map has a qualified key.
pub fn has_namespaced_top_level_key(root: &Form) -> (r: bool)
    ensures
        r == system_map(root@),
{
    let mut i: usize = 0;
    while i < root.children.len()
        invariant
            i <= root.children@.len(),
            first_map(root@, 0) == first_map(root@, i as nat),
        decreases root.children@.len() - i,
    {
        if root.children[i].kind == Kind::MapLit {
            let map = &root.children[i];
            let n: usize = map.children.len();
            let mut k: usize = 0;
            while k < n
                invariant
                    n == map.children@.len(),
                    k % 2 == 0,
                    k <= n + 1,
                    i < root.children@.len(),
                    map@ == root@.children[i as int],
                    first_map(root@, 0) == Some(i as nat),
                    forall|p: int|
                        0 <= p && 2 * p < k && 2 * p < n ==> !((#[trigger] map@.children[2
                            * p]).kind == Kind::KwdLit && map@.children[2 * p].namespace is Some),
                decreases n + 1 - k,
            {
                if map.children[k].kind == Kind::KwdLit && map.children[k].namespace.is_some() {
                    assert(map@.children[2 * (k as int / 2)].kind == Kind::KwdLit);
                    return true;
                }
                if k + 1 >= n {
                    assert(!has_qualified_key(map@));
                    return false;
                }
                k += 2;
            }
            assert(!has_qualified_key(map@));
            return false;
        }
        i += 1;
    }
    false
}

/// Whether the file at `path` that holds `source` is a system configuration: an
/// EDN file, no build manifest, that has an `#ig/ref` tag or is a map with
/// qualified keys (a system whose components do not refer to each other).
pub open spec fn integrant_edn(path: Seq<char>, source: Seq<char>) -> bool {
    extension_of(path) == Some("edn"@) && !build_manifest(path) && (has_part(
        source,
        INTEGRANT_REF_TAG@,
    ) || (syntax_of(source) matches Some(root) && system_map(root)))
}

/// Whether the file at `path` that holds `source` is a system configuration.
pub fn is_integrant_edn(path: &str, source: &str) -> (r: bool)
    ensures
        r == integrant_edn(path@, source@),
{
    if !is_edn(path) || is_build_manifest(path) {
        return false;
    }
    if contains(source, INTEGRANT_REF_TAG) {
        return true;
    }
    match parse_source(source) {
        Some(root) => has_namespaced_top_level_key(&root),
        None => false,
    }
}

// --- whole files ------------------------------------------------------------

/// Why a file could not be read.
#[derive(Clone, Copy, Debug, PartialEq, Eq, Structural)]
pub enum ExtractError {
    /// The parser gave no tree.
    NoTree,
}

/// What one reading of a file yields.
#[derive(Debug)]
pub struct Analysis {
    pub ns_meta: NsMeta,
    /// The definitions that it makes.
    pub symbols: Vec<Symbol>,
    /// The resolved usages in it.
    pub occurrences: Vec<Occurrence>,
    /// The locals that nothing uses.
    pub unused_bindings: Vec<LocalBinding>,
}

/// What an [`Analysis`] says.
pub ghost struct AnalysisView {
    pub meta: NsMetaView,
    pub symbols: Seq<SymbolView>,
    pub occurrences: Seq<OccurrenceView>,
    pub unused_bindings: Seq<BindingView>,
}

impl DeepView for Analysis {
    type V = AnalysisView;

    open spec fn deep_view(&self) -> AnalysisView {
        AnalysisView {
            meta: self.ns_meta.deep_view(),
            symbols: self.symbols.deep_view(),
            occurrences: self.occurrences.deep_view(),
            unused_bindings: self.unused_bindings.deep_view(),
        }
    }
}

/// The names that `symbols` define.
pub open spec fn defined_names(symbols: Seq<SymbolView>) -> Seq<Seq<char>> {
    Seq::new(symbols.len(), |i: int| symbols[i].name)
}

/// What the names in a file are resolved against.
pub open spec fn file_ctx(root: FormView, file: Seq<char>, cfg: ExtractConfigView) -> CtxView {
    let o = file_outline(root, file, cfg);
    CtxView { meta: o.meta, def_names: defined_names(o.symbols), cfg }
}

/// What reading a syntax tree yields: first the definitions, and then, resolved
/// against them, the usages and the unused locals.
pub open spec fn analyzed(root: FormView, file: Seq<char>, cfg: ExtractConfigView) -> AnalysisView {
    let o = file_outline(root, file, cfg);
    let w = file_walked(root, file_ctx(root, file, cfg));
    AnalysisView {
        meta: o.meta,
        symbols: o.symbols,
        occurrences: w.out,
        unused_bindings: w.scope.unused,
    }
}

/// Reads a syntax tree.
pub fn analyze(root: &Form, file: &str, cfg: &ExtractConfig) -> (r: Analysis)
    ensures
        r.deep_view() == analyzed(root@, file@, cfg.deep_view()),
{
    let (ns_meta, symbols) = extract_outline(root, file, cfg);
    let mut def_names: Vec<String> = Vec::new();
    let mut i: usize = 0;
    while i < symbols.len()
        invariant
            i <= symbols@.len(),
            strs(def_names@) =~= defined_names(symbols.deep_view()).take(i as int),
        decreases symbols@.len() - i,
    {
        let ghost before = strs(def_names@);
        push_str(&mut def_names, symbols[i].name.clone());
        assert(strs(def_names@) =~= before.push(symbols.deep_view()[i as int].name));
        i += 1;
    }
    assert(strs(def_names@) =~= defined_names(symbols.deep_view()));
    let ctx = OccurrenceCtx { ns_meta: &ns_meta, def_names, cfg };
    assert(ctx@ == file_ctx(root@, file@, cfg.deep_view()));
    let (occurrences, unused_bindings) = walk_file(root, &ctx);
    Analysis { ns_meta, symbols, occurrences, unused_bindings }
}

/// What [`extract_analysis_with`] gives for `source`.
pub open spec fn analysis_of(
    source: Seq<char>,
    file: Seq<char>,
    cfg: ExtractConfigView,
) -> Option<AnalysisView> {
    match syntax_of(source) {
        Some(root) => Some(analyzed(root, file, cfg)),
        None => None,
    }
}

/// Parses and reads `source`, honouring the configuration's defining macros.
pub fn extract_analysis_with(source: &str, file: &str, cfg: &ExtractConfig) -> (r: Result<
    Analysis,
    ExtractError,
>)
    ensures
        match r {
            Ok(a) => analysis_of(source@, file@, cfg.deep_view()) == Some(a.deep_view()),
            Err(e) => analysis_of(source@, file@, cfg.deep_view()) is None && e
                == ExtractError::NoTree,
        },
{
    match parse_source(source) {
        Some(root) => Ok(analyze(&root, file, cfg)),
        None => Err(ExtractError::NoTree),
    }
}

/// The namespace, the definitions and the usages of `source`, honouring the
/// configuration's defining macros: a name that such a macro introduces is a
/// definition, and its head is still a usage.
pub fn extract_full_with(source: &str, file: &str, cfg: &ExtractConfig) -> (r: Result<
    (NsMeta, Vec<Symbol>, Vec<Occurrence>),
    ExtractError,
>)
    ensures
        match r {
            Ok((meta, symbols, occurrences)) => {
                &&& analysis_of(source@, file@, cfg.deep_view()) matches Some(a)
                &&& meta.deep_view() == a.meta
                &&& symbols.deep_view() == a.symbols
                &&& occurrences.deep_view() == a.occurrences
            },
            Err(_) => analysis_of(source@, file@, cfg.deep_view()) is None,
        },
{
    match extract_analysis_with(source, file, cfg) {
        Ok(a) => Ok((a.ns_meta, a.symbols, a.occurrences)),
        Err(e) => Err(e),
    }
}

/// The default configuration: no macro defines names, and the core library is Clojure's.
pub open spec fn no_config() -> ExtractConfigView {
    ExtractConfigView { lint_as: Seq::empty(), core_names: core_name_list() }
}

/// [`extract_full_with`] under the default configuration.
pub fn extract_full(source: &str, file: &str) -> (r: Result<
    (NsMeta, Vec<Symbol>, Vec<Occurrence>),
    ExtractError,
>)
    ensures
        match r {
            Ok((meta, symbols, occurrences)) => {
                &&& analysis_of(source@, file@, no_config()) matches Some(a)
                &&& meta.deep_view() == a.meta
                &&& symbols.deep_view() == a.symbols
                &&& occurrences.deep_view() == a.occurrences
            },
            Err(_) => analysis_of(source@, file@, no_config()) is None,
        },
{
    let cfg = ExtractConfig::default();
    extract_full_with(source, file, &cfg)
}

/// The namespace and the definitions of `source`.
pub fn extract(source: &str, file: &str) -> (r: Result<(NsMeta, Vec<Symbol>), ExtractError>)
    ensures
        match r {
            Ok((meta, symbols)) => {
                &&& analysis_of(source@, file@, no_config()) matches Some(a)
                &&& meta.deep_view() == a.meta
                &&& symbols.deep_view() == a.symbols
            },
            Err(_) => analysis_of(source@, file@, no_config()) is None,
        },
{
    match extract_full(source, file) {
        Ok((meta, symbols, _)) => Ok((meta, symbols)),
        Err(e) => Err(e),
    }
}

/// What [`file_occurrences_with`] gives.
pub open spec fn occurrences_of(
    source: Seq<char>,
    path: Seq<char>,
    cfg: ExtractConfigView,
) -> Seq<OccurrenceView> {
    if extension_of(path) == Some("edn"@) {
        if integrant_edn(path, source) {
            edn_occurrences(source)
        } else {
            Seq::empty()
        }
    } else {
        match analysis_of(source, path, cfg) {
            Some(a) => a.occurrences,
            None => Seq::empty(),
        }
    }
}

/// The usages in any indexed file: of a system configuration its keywords, of
/// another EDN file (a build manifest) nothing, and of source what
/// [`extract_full_with`] finds.
pub fn file_occurrences_with(source: &str, path: &str, cfg: &ExtractConfig) -> (r: Vec<Occurrence>)
    ensures
        r.deep_view() == occurrences_of(source@, path@, cfg.deep_view()),
{
    if is_edn(path) {
        if is_integrant_edn(path, source) {
            return extract_edn(source);
        }
    } else if let Ok((_, _, occurrences)) = extract_full_with(source, path, cfg) {
        return occurrences;
    }
    let none: Vec<Occurrence> = Vec::new();
    assert(none.deep_view() =~= Seq::empty());
    none
}

/// [`file_occurrences_with`] under the default configuration.
pub fn file_occurrences(source: &str, path: &str) -> (r: Vec<Occurrence>)
    ensures
        r.deep_view() == occurrences_of(source@, path@, no_config()),
{
    let cfg = ExtractConfig::default();
    file_occurrences_with(source, path, &cfg)
}

/// Keywords and vars never share a name: a keyword's starts with a colon. The namespace
/// that a plain keyword spells out is taken as it is, whatever the file's aliases are.
pub proof fn law_keyword_names_stand_apart(f: FormView, meta: NsMetaView, other: NsMetaView)
    ensures
        keyword_name(f, meta) matches Some(k) ==> k.len() > 0 && k[0] == ':',
        f.marker matches Some(m) && m.text != "::"@ ==> keyword_name(f, meta) == keyword_name(
            f,
            other,
        ),
{
    reveal_strlit(":");
}

/// Whether the usage is that of the qualified symbol that the path leads to, which is neither quoted,
/// nor discarded, nor a key that is destructured.
pub open spec fn usage_stands(f: FormView, path: Seq<int>, u: QualifiedUsageView) -> bool
    decreases path.len(),
{
    if path.len() == 0 {
        &&& f.kind == Kind::SymLit
        &&& f.namespace matches Some(ns) && f.name matches Some(name) && ns.text.len() > 0
            && name.text.len() > 0 && u == (QualifiedUsageView {
            prefix: ns.text,
            name: name.text,
            range: Range { start: ns.range.start, end: name.range.end },
        })
    } else {
        let i = path[0];
        &&& 0 <= i < f.children.len()
        &&& !(f.kind == Kind::QuotingLit || f.kind == Kind::DisExpr || f.kind == Kind::SymLit || (f.kind
            == Kind::ListLit && starts_with_token(f, Kind::SymLit, "quote"@))) && !destructures_keys(
            f,
            i,
        )
        &&& usage_stands(f.children[i], path.drop_first(), u)
    }
}

proof fn lemma_qualified_stands(f: FormView, u: QualifiedUsageView) -> (path: Seq<int>)
    requires
        qualified(f).contains(u),
    ensures
        usage_stands(f, path, u),
    decreases f, f.children.len() + 1,
{
    if f.kind == Kind::QuotingLit || f.kind == Kind::DisExpr || f.kind == Kind::SymLit || (f.kind
        == Kind::ListLit && starts_with_token(f, Kind::SymLit, "quote"@)) {
        Seq::empty()
    } else {
        lemma_qualified_in_children_stands(f, f.children.len(), u)
    }
}

proof fn lemma_qualified_in_children_stands(f: FormView, n: nat, u: QualifiedUsageView) -> (path: Seq<int>)
    requires
        !(f.kind == Kind::QuotingLit || f.kind == Kind::DisExpr || f.kind == Kind::SymLit || (f.kind
        == Kind::ListLit && starts_with_token(f, Kind::SymLit, "quote"@))),
        qualified_in_children(f, n).contains(u),
    ensures
        usage_stands(f, path, u),
    decreases f, n,
{
    let before = qualified_in_children(f, (n - 1) as nat);
    let k = qualified_in_children(f, n).index_of(u);
    if k < before.len() {
        assert(before[k] == u);
        lemma_qualified_in_children_stands(f, (n - 1) as nat, u)
    } else {
        let last = qualified(f.children[n - 1]);
        assert(last[k - before.len()] == u);
        let rest = lemma_qualified_stands(f.children[n - 1], u);
        assert((seq![n - 1] + rest).drop_first() =~= rest);
        seq![n - 1] + rest
    }
}

proof fn lemma_qualified_holds(f: FormView, path: Seq<int>, u: QualifiedUsageView)
    requires
        usage_stands(f, path, u),
    ensures
        qualified(f).contains(u),
    decreases path.len(),
{
    if path.len() > 0 {
        let i = path[0];
        lemma_qualified_holds(f.children[i], path.drop_first(), u);
        lemma_qualified_in_children_holds(f, f.children.len(), i, u);
    } else {
        assert(qualified(f)[0] == u);
    }
}

proof fn lemma_qualified_in_children_holds(f: FormView, n: nat, i: int, u: QualifiedUsageView)
    requires
        0 <= i < n <= f.children.len(),
        !(f.kind == Kind::QuotingLit || f.kind == Kind::DisExpr || f.kind == Kind::SymLit || (f.kind
            == Kind::ListLit && starts_with_token(f, Kind::SymLit, "quote"@))) && !destructures_keys(
            f,
            i,
        ),
        qualified(f.children[i]).contains(u),
    ensures
        qualified_in_children(f, n).contains(u),
    decreases n,
{
    let before = qualified_in_children(f, (n - 1) as nat);
    let last = qualified(f.children[n - 1]);
    let all = qualified_in_children(f, n);
    if i < n - 1 {
        lemma_qualified_in_children_holds(f, (n - 1) as nat, i, u);
        assert(all[before.index_of(u)] == u);
    } else {
        assert(all[before.len() + last.index_of(u)] == u);
    }
}

/// The qualified usages are the qualified symbols of the whole tree, but for what is quoted,
/// discarded or a destructured key.
pub proof fn law_qualified_symbols_are_all_found(f: FormView, u: QualifiedUsageView)
    ensures
        qualified(f).contains(u) <==> exists|path: Seq<int>| #[trigger]
            usage_stands(f, path, u),
{
    if qualified(f).contains(u) {
        let path = lemma_qualified_stands(f, u);
        assert(usage_stands(f, path, u));
    }
    if exists|path: Seq<int>| #[trigger] usage_stands(f, path, u) {
        let path = choose|path: Seq<int>| #[trigger] usage_stands(f, path, u);
        lemma_qualified_holds(f, path, u);
    }
}

/// Whether the occurrence is the qualified keyword that the path leads to.
pub open spec fn keyword_stands(f: FormView, meta: NsMetaView, path: Seq<int>, o: OccurrenceView) -> bool
    decreases path.len(),
{
    if path.len() == 0 {
        f.kind == Kind::KwdLit && keyword_name(f, meta) == Some(o.fqn) && o.name_range == f.range
    } else {
        let i = path[0];
        &&& 0 <= i < f.children.len()
        &&& f.kind != Kind::KwdLit
        &&& keyword_stands(f.children[i], meta, path.drop_first(), o)
    }
}

proof fn lemma_edn_keywords_stands(f: FormView, meta: NsMetaView, o: OccurrenceView) -> (path: Seq<int>)
    requires
        edn_keywords(f, meta).contains(o),
    ensures
        keyword_stands(f, meta, path, o),
    decreases f, f.children.len() + 1,
{
    if f.kind == Kind::KwdLit {
        Seq::empty()
    } else {
        lemma_edn_keywords_in_children_stands(f, meta, f.children.len(), o)
    }
}

proof fn lemma_edn_keywords_in_children_stands(f: FormView, meta: NsMetaView, n: nat, o: OccurrenceView) -> (path: Seq<int>)
    requires
        !(f.kind == Kind::KwdLit),
        edn_keywords_in_children(f, n, meta).contains(o),
    ensures
        keyword_stands(f, meta, path, o),
    decreases f, n,
{
    let before = edn_keywords_in_children(f, (n - 1) as nat, meta);
    let k = edn_keywords_in_children(f, n, meta).index_of(o);
    if k < before.len() {
        assert(before[k] == o);
        lemma_edn_keywords_in_children_stands(f, meta, (n - 1) as nat, o)
    } else {
        let last = edn_keywords(f.children[n - 1], meta);
        assert(last[k - before.len()] == o);
        let rest = lemma_edn_keywords_stands(f.children[n - 1], meta, o);
        assert((seq![n - 1] + rest).drop_first() =~= rest);
        seq![n - 1] + rest
    }
}

proof fn lemma_edn_keywords_holds(f: FormView, meta: NsMetaView, path: Seq<int>, o: OccurrenceView)
    requires
        keyword_stands(f, meta, path, o),
    ensures
        edn_keywords(f, meta).contains(o),
    decreases path.len(),
{
    if path.len() > 0 {
        let i = path[0];
        lemma_edn_keywords_holds(f.children[i], meta, path.drop_first(), o);
        lemma_edn_keywords_in_children_holds(f, meta, f.children.len(), i, o);
    } else {
        assert(edn_keywords(f, meta)[0] == o);
    }
}

proof fn lemma_edn_keywords_in_children_holds(f: FormView, meta: NsMetaView, n: nat, i: int, o: OccurrenceView)
    requires
        0 <= i < n <= f.children.len(),
        f.kind != Kind::KwdLit,
        edn_keywords(f.children[i], meta).contains(o),
    ensures
        edn_keywords_in_children(f, n, meta).contains(o),
    decreases n,
{
    let before = edn_keywords_in_children(f, (n - 1) as nat, meta);
    let last = edn_keywords(f.children[n - 1], meta);
    let all = edn_keywords_in_children(f, n, meta);
    if i < n - 1 {
        lemma_edn_keywords_in_children_holds(f, meta, (n - 1) as nat, i, o);
        assert(all[before.index_of(o)] == o);
    } else {
        assert(all[before.len() + last.index_of(o)] == o);
    }
}

/// The occurrences in a configuration file are all its qualified keywords, however deep they
/// stand.
pub proof fn law_keywords_of_a_configuration_are_all_found(f: FormView, meta: NsMetaView, o: OccurrenceView)
    ensures
        edn_keywords(f, meta).contains(o) <==> exists|path: Seq<int>| #[trigger]
            keyword_stands(f, meta, path, o),
{
    if edn_keywords(f, meta).contains(o) {
        let path = lemma_edn_keywords_stands(f, meta, o);
        assert(keyword_stands(f, meta, path, o));
    }
    if exists|path: Seq<int>| #[trigger] keyword_stands(f, meta, path, o) {
        let path = choose|path: Seq<int>| #[trigger] keyword_stands(f, meta, path, o);
        lemma_edn_keywords_holds(f, meta, path, o);
    }
}

/// What a keyword names: one with a namespace names itself; behind two colons the namespace is what
/// the alias stands for, or the file's own where none is written; a plain keyword names nothing
/// that could be looked up.
pub proof fn law_keyword_means_its_namespace(f: FormView, meta: NsMetaView)
    requires
        f.name is Some,
    ensures
        ({
            let auto = f.marker matches Some(m) && m.text == "::"@;
            let name = f.name->0.text;
            &&& f.namespace is Some && !auto ==> keyword_name(f, meta) == Some(
                ":"@ + f.namespace->0.text + ("/"@ + name),
            )
            &&& f.namespace is Some && auto ==> {
                &&& dict_get(meta.aliases, f.namespace->0.text) matches Some(ns) ==> keyword_name(
                    f,
                    meta,
                ) == Some(":"@ + ns + ("/"@ + name))
                &&& dict_get(meta.aliases, f.namespace->0.text) is None ==> keyword_name(f, meta)
                    == Some(":"@ + f.namespace->0.text + ("/"@ + name))
            }
            &&& f.namespace is None && auto && meta.name.len() > 0 ==> keyword_name(f, meta) == Some(
                ":"@ + meta.name + ("/"@ + name),
            )
            &&& f.namespace is None && !auto ==> keyword_name(f, meta) is None
        }),
{
}

proof fn lemma_first_map(root: FormView, i: nat)
    ensures
        match first_map(root, i) {
            Some(k) => i <= k < root.children.len() && root.children[k as int].kind == Kind::MapLit
                && forall|j: int| i <= j < k ==> (#[trigger] root.children[j]).kind != Kind::MapLit,
            None => forall|j: int|
                i <= j < root.children.len() ==> (#[trigger] root.children[j]).kind != Kind::MapLit,
        },
    decreases root.children.len() - i,
{
    if i < root.children.len() && root.children[i as int].kind != Kind::MapLit {
        lemma_first_map(root, i + 1);
    }
}

/// A configuration is one of a system where its first map has a key that is a keyword with a
/// namespace.
pub proof fn law_system_has_a_qualified_key(root: FormView, k: int, p: int)
    requires
        0 <= k < root.children.len(),
        root.children[k].kind == Kind::MapLit,
        forall|j: int| 0 <= j < k ==> (#[trigger] root.children[j]).kind != Kind::MapLit,
    ensures
        0 <= p && 2 * p < root.children[k].children.len() && root.children[k].children[2 * p].kind
            == Kind::KwdLit && root.children[k].children[2 * p].namespace is Some ==> system_map(root),
        (forall|i: int|
            0 <= i < root.children[k].children.len() ==> !((#[trigger] root.children[k].children[i]).kind
                == Kind::KwdLit && root.children[k].children[i].namespace is Some)) ==> !system_map(
            root,
        ),
{
    lemma_first_map(root, 0);
    let first = first_map(root, 0)->0 as int;
    assert(root.children[first].kind == Kind::MapLit);
    assert(first == k);
}

/// The names that count as the file's own are exactly those that its outline defines.
pub proof fn law_own_names_are_the_defined_ones(
    root: FormView,
    file: Seq<char>,
    cfg: ExtractConfigView,
    name: Seq<char>,
)
    ensures
        file_ctx(root, file, cfg).def_names.contains(name) <==> exists|s: SymbolView|
            s.name == name && #[trigger] file_outline(root, file, cfg).symbols.contains(s),
        file_ctx(root, file, cfg).meta == file_outline(root, file, cfg).meta,
        analyzed(root, file, cfg).symbols == file_outline(root, file, cfg).symbols,
{
    let symbols = file_outline(root, file, cfg).symbols;
    let names = defined_names(symbols);
    if names.contains(name) {
        let i = names.index_of(name);
        assert(symbols.contains(symbols[i]));
    }
    if exists|s: SymbolView| s.name == name && #[trigger] symbols.contains(s) {
        let s = choose|s: SymbolView| s.name == name && #[trigger] symbols.contains(s);
        assert(names[symbols.index_of(s)] == name);
    }
}

/// A file that is no configuration of a system has no usages where its name ends in `edn`; every
/// other file has those of its code.
pub proof fn law_usages_are_those_of_the_file(
    source: Seq<char>,
    path: Seq<char>,
    cfg: ExtractConfigView,
    root: FormView,
)
    requires
        syntax_of(source) == Some(root),
    ensures
        extension_of(path) != Some("edn"@) ==> occurrences_of(source, path, cfg) == file_walked(
            root,
            file_ctx(root, path, cfg),
        ).out,
        extension_of(path) == Some("edn"@) && (build_manifest(path) || (!has_part(source, "#ig/ref"@)
            && !system_map(root))) ==> occurrences_of(source, path, cfg) == Seq::<
            OccurrenceView,
        >::empty(),
        extension_of(path) == Some("edn"@) && !build_manifest(path) && (has_part(source, "#ig/ref"@)
            || system_map(root)) ==> occurrences_of(source, path, cfg) == edn_keywords(
            root,
            NsMetaView::blank(Seq::empty()),
        ),
{
}

}
