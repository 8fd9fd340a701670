//! The index itself: what is defined where, and what is used where.

use vstd::prelude::*;
use dashmap::DashMap;
use crate::collect::{contains_str, push_str, strs, Copied};
use crate::index::extractor::qualify;
use crate::index::jdk::{JdkIndex, JdkView};
use crate::index::model::{
    CoreSymbol, CoreSymbolView, ExtractConfig, ExtractConfigView, NsMeta, NsMetaView, Occurrence,
    OccurrenceView, Symbol, SymbolView,
};
use crate::index::store::{
    lists_held, map_contains, map_get, map_insert, map_keys, map_merge, map_remove, map_remove_all,
    names_held, namespaces_held, new_index_maps, symbols_held, usages_held, Held,
};
use crate::text::{concat3, str_eq};

verus! {

/// The namespace under which a configuration file is registered: it has none of
/// its own. The leading NUL keeps it apart from every real one, and from the
/// empty one of a file without `ns`.
pub const EDN_NS_SENTINEL: &'static str = "\0edn";

/// The index. Project files are exactly those with an entry in `occurrences`;
/// library files never have one.
pub struct Index {
    pub symbols: DashMap<String, Symbol>,
    pub namespaces: DashMap<String, NsMeta>,
    pub ns_symbols: DashMap<String, Vec<String>>,
    pub file_to_ns: DashMap<String, String>,
    /// The usages in each project file.
    pub occurrences: DashMap<String, Vec<Occurrence>>,
    pub core_symbols: Vec<CoreSymbol>,
    letgo_core: bool,
    letgo_native: Option<Vec<String>>,
    config: ExtractConfig,
    jdk: Option<JdkIndex>,
}

/// What an [`Index`] says.
pub ghost struct IndexView {
    pub symbols: Map<Seq<char>, SymbolView>,
    pub namespaces: Map<Seq<char>, NsMetaView>,
    pub ns_symbols: Map<Seq<char>, Seq<Seq<char>>>,
    pub file_to_ns: Map<Seq<char>, Seq<char>>,
    pub occurrences: Map<Seq<char>, Seq<OccurrenceView>>,
    pub core_symbols: Seq<CoreSymbolView>,
    pub letgo_core: bool,
    pub letgo_native: Option<Seq<Seq<char>>>,
    pub config: ExtractConfigView,
    pub jdk: Option<JdkView>,
}

impl View for Index {
    type V = IndexView;

    closed spec fn view(&self) -> IndexView {
        IndexView {
            symbols: symbols_held(self.symbols),
            namespaces: namespaces_held(self.namespaces),
            ns_symbols: lists_held(self.ns_symbols),
            file_to_ns: names_held(self.file_to_ns),
            occurrences: usages_held(self.occurrences),
            core_symbols: self.core_symbols.deep_view(),
            letgo_core: self.letgo_core,
            letgo_native: match self.letgo_native {
                Some(names) => Some(strs(names@)),
                None => None,
            },
            config: self.config.deep_view(),
            jdk: self.jdk.deep_view(),
        }
    }
}

/// What the map gives for `k`.
pub open spec fn at<V>(m: Map<Seq<char>, V>, k: Seq<char>) -> Option<V> {
    if m.dom().contains(k) {
        Some(m[k])
    } else {
        None
    }
}

/// The first of `core`, from `i` on, that has the name.
pub open spec fn core_named(core: Seq<CoreSymbolView>, name: Seq<char>, i: nat) -> Option<
    CoreSymbolView,
>
    decreases core.len() - i,
{
    if i >= core.len() {
        None
    } else if core[i as int].name == name {
        Some(core[i as int])
    } else {
        core_named(core, name, i + 1)
    }
}

/// `m` with the first `n` of `syms` in it, a later one over an earlier.
pub open spec fn with_symbols(m: Map<Seq<char>, SymbolView>, syms: Seq<SymbolView>, n: nat) -> Map<
    Seq<char>,
    SymbolView,
>
    decreases n,
{
    if n == 0 || n > syms.len() {
        m
    } else {
        with_symbols(m, syms, (n - 1) as nat).insert(syms[n - 1].fqn, syms[n - 1])
    }
}

/// `m` with the first `n` library symbols in it: none goes over a symbol of the
/// project.
pub open spec fn with_lib_symbols(
    m: Map<Seq<char>, SymbolView>,
    syms: Seq<SymbolView>,
    n: nat,
) -> Map<Seq<char>, SymbolView>
    decreases n,
{
    if n == 0 || n > syms.len() {
        m
    } else {
        let before = with_lib_symbols(m, syms, (n - 1) as nat);
        let s = syms[n - 1];
        if before.dom().contains(s.fqn) && before[s.fqn].source is Project {
            before
        } else {
            before.insert(s.fqn, s)
        }
    }
}

/// The fully qualified names of `syms`.
pub open spec fn fqns_of(syms: Seq<SymbolView>) -> Seq<Seq<char>> {
    Seq::new(syms.len(), |i: int| syms[i].fqn)
}

/// A configuration whose core library has the names of the symbols too.
pub open spec fn with_core(config: ExtractConfigView, core: Seq<CoreSymbolView>) -> ExtractConfigView {
    ExtractConfigView {
        core_names: config.core_names + Seq::new(core.len(), |k: int| core[k].name),
        ..config
    }
}

/// `m` without the first `n` of `keys`.
pub open spec fn without<V>(m: Map<Seq<char>, V>, keys: Seq<Seq<char>>) -> Map<Seq<char>, V> {
    m.remove_keys(Set::new(|k: Seq<char>| keys.contains(k)))
}

impl IndexView {
    /// The index that holds nothing.
    pub open spec fn nothing() -> IndexView {
        IndexView {
            symbols: Map::empty(),
            namespaces: Map::empty(),
            ns_symbols: Map::empty(),
            file_to_ns: Map::empty(),
            occurrences: Map::empty(),
            core_symbols: Seq::empty(),
            letgo_core: false,
            letgo_native: None,
            config: crate::index::extractor::no_config(),
            jdk: None,
        }
    }

    /// Without what `path` contributes: its usages, and the namespace that it is
    /// registered under with every symbol of it.
    pub open spec fn file_removed(self, path: Seq<char>) -> IndexView {
        let i = IndexView { occurrences: self.occurrences.remove(path), ..self };
        if self.file_to_ns.dom().contains(path) {
            let ns = self.file_to_ns[path];
            IndexView {
                file_to_ns: self.file_to_ns.remove(path),
                symbols: if self.ns_symbols.dom().contains(ns) {
                    without(self.symbols, self.ns_symbols[ns])
                } else {
                    self.symbols
                },
                ns_symbols: self.ns_symbols.remove(ns),
                namespaces: self.namespaces.remove(ns),
                ..i
            }
        } else {
            i
        }
    }

    /// With what a project file says.
    pub open spec fn file_inserted(
        self,
        meta: NsMetaView,
        syms: Seq<SymbolView>,
        occurrences: Seq<OccurrenceView>,
    ) -> IndexView {
        IndexView {
            symbols: with_symbols(self.symbols, syms, syms.len()),
            ns_symbols: self.ns_symbols.insert(meta.name, fqns_of(syms)),
            occurrences: self.occurrences.insert(meta.file, occurrences),
            file_to_ns: self.file_to_ns.insert(meta.file, meta.name),
            namespaces: self.namespaces.insert(meta.name, meta),
            ..self
        }
    }

    /// With the usages in a configuration file, which has no namespace and
    /// defines nothing.
    pub open spec fn edn_inserted(
        self,
        file: Seq<char>,
        occurrences: Seq<OccurrenceView>,
    ) -> IndexView {
        IndexView {
            occurrences: self.occurrences.insert(file, occurrences),
            file_to_ns: self.file_to_ns.insert(file, EDN_NS_SENTINEL@),
            ..self
        }
    }

    /// Whether the namespace `ns` is one of the project's.
    pub open spec fn owns_namespace(self, ns: Seq<char>) -> bool {
        self.namespaces.dom().contains(ns) && self.occurrences.dom().contains(
            self.namespaces[ns].file,
        )
    }

    /// With what a library file says, unless the project has that namespace.
    pub open spec fn lib_inserted(self, meta: NsMetaView, syms: Seq<SymbolView>) -> IndexView {
        if self.owns_namespace(meta.name) {
            self
        } else {
            IndexView {
                symbols: with_lib_symbols(self.symbols, syms, syms.len()),
                ns_symbols: self.ns_symbols.insert(meta.name, fqns_of(syms)),
                file_to_ns: self.file_to_ns.insert(meta.file, meta.name),
                namespaces: self.namespaces.insert(meta.name, meta),
                ..self
            }
        }
    }

    /// Whether a namespace stays when the libraries go, `symbols` being what is
    /// left of the symbols: one of its own is left, or it had none and belongs to
    /// the project.
    pub open spec fn keeps_namespace(self, symbols: Map<Seq<char>, SymbolView>, ns: Seq<char>) -> bool {
        let fqns = self.ns_symbols[ns];
        (exists|i: int| 0 <= i < fqns.len() && symbols.dom().contains(#[trigger] fqns[i])) || (
        fqns.len() == 0 && self.owns_namespace(ns))
    }

    /// Without everything that comes from libraries. The mark of let-go's core
    /// comes from a library too.
    pub open spec fn libs_cleared(self) -> IndexView {
        let symbols = self.symbols.restrict(
            Set::new(|k: Seq<char>| self.symbols[k].source is Project),
        );
        let ns_symbols = self.ns_symbols.restrict(
            Set::new(|ns: Seq<char>| self.keeps_namespace(symbols, ns)),
        );
        let namespaces = self.namespaces.restrict(ns_symbols.dom());
        IndexView {
            symbols,
            ns_symbols,
            namespaces,
            file_to_ns: self.file_to_ns.restrict(
                Set::new(|f: Seq<char>| namespaces.dom().contains(self.file_to_ns[f])),
            ),
            letgo_core: false,
            ..self
        }
    }

    /// The namespaces that the files in `paths` are registered under.
    pub open spec fn namespaces_of(self, paths: Set<Seq<char>>) -> Set<Seq<char>> {
        Set::new(
            |ns: Seq<char>|
                exists|p: Seq<char>| #[trigger]
                    paths.contains(p) && self.file_to_ns.dom().contains(p) && self.file_to_ns[p]
                        == ns,
        )
    }

    /// The symbols that the namespaces in `nses` hold.
    pub open spec fn symbols_of(self, nses: Set<Seq<char>>) -> Set<Seq<char>> {
        Set::new(
            |fqn: Seq<char>|
                exists|ns: Seq<char>| #[trigger]
                    nses.contains(ns) && self.ns_symbols.dom().contains(ns)
                        && self.ns_symbols[ns].contains(fqn),
        )
    }

    /// Without what the files in `paths` contribute.
    pub open spec fn files_removed(self, paths: Set<Seq<char>>) -> IndexView {
        let nses = self.namespaces_of(paths);
        IndexView {
            occurrences: self.occurrences.remove_keys(paths),
            file_to_ns: self.file_to_ns.remove_keys(paths),
            ns_symbols: self.ns_symbols.remove_keys(nses),
            namespaces: self.namespaces.remove_keys(nses),
            symbols: self.symbols.remove_keys(self.symbols_of(nses)),
            ..self
        }
    }

    /// The project files that a new scan no longer has and that are not kept.
    pub open spec fn stale(self, scan: IndexView, keep: Seq<Seq<char>>) -> Set<Seq<char>> {
        Set::new(
            |p: Seq<char>|
                self.occurrences.dom().contains(p) && !scan.file_to_ns.dom().contains(p)
                    && !keep.contains(p),
        )
    }

    /// With everything that `scan` holds.
    pub open spec fn merged(self, scan: IndexView) -> IndexView {
        IndexView {
            symbols: self.symbols.union_prefer_right(scan.symbols),
            namespaces: self.namespaces.union_prefer_right(scan.namespaces),
            ns_symbols: self.ns_symbols.union_prefer_right(scan.ns_symbols),
            file_to_ns: self.file_to_ns.union_prefer_right(scan.file_to_ns),
            occurrences: self.occurrences.union_prefer_right(scan.occurrences),
            ..self
        }
    }
}

/// Removing one more file from an index without `paths`.
proof fn lemma_files_removed_step(i: IndexView, paths: Set<Seq<char>>, p: Seq<char>)
    requires
        !paths.contains(p),
    ensures
        i.files_removed(paths.insert(p)) == i.files_removed(paths).file_removed(p),
{
    let more = paths.insert(p);
    let a = i.files_removed(more);
    let b = i.files_removed(paths).file_removed(p);
    let nses = i.namespaces_of(paths);
    assert(a.occurrences =~= b.occurrences);
    assert(a.file_to_ns =~= b.file_to_ns);
    if i.file_to_ns.dom().contains(p) {
        let ns = i.file_to_ns[p];
        assert(i.namespaces_of(more) =~= nses.insert(ns)) by {
            assert forall|m: Seq<char>| nses.insert(ns).contains(m) implies i.namespaces_of(
                more,
            ).contains(m) by {
                if m == ns {
                    assert(more.contains(p));
                } else {
                    let q = choose|q: Seq<char>| #[trigger]
                        paths.contains(q) && i.file_to_ns.dom().contains(q) && i.file_to_ns[q]
                            == m;
                    assert(more.contains(q));
                }
            }
        }
        assert(a.ns_symbols =~= b.ns_symbols);
        assert(a.namespaces =~= b.namespaces);
        let gone = i.symbols_of(nses);
        if nses.contains(ns) {
            assert(nses.insert(ns) =~= nses);
            assert(a.symbols =~= b.symbols);
        } else if i.ns_symbols.dom().contains(ns) {
            let fqns = i.ns_symbols[ns];
            assert(i.symbols_of(nses.insert(ns)) =~= gone.union(
                Set::new(|k: Seq<char>| fqns.contains(k)),
            )) by {
                assert forall|k: Seq<char>|
                    gone.contains(k) || fqns.contains(k) implies i.symbols_of(
                    nses.insert(ns),
                ).contains(k) by {
                    if fqns.contains(k) {
                        assert(nses.insert(ns).contains(ns));
                    } else {
                        let m = choose|m: Seq<char>| #[trigger]
                            nses.contains(m) && i.ns_symbols.dom().contains(m)
                                && i.ns_symbols[m].contains(k);
                        assert(nses.insert(ns).contains(m));
                    }
                }
            }
            assert(i.files_removed(paths).ns_symbols[ns] == fqns);
            assert(a.symbols =~= b.symbols);
        } else {
            assert(i.symbols_of(nses.insert(ns)) =~= gone) by {
                assert forall|k: Seq<char>| gone.contains(k) implies i.symbols_of(
                    nses.insert(ns),
                ).contains(k) by {
                    let m = choose|m: Seq<char>| #[trigger]
                        nses.contains(m) && i.ns_symbols.dom().contains(m)
                            && i.ns_symbols[m].contains(k);
                    assert(nses.insert(ns).contains(m));
                }
            }
            assert(a.symbols =~= b.symbols);
        }
    } else {
        assert(i.namespaces_of(more) =~= nses) by {
            assert forall|m: Seq<char>| nses.contains(m) implies i.namespaces_of(more).contains(
                m,
            ) by {
                let q = choose|q: Seq<char>| #[trigger]
                    paths.contains(q) && i.file_to_ns.dom().contains(q) && i.file_to_ns[q] == m;
                assert(more.contains(q));
            }
        }
        assert(a == b);
    }
}

impl Index {
    /// The empty index.
    pub fn new() -> (r: Self)
        ensures
            r@ == IndexView::nothing(),
    {
        let maps = new_index_maps();
        let r = Index {
            symbols: maps.symbols,
            namespaces: maps.namespaces,
            ns_symbols: maps.ns_symbols,
            file_to_ns: maps.file_to_ns,
            occurrences: maps.occurrences,
            core_symbols: Vec::new(),
            letgo_core: false,
            letgo_native: None,
            config: ExtractConfig::default(),
            jdk: None,
        };
        assert(r.core_symbols.deep_view() =~= Seq::empty());
        r
    }

    /// The empty index over a core library. Extraction takes its names for names of the
    /// core library too.
    pub fn new_with_core(core_symbols: Vec<CoreSymbol>) -> (r: Self)
        ensures
            r@ == (IndexView {
                core_symbols: core_symbols.deep_view(),
                config: with_core(IndexView::nothing().config, core_symbols.deep_view()),
                ..IndexView::nothing()
            }),
    {
        let mut r = Self::new();
        let ghost names = strs(r.config.core_names@);
        let ghost all = core_symbols.deep_view();
        let mut i: usize = 0;
        while i < core_symbols.len()
            invariant
                i <= core_symbols@.len(),
                all == core_symbols.deep_view(),
                r@ == (IndexView { config: r.config.deep_view(), ..IndexView::nothing() }),
                r.config.lint_as.deep_view() == IndexView::nothing().config.lint_as,
                names == IndexView::nothing().config.core_names,
                strs(r.config.core_names@) =~= names + Seq::new(i as nat, |k: int| all[k].name),
            decreases core_symbols@.len() - i,
        {
            assert(all[i as int] == core_symbols@[i as int].deep_view());
            push_str(&mut r.config.core_names, core_symbols[i].name.clone());
            i += 1;
        }
        assert(r.config.deep_view() == with_core(IndexView::nothing().config, all));
        r.core_symbols = core_symbols;
        r
    }

    /// The names of the core library.
    pub fn core_list(&self) -> (r: &Vec<CoreSymbol>)
        ensures
            r.deep_view() == self@.core_symbols,
    {
        &self.core_symbols
    }

    /// The first name of the core library that is `name`.
    pub fn core_symbol(&self, name: &str) -> (r: Option<CoreSymbol>)
        ensures
            r.deep_view() == core_named(self@.core_symbols, name@, 0),
    {
        let ghost all = self@.core_symbols;
        let mut i: usize = 0;
        while i < self.core_symbols.len()
            invariant
                i <= self.core_symbols@.len(),
                all == self.core_symbols.deep_view(),
                core_named(all, name@, 0) == core_named(all, name@, i as nat),
            decreases self.core_symbols@.len() - i,
        {
            assert(all[i as int] == self.core_symbols@[i as int].deep_view());
            if str_eq(self.core_symbols[i].name.as_str(), name) {
                return Some(self.core_symbols[i].copied());
            }
            i += 1;
        }
        None
    }

    /// The symbol `fqn`.
    pub fn lookup(&self, fqn: &str) -> (r: Option<Symbol>)
        ensures
            r.deep_view() == at(self@.symbols, fqn@),
    {
        map_get(&self.symbols, fqn)
    }

    /// The symbol `name` of the namespace `ns`.
    pub fn lookup_in_ns(&self, ns: &str, name: &str) -> (r: Option<Symbol>)
        ensures
            r.deep_view() == at(self@.symbols, qualify(ns@, name@)),
    {
        let fqn = concat3(ns, "/", name);
        self.lookup(fqn.as_str())
    }

    /// Completion is elsewhere; the index by itself offers nothing.
    pub fn complete(&self, _prefix: &str, _current_ns: &str) -> (r: Vec<Symbol>)
        ensures
            r@.len() == 0,
    {
        Vec::new()
    }

    /// What is known of the namespace `ns`.
    pub fn ns_meta(&self, ns: &str) -> (r: Option<NsMeta>)
        ensures
            r.deep_view() == at(self@.namespaces, ns@),
    {
        map_get(&self.namespaces, ns)
    }

    /// The names of the symbols of the namespace `ns`.
    pub fn fqns_in_ns(&self, ns: &str) -> (r: Option<Vec<String>>)
        ensures
            r.deep_view() == at(self@.ns_symbols, ns@),
    {
        map_get(&self.ns_symbols, ns)
    }

    /// The usages in the project file `path`.
    pub fn occurrences_in(&self, path: &str) -> (r: Option<Vec<Occurrence>>)
        ensures
            r.deep_view() == at(self@.occurrences, path@),
    {
        map_get(&self.occurrences, path)
    }

    /// Whether the index knows the namespace `ns`.
    pub fn has_namespace(&self, ns: &str) -> (r: bool)
        ensures
            r == self@.namespaces.dom().contains(ns@),
    {
        map_contains(&self.namespaces, ns)
    }

    /// Every known namespace once, in no order that is told.
    pub fn namespace_names(&self) -> (r: Vec<String>)
        ensures
            strs(r@).no_duplicates(),
            forall|k: Seq<char>| strs(r@).contains(k) <==> self@.namespaces.dom().contains(k),
    {
        map_keys(&self.namespaces)
    }

    /// Every symbol's name once, in no order that is told.
    pub fn symbol_names(&self) -> (r: Vec<String>)
        ensures
            strs(r@).no_duplicates(),
            forall|k: Seq<char>| strs(r@).contains(k) <==> self@.symbols.dom().contains(k),
    {
        map_keys(&self.symbols)
    }

    /// Every project file once, in no order that is told.
    pub fn project_files(&self) -> (r: Vec<String>)
        ensures
            strs(r@).no_duplicates(),
            forall|k: Seq<char>| strs(r@).contains(k) <==> self@.occurrences.dom().contains(k),
    {
        map_keys(&self.occurrences)
    }

    /// Records that let-go's own core namespace is indexed, so that a bare word
    /// means a name of it.
    pub fn mark_letgo_core(&mut self)
        ensures
            final(self)@ == (IndexView { letgo_core: true, ..old(self)@ }),
    {
        self.letgo_core = true;
    }

    /// Whether let-go's own core namespace is indexed.
    pub fn letgo_core(&self) -> (r: bool)
        ensures
            r == self@.letgo_core,
    {
        self.letgo_core
    }

    /// Records the names that let-go defines natively. No name at all says that
    /// none were harvested.
    pub fn set_letgo_native(&mut self, names: Vec<String>)
        ensures
            final(self)@ == (IndexView {
                letgo_native: if names@.len() == 0 {
                    None
                } else {
                    Some(strs(names@))
                },
                ..old(self)@
            }),
    {
        if names.len() == 0 {
            self.letgo_native = None;
        } else {
            self.letgo_native = Some(names);
        }
    }

    /// The names that let-go defines natively, where they were harvested.
    pub fn letgo_native_names(&self) -> (r: Option<&Vec<String>>)
        ensures
            match r {
                Some(names) => self@.letgo_native == Some(strs(names@)),
                None => self@.letgo_native is None,
            },
    {
        match &self.letgo_native {
            Some(names) => Some(names),
            None => None,
        }
    }

    /// Whether let-go defines `name` natively, where that is known.
    pub fn letgo_native_contains(&self, name: &str) -> (r: Option<bool>)
        ensures
            r == (match self@.letgo_native {
                Some(names) => Some(names.contains(name@)),
                None => None,
            }),
    {
        match &self.letgo_native {
            Some(names) => Some(contains_str(names, name)),
            None => None,
        }
    }

    /// Sets the classes of the Java platform.
    pub fn set_jdk(&mut self, jdk: JdkIndex)
        ensures
            final(self)@ == (IndexView { jdk: Some(jdk.deep_view()), ..old(self)@ }),
    {
        self.jdk = Some(jdk);
    }

    /// The classes of the Java platform, where its sources were found.
    pub fn jdk(&self) -> (r: Option<&JdkIndex>)
        ensures
            match r {
                Some(jdk) => self@.jdk == Some(jdk.deep_view()),
                None => self@.jdk is None,
            },
    {
        match &self.jdk {
            Some(jdk) => Some(jdk),
            None => None,
        }
    }

    /// Sets what extraction has to know besides the text. The names of the core library
    /// stay.
    pub fn set_extract_config(&mut self, config: ExtractConfig)
        ensures
            final(self)@ == (IndexView {
                config: ExtractConfigView {
                    core_names: old(self)@.config.core_names,
                    ..config.deep_view()
                },
                ..old(self)@
            }),
    {
        self.config.lint_as = config.lint_as;
    }

    /// What extraction has to know besides the text.
    pub fn extract_config(&self) -> (r: &ExtractConfig)
        ensures
            r.deep_view() == self@.config,
    {
        &self.config
    }

    /// Forgets what the file at `path` contributes.
    pub fn remove_file(&mut self, path: &str)
        ensures
            final(self)@ == old(self)@.file_removed(path@),
    {
        let _ = map_remove(&mut self.occurrences, path);
        if let Some(ns) = map_remove(&mut self.file_to_ns, path) {
            if let Some(fqns) = map_remove(&mut self.ns_symbols, ns.as_str()) {
                assert(fqns.deep_view() =~= strs(fqns@));
                map_remove_all(&mut self.symbols, &fqns);
                assert(self@.symbols =~= without(old(self)@.symbols, fqns.deep_view()));
            }
            let _ = map_remove(&mut self.namespaces, ns.as_str());
        } else {
            assert(self@.file_to_ns =~= old(self)@.file_to_ns);
        }
    }

    /// Takes in what a project file says.
    pub fn insert_file(
        &mut self,
        meta: NsMeta,
        symbols: Vec<Symbol>,
        occurrences: Vec<Occurrence>,
    )
        ensures
            final(self)@ == old(self)@.file_inserted(
                meta.deep_view(),
                symbols.deep_view(),
                occurrences.deep_view(),
            ),
    {
        let ghost before = self@;
        let ghost syms = symbols.deep_view();
        let mut fqns: Vec<String> = Vec::new();
        let mut i: usize = 0;
        while i < symbols.len()
            invariant
                i <= symbols@.len(),
                syms == symbols.deep_view(),
                strs(fqns@) =~= fqns_of(syms).take(i as int),
                self@ == (IndexView {
                    symbols: with_symbols(before.symbols, syms, i as nat),
                    ..before
                }),
            decreases symbols@.len() - i,
        {
            let sym = symbols[i].copied();
            let ghost names = strs(fqns@);
            push_str(&mut fqns, sym.fqn.clone());
            assert(strs(fqns@) =~= names.push(syms[i as int].fqn));
            map_insert(&mut self.symbols, sym.fqn.clone(), sym);
            i += 1;
        }
        assert(strs(fqns@) =~= fqns_of(syms));
        assert(fqns.deep_view() =~= strs(fqns@));
        map_insert(&mut self.ns_symbols, meta.name.clone(), fqns);
        map_insert(&mut self.occurrences, meta.file.clone(), occurrences);
        map_insert(&mut self.file_to_ns, meta.file.clone(), meta.name.clone());
        map_insert(&mut self.namespaces, meta.name.clone(), meta);
    }

    /// Takes in the usages in a configuration file.
    pub fn insert_edn_file(&mut self, file: String, occurrences: Vec<Occurrence>)
        ensures
            final(self)@ == old(self)@.edn_inserted(file@, occurrences.deep_view()),
    {
        map_insert(&mut self.occurrences, file.clone(), occurrences);
        map_insert(&mut self.file_to_ns, file, EDN_NS_SENTINEL.to_owned());
    }

    /// The namespace that the file at `path` is registered under.
    pub fn file_ns(&self, path: &str) -> (r: Option<String>)
        ensures
            r.deep_view() == at(self@.file_to_ns, path@),
    {
        map_get(&self.file_to_ns, path)
    }

    /// Whether `path` is a project file, which can be edited, and no library
    /// source.
    pub fn is_project_path(&self, path: &str) -> (r: bool)
        ensures
            r == self@.occurrences.dom().contains(path@),
    {
        map_contains(&self.occurrences, path)
    }

    /// Whether the namespace `ns` is one of the project's.
    pub fn owns(&self, ns: &str) -> (r: bool)
        ensures
            r == self@.owns_namespace(ns@),
    {
        match map_get(&self.namespaces, ns) {
            Some(meta) => map_contains(&self.occurrences, meta.file.as_str()),
            None => false,
        }
    }

    /// Whether the namespace `ns` comes from a library.
    pub fn is_library_namespace(&self, ns: &str) -> (r: bool)
        ensures
            r == (self@.namespaces.dom().contains(ns@) && !self@.owns_namespace(ns@)),
    {
        map_contains(&self.namespaces, ns) && !self.owns(ns)
    }

    /// Takes in a new scan of the project. Project files that the scan no longer
    /// has are forgotten, but for those in `keep` (open documents, which may lie
    /// outside the scanned directories); library entries stay.
    pub fn merge_project_from(&mut self, new_index: Index, keep: &Vec<String>)
        ensures
            final(self)@ == old(self)@.files_removed(
                old(self)@.stale(new_index@, strs(keep@)),
            ).merged(new_index@),
    {
        let ghost before = self@;
        let ghost gone = before.stale(new_index@, strs(keep@));
        let paths = map_keys(&self.occurrences);
        let ghost ps = strs(paths@);
        let ghost mut done: Set<Seq<char>> = Set::empty();
        proof {
            assert(before.namespaces_of(done) =~= Set::empty());
            assert(before.symbols_of(before.namespaces_of(done)) =~= Set::empty());
            let i = before.files_removed(done);
            assert(i.symbols =~= before.symbols);
            assert(i.namespaces =~= before.namespaces);
            assert(i.ns_symbols =~= before.ns_symbols);
            assert(i.file_to_ns =~= before.file_to_ns);
            assert(i.occurrences =~= before.occurrences);
        }
        let mut i: usize = 0;
        while i < paths.len()
            invariant
                i <= paths@.len(),
                ps == strs(paths@),
                ps.no_duplicates(),
                forall|k: Seq<char>| ps.contains(k) <==> before.occurrences.dom().contains(k),
                gone == before.stale(new_index@, strs(keep@)),
                forall|k: Seq<char>|
                    done.contains(k) <==> gone.contains(k) && exists|j: int|
                        0 <= j < i && ps[j] == k,
                self@ == before.files_removed(done),
            decreases paths@.len() - i,
        {
            let path = paths[i].as_str();
            assert(ps[i as int] == path@);
            assert(ps.contains(path@));
            if !map_contains(&new_index.file_to_ns, path) && !contains_str(keep, path) {
                proof {
                    assert(gone.contains(path@));
                    assert(!done.contains(path@)) by {
                        if done.contains(path@) {
                            let j = choose|j: int| 0 <= j < i && ps[j] == path@;
                            assert(ps[j] == ps[i as int]);
                        }
                    }
                    lemma_files_removed_step(before, done, path@);
                }
                self.remove_file(path);
                proof {
                    let was = done;
                    done = was.insert(path@);
                    assert forall|k: Seq<char>|
                        done.contains(k) <==> gone.contains(k) && exists|j: int|
                            0 <= j < i + 1 && ps[j] == k by {
                        if k == path@ {
                            assert(ps[i as int] == k);
                        } else if exists|j: int| 0 <= j < i + 1 && ps[j] == k {
                            let j = choose|j: int| 0 <= j < i + 1 && ps[j] == k;
                            assert(j < i);
                        } else {
                            assert(!exists|j: int| 0 <= j < i && ps[j] == k);
                        }
                    }
                }
            } else {
                proof {
                    assert(!gone.contains(path@));
                    assert forall|k: Seq<char>|
                        done.contains(k) <==> gone.contains(k) && exists|j: int|
                            0 <= j < i + 1 && ps[j] == k by {
                        if gone.contains(k) && exists|j: int| 0 <= j < i + 1 && ps[j] == k {
                            let j = choose|j: int| 0 <= j < i + 1 && ps[j] == k;
                            assert(j < i);
                        }
                    }
                }
            }
            i += 1;
        }
        assert(done =~= gone) by {
            assert forall|k: Seq<char>| gone.contains(k) implies done.contains(k) by {
                assert(ps.contains(k));
                let j = choose|j: int| 0 <= j < ps.len() && ps[j] == k;
                assert(0 <= j < i && ps[j] == k);
            }
        }
        map_merge(&mut self.symbols, &new_index.symbols);
        map_merge(&mut self.namespaces, &new_index.namespaces);
        map_merge(&mut self.ns_symbols, &new_index.ns_symbols);
        map_merge(&mut self.file_to_ns, &new_index.file_to_ns);
        map_merge(&mut self.occurrences, &new_index.occurrences);
    }

    /// Takes in what a library file says, never over what the project says.
    /// Project and libraries are indexed at the same time, so either may come
    /// first.
    pub fn insert_lib_file(&mut self, meta: NsMeta, symbols: Vec<Symbol>)
        ensures
            final(self)@ == old(self)@.lib_inserted(meta.deep_view(), symbols.deep_view()),
    {
        if self.owns(meta.name.as_str()) {
            return;
        }
        let ghost before = self@;
        let ghost syms = symbols.deep_view();
        let mut fqns: Vec<String> = Vec::new();
        let mut i: usize = 0;
        while i < symbols.len()
            invariant
                i <= symbols@.len(),
                syms == symbols.deep_view(),
                strs(fqns@) =~= fqns_of(syms).take(i as int),
                self@ == (IndexView {
                    symbols: with_lib_symbols(before.symbols, syms, i as nat),
                    ..before
                }),
            decreases symbols@.len() - i,
        {
            let sym = symbols[i].copied();
            let ghost names = strs(fqns@);
            push_str(&mut fqns, sym.fqn.clone());
            assert(strs(fqns@) =~= names.push(syms[i as int].fqn));
            let project = match map_get(&self.symbols, sym.fqn.as_str()) {
                Some(held) => held.source.is_project(),
                None => false,
            };
            if !project {
                map_insert(&mut self.symbols, sym.fqn.clone(), sym);
            }
            i += 1;
        }
        assert(strs(fqns@) =~= fqns_of(syms));
        assert(fqns.deep_view() =~= strs(fqns@));
        map_insert(&mut self.ns_symbols, meta.name.clone(), fqns);
        map_insert(&mut self.file_to_ns, meta.file.clone(), meta.name.clone());
        map_insert(&mut self.namespaces, meta.name.clone(), meta);
    }

    /// The symbols that come from libraries.
    fn library_symbols(&self) -> (r: Vec<String>)
        ensures
            forall|k: Seq<char>| #[trigger]
                strs(r@).contains(k) <==> self@.symbols.dom().contains(k) && !(
                self@.symbols[k].source is Project),
    {
        let keys = map_keys(&self.symbols);
        let ghost ks = strs(keys@);
        let mut out: Vec<String> = Vec::new();
        let mut i: usize = 0;
        while i < keys.len()
            invariant
                i <= keys@.len(),
                ks == strs(keys@),
                forall|k: Seq<char>| #[trigger] ks.contains(k) <==> self@.symbols.dom().contains(k),
                forall|k: Seq<char>| #[trigger]
                    strs(out@).contains(k) <==> !(self@.symbols[k].source is Project) && seen(ks, i as int, k),
            decreases keys@.len() - i,
        {
            let key = keys[i].as_str();
            assert(ks[i as int] == key@);
            assert(ks.contains(key@));
            let project = match map_get(&self.symbols, key) {
                Some(sym) => sym.source.is_project(),
                None => true,
            };
            let ghost before = strs(out@);
            if !project {
                push_str(&mut out, key.to_owned());
                proof {
                    lemma_push_contains(before, key@);
                }
            }
            proof {
                lemma_seen(ks, i as int);
            }
            i += 1;
        }
        assert(forall|k: Seq<char>| #[trigger] seen(ks, ks.len() as int, k) <==> ks.contains(k));
        out
    }

    /// The namespaces that go with the libraries, the symbols having gone.
    fn library_lists(&self, Ghost(before): Ghost<IndexView>) -> (r: Vec<String>)
        requires
            self@.ns_symbols == before.ns_symbols,
            self@.namespaces == before.namespaces,
            self@.occurrences == before.occurrences,
        ensures
            forall|k: Seq<char>| #[trigger]
                strs(r@).contains(k) <==> self@.ns_symbols.dom().contains(k)
                    && !before.keeps_namespace(self@.symbols, k),
    {
        let keys = map_keys(&self.ns_symbols);
        let ghost ks = strs(keys@);
        let mut out: Vec<String> = Vec::new();
        let mut i: usize = 0;
        while i < keys.len()
            invariant
                i <= keys@.len(),
                ks == strs(keys@),
                self@.ns_symbols == before.ns_symbols,
                self@.namespaces == before.namespaces,
                self@.occurrences == before.occurrences,
                forall|k: Seq<char>| #[trigger] ks.contains(k) <==> self@.ns_symbols.dom().contains(k),
                forall|k: Seq<char>| #[trigger]
                    strs(out@).contains(k) <==> !before.keeps_namespace(self@.symbols, k)
                        && seen(ks, i as int, k),
            decreases keys@.len() - i,
        {
            let key = keys[i].as_str();
            assert(ks[i as int] == key@);
            assert(ks.contains(key@));
            let kept = match map_get(&self.ns_symbols, key) {
                Some(fqns) => {
                    assert(fqns.deep_view() == before.ns_symbols[key@]);
                    assert(fqns.deep_view().len() == fqns@.len());
                    self.any_held(&fqns) || (fqns.len() == 0 && self.owns(key))
                },
                None => true,
            };
            assert(kept == before.keeps_namespace(self@.symbols, key@));
            let ghost had = strs(out@);
            if !kept {
                push_str(&mut out, key.to_owned());
                proof {
                    lemma_push_contains(had, key@);
                }
            }
            proof {
                lemma_seen(ks, i as int);
            }
            i += 1;
        }
        assert(forall|k: Seq<char>| #[trigger] seen(ks, ks.len() as int, k) <==> ks.contains(k));
        out
    }

    /// Whether one of `fqns` is a symbol of the index.
    fn any_held(&self, fqns: &Vec<String>) -> (r: bool)
        ensures
            r == exists|i: int|
                0 <= i < fqns.deep_view().len() && self@.symbols.dom().contains(
                    #[trigger] fqns.deep_view()[i],
                ),
    {
        let mut i: usize = 0;
        while i < fqns.len()
            invariant
                i <= fqns@.len(),
                forall|j: int|
                    0 <= j < i ==> !self@.symbols.dom().contains(#[trigger] fqns.deep_view()[j]),
            decreases fqns@.len() - i,
        {
            assert(fqns.deep_view()[i as int] == fqns@[i as int]@);
            if map_contains(&self.symbols, fqns[i].as_str()) {
                return true;
            }
            i += 1;
        }
        false
    }

    /// The namespaces whose list of symbols is gone.
    fn listless_namespaces(&self) -> (r: Vec<String>)
        ensures
            forall|k: Seq<char>| #[trigger]
                strs(r@).contains(k) <==> self@.namespaces.dom().contains(k)
                    && !self@.ns_symbols.dom().contains(k),
    {
        let keys = map_keys(&self.namespaces);
        let ghost ks = strs(keys@);
        let mut out: Vec<String> = Vec::new();
        let mut i: usize = 0;
        while i < keys.len()
            invariant
                i <= keys@.len(),
                ks == strs(keys@),
                forall|k: Seq<char>| #[trigger] ks.contains(k) <==> self@.namespaces.dom().contains(k),
                forall|k: Seq<char>| #[trigger]
                    strs(out@).contains(k) <==> !self@.ns_symbols.dom().contains(k) && seen(ks, i as int, k),
            decreases keys@.len() - i,
        {
            let key = keys[i].as_str();
            assert(ks[i as int] == key@);
            assert(ks.contains(key@));
            let ghost had = strs(out@);
            if !map_contains(&self.ns_symbols, key) {
                push_str(&mut out, key.to_owned());
                proof {
                    lemma_push_contains(had, key@);
                }
            }
            proof {
                lemma_seen(ks, i as int);
            }
            i += 1;
        }
        assert(forall|k: Seq<char>| #[trigger] seen(ks, ks.len() as int, k) <==> ks.contains(k));
        out
    }

    /// The files whose namespace is gone.
    fn homeless_files(&self) -> (r: Vec<String>)
        ensures
            forall|k: Seq<char>| #[trigger]
                strs(r@).contains(k) <==> self@.file_to_ns.dom().contains(k)
                    && !self@.namespaces.dom().contains(self@.file_to_ns[k]),
    {
        let keys = map_keys(&self.file_to_ns);
        let ghost ks = strs(keys@);
        let mut out: Vec<String> = Vec::new();
        let mut i: usize = 0;
        while i < keys.len()
            invariant
                i <= keys@.len(),
                ks == strs(keys@),
                forall|k: Seq<char>| #[trigger] ks.contains(k) <==> self@.file_to_ns.dom().contains(k),
                forall|k: Seq<char>| #[trigger]
                    strs(out@).contains(k) <==> !self@.namespaces.dom().contains(
                        self@.file_to_ns[k],
                    ) && seen(ks, i as int, k),
            decreases keys@.len() - i,
        {
            let key = keys[i].as_str();
            assert(ks[i as int] == key@);
            assert(ks.contains(key@));
            let known = match map_get(&self.file_to_ns, key) {
                Some(ns) => map_contains(&self.namespaces, ns.as_str()),
                None => true,
            };
            let ghost had = strs(out@);
            if !known {
                push_str(&mut out, key.to_owned());
                proof {
                    lemma_push_contains(had, key@);
                }
            }
            proof {
                lemma_seen(ks, i as int);
            }
            i += 1;
        }
        assert(forall|k: Seq<char>| #[trigger] seen(ks, ks.len() as int, k) <==> ks.contains(k));
        out
    }

    /// Forgets everything that comes from libraries, so that a dependency that
    /// was dropped does not linger. Project symbols and usages stay.
    pub fn clear_libs(&mut self)
        ensures
            final(self)@ == old(self)@.libs_cleared(),
    {
        let ghost before = self@;
        let ghost after = before.libs_cleared();
        self.letgo_core = false;
        let gone = self.library_symbols();
        map_remove_all(&mut self.symbols, &gone);
        assert(self@.symbols =~= after.symbols);
        let gone = self.library_lists(Ghost(before));
        map_remove_all(&mut self.ns_symbols, &gone);
        assert(self@.ns_symbols =~= after.ns_symbols);
        let gone = self.listless_namespaces();
        map_remove_all(&mut self.namespaces, &gone);
        assert(self@.namespaces =~= after.namespaces);
        let gone = self.homeless_files();
        map_remove_all(&mut self.file_to_ns, &gone);
        assert(self@.file_to_ns =~= after.file_to_ns);
    }
}

proof fn lemma_push_contains(s: Seq<Seq<char>>, x: Seq<char>)
    ensures
        forall|k: Seq<char>| #[trigger] s.push(x).contains(k) <==> s.contains(k) || k == x,
{
    assert forall|k: Seq<char>| s.contains(k) || k == x implies s.push(x).contains(k) by {
        if k == x {
            assert(s.push(x)[s.len() as int] == x);
        } else {
            let j = choose|j: int| 0 <= j < s.len() && s[j] == k;
            assert(s.push(x)[j] == k);
        }
    }
    assert forall|k: Seq<char>| s.push(x).contains(k) implies s.contains(k) || k == x by {
        let j = choose|j: int| 0 <= j < s.push(x).len() && s.push(x)[j] == k;
        if j < s.len() {
            assert(s[j] == k);
        }
    }
}

/// Whether `k` is one of the first `i` keys.
spec fn seen(ks: Seq<Seq<char>>, i: int, k: Seq<char>) -> bool {
    exists|j: int| 0 <= j < i && j < ks.len() && ks[j] == k
}

proof fn lemma_seen(ks: Seq<Seq<char>>, i: int)
    requires
        0 <= i < ks.len(),
    ensures
        forall|k: Seq<char>| #[trigger] seen(ks, i + 1, k) <==> seen(ks, i, k) || k == ks[i],
{
    assert forall|k: Seq<char>| #[trigger] seen(ks, i + 1, k) implies seen(ks, i, k) || k
        == ks[i] by {
        let j = choose|j: int| 0 <= j < i + 1 && j < ks.len() && ks[j] == k;
        if j < i {
            assert(ks[j] == k);
        }
    }
    assert forall|k: Seq<char>| seen(ks, i, k) || k == ks[i] implies #[trigger] seen(
        ks,
        i + 1,
        k,
    ) by {
        if k == ks[i] {
            assert(ks[i] == k);
        }
    }
}

}
