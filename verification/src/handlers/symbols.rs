//! The outline of a file, and the search for a symbol of the project.

use vstd::prelude::*;
use vstd::utf8::encode_utf8;
use crate::chars::{lowercase, to_lowercase};
use crate::collect::{join_by, joined_by, push_item, strs};
use crate::document::{DocumentStore, StoreView};
use crate::handlers::matching::{match_score, tier_of};
use crate::handlers::references::{Location, LocationView};
use crate::index::extractor::{analysis_of, extract_full_with};
use crate::index::model::{DefKind, Symbol, SymbolView};
use crate::index::symbols::{at, Index, IndexView};
use crate::lsp::Range;
use crate::sort::{
    by_rank, law_sorting_keeps_everything, lemma_listing_order_is_lost, lemma_push_contains, rank_le,
    ranked,
    sort_ranked, RankView, Ranked,
};
use crate::text::str_eq;

verus! {

/// What an outline shows a definition as.
#[derive(Clone, Copy, Debug, PartialEq, Eq, Structural)]
pub enum SymbolKind {
    Function,
    Variable,
    Interface,
    Class,
    Method,
    Key,
}

/// What an outline shows a definition of a kind as.
pub open spec fn symbol_kind(kind: DefKind) -> SymbolKind {
    match kind {
        DefKind::Defn
        | DefKind::DefnPrivate
        | DefKind::Defmacro
        | DefKind::Defmulti
        | DefKind::Deftest => SymbolKind::Function,
        DefKind::Def | DefKind::Defonce | DefKind::Declare => SymbolKind::Variable,
        DefKind::Defprotocol => SymbolKind::Interface,
        DefKind::Defrecord | DefKind::Deftype => SymbolKind::Class,
        DefKind::Defmethod => SymbolKind::Method,
        DefKind::IntegrantKey => SymbolKind::Key,
    }
}

/// What an outline shows a definition of a kind as.
pub fn defkind_to_symbol_kind(kind: DefKind) -> (r: SymbolKind)
    ensures
        r == symbol_kind(kind),
{
    match kind {
        DefKind::Defn
        | DefKind::DefnPrivate
        | DefKind::Defmacro
        | DefKind::Defmulti
        | DefKind::Deftest => SymbolKind::Function,
        DefKind::Def | DefKind::Defonce | DefKind::Declare => SymbolKind::Variable,
        DefKind::Defprotocol => SymbolKind::Interface,
        DefKind::Defrecord | DefKind::Deftype => SymbolKind::Class,
        DefKind::Defmethod => SymbolKind::Method,
        DefKind::IntegrantKey => SymbolKind::Key,
    }
}

/// A line of an outline.
#[derive(Clone, Debug)]
pub struct DocumentSymbol {
    pub name: String,
    /// The parameters.
    pub detail: Option<String>,
    pub kind: SymbolKind,
    pub range: Range,
    pub selection_range: Range,
}

/// What a [`DocumentSymbol`] says.
pub ghost struct OutlineView {
    pub name: Seq<char>,
    pub detail: Option<Seq<char>>,
    pub kind: SymbolKind,
    pub range: Range,
    pub selection_range: Range,
}

impl DeepView for DocumentSymbol {
    type V = OutlineView;

    open spec fn deep_view(&self) -> OutlineView {
        OutlineView {
            name: self.name@,
            detail: self.detail.deep_view(),
            kind: self.kind,
            range: self.range,
            selection_range: self.selection_range,
        }
    }
}

/// The line of a symbol.
pub open spec fn outlined(s: SymbolView) -> OutlineView {
    OutlineView {
        name: s.name,
        detail: if s.params.len() == 0 {
            None
        } else {
            Some(joined_by(s.params, " "@, s.params.len()))
        },
        kind: symbol_kind(s.kind),
        range: s.range,
        selection_range: s.name_range,
    }
}

/// The lines of symbols.
pub open spec fn outline(syms: Seq<SymbolView>) -> Seq<OutlineView> {
    syms.map_values(|s: SymbolView| outlined(s))
}

/// Those of the first `n` names that the index knows, in the file `path`.
pub open spec fn known_in_file(v: IndexView, fqns: Seq<Seq<char>>, path: Seq<char>, n: nat) -> Seq<
    SymbolView,
>
    decreases n,
{
    if n == 0 {
        seq![]
    } else {
        let before = known_in_file(v, fqns, path, (n - 1) as nat);
        match at(v.symbols, fqns[n - 1]) {
            Some(s) => if s.file == path {
                before.push(s)
            } else {
                before
            },
            None => before,
        }
    }
}

/// The symbols of the file `path`, as they were indexed.
pub open spec fn indexed_symbols(v: IndexView, path: Seq<char>) -> Seq<SymbolView> {
    match at(v.file_to_ns, path) {
        Some(ns) => match at(v.ns_symbols, ns) {
            Some(fqns) => known_in_file(v, fqns, path, fqns.len()),
            None => seq![],
        },
        None => seq![],
    }
}

/// The symbols of a document: what its live text defines, where it is open, and else what
/// was indexed of the file, where it is one.
pub open spec fn symbols_of_document(
    v: IndexView,
    store: StoreView,
    uri: Seq<char>,
    path: Seq<char>,
    is_file: bool,
) -> Seq<SymbolView> {
    if store.docs.dom().contains(uri) {
        match analysis_of(store.docs[uri], path, v.config) {
            Some(a) => a.symbols,
            None => seq![],
        }
    } else if is_file {
        indexed_symbols(v, path)
    } else {
        seq![]
    }
}

fn known_symbols(index: &Index, path: &str) -> (r: Vec<Symbol>)
    ensures
        r.deep_view() == indexed_symbols(index@, path@),
{
    let mut out: Vec<Symbol> = Vec::new();
    assert(out.deep_view() =~= seq![]);
    let fqns = match index.file_ns(path) {
        Some(ns) => match index.fqns_in_ns(ns.as_str()) {
            Some(fqns) => fqns,
            None => return out,
        },
        None => return out,
    };
    let ghost all = fqns.deep_view();
    let mut i: usize = 0;
    while i < fqns.len()
        invariant
            i <= fqns@.len(),
            all == fqns.deep_view(),
            out.deep_view() == known_in_file(index@, all, path@, i as nat),
        decreases fqns@.len() - i,
    {
        assert(all[i as int] == fqns@[i as int]@);
        if let Some(sym) = index.lookup(fqns[i].as_str()) {
            if str_eq(sym.file.as_str(), path) {
                push_item(&mut out, sym);
            }
        }
        i += 1;
    }
    out
}

fn outline_of(syms: &Vec<Symbol>) -> (r: Vec<DocumentSymbol>)
    ensures
        r.deep_view() == outline(syms.deep_view()),
{
    let ghost all = outline(syms.deep_view());
    let mut out: Vec<DocumentSymbol> = Vec::new();
    let mut i: usize = 0;
    while i < syms.len()
        invariant
            i <= syms@.len(),
            all == outline(syms.deep_view()),
            out.deep_view() =~= all.take(i as int),
        decreases syms@.len() - i,
    {
        let sym = &syms[i];
        assert(syms.deep_view()[i as int] == sym.deep_view());
        let detail = if sym.params.len() == 0 {
            None
        } else {
            Some(join_by(&sym.params, " "))
        };
        let line = DocumentSymbol {
            name: sym.name.clone(),
            detail,
            kind: defkind_to_symbol_kind(sym.kind),
            range: sym.range,
            selection_range: sym.name_range,
        };
        assert(line.deep_view() == all[i as int]);
        push_item(&mut out, line);
        i += 1;
    }
    assert(out.deep_view() =~= all);
    out
}

/// The outline of the document `uri`, which is the file `path`, or else is to be read as
/// if it were; `None` where it has no line.
pub fn document_symbols(
    index: &Index,
    documents: &DocumentStore,
    uri: &str,
    path: &str,
    is_file: bool,
) -> (r: Option<Vec<DocumentSymbol>>)
    ensures
        ({
            let syms = symbols_of_document(index@, documents@, uri@, path@, is_file);
            match r {
                Some(lines) => lines.deep_view() == outline(syms) && syms.len() > 0,
                None => syms.len() == 0,
            }
        }),
{
    let syms: Vec<Symbol> = match documents.text(uri) {
        Some(text) => match extract_full_with(text.as_str(), path, index.extract_config()) {
            Ok((_, syms, _)) => syms,
            Err(_) => Vec::new(),
        },
        None => if is_file {
            known_symbols(index, path)
        } else {
            Vec::new()
        },
    };
    assert(syms.deep_view() =~= symbols_of_document(index@, documents@, uri@, path@, is_file));
    if syms.len() == 0 {
        None
    } else {
        Some(outline_of(&syms))
    }
}

/// A symbol that a search found.
#[derive(Clone, Debug)]
pub struct SymbolInformation {
    pub name: String,
    pub kind: SymbolKind,
    pub location: Location,
    pub container_name: String,
}

/// What a [`SymbolInformation`] says.
pub ghost struct FoundView {
    pub name: Seq<char>,
    pub kind: SymbolKind,
    pub location: LocationView,
    pub container_name: Seq<char>,
}

impl DeepView for SymbolInformation {
    type V = FoundView;

    open spec fn deep_view(&self) -> FoundView {
        FoundView {
            name: self.name@,
            kind: self.kind,
            location: self.location.deep_view(),
            container_name: self.container_name@,
        }
    }
}

/// How many symbols a search finds at most.
pub const MAX_RESULTS: usize = 128;

/// How the symbol under `fqn` ranks in a search; `None` of a symbol of a library, and of
/// one that does not match. Case does not count.
pub open spec fn search_rank(v: IndexView, query: Seq<char>, fqn: Seq<char>) -> Option<RankView> {
    match at(v.symbols, fqn) {
        Some(s) => if s.source is Project {
            match tier_of(lowercase(s.name), lowercase(query)) {
                Some(tier) => Some(
                    RankView {
                        tier: tier as u64,
                        size: encode_utf8(s.name).len() as usize as u64,
                        name: fqn,
                    },
                ),
                None => None,
            }
        } else {
            None
        },
        None => None,
    }
}

/// Those of the first `n` names that a search finds.
pub open spec fn search_hits(v: IndexView, query: Seq<char>, names: Seq<Seq<char>>, n: nat) -> Seq<
    RankView,
>
    decreases n,
{
    if n == 0 {
        seq![]
    } else {
        let before = search_hits(v, query, names, (n - 1) as nat);
        match search_rank(v, query, names[n - 1]) {
            Some(h) => before.push(h),
            None => before,
        }
    }
}

/// What a search shows of a symbol.
pub open spec fn found_symbol(s: SymbolView) -> FoundView {
    FoundView {
        name: s.name,
        kind: symbol_kind(s.kind),
        location: LocationView { file: s.file, range: s.name_range },
        container_name: s.ns,
    }
}

/// No more than a search shows.
pub open spec fn foremost(hits: Seq<RankView>) -> Seq<RankView> {
    if hits.len() <= MAX_RESULTS {
        hits
    } else {
        hits.take(MAX_RESULTS as int)
    }
}

/// What a search shows: the nearest matches first, then the shortest names, then in the
/// order of the full names.
pub open spec fn search(v: IndexView, query: Seq<char>, names: Seq<Seq<char>>) -> Seq<FoundView> {
    foremost(ranked(search_hits(v, query, names, names.len()))).map_values(
        |h: RankView| found_symbol(at(v.symbols, h.name)->0),
    )
}

/// Whether `names` are the symbols of the index, each once.
pub open spec fn lists_symbols(v: IndexView, names: Seq<Seq<char>>) -> bool {
    &&& names.no_duplicates()
    &&& forall|k: Seq<char>| #[trigger] names.contains(k) <==> v.symbols.dom().contains(k)
}

proof fn lemma_hits_are_symbols(v: IndexView, query: Seq<char>, names: Seq<Seq<char>>, n: nat)
    requires
        n <= names.len(),
        names.no_duplicates(),
    ensures
        search_hits(v, query, names, n).no_duplicates(),
        forall|h: RankView| #[trigger]
            search_hits(v, query, names, n).contains(h) <==> names.take(n as int).contains(h.name)
                && search_rank(v, query, h.name) == Some(h),
    decreases n,
{
    if n > 0 {
        let before = search_hits(v, query, names, (n - 1) as nat);
        let after = search_hits(v, query, names, n);
        let fqn = names[n - 1];
        let shorter = names.take(n - 1);
        let longer = names.take(n as int);
        lemma_hits_are_symbols(v, query, names, (n - 1) as nat);
        assert(longer =~= shorter.push(fqn));
        assert(!shorter.contains(fqn)) by {
            if shorter.contains(fqn) {
                let i = choose|i: int| 0 <= i < shorter.len() && shorter[i] == fqn;
                assert(names[i] == names[n - 1]);
            }
        }
        assert forall|h: RankView| #[trigger] after.contains(h) <==> longer.contains(h.name)
            && search_rank(v, query, h.name) == Some(h) by {
            lemma_push_contains(shorter, fqn, h.name);
            if after.len() > before.len() {
                lemma_push_contains(before, after.last(), h);
            }
            assert(before.contains(h) <==> shorter.contains(h.name) && search_rank(
                v,
                query,
                h.name,
            ) == Some(h));
        }
        if after.len() > before.len() {
            assert(!before.contains(after.last()));
        }
    } else {
        assert(names.take(0).len() == 0);
    }
}

/// The symbols of the project that match the query.
pub fn workspace_symbols(index: &Index, query: &str) -> (r: Vec<SymbolInformation>)
    ensures
        exists|names: Seq<Seq<char>>|
            lists_symbols(index@, names) && r.deep_view() == #[trigger] search(
                index@,
                query@,
                names,
            ),
{
    let names = index.symbol_names();
    let ghost all = strs(names@);
    assert(lists_symbols(index@, all));
    let lower = to_lowercase(query);
    let mut hits: Vec<Ranked> = Vec::new();
    assert(hits.deep_view() =~= seq![]);
    let mut i: usize = 0;
    while i < names.len()
        invariant
            i <= names@.len(),
            all == strs(names@),
            lower@ == lowercase(query@),
            hits.deep_view() == search_hits(index@, query@, all, i as nat),
        decreases names@.len() - i,
    {
        assert(all[i as int] == names@[i as int]@);
        if let Some(sym) = index.lookup(names[i].as_str()) {
            if sym.source.is_project() {
                let name = to_lowercase(sym.name.as_str());
                if let Some(tier) = match_score(name.as_str(), lower.as_str()) {
                    let size: u64 = sym.name.as_str().len() as u64;
                    push_item(&mut hits, Ranked { tier: tier as u64, size, name: names[i].clone() });
                }
            }
        }
        i += 1;
    }
    let ghost found = hits.deep_view();
    let mut hits = sort_ranked(hits);
    proof {
        law_sorting_keeps_everything(found);
        lemma_hits_are_symbols(index@, query@, all, all.len());
    }
    let ghost order = ranked(found);
    hits.truncate(MAX_RESULTS);
    let ghost first = foremost(order);
    assert(hits.deep_view() =~= first);
    let ghost shown = search(index@, query@, all);
    let mut out: Vec<SymbolInformation> = Vec::new();
    let mut j: usize = 0;
    assert forall|k: int| 0 <= k < first.len() implies at(
        index@.symbols,
        (#[trigger] first[k]).name,
    ) is Some by {
        assert(first[k] == order[k]);
        assert(order.contains(order[k]));
        order.to_multiset_ensures();
        found.to_multiset_ensures();
        assert(order.to_multiset().count(order[k]) > 0);
        assert(found.contains(order[k]));
    }
    while j < hits.len()
        invariant
            j <= hits@.len(),
            first == hits.deep_view(),
            shown == search(index@, query@, all),
            shown.len() == first.len(),
            forall|k: int|
                0 <= k < first.len() ==> at(index@.symbols, (#[trigger] first[k]).name) is Some
                    && shown[k] == found_symbol(at(index@.symbols, first[k].name)->0),
            out.deep_view() =~= shown.take(j as int),
        decreases hits@.len() - j,
    {
        assert(first[j as int] == hits@[j as int].deep_view());
        if let Some(sym) = index.lookup(hits[j].name.as_str()) {
            let ghost s = sym.deep_view();
            let shown_symbol = SymbolInformation {
                name: sym.name,
                kind: defkind_to_symbol_kind(sym.kind),
                location: Location { file: sym.file, range: sym.name_range },
                container_name: sym.ns,
            };
            assert(shown_symbol.deep_view() == found_symbol(s));
            push_item(&mut out, shown_symbol);
        }
        j += 1;
    }
    assert(out.deep_view() =~= shown);
    out
}

/// In whatever order the index lists its symbols, a search shows the same.
pub proof fn law_search_does_not_depend_on_listing_order(
    v: IndexView,
    query: Seq<char>,
    a: Seq<Seq<char>>,
    b: Seq<Seq<char>>,
)
    requires
        lists_symbols(v, a),
        lists_symbols(v, b),
    ensures
        search(v, query, a) == search(v, query, b),
{
    let x = search_hits(v, query, a, a.len());
    let y = search_hits(v, query, b, b.len());
    lemma_hits_are_symbols(v, query, a, a.len());
    lemma_hits_are_symbols(v, query, b, b.len());
    assert(a.take(a.len() as int) =~= a);
    assert(b.take(b.len() as int) =~= b);
    assert forall|h: RankView| #[trigger] x.contains(h) <==> y.contains(h) by {
        assert(a.contains(h.name) <==> b.contains(h.name));
    }
    lemma_listing_order_is_lost(x, y);
}

/// A search shows symbols of the project only, and no more than its limit.
pub proof fn law_search_stays_in_the_project(
    v: IndexView,
    query: Seq<char>,
    names: Seq<Seq<char>>,
    i: int,
)
    requires
        lists_symbols(v, names),
        0 <= i < search(v, query, names).len(),
    ensures
        search(v, query, names).len() <= MAX_RESULTS,
        exists|fqn: Seq<char>|
            #[trigger] v.symbols.dom().contains(fqn) && v.symbols[fqn].source is Project
                && search(v, query, names)[i] == found_symbol(v.symbols[fqn]),
{
    let found = search_hits(v, query, names, names.len());
    lemma_hits_are_symbols(v, query, names, names.len());
    law_sorting_keeps_everything(found);
    let order = ranked(found);
    let h = foremost(order)[i];
    assert(h == order[i]);
    order.to_multiset_ensures();
    found.to_multiset_ensures();
    assert(order.contains(order[i]));
    assert(order.to_multiset().count(order[i]) > 0);
    assert(found.contains(h));
    assert(search_rank(v, query, h.name) == Some(h));
    assert(v.symbols.dom().contains(h.name));
}

/// The outline of an open document lists every definition of its text, in order, with its
/// name, its form as the range and its name as what to select.
pub proof fn law_outline_lists_every_definition(
    v: IndexView,
    store: StoreView,
    uri: Seq<char>,
    path: Seq<char>,
    is_file: bool,
    i: int,
)
    requires
        store.docs.dom().contains(uri),
        analysis_of(store.docs[uri], path, v.config) matches Some(a) && 0 <= i < a.symbols.len(),
    ensures
        ({
            let syms = analysis_of(store.docs[uri], path, v.config)->0.symbols;
            let lines = outline(symbols_of_document(v, store, uri, path, is_file));
            &&& lines.len() == syms.len()
            &&& lines[i].name == syms[i].name
            &&& lines[i].range == syms[i].range
            &&& lines[i].selection_range == syms[i].name_range
            &&& lines[i].kind == symbol_kind(syms[i].kind)
            &&& lines[i].detail == (if syms[i].params.len() == 0 {
                None
            } else {
                Some(joined_by(syms[i].params, " "@, syms[i].params.len()))
            })
        }),
{
}

proof fn lemma_known_in_file(
    v: IndexView,
    fqns: Seq<Seq<char>>,
    path: Seq<char>,
    n: nat,
    s: SymbolView,
)
    requires
        n <= fqns.len(),
    ensures
        known_in_file(v, fqns, path, n).contains(s) <==> exists|k: int|
            0 <= k < n && v.symbols.dom().contains(#[trigger] fqns[k]) && v.symbols[fqns[k]] == s
                && s.file == path,
    decreases n,
{
    if n > 0 {
        let before = known_in_file(v, fqns, path, (n - 1) as nat);
        let fqn = fqns[n - 1];
        lemma_known_in_file(v, fqns, path, (n - 1) as nat, s);
        if v.symbols.dom().contains(fqn) {
            lemma_push_contains(before, v.symbols[fqn], s);
        }
        if before.contains(s) {
            let k = choose|k: int|
                0 <= k < n - 1 && v.symbols.dom().contains(#[trigger] fqns[k]) && v.symbols[fqns[k]]
                    == s && s.file == path;
            assert(v.symbols.dom().contains(fqns[k]));
        }
        assert(fqns[n - 1] == fqn);
        if exists|k: int|
            0 <= k < n && v.symbols.dom().contains(#[trigger] fqns[k]) && v.symbols[fqns[k]] == s
                && s.file == path {
            let k = choose|k: int|
                0 <= k < n && v.symbols.dom().contains(#[trigger] fqns[k]) && v.symbols[fqns[k]]
                    == s && s.file == path;
            if k < n - 1 {
                assert(before.contains(s));
            }
        }
    } else {
        assert(known_in_file(v, fqns, path, n) =~= seq![]);
    }
}

/// The outline of a file that is not open lists what the index has of that very file.
pub proof fn law_outline_of_a_closed_file(
    v: IndexView,
    store: StoreView,
    uri: Seq<char>,
    path: Seq<char>,
    ns: Seq<char>,
    s: SymbolView,
)
    requires
        !store.docs.dom().contains(uri),
        v.file_to_ns.dom().contains(path),
        v.file_to_ns[path] == ns,
        v.ns_symbols.dom().contains(ns),
    ensures
        symbols_of_document(v, store, uri, path, true).contains(s) <==> s.file == path && exists|
            k: int,
        |
            0 <= k < v.ns_symbols[ns].len() && v.symbols.dom().contains(
                #[trigger] v.ns_symbols[ns][k],
            ) && v.symbols[v.ns_symbols[ns][k]] == s,
        symbols_of_document(v, store, uri, path, false).len() == 0,
{
    let fqns = v.ns_symbols[ns];
    lemma_known_in_file(v, fqns, path, fqns.len(), s);
}

/// Whether a project symbol matches the query, whatever the case of either.
pub open spec fn is_sought(v: IndexView, query: Seq<char>, fqn: Seq<char>) -> bool {
    &&& v.symbols.dom().contains(fqn)
    &&& v.symbols[fqn].source is Project
    &&& tier_of(lowercase(v.symbols[fqn].name), lowercase(query)) is Some
}

/// A result for a symbol, field by field.
pub open spec fn is_result(found: FoundView, s: SymbolView) -> bool {
    &&& found.name == s.name
    &&& found.kind == symbol_kind(s.kind)
    &&& found.location == (LocationView { file: s.file, range: s.name_range })
    &&& found.container_name == s.ns
}

/// Every result of a search is a symbol of the project that matches the query; while no more symbols are
/// known than are given at most, every one that matches is found; and a closer match never
/// comes behind one that is less close.
pub proof fn law_search_finds_what_matches(v: IndexView, query: Seq<char>, names: Seq<Seq<char>>)
    requires
        lists_symbols(v, names),
    ensures
        forall|i: int|
            0 <= i < search(v, query, names).len() ==> finds(
                v,
                query,
                #[trigger] search(v, query, names)[i],
            ),
        names.len() <= MAX_RESULTS ==> forall|fqn: Seq<char>| #[trigger]
            is_sought(v, query, fqn) ==> exists|i: int|
                0 <= i < search(v, query, names).len() && is_result(
                    #[trigger] search(v, query, names)[i],
                    v.symbols[fqn],
                ),
        forall|i: int, j: int|
            0 <= i < j < search(v, query, names).len() ==> closer_first(
                query,
                #[trigger] search(v, query, names)[i],
                #[trigger] search(v, query, names)[j],
            ),
{
    let hits = search_hits(v, query, names, names.len());
    let all = ranked(hits);
    let kept = foremost(all);
    let found = search(v, query, names);
    law_sorting_keeps_everything(hits);
    hits.to_multiset_ensures();
    all.to_multiset_ensures();
    lemma_hit_count(v, query, names, names.len());
    assert forall|h: RankView| #[trigger] all.contains(h) <==> hits.contains(h) by {
        assert(hits.contains(h) <==> hits.to_multiset().count(h) > 0);
        assert(all.contains(h) <==> all.to_multiset().count(h) > 0);
    }
    assert forall|i: int| 0 <= i < kept.len() implies search_rank(
        v,
        query,
        (#[trigger] kept[i]).name,
    ) == Some(kept[i]) by {
        assert(all[i] == kept[i]);
        assert(all.contains(kept[i]));
        lemma_hits(v, query, names, names.len(), kept[i]);
    }
    assert forall|i: int| 0 <= i < found.len() implies finds(v, query, #[trigger] found[i]) by {
        let fqn = kept[i].name;
        assert(search_rank(v, query, fqn) == Some(kept[i]));
        assert(is_sought(v, query, fqn));
    }
    assert forall|i: int, j: int| 0 <= i < j < found.len() implies closer_first(
        query,
        #[trigger] found[i],
        #[trigger] found[j],
    ) by {
        assert(search_rank(v, query, kept[i].name) == Some(kept[i]));
        assert(search_rank(v, query, kept[j].name) == Some(kept[j]));
        assert(by_rank()(all[i], all[j]));
        assert(rank_le(kept[i], kept[j]));
    }
    if names.len() <= MAX_RESULTS {
        assert forall|fqn: Seq<char>| #[trigger] is_sought(v, query, fqn) implies exists|i: int|
            0 <= i < found.len() && is_result(#[trigger] found[i], v.symbols[fqn]) by {
            let h = search_rank(v, query, fqn)->0;
            assert(names.contains(fqn));
            lemma_hit_is_found(v, query, names, names.len(), names.index_of(fqn));
            assert(all.contains(h));
            let i = all.index_of(h);
            assert(kept[i] == h);
            assert(is_result(found[i], v.symbols[fqn]));
        }
    }
}

/// Whether a result is of a symbol that was sought.
pub open spec fn finds(v: IndexView, query: Seq<char>, found: FoundView) -> bool {
    exists|fqn: Seq<char>| #[trigger] is_sought(v, query, fqn) && is_result(found, v.symbols[fqn])
}

/// Whether the first of two results matches at least as closely as the second.
pub open spec fn closer_first(query: Seq<char>, a: FoundView, b: FoundView) -> bool {
    match (tier_of(lowercase(a.name), lowercase(query)), tier_of(lowercase(b.name), lowercase(query))) {
        (Some(x), Some(y)) => x <= y,
        _ => false,
    }
}

proof fn lemma_hits(v: IndexView, query: Seq<char>, names: Seq<Seq<char>>, n: nat, h: RankView)
    requires
        n <= names.len(),
        search_hits(v, query, names, n).contains(h),
    ensures
        search_rank(v, query, h.name) == Some(h),
    decreases n,
{
    let before = search_hits(v, query, names, (n - 1) as nat);
    let after = search_hits(v, query, names, n);
    let i = after.index_of(h);
    if i < before.len() {
        assert(before[i] == h);
        lemma_hits(v, query, names, (n - 1) as nat, h);
    }
}

proof fn lemma_hit_count(v: IndexView, query: Seq<char>, names: Seq<Seq<char>>, n: nat)
    ensures
        search_hits(v, query, names, n).len() <= n,
    decreases n,
{
    if n > 0 {
        lemma_hit_count(v, query, names, (n - 1) as nat);
    }
}

proof fn lemma_hit_is_found(v: IndexView, query: Seq<char>, names: Seq<Seq<char>>, n: nat, i: int)
    requires
        0 <= i < n <= names.len(),
        search_rank(v, query, names[i]) is Some,
    ensures
        search_hits(v, query, names, n).contains(search_rank(v, query, names[i])->0),
    decreases n,
{
    let before = search_hits(v, query, names, (n - 1) as nat);
    let after = search_hits(v, query, names, n);
    let h = search_rank(v, query, names[i])->0;
    if i < n - 1 {
        lemma_hit_is_found(v, query, names, (n - 1) as nat, i);
        assert(after[before.index_of(h)] == h);
    } else {
        assert(after.last() == h);
    }
}

/// A definition is shown as what it is: what can be called as a function, but a method as a method;
/// values as variables, protocols as interfaces, records and types as classes, components as keys.
pub proof fn law_definitions_show_their_kind(kind: DefKind)
    ensures
        symbol_kind(kind) == SymbolKind::Function <==> kind == DefKind::Defn || kind
            == DefKind::DefnPrivate || kind == DefKind::Defmacro || kind == DefKind::Defmulti || kind
            == DefKind::Deftest,
        symbol_kind(kind) == SymbolKind::Variable <==> kind == DefKind::Def || kind
            == DefKind::Defonce || kind == DefKind::Declare,
        symbol_kind(kind) == SymbolKind::Interface <==> kind == DefKind::Defprotocol,
        symbol_kind(kind) == SymbolKind::Class <==> kind == DefKind::Defrecord || kind
            == DefKind::Deftype,
        symbol_kind(kind) == SymbolKind::Method <==> kind == DefKind::Defmethod,
        symbol_kind(kind) == SymbolKind::Key <==> kind == DefKind::IntegrantKey,
{
}

}
