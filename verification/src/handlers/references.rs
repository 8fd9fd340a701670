//! Where a name is used: finding what the cursor is on, and every place that means it.

use vstd::prelude::*;
use crate::collect::{
    dict_get, dict_put, key_from, law_dict_get_after_put, lemma_key_from, push_item, strs, Copied,
    Dict,
};
use crate::config::is_edn;
use crate::document::{DocumentStore, StoreView};
use crate::handlers::completion::ns_of;
use crate::index::extractor::{
    analysis_of, extract_full_with, file_occurrences_with, occurrences_of, qualify,
};
use crate::index::locals::{local_references_in, local_refs, LocalRefs, LocalRefsView};
use crate::index::model::{DefKind, Occurrence, OccurrenceView, Symbol, SymbolView};
use crate::index::symbols::{at, Index, IndexView};
use crate::lsp::{Position, Range};
use crate::path::extension_of;
use crate::syntax::FormView;
use crate::text::{
    concat3, index_from, law_split_at_the_first, split_first, split_once, str_eq,
};

verus! {

/// A range of a file.
#[derive(Clone, Debug)]
pub struct Location {
    pub file: String,
    pub range: Range,
}

/// What a [`Location`] says.
pub ghost struct LocationView {
    pub file: Seq<char>,
    pub range: Range,
}

impl DeepView for Location {
    type V = LocationView;

    open spec fn deep_view(&self) -> LocationView {
        LocationView { file: self.file@, range: self.range }
    }
}

/// An open document and the path under which the index knows it.
#[derive(Clone, Debug)]
pub struct OpenDoc {
    pub uri: String,
    pub path: String,
}

/// What an [`OpenDoc`] says.
pub ghost struct OpenView {
    pub uri: Seq<char>,
    pub path: Seq<char>,
}

impl DeepView for OpenDoc {
    type V = OpenView;

    open spec fn deep_view(&self) -> OpenView {
        OpenView { uri: self.uri@, path: self.path@ }
    }
}

/// The usages of a name in one file.
#[derive(Clone, Debug)]
pub struct FileOccurrences {
    pub file: String,
    pub occurrences: Vec<Occurrence>,
}

/// What a [`FileOccurrences`] says.
pub ghost struct FileView {
    pub file: Seq<char>,
    pub occurrences: Seq<OccurrenceView>,
}

impl DeepView for FileOccurrences {
    type V = FileView;

    open spec fn deep_view(&self) -> FileView {
        FileView { file: self.file@, occurrences: self.occurrences.deep_view() }
    }
}

/// The local at a position of an open document, and its name. A keyword or a qualified
/// word is none.
pub open spec fn local_at(store: StoreView, uri: Seq<char>, pos: Position) -> Option<
    (Seq<char>, LocalRefsView),
> {
    match store.word(uri, pos) {
        Some(word) => if store.keyword(uri, pos) is Some || index_from(word, '/', 0) is Some {
            None
        } else {
            match store.tree(uri) {
                Some(root) => match local_refs(root, pos, word) {
                    Some(refs) => Some((word, refs)),
                    None => None,
                },
                None => None,
            }
        },
        None => None,
    }
}

/// The local at a position of an open document, and its name.
pub fn local_refs_at(documents: &DocumentStore, uri: &str, pos: Position) -> (r: Option<
    (String, LocalRefs),
>)
    ensures
        r.deep_view() == local_at(documents@, uri@, pos),
{
    if documents.is_keyword_at(uri, pos) {
        return None;
    }
    let word = match documents.word_at(uri, pos) {
        Some(word) => word,
        None => return None,
    };
    if split_once(word.as_str(), '/').is_some() {
        return None;
    }
    match documents.snapshot(uri) {
        Some(snapshot) => match local_references_in(&snapshot.tree, pos, word.as_str()) {
            Some(refs) => Some((word, refs)),
            None => None,
        },
        None => None,
    }
}

/// The first symbol from `i` on whose name holds the position. A `defmethod` defines
/// nothing of its own: it names the multimethod that it extends.
pub open spec fn symbol_at(syms: Seq<SymbolView>, pos: Position, i: nat) -> Option<Seq<char>>
    decreases syms.len() - i,
{
    if i >= syms.len() {
        None
    } else if syms[i as int].kind != DefKind::Defmethod && syms[i as int].name_range.holds(pos) {
        Some(syms[i as int].fqn)
    } else {
        symbol_at(syms, pos, i + 1)
    }
}

/// The first usage from `i` on that holds the position.
pub open spec fn occurrence_at(occs: Seq<OccurrenceView>, pos: Position, i: nat) -> Option<
    Seq<char>,
>
    decreases occs.len() - i,
{
    if i >= occs.len() {
        None
    } else if occs[i as int].name_range.holds(pos) {
        Some(occs[i as int].fqn)
    } else {
        occurrence_at(occs, pos, i + 1)
    }
}

fn find_symbol_at(syms: &Vec<Symbol>, pos: Position) -> (r: Option<String>)
    ensures
        r.deep_view() == symbol_at(syms.deep_view(), pos, 0),
{
    let ghost all = syms.deep_view();
    let mut i: usize = 0;
    while i < syms.len()
        invariant
            i <= syms@.len(),
            all == syms.deep_view(),
            symbol_at(all, pos, 0) == symbol_at(all, pos, i as nat),
        decreases syms@.len() - i,
    {
        assert(all[i as int] == syms@[i as int].deep_view());
        let extends = match syms[i].kind {
            DefKind::Defmethod => true,
            _ => false,
        };
        if !extends && syms[i].name_range.contains(pos) {
            return Some(syms[i].fqn.clone());
        }
        i += 1;
    }
    None
}

fn find_occurrence_at(occs: &Vec<Occurrence>, pos: Position) -> (r: Option<String>)
    ensures
        r.deep_view() == occurrence_at(occs.deep_view(), pos, 0),
{
    let ghost all = occs.deep_view();
    let mut i: usize = 0;
    while i < occs.len()
        invariant
            i <= occs@.len(),
            all == occs.deep_view(),
            occurrence_at(all, pos, 0) == occurrence_at(all, pos, i as nat),
        decreases occs@.len() - i,
    {
        assert(all[i as int] == occs@[i as int].deep_view());
        if occs[i].name_range.contains(pos) {
            return Some(occs[i].fqn.clone());
        }
        i += 1;
    }
    None
}

/// What a qualified word stands for in the namespace: the alias half of a usage.
pub open spec fn through_alias(v: IndexView, word: Option<Seq<char>>, ns: Seq<char>) -> Option<
    Seq<char>,
> {
    match word {
        Some(word) => match split_first(word, '/') {
            Some((alias, name)) => if alias.len() == 0 || name.len() == 0 {
                None
            } else {
                Some(
                    qualify(
                        match at(v.namespaces, ns) {
                            Some(meta) => meta.alias_target(alias),
                            None => alias,
                        },
                        name,
                    ),
                )
            },
            None => None,
        },
        None => None,
    }
}

/// What stands at a position of the text of the file `path`, by its ranges: a definition
/// first, then a usage. A configuration file has usages only.
pub open spec fn named_at(v: IndexView, text: Seq<char>, path: Seq<char>, pos: Position) -> Option<
    Seq<char>,
> {
    if extension_of(path) == Some("edn"@) {
        occurrence_at(occurrences_of(text, path, v.config), pos, 0)
    } else {
        match analysis_of(text, path, v.config) {
            Some(a) => match symbol_at(a.symbols, pos, 0) {
                Some(fqn) => Some(fqn),
                None => occurrence_at(a.occurrences, pos, 0),
            },
            None => None,
        }
    }
}

/// What stands at a position of the open document `uri`, which is the file `path`. Bare
/// words that are neither a definition nor a usage stand for nothing.
pub open spec fn fqn_at(
    v: IndexView,
    store: StoreView,
    uri: Seq<char>,
    path: Seq<char>,
    pos: Position,
) -> Option<Seq<char>> {
    if store.tree(uri) is None {
        None
    } else {
        match named_at(v, store.docs[uri], path, pos) {
            Some(fqn) => Some(fqn),
            None => if extension_of(path) == Some("edn"@) {
                None
            } else {
                through_alias(v, store.word(uri, pos), ns_of(v, path))
            },
        }
    }
}

fn resolve_alias_half(index: &Index, word: Option<String>, path: &str) -> (r: Option<String>)
    ensures
        r.deep_view() == through_alias(index@, word.deep_view(), ns_of(index@, path@)),
{
    let word = match word {
        Some(word) => word,
        None => return None,
    };
    match split_once(word.as_str(), '/') {
        Some((alias, name)) => {
            if alias.as_str().is_empty() || name.as_str().is_empty() {
                return None;
            }
            let current_ns = match index.file_ns(path) {
                Some(ns) => ns,
                None => String::new(),
            };
            assert(current_ns@ =~= ns_of(index@, path@));
            match index.ns_meta(current_ns.as_str()) {
                Some(meta) => Some(
                    concat3(meta.resolve_alias(alias.as_str()), "/", name.as_str()),
                ),
                None => Some(concat3(alias.as_str(), "/", name.as_str())),
            }
        },
        None => None,
    }
}

/// What stands at a position of the open document `uri`, which is the file `path`.
pub fn resolve_fqn_at(
    index: &Index,
    documents: &DocumentStore,
    uri: &str,
    path: &str,
    pos: Position,
) -> (r: Option<String>)
    ensures
        r.deep_view() == fqn_at(index@, documents@, uri@, path@, pos),
{
    let snapshot = match documents.snapshot(uri) {
        Some(snapshot) => snapshot,
        None => return None,
    };
    let text = snapshot.text.as_str();
    if is_edn(path) {
        return find_occurrence_at(
            &file_occurrences_with(text, path, index.extract_config()),
            pos,
        );
    }
    if let Ok((_, syms, occs)) = extract_full_with(text, path, index.extract_config()) {
        if let Some(fqn) = find_symbol_at(&syms, pos) {
            return Some(fqn);
        }
        if let Some(fqn) = find_occurrence_at(&occs, pos) {
            return Some(fqn);
        }
    }
    resolve_alias_half(index, documents.word_at(uri, pos), path)
}

/// Those of the first `n` usages that mean `fqn`.
pub open spec fn meaning(occs: Seq<OccurrenceView>, fqn: Seq<char>, n: nat) -> Seq<OccurrenceView>
    decreases n,
{
    if n == 0 {
        seq![]
    } else {
        let before = meaning(occs, fqn, (n - 1) as nat);
        if occs[n - 1].fqn == fqn {
            before.push(occs[n - 1])
        } else {
            before
        }
    }
}

fn keep_meaning(occs: &Vec<Occurrence>, fqn: &str) -> (r: Vec<Occurrence>)
    ensures
        r.deep_view() == meaning(occs.deep_view(), fqn@, occs@.len()),
{
    let ghost all = occs.deep_view();
    let mut out: Vec<Occurrence> = Vec::new();
    assert(out.deep_view() =~= seq![]);
    let mut i: usize = 0;
    while i < occs.len()
        invariant
            i <= occs@.len(),
            all == occs.deep_view(),
            out.deep_view() == meaning(all, fqn@, i as nat),
        decreases occs@.len() - i,
    {
        assert(all[i as int] == occs@[i as int].deep_view());
        if str_eq(occs[i].fqn.as_str(), fqn) {
            push_item(&mut out, occs[i].copied());
        }
        i += 1;
    }
    out
}

/// The usages in the first `n` open documents, each under its path: what the editor
/// holds, which may not be saved.
pub open spec fn live(v: IndexView, store: StoreView, open: Seq<OpenView>, n: nat) -> Seq<
    (Seq<char>, Seq<OccurrenceView>),
>
    decreases n,
{
    if n == 0 {
        seq![]
    } else {
        let before = live(v, store, open, (n - 1) as nat);
        let d = open[n - 1];
        if store.tree(d.uri) is Some {
            dict_put(before, d.path, occurrences_of(store.docs[d.uri], d.path, v.config))
        } else {
            before
        }
    }
}

fn live_occurrences(index: &Index, documents: &DocumentStore, open: &Vec<OpenDoc>) -> (r: Dict<
    Vec<Occurrence>,
>)
    ensures
        r.deep_view() == live(index@, documents@, open.deep_view(), open@.len()),
{
    let ghost all = open.deep_view();
    let mut out: Dict<Vec<Occurrence>> = Dict::new();
    let mut i: usize = 0;
    while i < open.len()
        invariant
            i <= open@.len(),
            all == open.deep_view(),
            out.deep_view() == live(index@, documents@, all, i as nat),
        decreases open@.len() - i,
    {
        assert(all[i as int] == open@[i as int].deep_view());
        let path = open[i].path.as_str();
        if let Some(snapshot) = documents.snapshot(open[i].uri.as_str()) {
            let occs = file_occurrences_with(
                snapshot.text.as_str(),
                path,
                index.extract_config(),
            );
            out.insert(path.to_owned(), occs);
        }
        i += 1;
    }
    out
}

/// The usages of `fqn` in the first `n` of the project files `files`, but for those that
/// are open.
pub open spec fn indexed_files(
    v: IndexView,
    opened: Seq<(Seq<char>, Seq<OccurrenceView>)>,
    fqn: Seq<char>,
    files: Seq<Seq<char>>,
    n: nat,
) -> Seq<FileView>
    decreases n,
{
    if n == 0 {
        seq![]
    } else {
        let before = indexed_files(v, opened, fqn, files, (n - 1) as nat);
        let file = files[n - 1];
        match at(v.occurrences, file) {
            Some(occs) => {
                let occurrences = meaning(occs, fqn, occs.len());
                if dict_get(opened, file) is Some || occurrences.len() == 0 {
                    before
                } else {
                    before.push(FileView { file, occurrences })
                }
            },
            None => before,
        }
    }
}

/// The usages of `fqn` in the first `n` of the files that are open.
pub open spec fn open_files(
    opened: Seq<(Seq<char>, Seq<OccurrenceView>)>,
    fqn: Seq<char>,
    n: nat,
) -> Seq<FileView>
    decreases n,
{
    if n == 0 {
        seq![]
    } else {
        let before = open_files(opened, fqn, (n - 1) as nat);
        let (file, occs) = opened[n - 1];
        let occurrences = meaning(occs, fqn, occs.len());
        if occurrences.len() == 0 {
            before
        } else {
            before.push(FileView { file, occurrences })
        }
    }
}

/// Whether `files` are the project files of the index, each once.
pub open spec fn lists_files(v: IndexView, files: Seq<Seq<char>>) -> bool {
    &&& files.no_duplicates()
    &&& forall|k: Seq<char>| #[trigger] files.contains(k) <==> v.occurrences.dom().contains(k)
}

/// The usages of `fqn`, per file; `files` are the index's project files. What an open
/// document holds stands in place of what the index has of it.
pub open spec fn usages(
    v: IndexView,
    store: StoreView,
    open: Seq<OpenView>,
    fqn: Seq<char>,
    files: Seq<Seq<char>>,
) -> Seq<FileView> {
    let opened = live(v, store, open, open.len());
    indexed_files(v, opened, fqn, files, files.len()) + open_files(opened, fqn, opened.len())
}

/// The usages of `fqn`, per file.
pub fn occurrences_for(
    index: &Index,
    documents: &DocumentStore,
    open: &Vec<OpenDoc>,
    fqn: &str,
) -> (r: Vec<FileOccurrences>)
    ensures
        exists|files: Seq<Seq<char>>|
            lists_files(index@, files) && r.deep_view() == #[trigger] usages(
                index@,
                documents@,
                open.deep_view(),
                fqn@,
                files,
            ),
{
    let opened = live_occurrences(index, documents, open);
    let ghost live_map = opened.deep_view();
    let files = index.project_files();
    let ghost all = strs(files@);
    assert(lists_files(index@, all));
    let mut out: Vec<FileOccurrences> = Vec::new();
    assert(out.deep_view() =~= seq![]);
    let mut i: usize = 0;
    while i < files.len()
        invariant
            i <= files@.len(),
            all == strs(files@),
            live_map == opened.deep_view(),
            out.deep_view() == indexed_files(index@, live_map, fqn@, all, i as nat),
        decreases files@.len() - i,
    {
        assert(all[i as int] == files@[i as int]@);
        if !opened.contains_key(files[i].as_str()) {
            if let Some(occs) = index.occurrences_in(files[i].as_str()) {
                let occurrences = keep_meaning(&occs, fqn);
                if occurrences.len() > 0 {
                    push_item(
                        &mut out,
                        FileOccurrences { file: files[i].clone(), occurrences },
                    );
                }
            }
        }
        i += 1;
    }
    let ghost indexed = out.deep_view();
    assert(indexed + seq![] =~= indexed);
    let mut j: usize = 0;
    while j < opened.entries.len()
        invariant
            j <= opened.entries@.len(),
            live_map == opened.deep_view(),
            out.deep_view() == indexed + open_files(live_map, fqn@, j as nat),
        decreases opened.entries@.len() - j,
    {
        let ghost done = open_files(live_map, fqn@, j as nat);
        let file = opened.entries[j].0.as_str();
        let occs = &opened.entries[j].1;
        assert(live_map[j as int] == (file@, occs.deep_view()));
        let occurrences = keep_meaning(occs, fqn);
        if occurrences.len() > 0 {
            push_item(&mut out, FileOccurrences { file: file.to_owned(), occurrences });
            let ghost x = out.deep_view().last();
            assert((indexed + done).push(x) =~= indexed + done.push(x));
        }
        j += 1;
    }
    assert(out.deep_view() == usages(index@, documents@, open.deep_view(), fqn@, all));
    out
}

/// The places of the first `n` usages of a file.
pub open spec fn places(file: Seq<char>, occs: Seq<OccurrenceView>, n: nat) -> Seq<LocationView>
    decreases n,
{
    if n == 0 {
        seq![]
    } else {
        places(file, occs, (n - 1) as nat).push(
            LocationView { file, range: occs[n - 1].name_range },
        )
    }
}

/// The places of the usages of the first `n` files.
pub open spec fn all_places(files: Seq<FileView>, n: nat) -> Seq<LocationView>
    decreases n,
{
    if n == 0 {
        seq![]
    } else {
        let f = files[n - 1];
        all_places(files, (n - 1) as nat) + places(f.file, f.occurrences, f.occurrences.len())
    }
}

pub(crate) fn add_places(out: &mut Vec<Location>, files: &Vec<FileOccurrences>)
    ensures
        final(out).deep_view() == old(out).deep_view() + all_places(
            files.deep_view(),
            files@.len(),
        ),
{
    let ghost before = out.deep_view();
    let ghost all = files.deep_view();
    let mut i: usize = 0;
    assert(before + seq![] =~= before);
    while i < files.len()
        invariant
            i <= files@.len(),
            all == files.deep_view(),
            out.deep_view() == before + all_places(all, i as nat),
        decreases files@.len() - i,
    {
        assert(all[i as int] == files@[i as int].deep_view());
        let ghost done = before + all_places(all, i as nat);
        let occs = &files[i].occurrences;
        let ghost ov = occs.deep_view();
        let mut j: usize = 0;
        assert(done + seq![] =~= done);
        while j < occs.len()
            invariant
                i < files@.len(),
                occs == &files@[i as int].occurrences,
                j <= occs@.len(),
                ov == occs.deep_view(),
                out.deep_view() == done + places(files@[i as int].file@, ov, j as nat),
            decreases occs@.len() - j,
        {
            assert(ov[j as int] == occs@[j as int].deep_view());
            let ghost some = places(files@[i as int].file@, ov, j as nat);
            push_item(
                out,
                Location { file: files[i].file.clone(), range: occs[j].name_range },
            );
            let ghost x = out.deep_view().last();
            assert((done + some).push(x) =~= done + some.push(x));
            j += 1;
        }
        assert(done + places(all[i as int].file, ov, ov.len()) =~= before + all_places(
            all,
            i as nat + 1,
        ));
        i += 1;
    }
}

/// The places of a local, all in one file.
pub open spec fn local_places(file: Seq<char>, refs: LocalRefsView, declared: bool) -> Seq<
    LocationView,
> {
    (if declared {
        seq![LocationView { file, range: refs.declaration }]
    } else {
        seq![]
    }) + Seq::new(refs.usages.len(), |i: int| LocationView { file, range: refs.usages[i] })
}

/// The places of a local, all in one file.
pub fn local_references(file: &str, refs: &LocalRefs, declared: bool) -> (r: Vec<Location>)
    ensures
        r.deep_view() == local_places(file@, refs.deep_view(), declared),
{
    let mut out: Vec<Location> = Vec::new();
    assert(out.deep_view() =~= seq![]);
    if declared {
        push_item(&mut out, Location { file: file.to_owned(), range: refs.declaration });
    }
    let ghost before = out.deep_view();
    let mut i: usize = 0;
    while i < refs.usages.len()
        invariant
            i <= refs.usages@.len(),
            out.deep_view() =~= before + Seq::new(
                i as nat,
                |j: int| LocationView { file: file@, range: refs.usages@[j] },
            ),
        decreases refs.usages@.len() - i,
    {
        push_item(&mut out, Location { file: file.to_owned(), range: refs.usages[i] });
        i += 1;
    }
    assert(out.deep_view() =~= local_places(file@, refs.deep_view(), declared));
    out
}

/// The places that mean what stands at a position of the open document `uri`, which is
/// the file `path`; `files` are the index's project files. A local's are all in its own
/// document.
pub open spec fn references_to(
    v: IndexView,
    store: StoreView,
    open: Seq<OpenView>,
    uri: Seq<char>,
    path: Seq<char>,
    pos: Position,
    declared: bool,
    files: Seq<Seq<char>>,
) -> Seq<LocationView> {
    match local_at(store, uri, pos) {
        Some((_, refs)) => local_places(path, refs, declared),
        None => match fqn_at(v, store, uri, path, pos) {
            Some(fqn) => {
                let found = usages(v, store, open, fqn, files);
                (match at(v.symbols, fqn) {
                    Some(sym) => if declared {
                        seq![LocationView { file: sym.file, range: sym.name_range }]
                    } else {
                        seq![]
                    },
                    None => seq![],
                }) + all_places(found, found.len())
            },
            None => seq![],
        },
    }
}

/// The places that mean what stands at a position of the open document `uri`, which is
/// the file `path`; `None` where there are none.
pub fn references(
    index: &Index,
    documents: &DocumentStore,
    open: &Vec<OpenDoc>,
    uri: &str,
    path: &str,
    pos: Position,
    include_declaration: bool,
) -> (r: Option<Vec<Location>>)
    ensures
        exists|files: Seq<Seq<char>>|
            lists_files(index@, files) && {
                let found = #[trigger] references_to(
                    index@,
                    documents@,
                    open.deep_view(),
                    uri@,
                    path@,
                    pos,
                    include_declaration,
                    files,
                );
                match r {
                    Some(list) => list.deep_view() == found && found.len() > 0,
                    None => found.len() == 0,
                }
            },
{
    let listed = index.project_files();
    let ghost ov = open.deep_view();
    let ghost some_files = strs(listed@);
    assert(lists_files(index@, some_files));
    if let Some((_, refs)) = local_refs_at(documents, uri, pos) {
        let list = local_references(path, &refs, include_declaration);
        assert(list.deep_view() == references_to(
            index@,
            documents@,
            ov,
            uri@,
            path@,
            pos,
            include_declaration,
            some_files,
        ));
        return if list.len() == 0 {
            None
        } else {
            Some(list)
        };
    }
    let fqn = match resolve_fqn_at(index, documents, uri, path, pos) {
        Some(fqn) => fqn,
        None => {
            assert(references_to(
                index@,
                documents@,
                ov,
                uri@,
                path@,
                pos,
                include_declaration,
                some_files,
            ).len() == 0);
            return None;
        },
    };
    let found = occurrences_for(index, documents, open, fqn.as_str());
    let ghost files = choose|files: Seq<Seq<char>>|
        lists_files(index@, files) && found.deep_view() == #[trigger] usages(
            index@,
            documents@,
            ov,
            fqn@,
            files,
        );
    let mut list: Vec<Location> = Vec::new();
    assert(list.deep_view() =~= seq![]);
    if include_declaration {
        if let Some(sym) = index.lookup(fqn.as_str()) {
            push_item(&mut list, Location { file: sym.file.clone(), range: sym.name_range });
        }
    }
    add_places(&mut list, &found);
    assert(list.deep_view() =~= references_to(
        index@,
        documents@,
        ov,
        uri@,
        path@,
        pos,
        include_declaration,
        files,
    ));
    if list.len() == 0 {
        None
    } else {
        Some(list)
    }
}

proof fn lemma_meaning(occs: Seq<OccurrenceView>, fqn: Seq<char>, n: nat)
    requires
        n <= occs.len(),
    ensures
        forall|i: int|
            0 <= i < meaning(occs, fqn, n).len() ==> (#[trigger] meaning(occs, fqn, n)[i]).fqn
                == fqn && occs.contains(meaning(occs, fqn, n)[i]),
        forall|i: int|
            0 <= i < n && (#[trigger] occs[i]).fqn == fqn ==> meaning(occs, fqn, n).contains(
                occs[i],
            ),
    decreases n,
{
    if n > 0 {
        lemma_meaning(occs, fqn, (n - 1) as nat);
        let before = meaning(occs, fqn, (n - 1) as nat);
        let after = meaning(occs, fqn, n);
        assert forall|i: int| 0 <= i < n && (#[trigger] occs[i]).fqn == fqn implies after.contains(
            occs[i],
        ) by {
            if i < n - 1 {
                assert(before.contains(occs[i]));
                let j = choose|j: int| 0 <= j < before.len() && before[j] == occs[i];
                assert(after[j] == occs[i]);
            } else {
                assert(after.last() == occs[i]);
            }
        }
    }
}

/// What the index gives means the name, and is of no file that is open.
pub proof fn law_indexed_usages_mean_the_name(
    v: IndexView,
    opened: Seq<(Seq<char>, Seq<OccurrenceView>)>,
    fqn: Seq<char>,
    files: Seq<Seq<char>>,
    n: nat,
)
    requires
        n <= files.len(),
    ensures
        forall|i: int|
            0 <= i < indexed_files(v, opened, fqn, files, n).len() ==> {
                let f = #[trigger] indexed_files(v, opened, fqn, files, n)[i];
                &&& dict_get(opened, f.file) is None
                &&& forall|j: int|
                    0 <= j < f.occurrences.len() ==> (#[trigger] f.occurrences[j]).fqn == fqn
            },
    decreases n,
{
    if n > 0 {
        law_indexed_usages_mean_the_name(v, opened, fqn, files, (n - 1) as nat);
        match at(v.occurrences, files[n - 1]) {
            Some(occs) => lemma_meaning(occs, fqn, occs.len()),
            None => {},
        }
    }
}

/// Every usage of the name that the index has of a file that is not open is found.
pub proof fn law_indexed_usages_are_found(
    v: IndexView,
    opened: Seq<(Seq<char>, Seq<OccurrenceView>)>,
    fqn: Seq<char>,
    files: Seq<Seq<char>>,
    n: nat,
    i: int,
    j: int,
)
    requires
        0 <= i < n <= files.len(),
        dict_get(opened, files[i]) is None,
        v.occurrences.dom().contains(files[i]),
        0 <= j < v.occurrences[files[i]].len(),
        v.occurrences[files[i]][j].fqn == fqn,
    ensures
        exists|k: int|
            0 <= k < indexed_files(v, opened, fqn, files, n).len() && (#[trigger] indexed_files(
                v,
                opened,
                fqn,
                files,
                n,
            )[k]).file == files[i] && indexed_files(
                v,
                opened,
                fqn,
                files,
                n,
            )[k].occurrences.contains(v.occurrences[files[i]][j]),
    decreases n,
{
    let found = indexed_files(v, opened, fqn, files, n);
    if i < n - 1 {
        law_indexed_usages_are_found(v, opened, fqn, files, (n - 1) as nat, i, j);
        let before = indexed_files(v, opened, fqn, files, (n - 1) as nat);
        let k = choose|k: int|
            0 <= k < before.len() && (#[trigger] before[k]).file == files[i]
                && before[k].occurrences.contains(v.occurrences[files[i]][j]);
        assert(found[k] == before[k]);
    } else {
        let occs = v.occurrences[files[i]];
        lemma_meaning(occs, fqn, occs.len());
        let kept = meaning(occs, fqn, occs.len());
        assert(kept.contains(occs[j]));
        assert(kept.len() > 0);
        assert(found.last().occurrences == kept);
        assert(found[found.len() - 1].file == files[i]);
    }
}

/// A local is never looked up in the index: its references lie in its own file.
pub proof fn law_locals_stay_in_their_file(
    v: IndexView,
    store: StoreView,
    open: Seq<OpenView>,
    uri: Seq<char>,
    path: Seq<char>,
    pos: Position,
    declared: bool,
    files: Seq<Seq<char>>,
    i: int,
)
    requires
        local_at(store, uri, pos) is Some,
        0 <= i < references_to(v, store, open, uri, path, pos, declared, files).len(),
    ensures
        references_to(v, store, open, uri, path, pos, declared, files)[i].file == path,
{
}

/// Whether one of the usages is of `fqn` and has that range.
pub open spec fn has_usage(occs: Seq<OccurrenceView>, fqn: Seq<char>, range: Range) -> bool {
    exists|j: int|
        0 <= j < occs.len() && (#[trigger] occs[j]).fqn == fqn && occs[j].name_range == range
}

/// Whether the document at `i` is a parsed one of the file `file`.
pub open spec fn shows(store: StoreView, open: Seq<OpenView>, i: int, file: Seq<char>) -> bool {
    0 <= i < open.len() && open[i].path == file && store.tree(open[i].uri) is Some
}

/// Whether the document at `i` is the last of the first `n` that shows the file.
pub open spec fn shows_last(
    store: StoreView,
    open: Seq<OpenView>,
    n: nat,
    i: int,
    file: Seq<char>,
) -> bool {
    &&& i < n
    &&& shows(store, open, i, file)
    &&& forall|j: int| i < j < n ==> !#[trigger] shows(store, open, j, file)
}

/// Whether a usage of `fqn` stands at a place: in the document that the editor shows of the
/// file, or, where it shows none, in what the index has of the file.
pub open spec fn is_usage(
    v: IndexView,
    store: StoreView,
    open: Seq<OpenView>,
    fqn: Seq<char>,
    place: LocationView,
) -> bool {
    if exists|i: int| #[trigger] shows(store, open, i, place.file) {
        exists|i: int|
            #[trigger] shows_last(store, open, open.len(), i, place.file) && has_usage(
                occurrences_of(store.docs[open[i].uri], place.file, v.config),
                fqn,
                place.range,
            )
    } else {
        v.occurrences.dom().contains(place.file) && has_usage(
            v.occurrences[place.file],
            fqn,
            place.range,
        )
    }
}

proof fn lemma_put_keeps_keys_apart<V>(d: Seq<(Seq<char>, V)>, k: Seq<char>, x: V)
    requires
        forall|m: int, p: int|
            0 <= m < p < d.len() ==> (#[trigger] d[m]).0 != (#[trigger] d[p]).0,
    ensures
        forall|m: int, p: int|
            0 <= m < p < dict_put(d, k, x).len() ==> (#[trigger] dict_put(d, k, x)[m]).0 != (
            #[trigger] dict_put(d, k, x)[p]).0,
{
    lemma_key_from(d, k, 0);
    let e = dict_put(d, k, x);
    assert forall|m: int, p: int| 0 <= m < p < e.len() implies (#[trigger] e[m]).0 != (
    #[trigger] e[p]).0 by {
        if p < d.len() {
            assert(d[m].0 != d[p].0);
        } else {
            assert(d[m].0 != k);
        }
    }
}

proof fn lemma_live_keys(v: IndexView, store: StoreView, open: Seq<OpenView>, n: nat)
    requires
        n <= open.len(),
    ensures
        forall|m: int, p: int|
            0 <= m < p < live(v, store, open, n).len() ==> (#[trigger] live(
                v,
                store,
                open,
                n,
            )[m]).0 != (#[trigger] live(v, store, open, n)[p]).0,
    decreases n,
{
    if n > 0 {
        let before = live(v, store, open, (n - 1) as nat);
        let d = open[n - 1];
        lemma_live_keys(v, store, open, (n - 1) as nat);
        lemma_put_keeps_keys_apart(
            before,
            d.path,
            occurrences_of(store.docs[d.uri], d.path, v.config),
        );
    }
}

proof fn lemma_live_of(
    v: IndexView,
    store: StoreView,
    open: Seq<OpenView>,
    n: nat,
    file: Seq<char>,
)
    requires
        n <= open.len(),
    ensures
        match dict_get(live(v, store, open, n), file) {
            Some(occs) => exists|i: int|
                #[trigger] shows_last(store, open, n, i, file) && occs == occurrences_of(
                    store.docs[open[i].uri],
                    file,
                    v.config,
                ),
            None => forall|i: int| i < n ==> !#[trigger] shows(store, open, i, file),
        },
    decreases n,
{
    if n > 0 {
        let m = (n - 1) as nat;
        let before = live(v, store, open, m);
        let d = open[n - 1];
        lemma_live_of(v, store, open, m, file);
        law_dict_get_after_put(
            before,
            d.path,
            occurrences_of(store.docs[d.uri], d.path, v.config),
            file,
        );
        if shows(store, open, n - 1, file) {
            assert(shows_last(store, open, n, n - 1, file));
        } else if dict_get(before, file) is Some {
            let i = choose|i: int|
                #[trigger] shows_last(store, open, m, i, file) && dict_get(before, file) == Some(
                    occurrences_of(store.docs[open[i].uri], file, v.config),
                );
            assert(shows_last(store, open, n, i, file));
        }
    }
}

proof fn lemma_places_of(file: Seq<char>, occs: Seq<OccurrenceView>, n: nat, place: LocationView)
    requires
        n <= occs.len(),
    ensures
        places(file, occs, n).contains(place) <==> place.file == file && exists|k: int|
            0 <= k < n && (#[trigger] occs[k]).name_range == place.range,
    decreases n,
{
    let all = places(file, occs, n);
    if n > 0 {
        let before = places(file, occs, (n - 1) as nat);
        let last = LocationView { file, range: occs[n - 1].name_range };
        lemma_places_of(file, occs, (n - 1) as nat, place);
        crate::sort::lemma_push_contains(before, last, place);
        if before.contains(place) {
            let k = choose|k: int| 0 <= k < n - 1 && (#[trigger] occs[k]).name_range == place.range;
            assert(occs[k].name_range == place.range);
        }
        assert(occs[n - 1].name_range == last.range);
        if place.file == file && exists|k: int|
            0 <= k < n && (#[trigger] occs[k]).name_range == place.range {
            let k = choose|k: int| 0 <= k < n && (#[trigger] occs[k]).name_range == place.range;
            if k < n - 1 {
                assert(before.contains(place));
            } else {
                assert(place == last);
            }
        }
    } else {
        assert(all =~= seq![]);
    }
}

proof fn lemma_meant_places(
    file: Seq<char>,
    occs: Seq<OccurrenceView>,
    fqn: Seq<char>,
    place: LocationView,
)
    ensures
        ({
            let kept = meaning(occs, fqn, occs.len());
            places(file, kept, kept.len()).contains(place) <==> place.file == file && has_usage(
                occs,
                fqn,
                place.range,
            )
        }),
{
    let kept = meaning(occs, fqn, occs.len());
    lemma_meaning(occs, fqn, occs.len());
    lemma_places_of(file, kept, kept.len(), place);
    if exists|k: int| 0 <= k < kept.len() && (#[trigger] kept[k]).name_range == place.range {
        let k = choose|k: int| 0 <= k < kept.len() && (#[trigger] kept[k]).name_range == place.range;
        let j = occs.index_of(kept[k]);
        assert(occs[j].fqn == fqn && occs[j].name_range == place.range);
    }
    if has_usage(occs, fqn, place.range) {
        let j = choose|j: int|
            0 <= j < occs.len() && (#[trigger] occs[j]).fqn == fqn && occs[j].name_range
                == place.range;
        assert(kept.contains(occs[j]));
        assert(kept[kept.index_of(occs[j])].name_range == place.range);
    }
}

proof fn lemma_all_places_prefix(a: Seq<FileView>, b: Seq<FileView>, n: nat)
    requires
        n <= a.len(),
        n <= b.len(),
        forall|i: int| 0 <= i < n ==> a[i] == b[i],
    ensures
        all_places(a, n) == all_places(b, n),
    decreases n,
{
    if n > 0 {
        lemma_all_places_prefix(a, b, (n - 1) as nat);
        assert(a[n - 1] == b[n - 1]);
    }
}

proof fn lemma_all_places_push(files: Seq<FileView>, f: FileView, place: LocationView)
    ensures
        all_places(files.push(f), files.len() + 1).contains(place) <==> all_places(
            files,
            files.len(),
        ).contains(place) || places(f.file, f.occurrences, f.occurrences.len()).contains(place),
{
    let all = files.push(f);
    lemma_all_places_prefix(all, files, files.len());
    lemma_concat_contains(
        all_places(files, files.len()),
        places(f.file, f.occurrences, f.occurrences.len()),
        place,
    );
    assert(all[files.len() as int] == f);
}

/// What is among two lists together is among one of them.
pub proof fn lemma_concat_contains<A>(a: Seq<A>, b: Seq<A>, x: A)
    ensures
        (a + b).contains(x) <==> a.contains(x) || b.contains(x),
{
    if a.contains(x) {
        assert((a + b)[a.index_of(x)] == x);
    }
    if b.contains(x) {
        assert((a + b)[a.len() + b.index_of(x)] == x);
    }
    if (a + b).contains(x) {
        let i = (a + b).index_of(x);
        if i < a.len() {
            assert(a[i] == x);
        } else {
            assert(b[i - a.len()] == x);
        }
    }
}

proof fn lemma_all_places_concat(a: Seq<FileView>, b: Seq<FileView>, n: nat)
    requires
        n <= b.len(),
    ensures
        all_places(a + b, a.len() + n) == all_places(a, a.len()) + all_places(b, n),
    decreases n,
{
    if n == 0 {
        lemma_all_places_prefix(a + b, a, a.len());
        assert(all_places(a, a.len()) + all_places(b, 0) =~= all_places(a, a.len()));
    } else {
        lemma_all_places_concat(a, b, (n - 1) as nat);
        let f = b[n - 1];
        assert((a + b)[a.len() + n - 1] == f);
        let last = places(f.file, f.occurrences, f.occurrences.len());
        assert(all_places(a, a.len()) + (all_places(b, (n - 1) as nat) + last) =~= all_places(
            a,
            a.len(),
        ) + all_places(b, (n - 1) as nat) + last);
    }
}

proof fn lemma_open_places(
    opened: Seq<(Seq<char>, Seq<OccurrenceView>)>,
    fqn: Seq<char>,
    n: nat,
    place: LocationView,
)
    requires
        n <= opened.len(),
    ensures
        ({
            let found = open_files(opened, fqn, n);
            all_places(found, found.len()).contains(place) <==> exists|m: int|
                0 <= m < n && (#[trigger] opened[m]).0 == place.file && has_usage(
                    opened[m].1,
                    fqn,
                    place.range,
                )
        }),
    decreases n,
{
    let found = open_files(opened, fqn, n);
    if n > 0 {
        let before = open_files(opened, fqn, (n - 1) as nat);
        let (file, occs) = opened[n - 1];
        let occurrences = meaning(occs, fqn, occs.len());
        lemma_open_places(opened, fqn, (n - 1) as nat, place);
        lemma_meant_places(file, occs, fqn, place);
        lemma_all_places_push(before, FileView { file, occurrences }, place);
        if all_places(before, before.len()).contains(place) {
            let m = choose|m: int|
                0 <= m < n - 1 && (#[trigger] opened[m]).0 == place.file && has_usage(
                    opened[m].1,
                    fqn,
                    place.range,
                );
            assert(opened[m].0 == place.file);
        }
        assert(opened[n - 1].0 == file);
        if exists|m: int|
            0 <= m < n && (#[trigger] opened[m]).0 == place.file && has_usage(
                opened[m].1,
                fqn,
                place.range,
            ) {
            let m = choose|m: int|
                0 <= m < n && (#[trigger] opened[m]).0 == place.file && has_usage(
                    opened[m].1,
                    fqn,
                    place.range,
                );
            if m < n - 1 {
                assert(all_places(before, before.len()).contains(place));
            } else if occurrences.len() == 0 {
                assert(places(file, occurrences, 0) =~= seq![]);
            }
        }
        if occurrences.len() == 0 {
            assert(places(file, occurrences, 0) =~= seq![]);
        }
    } else {
        assert(all_places(found, found.len()) =~= seq![]);
    }
}

proof fn lemma_indexed_places(
    v: IndexView,
    opened: Seq<(Seq<char>, Seq<OccurrenceView>)>,
    fqn: Seq<char>,
    files: Seq<Seq<char>>,
    n: nat,
    place: LocationView,
)
    requires
        n <= files.len(),
    ensures
        ({
            let found = indexed_files(v, opened, fqn, files, n);
            all_places(found, found.len()).contains(place) <==> {
                &&& exists|i: int| 0 <= i < n && #[trigger] files[i] == place.file
                &&& dict_get(opened, place.file) is None
                &&& v.occurrences.dom().contains(place.file)
                &&& has_usage(v.occurrences[place.file], fqn, place.range)
            }
        }),
    decreases n,
{
    let found = indexed_files(v, opened, fqn, files, n);
    if n > 0 {
        let before = indexed_files(v, opened, fqn, files, (n - 1) as nat);
        let file = files[n - 1];
        lemma_indexed_places(v, opened, fqn, files, (n - 1) as nat, place);
        if all_places(before, before.len()).contains(place) {
            let i = choose|i: int| 0 <= i < n - 1 && #[trigger] files[i] == place.file;
            assert(files[i] == place.file);
        }
        match at(v.occurrences, file) {
            Some(occs) => {
                let occurrences = meaning(occs, fqn, occs.len());
                lemma_meant_places(file, occs, fqn, place);
                lemma_all_places_push(before, FileView { file, occurrences }, place);
                if occurrences.len() == 0 {
                    assert(places(file, occurrences, 0) =~= seq![]);
                }
            },
            None => {},
        }
        if exists|i: int| 0 <= i < n && #[trigger] files[i] == place.file {
            let i = choose|i: int| 0 <= i < n && #[trigger] files[i] == place.file;
            if i == n - 1 {
                assert(file == place.file);
            }
        }
        assert(files[n - 1] == file);
    } else {
        assert(all_places(found, found.len()) =~= seq![]);
    }
}

/// The places of the usages are those where a usage stands.
pub proof fn lemma_usage_places(
    v: IndexView,
    store: StoreView,
    open: Seq<OpenView>,
    fqn: Seq<char>,
    files: Seq<Seq<char>>,
    place: LocationView,
)
    requires
        lists_files(v, files),
    ensures
        ({
            let found = usages(v, store, open, fqn, files);
            all_places(found, found.len()).contains(place) <==> is_usage(
                v,
                store,
                open,
                fqn,
                place,
            )
        }),
{
    let opened = live(v, store, open, open.len());
    let indexed = indexed_files(v, opened, fqn, files, files.len());
    let shown = open_files(opened, fqn, opened.len());
    lemma_all_places_concat(indexed, shown, shown.len());
    lemma_concat_contains(
        all_places(indexed, indexed.len()),
        all_places(shown, shown.len()),
        place,
    );
    lemma_indexed_places(v, opened, fqn, files, files.len(), place);
    lemma_open_places(opened, fqn, opened.len(), place);
    lemma_live_of(v, store, open, open.len(), place.file);
    lemma_live_keys(v, store, open, open.len());
    lemma_key_from(opened, place.file, 0);
    match dict_get(opened, place.file) {
        Some(occs) => {
            let i = choose|i: int|
                #[trigger] shows_last(store, open, open.len(), i, place.file) && occs
                    == occurrences_of(store.docs[open[i].uri], place.file, v.config);
            assert(shows(store, open, i, place.file));
            let m = key_from(opened, place.file, 0)->0 as int;
            assert forall|p: int| 0 <= p < opened.len() && (#[trigger] opened[p]).0
                == place.file implies p == m by {
                if p < m {
                    assert(opened[p].0 != opened[m].0);
                }
                if m < p {
                    assert(opened[m].0 != opened[p].0);
                }
            }
            assert(opened[m] == (place.file, occs));
            assert forall|q: int|
                #[trigger] shows_last(store, open, open.len(), q, place.file) implies q == i by {
                assert(shows(store, open, q, place.file));
            }
        },
        None => {
            if exists|m: int|
                0 <= m < opened.len() && (#[trigger] opened[m]).0 == place.file && has_usage(
                    opened[m].1,
                    fqn,
                    place.range,
                ) {
                let m = choose|m: int| 0 <= m < opened.len() && (#[trigger] opened[m]).0
                    == place.file;
                assert(false);
            }
            if v.occurrences.dom().contains(place.file) {
                assert(files.contains(place.file));
                assert(files[files.index_of(place.file)] == place.file);
            }
        },
    }
}

/// The references to what is no local are the usages of its name in all files of the project,
/// in what the editor shows of a file where it shows it and in what the index has of it
/// where not, and, where it is asked for, the definition; nothing else is.
pub proof fn law_references_are_all_usages(
    v: IndexView,
    store: StoreView,
    open: Seq<OpenView>,
    uri: Seq<char>,
    path: Seq<char>,
    pos: Position,
    declared: bool,
    files: Seq<Seq<char>>,
    fqn: Seq<char>,
)
    requires
        lists_files(v, files),
        local_at(store, uri, pos) is None,
        fqn_at(v, store, uri, path, pos) == Some(fqn),
    ensures
        forall|place: LocationView|
            #[trigger] references_to(v, store, open, uri, path, pos, declared, files).contains(
                place,
            ) <==> is_usage(v, store, open, fqn, place) || (declared && v.symbols.dom().contains(
                fqn,
            ) && place == (LocationView {
                file: v.symbols[fqn].file,
                range: v.symbols[fqn].name_range,
            })),
{
    let found = usages(v, store, open, fqn, files);
    let all = all_places(found, found.len());
    assert forall|place: LocationView|
        #[trigger] references_to(v, store, open, uri, path, pos, declared, files).contains(
            place,
        ) <==> is_usage(v, store, open, fqn, place) || (declared && v.symbols.dom().contains(fqn)
            && place == (LocationView {
            file: v.symbols[fqn].file,
            range: v.symbols[fqn].name_range,
        })) by {
        lemma_usage_places(v, store, open, fqn, files, place);
        if declared && v.symbols.dom().contains(fqn) {
            let site = LocationView {
                file: v.symbols[fqn].file,
                range: v.symbols[fqn].name_range,
            };
            lemma_concat_contains(seq![site], all, place);
            assert(seq![site][0] == site);
        } else {
            lemma_concat_contains(seq![], all, place);
        }
    }
}

/// The references to a local are its usages, and its declaration where it is asked for, in
/// its own file.
pub proof fn law_references_to_a_local(
    v: IndexView,
    store: StoreView,
    open: Seq<OpenView>,
    uri: Seq<char>,
    path: Seq<char>,
    pos: Position,
    declared: bool,
    files: Seq<Seq<char>>,
    word: Seq<char>,
    root: FormView,
    place: LocationView,
)
    requires
        store.word(uri, pos) == Some(word),
        store.keyword(uri, pos) is None,
        !word.contains('/'),
        store.tree(uri) == Some(root),
        local_refs(root, pos, word) is Some,
    ensures
        references_to(v, store, open, uri, path, pos, declared, files).contains(place) <==> {
            let refs = local_refs(root, pos, word)->0;
            place.file == path && (refs.usages.contains(place.range) || (declared && place.range
                == refs.declaration))
        },
{
    law_split_at_the_first(word, '/', seq![]);
    let refs = local_refs(root, pos, word)->0;
    let all = references_to(v, store, open, uri, path, pos, declared, files);
    let first: int = if declared {
        1
    } else {
        0
    };
    assert(all.len() == first + refs.usages.len());
    if all.contains(place) {
        let i = all.index_of(place);
        if i >= first {
            assert(refs.usages[i - first] == place.range);
        }
    }
    if place.file == path && refs.usages.contains(place.range) {
        assert(all[first + refs.usages.index_of(place.range)] == place);
    }
    if place.file == path && declared && place.range == refs.declaration {
        assert(all[0] == place);
    }
}

/// A usage under the cursor stands for its name, where no definition does and no other usage
/// overlaps it.
pub proof fn law_usage_under_the_cursor(
    v: IndexView,
    store: StoreView,
    uri: Seq<char>,
    path: Seq<char>,
    pos: Position,
    i: int,
)
    requires
        store.tree(uri) is Some,
        extension_of(path) != Some("edn"@),
        analysis_of(store.docs[uri], path, v.config) matches Some(a) && {
            &&& 0 <= i < a.occurrences.len()
            &&& a.occurrences[i].name_range.holds(pos)
            &&& forall|j: int|
                0 <= j < a.occurrences.len() && (#[trigger] a.occurrences[j]).name_range.holds(pos)
                    ==> a.occurrences[j].fqn == a.occurrences[i].fqn
            &&& forall|j: int|
                0 <= j < a.symbols.len() && (#[trigger] a.symbols[j]).name_range.holds(pos)
                    ==> a.symbols[j].kind == DefKind::Defmethod
        },
    ensures
        fqn_at(v, store, uri, path, pos) == Some(
            analysis_of(store.docs[uri], path, v.config)->0.occurrences[i].fqn,
        ),
{
    let a = analysis_of(store.docs[uri], path, v.config)->0;
    lemma_no_symbol_at(a.symbols, pos, 0);
    lemma_occurrence_at(a.occurrences, pos, 0, i);
}

/// The name of a definition under the cursor stands for the definition. That of a method
/// does not: it names what it extends.
pub proof fn law_definition_under_the_cursor(
    v: IndexView,
    store: StoreView,
    uri: Seq<char>,
    path: Seq<char>,
    pos: Position,
    i: int,
)
    requires
        store.tree(uri) is Some,
        extension_of(path) != Some("edn"@),
        analysis_of(store.docs[uri], path, v.config) matches Some(a) && {
            &&& 0 <= i < a.symbols.len()
            &&& a.symbols[i].name_range.holds(pos)
            &&& a.symbols[i].kind != DefKind::Defmethod
            &&& forall|j: int|
                0 <= j < a.symbols.len() && (#[trigger] a.symbols[j]).name_range.holds(pos)
                    && a.symbols[j].kind != DefKind::Defmethod ==> a.symbols[j].fqn
                    == a.symbols[i].fqn
        },
    ensures
        fqn_at(v, store, uri, path, pos) == Some(
            analysis_of(store.docs[uri], path, v.config)->0.symbols[i].fqn,
        ),
{
    lemma_symbol_at(analysis_of(store.docs[uri], path, v.config)->0.symbols, pos, 0, i);
}

/// A qualified word that is neither a definition nor a usage stands for the name in the
/// namespace that its alias is short for.
pub proof fn law_alias_half_under_the_cursor(
    v: IndexView,
    store: StoreView,
    uri: Seq<char>,
    path: Seq<char>,
    pos: Position,
    alias: Seq<char>,
    name: Seq<char>,
    ns: Seq<char>,
    target: Seq<char>,
)
    requires
        store.tree(uri) is Some,
        extension_of(path) != Some("edn"@),
        analysis_of(store.docs[uri], path, v.config) matches Some(a) ==> {
            &&& forall|j: int|
                0 <= j < a.occurrences.len() ==> !(#[trigger] a.occurrences[j]).name_range.holds(pos)
            &&& forall|j: int|
                0 <= j < a.symbols.len() ==> !(#[trigger] a.symbols[j]).name_range.holds(pos)
        },
        store.word(uri, pos) == Some(alias + seq!['/'] + name),
        !alias.contains('/'),
        alias.len() > 0,
        name.len() > 0,
        v.file_to_ns.dom().contains(path),
        v.file_to_ns[path] == ns,
        v.namespaces.dom().contains(ns),
        dict_get(v.namespaces[ns].aliases, alias) == Some(target),
    ensures
        fqn_at(v, store, uri, path, pos) == Some(target + seq!['/'] + name),
{
    law_split_at_the_first(alias, '/', name);
    reveal_strlit("/");
    assert("/"@ =~= seq!['/']);
    match analysis_of(store.docs[uri], path, v.config) {
        Some(a) => {
            lemma_no_symbol_at(a.symbols, pos, 0);
            lemma_no_occurrence_at(a.occurrences, pos, 0);
        },
        None => {},
    }
}

proof fn lemma_no_symbol_at(syms: Seq<SymbolView>, pos: Position, i: nat)
    requires
        forall|j: int|
            i <= j < syms.len() && (#[trigger] syms[j]).name_range.holds(pos) ==> syms[j].kind
                == DefKind::Defmethod,
    ensures
        symbol_at(syms, pos, i) is None,
    decreases syms.len() - i,
{
    if i < syms.len() {
        assert(syms[i as int].name_range.holds(pos) ==> syms[i as int].kind == DefKind::Defmethod);
        lemma_no_symbol_at(syms, pos, i + 1);
    }
}

proof fn lemma_no_occurrence_at(occs: Seq<OccurrenceView>, pos: Position, i: nat)
    requires
        forall|j: int| i <= j < occs.len() ==> !(#[trigger] occs[j]).name_range.holds(pos),
    ensures
        occurrence_at(occs, pos, i) is None,
    decreases occs.len() - i,
{
    if i < occs.len() {
        assert(!occs[i as int].name_range.holds(pos));
        lemma_no_occurrence_at(occs, pos, i + 1);
    }
}

proof fn lemma_occurrence_at(occs: Seq<OccurrenceView>, pos: Position, i: nat, k: int)
    requires
        i <= k < occs.len(),
        occs[k].name_range.holds(pos),
        forall|j: int|
            0 <= j < occs.len() && (#[trigger] occs[j]).name_range.holds(pos) ==> occs[j].fqn
                == occs[k].fqn,
    ensures
        occurrence_at(occs, pos, i) == Some(occs[k].fqn),
    decreases occs.len() - i,
{
    if !occs[i as int].name_range.holds(pos) {
        lemma_occurrence_at(occs, pos, i + 1, k);
    }
}

proof fn lemma_symbol_at(syms: Seq<SymbolView>, pos: Position, i: nat, k: int)
    requires
        i <= k < syms.len(),
        syms[k].name_range.holds(pos),
        syms[k].kind != DefKind::Defmethod,
        forall|j: int|
            0 <= j < syms.len() && (#[trigger] syms[j]).name_range.holds(pos) && syms[j].kind
                != DefKind::Defmethod ==> syms[j].fqn == syms[k].fqn,
    ensures
        symbol_at(syms, pos, i) == Some(syms[k].fqn),
    decreases syms.len() - i,
{
    if !(syms[i as int].name_range.holds(pos) && syms[i as int].kind != DefKind::Defmethod) {
        lemma_symbol_at(syms, pos, i + 1, k);
    }
}

}
