//! Reading the files of a project and of its libraries into the index.

use vstd::prelude::*;
use crate::collect::{push_item, push_str, strs, Copied};
use crate::config::{clojure_source, is_clojure_source};
use crate::index::extractor::{
    analysis_of, edn_occurrences, extract, extract_edn, extract_full_with, integrant_edn,
    is_integrant_edn, no_config, AnalysisView,
};
use crate::index::model::{
    ExtractConfig, ExtractConfigView, NsMeta, NsMetaView, SourceView, Symbol, SymbolSource,
    SymbolView,
};
use crate::index::symbols::{at, fqns_of, Index, IndexView};
use crate::path::{
    components, components_of, extension_of, has_extension, normalize_lexically, normalized_path, same_path,
    starts_with, under, views, Component, ComponentView,
};

verus! {

/// A file and what it holds.
#[derive(Clone, Debug)]
pub struct SourceFile {
    pub path: String,
    pub text: String,
}

/// What a [`SourceFile`] says.
pub ghost struct SourceFileView {
    pub path: Seq<char>,
    pub text: Seq<char>,
}

impl DeepView for SourceFile {
    type V = SourceFileView;

    open spec fn deep_view(&self) -> SourceFileView {
        SourceFileView { path: self.path@, text: self.text@ }
    }
}

/// A directory to scan, and the project that it belongs to. What the project ignores is
/// left out; what is ignored above the project is not, for a project may itself lie in
/// an ignored directory.
#[derive(Clone, Debug)]
pub struct ScanRoot {
    pub project_dir: String,
    pub path: String,
}

/// What a [`ScanRoot`] says.
pub ghost struct ScanRootView {
    pub project_dir: Seq<char>,
    pub path: Seq<char>,
}

impl DeepView for ScanRoot {
    type V = ScanRootView;

    open spec fn deep_view(&self) -> ScanRootView {
        ScanRootView { project_dir: self.project_dir@, path: self.path@ }
    }
}

/// The directories to scan of one project.
pub fn scan_roots(root: &str, source_paths: &Vec<String>) -> (r: Vec<ScanRoot>)
    ensures
        r.deep_view() == strs(source_paths@).map_values(
            |p: Seq<char>| ScanRootView { project_dir: root@, path: p },
        ),
{
    let ghost all = strs(source_paths@).map_values(
        |p: Seq<char>| ScanRootView { project_dir: root@, path: p },
    );
    let mut out: Vec<ScanRoot> = Vec::new();
    let mut i: usize = 0;
    while i < source_paths.len()
        invariant
            i <= source_paths@.len(),
            all == strs(source_paths@).map_values(
                |p: Seq<char>| ScanRootView { project_dir: root@, path: p },
            ),
            out.deep_view() =~= all.take(i as int),
        decreases source_paths@.len() - i,
    {
        assert(strs(source_paths@)[i as int] == source_paths@[i as int]@);
        push_item(
            &mut out,
            ScanRoot { project_dir: root.to_owned(), path: source_paths[i].clone() },
        );
        i += 1;
    }
    assert(out.deep_view() =~= all);
    out
}

/// Where the walk of a root starts: at its project, so that everything that the project
/// ignores on the way down counts; at itself where it lies outside the project.
pub open spec fn walk_start(root: ScanRootView) -> Seq<ComponentView> {
    let target = normalized_path(root.path);
    let project = normalized_path(root.project_dir);
    if under(target, project) {
        project
    } else {
        target
    }
}

/// Where the walk of a root starts.
pub fn walk_from(root: &ScanRoot) -> (r: Vec<Component>)
    ensures
        views(r@) == walk_start(root.deep_view()),
{
    let target = normalize_lexically(root.path.as_str());
    let project = normalize_lexically(root.project_dir.as_str());
    if starts_with(&target, &project) {
        project
    } else {
        target
    }
}

/// Whether the walk of a root goes on at `entry`: below the root, or on the way to it.
pub open spec fn on_the_way(root: ScanRootView, entry: Seq<char>) -> bool {
    let target = normalized_path(root.path);
    walk_start(root) == target || under(components_of(entry), target) || under(
        target,
        components_of(entry),
    )
}

/// Whether the walk of a root goes on at `entry`.
pub fn keeps_entry(root: &ScanRoot, entry: &str) -> (r: bool)
    ensures
        r == on_the_way(root.deep_view(), entry@),
{
    let target = normalize_lexically(root.path.as_str());
    let start = walk_from(root);
    let path = components(entry);
    assert(views(path@) =~= path.deep_view());
    same_path(&start, &target) || starts_with(&path, &target) || starts_with(&target, &path)
}

/// `found` with each of the first `n` files that the scan is to read as source.
pub open spec fn sources_among(files: Seq<Seq<char>>, n: nat) -> Seq<Seq<char>>
    decreases n,
{
    if n == 0 {
        seq![]
    } else if clojure_source(files[n - 1]) {
        sources_among(files, (n - 1) as nat).push(files[n - 1])
    } else {
        sources_among(files, (n - 1) as nat)
    }
}

/// Those of the files of a walk that are source.
pub fn collect_clojure_files(files: &Vec<String>) -> (r: Vec<String>)
    ensures
        strs(r@) == sources_among(strs(files@), files@.len()),
{
    let ghost all = strs(files@);
    let mut out: Vec<String> = Vec::new();
    assert(strs(out@) =~= seq![]);
    let mut i: usize = 0;
    while i < files.len()
        invariant
            i <= files@.len(),
            all == strs(files@),
            strs(out@) == sources_among(all, i as nat),
        decreases files@.len() - i,
    {
        assert(all[i as int] == files@[i as int]@);
        if is_clojure_source(files[i].as_str()) {
            push_str(&mut out, files[i].clone());
        }
        i += 1;
    }
    out
}

/// Those of the first `n` files that are EDN.
pub open spec fn edn_among(files: Seq<Seq<char>>, n: nat) -> Seq<Seq<char>>
    decreases n,
{
    if n == 0 {
        seq![]
    } else if extension_of(files[n - 1]) == Some("edn"@) {
        edn_among(files, (n - 1) as nat).push(files[n - 1])
    } else {
        edn_among(files, (n - 1) as nat)
    }
}

/// Those of the files of a walk that are EDN.
pub fn collect_edn_files(files: &Vec<String>) -> (r: Vec<String>)
    ensures
        strs(r@) == edn_among(strs(files@), files@.len()),
{
    let ghost all = strs(files@);
    let mut out: Vec<String> = Vec::new();
    assert(strs(out@) =~= seq![]);
    let mut i: usize = 0;
    while i < files.len()
        invariant
            i <= files@.len(),
            all == strs(files@),
            strs(out@) == edn_among(all, i as nat),
        decreases files@.len() - i,
    {
        assert(all[i as int] == files@[i as int]@);
        if has_extension(files[i].as_str(), "edn") {
            push_str(&mut out, files[i].clone());
        }
        i += 1;
    }
    out
}

/// The index with what the first `n` project files say. Of two files that define one
/// namespace the later one wins; a file that cannot be read as source says nothing.
pub open spec fn with_sources(
    v: IndexView,
    files: Seq<SourceFileView>,
    cfg: ExtractConfigView,
    n: nat,
) -> IndexView
    decreases n,
{
    if n == 0 {
        v
    } else {
        let before = with_sources(v, files, cfg, (n - 1) as nat);
        let f = files[n - 1];
        match analysis_of(f.text, f.path, cfg) {
            Some(a) => before.file_inserted(a.meta, a.symbols, a.occurrences),
            None => before,
        }
    }
}

/// The index with the keywords that the first `n` EDN files hold, where they describe a
/// system.
pub open spec fn with_systems(v: IndexView, files: Seq<SourceFileView>, n: nat) -> IndexView
    decreases n,
{
    if n == 0 {
        v
    } else {
        let before = with_systems(v, files, (n - 1) as nat);
        let f = files[n - 1];
        if integrant_edn(f.path, f.text) && edn_occurrences(f.text).len() > 0 {
            before.edn_inserted(f.path, edn_occurrences(f.text))
        } else {
            before
        }
    }
}

/// The index of the project files that were read: the sources, then the EDN files.
pub fn build_index_scoped(
    sources: &Vec<SourceFile>,
    edn_files: &Vec<SourceFile>,
    cfg: &ExtractConfig,
) -> (r: Index)
    ensures
        r@ == with_systems(
            with_sources(
                IndexView::nothing(),
                sources.deep_view(),
                cfg.deep_view(),
                sources@.len(),
            ),
            edn_files.deep_view(),
            edn_files@.len(),
        ),
{
    let mut index = Index::new();
    let ghost all = sources.deep_view();
    let mut i: usize = 0;
    while i < sources.len()
        invariant
            i <= sources@.len(),
            all == sources.deep_view(),
            index@ == with_sources(IndexView::nothing(), all, cfg.deep_view(), i as nat),
        decreases sources@.len() - i,
    {
        assert(all[i as int] == sources@[i as int].deep_view());
        if let Ok((meta, symbols, occurrences)) = extract_full_with(
            sources[i].text.as_str(),
            sources[i].path.as_str(),
            cfg,
        ) {
            index.insert_file(meta, symbols, occurrences);
        }
        i += 1;
    }
    let ghost scanned = index@;
    let ghost systems = edn_files.deep_view();
    let mut j: usize = 0;
    while j < edn_files.len()
        invariant
            j <= edn_files@.len(),
            systems == edn_files.deep_view(),
            index@ == with_systems(scanned, systems, j as nat),
        decreases edn_files@.len() - j,
    {
        assert(systems[j as int] == edn_files@[j as int].deep_view());
        let f = &edn_files[j];
        if is_integrant_edn(f.path.as_str(), f.text.as_str()) {
            let occurrences = extract_edn(f.text.as_str());
            if occurrences.len() > 0 {
                index.insert_edn_file(f.path.clone(), occurrences);
            }
        }
        j += 1;
    }
    index
}

/// The symbols, from another source.
pub open spec fn sourced(syms: Seq<SymbolView>, source: SourceView) -> Seq<SymbolView> {
    syms.map_values(|s: SymbolView| SymbolView { source, ..s })
}

/// The symbols, from another source.
pub fn with_source(symbols: Vec<Symbol>, source: &SymbolSource) -> (r: Vec<Symbol>)
    ensures
        r.deep_view() == sourced(symbols.deep_view(), source.deep_view()),
{
    let ghost all = sourced(symbols.deep_view(), source.deep_view());
    let mut out: Vec<Symbol> = Vec::new();
    let mut i: usize = 0;
    while i < symbols.len()
        invariant
            i <= symbols@.len(),
            all == sourced(symbols.deep_view(), source.deep_view()),
            out.deep_view() =~= all.take(i as int),
        decreases symbols@.len() - i,
    {
        assert(symbols.deep_view()[i as int] == symbols@[i as int].deep_view());
        let mut sym = symbols[i].copied();
        sym.source = source.copied();
        assert(sym.deep_view() == all[i as int]);
        push_item(&mut out, sym);
        i += 1;
    }
    assert(out.deep_view() =~= all);
    out
}

/// The index with what the first `n` files of the library directory `dir` say.
pub open spec fn with_directory(
    v: IndexView,
    dir: Seq<char>,
    files: Seq<SourceFileView>,
    n: nat,
) -> IndexView
    decreases n,
{
    if n == 0 {
        v
    } else {
        let before = with_directory(v, dir, files, (n - 1) as nat);
        let f = files[n - 1];
        match analysis_of(f.text, f.path, no_config()) {
            Some(a) => before.lib_inserted(a.meta, sourced(a.symbols, SourceView::Dir(dir))),
            None => before,
        }
    }
}

/// Takes in the files of a library directory, never over what the project says.
pub fn index_classpath_dir(dir: &str, files: &Vec<SourceFile>, index: &mut Index)
    ensures
        final(index)@ == with_directory(old(index)@, dir@, files.deep_view(), files@.len()),
{
    let ghost before = index@;
    let ghost all = files.deep_view();
    let source = SymbolSource::Dir(dir.to_owned());
    let mut i: usize = 0;
    while i < files.len()
        invariant
            i <= files@.len(),
            all == files.deep_view(),
            source.deep_view() == SourceView::Dir(dir@),
            index@ == with_directory(before, dir@, all, i as nat),
        decreases files@.len() - i,
    {
        assert(all[i as int] == files@[i as int].deep_view());
        if let Ok((meta, symbols)) = extract(files[i].text.as_str(), files[i].path.as_str()) {
            index.insert_lib_file(meta, with_source(symbols, &source));
        }
        i += 1;
    }
}

/// A library directory and the files in it.
#[derive(Clone, Debug)]
pub struct LibraryDir {
    pub dir: String,
    pub files: Vec<SourceFile>,
}

/// What a [`LibraryDir`] says.
pub ghost struct LibraryDirView {
    pub dir: Seq<char>,
    pub files: Seq<SourceFileView>,
}

impl DeepView for LibraryDir {
    type V = LibraryDirView;

    open spec fn deep_view(&self) -> LibraryDirView {
        LibraryDirView { dir: self.dir@, files: self.files.deep_view() }
    }
}

/// The index with what the first `n` library directories say.
pub open spec fn with_directories(v: IndexView, dirs: Seq<LibraryDirView>, n: nat) -> IndexView
    decreases n,
{
    if n == 0 {
        v
    } else {
        let d = dirs[n - 1];
        with_directory(with_directories(v, dirs, (n - 1) as nat), d.dir, d.files, d.files.len())
    }
}

/// Takes in library directories: every one of them is a dependency, also one that lies in
/// the project.
pub fn index_dir_libs(dirs: &Vec<LibraryDir>, index: &mut Index)
    ensures
        final(index)@ == with_directories(old(index)@, dirs.deep_view(), dirs@.len()),
{
    let ghost before = index@;
    let ghost all = dirs.deep_view();
    let mut i: usize = 0;
    while i < dirs.len()
        invariant
            i <= dirs@.len(),
            all == dirs.deep_view(),
            index@ == with_directories(before, all, i as nat),
        decreases dirs@.len() - i,
    {
        assert(all[i as int] == dirs@[i as int].deep_view());
        index_classpath_dir(dirs[i].dir.as_str(), &dirs[i].files, index);
        i += 1;
    }
}

/// An entry of a classpath, in its canonical form.
#[derive(Clone, Debug)]
pub struct ClasspathEntry {
    pub path: String,
    pub is_dir: bool,
}

/// What a [`ClasspathEntry`] says.
pub ghost struct ClasspathEntryView {
    pub path: Seq<char>,
    pub is_dir: bool,
}

impl DeepView for ClasspathEntry {
    type V = ClasspathEntryView;

    open spec fn deep_view(&self) -> ClasspathEntryView {
        ClasspathEntryView { path: self.path@, is_dir: self.is_dir }
    }
}

/// The archives among the first `n` entries.
pub open spec fn jars_among(entries: Seq<ClasspathEntryView>, n: nat) -> Seq<Seq<char>>
    decreases n,
{
    if n == 0 {
        seq![]
    } else {
        let before = jars_among(entries, (n - 1) as nat);
        if extension_of(entries[n - 1].path) == Some("jar"@) {
            before.push(entries[n - 1].path)
        } else {
            before
        }
    }
}

/// The library directories among the first `n` entries: those outside the project, whose
/// own sources are indexed apart.
pub open spec fn dirs_among(root: Seq<char>, entries: Seq<ClasspathEntryView>, n: nat) -> Seq<
    Seq<char>,
>
    decreases n,
{
    if n == 0 {
        seq![]
    } else {
        let before = dirs_among(root, entries, (n - 1) as nat);
        let e = entries[n - 1];
        if extension_of(e.path) != Some("jar"@) && e.is_dir && !under(
            components_of(e.path),
            components_of(root),
        ) {
            before.push(e.path)
        } else {
            before
        }
    }
}

/// The archives and the library directories of a classpath.
pub fn split_classpath(root: &str, entries: &Vec<ClasspathEntry>) -> (r: (Vec<String>, Vec<String>))
    ensures
        strs(r.0@) == jars_among(entries.deep_view(), entries@.len()),
        strs(r.1@) == dirs_among(root@, entries.deep_view(), entries@.len()),
{
    let ghost all = entries.deep_view();
    let project = components(root);
    assert(views(project@) =~= project.deep_view());
    let mut jars: Vec<String> = Vec::new();
    let mut dirs: Vec<String> = Vec::new();
    assert(strs(jars@) =~= seq![]);
    assert(strs(dirs@) =~= seq![]);
    let mut i: usize = 0;
    while i < entries.len()
        invariant
            i <= entries@.len(),
            all == entries.deep_view(),
            views(project@) == components_of(root@),
            strs(jars@) == jars_among(all, i as nat),
            strs(dirs@) == dirs_among(root@, all, i as nat),
        decreases entries@.len() - i,
    {
        assert(all[i as int] == entries@[i as int].deep_view());
        let path = entries[i].path.as_str();
        if has_extension(path, "jar") {
            push_str(&mut jars, path.to_owned());
        } else if entries[i].is_dir {
            let own = components(path);
            assert(views(own@) =~= own.deep_view());
            if !starts_with(&own, &project) {
                push_str(&mut dirs, path.to_owned());
            }
        }
        i += 1;
    }
    (jars, dirs)
}

/// The namespaces that were read from an archive, each with its symbols.
pub type Namespaces = Vec<(NsMeta, Vec<Symbol>)>;

/// The index with the first `n` namespaces of a library.
pub open spec fn with_namespaces(
    v: IndexView,
    found: Seq<(NsMetaView, Seq<SymbolView>)>,
    n: nat,
) -> IndexView
    decreases n,
{
    if n == 0 {
        v
    } else {
        with_namespaces(v, found, (n - 1) as nat).lib_inserted(found[n - 1].0, found[n - 1].1)
    }
}

/// The index with the namespaces of the first `n` archives.
pub open spec fn with_archives(
    v: IndexView,
    found: Seq<Seq<(NsMetaView, Seq<SymbolView>)>>,
    n: nat,
) -> IndexView
    decreases n,
{
    if n == 0 {
        v
    } else {
        with_namespaces(
            with_archives(v, found, (n - 1) as nat),
            found[n - 1],
            found[n - 1].len(),
        )
    }
}

fn insert_namespaces(found: &Namespaces, index: &mut Index)
    ensures
        final(index)@ == with_namespaces(old(index)@, found.deep_view(), found@.len()),
{
    let ghost before = index@;
    let ghost all = found.deep_view();
    let mut i: usize = 0;
    while i < found.len()
        invariant
            i <= found@.len(),
            all == found.deep_view(),
            index@ == with_namespaces(before, all, i as nat),
        decreases found@.len() - i,
    {
        assert(all[i as int] == found@[i as int].deep_view());
        let meta = found[i].0.copied();
        let mut symbols: Vec<Symbol> = Vec::new();
        let ghost syms = found@[i as int].1.deep_view();
        let mut j: usize = 0;
        while j < found[i as usize].1.len()
            invariant
                i < found@.len(),
                syms == found@[i as int].1.deep_view(),
                j <= found@[i as int].1@.len(),
                symbols.deep_view() =~= syms.take(j as int),
            decreases found@[i as int].1@.len() - j,
        {
            assert(syms[j as int] == found@[i as int].1@[j as int].deep_view());
            push_item(&mut symbols, found[i].1[j].copied());
            j += 1;
        }
        assert(symbols.deep_view() =~= syms);
        index.insert_lib_file(meta, symbols);
        i += 1;
    }
}

/// Takes in what was read from archives, in their order and never over what the project
/// says.
pub fn index_classpath_jars(results: &Vec<Namespaces>, index: &mut Index)
    ensures
        final(index)@ == with_archives(old(index)@, results.deep_view(), results@.len()),
{
    let ghost before = index@;
    let ghost all = results.deep_view();
    let mut i: usize = 0;
    while i < results.len()
        invariant
            i <= results@.len(),
            all == results.deep_view(),
            index@ == with_archives(before, all, i as nat),
        decreases results@.len() - i,
    {
        assert(all[i as int] == results@[i as int].deep_view());
        insert_namespaces(&results[i], index);
        i += 1;
    }
}

/// Takes in a classpath that was read: its directories first, then its archives.
pub fn index_classpath_libs(dirs: &Vec<LibraryDir>, jars: &Vec<Namespaces>, index: &mut Index)
    ensures
        final(index)@ == with_archives(
            with_directories(old(index)@, dirs.deep_view(), dirs@.len()),
            jars.deep_view(),
            jars@.len(),
        ),
{
    index_dir_libs(dirs, index);
    index_classpath_jars(jars, index);
}

/// Libraries never change what the project says: a namespace of the project stays as it
/// is, whatever archives are taken in.
pub proof fn law_libraries_leave_the_project_alone(
    v: IndexView,
    found: Seq<(NsMetaView, Seq<SymbolView>)>,
    n: nat,
    ns: Seq<char>,
)
    requires
        n <= found.len(),
        v.owns_namespace(ns),
    ensures
        with_namespaces(v, found, n).namespaces[ns] == v.namespaces[ns],
        with_namespaces(v, found, n).ns_symbols.dom().contains(ns) == v.ns_symbols.dom().contains(ns),
        v.ns_symbols.dom().contains(ns) ==> with_namespaces(v, found, n).ns_symbols[ns]
            == v.ns_symbols[ns],
        with_namespaces(v, found, n).owns_namespace(ns),
        with_namespaces(v, found, n).occurrences == v.occurrences,
    decreases n,
{
    if n > 0 {
        law_libraries_leave_the_project_alone(v, found, (n - 1) as nat, ns);
    }
}

/// A file on the way to a root, or in it, is walked; so is everything in a root that lies
/// outside its project.
pub proof fn law_roots_are_walked(root: ScanRootView, entry: Seq<char>)
    ensures
        under(components_of(entry), normalized_path(root.path)) ==> on_the_way(root, entry),
        !under(normalized_path(root.path), normalized_path(root.project_dir)) ==> on_the_way(
            root,
            entry,
        ),
{
}

/// The files that are indexed are the Clojure files among all, and no others.
pub proof fn law_all_sources_are_collected(files: Seq<Seq<char>>, n: nat, file: Seq<char>)
    requires
        n <= files.len(),
    ensures
        sources_among(files, n).contains(file) <==> clojure_source(file) && exists|k: int|
            0 <= k < n && #[trigger] files[k] == file,
        edn_among(files, n).contains(file) <==> extension_of(file) == Some("edn"@) && exists|k: int|
            0 <= k < n && #[trigger] files[k] == file,
    decreases n,
{
    if n > 0 {
        law_all_sources_are_collected(files, (n - 1) as nat, file);
        crate::sort::lemma_push_contains(
            sources_among(files, (n - 1) as nat),
            files[n - 1],
            file,
        );
        crate::sort::lemma_push_contains(edn_among(files, (n - 1) as nat), files[n - 1], file);
        if exists|k: int| 0 <= k < n - 1 && #[trigger] files[k] == file {
            let k = choose|k: int| 0 <= k < n - 1 && #[trigger] files[k] == file;
            assert(files[k] == file);
        }
        assert(files[n - 1] == files[n - 1]);
    } else {
        assert(sources_among(files, n) =~= seq![]);
        assert(edn_among(files, n) =~= seq![]);
    }
}

/// Every source file is in the index with its namespace and its usages, unless a later one says
/// otherwise.
pub proof fn law_every_source_file_is_indexed(
    v: IndexView,
    files: Seq<SourceFileView>,
    cfg: ExtractConfigView,
    n: nat,
    k: int,
    a: AnalysisView,
)
    requires
        0 <= k < n <= files.len(),
        analysis_of(files[k].text, files[k].path, cfg) == Some(a),
        forall|j: int|
            k < j < n ==> (analysis_of((#[trigger] files[j]).text, files[j].path, cfg) matches Some(
                later,
            ) ==> later.meta.file != a.meta.file && later.meta.name != a.meta.name),
    ensures
        ({
            let now = with_sources(v, files, cfg, n);
            &&& at(now.occurrences, a.meta.file) == Some(a.occurrences)
            &&& at(now.file_to_ns, a.meta.file) == Some(a.meta.name)
            &&& at(now.namespaces, a.meta.name) == Some(a.meta)
            &&& at(now.ns_symbols, a.meta.name) == Some(fqns_of(a.symbols))
        }),
    decreases n,
{
    if k < n - 1 {
        law_every_source_file_is_indexed(v, files, cfg, (n - 1) as nat, k, a);
        assert(analysis_of(files[n - 1].text, files[n - 1].path, cfg) matches Some(later)
            ==> later.meta.file != a.meta.file && later.meta.name != a.meta.name);
    }
}

/// Every configuration of a system that names anything is in the index with its keywords.
pub proof fn law_every_system_is_indexed(
    v: IndexView,
    files: Seq<SourceFileView>,
    n: nat,
    k: int,
)
    requires
        0 <= k < n <= files.len(),
        integrant_edn(files[k].path, files[k].text),
        edn_occurrences(files[k].text).len() > 0,
        forall|j: int| k < j < n ==> (#[trigger] files[j]).path != files[k].path,
    ensures
        at(with_systems(v, files, n).occurrences, files[k].path) == Some(
            edn_occurrences(files[k].text),
        ),
    decreases n,
{
    if k < n - 1 {
        law_every_system_is_indexed(v, files, (n - 1) as nat, k);
        assert(files[n - 1].path != files[k].path);
    }
}

/// The directories of a classpath that are indexed are those outside the project, and the archives
/// are all its archives.
pub proof fn law_classpath_is_split(
    root: Seq<char>,
    entries: Seq<ClasspathEntryView>,
    n: nat,
    path: Seq<char>,
)
    requires
        n <= entries.len(),
    ensures
        dirs_among(root, entries, n).contains(path) <==> extension_of(path) != Some("jar"@) && !under(
            components_of(path),
            components_of(root),
        ) && exists|k: int| 0 <= k < n && (#[trigger] entries[k]).path == path && entries[k].is_dir,
        jars_among(entries, n).contains(path) <==> extension_of(path) == Some("jar"@) && exists|
            k: int,
        | 0 <= k < n && (#[trigger] entries[k]).path == path,
    decreases n,
{
    if n > 0 {
        law_classpath_is_split(root, entries, (n - 1) as nat, path);
        crate::sort::lemma_push_contains(
            dirs_among(root, entries, (n - 1) as nat),
            entries[n - 1].path,
            path,
        );
        crate::sort::lemma_push_contains(
            jars_among(entries, (n - 1) as nat),
            entries[n - 1].path,
            path,
        );
    } else {
        assert(dirs_among(root, entries, n) =~= seq![]);
        assert(jars_among(entries, n) =~= seq![]);
    }
}

/// Every file of a library directory has its namespace in the index.
pub proof fn law_every_library_file_is_indexed(
    v: IndexView,
    dir: Seq<char>,
    files: Seq<SourceFileView>,
    n: nat,
    k: int,
    a: AnalysisView,
)
    requires
        0 <= k < n <= files.len(),
        analysis_of(files[k].text, files[k].path, no_config()) == Some(a),
    ensures
        with_directory(v, dir, files, n).namespaces.dom().contains(a.meta.name),
    decreases n,
{
    if k < n - 1 {
        law_every_library_file_is_indexed(v, dir, files, (n - 1) as nat, k, a);
    }
}

}
