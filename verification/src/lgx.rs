//! The dependencies that a let-go `lgx.edn` declares, and let-go's own core.

use vstd::prelude::*;
use crate::chars::{ascii_digit, ascii_letter, is_ascii_digit, is_ascii_letter};
use crate::collect::{
    contains_str, copy_opt, dict_get, push_item, push_str, strs, Copied, Dict,
};
use crate::config::ProjectKind;
use crate::edn::{
    entry_views, get, keyword, keyword_in, kw, kw_ns, lemma_edn, parse, parsed_edn, readable, str_at,
    str_vec_at, text_of, texts_at, value_at, Edn, EdnView, NameView,
};
use crate::handlers::matching::has_suffix;
use crate::index::extractor::qualify;
use crate::index::model::{NsMetaView, Symbol, SymbolView};
use crate::index::scanner::{index_classpath_dir, with_directory, SourceFile, SourceFileView};
use crate::index::symbols::{at, Index, IndexView};
use crate::path::{components, components_of, join, joined, starts_with, under, views};
use crate::text::{chars_of, concat3, line_stop, matches_at, stands_at, stop_of, string_of};
use crate::words::{trim, trimmed};

verus! {

/// Where a dependency is to be had.
#[derive(Clone, Debug, PartialEq, Eq)]
pub enum Coord {
    /// A checkout of a repository. `reff` is the commit, or the tag with `_` for each `/`.
    Git { url: String, reff: String },
    /// A directory, absolute or relative to the project that declares it.
    Local { root: String },
}

/// What a [`Coord`] says.
pub ghost enum CoordView {
    Git { url: Seq<char>, reff: Seq<char> },
    Local { root: Seq<char> },
}

impl DeepView for Coord {
    type V = CoordView;

    open spec fn deep_view(&self) -> CoordView {
        match self {
            Coord::Git { url, reff } => CoordView::Git { url: url@, reff: reff@ },
            Coord::Local { root } => CoordView::Local { root: root@ },
        }
    }
}

/// A dependency.
#[derive(Clone, Debug, PartialEq, Eq)]
pub struct Dep {
    pub coord: Coord,
    /// The directory of its sources, where it is not the usual one.
    pub deps_root: Option<String>,
}

/// What a [`Dep`] says.
pub ghost struct DepView {
    pub coord: CoordView,
    pub deps_root: Option<Seq<char>>,
}

impl DeepView for Dep {
    type V = DepView;

    open spec fn deep_view(&self) -> DepView {
        DepView { coord: self.coord.deep_view(), deps_root: self.deps_root.deep_view() }
    }
}

/// `s` with `_` for every `/`.
pub open spec fn flattened(s: Seq<char>) -> Seq<char> {
    s.map_values(
        |c: char|
            if c == '/' {
                '_'
            } else {
                c
            },
    )
}

fn flatten(s: &str) -> (r: String)
    ensures
        r@ == flattened(s@),
{
    let chars = chars_of(s);
    let mut out = String::new();
    let mut i: usize = 0;
    while i < chars.len()
        invariant
            chars@ == s@,
            i <= chars@.len(),
            out@ =~= flattened(s@).take(i as int),
        decreases chars@.len() - i,
    {
        out.push(
            if chars[i] == '/' {
                '_'
            } else {
                chars[i]
            },
        );
        i += 1;
    }
    assert(out@ =~= flattened(s@));
    out
}

/// The coordinate that a specification gives: a directory, or a repository with a commit
/// or a tag. A directory goes before a repository, a commit before a tag.
pub open spec fn coord_of(spec: EdnView) -> Option<CoordView> {
    match text_of(value_at(spec, keyword_in("local"@, "root"@))) {
        Some(root) => Some(CoordView::Local { root }),
        None => match text_of(value_at(spec, keyword_in("git"@, "url"@))) {
            Some(url) => match text_of(value_at(spec, keyword_in("git"@, "sha"@))) {
                Some(sha) => Some(CoordView::Git { url, reff: sha }),
                None => match text_of(value_at(spec, keyword_in("git"@, "tag"@))) {
                    Some(tag) => Some(CoordView::Git { url, reff: flattened(tag) }),
                    None => None,
                },
            },
            None => None,
        },
    }
}

fn coord_from(spec: &Edn) -> (r: Option<Coord>)
    ensures
        r.deep_view() == coord_of(spec@),
{
    if let Some(root) = str_at(spec, &kw_ns("local", "root")) {
        return Some(Coord::Local { root });
    }
    match str_at(spec, &kw_ns("git", "url")) {
        Some(url) => match str_at(spec, &kw_ns("git", "sha")) {
            Some(sha) => Some(Coord::Git { url, reff: sha }),
            None => match str_at(spec, &kw_ns("git", "tag")) {
                Some(tag) => Some(Coord::Git { url, reff: flatten(tag.as_str()) }),
                None => None,
            },
        },
        None => None,
    }
}

/// The name of a library.
pub open spec fn lib_name(n: NameView) -> Seq<char> {
    match n.namespace {
        Some(ns) => qualify(ns, n.name),
        None => n.name,
    }
}

/// The dependency of an entry; `None` where the entry is malformed.
pub open spec fn dep_of(entry: (EdnView, EdnView)) -> Option<(Seq<char>, DepView)> {
    match entry {
        (EdnView::Symbol(n), EdnView::Table(_)) => match coord_of(entry.1) {
            Some(coord) => Some(
                (
                    lib_name(n),
                    DepView {
                        coord,
                        deps_root: text_of(value_at(entry.1, keyword_in("deps"@, "root"@))),
                    },
                ),
            ),
            None => None,
        },
        _ => None,
    }
}

/// The dependencies of the first `n` entries.
pub open spec fn deps_among(entries: Seq<(EdnView, EdnView)>, n: nat) -> Seq<(Seq<char>, DepView)>
    decreases n,
{
    if n == 0 {
        seq![]
    } else {
        match dep_of(entries[n - 1]) {
            Some(dep) => deps_among(entries, (n - 1) as nat).push(dep),
            None => deps_among(entries, (n - 1) as nat),
        }
    }
}

/// The dependencies that a manifest declares.
pub open spec fn deps_in(top: EdnView) -> Seq<(Seq<char>, DepView)> {
    match value_at(top, keyword("deps"@)) {
        Some(EdnView::Table(entries)) => deps_among(entries, entries.len()),
        _ => seq![],
    }
}

fn dep_from(key: &Edn, spec: &Edn) -> (r: Option<(String, Dep)>)
    ensures
        r.deep_view() == dep_of((key@, spec@)),
{
    proof {
        lemma_edn(*key);
        lemma_edn(*spec);
    }
    let is_table = match spec {
        Edn::Table(_) => true,
        _ => false,
    };
    match key {
        Edn::Symbol(n) => {
            if !is_table {
                return None;
            }
            let lib = match &n.namespace {
                Some(ns) => concat3(ns.as_str(), "/", n.name.as_str()),
                None => n.name.clone(),
            };
            match coord_from(spec) {
                Some(coord) => {
                    let deps_root = str_at(spec, &kw_ns("deps", "root"));
                    Some((lib, Dep { coord, deps_root }))
                },
                None => None,
            }
        },
        _ => None,
    }
}

/// The dependencies that a manifest declares.
pub fn declared_deps(top: &Edn) -> (r: Vec<(String, Dep)>)
    ensures
        r.deep_view() == deps_in(top@),
{
    let mut out: Vec<(String, Dep)> = Vec::new();
    assert(out.deep_view() =~= seq![]);
    if let Some(deps) = get(top, &kw("deps")) {
        proof {
            lemma_edn(*deps);
        }
        if let Edn::Table(entries) = deps {
            let ghost all = entry_views(entries@);
            let mut i: usize = 0;
            while i < entries.len()
                invariant
                    i <= entries@.len(),
                    all == entry_views(entries@),
                    out.deep_view() == deps_among(all, i as nat),
                decreases entries@.len() - i,
            {
                assert(all[i as int] == (entries@[i as int].0@, entries@[i as int].1@));
                if let Some(dep) = dep_from(&entries[i].0, &entries[i].1) {
                    push_item(&mut out, dep);
                }
                i += 1;
            }
        }
    }
    out
}

/// The dependencies that the text of a manifest declares; none where it is malformed.
pub open spec fn deps_of(edn: Seq<char>) -> Seq<(Seq<char>, DepView)> {
    match parsed_edn(edn) {
        Some(top) => deps_in(top),
        None => seq![],
    }
}

/// The dependencies that the text of a manifest declares.
pub fn parse_deps(edn: &str) -> (r: Vec<(String, Dep)>)
    requires
        readable(edn@),
    ensures
        r.deep_view() == deps_of(edn@),
{
    match parse(edn) {
        Some(top) => declared_deps(&top),
        None => {
            let none: Vec<(String, Dep)> = Vec::new();
            assert(none.deep_view() =~= seq![]);
            none
        },
    }
}

/// The source directories that a manifest names.
pub open spec fn paths_of(top: Option<EdnView>) -> Seq<Seq<char>> {
    match top {
        Some(top) => match texts_at(top, keyword("paths"@)) {
            Some(list) => list,
            None => seq![],
        },
        None => seq![],
    }
}

/// The source directories that a manifest names.
pub fn paths(edn: &str) -> (r: Vec<String>)
    requires
        readable(edn@),
    ensures
        strs(r@) == paths_of(parsed_edn(edn@)),
{
    if let Some(top) = parse(edn) {
        if let Some(list) = str_vec_at(&top, &kw("paths")) {
            return list;
        }
    }
    let none: Vec<String> = Vec::new();
    assert(strs(none@) =~= seq![]);
    none
}

/// The version of let-go that a manifest asks for; `None` where it is blank.
pub open spec fn version_of(top: Option<EdnView>) -> Option<Seq<char>> {
    match top {
        Some(top) => match text_of(value_at(top, keyword("lg-version"@))) {
            Some(version) => if trimmed(version).len() == 0 {
                None
            } else {
                Some(version)
            },
            None => None,
        },
        None => None,
    }
}

/// The version of let-go that a manifest asks for.
pub fn lg_version(edn: &str) -> (r: Option<String>)
    requires
        readable(edn@),
    ensures
        r.deep_view() == version_of(parsed_edn(edn@)),
{
    match parse(edn) {
        Some(top) => match str_at(&top, &kw("lg-version")) {
            Some(version) => {
                if trim(version.as_str()).as_str().is_empty() {
                    None
                } else {
                    Some(version)
                }
            },
            None => None,
        },
        None => None,
    }
}

/// The directory of lgx: the one that its variable gives, or one in the user's home.
pub open spec fn home_of(lgx: Option<Seq<char>>, user: Option<Seq<char>>) -> Option<Seq<char>> {
    match lgx {
        Some(home) => Some(home),
        None => match user {
            Some(user) => Some(joined(user, ".lgx"@)),
            None => None,
        },
    }
}

/// The directory of lgx.
pub fn lgx_home(lgx: &Option<String>, user: &Option<String>) -> (r: Option<String>)
    ensures
        r.deep_view() == home_of(lgx.deep_view(), user.deep_view()),
{
    match lgx {
        Some(home) => Some(home.clone()),
        None => match user {
            Some(user) => Some(join(user.as_str(), ".lgx")),
            None => None,
        },
    }
}

/// `s` without `suffix`, where it ends with it.
pub open spec fn unsuffixed(s: Seq<char>, suffix: Seq<char>) -> Seq<char> {
    if suffix.is_suffix_of(s) {
        s.take(s.len() - suffix.len())
    } else {
        s
    }
}

fn strip_suffix(s: &str, suffix: &str) -> (r: String)
    ensures
        r@ == unsuffixed(s@, suffix@),
{
    if has_suffix(s, suffix) {
        let chars = chars_of(s);
        let out = string_of(&chars, 0, chars.len() - suffix.unicode_len());
        assert(out@ =~= s@.take(s@.len() - suffix@.len()));
        out
    } else {
        s.to_owned()
    }
}

/// Whether `c` can stand in the scheme of an address.
pub open spec fn scheme_char(c: char) -> bool {
    ascii_letter(c) || ascii_digit(c) || c == '+' || c == '-' || c == '.'
}

/// What follows the first `i` characters of an address and those of a scheme behind them,
/// where `://` ends it.
pub open spec fn behind_scheme(url: Seq<char>, i: nat) -> Option<nat>
    decreases url.len() - i,
{
    if stands_at(url, "://"@, i as int) {
        Some(i + 3)
    } else if i < url.len() && scheme_char(url[i as int]) {
        behind_scheme(url, i + 1)
    } else {
        None
    }
}

/// An address without its scheme, where it has one.
pub open spec fn schemeless(url: Seq<char>) -> Seq<char> {
    if url.len() > 0 && ascii_letter(url[0]) {
        match behind_scheme(url, 0) {
            Some(i) => url.skip(i as int),
            None => url,
        }
    } else {
        url
    }
}

fn strip_scheme(url: &str) -> (r: String)
    ensures
        r@ == schemeless(url@),
{
    proof {
        reveal_strlit("://");
    }
    let chars = chars_of(url);
    let mark = chars_of("://");
    if chars.len() == 0 || !is_ascii_letter(chars[0]) {
        return url.to_owned();
    }
    let len: usize = chars.len();
    let mut i: usize = 0;
    while i < len
        invariant
            chars@ == url@,
            mark@ == "://"@,
            mark@.len() == 3,
            len == chars@.len() > 0,
            ascii_letter(url@[0]),
            i <= len,
            behind_scheme(url@, 0) == behind_scheme(url@, i as nat),
        decreases len - i,
    {
        if matches_at(&chars, &mark, i) {
            let rest = string_of(&chars, i + 3, len);
            assert(rest@ =~= url@.skip(i + 3));
            return rest;
        }
        let c = chars[i];
        if !(is_ascii_letter(c) || is_ascii_digit(c) || c == '+' || c == '-' || c == '.') {
            return url.to_owned();
        }
        i += 1;
    }
    url.to_owned()
}

/// A repository's address without its scheme and its `.git`.
pub open spec fn repo_path(url: Seq<char>) -> Seq<char> {
    unsuffixed(schemeless(url), ".git"@)
}

/// Where lgx keeps a checkout.
pub open spec fn checkout(home: Seq<char>, url: Seq<char>, reff: Seq<char>) -> Seq<char> {
    joined(joined(joined(home, "gitlibs"@), repo_path(url)), reff)
}

/// Where lgx keeps a checkout.
pub fn gitlib_dir(home: &str, url: &str, reff: &str) -> (r: String)
    ensures
        r@ == checkout(home@, url@, reff@),
{
    let bare = strip_scheme(url);
    let repo = strip_suffix(bare.as_str(), ".git");
    let gitlibs = join(home, "gitlibs");
    let dir = join(gitlibs.as_str(), repo.as_str());
    join(dir.as_str(), reff)
}

/// The directory of a dependency that the project in `base` declares.
pub open spec fn root_of(coord: CoordView, base: Seq<char>, home: Option<Seq<char>>) -> Option<
    Seq<char>,
> {
    match coord {
        CoordView::Git { url, reff } => match home {
            Some(home) => Some(checkout(home, url, reff)),
            None => None,
        },
        CoordView::Local { root } => Some(joined(base, root)),
    }
}

/// The directory of a dependency that the project in `base` declares.
pub fn dep_root_dir(coord: &Coord, base: &str, home: &Option<String>) -> (r: Option<String>)
    ensures
        r.deep_view() == root_of(coord.deep_view(), base@, home.deep_view()),
{
    match coord {
        Coord::Git { url, reff } => match home {
            Some(home) => Some(gitlib_dir(home.as_str(), url.as_str(), reff.as_str())),
            None => None,
        },
        Coord::Local { root } => Some(join(base, root.as_str())),
    }
}

/// The directory that the sources of a dependency are first looked for in.
pub open spec fn preferred_dir(root: Seq<char>, deps_root: Option<Seq<char>>) -> Seq<char> {
    match deps_root {
        Some(dir) => joined(root, dir),
        None => joined(root, "src"@),
    }
}

/// The directory of the sources of a dependency: the one that it names, or `src` where
/// there is one, or the whole of it.
pub open spec fn sources_of(root: Seq<char>, deps_root: Option<Seq<char>>, dirs: Seq<Seq<char>>) -> Seq<
    char,
> {
    if deps_root is Some || dirs.contains(preferred_dir(root, deps_root)) {
        preferred_dir(root, deps_root)
    } else {
        root
    }
}

/// The directory of the sources of a dependency, `dirs` being the directories there are.
pub fn source_dir(root: &str, deps_root: &Option<String>, dirs: &Vec<String>) -> (r: String)
    ensures
        r@ == sources_of(root@, deps_root.deep_view(), strs(dirs@)),
{
    match deps_root {
        Some(dir) => join(root, dir.as_str()),
        None => {
            let src = join(root, "src");
            if contains_str(dirs, src.as_str()) {
                src
            } else {
                root.to_owned()
            }
        },
    }
}

/// What is known of the disk.
#[derive(Debug)]
pub struct World {
    /// The paths that were looked at.
    pub looked: Vec<String>,
    /// Those of them that are directories.
    pub dirs: Vec<String>,
    /// The manifests in them, each under its directory.
    pub manifests: Dict<String>,
}

/// What a [`World`] says.
pub ghost struct WorldView {
    pub looked: Seq<Seq<char>>,
    pub dirs: Seq<Seq<char>>,
    pub manifests: Seq<(Seq<char>, Seq<char>)>,
}

impl DeepView for World {
    type V = WorldView;

    open spec fn deep_view(&self) -> WorldView {
        WorldView {
            looked: strs(self.looked@),
            dirs: strs(self.dirs@),
            manifests: self.manifests.deep_view(),
        }
    }
}

impl WorldView {
    /// The dependencies that the manifest in `root` declares.
    pub open spec fn deps_at(self, root: Seq<char>) -> Seq<(Seq<char>, DepView)> {
        match dict_get(self.manifests, root) {
            Some(text) => deps_of(text),
            None => seq![],
        }
    }

    /// Whether every manifest can be parsed without the parser's panicking.
    pub open spec fn is_readable(self) -> bool {
        forall|i: int| 0 <= i < self.manifests.len() ==> readable((#[trigger] self.manifests[i]).1)
    }
}

/// A dependency to be looked at, and the directory of the project that declares it.
pub struct Item {
    pub lib: String,
    pub dep: Dep,
    pub base: String,
}

/// What an [`Item`] says.
pub ghost struct ItemView {
    pub lib: Seq<char>,
    pub dep: DepView,
    pub base: Seq<char>,
}

impl DeepView for Item {
    type V = ItemView;

    open spec fn deep_view(&self) -> ItemView {
        ItemView { lib: self.lib@, dep: self.dep.deep_view(), base: self.base@ }
    }
}

/// Where the search for dependencies stands.
pub ghost struct WalkView {
    /// The source directories found.
    pub out: Seq<Seq<char>>,
    /// The paths that would have to be looked at.
    pub unknown: Seq<Seq<char>>,
    /// The libraries that were met.
    pub seen: Seq<Seq<char>>,
    /// What is to be looked at next.
    pub queue: Seq<ItemView>,
}

/// Those of the first `n` dependencies that were not met yet, to be looked at.
pub open spec fn items_of(
    deps: Seq<(Seq<char>, DepView)>,
    base: Seq<char>,
    seen: Seq<Seq<char>>,
    n: nat,
) -> Seq<ItemView>
    decreases n,
{
    if n == 0 {
        seq![]
    } else {
        let before = items_of(deps, base, seen, (n - 1) as nat);
        if seen.contains(deps[n - 1].0) {
            before
        } else {
            before.push(ItemView { lib: deps[n - 1].0, dep: deps[n - 1].1, base })
        }
    }
}

/// The start of the search: what the project itself declares.
pub open spec fn started(w: WorldView, root: Seq<char>) -> WalkView {
    WalkView {
        out: seq![],
        unknown: seq![],
        seen: seq![],
        queue: items_of(w.deps_at(root), root, seq![], w.deps_at(root).len()),
    }
}

/// `unknown` with a path, unless it was looked at.
pub open spec fn asked(w: WorldView, unknown: Seq<Seq<char>>, path: Seq<char>) -> Seq<Seq<char>> {
    if w.looked.contains(path) {
        unknown
    } else {
        unknown.push(path)
    }
}

/// The search one dependency further. The first mention of a library wins: a later one
/// is passed over. What a dependency itself declares is looked at after everything that
/// was declared before.
pub open spec fn advanced(w: WorldView, home: Option<Seq<char>>, s: WalkView) -> WalkView {
    if s.queue.len() == 0 {
        s
    } else {
        let item = s.queue[0];
        let rest = s.queue.drop_first();
        if s.seen.contains(item.lib) {
            WalkView { queue: rest, ..s }
        } else {
            let seen = s.seen.push(item.lib);
            match root_of(item.dep.coord, item.base, home) {
                None => WalkView { seen, queue: rest, ..s },
                Some(root) => if !w.dirs.contains(root) {
                    WalkView { seen, queue: rest, unknown: asked(w, s.unknown, root), ..s }
                } else {
                    let src = sources_of(root, item.dep.deps_root, w.dirs);
                    WalkView {
                        out: if w.dirs.contains(src) {
                            s.out.push(src)
                        } else {
                            s.out
                        },
                        unknown: asked(
                            w,
                            asked(w, s.unknown, root),
                            preferred_dir(root, item.dep.deps_root),
                        ),
                        seen,
                        queue: rest + items_of(w.deps_at(root), root, seen, w.deps_at(root).len()),
                    }
                },
            }
        }
    }
}

/// The search `k` dependencies further.
pub open spec fn after_steps(w: WorldView, home: Option<Seq<char>>, s: WalkView, k: nat) -> WalkView
    decreases k,
{
    if k == 0 {
        s
    } else {
        advanced(w, home, after_steps(w, home, s, (k - 1) as nat))
    }
}

/// The libraries that the first `n` manifests name.
spec fn libs_named(manifests: Seq<(Seq<char>, Seq<char>)>, n: nat) -> Seq<Seq<char>>
    decreases n,
{
    if n == 0 {
        seq![]
    } else {
        libs_named(manifests, (n - 1) as nat) + deps_of(manifests[n - 1].1).map_values(
            |d: (Seq<char>, DepView)| d.0,
        )
    }
}

proof fn lemma_libs_named(manifests: Seq<(Seq<char>, Seq<char>)>, n: nat, i: int, j: int)
    requires
        0 <= i < n <= manifests.len(),
        0 <= j < deps_of(manifests[i].1).len(),
    ensures
        libs_named(manifests, n).contains(deps_of(manifests[i].1)[j].0),
    decreases n,
{
    let before = libs_named(manifests, (n - 1) as nat);
    let last = deps_of(manifests[n - 1].1).map_values(|d: (Seq<char>, DepView)| d.0);
    let all = libs_named(manifests, n);
    if i == n - 1 {
        assert(all[before.len() + j] == last[j]);
    } else {
        lemma_libs_named(manifests, (n - 1) as nat, i, j);
        let lib = deps_of(manifests[i].1)[j].0;
        let q = choose|q: int| 0 <= q < before.len() && before[q] == lib;
        assert(all[q] == before[q]);
    }
}

/// Whether every item names a library that some manifest names.
spec fn all_named(items: Seq<ItemView>, libs: Seq<Seq<char>>) -> bool {
    forall|i: int| 0 <= i < items.len() ==> libs.contains((#[trigger] items[i]).lib)
}

proof fn lemma_items_named(w: WorldView, root: Seq<char>, seen: Seq<Seq<char>>, n: nat)
    requires
        n <= w.deps_at(root).len(),
    ensures
        all_named(
            items_of(w.deps_at(root), root, seen, n),
            libs_named(w.manifests, w.manifests.len()),
        ),
    decreases n,
{
    if n > 0 {
        lemma_items_named(w, root, seen, (n - 1) as nat);
        crate::collect::lemma_key_from(w.manifests, root, 0);
        let i = crate::collect::key_from(w.manifests, root, 0)->0;
        lemma_libs_named(w.manifests, w.manifests.len(), i as int, n - 1);
    }
}

proof fn lemma_seen_fit(seen: Seq<Seq<char>>, libs: Seq<Seq<char>>)
    requires
        seen.no_duplicates(),
        forall|i: int| 0 <= i < seen.len() ==> libs.contains(#[trigger] seen[i]),
    ensures
        seen.len() <= libs.len(),
{
    seen.unique_seq_to_set();
    libs.lemma_cardinality_of_set();
    vstd::seq_lib::seq_to_set_is_finite(libs);
    assert(seen.to_set().subset_of(libs.to_set())) by {
        assert forall|x: Seq<char>| seen.to_set().contains(x) implies libs.to_set().contains(x) by {
            let i = choose|i: int| 0 <= i < seen.len() && seen[i] == x;
            assert(libs.contains(seen[i]));
        }
    }
    vstd::set_lib::lemma_len_subset(seen.to_set(), libs.to_set());
}

/// The source directories of a project's dependencies, and the paths that have to be
/// looked at before they are all known.
#[derive(Debug)]
pub struct Resolution {
    pub dirs: Vec<String>,
    pub unknown: Vec<String>,
}

fn read_deps(world: &World, root: &str) -> (r: Vec<(String, Dep)>)
    requires
        world.deep_view().is_readable(),
    ensures
        r.deep_view() == world.deep_view().deps_at(root@),
{
    match world.manifests.get(root) {
        Some(text) => {
            proof {
                let m = world.deep_view().manifests;
                crate::collect::lemma_key_from(m, root@, 0);
                let i = crate::collect::key_from(m, root@, 0)->0;
                assert(readable(m[i as int].1));
            }
            parse_deps(text.as_str())
        },
        None => {
            let none: Vec<(String, Dep)> = Vec::new();
            assert(none.deep_view() =~= seq![]);
            none
        },
    }
}

impl Copied for Coord {
    fn copied(&self) -> (r: Self) {
        match self {
            Coord::Git { url, reff } => Coord::Git { url: url.clone(), reff: reff.clone() },
            Coord::Local { root } => Coord::Local { root: root.clone() },
        }
    }
}

impl Copied for Dep {
    fn copied(&self) -> (r: Self) {
        Dep { coord: self.coord.copied(), deps_root: copy_opt(&self.deps_root) }
    }
}

fn enqueue(deps: &Vec<(String, Dep)>, base: &str, seen: &Vec<String>, queue: &mut Vec<Item>)
    ensures
        final(queue).deep_view() == old(queue).deep_view() + items_of(
            deps.deep_view(),
            base@,
            strs(seen@),
            deps@.len(),
        ),
{
    let ghost all = deps.deep_view();
    let ghost before = queue.deep_view();
    let mut i: usize = 0;
    assert(before + items_of(all, base@, strs(seen@), 0) =~= before);
    while i < deps.len()
        invariant
            i <= deps@.len(),
            all == deps.deep_view(),
            queue.deep_view() == before + items_of(all, base@, strs(seen@), i as nat),
        decreases deps@.len() - i,
    {
        let ghost done = items_of(all, base@, strs(seen@), i as nat);
        assert(all[i as int] == deps@[i as int].deep_view());
        if !contains_str(seen, deps[i].0.as_str()) {
            push_item(
                queue,
                Item { lib: deps[i].0.clone(), dep: deps[i].1.copied(), base: base.to_owned() },
            );
            let ghost x = queue.deep_view().last();
            assert((before + done).push(x) =~= before + done.push(x));
        }
        i += 1;
    }
}

fn ask(world: &World, unknown: &mut Vec<String>, path: &str)
    ensures
        strs(final(unknown)@) == asked(world.deep_view(), strs(old(unknown)@), path@),
{
    if !contains_str(&world.looked, path) {
        push_str(unknown, path.to_owned());
    }
}

/// The source directories of the dependencies of a project, and of theirs. The project's
/// own manifest, where it has one, is among those of `world`.
pub fn resolve_with_home(project_root: &str, home: &Option<String>, world: &World) -> (r: Resolution)
    requires
        world.deep_view().is_readable(),
    ensures
        exists|k: nat|
            {
                let s = #[trigger] after_steps(
                    world.deep_view(),
                    home.deep_view(),
                    started(world.deep_view(), project_root@),
                    k,
                );
                s.queue.len() == 0 && strs(r.dirs@) == s.out && strs(r.unknown@) == s.unknown
            },
{
    let ghost w = world.deep_view();
    let ghost h = home.deep_view();
    let ghost first = started(w, project_root@);
    let ghost libs = libs_named(w.manifests, w.manifests.len());
    let ghost mut k: nat = 0;
    let mut out: Vec<String> = Vec::new();
    let mut unknown: Vec<String> = Vec::new();
    let mut seen: Vec<String> = Vec::new();
    let mut queue: Vec<Item> = Vec::new();
    let mut head: usize = 0;
    assert(strs(seen@) =~= seq![]);
    assert(strs(out@) =~= seq![]);
    assert(strs(unknown@) =~= seq![]);
    assert(queue.deep_view() =~= seq![]);
    enqueue(&read_deps(world, project_root), project_root, &seen, &mut queue);
    assert(queue.deep_view().skip(0) =~= first.queue);
    proof {
        lemma_items_named(w, project_root@, seq![], w.deps_at(project_root@).len());
    }
    while head < queue.len()
        invariant
            w == world.deep_view(),
            w.is_readable(),
            h == home.deep_view(),
            libs == libs_named(w.manifests, w.manifests.len()),
            head <= queue@.len(),
            strs(seen@).no_duplicates(),
            strs(seen@).len() <= libs.len(),
            forall|i: int| 0 <= i < strs(seen@).len() ==> libs.contains(#[trigger] strs(seen@)[i]),
            all_named(queue.deep_view().skip(head as int), libs),
            after_steps(w, h, first, k) == (WalkView {
                out: strs(out@),
                unknown: strs(unknown@),
                seen: strs(seen@),
                queue: queue.deep_view().skip(head as int),
            }),
        decreases libs.len() - seen@.len(), queue@.len() - head,
    {
        let ghost s = after_steps(w, h, first, k);
        let ghost rest = queue.deep_view().skip(head + 1);
        let ghost had = strs(seen@);
        assert(s.queue.drop_first() =~= rest);
        assert(s.queue[0] == queue@[head as int].deep_view());
        assert forall|i: int| 0 <= i < rest.len() implies libs.contains((#[trigger] rest[i]).lib) by {
            assert(s.queue[i + 1] == rest[i]);
        }
        let lib = queue[head].lib.clone();
        if !contains_str(&seen, lib.as_str()) {
            push_str(&mut seen, lib);
            proof {
                let now = strs(seen@);
                assert forall|i: int| 0 <= i < now.len() implies libs.contains(#[trigger] now[i]) by {
                    if i < had.len() {
                        assert(now[i] == had[i]);
                    } else {
                        assert(now[i] == s.queue[0].lib);
                    }
                }
                lemma_seen_fit(now, libs);
            }
            let located = dep_root_dir(&queue[head].dep.coord, queue[head].base.as_str(), home);
            if let Some(root) = located {
                ask(world, &mut unknown, root.as_str());
                if contains_str(&world.dirs, root.as_str()) {
                    let deps_root = copy_opt(&queue[head].dep.deps_root);
                    let preferred = match &deps_root {
                        Some(dir) => join(root.as_str(), dir.as_str()),
                        None => join(root.as_str(), "src"),
                    };
                    ask(world, &mut unknown, preferred.as_str());
                    let src = source_dir(root.as_str(), &deps_root, &world.dirs);
                    if contains_str(&world.dirs, src.as_str()) {
                        push_str(&mut out, src);
                    }
                    let ghost before = queue.deep_view();
                    let deps = read_deps(world, root.as_str());
                    enqueue(&deps, root.as_str(), &seen, &mut queue);
                    let ghost added = items_of(
                        w.deps_at(root@),
                        root@,
                        strs(seen@),
                        w.deps_at(root@).len(),
                    );
                    proof {
                        lemma_items_named(w, root@, strs(seen@), w.deps_at(root@).len());
                        assert(queue.deep_view().skip(head + 1) =~= rest + added);
                        assert forall|i: int| 0 <= i < (rest + added).len() implies libs.contains(
                            (#[trigger] (rest + added)[i]).lib,
                        ) by {
                            if i >= rest.len() {
                                assert((rest + added)[i] == added[i - rest.len()]);
                            } else {
                                assert((rest + added)[i] == rest[i]);
                            }
                        }
                    }
                } else {
                    assert(asked(w, s.unknown, root@) == strs(unknown@));
                }
            }
        }
        head += 1;
        proof {
            k = k + 1;
            assert(after_steps(w, h, first, k) == advanced(w, h, s));
        }
    }
    assert(queue.deep_view().skip(head as int).len() == 0);
    Resolution { dirs: out, unknown }
}

/// The source directories of the dependencies of a project; `lgx` is the directory that
/// the variable of lgx gives, `user` that of the user.
pub fn resolve(
    project_root: &str,
    lgx: &Option<String>,
    user: &Option<String>,
    world: &World,
) -> (r: Resolution)
    requires
        world.deep_view().is_readable(),
    ensures
        exists|k: nat|
            {
                let s = #[trigger] after_steps(
                    world.deep_view(),
                    home_of(lgx.deep_view(), user.deep_view()),
                    started(world.deep_view(), project_root@),
                    k,
                );
                s.queue.len() == 0 && strs(r.dirs@) == s.out && strs(r.unknown@) == s.unknown
            },
{
    let home = lgx_home(lgx, user);
    resolve_with_home(project_root, &home, world)
}

/// A search that has nothing more to look at has one outcome, however many steps it is
/// given.
pub proof fn law_search_ends_in_one_way(
    w: WorldView,
    home: Option<Seq<char>>,
    s: WalkView,
    a: nat,
    b: nat,
)
    requires
        after_steps(w, home, s, a).queue.len() == 0,
        after_steps(w, home, s, b).queue.len() == 0,
    ensures
        after_steps(w, home, s, a) == after_steps(w, home, s, b),
{
    lemma_stays(w, home, s, a, b);
    lemma_stays(w, home, s, b, a);
}

proof fn lemma_stays(w: WorldView, home: Option<Seq<char>>, s: WalkView, a: nat, b: nat)
    requires
        after_steps(w, home, s, a).queue.len() == 0,
    ensures
        a <= b ==> after_steps(w, home, s, b) == after_steps(w, home, s, a),
    decreases b,
{
    if a < b {
        lemma_stays(w, home, s, a, (b - 1) as nat);
    }
}

/// Each library is met once: the first mention of it wins.
pub proof fn law_first_mention_wins(w: WorldView, home: Option<Seq<char>>, root: Seq<char>, k: nat)
    ensures
        after_steps(w, home, started(w, root), k).seen.no_duplicates(),
    decreases k,
{
    if k > 0 {
        law_first_mention_wins(w, home, root, (k - 1) as nat);
    }
}

/// Every directory that the search gives is one.
pub proof fn law_found_directories_exist(
    w: WorldView,
    home: Option<Seq<char>>,
    root: Seq<char>,
    k: nat,
)
    ensures
        forall|i: int|
            0 <= i < after_steps(w, home, started(w, root), k).out.len() ==> w.dirs.contains(
                #[trigger] after_steps(w, home, started(w, root), k).out[i],
            ),
    decreases k,
{
    if k > 0 {
        law_found_directories_exist(w, home, root, (k - 1) as nat);
        let before = after_steps(w, home, started(w, root), (k - 1) as nat);
        let now = after_steps(w, home, started(w, root), k);
        assert forall|i: int| 0 <= i < now.out.len() implies w.dirs.contains(
            #[trigger] now.out[i],
        ) by {
            if i < before.out.len() {
                assert(now.out[i] == before.out[i]);
            }
        }
    }
}

/// The namespaces of Clojure that let-go has under a name of its own.
pub open spec fn ns_aliases() -> Seq<(Seq<char>, Seq<char>)> {
    seq![
        ("clojure.core"@, "core"@),
        ("clojure.string"@, "string"@),
        ("clojure.set"@, "set"@),
        ("clojure.walk"@, "walk"@),
        ("clojure.edn"@, "edn"@),
        ("clojure.zip"@, "zip"@),
        ("clojure.data"@, "data"@),
        ("clojure.pprint"@, "pprint"@),
        ("clojure.test"@, "test"@),
    ]
}

/// The directory of the core of let-go, of the version that a project asks for: only a
/// let-go project has one, and only one that asks for a version.
pub open spec fn core_dir_of(
    kind: ProjectKind,
    edn: Option<EdnView>,
    home: Option<Seq<char>>,
) -> Option<Seq<char>> {
    if kind != ProjectKind::LetGo {
        None
    } else {
        match (version_of(edn), home) {
            (Some(version), Some(home)) => Some(
                joined(
                    joined(joined(joined(home, "let-go"@), "source"@), version),
                    "pkg/rt/core"@,
                ),
            ),
            _ => None,
        }
    }
}

/// The directory of the core of let-go, `edn` being the project's manifest.
pub fn core_source_dir(kind: ProjectKind, edn: &Option<String>, home: &Option<String>) -> (r: Option<
    String,
>)
    requires
        edn matches Some(text) ==> readable(text@),
    ensures
        r.deep_view() == core_dir_of(
            kind,
            match edn {
                Some(text) => parsed_edn(text@),
                None => None,
            },
            home.deep_view(),
        ),
{
    if kind != ProjectKind::LetGo {
        return None;
    }
    let version = match edn {
        Some(text) => match lg_version(text.as_str()) {
            Some(version) => version,
            None => return None,
        },
        None => return None,
    };
    match home {
        Some(home) => {
            let letgo = join(home.as_str(), "let-go");
            let source = join(letgo.as_str(), "source");
            let pinned = join(source.as_str(), version.as_str());
            Some(join(pinned.as_str(), "pkg/rt/core"))
        },
        None => None,
    }
}

/// The body of a Go string from `i` on, behind what of it was read; `None` where its
/// quote never closes. A backslash stands for the character behind it.
pub open spec fn go_string(s: Seq<char>, i: nat, read: Seq<char>) -> Option<Seq<char>>
    decreases s.len() - i,
{
    if i >= s.len() {
        None
    } else if s[i as int] == '"' {
        Some(read)
    } else if s[i as int] == '\\' {
        if i + 1 >= s.len() {
            None
        } else {
            go_string(s, i + 2, read.push(s[i as int + 1]))
        }
    } else {
        go_string(s, i + 1, read.push(s[i as int]))
    }
}

/// The body of the Go string that starts `s`, behind its opening quote.
pub fn read_go_string(s: &str) -> (r: Option<String>)
    ensures
        r.deep_view() == go_string(s@, 0, seq![]),
{
    let chars = chars_of(s);
    let len: usize = chars.len();
    let mut out = String::new();
    assert(out@ =~= seq![]);
    let mut i: usize = 0;
    while i < len
        invariant
            i <= len == chars@.len(),
            chars@ == s@,
            go_string(s@, 0, seq![]) == go_string(s@, i as nat, out@),
        decreases len - i,
    {
        if chars[i] == '"' {
            return Some(out);
        }
        if chars[i] == '\\' {
            if i + 1 >= len {
                return None;
            }
            out.push(chars[i + 1]);
            i += 2;
        } else {
            out.push(chars[i]);
            i += 1;
        }
    }
    None
}

/// A character of a Go string as the source spells it.
pub open spec fn go_spelled(c: char) -> Seq<char> {
    if c == '\\' || c == '"' {
        seq!['\\', c]
    } else {
        seq![c]
    }
}

/// The characters of `body` from `i` on as the source of a Go string spells them.
pub open spec fn go_source(body: Seq<char>, i: nat) -> Seq<char>
    decreases body.len() - i,
{
    if i >= body.len() {
        seq![]
    } else {
        go_spelled(body[i as int]) + go_source(body, i + 1)
    }
}

/// What the source of a Go string spells is read back, whatever follows the closing
/// quote. Where no quote closes it, nothing is.
pub proof fn law_go_string_reads_back(body: Seq<char>, rest: Seq<char>)
    ensures
        go_string(go_source(body, 0) + seq!['"'] + rest, 0, seq![]) == Some(body),
        go_string(go_source(body, 0), 0, seq![]) is None,
{
    lemma_go_source(seq![], body, 0, seq!['"'] + rest);
    lemma_go_source(seq![], body, 0, seq![]);
    assert(seq![] + go_source(body, 0) + (seq!['"'] + rest) =~= go_source(body, 0) + seq!['"']
        + rest);
    assert(seq![] + go_source(body, 0) + seq![] =~= go_source(body, 0));
    assert(body.take(0) =~= seq![]);
}

proof fn lemma_go_source(before: Seq<char>, body: Seq<char>, k: nat, after: Seq<char>)
    requires
        k <= body.len(),
    ensures
        go_string(before + go_source(body, k) + after, before.len(), body.take(k as int))
            == go_string(
            before + go_source(body, k) + after,
            (before + go_source(body, k)).len(),
            body,
        ),
    decreases body.len() - k,
{
    if k < body.len() {
        let c = body[k as int];
        let longer = before + go_spelled(c);
        lemma_go_source(longer, body, k + 1, after);
        let s = before + go_source(body, k) + after;
        assert(s =~= longer + go_source(body, k + 1) + after);
        assert(before + go_source(body, k) =~= longer + go_source(body, k + 1));
        assert(body.take(k as int).push(c) =~= body.take(k as int + 1));
        assert(s[before.len() as int] == go_spelled(c)[0]);
        if c == '\\' || c == '"' {
            assert(s[before.len() as int + 1] == c);
        }
    } else {
        assert(body.take(k as int) =~= body);
    }
}

/// What a line that defines a name natively holds before the name.
pub open spec fn marker() -> Seq<char> {
    "ns.Def(\""@
}

/// Where the Go literal from `i` on ends with `quote`. A backslash stands for the
/// character behind it.
pub open spec fn go_end(s: Seq<char>, i: nat, quote: char) -> Option<nat>
    decreases s.len() - i,
{
    if i >= s.len() {
        None
    } else if s[i as int] == quote {
        Some(i)
    } else if s[i as int] == '\\' {
        if i + 1 >= s.len() {
            None
        } else {
            go_end(s, i + 2, quote)
        }
    } else {
        go_end(s, i + 1, quote)
    }
}

fn find_go_end(s: &[char], from: usize, quote: char) -> (r: Option<usize>)
    requires
        from <= s@.len(),
    ensures
        match r {
            Some(j) => go_end(s@, from as nat, quote) == Some(j as nat) && from <= j < s@.len(),
            None => go_end(s@, from as nat, quote) is None,
        },
{
    let mut i: usize = from;
    while i < s.len()
        invariant
            from <= i <= s@.len(),
            go_end(s@, from as nat, quote) == go_end(s@, i as nat, quote),
        decreases s@.len() - i,
    {
        if s[i] == quote {
            return Some(i);
        }
        if s[i] == '\\' {
            if s.len() - i <= 1 {
                return None;
            }
            i += 2;
        } else {
            i += 1;
        }
    }
    None
}

/// The names that a line of Go defines natively from `i` on. A call in a comment defines
/// nothing, nor does one without a literal.
pub open spec fn line_defs(line: Seq<char>, i: nat) -> Seq<Seq<char>>
    decreases line.len() - i,
{
    if i >= line.len() || stands_at(line, "//"@, i as int) {
        seq![]
    } else if stands_at(line, marker(), i as int) {
        let from = i + marker().len();
        match go_end(line, from, '"') {
            Some(j) => {
                let rest = if i < j < line.len() {
                    line_defs(line, j + 1)
                } else {
                    seq![]
                };
                match go_string(line.skip(from as int), 0, seq![]) {
                    Some(name) => seq![name] + rest,
                    None => rest,
                }
            },
            None => seq![],
        }
    } else if line[i as int] == '"' || line[i as int] == '\'' {
        match go_end(line, i + 1, line[i as int]) {
            Some(j) => if i < j < line.len() {
                line_defs(line, j + 1)
            } else {
                seq![]
            },
            None => seq![],
        }
    } else {
        line_defs(line, i + 1)
    }
}

fn add_line_defs(line: &str, out: &mut Vec<String>)
    ensures
        strs(final(out)@) == strs(old(out)@) + line_defs(line@, 0),
{
    let chars = chars_of(line);
    let mark = chars_of("ns.Def(\"");
    let comment = chars_of("//");
    proof {
        reveal_strlit("ns.Def(\"");
    }
    let len: usize = chars.len();
    let ghost all = strs(out@) + line_defs(line@, 0);
    let mut i: usize = 0;
    while i < len && !matches_at(&chars, &comment, i)
        invariant
            i <= len == chars@.len(),
            chars@ == line@,
            mark@ == marker(),
            mark@.len() == 8,
            comment@ == "//"@,
            all == strs(old(out)@) + line_defs(line@, 0),
            strs(out@) + line_defs(line@, i as nat) == all,
        decreases len - i,
    {
        let ghost had = strs(out@);
        let defines = matches_at(&chars, &mark, i);
        if defines || chars[i] == '"' || chars[i] == '\'' {
            let from: usize = if defines {
                i + mark.len()
            } else {
                i + 1
            };
            let quote = if defines {
                '"'
            } else {
                chars[i]
            };
            match find_go_end(&chars, from, quote) {
                Some(j) => {
                    let ghost rest = line_defs(line@, (j + 1) as nat);
                    if defines {
                        let tail = string_of(&chars, from, len);
                        assert(tail@ =~= line@.skip(from as int));
                        if let Some(name) = read_go_string(tail.as_str()) {
                            let ghost x = name@;
                            push_str(out, name);
                            assert(had + (seq![x] + rest) =~= had.push(x) + rest);
                        }
                    }
                    i = j + 1;
                },
                None => {
                    assert(strs(out@) + seq![] =~= strs(out@));
                    return;
                },
            }
        } else {
            i += 1;
        }
    }
    assert(strs(out@) + line_defs(line@, i as nat) =~= strs(out@));
}

/// The names that the lines of a Go source from `i` on define natively.
pub open spec fn native_defs(src: Seq<char>, i: nat) -> Seq<Seq<char>>
    decreases src.len() + 1 - i,
{
    if i > src.len() {
        seq![]
    } else {
        let stop = line_stop(src, i);
        let rest = if i <= stop < src.len() {
            native_defs(src, stop + 1)
        } else {
            seq![]
        };
        line_defs(src.subrange(i as int, stop as int), 0) + rest
    }
}

/// The names that a Go source defines natively, in its order.
pub fn parse_native_defs(src: &str) -> (r: Vec<String>)
    ensures
        strs(r@) == native_defs(src@, 0),
{
    let chars = chars_of(src);
    let len: usize = chars.len();
    let mut out: Vec<String> = Vec::new();
    let mut i: usize = 0;
    let mut done = false;
    assert(strs(out@) + native_defs(src@, 0) =~= native_defs(src@, 0));
    while !done
        invariant
            chars@ == src@,
            i <= len == src@.len(),
            !done ==> strs(out@) + native_defs(src@, i as nat) == native_defs(src@, 0),
            done ==> strs(out@) == native_defs(src@, 0),
        decreases
                len - i,
                if done {
                    0int
                } else {
                    1int
                },
    {
        let ghost had = strs(out@);
        let stop: usize = stop_of(&chars, i);
        let line = string_of(&chars, i, stop);
        let ghost rest = if stop < len {
            native_defs(src@, (stop + 1) as nat)
        } else {
            seq![]
        };
        let ghost here = line_defs(line@, 0);
        add_line_defs(line.as_str(), &mut out);
        assert(had + (here + rest) =~= had + here + rest);
        assert(strs(out@) + rest == native_defs(src@, 0));
        if stop < len {
            i = stop + 1;
        } else {
            assert(strs(out@) + rest =~= strs(out@));
            done = true;
        }
    }
    out
}

/// Those of the first `n` symbols that are known, in the namespace `ns`.
pub open spec fn moved(v: IndexView, fqns: Seq<Seq<char>>, ns: Seq<char>, n: nat) -> Seq<SymbolView>
    decreases n,
{
    if n == 0 {
        seq![]
    } else {
        let before = moved(v, fqns, ns, (n - 1) as nat);
        match at(v.symbols, fqns[n - 1]) {
            Some(s) => before.push(SymbolView { ns, fqn: qualify(ns, s.name), ..s }),
            None => before,
        }
    }
}

/// The index with a namespace of let-go's core under its name in Clojure too. A namespace
/// of that name that comes from elsewhere is left alone.
pub open spec fn aliased(
    v: IndexView,
    core_dir: Seq<char>,
    clojure_ns: Seq<char>,
    letgo_ns: Seq<char>,
) -> IndexView {
    match (at(v.namespaces, letgo_ns), at(v.ns_symbols, letgo_ns)) {
        (Some(meta), Some(fqns)) => if under(components_of(meta.file), components_of(core_dir)) {
            v.lib_inserted(
                NsMetaView { name: clojure_ns, ..meta },
                moved(v, fqns, clojure_ns, fqns.len()),
            )
        } else {
            v
        },
        _ => v,
    }
}

/// Registers a namespace of let-go's core under its name in Clojure too.
pub fn register_alias_copy(index: &mut Index, core_dir: &str, clojure_ns: &str, letgo_ns: &str)
    ensures
        final(index)@ == aliased(old(index)@, core_dir@, clojure_ns@, letgo_ns@),
{
    let ghost v = index@;
    let mut meta = match index.ns_meta(letgo_ns) {
        Some(meta) => meta,
        None => return,
    };
    let ghost known = meta.deep_view();
    let file = components(meta.file.as_str());
    let dir = components(core_dir);
    assert(views(file@) =~= file.deep_view());
    assert(views(dir@) =~= dir.deep_view());
    let fqns = match index.fqns_in_ns(letgo_ns) {
        Some(fqns) => fqns,
        None => return,
    };
    if !starts_with(&file, &dir) {
        return;
    }
    meta.name = clojure_ns.to_owned();
    assert(meta.deep_view() == (NsMetaView { name: clojure_ns@, ..known }));
    let ghost all = fqns.deep_view();
    let mut symbols: Vec<Symbol> = Vec::new();
    assert(symbols.deep_view() =~= seq![]);
    let mut i: usize = 0;
    while i < fqns.len()
        invariant
            i <= fqns@.len(),
            all == fqns.deep_view(),
            v == index@,
            symbols.deep_view() == moved(v, all, clojure_ns@, i as nat),
        decreases fqns@.len() - i,
    {
        assert(all[i as int] == fqns@[i as int]@);
        if let Some(found) = index.lookup(fqns[i].as_str()) {
            let ghost s = found.deep_view();
            let mut sym = found;
            sym.ns = clojure_ns.to_owned();
            sym.fqn = concat3(clojure_ns, "/", sym.name.as_str());
            assert(sym.deep_view() == (SymbolView {
                ns: clojure_ns@,
                fqn: qualify(clojure_ns@, s.name),
                ..s
            }));
            push_item(&mut symbols, sym);
        }
        i += 1;
    }
    index.insert_lib_file(meta, symbols);
}

/// The index with the first `n` aliases.
pub open spec fn all_aliased(v: IndexView, core_dir: Seq<char>, n: nat) -> IndexView
    decreases n,
{
    if n == 0 {
        v
    } else {
        aliased(
            all_aliased(v, core_dir, (n - 1) as nat),
            core_dir,
            ns_aliases()[n - 1].0,
            ns_aliases()[n - 1].1,
        )
    }
}

/// The index with the core of let-go: the files of its directory, the aliases that they
/// have in Clojure, and the names that it defines natively.
pub open spec fn with_core(
    v: IndexView,
    core_dir: Seq<char>,
    files: Seq<SourceFileView>,
    lang_go: Option<Seq<char>>,
) -> IndexView {
    let indexed = with_directory(v, core_dir, files, files.len());
    let named = all_aliased(indexed, core_dir, ns_aliases().len());
    let natives = match lang_go {
        Some(src) => native_defs(src, 0),
        None => seq![],
    };
    IndexView {
        letgo_native: if natives.len() == 0 {
            None
        } else {
            Some(natives)
        },
        letgo_core: true,
        ..named
    }
}

fn count_namespaces(index: &Index) -> (r: usize)
    ensures
        r == index@.namespaces.dom().len(),
        index@.namespaces.dom().finite(),
{
    let names = index.namespace_names();
    proof {
        let all = strs(names@);
        all.unique_seq_to_set();
        vstd::seq_lib::seq_to_set_is_finite(all);
        assert forall|k: Seq<char>| all.to_set().contains(k) <==> index@.namespaces.dom().contains(
            k,
        ) by {
            assert(all.contains(k) <==> index@.namespaces.dom().contains(k));
        }
        assert(all.to_set() =~= index@.namespaces.dom());
    }
    names.len()
}

/// Takes in the core of let-go from its directory, where `lang_go` is the Go source beside
/// it; says how many namespaces are new.
pub fn index_core_dir(
    core_dir: &str,
    files: &Vec<SourceFile>,
    lang_go: &Option<String>,
    index: &mut Index,
) -> (r: usize)
    ensures
        final(index)@ == with_core(
            old(index)@,
            core_dir@,
            files.deep_view(),
            lang_go.deep_view(),
        ),
        r == (if with_directory(
            old(index)@,
            core_dir@,
            files.deep_view(),
            files@.len(),
        ).namespaces.dom().len() >= old(index)@.namespaces.dom().len() {
            with_directory(
                old(index)@,
                core_dir@,
                files.deep_view(),
                files@.len(),
            ).namespaces.dom().len() - old(index)@.namespaces.dom().len()
        } else {
            0
        }),
{
    let before: usize = count_namespaces(index);
    index_classpath_dir(core_dir, files, index);
    let after: usize = count_namespaces(index);
    let ghost indexed = index@;
    register_alias_copy(index, core_dir, "clojure.core", "core");
    register_alias_copy(index, core_dir, "clojure.string", "string");
    register_alias_copy(index, core_dir, "clojure.set", "set");
    register_alias_copy(index, core_dir, "clojure.walk", "walk");
    register_alias_copy(index, core_dir, "clojure.edn", "edn");
    register_alias_copy(index, core_dir, "clojure.zip", "zip");
    register_alias_copy(index, core_dir, "clojure.data", "data");
    register_alias_copy(index, core_dir, "clojure.pprint", "pprint");
    register_alias_copy(index, core_dir, "clojure.test", "test");
    proof {
        reveal_with_fuel(all_aliased, 10);
        assert(index@ == all_aliased(indexed, core_dir@, ns_aliases().len()));
    }
    let natives = match lang_go {
        Some(src) => parse_native_defs(src.as_str()),
        None => Vec::new(),
    };
    assert(strs(natives@) =~= (match lang_go.deep_view() {
        Some(src) => native_defs(src, 0),
        None => seq![],
    }));
    index.set_letgo_native(natives);
    index.mark_letgo_core();
    if after >= before {
        after - before
    } else {
        0
    }
}

/// What was read of the core of let-go.
#[derive(Clone, Debug)]
pub struct CoreSource {
    pub files: Vec<SourceFile>,
    /// The Go source beside the core.
    pub lang_go: Option<String>,
}

/// Takes in the core of let-go that a project asks for; says how many namespaces are new.
/// `found` is what its directory holds, where there is one.
pub fn index_letgo_core(
    kind: ProjectKind,
    edn: &Option<String>,
    home: &Option<String>,
    found: &Option<CoreSource>,
    index: &mut Index,
) -> (r: usize)
    requires
        edn matches Some(text) ==> readable(text@),
    ensures
        ({
            let top = match edn {
                Some(text) => parsed_edn(text@),
                None => None,
            };
            match (core_dir_of(kind, top, home.deep_view()), found) {
                (Some(dir), Some(core)) => {
                    let v = old(index)@;
                    let files = core.files.deep_view();
                    let indexed = with_directory(v, dir, files, files.len());
                    &&& final(index)@ == with_core(v, dir, files, core.lang_go.deep_view())
                    &&& r == (if indexed.namespaces.dom().len() >= v.namespaces.dom().len() {
                        indexed.namespaces.dom().len() - v.namespaces.dom().len()
                    } else {
                        0
                    })
                },
                _ => final(index)@ == old(index)@ && r == 0,
            }
        }),
{
    if let Some(dir) = core_source_dir(kind, edn, home) {
        if let Some(core) = found {
            return index_core_dir(dir.as_str(), &core.files, &core.lang_go, index);
        }
    }
    0
}

/// A project that is no let-go project, or asks for no version, gets no core of let-go.
pub proof fn law_core_needs_a_pinned_version(
    kind: ProjectKind,
    edn: Option<EdnView>,
    home: Option<Seq<char>>,
)
    ensures
        core_dir_of(kind, edn, home) is Some ==> kind == ProjectKind::LetGo && version_of(edn)
            is Some && home is Some,
{
}

/// An alias never replaces a namespace of the project.
pub proof fn law_aliases_leave_the_project_alone(
    v: IndexView,
    core_dir: Seq<char>,
    clojure_ns: Seq<char>,
    letgo_ns: Seq<char>,
)
    requires
        v.owns_namespace(clojure_ns),
    ensures
        aliased(v, core_dir, clojure_ns, letgo_ns) == v,
{
}

/// Where a dependency comes from: a local directory goes before a repository; in a repository a
/// commit goes before a tag, whose slashes become underscores; without either there is none.
pub proof fn law_coordinates_are_read(spec: EdnView, url: Seq<char>)
    ensures
        text_of(value_at(spec, keyword_in("local"@, "root"@))) matches Some(root) ==> coord_of(spec)
            == Some(CoordView::Local { root }),
        text_of(value_at(spec, keyword_in("local"@, "root"@))) is None && text_of(
            value_at(spec, keyword_in("git"@, "url"@)),
        ) is None ==> coord_of(spec) is None,
        text_of(value_at(spec, keyword_in("local"@, "root"@))) is None && text_of(
            value_at(spec, keyword_in("git"@, "url"@)),
        ) == Some(url) ==> {
            &&& text_of(value_at(spec, keyword_in("git"@, "sha"@))) matches Some(sha) ==> coord_of(
                spec,
            ) == Some(CoordView::Git { url, reff: sha })
            &&& text_of(value_at(spec, keyword_in("git"@, "sha"@))) is None ==> {
                &&& text_of(value_at(spec, keyword_in("git"@, "tag"@))) matches Some(tag) ==> (
                coord_of(spec) matches Some(CoordView::Git { url: u, reff }) && u == url
                    && reff.len() == tag.len() && forall|i: int|
                    0 <= i < tag.len() ==> #[trigger] reff[i] == (if tag[i] == '/' {
                        '_'
                    } else {
                        tag[i]
                    }))
                &&& text_of(value_at(spec, keyword_in("git"@, "tag"@))) is None ==> coord_of(spec)
                    is None
            }
        },
{
}

/// The dependencies of a manifest are those of all its entries that name where they come from.
pub proof fn law_every_dependency_counts(
    entries: Seq<(EdnView, EdnView)>,
    n: nat,
    dep: (Seq<char>, DepView),
)
    requires
        n <= entries.len(),
    ensures
        deps_among(entries, n).contains(dep) <==> exists|k: int|
            0 <= k < n && dep_of(#[trigger] entries[k]) == Some(dep),
    decreases n,
{
    if n > 0 {
        law_every_dependency_counts(entries, (n - 1) as nat, dep);
        if let Some(last) = dep_of(entries[n - 1]) {
            crate::sort::lemma_push_contains(deps_among(entries, (n - 1) as nat), last, dep);
        }
    } else {
        assert(deps_among(entries, n) =~= seq![]);
    }
}

proof fn lemma_items_of(
    deps: Seq<(Seq<char>, DepView)>,
    base: Seq<char>,
    seen: Seq<Seq<char>>,
    n: nat,
    item: ItemView,
)
    requires
        n <= deps.len(),
    ensures
        items_of(deps, base, seen, n).contains(item) <==> item.base == base && !seen.contains(item.lib)
            && exists|k: int| 0 <= k < n && #[trigger] deps[k] == (item.lib, item.dep),
    decreases n,
{
    if n > 0 {
        lemma_items_of(deps, base, seen, (n - 1) as nat, item);
        let before = items_of(deps, base, seen, (n - 1) as nat);
        crate::sort::lemma_push_contains(
            before,
            ItemView { lib: deps[n - 1].0, dep: deps[n - 1].1, base },
            item,
        );
        if exists|k: int| 0 <= k < n - 1 && #[trigger] deps[k] == (item.lib, item.dep) {
            let k = choose|k: int| 0 <= k < n - 1 && #[trigger] deps[k] == (item.lib, item.dep);
            assert(deps[k] == (item.lib, item.dep));
        }
        assert(deps[n - 1] == (deps[n - 1].0, deps[n - 1].1));
    } else {
        assert(items_of(deps, base, seen, n) =~= seq![]);
    }
}

/// The search starts with all dependencies of the project; a dependency whose directory exists adds
/// its sources, where they exist, and all its own dependencies that were not met yet.
pub proof fn law_search_follows_every_dependency(
    w: WorldView,
    home: Option<Seq<char>>,
    root: Seq<char>,
    s: WalkView,
    item: ItemView,
    dir: Seq<char>,
)
    ensures
        started(w, root).queue.contains(item) <==> item.base == root && w.deps_at(root).contains(
            (item.lib, item.dep),
        ),
        s.queue.len() > 0 && !s.seen.contains(s.queue[0].lib) && root_of(
            s.queue[0].dep.coord,
            s.queue[0].base,
            home,
        ) == Some(dir) && w.dirs.contains(dir) ==> {
            let next = advanced(w, home, s);
            &&& next.seen == s.seen.push(s.queue[0].lib)
            &&& w.dirs.contains(sources_of(dir, s.queue[0].dep.deps_root, w.dirs)) ==> next.out
                == s.out.push(sources_of(dir, s.queue[0].dep.deps_root, w.dirs))
            &&& s.queue.drop_first().contains(item) ==> next.queue.contains(item)
            &&& item.base == dir && !next.seen.contains(item.lib) && w.deps_at(dir).contains(
                (item.lib, item.dep),
            ) ==> next.queue.contains(item)
        },
{
    let deps = w.deps_at(root);
    lemma_items_of(deps, root, seq![], deps.len(), item);
    assert(!Seq::<Seq<char>>::empty().contains(item.lib));
    if deps.contains((item.lib, item.dep)) {
        assert(deps[deps.index_of((item.lib, item.dep))] == (item.lib, item.dep));
    }
    if s.queue.len() > 0 && !s.seen.contains(s.queue[0].lib) && root_of(
        s.queue[0].dep.coord,
        s.queue[0].base,
        home,
    ) == Some(dir) && w.dirs.contains(dir) {
        let seen = s.seen.push(s.queue[0].lib);
        let own = w.deps_at(dir);
        let more = items_of(own, dir, seen, own.len());
        lemma_items_of(own, dir, seen, own.len(), item);
        crate::handlers::references::lemma_concat_contains(s.queue.drop_first(), more, item);
        if own.contains((item.lib, item.dep)) {
            assert(own[own.index_of((item.lib, item.dep))] == (item.lib, item.dep));
        }
    }
}

proof fn lemma_behind_scheme(scheme: Seq<char>, rest: Seq<char>, i: nat)
    requires
        i <= scheme.len(),
        forall|k: int| 0 <= k < scheme.len() ==> scheme_char(#[trigger] scheme[k]),
    ensures
        behind_scheme(scheme + "://"@ + rest, i) == Some(scheme.len() + 3),
    decreases scheme.len() - i,
{
    reveal_strlit("://");
    let url = scheme + "://"@ + rest;
    let at = scheme.len() as int;
    if i == scheme.len() {
        assert(url.subrange(at, at + 3) =~= "://"@);
    } else {
        assert(url[i as int] == scheme[i as int]);
        assert(url.subrange(i as int, i as int + 3)[0] == url[i as int]);
        assert("://"@[0] == ':');
        assert(!scheme_char(':'));
        assert(!stands_at(url, "://"@, i as int));
        lemma_behind_scheme(scheme, rest, i + 1);
    }
}

/// A checkout stands under the address of its repository without the scheme and without `.git`.
pub proof fn law_checkout_drops_scheme_and_suffix(scheme: Seq<char>, path: Seq<char>)
    requires
        scheme.len() > 0,
        ascii_letter(scheme[0]),
        forall|k: int| 0 <= k < scheme.len() ==> scheme_char(#[trigger] scheme[k]),
        !".git"@.is_suffix_of(path),
    ensures
        repo_path(scheme + "://"@ + path) == path,
        repo_path(scheme + "://"@ + (path + ".git"@)) == path,
{
    reveal_strlit("://");
    let long = path + ".git"@;
    lemma_behind_scheme(scheme, path, 0);
    lemma_behind_scheme(scheme, long, 0);
    let n = scheme.len() as int + 3;
    assert((scheme + "://"@ + path).skip(n) =~= path);
    assert((scheme + "://"@ + long).skip(n) =~= long);
    assert(".git"@.is_suffix_of(long)) by {
        assert(long.subrange(long.len() - ".git"@.len(), long.len() as int) =~= ".git"@);
    }
    assert(long.take(path.len() as int) =~= path);
}

}
