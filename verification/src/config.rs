//! Which files are source, and where a project's own source lies.

use vstd::prelude::*;
use crate::collect::{contains_str, push_str, strs};
use crate::edn::{
    entry_views, get, keyword, kw, lemma_edn, parse, parsed_edn, readable, str_vec_at, texts_at, value_at,
    Edn, EdnView,
};
use crate::path::{
    components, components_of, extension_of, file_name, file_name_of, has_extension, join, joined,
    law_extension_is_behind_the_last_dot, plain, views, Component, ComponentView,
};
use crate::projects::{has_manifest, holds_manifest, path_of, path_text};
use crate::text::str_eq;

verus! {

/// The dependency management of a project, as its manifest decides.
#[derive(Clone, Copy, Debug, PartialEq, Eq, Structural)]
pub enum ProjectKind {
    /// Clojure (`deps.edn` or `project.clj`).
    Clojure,
    /// let-go (`lgx.edn`).
    LetGo,
}

/// The kind of a project, given whether it has an `lgx.edn`.
pub fn project_kind(has_lgx_edn: bool) -> (r: ProjectKind)
    ensures
        r == (if has_lgx_edn {
            ProjectKind::LetGo
        } else {
            ProjectKind::Clojure
        }),
{
    if has_lgx_edn {
        ProjectKind::LetGo
    } else {
        ProjectKind::Clojure
    }
}

/// Whether `path` is Clojure source: `.clj`, `.cljs`, `.cljc`, or let-go's `.lg`.
/// Leiningen's `project.clj` is a manifest, whose coordinates would read as
/// unresolved namespaces.
pub open spec fn clojure_source(path: Seq<char>) -> bool {
    file_name_of(path) != Some("project.clj"@) && (extension_of(path) == Some("clj"@)
        || extension_of(path) == Some("cljs"@) || extension_of(path) == Some("cljc"@)
        || extension_of(path) == Some("lg"@))
}

/// Whether the path ends with the name `name`.
fn is_named(path: &str, name: &str) -> (r: bool)
    ensures
        r == (file_name_of(path@) == Some(name@)),
{
    match file_name(path) {
        Some(n) => str_eq(n.as_str(), name),
        None => false,
    }
}

/// Whether `path` is Clojure source.
pub fn is_clojure_source(path: &str) -> (r: bool)
    ensures
        r == clojure_source(path@),
{
    !is_named(path, "project.clj") && (has_extension(path, "clj") || has_extension(path, "cljs")
        || has_extension(path, "cljc") || has_extension(path, "lg"))
}

/// Whether `path` is an EDN file.
pub fn is_edn(path: &str) -> (r: bool)
    ensures
        r == (extension_of(path@) == Some("edn"@)),
{
    has_extension(path, "edn")
}

/// Whether `path` is a build manifest, which describes a build and no system.
pub open spec fn build_manifest(path: Seq<char>) -> bool {
    file_name_of(path) == Some("deps.edn"@) || file_name_of(path) == Some("bb.edn"@)
        || file_name_of(path) == Some("lgx.edn"@) || file_name_of(path) == Some("shadow-cljs.edn"@)
}

/// Whether `path` is a build manifest.
pub fn is_build_manifest(path: &str) -> (r: bool)
    ensures
        r == build_manifest(path@),
{
    is_named(path, "deps.edn") || is_named(path, "bb.edn") || is_named(path, "lgx.edn")
        || is_named(path, "shadow-cljs.edn")
}

/// Whether the first `n` components of a path have a directory above them.
pub open spec fn has_parent(cs: Seq<ComponentView>, n: nat) -> bool {
    n > 0 && !(n == 1 && cs[0] is Root)
}

/// How many of the first `n` components make the nearest directory that holds a manifest.
pub open spec fn nearest_manifest(
    cs: Seq<ComponentView>,
    manifests: Seq<Seq<char>>,
    n: nat,
) -> Option<nat>
    decreases n,
{
    if has_manifest(manifests, cs.take(n as int)) {
        Some(n)
    } else if has_parent(cs, n) {
        nearest_manifest(cs, manifests, (n - 1) as nat)
    } else {
        None
    }
}

/// The project that a path lies in: the nearest directory with a manifest, from the path
/// itself, or from its directory where it is a file.
pub open spec fn project_root_of(start: Seq<char>, is_file: bool, manifests: Seq<Seq<char>>) -> Option<
    Seq<char>,
> {
    let cs = components_of(start);
    if is_file && !has_parent(cs, cs.len()) {
        None
    } else {
        let from = if is_file {
            (cs.len() - 1) as nat
        } else {
            cs.len()
        };
        match nearest_manifest(cs, manifests, from) {
            Some(n) => Some(path_text(cs, n)),
            None => None,
        }
    }
}

fn parent_exists(cs: &Vec<Component>, n: usize) -> (r: bool)
    requires
        n <= cs@.len(),
    ensures
        r == has_parent(views(cs@), n as nat),
{
    if n == 0 {
        return false;
    }
    assert(views(cs@)[0] == cs@[0].deep_view());
    let at_root = match &cs[0] {
        Component::Root => true,
        _ => false,
    };
    !(n == 1 && at_root)
}

/// The project that a path lies in, `manifests` being the directories that hold one.
pub fn find_project_root(start: &str, is_file: bool, manifests: &Vec<String>) -> (r: Option<String>)
    ensures
        r.deep_view() == project_root_of(start@, is_file, strs(manifests@)),
{
    let cs = components(start);
    assert(views(cs@) =~= cs.deep_view());
    let ghost all = views(cs@);
    let ghost m = strs(manifests@);
    let mut n: usize = cs.len();
    if is_file {
        if !parent_exists(&cs, n) {
            return None;
        }
        n -= 1;
    }
    let ghost from = n as nat;
    loop
        invariant
            n <= cs@.len(),
            all == views(cs@),
            all == components_of(start@),
            m == strs(manifests@),
            is_file ==> has_parent(all, all.len()),
            from == (if is_file {
                all.len() - 1
            } else {
                all.len() as int
            }),
            nearest_manifest(all, m, from) == nearest_manifest(all, m, n as nat),
        decreases n,
    {
        if holds_manifest(manifests, &cs, n) {
            return Some(path_of(&cs, n));
        }
        if !parent_exists(&cs, n) {
            return None;
        }
        n -= 1;
    }
}

/// `found` with those of the first `n` texts that it does not have.
pub open spec fn with_new(found: Seq<Seq<char>>, more: Seq<Seq<char>>, n: nat) -> Seq<Seq<char>>
    decreases n,
{
    if n == 0 {
        found
    } else {
        let before = with_new(found, more, (n - 1) as nat);
        if before.contains(more[n - 1]) {
            before
        } else {
            before.push(more[n - 1])
        }
    }
}

fn add_new(found: &mut Vec<String>, more: &Vec<String>)
    ensures
        strs(final(found)@) == with_new(strs(old(found)@), strs(more@), more@.len()),
{
    let ghost before = strs(found@);
    let ghost all = strs(more@);
    let mut i: usize = 0;
    while i < more.len()
        invariant
            i <= more@.len(),
            all == strs(more@),
            strs(found@) == with_new(before, all, i as nat),
        decreases more@.len() - i,
    {
        assert(all[i as int] == more@[i as int]@);
        if !contains_str(found, more[i].as_str()) {
            push_str(found, more[i].clone());
        }
        i += 1;
    }
}

/// `found` with the extra paths of the first `n` aliases. An alias that replaces the
/// paths of the project, as a build does, adds none.
pub open spec fn with_extra(
    found: Seq<Seq<char>>,
    aliases: Seq<(EdnView, EdnView)>,
    n: nat,
) -> Seq<Seq<char>>
    decreases n,
{
    if n == 0 {
        found
    } else {
        let before = with_extra(found, aliases, (n - 1) as nat);
        match texts_at(aliases[n - 1].1, keyword("extra-paths"@)) {
            Some(extra) => with_new(before, extra, extra.len()),
            None => before,
        }
    }
}

/// The source directories that a `deps.edn` declares: its paths, and the extra paths of
/// its aliases. `None` where it declares none.
pub open spec fn deps_paths(top: Option<EdnView>) -> Option<Seq<Seq<char>>> {
    match top {
        Some(top) => {
            let own = match texts_at(top, keyword("paths"@)) {
                Some(own) => own,
                None => seq![],
            };
            let all = match value_at(top, keyword("aliases"@)) {
                Some(EdnView::Table(aliases)) => with_extra(own, aliases, aliases.len()),
                _ => own,
            };
            if all.len() == 0 {
                None
            } else {
                Some(all)
            }
        },
        None => None,
    }
}

/// The source directories that a `deps.edn` declares.
pub fn declared_paths(top: &Edn) -> (r: Option<Vec<String>>)
    ensures
        match r {
            Some(list) => deps_paths(Some(top@)) == Some(strs(list@)),
            None => deps_paths(Some(top@)) is None,
        },
{
    let mut paths: Vec<String> = match str_vec_at(top, &kw("paths")) {
        Some(own) => own,
        None => {
            let none: Vec<String> = Vec::new();
            assert(strs(none@) =~= seq![]);
            none
        },
    };
    let ghost own = strs(paths@);
    if let Some(found) = get(top, &kw("aliases")) {
        proof {
            lemma_edn(*found);
        }
        if let Edn::Table(aliases) = found {
            let ghost all = entry_views(aliases@);
            let mut i: usize = 0;
            while i < aliases.len()
                invariant
                    i <= aliases@.len(),
                    all == entry_views(aliases@),
                    strs(paths@) == with_extra(own, all, i as nat),
                decreases aliases@.len() - i,
            {
                assert(all[i as int] == (aliases@[i as int].0@, aliases@[i as int].1@));
                if let Some(extra) = str_vec_at(&aliases[i].1, &kw("extra-paths")) {
                    add_new(&mut paths, &extra);
                }
                i += 1;
            }
        }
    }
    if paths.len() == 0 {
        None
    } else {
        Some(paths)
    }
}

/// The source directories that the text of a `deps.edn` declares.
pub fn parse_paths_from_deps_edn(contents: &str) -> (r: Option<Vec<String>>)
    requires
        readable(contents@),
    ensures
        match r {
            Some(list) => deps_paths(parsed_edn(contents@)) == Some(strs(list@)),
            None => deps_paths(parsed_edn(contents@)) is None,
        },
{
    match parse(contents) {
        Some(top) => declared_paths(&top),
        None => None,
    }
}

/// The manifests of a project, where it has them.
#[derive(Clone, Debug)]
pub struct Manifests {
    pub lgx_edn: Option<String>,
    pub deps_edn: Option<String>,
    pub project_clj: Option<String>,
}

/// What [`Manifests`] say.
pub ghost struct ManifestsView {
    pub lgx_edn: Option<Seq<char>>,
    pub deps_edn: Option<Seq<char>>,
    pub project_clj: Option<Seq<char>>,
}

impl DeepView for Manifests {
    type V = ManifestsView;

    open spec fn deep_view(&self) -> ManifestsView {
        ManifestsView {
            lgx_edn: self.lgx_edn.deep_view(),
            deps_edn: self.deps_edn.deep_view(),
            project_clj: self.project_clj.deep_view(),
        }
    }
}

impl ManifestsView {
    /// Whether what is read of the manifests of such a project can be parsed without the parser's panicking.
    pub open spec fn are_readable(self, kind: ProjectKind) -> bool {
        if kind == ProjectKind::LetGo {
            self.lgx_edn matches Some(text) ==> readable(text)
        } else {
            &&& self.deps_edn matches Some(text) ==> readable(text)
            &&& self.project_clj matches Some(text) ==> {
                &&& crate::leiningen::readable_at(text, ":source-paths"@, '[')
                &&& crate::leiningen::readable_at(text, ":test-paths"@, '[')
            }
        }
    }
}

/// The source directories that a project declares. Of a Clojure project those of
/// `deps.edn`, and those of `project.clj` only where it declares none.
pub open spec fn declared_of(kind: ProjectKind, m: ManifestsView) -> Seq<Seq<char>> {
    if kind == ProjectKind::LetGo {
        match m.lgx_edn {
            Some(text) => crate::lgx::paths_of(parsed_edn(text)),
            None => seq![],
        }
    } else {
        let declared = match m.deps_edn {
            Some(text) => deps_paths(parsed_edn(text)),
            None => None,
        };
        match declared {
            Some(list) => list,
            None => match m.project_clj {
                Some(text) => crate::leiningen::declared_paths(text),
                None => seq![],
            },
        }
    }
}

/// The source directories of a project: those that it declares, and `src` and `test`, each
/// once and in that order.
pub open spec fn source_dirs(root: Seq<char>, kind: ProjectKind, m: ManifestsView) -> Seq<Seq<char>> {
    let declared = declared_of(kind, m);
    let usual = seq!["src"@, "test"@];
    with_new(with_new(seq![], declared, declared.len()), usual, usual.len()).map_values(
        |p: Seq<char>| joined(root, p),
    )
}

fn declared_by(kind: ProjectKind, m: &Manifests) -> (r: Vec<String>)
    requires
        m.deep_view().are_readable(kind),
    ensures
        strs(r@) == declared_of(kind, m.deep_view()),
{
    let none: Vec<String> = Vec::new();
    assert(strs(none@) =~= seq![]);
    if kind == ProjectKind::LetGo {
        return match &m.lgx_edn {
            Some(text) => crate::lgx::paths(text.as_str()),
            None => none,
        };
    }
    if let Some(text) = &m.deps_edn {
        if let Some(list) = parse_paths_from_deps_edn(text.as_str()) {
            return list;
        }
    }
    match &m.project_clj {
        Some(text) => crate::leiningen::source_paths(text.as_str()),
        None => none,
    }
}

/// The source directories of a project.
pub fn source_paths(root: &str, kind: ProjectKind, m: &Manifests) -> (r: Vec<String>)
    requires
        m.deep_view().are_readable(kind),
    ensures
        strs(r@) == source_dirs(root@, kind, m.deep_view()),
{
    let declared = declared_by(kind, m);
    let mut relative: Vec<String> = Vec::new();
    assert(strs(relative@) =~= seq![]);
    add_new(&mut relative, &declared);
    let mut usual: Vec<String> = Vec::new();
    push_str(&mut usual, "src".to_owned());
    push_str(&mut usual, "test".to_owned());
    assert(strs(usual@) =~= seq!["src"@, "test"@]);
    add_new(&mut relative, &usual);
    let ghost all = source_dirs(root@, kind, m.deep_view());
    let mut out: Vec<String> = Vec::new();
    let mut i: usize = 0;
    while i < relative.len()
        invariant
            i <= relative@.len(),
            all == strs(relative@).map_values(|p: Seq<char>| joined(root@, p)),
            strs(out@) =~= all.take(i as int),
        decreases relative@.len() - i,
    {
        assert(strs(relative@)[i as int] == relative@[i as int]@);
        push_str(&mut out, join(root, relative[i].as_str()));
        i += 1;
    }
    assert(strs(out@) =~= all);
    out
}

proof fn lemma_with_new(found: Seq<Seq<char>>, more: Seq<Seq<char>>, n: nat)
    requires
        n <= more.len(),
        found.no_duplicates(),
    ensures
        with_new(found, more, n).no_duplicates(),
        found.len() <= with_new(found, more, n).len(),
        with_new(found, more, n).take(found.len() as int) == found,
        forall|i: int| 0 <= i < n ==> with_new(found, more, n).contains(#[trigger] more[i]),
    decreases n,
{
    if n > 0 {
        lemma_with_new(found, more, (n - 1) as nat);
        let before = with_new(found, more, (n - 1) as nat);
        let now = with_new(found, more, n);
        assert(now.take(found.len() as int) =~= before.take(found.len() as int));
        assert forall|i: int| 0 <= i < n implies now.contains(#[trigger] more[i]) by {
            if i < n - 1 {
                let k = choose|k: int| 0 <= k < before.len() && before[k] == more[i];
                assert(now[k] == more[i]);
            } else if !before.contains(more[n - 1]) {
                assert(now[before.len() as int] == more[i]);
            }
        }
    } else {
        assert(found.take(found.len() as int) =~= found);
    }
}

/// The usual directories are always among the source directories, whatever a project
/// declares.
pub proof fn law_usual_directories_are_sources(root: Seq<char>, kind: ProjectKind, m: ManifestsView)
    ensures
        source_dirs(root, kind, m).contains(joined(root, "src"@)),
        source_dirs(root, kind, m).contains(joined(root, "test"@)),
{
    let declared = declared_of(kind, m);
    let usual = seq!["src"@, "test"@];
    lemma_with_new(seq![], declared, declared.len());
    let own = with_new(seq![], declared, declared.len());
    lemma_with_new(own, usual, usual.len());
    let all = with_new(own, usual, usual.len());
    assert(all.contains(usual[0]));
    assert(all.contains(usual[1]));
    let i = choose|i: int| 0 <= i < all.len() && all[i] == "src"@;
    let j = choose|j: int| 0 <= j < all.len() && all[j] == "test"@;
    assert(source_dirs(root, kind, m)[i] == joined(root, "src"@));
    assert(source_dirs(root, kind, m)[j] == joined(root, "test"@));
}

/// The project file of Leiningen is not asked where `deps.edn` declares directories.
pub proof fn law_deps_edn_goes_first(m: ManifestsView, other: Option<Seq<char>>)
    requires
        m.deps_edn matches Some(text) && deps_paths(parsed_edn(text)) is Some,
    ensures
        declared_of(ProjectKind::Clojure, m) == declared_of(
            ProjectKind::Clojure,
            ManifestsView { project_clj: other, ..m },
        ),
{
}

/// The root of a project holds a manifest, and no directory between it and the path does.
pub proof fn law_project_root_is_nearest(
    cs: Seq<ComponentView>,
    manifests: Seq<Seq<char>>,
    n: nat,
    k: nat,
)
    requires
        n <= cs.len(),
        nearest_manifest(cs, manifests, n) is Some,
        nearest_manifest(cs, manifests, n)->0 < k <= n,
    ensures
        has_manifest(
            manifests,
            cs.take(nearest_manifest(cs, manifests, n)->0 as int),
        ),
        !has_manifest(manifests, cs.take(k as int)),
    decreases n,
{
    lemma_nearest(cs, manifests, n);
    if !has_manifest(manifests, cs.take(n as int)) && k < n {
        law_project_root_is_nearest(cs, manifests, (n - 1) as nat, k);
    }
}

proof fn lemma_nearest(cs: Seq<ComponentView>, manifests: Seq<Seq<char>>, n: nat)
    ensures
        nearest_manifest(cs, manifests, n) matches Some(m) ==> m <= n && has_manifest(
            manifests,
            cs.take(m as int),
        ),
    decreases n,
{
    if !has_manifest(manifests, cs.take(n as int)) && has_parent(cs, n) {
        lemma_nearest(cs, manifests, (n - 1) as nat);
    }
}

proof fn lemma_new_paths(found: Seq<Seq<char>>, more: Seq<Seq<char>>, n: nat, p: Seq<char>)
    requires
        n <= more.len(),
    ensures
        with_new(found, more, n).contains(p) <==> found.contains(p) || exists|k: int|
            0 <= k < n && #[trigger] more[k] == p,
        found.no_duplicates() ==> with_new(found, more, n).no_duplicates(),
    decreases n,
{
    if n > 0 {
        lemma_new_paths(found, more, (n - 1) as nat, p);
        let before = with_new(found, more, (n - 1) as nat);
        crate::sort::lemma_push_contains(before, more[n - 1], p);
        if exists|k: int| 0 <= k < n - 1 && #[trigger] more[k] == p {
            let k = choose|k: int| 0 <= k < n - 1 && #[trigger] more[k] == p;
            assert(more[k] == p);
        }
        assert(more[n - 1] == more[n - 1]);
    }
}

/// Whether the alias at `k` adds the path.
pub open spec fn alias_adds(aliases: Seq<(EdnView, EdnView)>, k: int, p: Seq<char>) -> bool {
    0 <= k < aliases.len() && (texts_at(aliases[k].1, keyword("extra-paths"@)) matches Some(extra)
        && extra.contains(p))
}

proof fn lemma_with_extra(
    found: Seq<Seq<char>>,
    aliases: Seq<(EdnView, EdnView)>,
    n: nat,
    p: Seq<char>,
)
    requires
        n <= aliases.len(),
    ensures
        with_extra(found, aliases, n).contains(p) <==> found.contains(p) || exists|k: int|
            k < n && #[trigger] alias_adds(aliases, k, p),
    decreases n,
{
    if n > 0 {
        lemma_with_extra(found, aliases, (n - 1) as nat, p);
        let before = with_extra(found, aliases, (n - 1) as nat);
        if let Some(extra) = texts_at(aliases[n - 1].1, keyword("extra-paths"@)) {
            lemma_new_paths(before, extra, extra.len(), p);
            if extra.contains(p) {
                assert(extra[extra.index_of(p)] == p);
                assert(alias_adds(aliases, n - 1, p));
            }
        }
        if exists|k: int| k < n && #[trigger] alias_adds(aliases, k, p) {
            let k = choose|k: int| k < n && #[trigger] alias_adds(aliases, k, p);
            if k < n - 1 {
                assert(before.contains(p));
            }
        }
    }
}

/// The paths of a `deps.edn` are its own and those that its aliases add, of every alias.
pub proof fn law_paths_of_every_alias_count(
    top: EdnView,
    own: Seq<Seq<char>>,
    aliases: Seq<(EdnView, EdnView)>,
    p: Seq<char>,
)
    requires
        texts_at(top, keyword("paths"@)) == Some(own),
        value_at(top, keyword("aliases"@)) == Some(EdnView::Table(aliases)),
    ensures
        (deps_paths(Some(top)) matches Some(all) && all.contains(p)) <==> own.contains(p)
            || exists|k: int| #[trigger] alias_adds(aliases, k, p),
{
    lemma_with_extra(own, aliases, aliases.len(), p);
    let all = with_extra(own, aliases, aliases.len());
    if all.contains(p) {
        assert(all.len() > 0);
    }
}

/// The source directories are those that the project declares, with `src` and `test`, each under the
/// root of the project.
pub proof fn law_sources_are_the_declared_directories(
    root: Seq<char>,
    kind: ProjectKind,
    m: ManifestsView,
    dir: Seq<char>,
)
    ensures
        source_dirs(root, kind, m).contains(dir) <==> exists|p: Seq<char>|
            dir == #[trigger] joined(root, p) && (p == "src"@ || p == "test"@ || declared_of(
                kind,
                m,
            ).contains(p)),
{
    let declared = declared_of(kind, m);
    let usual = seq!["src"@, "test"@];
    let found = with_new(seq![], declared, declared.len());
    let all = with_new(found, usual, usual.len());
    let dirs = source_dirs(root, kind, m);
    if dirs.contains(dir) {
        let i = dirs.index_of(dir);
        let p = all[i];
        assert(dirs[i] == joined(root, p));
        assert(all.contains(p));
        lemma_new_paths(seq![], declared, declared.len(), p);
        lemma_new_paths(found, usual, usual.len(), p);
        assert(!Seq::<Seq<char>>::empty().contains(p));
        if exists|k: int| 0 <= k < declared.len() && #[trigger] declared[k] == p {
            assert(declared.contains(p));
        }
    }
    if exists|p: Seq<char>|
        dir == #[trigger] joined(root, p) && (p == "src"@ || p == "test"@ || declared.contains(p)) {
        let p = choose|p: Seq<char>|
            dir == #[trigger] joined(root, p) && (p == "src"@ || p == "test"@ || declared.contains(p));
        lemma_new_paths(seq![], declared, declared.len(), p);
        lemma_new_paths(found, usual, usual.len(), p);
        assert(usual[0] == "src"@ && usual[1] == "test"@);
        if declared.contains(p) {
            assert(declared[declared.index_of(p)] == p);
        }
        assert(all.contains(p));
        assert(dirs[all.index_of(p)] == dir);
    }
}

/// Without a manifest above it a path is in no project; with one it is in the nearest.
pub proof fn law_project_root_is_found(cs: Seq<ComponentView>, manifests: Seq<Seq<char>>, n: nat)
    requires
        n <= cs.len(),
        forall|i: int| 0 < i < cs.len() ==> !((#[trigger] cs[i]) is Root),
    ensures
        (exists|k: int|
            0 < k <= n && has_manifest(manifests, #[trigger] cs.take(k))) ==> nearest_manifest(
            cs,
            manifests,
            n,
        ) is Some,
        nearest_manifest(cs, manifests, n) matches Some(k) ==> k <= n && has_manifest(
            manifests,
            cs.take(k as int),
        ),
    decreases n,
{
    if !has_manifest(manifests, cs.take(n as int)) && has_parent(cs, n) {
        law_project_root_is_found(cs, manifests, (n - 1) as nat);
    }
}

/// The root of a project is the nearest directory with a manifest, from a directory itself and from
/// a file its directory on upwards.
pub proof fn law_root_is_the_nearest_directory(
    start: Seq<char>,
    is_file: bool,
    manifests: Seq<Seq<char>>,
    k: nat,
)
    requires
        k <= components_of(start).len() - (if is_file {
            1int
        } else {
            0
        }),
        0 < k,
        forall|i: int|
            0 < i < components_of(start).len() ==> !((#[trigger] components_of(start)[i]) is Root),
        has_manifest(manifests, components_of(start).take(k as int)),
        forall|j: int|
            k < j <= components_of(start).len() - (if is_file {
                1int
            } else {
                0
            }) ==> !has_manifest(manifests, #[trigger] components_of(start).take(j)),
    ensures
        project_root_of(start, is_file, manifests) == Some(path_text(components_of(start), k)),
{
    let cs = components_of(start);
    let from = if is_file {
        (cs.len() - 1) as nat
    } else {
        cs.len()
    };
    lemma_nearest_at(cs, manifests, from, k);
}

proof fn lemma_nearest_at(cs: Seq<ComponentView>, manifests: Seq<Seq<char>>, n: nat, k: nat)
    requires
        0 < k <= n <= cs.len(),
        forall|i: int| 0 < i < cs.len() ==> !((#[trigger] cs[i]) is Root),
        has_manifest(manifests, cs.take(k as int)),
        forall|j: int| k < j <= n ==> !has_manifest(manifests, #[trigger] cs.take(j)),
    ensures
        nearest_manifest(cs, manifests, n) == Some(k),
    decreases n,
{
    if k < n {
        assert(!has_manifest(manifests, cs.take(n as int)));
        lemma_nearest_at(cs, manifests, (n - 1) as nat, k);
    }
}

/// A file is a Clojure source by its extension alone, but for the manifest of Leiningen.
pub proof fn law_sources_have_their_extension(base: Seq<char>, stem: Seq<char>, ext: Seq<char>)
    requires
        stem.len() > 0,
        !ext.contains('.'),
        plain(stem + seq!['.'] + ext),
        stem + seq!['.'] + ext != "project.clj"@,
    ensures
        clojure_source(joined(base, stem + seq!['.'] + ext)) <==> ext == "clj"@ || ext == "cljs"@
            || ext == "cljc"@ || ext == "lg"@,
{
    law_extension_is_behind_the_last_dot(base, stem, ext);
}

}
