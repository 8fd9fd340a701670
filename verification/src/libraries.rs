//! The libraries that a project's classpath holds, as the editor lists them.

use vstd::prelude::*;
use crate::chars::{ascii_hexdigit, is_ascii_hexdigit};
use crate::collect::{copy_opt, join_by, joined_by, push_item, push_str, strs, Copied};
use crate::index::extractor::qualify;
use crate::leiningen::{archive_of, slashed, CoordView};
use crate::lgx::unsuffixed;
use crate::path::{
    components, components_of, contains_path, extension_of, file_name_of, file_stem_of,
    has_extension, joined, law_join_adds_a_component, lists_path, normalize_lexically,
    normalized_path, plain, starts_with, under, views, Component, ComponentView,
};
use crate::projects::{has_manifest, holds_manifest};
use crate::sort::{
    arrange, arranged, is_text_le, law_arranged, law_one_order, lemma_text_order, ordered,
    text_le, Sorted,
};
use crate::text::{chars_of, concat3, find_char, index_from, str_eq, string_of};

verus! {

/// What a library is.
#[derive(Clone, Copy, Debug, PartialEq, Eq, Structural)]
pub enum LibraryKind {
    Jar,
    Dir,
}

/// A library.
#[derive(Clone, Debug, PartialEq, Eq)]
pub struct Library {
    /// `group/artifact`, or the artifact alone where both are the same.
    pub name: String,
    /// `None` where it is unknown; of a commit, its short form.
    pub version: Option<String>,
    pub path: String,
    pub kind: LibraryKind,
}

/// What a [`Library`] says.
pub ghost struct LibraryView {
    pub name: Seq<char>,
    pub version: Option<Seq<char>>,
    pub path: Seq<char>,
    pub kind: LibraryKind,
}

impl DeepView for Library {
    type V = LibraryView;

    open spec fn deep_view(&self) -> LibraryView {
        LibraryView {
            name: self.name@,
            version: self.version.deep_view(),
            path: self.path@,
            kind: self.kind,
        }
    }
}

impl Copied for Library {
    fn copied(&self) -> (r: Self) {
        Library {
            name: self.name.clone(),
            version: copy_opt(&self.version),
            path: self.path.clone(),
            kind: self.kind,
        }
    }
}

/// The names among the first `n` components.
pub open spec fn names_among(cs: Seq<ComponentView>, n: nat) -> Seq<Seq<char>>
    decreases n,
{
    if n == 0 {
        seq![]
    } else {
        match cs[n - 1] {
            ComponentView::Normal(name) => names_among(cs, (n - 1) as nat).push(name),
            _ => names_among(cs, (n - 1) as nat),
        }
    }
}

/// The names of a path's components, without its root and its dots.
pub open spec fn names_of(path: Seq<char>) -> Seq<Seq<char>> {
    names_among(components_of(path), components_of(path).len())
}

/// The names of a path's components.
pub fn normal_components(path: &str) -> (r: Vec<String>)
    ensures
        strs(r@) == names_of(path@),
{
    let cs = components(path);
    let ghost all = cs.deep_view();
    let mut out: Vec<String> = Vec::new();
    assert(strs(out@) =~= seq![]);
    let mut i: usize = 0;
    while i < cs.len()
        invariant
            i <= cs@.len(),
            all == cs.deep_view(),
            strs(out@) == names_among(all, i as nat),
        decreases cs@.len() - i,
    {
        assert(all[i as int] == cs@[i as int].deep_view());
        if let Component::Normal(name) = &cs[i] {
            push_str(&mut out, name.clone());
        }
        i += 1;
    }
    out
}

/// The last component without its extension.
pub open spec fn stem_or_unknown(path: Seq<char>) -> Seq<char> {
    match file_stem_of(path) {
        Some(stem) => stem,
        None => "unknown"@,
    }
}

/// The last component without its extension.
pub fn file_stem(path: &str) -> (r: String)
    ensures
        r@ == stem_or_unknown(path@),
{
    match crate::path::file_stem(path) {
        Some(stem) => stem,
        None => "unknown".to_owned(),
    }
}

/// The last component.
pub open spec fn name_or_unknown(path: Seq<char>) -> Seq<char> {
    match file_name_of(path) {
        Some(name) => name,
        None => "unknown"@,
    }
}

/// The last component.
pub fn file_name(path: &str) -> (r: String)
    ensures
        r@ == name_or_unknown(path@),
{
    match crate::path::file_name(path) {
        Some(name) => name,
        None => "unknown".to_owned(),
    }
}

/// Whether `s` is a commit in full: forty hexadecimal digits.
pub open spec fn is_commit(s: Seq<char>) -> bool {
    s.len() == 40 && forall|i: int| 0 <= i < s.len() ==> ascii_hexdigit(#[trigger] s[i])
}

/// A commit in its short form; any other reference as it is.
pub open spec fn shortened(s: Seq<char>) -> Seq<char> {
    if is_commit(s) {
        s.take(7)
    } else {
        s
    }
}

/// A commit in its short form; any other reference as it is.
pub fn short_ref(reff: &str) -> (r: String)
    ensures
        r@ == shortened(reff@),
{
    let chars = chars_of(reff);
    if chars.len() != 40 {
        return reff.to_owned();
    }
    let mut i: usize = 0;
    while i < chars.len()
        invariant
            chars@ == reff@,
            i <= chars@.len(),
            forall|k: int| 0 <= k < i ==> ascii_hexdigit(#[trigger] reff@[k]),
        decreases chars@.len() - i,
    {
        if !is_ascii_hexdigit(chars[i]) {
            assert(!ascii_hexdigit(reff@[i as int]));
            return reff.to_owned();
        }
        i += 1;
    }
    let out = string_of(&chars, 0, 7);
    assert(out@ =~= reff@.take(7));
    out
}

/// A reference in its short form stays as it is.
pub proof fn law_short_ref_stays(s: Seq<char>)
    ensures
        shortened(shortened(s)) == shortened(s),
        is_commit(s) ==> shortened(s).len() == 7,
        !is_commit(s) ==> shortened(s) == s,
{
}

/// The name of a library.
pub open spec fn library_name(group: Seq<char>, artifact: Seq<char>) -> Seq<char> {
    if group == artifact {
        artifact
    } else {
        qualify(group, artifact)
    }
}

/// The name of a library.
pub fn coord_name(group: &str, artifact: &str) -> (r: String)
    ensures
        r@ == library_name(group@, artifact@),
{
    if str_eq(group, artifact) {
        artifact.to_owned()
    } else {
        concat3(group, "/", artifact)
    }
}

/// The last of the first `n` names that is `name`.
pub open spec fn last_named(names: Seq<Seq<char>>, name: Seq<char>, n: nat) -> Option<nat>
    decreases n,
{
    if n == 0 {
        None
    } else if names[n - 1] == name {
        Some((n - 1) as nat)
    } else {
        last_named(names, name, (n - 1) as nat)
    }
}

/// The first name from `i` on that is `name`.
pub open spec fn first_named(names: Seq<Seq<char>>, name: Seq<char>, i: nat) -> Option<nat>
    decreases names.len() - i,
{
    if i >= names.len() {
        None
    } else if names[i as int] == name {
        Some(i)
    } else {
        first_named(names, name, i + 1)
    }
}

fn find_last_named(names: &Vec<String>, name: &str, n: usize) -> (r: Option<usize>)
    requires
        n <= names@.len(),
    ensures
        match r {
            Some(i) => last_named(strs(names@), name@, n as nat) == Some(i as nat) && i < n,
            None => last_named(strs(names@), name@, n as nat) is None,
        },
{
    let ghost all = strs(names@);
    let mut k: usize = n;
    while k > 0
        invariant
            k <= n <= names@.len(),
            all == strs(names@),
            last_named(all, name@, n as nat) == last_named(all, name@, k as nat),
        decreases k,
    {
        assert(all[k - 1] == names@[k - 1]@);
        if str_eq(names[k - 1].as_str(), name) {
            return Some(k - 1);
        }
        k -= 1;
    }
    None
}

fn find_first_named(names: &Vec<String>, name: &str) -> (r: Option<usize>)
    ensures
        match r {
            Some(i) => first_named(strs(names@), name@, 0) == Some(i as nat) && i < names@.len(),
            None => first_named(strs(names@), name@, 0) is None,
        },
{
    let ghost all = strs(names@);
    let mut i: usize = 0;
    while i < names.len()
        invariant
            i <= names@.len(),
            all == strs(names@),
            first_named(all, name@, 0) == first_named(all, name@, i as nat),
        decreases names@.len() - i,
    {
        assert(all[i as int] == names@[i as int]@);
        if str_eq(names[i].as_str(), name) {
            return Some(i);
        }
        i += 1;
    }
    None
}

/// The library of an archive in a Maven repository,
/// `…/repository/<group>/<artifact>/<version>/<artifact>-<version>.jar`: its group is
/// what stands between the repository and the artifact, with dots.
pub open spec fn maven_library(names: Seq<Seq<char>>) -> Option<(Seq<char>, Option<Seq<char>>)> {
    let n = names.len();
    if n < 3 || !".jar"@.is_suffix_of(names[n - 1]) || unsuffixed(names[n - 1], ".jar"@)
        != names[n - 3] + "-"@ + names[n - 2] {
        None
    } else {
        match last_named(names, "repository"@, (n - 3) as nat) {
            Some(repo) => if repo + 1 >= n - 3 {
                None
            } else {
                let group = names.subrange(repo as int + 1, n - 3);
                Some(
                    (
                        library_name(joined_by(group, "."@, group.len()), names[n - 3]),
                        Some(names[n - 2]),
                    ),
                )
            },
            None => None,
        }
    }
}

fn copy_range(list: &Vec<String>, from: usize, to: usize) -> (r: Vec<String>)
    requires
        from <= to <= list@.len(),
    ensures
        strs(r@) == strs(list@).subrange(from as int, to as int),
{
    let ghost all = strs(list@);
    let mut out: Vec<String> = Vec::new();
    let mut i: usize = from;
    while i < to
        invariant
            from <= i <= to <= list@.len(),
            all == strs(list@),
            strs(out@) =~= all.subrange(from as int, i as int),
        decreases to - i,
    {
        assert(all[i as int] == list@[i as int]@);
        push_str(&mut out, list[i].clone());
        i += 1;
    }
    out
}

fn strip_jar(name: &str) -> (r: Option<String>)
    ensures
        match r {
            Some(stem) => ".jar"@.is_suffix_of(name@) && stem@ == unsuffixed(name@, ".jar"@),
            None => !".jar"@.is_suffix_of(name@),
        },
{
    if crate::handlers::matching::has_suffix(name, ".jar") {
        let chars = chars_of(name);
        let cut: usize = ".jar".unicode_len();
        let stem = string_of(&chars, 0, chars.len() - cut);
        assert(stem@ =~= name@.take(name@.len() - ".jar"@.len()));
        Some(stem)
    } else {
        None
    }
}

/// The library of an archive in a Maven repository.
pub fn parse_maven_jar(path: &str) -> (r: Option<(String, Option<String>)>)
    ensures
        r.deep_view() == maven_library(names_of(path@)),
{
    let comps = normal_components(path);
    let ghost names = strs(comps@);
    let n: usize = comps.len();
    if n < 3 {
        return None;
    }
    assert(names[n - 1] == comps@[n - 1]@);
    assert(names[n - 2] == comps@[n - 2]@);
    assert(names[n - 3] == comps@[n - 3]@);
    let stem = match strip_jar(comps[n - 1].as_str()) {
        Some(stem) => stem,
        None => return None,
    };
    let version = comps[n - 2].as_str();
    let artifact = comps[n - 3].as_str();
    let expected = concat3(artifact, "-", version);
    if !str_eq(stem.as_str(), expected.as_str()) {
        return None;
    }
    let repo = match find_last_named(&comps, "repository", n - 3) {
        Some(repo) => repo,
        None => return None,
    };
    if repo + 1 >= n - 3 {
        return None;
    }
    let group = join_by(&copy_range(&comps, repo + 1, n - 3), ".");
    Some((coord_name(group.as_str(), artifact), Some(version.to_owned())))
}

/// The library of a checkout of tools.deps,
/// `…/.gitlibs/libs/<group>/<artifact>/<commit>/…`.
pub open spec fn deps_library(names: Seq<Seq<char>>) -> Option<(Seq<char>, Option<Seq<char>>)> {
    match first_named(names, ".gitlibs"@, 0) {
        Some(i) => if i + 4 < names.len() && names[i as int + 1] == "libs"@ {
            Some(
                (
                    library_name(names[i as int + 2], names[i as int + 3]),
                    Some(shortened(names[i as int + 4])),
                ),
            )
        } else {
            None
        },
        None => None,
    }
}

/// The library of a checkout of tools.deps.
pub fn parse_deps_gitlib(path: &str) -> (r: Option<(String, Option<String>)>)
    ensures
        r.deep_view() == deps_library(names_of(path@)),
{
    let comps = normal_components(path);
    let ghost names = strs(comps@);
    let n: usize = comps.len();
    match find_first_named(&comps, ".gitlibs") {
        Some(i) => {
            if n - i <= 4 {
                return None;
            }
            assert(names[i + 1] == comps@[i + 1]@);
            assert(names[i + 2] == comps@[i + 2]@);
            assert(names[i + 3] == comps@[i + 3]@);
            assert(names[i + 4] == comps@[i + 4]@);
            if !str_eq(comps[i + 1].as_str(), "libs") {
                return None;
            }
            Some(
                (
                    coord_name(comps[i + 2].as_str(), comps[i + 3].as_str()),
                    Some(short_ref(comps[i + 4].as_str())),
                ),
            )
        },
        None => None,
    }
}

/// How many names of a checkout of lgx count: not a last `src`, which is the directory of
/// its sources.
pub open spec fn checkout_end(names: Seq<Seq<char>>, from: nat) -> nat {
    if names.len() > from && names.last() == "src"@ {
        (names.len() - 1) as nat
    } else {
        names.len()
    }
}

/// The library of a checkout of lgx, `…/gitlibs/<host>/…/<repository>/<reference>`. A
/// directory named `gitlibs` is taken for lgx's only in the directory of lgx, or where a
/// host stands in it.
pub open spec fn lgx_library(names: Seq<Seq<char>>) -> Option<(Seq<char>, Option<Seq<char>>)> {
    match first_named(names, "gitlibs"@, 0) {
        Some(i) => {
            let at_home = i >= 1 && names[i - 1] == ".lgx"@;
            let has_host = i + 1 < names.len() && index_from(names[i as int + 1], '.', 0) is Some;
            let end = checkout_end(names, i + 1);
            if (!at_home && !has_host) || end < i + 3 {
                None
            } else {
                Some((names[end - 2], Some(shortened(names[end - 1]))))
            }
        },
        None => None,
    }
}

/// The library of a checkout of lgx.
pub fn parse_lgx_gitlib(path: &str) -> (r: Option<(String, Option<String>)>)
    ensures
        r.deep_view() == lgx_library(names_of(path@)),
{
    let comps = normal_components(path);
    let ghost names = strs(comps@);
    let n: usize = comps.len();
    match find_first_named(&comps, "gitlibs") {
        Some(i) => {
            let at_home = if i >= 1 {
                assert(names[i - 1] == comps@[i - 1]@);
                str_eq(comps[i - 1].as_str(), ".lgx")
            } else {
                false
            };
            let has_host = if n - i > 1 {
                assert(names[i + 1] == comps@[i + 1]@);
                find_char(&chars_of(comps[i + 1].as_str()), '.', 0).is_some()
            } else {
                false
            };
            if !at_home && !has_host {
                return None;
            }
            let mut end: usize = n;
            if n - i > 1 {
                assert(names[n - 1] == comps@[n - 1]@);
                if str_eq(comps[n - 1].as_str(), "src") {
                    end = n - 1;
                }
            }
            if end - i < 3 {
                return None;
            }
            assert(names[end - 2] == comps@[end - 2]@);
            assert(names[end - 1] == comps@[end - 1]@);
            Some((comps[end - 2].clone(), Some(short_ref(comps[end - 1].as_str()))))
        },
        None => None,
    }
}

proof fn lemma_join_adds_a_name(base: Seq<char>, name: Seq<char>)
    requires
        plain(name),
    ensures
        names_of(joined(base, name)) == names_of(base).push(name),
{
    let (before, after) = (components_of(base), components_of(joined(base, name)));
    law_join_adds_a_component(base, name);
    lemma_same_names(before, after, before.len());
}

proof fn lemma_same_names(a: Seq<ComponentView>, b: Seq<ComponentView>, n: nat)
    requires
        n <= a.len(),
        n <= b.len(),
        forall|k: int| 0 <= k < n ==> a[k] == b[k],
    ensures
        names_among(a, n) == names_among(b, n),
    decreases n,
{
    if n > 0 {
        lemma_same_names(a, b, (n - 1) as nat);
    }
}

/// The directory of sources that is put under a checkout of lgx is never taken for the
/// reference.
pub proof fn law_lgx_checkout_with_src(path: Seq<char>)
    requires
        lgx_library(names_of(path)) is Some,
        names_of(path).last() != "src"@,
    ensures
        lgx_library(names_of(joined(path, "src"@))) == lgx_library(names_of(path)),
{
    reveal_strlit("src");
    reveal_strlit(".");
    reveal_strlit("..");
    let names = names_of(path);
    lemma_join_adds_a_name(path, "src"@);
    let longer = names.push("src"@);
    lemma_first_named_of_longer(names, "src"@, "gitlibs"@, 0);
    let i = first_named(names, "gitlibs"@, 0)->0;
    assert(longer.last() == "src"@);
    assert(forall|k: int| 0 <= k < names.len() ==> longer[k] == names[k]);
}

proof fn lemma_first_named_of_longer(
    names: Seq<Seq<char>>,
    more: Seq<char>,
    name: Seq<char>,
    i: nat,
)
    requires
        first_named(names, name, i) is Some,
    ensures
        first_named(names.push(more), name, i) == first_named(names, name, i),
        first_named(names, name, i)->0 < names.len(),
    decreases names.len() - i,
{
    assert(names.push(more)[i as int] == names[i as int]);
    if names[i as int] != name {
        lemma_first_named_of_longer(names, more, name, i + 1);
    }
}

/// Whether the segments are those of a Maven group, between its dots.
pub open spec fn are_group(segments: Seq<Seq<char>>) -> bool {
    segments.len() > 0 && forall|k: int|
        0 <= k < segments.len() ==> plain(#[trigger] segments[k]) && !segments[k].contains('.')
            && segments[k] != "repository"@
}

/// Where a repository keeps the archive of a coordinate, the coordinate can be read off.
pub proof fn law_maven_path_reads_back(repo: Seq<char>, c: CoordView, segments: Seq<Seq<char>>)
    requires
        file_name_of(repo) == Some("repository"@),
        are_group(segments),
        c.group == joined_by(segments, "."@, segments.len()),
        plain(c.artifact),
        plain(c.version),
    ensures
        maven_library(names_of(archive_of(repo, c))) == Some(
            (library_name(c.group, c.artifact), Some(c.version)),
        ),
{
    let file = c.artifact + "-"@ + c.version + ".jar"@;
    let g = segments.len();
    let dir = joined(repo, slashed(c.group));
    lemma_group_names(repo, segments, g);
    lemma_join_adds_a_name(dir, c.artifact);
    lemma_join_adds_a_name(joined(dir, c.artifact), c.version);
    lemma_archive_is_plain(c.artifact, c.version);
    lemma_join_adds_a_name(joined(joined(dir, c.artifact), c.version), file);
    let kept = names_of(repo);
    let names = names_of(archive_of(repo, c));
    assert(names =~= (kept + segments).push(c.artifact).push(c.version).push(file));
    let n = names.len();
    assert(".jar"@.is_suffix_of(file)) by {
        assert(file.skip(file.len() - ".jar"@.len()) =~= ".jar"@);
    }
    assert(unsuffixed(file, ".jar"@) =~= c.artifact + "-"@ + c.version);
    lemma_repository_is_last(names, kept, segments, g);
    assert(names.subrange(kept.len() as int, n - 3) =~= segments);
}

proof fn lemma_archive_is_plain(artifact: Seq<char>, version: Seq<char>)
    requires
        plain(artifact),
        plain(version),
    ensures
        plain(artifact + "-"@ + version + ".jar"@),
{
    reveal_strlit("-");
    reveal_strlit(".jar");
    reveal_strlit(".");
    reveal_strlit("..");
    let file = artifact + "-"@ + version + ".jar"@;
    if file.contains('/') {
        let k = file.index_of('/');
        let m = artifact.len() as int;
        if k < m {
            assert(artifact[k] == '/');
        } else if m < k < m + 1 + version.len() {
            assert(version[k - m - 1] == '/');
        }
    }
}

proof fn lemma_group_names(repo: Seq<char>, segments: Seq<Seq<char>>, n: nat)
    requires
        are_group(segments),
        1 <= n <= segments.len(),
    ensures
        names_of(joined(repo, slashed(joined_by(segments, "."@, n)))) == names_of(repo)
            + segments.take(n as int),
        joined_by(segments, "."@, n).len() > 0,
        joined_by(segments, "."@, n)[0] != '.',
        joined_by(segments, "."@, n)[0] != '/',
        slashed(joined_by(segments, "."@, n)).last() != '/',
    decreases n,
{
    let last = segments[n - 1];
    assert(plain(last));
    assert(slashed(last) =~= last) by {
        assert forall|k: int| 0 <= k < last.len() implies slashed(last)[k] == last[k] by {
            assert(last.contains(last[k]));
        }
    }
    assert(last.contains(last[0]));
    assert(last.contains(last.last()));
    if n == 1 {
        lemma_join_adds_a_name(repo, last);
        assert(names_of(repo).push(last) =~= names_of(repo) + segments.take(1));
    } else {
        reveal_strlit(".");
        reveal_strlit("/");
        let before = joined_by(segments, "."@, (n - 1) as nat);
        let whole = joined_by(segments, "."@, n);
        lemma_group_names(repo, segments, (n - 1) as nat);
        assert(slashed(whole) =~= slashed(before) + "/"@ + last);
        assert(joined(repo, slashed(whole)) =~= joined(joined(repo, slashed(before)), last));
        lemma_join_adds_a_name(joined(repo, slashed(before)), last);
        assert((names_of(repo) + segments.take(n - 1)).push(last) =~= names_of(repo)
            + segments.take(n as int));
    }
    assert(segments.take(n as int).len() == n);
}

proof fn lemma_repository_is_last(
    names: Seq<Seq<char>>,
    kept: Seq<Seq<char>>,
    segments: Seq<Seq<char>>,
    n: nat,
)
    requires
        are_group(segments),
        n <= segments.len(),
        kept.len() > 0,
        kept.last() == "repository"@,
        names.len() >= kept.len() + n,
        forall|k: int| 0 <= k < kept.len() ==> names[k] == kept[k],
        forall|k: int| 0 <= k < n ==> names[kept.len() + k] == #[trigger] segments[k],
    ensures
        last_named(names, "repository"@, kept.len() + n) == Some((kept.len() - 1) as nat),
    decreases n,
{
    if n > 0 {
        assert(names[kept.len() + n - 1] == segments[n - 1]);
        lemma_repository_is_last(names, kept, segments, (n - 1) as nat);
    }
}

/// The name and the version of a library, from the shape of its path; a path of no known
/// shape gives its own name.
pub open spec fn identified(path: Seq<char>) -> (Seq<char>, Option<Seq<char>>) {
    if extension_of(path) == Some("jar"@) {
        match maven_library(names_of(path)) {
            Some(found) => found,
            None => (stem_or_unknown(path), None),
        }
    } else {
        match deps_library(names_of(path)) {
            Some(found) => found,
            None => match lgx_library(names_of(path)) {
                Some(found) => found,
                None => (name_or_unknown(path), None),
            },
        }
    }
}

/// The library at a path.
pub open spec fn library_at(path: Seq<char>) -> LibraryView {
    LibraryView {
        name: identified(path).0,
        version: identified(path).1,
        path,
        kind: if extension_of(path) == Some("jar"@) {
            LibraryKind::Jar
        } else {
            LibraryKind::Dir
        },
    }
}

/// The library at a path.
pub fn classify(path: &str) -> (r: Library)
    ensures
        r.deep_view() == library_at(path@),
{
    if has_extension(path, "jar") {
        let (name, version) = match parse_maven_jar(path) {
            Some(found) => found,
            None => (file_stem(path), None),
        };
        Library { name, version, path: path.to_owned(), kind: LibraryKind::Jar }
    } else {
        let (name, version) = match parse_deps_gitlib(path) {
            Some(found) => found,
            None => match parse_lgx_gitlib(path) {
                Some(found) => found,
                None => (file_name(path), None),
            },
        };
        Library { name, version, path: path.to_owned(), kind: LibraryKind::Dir }
    }
}

/// Whether a directory is one of the list, dots aside.
pub open spec fn lists_dir(dirs: Seq<Seq<char>>, dir: Seq<ComponentView>) -> bool {
    exists|i: int| 0 <= i < dirs.len() && normalized_path(#[trigger] dirs[i]) == dir
}

/// The length of the outermost of the first `n` project directories that a directory lies
/// in.
pub open spec fn outermost(dir: Seq<ComponentView>, projects: Seq<Seq<char>>, n: nat) -> Option<nat>
    decreases n,
{
    if n == 0 {
        None
    } else {
        let p = normalized_path(projects[n - 1]);
        match outermost(dir, projects, (n - 1) as nat) {
            Some(best) => if under(dir, p) && p.len() < best {
                Some(p.len())
            } else {
                Some(best)
            },
            None => if under(dir, p) {
                Some(p.len())
            } else {
                None
            },
        }
    }
}

/// Whether the first `n` components of an entry make a directory of a project: the
/// nearest manifest above the entry decides, and where there is none up to the outermost
/// project, that project owns the entry.
pub open spec fn owned_from(
    entry: Seq<ComponentView>,
    projects: Seq<Seq<char>>,
    manifests: Seq<Seq<char>>,
    outer: nat,
    n: nat,
) -> bool
    decreases n,
{
    let dir = entry.take(n as int);
    if has_manifest(manifests, dir) {
        lists_dir(projects, dir)
    } else if n == outer || n == 0 || dir == seq![ComponentView::Root] {
        true
    } else {
        owned_from(entry, projects, manifests, outer, (n - 1) as nat)
    }
}

/// Whether a directory belongs to one of the projects. A checkout in the workspace that
/// is no project, though it has a manifest, does not, and stays listed.
pub open spec fn owned(entry: Seq<char>, projects: Seq<Seq<char>>, manifests: Seq<Seq<char>>) -> bool {
    let dir = normalized_path(entry);
    match outermost(dir, projects, projects.len()) {
        Some(outer) => owned_from(dir, projects, manifests, outer, dir.len()),
        None => false,
    }
}

fn is_listed_dir(dirs: &Vec<String>, dir: &Vec<Component>, n: usize) -> (r: bool)
    requires
        n <= dir@.len(),
    ensures
        r == lists_dir(strs(dirs@), views(dir@).take(n as int)),
{
    let ghost all = strs(dirs@);
    let ghost want = views(dir@).take(n as int);
    let mut i: usize = 0;
    while i < dirs.len()
        invariant
            i <= dirs@.len(),
            n <= dir@.len(),
            all == strs(dirs@),
            want == views(dir@).take(n as int),
            forall|k: int| 0 <= k < i ==> normalized_path(#[trigger] all[k]) != want,
        decreases dirs@.len() - i,
    {
        assert(all[i as int] == dirs@[i as int]@);
        let own = normalize_lexically(dirs[i].as_str());
        if own.len() == n && starts_with(dir, &own) {
            assert(normalized_path(all[i as int]) == want);
            return true;
        }
        i += 1;
    }
    false
}

fn find_outermost(dir: &Vec<Component>, projects: &Vec<String>) -> (r: Option<usize>)
    ensures
        match r {
            Some(n) => outermost(views(dir@), strs(projects@), projects@.len()) == Some(n as nat)
                && n <= dir@.len(),
            None => outermost(views(dir@), strs(projects@), projects@.len()) is None,
        },
{
    let ghost all = strs(projects@);
    let mut best: Option<usize> = None;
    let mut i: usize = 0;
    while i < projects.len()
        invariant
            i <= projects@.len(),
            all == strs(projects@),
            match best {
                Some(n) => outermost(views(dir@), all, i as nat) == Some(n as nat) && n
                    <= dir@.len(),
                None => outermost(views(dir@), all, i as nat) is None,
            },
        decreases projects@.len() - i,
    {
        assert(all[i as int] == projects@[i as int]@);
        let own = normalize_lexically(projects[i].as_str());
        if starts_with(dir, &own) {
            let shorter = match best {
                Some(n) => own.len() < n,
                None => true,
            };
            if shorter {
                best = Some(own.len());
            }
        }
        i += 1;
    }
    best
}

/// Whether a directory belongs to one of the projects, `manifests` being the directories
/// that hold one.
pub fn owned_by_project(entry: &str, projects: &Vec<String>, manifests: &Vec<String>) -> (r: bool)
    ensures
        r == owned(entry@, strs(projects@), strs(manifests@)),
{
    let dir = normalize_lexically(entry);
    let ghost whole = views(dir@);
    let outer: usize = match find_outermost(&dir, projects) {
        Some(outer) => outer,
        None => return false,
    };
    let ghost p = strs(projects@);
    let ghost m = strs(manifests@);
    let mut n: usize = dir.len();
    while n > 0
        invariant
            n <= dir@.len(),
            whole == views(dir@),
            whole == normalized_path(entry@),
            p == strs(projects@),
            m == strs(manifests@),
            outermost(whole, p, p.len()) == Some(outer as nat),
            owned(entry@, p, m) == owned_from(whole, p, m, outer as nat, n as nat),
        decreases n,
    {
        if holds_manifest(manifests, &dir, n) {
            return is_listed_dir(projects, &dir, n);
        }
        if n == outer {
            return true;
        }
        if n == 1 {
            let at_root = match &dir[0] {
                Component::Root => true,
                _ => false,
            };
            if at_root {
                assert(whole.take(1) =~= seq![ComponentView::Root]);
                return true;
            }
        }
        proof {
            if whole.take(n as int) == seq![ComponentView::Root] {
                assert(whole.take(n as int).len() == 1);
                assert(whole.take(1)[0] == ComponentView::Root);
                assert(false);
            }
        }
        n -= 1;
    }
    if holds_manifest(manifests, &dir, 0) {
        is_listed_dir(projects, &dir, 0)
    } else {
        true
    }
}

/// Whether an entry of a classpath is a library: it is no source directory of the
/// project, nor a directory that a project owns, nor one of those before it.
pub open spec fn is_library(
    entry: Seq<char>,
    own_paths: Seq<Seq<char>>,
    projects: Seq<Seq<char>>,
    manifests: Seq<Seq<char>>,
) -> bool {
    !lists_path(own_paths, entry) && (extension_of(entry) == Some("jar"@) || !owned(
        entry,
        projects,
        manifests,
    ))
}

/// The entries among the first `n` that are libraries, each once.
pub open spec fn library_entries(
    own_paths: Seq<Seq<char>>,
    projects: Seq<Seq<char>>,
    manifests: Seq<Seq<char>>,
    entries: Seq<Seq<char>>,
    n: nat,
) -> Seq<Seq<char>>
    decreases n,
{
    if n == 0 {
        seq![]
    } else {
        let before = library_entries(own_paths, projects, manifests, entries, (n - 1) as nat);
        let e = entries[n - 1];
        if is_library(e, own_paths, projects, manifests) && !lists_path(before, e) {
            before.push(e)
        } else {
            before
        }
    }
}

/// The order of versions: an unknown one comes first.
pub open spec fn version_le(a: Option<Seq<char>>, b: Option<Seq<char>>) -> bool {
    match (a, b) {
        (None, _) => true,
        (Some(_), None) => false,
        (Some(x), Some(y)) => text_le(x, y),
    }
}

/// The order of the list: by name, then by version, then by path.
pub open spec fn library_le(a: LibraryView, b: LibraryView) -> bool {
    if a.name != b.name {
        text_le(a.name, b.name)
    } else if a.version != b.version {
        version_le(a.version, b.version)
    } else {
        text_le(a.path, b.path)
    }
}

/// The libraries at paths, in the order of the list.
pub open spec fn listed(paths: Seq<Seq<char>>) -> Seq<LibraryView> {
    arranged::<Library>(paths.map_values(|p: Seq<char>| library_at(p)), paths.len())
}

fn same_version(a: &Option<String>, b: &Option<String>) -> (r: bool)
    ensures
        r == (a.deep_view() == b.deep_view()),
{
    match (a, b) {
        (Some(x), Some(y)) => str_eq(x.as_str(), y.as_str()),
        (None, None) => true,
        _ => false,
    }
}

impl Sorted for Library {
    open spec fn le(a: LibraryView, b: LibraryView) -> bool {
        library_le(a, b)
    }

    proof fn lemma_order(a: LibraryView, b: LibraryView, c: LibraryView) {
        lemma_text_order(a.name, b.name, c.name);
        lemma_text_order(a.path, b.path, c.path);
        let text = |v: Option<Seq<char>>|
            match v {
                Some(text) => text,
                None => seq![],
            };
        lemma_text_order(text(a.version), text(b.version), text(c.version));
    }

    fn is_le(&self, other: &Library) -> (r: bool) {
        if !str_eq(self.name.as_str(), other.name.as_str()) {
            is_text_le(self.name.as_str(), other.name.as_str())
        } else if !same_version(&self.version, &other.version) {
            match (&self.version, &other.version) {
                (None, _) => true,
                (Some(_), None) => false,
                (Some(x), Some(y)) => is_text_le(x.as_str(), y.as_str()),
            }
        } else {
            is_text_le(self.path.as_str(), other.path.as_str())
        }
    }
}

/// The libraries among the entries of a classpath, in the order of the list.
pub fn from_entries(
    own_paths: &Vec<String>,
    project_dirs: &Vec<String>,
    manifests: &Vec<String>,
    entries: &Vec<String>,
) -> (r: Vec<Library>)
    ensures
        ({
            let kept = library_entries(
                strs(own_paths@),
                strs(project_dirs@),
                strs(manifests@),
                strs(entries@),
                entries@.len(),
            );
            r.deep_view() == listed(kept)
        }),
{
    let ghost own = strs(own_paths@);
    let ghost projects = strs(project_dirs@);
    let ghost m = strs(manifests@);
    let ghost all = strs(entries@);
    let mut kept: Vec<String> = Vec::new();
    let mut out: Vec<Library> = Vec::new();
    assert(strs(kept@) =~= seq![]);
    assert(out.deep_view() =~= seq![]);
    let mut i: usize = 0;
    while i < entries.len()
        invariant
            i <= entries@.len(),
            own == strs(own_paths@),
            projects == strs(project_dirs@),
            m == strs(manifests@),
            all == strs(entries@),
            strs(kept@) == library_entries(own, projects, m, all, i as nat),
            out.deep_view() =~= strs(kept@).map_values(|p: Seq<char>| library_at(p)),
        decreases entries@.len() - i,
    {
        assert(all[i as int] == entries@[i as int]@);
        let entry = entries[i].as_str();
        if !contains_path(own_paths, entry) && (has_extension(entry, "jar") || !owned_by_project(
            entry,
            project_dirs,
            manifests,
        )) && !contains_path(&kept, entry) {
            push_str(&mut kept, entry.to_owned());
            push_item(&mut out, classify(entry));
        }
        i += 1;
    }
    arrange(&out)
}

/// The list stands in its order, with one library for each path and no other.
pub proof fn law_list_is_ordered(paths: Seq<Seq<char>>)
    ensures
        ordered::<Library>(listed(paths)),
        listed(paths).to_multiset() == paths.map_values(
            |p: Seq<char>| library_at(p),
        ).to_multiset(),
{
    let all = paths.map_values(|p: Seq<char>| library_at(p));
    law_arranged::<Library>(all, all.len());
    assert(all.take(all.len() as int) =~= all);
}

/// No path is listed twice, and none of the project's own.
pub proof fn law_entries_are_distinct_libraries(
    own_paths: Seq<Seq<char>>,
    projects: Seq<Seq<char>>,
    manifests: Seq<Seq<char>>,
    entries: Seq<Seq<char>>,
    n: nat,
)
    requires
        n <= entries.len(),
    ensures
        forall|i: int|
            0 <= i < library_entries(own_paths, projects, manifests, entries, n).len()
                ==> is_library(
                #[trigger] library_entries(own_paths, projects, manifests, entries, n)[i],
                own_paths,
                projects,
                manifests,
            ),
        forall|i: int, j: int|
            0 <= i < j < library_entries(own_paths, projects, manifests, entries, n).len()
                ==> components_of(
                #[trigger] library_entries(own_paths, projects, manifests, entries, n)[i],
            ) != components_of(
                #[trigger] library_entries(own_paths, projects, manifests, entries, n)[j],
            ),
    decreases n,
{
    if n > 0 {
        law_entries_are_distinct_libraries(
            own_paths,
            projects,
            manifests,
            entries,
            (n - 1) as nat,
        );
        let before = library_entries(own_paths, projects, manifests, entries, (n - 1) as nat);
        let now = library_entries(own_paths, projects, manifests, entries, n);
        assert forall|i: int, j: int| 0 <= i < j < now.len() implies components_of(
            #[trigger] now[i],
        ) != components_of(#[trigger] now[j]) by {
            if j < before.len() {
                assert(now[i] == before[i] && now[j] == before[j]);
            } else {
                assert(now[i] == before[i]);
            }
        }
        assert forall|i: int| 0 <= i < now.len() implies is_library(
            #[trigger] now[i],
            own_paths,
            projects,
            manifests,
        ) by {
            if i < before.len() {
                assert(now[i] == before[i]);
            }
        }
    }
}

/// Whether the same entries stand in both lists, in any order and any number.
pub open spec fn same_entries(a: Seq<Seq<char>>, b: Seq<Seq<char>>) -> bool {
    forall|e: Seq<char>| #[trigger] a.contains(e) <==> b.contains(e)
}

/// Whether each path of the list is spelled in one way.
pub open spec fn spelled_alike(entries: Seq<Seq<char>>) -> bool {
    forall|d: Seq<char>, e: Seq<char>| #[trigger]
        entries.contains(d) && #[trigger] entries.contains(e) && components_of(d) == components_of(e)
            ==> d == e
}

/// Neither the order of a classpath nor its repetitions change the list.
pub proof fn law_order_and_repetition_do_not_matter(
    own_paths: Seq<Seq<char>>,
    projects: Seq<Seq<char>>,
    manifests: Seq<Seq<char>>,
    a: Seq<Seq<char>>,
    b: Seq<Seq<char>>,
)
    requires
        spelled_alike(a),
        same_entries(a, b),
    ensures
        listed(library_entries(own_paths, projects, manifests, a, a.len())) == listed(
            library_entries(own_paths, projects, manifests, b, b.len()),
        ),
{
    let (p, q) = (
        library_entries(own_paths, projects, manifests, a, a.len()),
        library_entries(own_paths, projects, manifests, b, b.len()),
    );
    let f = |path: Seq<char>| library_at(path);
    let (x, y) = (p.map_values(f), q.map_values(f));
    assert(spelled_alike(b)) by {
        assert forall|d: Seq<char>, e: Seq<char>| #[trigger]
            b.contains(d) && #[trigger] b.contains(e) && components_of(d) == components_of(
                e,
            ) implies d == e by {
            assert(a.contains(d) && a.contains(e));
        }
    }
    assert forall|e: Seq<char>| #[trigger] p.contains(e) <==> q.contains(e) by {
        lemma_kept(own_paths, projects, manifests, a, a.len(), e);
        lemma_kept(own_paths, projects, manifests, b, b.len(), e);
        lemma_take_contains(a, e);
        lemma_take_contains(b, e);
        assert(a.contains(e) <==> b.contains(e));
    }
    lemma_kept_once(own_paths, projects, manifests, a, f);
    lemma_kept_once(own_paths, projects, manifests, b, f);
    assert(x.to_multiset() =~= y.to_multiset()) by {
        x.lemma_multiset_has_no_duplicates();
        y.lemma_multiset_has_no_duplicates();
        x.to_multiset_ensures();
        y.to_multiset_ensures();
        assert forall|v: LibraryView| x.to_multiset().count(v) == y.to_multiset().count(v) by {
            lemma_mapped_contains(p, q, f, v);
            assert(x.contains(v) <==> x.to_multiset().count(v) > 0);
            assert(y.contains(v) <==> y.to_multiset().count(v) > 0);
            if x.contains(v) {
                assert(x.to_multiset().contains(v));
                assert(y.to_multiset().contains(v));
            }
        }
    }
    law_list_is_ordered(p);
    law_list_is_ordered(q);
    assert(p.map_values(|path: Seq<char>| library_at(path)) =~= x);
    assert(q.map_values(|path: Seq<char>| library_at(path)) =~= y);
    let (r, t) = (listed(p), listed(q));
    assert forall|i: int, j: int|
        0 <= i < r.len() && 0 <= j < r.len() && library_le(#[trigger] r[i], #[trigger] r[j])
            && library_le(r[j], r[i]) implies r[i] == r[j] by {
        r.to_multiset_ensures();
        x.to_multiset_ensures();
        assert(r.contains(r[i]) && r.contains(r[j]));
        assert(x.to_multiset().count(r[i]) > 0 && x.to_multiset().count(r[j]) > 0);
        assert(x.contains(r[i]) && x.contains(r[j]));
        let (m, n) = (x.index_of(r[i]), x.index_of(r[j]));
        assert(r[i] == library_at(p[m]) && r[j] == library_at(p[n]));
        lemma_library_order(r[i], r[j]);
    }
    law_one_order::<Library>(r, t);
}

proof fn lemma_library_order(a: LibraryView, b: LibraryView)
    requires
        library_le(a, b),
        library_le(b, a),
    ensures
        a.path == b.path,
{
    lemma_text_order(a.name, b.name, b.name);
    lemma_text_order(a.path, b.path, b.path);
    match (a.version, b.version) {
        (Some(x), Some(y)) => {
            lemma_text_order(x, y, y);
        },
        _ => {},
    }
}

proof fn lemma_take_contains(s: Seq<Seq<char>>, e: Seq<char>)
    ensures
        s.take(s.len() as int).contains(e) == s.contains(e),
{
    assert(s.take(s.len() as int) =~= s);
}

proof fn lemma_mapped_contains(
    p: Seq<Seq<char>>,
    q: Seq<Seq<char>>,
    f: spec_fn(Seq<char>) -> LibraryView,
    v: LibraryView,
)
    requires
        same_entries(p, q),
    ensures
        p.map_values(f).contains(v) == q.map_values(f).contains(v),
{
    let (x, y) = (p.map_values(f), q.map_values(f));
    if x.contains(v) {
        let e = p[x.index_of(v)];
        assert(p.contains(e));
        assert(q.contains(e));
        assert(y[q.index_of(e)] == v);
    }
    if y.contains(v) {
        let e = q[y.index_of(v)];
        assert(q.contains(e));
        assert(p.contains(e));
        assert(x[p.index_of(e)] == v);
    }
}

proof fn lemma_kept_once(
    own_paths: Seq<Seq<char>>,
    projects: Seq<Seq<char>>,
    manifests: Seq<Seq<char>>,
    entries: Seq<Seq<char>>,
    f: spec_fn(Seq<char>) -> LibraryView,
)
    requires
        forall|e: Seq<char>| (#[trigger] f(e)).path == e,
    ensures
        library_entries(own_paths, projects, manifests, entries, entries.len()).map_values(
            f,
        ).no_duplicates(),
{
    let kept = library_entries(own_paths, projects, manifests, entries, entries.len());
    let x = kept.map_values(f);
    law_entries_are_distinct_libraries(own_paths, projects, manifests, entries, entries.len());
    assert forall|i: int, j: int| 0 <= i < x.len() && 0 <= j < x.len() && i != j implies x[i]
        != x[j] by {
        assert(x[i] == f(kept[i]) && x[j] == f(kept[j]));
        let (m, n) = if i < j {
            (i, j)
        } else {
            (j, i)
        };
        assert(components_of(kept[m]) != components_of(kept[n]));
    }
}

proof fn lemma_kept(
    own_paths: Seq<Seq<char>>,
    projects: Seq<Seq<char>>,
    manifests: Seq<Seq<char>>,
    entries: Seq<Seq<char>>,
    n: nat,
    e: Seq<char>,
)
    requires
        n <= entries.len(),
        spelled_alike(entries),
    ensures
        library_entries(own_paths, projects, manifests, entries, n).contains(e) <==> (entries.take(
            n as int,
        ).contains(e) && is_library(e, own_paths, projects, manifests)),
    decreases n,
{
    let now = library_entries(own_paths, projects, manifests, entries, n);
    if n > 0 {
        let before = library_entries(own_paths, projects, manifests, entries, (n - 1) as nat);
        let last = entries[n - 1];
        lemma_kept(own_paths, projects, manifests, entries, (n - 1) as nat, e);
        assert(entries.take(n as int) =~= entries.take(n - 1).push(last));
        crate::sort::lemma_push_contains(entries.take(n - 1), last, e);
        crate::sort::lemma_push_contains(before, last, e);
        if lists_path(before, last) {
            let j = choose|j: int|
                0 <= j < before.len() && components_of(#[trigger] before[j]) == components_of(last);
            let d = before[j];
            lemma_kept(own_paths, projects, manifests, entries, (n - 1) as nat, d);
            assert(before.contains(d));
            let taken = entries.take(n - 1);
            assert(taken.contains(d));
            assert(entries[taken.index_of(d)] == d);
            assert(entries.contains(d) && entries.contains(last));
            assert(d == last);
        }
    } else {
        assert(entries.take(0) =~= seq![]);
    }
}

/// A path outside every project is owned by none: archives and checkouts elsewhere stay
/// listed.
pub proof fn law_outside_paths_are_not_owned(
    entry: Seq<char>,
    projects: Seq<Seq<char>>,
    manifests: Seq<Seq<char>>,
)
    requires
        forall|i: int|
            0 <= i < projects.len() ==> !under(
                normalized_path(entry),
                normalized_path(#[trigger] projects[i]),
            ),
    ensures
        !owned(entry, projects, manifests),
{
    lemma_no_outermost(normalized_path(entry), projects, projects.len());
}

proof fn lemma_no_outermost(dir: Seq<ComponentView>, projects: Seq<Seq<char>>, n: nat)
    requires
        n <= projects.len(),
        forall|i: int|
            0 <= i < projects.len() ==> !under(dir, normalized_path(#[trigger] projects[i])),
    ensures
        outermost(dir, projects, n) is None,
    decreases n,
{
    if n > 0 {
        lemma_no_outermost(dir, projects, (n - 1) as nat);
        assert(!under(dir, normalized_path(projects[n - 1])));
    }
}

/// An archive is listed wherever it lies, be it in a project's own directory, unless it
/// is one of the project's own paths.
pub proof fn law_archives_are_listed(
    own_paths: Seq<Seq<char>>,
    projects: Seq<Seq<char>>,
    manifests: Seq<Seq<char>>,
    entries: Seq<Seq<char>>,
    n: nat,
    i: int,
)
    requires
        0 <= i < n <= entries.len(),
        extension_of(entries[i]) == Some("jar"@),
        !lists_path(own_paths, entries[i]),
    ensures
        lists_path(library_entries(own_paths, projects, manifests, entries, n), entries[i]),
    decreases n,
{
    let before = library_entries(own_paths, projects, manifests, entries, (n - 1) as nat);
    let all = library_entries(own_paths, projects, manifests, entries, n);
    if i < n - 1 {
        law_archives_are_listed(own_paths, projects, manifests, entries, (n - 1) as nat, i);
        let j = choose|j: int|
            0 <= j < before.len() && components_of(#[trigger] before[j]) == components_of(entries[i]);
        assert(all[j] == before[j]);
    } else if !lists_path(before, entries[i]) {
        assert(all[all.len() - 1] == entries[i]);
    }
}

/// Every entry of the classpath that is a library is listed.
pub proof fn law_every_library_is_listed(
    own_paths: Seq<Seq<char>>,
    projects: Seq<Seq<char>>,
    manifests: Seq<Seq<char>>,
    entries: Seq<Seq<char>>,
    n: nat,
    i: int,
)
    requires
        0 <= i < n <= entries.len(),
        is_library(entries[i], own_paths, projects, manifests),
    ensures
        lists_path(library_entries(own_paths, projects, manifests, entries, n), entries[i]),
    decreases n,
{
    let before = library_entries(own_paths, projects, manifests, entries, (n - 1) as nat);
    let after = library_entries(own_paths, projects, manifests, entries, n);
    if i < n - 1 {
        law_every_library_is_listed(own_paths, projects, manifests, entries, (n - 1) as nat, i);
        let j = choose|j: int|
            0 <= j < before.len() && components_of(#[trigger] before[j]) == components_of(entries[i]);
        assert(after[j] == before[j]);
    } else if !lists_path(before, entries[i]) {
        assert(after[before.len() as int] == entries[i]);
    }
}

proof fn lemma_outermost(dir: Seq<ComponentView>, projects: Seq<Seq<char>>, n: nat)
    requires
        n <= projects.len(),
    ensures
        match outermost(dir, projects, n) {
            Some(best) => best <= dir.len() && (exists|k: int|
                0 <= k < n && under(dir, normalized_path(#[trigger] projects[k])) && normalized_path(
                    projects[k],
                ).len() == best) && forall|k: int|
                0 <= k < n && under(dir, normalized_path(#[trigger] projects[k])) ==> best
                    <= normalized_path(projects[k]).len(),
            None => forall|k: int|
                0 <= k < n ==> !under(dir, normalized_path(#[trigger] projects[k])),
        },
    decreases n,
{
    if n > 0 {
        lemma_outermost(dir, projects, (n - 1) as nat);
        let p = normalized_path(projects[n - 1]);
        assert(under(dir, p) ==> p.len() <= dir.len());
    }
}

proof fn lemma_owned_from(
    entry: Seq<ComponentView>,
    projects: Seq<Seq<char>>,
    manifests: Seq<Seq<char>>,
    outer: nat,
    n: nat,
    k: int,
)
    requires
        outer <= k <= n <= entry.len(),
        0 < k,
        has_manifest(manifests, entry.take(k)),
        forall|j: int| k < j <= n ==> !has_manifest(manifests, #[trigger] entry.take(j)),
    ensures
        owned_from(entry, projects, manifests, outer, n) == lists_dir(projects, entry.take(k)),
    decreases n,
{
    if k < n {
        assert(!has_manifest(manifests, entry.take(n as int)));
        assert(entry.take(n as int).len() == n);
        lemma_owned_from(entry, projects, manifests, outer, (n - 1) as nat, k);
    }
}

/// A directory belongs to the project whose manifest is the nearest above it: it is the user's
/// own where that project is one of the open ones, and a library where it is not.
pub proof fn law_nearest_manifest_decides(
    entry: Seq<char>,
    projects: Seq<Seq<char>>,
    manifests: Seq<Seq<char>>,
    p: int,
    k: int,
)
    requires
        0 <= p < projects.len(),
        under(normalized_path(entry), normalized_path(projects[p])),
        normalized_path(projects[p]).len() <= k <= normalized_path(entry).len(),
        0 < k,
        has_manifest(manifests, normalized_path(entry).take(k)),
        forall|j: int|
            k < j <= normalized_path(entry).len() ==> !has_manifest(
                manifests,
                #[trigger] normalized_path(entry).take(j),
            ),
    ensures
        owned(entry, projects, manifests) <==> lists_dir(projects, normalized_path(entry).take(k)),
{
    let dir = normalized_path(entry);
    lemma_outermost(dir, projects, projects.len());
    let outer = outermost(dir, projects, projects.len())->0;
    assert(under(dir, normalized_path(projects[p])));
    lemma_owned_from(dir, projects, manifests, outer, dir.len(), k);
}

proof fn lemma_first_named(names: Seq<Seq<char>>, name: Seq<char>, i: nat, k: int)
    requires
        i <= k < names.len(),
        names[k] == name,
        forall|j: int| i <= j < k ==> #[trigger] names[j] != name,
    ensures
        first_named(names, name, i) == Some(k as nat),
    decreases k - i,
{
    if i < k {
        assert(names[i as int] != name);
        lemma_first_named(names, name, i + 1, k);
    }
}

/// A checkout of a dependency is named by its group and artifact, and its version is the commit.
pub proof fn law_checkout_path_reads_back(
    before: Seq<Seq<char>>,
    group: Seq<char>,
    artifact: Seq<char>,
    commit: Seq<char>,
    behind: Seq<Seq<char>>,
)
    requires
        !before.contains(".gitlibs"@),
    ensures
        deps_library(before + seq![".gitlibs"@, "libs"@, group, artifact, commit] + behind) == Some(
            (
                if group == artifact {
                    artifact
                } else {
                    group + "/"@ + artifact
                },
                Some(shortened(commit)),
            ),
        ),
{
    let mid = seq![".gitlibs"@, "libs"@, group, artifact, commit];
    let names = before + mid + behind;
    let k = before.len() as int;
    assert forall|j: int| 0 <= j < k implies #[trigger] names[j] != ".gitlibs"@ by {
        assert(names[j] == before[j]);
        assert(before.contains(before[j]));
    }
    assert(names[k] == mid[0] && names[k + 1] == mid[1] && names[k + 2] == mid[2] && names[k + 3]
        == mid[3] && names[k + 4] == mid[4]);
    lemma_first_named(names, ".gitlibs"@, 0, k);
}

/// An archive that stands in no repository is named by its file, and a directory that is no
/// checkout by its own name; neither has a version.
pub proof fn law_other_libraries_are_named_by_their_files(path: Seq<char>)
    ensures
        extension_of(path) == Some("jar"@) ==> library_at(path).kind == LibraryKind::Jar,
        extension_of(path) != Some("jar"@) ==> library_at(path).kind == LibraryKind::Dir,
        library_at(path).path == path,
        extension_of(path) == Some("jar"@) && !names_of(path).contains("repository"@) ==> library_at(
            path,
        ).version is None && (file_stem_of(path) matches Some(stem) ==> library_at(path).name == stem),
        extension_of(path) != Some("jar"@) && !names_of(path).contains(".gitlibs"@) && !names_of(
            path,
        ).contains("gitlibs"@) ==> library_at(path).version is None && (file_name_of(
            path,
        ) matches Some(name) ==> library_at(path).name == name),
{
    let names = names_of(path);
    if !names.contains("repository"@) {
        lemma_never_last_named(names, "repository"@, (names.len() - 3) as nat);
    }
    if !names.contains(".gitlibs"@) {
        lemma_never_first_named(names, ".gitlibs"@, 0);
    }
    if !names.contains("gitlibs"@) {
        lemma_never_first_named(names, "gitlibs"@, 0);
    }
}

proof fn lemma_never_last_named(names: Seq<Seq<char>>, name: Seq<char>, n: nat)
    requires
        !names.contains(name),
    ensures
        n <= names.len() ==> last_named(names, name, n) is None,
    decreases n,
{
    if n > 0 && n <= names.len() {
        assert(names.contains(names[n - 1]));
        lemma_never_last_named(names, name, (n - 1) as nat);
    }
}

proof fn lemma_never_first_named(names: Seq<Seq<char>>, name: Seq<char>, i: nat)
    requires
        !names.contains(name),
    ensures
        first_named(names, name, i) is None,
    decreases names.len() - i,
{
    if i < names.len() {
        assert(names.contains(names[i as int]));
        lemma_never_first_named(names, name, i + 1);
    }
}

}
