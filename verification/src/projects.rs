//! The projects of a workspace: the directories that hold a manifest.

use vstd::prelude::*;
use crate::collect::{push_item, strs, Copied};
use crate::path::{
    components, components_of, join, joined, starts_with, under, views, Component, ComponentView,
};
use crate::sort::{
    arrange, arranged, is_text_le, law_arranged, lemma_text_order, ordered, text_le, Sorted,
};

verus! {

/// The files that make a directory a project.
pub open spec fn manifest_names() -> Seq<Seq<char>> {
    seq!["deps.edn"@, "project.clj"@, "lgx.edn"@]
}

/// The files that make a directory a project.
pub fn manifests() -> (r: Vec<&'static str>)
    ensures
        r@.len() == manifest_names().len(),
        forall|i: int| 0 <= i < r@.len() ==> (#[trigger] r@[i])@ == manifest_names()[i],
{
    let mut out: Vec<&'static str> = Vec::new();
    out.push("deps.edn");
    out.push("project.clj");
    out.push("lgx.edn");
    out
}

/// Whether a directory is one of those that hold a manifest.
pub open spec fn has_manifest(manifests: Seq<Seq<char>>, dir: Seq<ComponentView>) -> bool {
    exists|i: int| 0 <= i < manifests.len() && components_of(#[trigger] manifests[i]) == dir
}

/// Whether the first `n` components of `dir` are one of the directories that hold a
/// manifest.
pub fn holds_manifest(manifests: &Vec<String>, dir: &Vec<Component>, n: usize) -> (r: bool)
    requires
        n <= dir@.len(),
    ensures
        r == has_manifest(strs(manifests@), views(dir@).take(n as int)),
{
    let ghost all = strs(manifests@);
    let ghost want = views(dir@).take(n as int);
    let mut i: usize = 0;
    while i < manifests.len()
        invariant
            i <= manifests@.len(),
            n <= dir@.len(),
            all == strs(manifests@),
            want == views(dir@).take(n as int),
            forall|k: int| 0 <= k < i ==> components_of(#[trigger] all[k]) != want,
        decreases manifests@.len() - i,
    {
        assert(all[i as int] == manifests@[i as int]@);
        let own = components(manifests[i].as_str());
        assert(views(own@) =~= own.deep_view());
        if own.len() == n && starts_with(dir, &own) {
            assert(components_of(all[i as int]) == want);
            return true;
        }
        i += 1;
    }
    false
}

/// How a component is written.
pub open spec fn component_text(c: ComponentView) -> Seq<char> {
    match c {
        ComponentView::Root => "/"@,
        ComponentView::Cur => "."@,
        ComponentView::Parent => ".."@,
        ComponentView::Normal(name) => name,
    }
}

/// The path of the first `n` components.
pub open spec fn path_text(cs: Seq<ComponentView>, n: nat) -> Seq<char>
    decreases n,
{
    if n == 0 {
        ""@
    } else {
        joined(path_text(cs, (n - 1) as nat), component_text(cs[n - 1]))
    }
}

/// The path of the first `n` components.
pub fn path_of(cs: &Vec<Component>, n: usize) -> (r: String)
    requires
        n <= cs@.len(),
    ensures
        r@ == path_text(views(cs@), n as nat),
{
    let ghost all = views(cs@);
    let mut out = "".to_owned();
    let mut i: usize = 0;
    while i < n
        invariant
            i <= n <= cs@.len(),
            all == views(cs@),
            out@ == path_text(all, i as nat),
        decreases n - i,
    {
        assert(all[i as int] == cs@[i as int].deep_view());
        out = match &cs[i] {
            Component::Root => join(out.as_str(), "/"),
            Component::Cur => join(out.as_str(), "."),
            Component::Parent => join(out.as_str(), ".."),
            Component::Normal(name) => join(out.as_str(), name.as_str()),
        };
        i += 1;
    }
    out
}

/// A directory, relative to the workspace.
#[derive(Debug)]
pub struct Subproject {
    pub path: Vec<Component>,
}

impl DeepView for Subproject {
    type V = Seq<ComponentView>;

    open spec fn deep_view(&self) -> Seq<ComponentView> {
        views(self.path@)
    }
}

impl Copied for Subproject {
    fn copied(&self) -> (r: Self) {
        assert(views(self.path@).skip(0) =~= views(self.path@));
        Subproject { path: copy_from(&self.path, 0) }
    }
}

fn copy_from(cs: &Vec<Component>, from: usize) -> (r: Vec<Component>)
    requires
        from <= cs@.len(),
    ensures
        views(r@) == views(cs@).skip(from as int),
{
    let ghost all = views(cs@);
    let mut out: Vec<Component> = Vec::new();
    let mut i: usize = from;
    while i < cs.len()
        invariant
            from <= i <= cs@.len(),
            all == views(cs@),
            views(out@) =~= all.subrange(from as int, i as int),
        decreases cs@.len() - i,
    {
        assert(all[i as int] == cs@[i as int].deep_view());
        let c = match &cs[i] {
            Component::Root => Component::Root,
            Component::Cur => Component::Cur,
            Component::Parent => Component::Parent,
            Component::Normal(name) => Component::Normal(name.clone()),
        };
        let ghost had = views(out@);
        out.push(c);
        assert(views(out@) =~= had.push(all[i as int]));
        i += 1;
    }
    assert(views(out@) =~= all.skip(from as int));
    out
}

/// The place of a kind of component among the others.
pub open spec fn component_rank(c: ComponentView) -> int {
    match c {
        ComponentView::Root => 0,
        ComponentView::Cur => 1,
        ComponentView::Parent => 2,
        ComponentView::Normal(_) => 3,
    }
}

/// The order of components: names as in a dictionary, behind everything else.
pub open spec fn component_le(a: ComponentView, b: ComponentView) -> bool {
    match (a, b) {
        (ComponentView::Normal(x), ComponentView::Normal(y)) => text_le(x, y),
        _ => component_rank(a) <= component_rank(b),
    }
}

fn rank_of(c: &Component) -> (r: u8)
    ensures
        r == component_rank(c.deep_view()),
{
    match c {
        Component::Root => 0,
        Component::Cur => 1,
        Component::Parent => 2,
        Component::Normal(_) => 3,
    }
}

fn is_component_le(a: &Component, b: &Component) -> (r: bool)
    ensures
        r == component_le(a.deep_view(), b.deep_view()),
{
    match (a, b) {
        (Component::Normal(x), Component::Normal(y)) => is_text_le(x.as_str(), y.as_str()),
        _ => rank_of(a) <= rank_of(b),
    }
}

/// The order of paths: by their components, one after the other.
pub open spec fn path_le(a: Seq<ComponentView>, b: Seq<ComponentView>) -> bool
    decreases a.len(),
{
    if a.len() == 0 {
        true
    } else if b.len() == 0 {
        false
    } else if a[0] != b[0] {
        component_le(a[0], b[0])
    } else {
        path_le(a.drop_first(), b.drop_first())
    }
}

proof fn lemma_component_order(a: ComponentView, b: ComponentView, c: ComponentView)
    ensures
        component_le(a, a),
        component_le(a, b) || component_le(b, a),
        component_le(a, b) && component_le(b, a) ==> a == b,
        component_le(b, c) && component_le(c, b) ==> b == c,
        component_le(a, b) && component_le(b, c) ==> component_le(a, c),
{
    let text = |v: ComponentView|
        match v {
            ComponentView::Normal(name) => name,
            _ => seq![],
        };
    lemma_text_order(text(a), text(b), text(c));
}

proof fn lemma_path_order(a: Seq<ComponentView>, b: Seq<ComponentView>, c: Seq<ComponentView>)
    ensures
        path_le(a, a),
        path_le(a, b) || path_le(b, a),
        path_le(a, b) && path_le(b, c) ==> path_le(a, c),
    decreases a.len(),
{
    if a.len() > 0 {
        lemma_path_order(a.drop_first(), b.drop_first(), c.drop_first());
        if b.len() > 0 {
            lemma_component_order(a[0], b[0], b[0]);
            if c.len() > 0 {
                lemma_component_order(a[0], b[0], c[0]);
            }
        }
    }
}

impl Sorted for Subproject {
    open spec fn le(a: Seq<ComponentView>, b: Seq<ComponentView>) -> bool {
        path_le(a, b)
    }

    proof fn lemma_order(a: Seq<ComponentView>, b: Seq<ComponentView>, c: Seq<ComponentView>) {
        lemma_path_order(a, b, c);
    }

    fn is_le(&self, other: &Subproject) -> (r: bool) {
        let ghost (a, b) = (views(self.path@), views(other.path@));
        let mut i: usize = 0;
        assert(a.skip(0) =~= a);
        assert(b.skip(0) =~= b);
        while i < self.path.len() && i < other.path.len()
            invariant
                a == views(self.path@),
                b == views(other.path@),
                i <= a.len(),
                i <= b.len(),
                path_le(a, b) == path_le(a.skip(i as int), b.skip(i as int)),
            decreases a.len() - i,
        {
            assert(a[i as int] == self.path@[i as int].deep_view());
            assert(b[i as int] == other.path@[i as int].deep_view());
            assert(a.skip(i as int)[0] == a[i as int]);
            assert(b.skip(i as int)[0] == b[i as int]);
            if !crate::path::same_component(&self.path[i], &other.path[i]) {
                return is_component_le(&self.path[i], &other.path[i]);
            }
            assert(a.skip(i as int).drop_first() =~= a.skip(i + 1));
            assert(b.skip(i as int).drop_first() =~= b.skip(i + 1));
            i += 1;
        }
        i >= self.path.len()
    }
}

/// How deep a subproject may lie in its workspace.
pub const MAX_DEPTH: usize = 4;

/// The directories among the first `n` that lie in the workspace, not too deep, and are
/// not the whole of it, relative to it.
pub open spec fn within(root: Seq<char>, dirs: Seq<Seq<char>>, n: nat) -> Seq<Seq<ComponentView>>
    decreases n,
{
    if n == 0 {
        seq![]
    } else {
        let before = within(root, dirs, (n - 1) as nat);
        let (dir, top) = (components_of(dirs[n - 1]), components_of(root));
        if dir != top && under(dir, top) && dir.len() - top.len() <= MAX_DEPTH {
            before.push(dir.skip(top.len() as int))
        } else {
            before
        }
    }
}

/// The subprojects of a workspace, in the order of their paths: `dirs` are the
/// directories of the workspace that hold a manifest.
pub fn detect(root: &str, dirs: &Vec<String>) -> (r: Vec<Subproject>)
    ensures
        ({
            let found = within(root@, strs(dirs@), dirs@.len());
            r.deep_view() == arranged::<Subproject>(found, found.len())
        }),
{
    let ghost all = strs(dirs@);
    let top = components(root);
    assert(views(top@) =~= top.deep_view());
    let mut out: Vec<Subproject> = Vec::new();
    assert(out.deep_view() =~= seq![]);
    let mut i: usize = 0;
    while i < dirs.len()
        invariant
            i <= dirs@.len(),
            all == strs(dirs@),
            views(top@) == components_of(root@),
            out.deep_view() == within(root@, all, i as nat),
        decreases dirs@.len() - i,
    {
        assert(all[i as int] == dirs@[i as int]@);
        let dir = components(dirs[i].as_str());
        assert(views(dir@) =~= dir.deep_view());
        if starts_with(&dir, &top) {
            if dir.len() > top.len() {
                if dir.len() - top.len() <= MAX_DEPTH {
                    push_item(&mut out, Subproject { path: copy_from(&dir, top.len()) });
                }
            } else {
                assert(views(dir@).take(top@.len() as int) =~= views(dir@));
            }
        }
        i += 1;
    }
    arrange(&out)
}

/// Subprojects come in the order of their paths, and every one that was found is there.
pub proof fn law_subprojects_are_ordered(root: Seq<char>, dirs: Seq<Seq<char>>)
    ensures
        ({
            let found = within(root, dirs, dirs.len());
            let listed = arranged::<Subproject>(found, found.len());
            ordered::<Subproject>(listed) && listed.to_multiset() == found.to_multiset()
        }),
{
    let found = within(root, dirs, dirs.len());
    law_arranged::<Subproject>(found, found.len());
    assert(found.take(found.len() as int) =~= found);
}

/// The workspace itself is no subproject of itself, and no subproject lies too deep.
pub proof fn law_subprojects_lie_below_the_root(root: Seq<char>, dirs: Seq<Seq<char>>, n: nat, i: int)
    requires
        n <= dirs.len(),
        0 <= i < within(root, dirs, n).len(),
    ensures
        0 < within(root, dirs, n)[i].len() <= MAX_DEPTH,
    decreases n,
{
    if n > 0 {
        let before = within(root, dirs, (n - 1) as nat);
        let (dir, top) = (components_of(dirs[n - 1]), components_of(root));
        if i < before.len() {
            law_subprojects_lie_below_the_root(root, dirs, (n - 1) as nat, i);
        } else if dir.len() == top.len() {
            assert(dir.take(top.len() as int) =~= dir);
        }
    }
}

/// The subprojects are the directories with a manifest below the root, down to the greatest depth.
pub proof fn law_subprojects_are_all_found(
    root: Seq<char>,
    dirs: Seq<Seq<char>>,
    n: nat,
    path: Seq<ComponentView>,
)
    requires
        n <= dirs.len(),
    ensures
        within(root, dirs, n).contains(path) <==> 0 < path.len() <= MAX_DEPTH && exists|k: int|
            0 <= k < n && components_of(#[trigger] dirs[k]) == components_of(root) + path,
    decreases n,
{
    if n > 0 {
        law_subprojects_are_all_found(root, dirs, (n - 1) as nat, path);
        let before = within(root, dirs, (n - 1) as nat);
        let (dir, top) = (components_of(dirs[n - 1]), components_of(root));
        let len = top.len() as int;
        crate::sort::lemma_push_contains(before, dir.skip(len), path);
        if under(dir, top) {
            assert(top + dir.skip(len) =~= dir);
        }
        if dir == top + path {
            assert(dir.take(len) =~= top);
            assert(dir.skip(len) =~= path);
        }
        if dir.len() == top.len() && under(dir, top) {
            assert(dir =~= top);
        }
        if exists|k: int|
            0 <= k < n - 1 && components_of(#[trigger] dirs[k]) == components_of(root) + path {
            let k = choose|k: int|
                0 <= k < n - 1 && components_of(#[trigger] dirs[k]) == components_of(root) + path;
            assert(components_of(dirs[k]) == components_of(root) + path);
        }
    } else {
        assert(within(root, dirs, n) =~= seq![]);
    }
}

}
