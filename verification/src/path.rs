//! File paths, written with `/` between their components.

use vstd::prelude::*;
use crate::collect::strs;
use crate::text::{
    chars_of, concat2, concat3, last_index, law_split_at_the_last, lemma_last_index, str_eq, string_of,
};

verus! {

/// One component of a path.
#[derive(Clone, Debug, PartialEq, Eq)]
pub enum Component {
    /// The leading `/` of an absolute path.
    Root,
    /// A leading `.`; elsewhere `.` is no component.
    Cur,
    /// `..`.
    Parent,
    Normal(String),
}

/// What a [`Component`] says.
pub ghost enum ComponentView {
    Root,
    Cur,
    Parent,
    Normal(Seq<char>),
}

impl DeepView for Component {
    type V = ComponentView;

    open spec fn deep_view(&self) -> ComponentView {
        match self {
            Component::Root => ComponentView::Root,
            Component::Cur => ComponentView::Cur,
            Component::Parent => ComponentView::Parent,
            Component::Normal(s) => ComponentView::Normal(s@),
        }
    }
}

/// Whether `p` starts at the root.
pub open spec fn absolute(p: Seq<char>) -> bool {
    p.len() > 0 && p[0] == '/'
}

/// Where the segment of `p` that starts at `i` ends.
pub open spec fn segment_end(p: Seq<char>, i: nat) -> nat
    decreases p.len() - i,
{
    if i >= p.len() || p[i as int] == '/' {
        i
    } else {
        segment_end(p, i + 1)
    }
}

/// The component that a segment spells, if any; `first` where it starts the path.
pub open spec fn segment_component(segment: Seq<char>, first: bool) -> Option<ComponentView> {
    if segment.len() == 0 {
        None
    } else if segment == "."@ {
        if first {
            Some(ComponentView::Cur)
        } else {
            None
        }
    } else if segment == ".."@ {
        Some(ComponentView::Parent)
    } else {
        Some(ComponentView::Normal(segment))
    }
}

/// The components that the segments of `p` from `i` on spell.
pub open spec fn components_from(p: Seq<char>, i: nat) -> Seq<ComponentView>
    decreases p.len() + 1 - i,
    via components_from_decreases
{
    if i >= p.len() {
        Seq::empty()
    } else {
        let end = segment_end(p, i);
        let rest = components_from(p, end + 1);
        match segment_component(p.subrange(i as int, end as int), i == 0) {
            Some(c) => seq![c] + rest,
            None => rest,
        }
    }
}

#[via_fn]
proof fn components_from_decreases(p: Seq<char>, i: nat) {
    if i < p.len() {
        lemma_segment_end(p, i);
    }
}

proof fn lemma_segment_end(p: Seq<char>, i: nat)
    requires
        i <= p.len(),
    ensures
        i <= segment_end(p, i) <= p.len(),
    decreases p.len() - i,
{
    if i < p.len() && p[i as int] != '/' {
        lemma_segment_end(p, i + 1);
    }
}

/// The components of `p`.
pub open spec fn components_of(p: Seq<char>) -> Seq<ComponentView> {
    if absolute(p) {
        seq![ComponentView::Root] + components_from(p, 0)
    } else {
        components_from(p, 0)
    }
}

/// The components of `p`.
pub fn components(p: &str) -> (r: Vec<Component>)
    ensures
        r.deep_view() == components_of(p@),
{
    let cs = chars_of(p);
    let mut out: Vec<Component> = Vec::new();
    let len: usize = cs.len();
    if len > 0 && cs[0] == '/' {
        out.push(Component::Root);
    }
    let ghost all = components_of(p@);
    let mut i: usize = 0;
    assert(out.deep_view() + components_from(p@, 0) =~= all);
    while i < len
        invariant
            cs@ == p@,
            len == cs@.len(),
            out.deep_view() + components_from(p@, i as nat) == all,
        decreases len - i,
    {
        let mut end: usize = i;
        while end < len && cs[end] != '/'
            invariant
                cs@ == p@,
                i <= end <= len == cs@.len(),
                segment_end(p@, i as nat) == segment_end(p@, end as nat),
            decreases len - end,
        {
            end += 1;
        }
        let ghost before = out.deep_view();
        let ghost rest = components_from(p@, (end + 1) as nat);
        let segment = string_of(&cs, i, end);
        if segment.as_str().is_empty() {
        } else if str_eq(segment.as_str(), ".") {
            if i == 0 {
                out.push(Component::Cur);
                assert(out.deep_view() =~= before.push(ComponentView::Cur));
            }
        } else if str_eq(segment.as_str(), "..") {
            out.push(Component::Parent);
            assert(out.deep_view() =~= before.push(ComponentView::Parent));
        } else {
            out.push(Component::Normal(segment));
            assert(out.deep_view() =~= before.push(
                ComponentView::Normal(p@.subrange(i as int, end as int)),
            ));
        }
        assert(out.deep_view() + rest =~= before + components_from(p@, i as nat));
        if end < len {
            i = end + 1;
        } else {
            assert(rest =~= Seq::empty());
            assert(components_from(p@, end as nat) =~= Seq::empty());
            i = end;
        }
    }
    assert(out.deep_view() =~= out.deep_view() + components_from(p@, i as nat));
    out
}

/// The name that the path ends with.
pub open spec fn file_name_of(p: Seq<char>) -> Option<Seq<char>> {
    let cs = components_of(p);
    if cs.len() == 0 {
        None
    } else {
        match cs.last() {
            ComponentView::Normal(s) => Some(s),
            _ => None,
        }
    }
}

/// The name that the path ends with.
pub fn file_name(p: &str) -> (r: Option<String>)
    ensures
        r.deep_view() == file_name_of(p@),
{
    let cs = components(p);
    let n: usize = cs.len();
    if n == 0 {
        return None;
    }
    assert(components_of(p@).last() == cs@[n - 1].deep_view());
    match &cs[n - 1] {
        Component::Normal(s) => Some(s.clone()),
        _ => None,
    }
}

/// Where the extension of a file name starts: behind its last dot, unless that
/// is its first character.
pub open spec fn extension_dot(name: Seq<char>) -> Option<nat> {
    match last_index(name, '.', name.len()) {
        Some(i) => if i == 0 {
            None
        } else {
            Some(i)
        },
        None => None,
    }
}

/// The extension of the name that the path ends with.
pub open spec fn extension_of(p: Seq<char>) -> Option<Seq<char>> {
    match file_name_of(p) {
        Some(name) => match extension_dot(name) {
            Some(i) => Some(name.skip(i as int + 1)),
            None => None,
        },
        None => None,
    }
}

/// The name that the path ends with, without its extension.
pub open spec fn file_stem_of(p: Seq<char>) -> Option<Seq<char>> {
    match file_name_of(p) {
        Some(name) => match extension_dot(name) {
            Some(i) => Some(name.take(i as int)),
            None => Some(name),
        },
        None => None,
    }
}

fn find_extension_dot(cs: &Vec<char>) -> (r: Option<usize>)
    ensures
        match r {
            Some(i) => extension_dot(cs@) == Some(i as nat) && i < cs@.len(),
            None => extension_dot(cs@) is None,
        },
{
    let mut n: usize = cs.len();
    while n > 0
        invariant
            n <= cs@.len(),
            last_index(cs@, '.', cs@.len()) == last_index(cs@, '.', n as nat),
        decreases n,
    {
        if cs[n - 1] == '.' {
            return if n == 1 {
                None
            } else {
                Some(n - 1)
            };
        }
        n -= 1;
    }
    None
}

/// The extension of the name that the path ends with.
pub fn extension(p: &str) -> (r: Option<String>)
    ensures
        r.deep_view() == extension_of(p@),
{
    match file_name(p) {
        Some(name) => {
            let cs = chars_of(name.as_str());
            let n: usize = cs.len();
            match find_extension_dot(&cs) {
                Some(i) => {
                    let ext = string_of(&cs, i + 1, n);
                    assert(ext@ =~= name@.skip(i as int + 1));
                    Some(ext)
                },
                None => None,
            }
        },
        None => None,
    }
}

/// The name that the path ends with, without its extension.
pub fn file_stem(p: &str) -> (r: Option<String>)
    ensures
        r.deep_view() == file_stem_of(p@),
{
    match file_name(p) {
        Some(name) => {
            let cs = chars_of(name.as_str());
            match find_extension_dot(&cs) {
                Some(i) => {
                    let stem = string_of(&cs, 0, i);
                    assert(stem@ =~= name@.take(i as int));
                    Some(stem)
                },
                None => Some(name),
            }
        },
        None => None,
    }
}

/// Whether `p` has the extension `ext`.
pub fn has_extension(p: &str, ext: &str) -> (r: bool)
    ensures
        r == (extension_of(p@) == Some(ext@)),
{
    match extension(p) {
        Some(e) => str_eq(e.as_str(), ext),
        None => false,
    }
}

/// `p` under `base`; an absolute `p` stands alone.
pub open spec fn joined(base: Seq<char>, p: Seq<char>) -> Seq<char> {
    if absolute(p) {
        p
    } else if base.len() == 0 || base.last() == '/' {
        base + p
    } else {
        base + "/"@ + p
    }
}

/// Whether `name` is one component, other than `.` and `..`.
pub open spec fn plain(name: Seq<char>) -> bool {
    name.len() > 0 && !name.contains('/') && name != "."@ && name != ".."@
}

/// A name that is put under a path is one more component.
pub proof fn law_join_adds_a_component(base: Seq<char>, name: Seq<char>)
    requires
        plain(name),
    ensures
        components_of(joined(base, name)) == components_of(base).push(ComponentView::Normal(name)),
{
    reveal_strlit("/");
    assert(!absolute(name)) by {
        if absolute(name) {
            assert(name.contains(name[0]));
        }
    }
    let p = joined(base, name);
    lemma_joined_from(base, name, 0);
    if base.len() > 0 {
        assert(p[0] == base[0]);
    } else {
        assert(p =~= name);
    }
    assert(components_of(p) =~= components_of(base).push(ComponentView::Normal(name)));
}

proof fn lemma_joined_from(base: Seq<char>, name: Seq<char>, i: nat)
    requires
        plain(name),
        i <= base.len() || (i == base.len() + 1 && base.len() > 0 && base.last() != '/'),
        i == base.len() ==> base.len() == 0 || base.last() == '/',
    ensures
        components_from(joined(base, name), i) == components_from(base, i).push(
            ComponentView::Normal(name),
        ),
    decreases base.len() + 1 - i,
{
    reveal_strlit("/");
    assert(!absolute(name)) by {
        if absolute(name) {
            assert(name.contains(name[0]));
        }
    }
    let p = joined(base, name);
    if i >= base.len() {
        assert(p.subrange(i as int, p.len() as int) =~= name);
        assert forall|k: int| i <= k < p.len() implies p[k] != '/' by {
            assert(name.contains(name[k - i]));
        }
        lemma_segment_runs(p, i, p.len());
        assert(components_from(p, p.len() + 1) =~= Seq::empty());
        assert(components_from(base, i) =~= Seq::empty());
        assert(components_from(p, i) =~= components_from(base, i).push(
            ComponentView::Normal(name),
        ));
    } else {
        let end = segment_end(base, i);
        lemma_segment_end(base, i);
        lemma_segment_chars(base, i);
        assert(p.subrange(i as int, end as int) =~= base.subrange(i as int, end as int));
        assert forall|k: int| i <= k < end implies p[k] != '/' by {
            assert(p[k] == base[k]);
        }
        if end == base.len() {
            assert(base[end - 1] != '/');
            assert(p[end as int] == '/');
        } else {
            assert(p[end as int] == base[end as int]);
        }
        lemma_segment_runs(p, i, end);
        lemma_joined_from(base, name, end + 1);
        assert(components_from(p, i) =~= components_from(base, i).push(
            ComponentView::Normal(name),
        ));
    }
}

proof fn lemma_segment_chars(p: Seq<char>, i: nat)
    requires
        i <= p.len(),
    ensures
        forall|k: int| i <= k < segment_end(p, i) ==> p[k] != '/',
        segment_end(p, i) < p.len() ==> p[segment_end(p, i) as int] == '/',
    decreases p.len() - i,
{
    if i < p.len() && p[i as int] != '/' {
        lemma_segment_chars(p, i + 1);
    }
}

proof fn lemma_segment_runs(p: Seq<char>, i: nat, end: nat)
    requires
        i <= end <= p.len(),
        forall|k: int| i <= k < end ==> p[k] != '/',
        end < p.len() ==> p[end as int] == '/',
    ensures
        segment_end(p, i) == end,
    decreases end - i,
{
    if i < end {
        lemma_segment_runs(p, i + 1, end);
    }
}

/// `p` under `base`; an absolute `p` stands alone.
pub fn join(base: &str, p: &str) -> (r: String)
    ensures
        r@ == joined(base@, p@),
{
    if is_absolute(p) {
        return p.to_owned();
    }
    let n: usize = base.unicode_len();
    if n == 0 || base.get_char(n - 1) == '/' {
        concat2(base, p)
    } else {
        concat3(base, "/", p)
    }
}

/// Whether `p` starts at the root.
pub fn is_absolute(p: &str) -> (r: bool)
    ensures
        r == absolute(p@),
{
    crate::text::starts_with_char(p, '/')
}

/// Whether `a` and `b` are the same component.
pub fn same_component(a: &Component, b: &Component) -> (r: bool)
    ensures
        r == (a.deep_view() == b.deep_view()),
{
    match (a, b) {
        (Component::Root, Component::Root) => true,
        (Component::Cur, Component::Cur) => true,
        (Component::Parent, Component::Parent) => true,
        (Component::Normal(x), Component::Normal(y)) => str_eq(x.as_str(), y.as_str()),
        _ => false,
    }
}

/// Whether the components `p` start with `prefix`.
pub open spec fn under(p: Seq<ComponentView>, prefix: Seq<ComponentView>) -> bool {
    prefix.len() <= p.len() && p.take(prefix.len() as int) == prefix
}

/// Whether the components `p` start with `prefix`.
pub fn starts_with(p: &[Component], prefix: &[Component]) -> (r: bool)
    ensures
        r == under(views(p@), views(prefix@)),
{
    if prefix.len() > p.len() {
        return false;
    }
    let mut i: usize = 0;
    while i < prefix.len()
        invariant
            i <= prefix@.len() <= p@.len(),
            forall|j: int| 0 <= j < i ==> views(p@)[j] == views(prefix@)[j],
        decreases prefix@.len() - i,
    {
        if !same_component(&p[i], &prefix[i]) {
            assert(views(p@).take(prefix@.len() as int)[i as int] != views(prefix@)[i as int]);
            return false;
        }
        i += 1;
    }
    assert(views(p@).take(prefix@.len() as int) =~= views(prefix@));
    true
}

/// The views of `cs`.
pub open spec fn views(cs: Seq<Component>) -> Seq<ComponentView> {
    Seq::new(cs.len(), |i: int| cs[i].deep_view())
}

/// Whether the component lists are equal.
pub fn same_path(a: &[Component], b: &[Component]) -> (r: bool)
    ensures
        r == (views(a@) == views(b@)),
{
    if a.len() != b.len() {
        return false;
    }
    let r = starts_with(a, b);
    assert(views(a@).take(b@.len() as int) =~= views(a@));
    r
}

/// Whether one of the paths `list` is `p`.
pub open spec fn lists_path(list: Seq<Seq<char>>, p: Seq<char>) -> bool {
    exists|i: int| 0 <= i < list.len() && components_of(#[trigger] list[i]) == components_of(p)
}

/// Whether one of the paths `list` is `p`.
pub fn contains_path(list: &Vec<String>, p: &str) -> (r: bool)
    ensures
        r == lists_path(strs(list@), p@),
{
    let wanted = components(p);
    assert(views(wanted@) =~= wanted.deep_view());
    let ghost all = strs(list@);
    let mut i: usize = 0;
    while i < list.len()
        invariant
            i <= list@.len(),
            all == strs(list@),
            views(wanted@) == components_of(p@),
            forall|k: int| 0 <= k < i ==> components_of(#[trigger] all[k]) != components_of(p@),
        decreases list@.len() - i,
    {
        let have = components(list[i].as_str());
        assert(views(have@) =~= have.deep_view());
        assert(all[i as int] == list@[i as int]@);
        if same_path(&have, &wanted) {
            assert(components_of(all[i as int]) == components_of(p@));
            return true;
        }
        i += 1;
    }
    false
}

/// The first `n` components without `.` and `..`, each `..` taking away the
/// component before it. No file system is asked; a `..` with nothing to take
/// away stays.
pub open spec fn normalized(cs: Seq<ComponentView>, n: nat) -> Seq<ComponentView>
    decreases n,
{
    if n == 0 || n > cs.len() {
        Seq::empty()
    } else {
        let before = normalized(cs, (n - 1) as nat);
        match cs[n - 1] {
            ComponentView::Cur => before,
            ComponentView::Parent => if before.len() == 0 || before.last() is Root {
                before.push(ComponentView::Parent)
            } else {
                before.drop_last()
            },
            other => before.push(other),
        }
    }
}

/// The components of `p` without `.` and `..`.
pub open spec fn normalized_path(p: Seq<char>) -> Seq<ComponentView> {
    let cs = components_of(p);
    normalized(cs, cs.len())
}

fn is_root(c: &Component) -> (r: bool)
    ensures
        r == (c.deep_view() is Root),
{
    match c {
        Component::Root => true,
        _ => false,
    }
}

/// The components of `p` without `.` and `..`, so that a path compares equal to
/// the one that a walk yields.
pub fn normalize_lexically(p: &str) -> (r: Vec<Component>)
    ensures
        r.deep_view() == normalized_path(p@),
        views(r@) == normalized_path(p@),
{
    let cs = components(p);
    let ghost all = cs.deep_view();
    let mut out: Vec<Component> = Vec::new();
    assert(views(out@) =~= normalized(all, 0));
    let mut i: usize = 0;
    while i < cs.len()
        invariant
            i <= cs@.len(),
            all == cs.deep_view(),
            views(out@) == normalized(all, i as nat),
        decreases cs@.len() - i,
    {
        let ghost before = views(out@);
        match &cs[i] {
            Component::Cur => {},
            Component::Parent => {
                let n: usize = out.len();
                if n == 0 || is_root(&out[n - 1]) {
                    out.push(Component::Parent);
                    assert(views(out@) =~= before.push(ComponentView::Parent));
                } else {
                    let _ = out.pop();
                    assert(views(out@) =~= before.drop_last());
                }
            },
            Component::Root => {
                out.push(Component::Root);
                assert(views(out@) =~= before.push(ComponentView::Root));
            },
            Component::Normal(s) => {
                out.push(Component::Normal(s.clone()));
                assert(views(out@) =~= before.push(ComponentView::Normal(s@)));
            },
        }
        i += 1;
    }
    assert(out.deep_view() =~= views(out@));
    out
}

/// The extension of a file is what stands behind the last dot of its name, and its stem what stands
/// before; a name without a dot has no extension, nor has one that only starts with a dot.
pub proof fn law_extension_is_behind_the_last_dot(base: Seq<char>, stem: Seq<char>, ext: Seq<char>)
    requires
        !ext.contains('.'),
    ensures
        stem.len() > 0 && plain(stem + seq!['.'] + ext) ==> extension_of(
            joined(base, stem + seq!['.'] + ext),
        ) == Some(ext) && file_stem_of(joined(base, stem + seq!['.'] + ext)) == Some(stem)
            && file_name_of(joined(base, stem + seq!['.'] + ext)) == Some(stem + seq!['.'] + ext),
        plain(ext) ==> extension_of(joined(base, ext)) is None && file_stem_of(joined(base, ext))
            == Some(ext),
        plain(seq!['.'] + ext) ==> extension_of(joined(base, seq!['.'] + ext)) is None,
{
    let name = stem + seq!['.'] + ext;
    let hidden = seq!['.'] + ext;
    law_split_at_the_last(stem, '.', ext);
    law_split_at_the_last(Seq::empty(), '.', ext);
    assert(Seq::<char>::empty() + seq!['.'] + ext =~= hidden);
    lemma_last_index(name, '.', name.len());
    lemma_last_index(hidden, '.', hidden.len());
    lemma_last_index(ext, '.', ext.len());
    if plain(name) {
        law_join_adds_a_component(base, name);
        let i = last_index(name, '.', name.len())->0;
        assert(name.take(i as int) == stem);
        assert(i == stem.len());
    }
    if plain(ext) {
        law_join_adds_a_component(base, ext);
    }
    if plain(hidden) {
        law_join_adds_a_component(base, hidden);
        let i = last_index(hidden, '.', hidden.len())->0;
        assert(hidden.take(i as int) == Seq::<char>::empty());
        assert(hidden.take(i as int).len() == i);
    }
}

}
