//! Growing a selection: the forms around a position, from the inside out.

use vstd::prelude::*;
use crate::document::DocumentStore;
use crate::lsp::{Position, Range};
use crate::syntax::{lemma_children, Form, FormView, Kind};

verus! {

broadcast use lemma_children;

/// Whether a form is one token, at whose end a cursor still is on it.
pub open spec fn is_token(f: FormView) -> bool {
    f.children.len() == 0 || f.kind == Kind::SymLit || f.kind == Kind::KwdLit || f.kind
        == Kind::NumLit || f.kind == Kind::StrLit || f.kind == Kind::CharLit || f.kind
        == Kind::RegexLit
}

/// Whether a position is in a form. Behind the bracket that closes a form it is no more.
pub open spec fn encloses(f: FormView, pos: Position) -> bool {
    f.range.holds(pos) && (is_token(f) || pos != f.range.end)
}

fn does_enclose(f: &Form, pos: Position) -> (r: bool)
    ensures
        r == encloses(f@, pos),
{
    f.range.contains(pos) && (f.children.len() == 0 || f.kind == Kind::SymLit || f.kind
        == Kind::KwdLit || f.kind == Kind::NumLit || f.kind == Kind::StrLit || f.kind
        == Kind::CharLit || f.kind == Kind::RegexLit || pos != f.range.end)
}

/// Whether `child` is no form of its own but a piece of the token `f`: the namespace or
/// the name of a symbol or keyword.
pub open spec fn is_piece(f: FormView, child: FormView) -> bool {
    (f.kind == Kind::SymLit || f.kind == Kind::KwdLit) && child.kind == Kind::Other
}

/// The first child from `i` on, pieces of a token aside, that the position is in.
pub open spec fn child_at(f: FormView, pos: Position, i: nat) -> Option<nat>
    decreases f.children.len() - i,
{
    if i >= f.children.len() {
        None
    } else if encloses(f.children[i as int], pos) && !is_piece(f, f.children[i as int]) {
        Some(i)
    } else {
        child_at(f, pos, i + 1)
    }
}

proof fn lemma_child_at(f: FormView, pos: Position, i: nat)
    ensures
        child_at(f, pos, i) matches Some(j) ==> i <= j < f.children.len() && encloses(
            f.children[j as int],
            pos,
        ),
    decreases f.children.len() - i,
{
    if i < f.children.len() && !(encloses(f.children[i as int], pos) && !is_piece(
        f,
        f.children[i as int],
    )) {
        lemma_child_at(f, pos, i + 1);
    }
}

/// The name of a symbol or keyword, where the position is in it.
pub open spec fn name_step(f: FormView, pos: Position) -> Seq<Range> {
    if f.kind == Kind::SymLit || f.kind == Kind::KwdLit {
        match f.name {
            Some(name) => if name.range.holds(pos) {
                seq![name.range]
            } else {
                seq![]
            },
            None => seq![],
        }
    } else {
        seq![]
    }
}

/// The ranges below a form at a position, from the inside out. The innermost token starts
/// with its name.
pub open spec fn below(f: FormView, pos: Position) -> Seq<Range>
    decreases f,
    via below_decreases
{
    match child_at(f, pos, 0) {
        Some(i) => {
            let child = f.children[i as int];
            (if child_at(child, pos, 0) is None {
                name_step(child, pos)
            } else {
                below(child, pos)
            }) + seq![child.range]
        },
        None => seq![],
    }
}

#[via_fn]
proof fn below_decreases(f: FormView, pos: Position) {
    lemma_child_at(f, pos, 0);
}

/// `s` without the entries that repeat the one before them.
pub open spec fn without_repeats(s: Seq<Range>, n: nat) -> Seq<Range>
    decreases n,
{
    if n == 0 {
        seq![]
    } else {
        let before = without_repeats(s, (n - 1) as nat);
        if before.len() > 0 && before.last() == s[n - 1] {
            before
        } else {
            before.push(s[n - 1])
        }
    }
}

/// The steps by which a selection grows at a position, from the inside out. Between
/// top-level forms it is the empty range there.
pub open spec fn steps_at(root: FormView, pos: Position) -> Seq<Range> {
    let around = below(root, pos);
    if around.len() == 0 {
        seq![Range { start: pos, end: pos }]
    } else {
        without_repeats(around, around.len())
    }
}

fn find_child(f: &Form, pos: Position) -> (r: Option<usize>)
    ensures
        match r {
            Some(i) => child_at(f@, pos, 0) == Some(i as nat) && i < f@.children.len(),
            None => child_at(f@, pos, 0) is None,
        },
{
    let mut i: usize = 0;
    while i < f.children.len()
        invariant
            i <= f.children@.len(),
            child_at(f@, pos, 0) == child_at(f@, pos, i as nat),
        decreases f.children@.len() - i,
    {
        assert(f@.children[i as int] == f.children@[i as int]@);
        let piece = (f.kind == Kind::SymLit || f.kind == Kind::KwdLit) && f.children[i].kind
            == Kind::Other;
        if does_enclose(&f.children[i], pos) && !piece {
            return Some(i);
        }
        i += 1;
    }
    None
}

fn collect_below(f: &Form, pos: Position, out: &mut Vec<Range>)
    ensures
        final(out)@ == old(out)@ + below(f@, pos),
    decreases f@,
{
    let ghost before = out@;
    match find_child(f, pos) {
        Some(i) => {
            let child = &f.children[i];
            assert(f@.children[i as int] == child@);
            if find_child(child, pos).is_none() {
                if child.kind == Kind::SymLit || child.kind == Kind::KwdLit {
                    if let Some(name) = &child.name {
                        if name.range.contains(pos) {
                            out.push(name.range);
                        }
                    }
                }
                assert(out@ =~= before + name_step(child@, pos));
            } else {
                assert(decreases_to!(f@ => f@.children[i as int]));
                collect_below(child, pos, out);
            }
            out.push(child.range);
            assert(out@ =~= before + below(f@, pos));
        },
        None => {
            assert(before + below(f@, pos) =~= before);
        },
    }
}

/// The steps by which a selection grows at a position, from the inside out.
pub fn chain_at(root: &Form, pos: Position) -> (r: Vec<Range>)
    ensures
        r@ == steps_at(root@, pos),
        r@.len() > 0,
{
    let mut around: Vec<Range> = Vec::new();
    collect_below(root, pos, &mut around);
    let ghost all = below(root@, pos);
    assert(around@ =~= all);
    let mut out: Vec<Range> = Vec::new();
    if around.len() == 0 {
        out.push(Range::new(pos, pos));
        assert(out@ =~= steps_at(root@, pos));
        return out;
    }
    let mut i: usize = 0;
    while i < around.len()
        invariant
            i <= around@.len(),
            all == around@,
            out@ == without_repeats(all, i as nat),
            i > 0 ==> out@.len() > 0,
        decreases around@.len() - i,
    {
        let n: usize = out.len();
        if n == 0 || out[n - 1] != around[i] {
            out.push(around[i]);
        }
        i += 1;
    }
    out
}

/// The steps at each of the positions of an open document, in the order of the positions.
pub fn selection_ranges(documents: &DocumentStore, uri: &str, positions: &Vec<Position>) -> (r:
    Option<Vec<Vec<Range>>>)
    ensures
        match r {
            Some(chains) => documents@.tree(uri@) is Some && chains@.len() == positions@.len()
                && forall|i: int|
                0 <= i < chains@.len() ==> (#[trigger] chains@[i])@ == steps_at(
                    documents@.tree(uri@)->0,
                    positions@[i],
                ),
            None => documents@.tree(uri@) is None,
        },
{
    let snapshot = match documents.snapshot(uri) {
        Some(snapshot) => snapshot,
        None => return None,
    };
    let ghost root = snapshot.tree@;
    let mut out: Vec<Vec<Range>> = Vec::new();
    let mut i: usize = 0;
    while i < positions.len()
        invariant
            i <= positions@.len(),
            root == snapshot.tree@,
            out@.len() == i,
            forall|j: int|
                0 <= j < i ==> (#[trigger] out@[j])@ == steps_at(root, positions@[j]),
        decreases positions@.len() - i,
    {
        out.push(chain_at(&snapshot.tree, positions[i]));
        i += 1;
    }
    Some(out)
}

/// Every step holds the position.
pub proof fn law_steps_hold_the_position(root: FormView, pos: Position, i: int)
    requires
        0 <= i < steps_at(root, pos).len(),
    ensures
        steps_at(root, pos)[i].holds(pos),
{
    let around = below(root, pos);
    lemma_below_holds(root, pos);
    if around.len() > 0 {
        lemma_without_repeats(around, around.len(), pos);
    }
}

proof fn lemma_below_holds(f: FormView, pos: Position)
    ensures
        forall|i: int| 0 <= i < below(f, pos).len() ==> (#[trigger] below(f, pos)[i]).holds(pos),
    decreases f,
{
    lemma_child_at(f, pos, 0);
    match child_at(f, pos, 0) {
        Some(i) => {
            let child = f.children[i as int];
            assert(decreases_to!(f => f.children[i as int]));
            lemma_below_holds(child, pos);
            let inner = if child_at(child, pos, 0) is None {
                name_step(child, pos)
            } else {
                below(child, pos)
            };
            assert(below(f, pos) == inner + seq![child.range]);
            assert forall|j: int| 0 <= j < below(f, pos).len() implies (#[trigger] below(
                f,
                pos,
            )[j]).holds(pos) by {
                if j < inner.len() {
                    assert(below(f, pos)[j] == inner[j]);
                }
            }
        },
        None => {},
    }
}

proof fn lemma_without_repeats(s: Seq<Range>, n: nat, pos: Position)
    requires
        n <= s.len(),
        forall|i: int| 0 <= i < s.len() ==> (#[trigger] s[i]).holds(pos),
    ensures
        forall|i: int|
            0 <= i < without_repeats(s, n).len() ==> (#[trigger] without_repeats(s, n)[i]).holds(
                pos,
            ),
    decreases n,
{
    if n > 0 {
        lemma_without_repeats(s, (n - 1) as nat, pos);
        let before = without_repeats(s, (n - 1) as nat);
        let after = without_repeats(s, n);
        assert forall|i: int| 0 <= i < after.len() implies (#[trigger] after[i]).holds(pos) by {
            if i < before.len() {
                assert(after[i] == before[i]);
            } else {
                assert(after[i] == s[n - 1]);
            }
        }
    }
}

/// Whether a position is in the child at `i` of a form, and in none before it. The characters that
/// a symbol or keyword is made of do not count.
pub open spec fn leads_into(f: FormView, i: int, pos: Position) -> bool {
    &&& 0 <= i < f.children.len()
    &&& encloses(f.children[i], pos) && !is_piece(f, f.children[i])
    &&& forall|j: int|
        0 <= j < i ==> !(encloses(#[trigger] f.children[j], pos) && !is_piece(f, f.children[j]))
}

proof fn lemma_leads_into(f: FormView, pos: Position, from: nat)
    requires
        from <= f.children.len(),
        forall|j: int|
            0 <= j < from ==> !(encloses(#[trigger] f.children[j], pos) && !is_piece(
                f,
                f.children[j],
            )),
    ensures
        match child_at(f, pos, from) {
            Some(i) => leads_into(f, i as int, pos),
            None => forall|j: int| !(#[trigger] leads_into(f, j, pos)),
        },
    decreases f.children.len() - from,
{
    if from < f.children.len() && !(encloses(f.children[from as int], pos) && !is_piece(
        f,
        f.children[from as int],
    )) {
        lemma_leads_into(f, pos, from + 1);
    }
}

/// Whether the range is that of the form that the path leads to, always into the child that the
/// position is in; or of the name of that form, where the path goes no further.
pub open spec fn step_stands(f: FormView, path: Seq<int>, pos: Position, r: Range) -> bool
    decreases path.len(),
{
    if path.len() == 0 {
        ||| r == f.range
        ||| {
            &&& forall|j: int| !(#[trigger] leads_into(f, j, pos))
            &&& f.kind == Kind::SymLit || f.kind == Kind::KwdLit
            &&& f.name matches Some(name) && name.range == r && r.holds(pos)
        }
    } else {
        leads_into(f, path[0], pos) && step_stands(f.children[path[0]], path.drop_first(), pos, r)
    }
}

proof fn lemma_below_stands(f: FormView, pos: Position, r: Range)
    ensures
        below(f, pos).contains(r) <==> exists|path: Seq<int>|
            path.len() > 0 && #[trigger] step_stands(f, path, pos, r),
    decreases f,
{
    lemma_leads_into(f, pos, 0);
    match child_at(f, pos, 0) {
        Some(n) => {
            let i = n as int;
            let child = f.children[i];
            assert(decreases_to!(f => f.children[i]));
            lemma_below_stands(child, pos, r);
            lemma_leads_into(child, pos, 0);
            let inner = if child_at(child, pos, 0) is None {
                name_step(child, pos)
            } else {
                below(child, pos)
            };
            crate::sort::lemma_push_contains(inner, child.range, r);
            assert(below(f, pos) =~= inner.push(child.range));
            assert forall|j: int| #[trigger] leads_into(f, j, pos) implies j == i by {
                if j < i {
                    assert(encloses(f.children[j], pos));
                }
            }
            let here = seq![i];
            assert(here.drop_first() =~= Seq::empty());
            if r == child.range || name_step(child, pos).contains(r) && child_at(child, pos, 0)
                is None {
                if r != child.range {
                    assert(name_step(child, pos)[name_step(child, pos).index_of(r)] == r);
                    assert(name_step(child, pos).len() == 1);
                    assert(child.name->0.range == r);
                }
                assert(step_stands(child, here.drop_first(), pos, r));
                assert(step_stands(f, here, pos, r));
            }
            if below(child, pos).contains(r) && child_at(child, pos, 0) is Some {
                let rest = choose|path: Seq<int>|
                    path.len() > 0 && #[trigger] step_stands(child, path, pos, r);
                assert((here + rest).drop_first() =~= rest);
                assert(step_stands(f, here + rest, pos, r));
            }
            if exists|path: Seq<int>| path.len() > 0 && #[trigger] step_stands(f, path, pos, r) {
                let path = choose|path: Seq<int>|
                    path.len() > 0 && #[trigger] step_stands(f, path, pos, r);
                let rest = path.drop_first();
                assert(path[0] == i);
                assert(step_stands(child, rest, pos, r));
                if rest.len() == 0 {
                    if r != child.range {
                        if child_at(child, pos, 0) is Some {
                            assert(leads_into(child, child_at(child, pos, 0)->0 as int, pos));
                        }
                        assert(name_step(child, pos)[0] == r);
                    }
                } else {
                    assert(leads_into(child, rest[0], pos));
                }
            }
        },
        None => {
            assert(below(f, pos) =~= Seq::empty());
        },
    }
}

proof fn lemma_repeats_kept(s: Seq<Range>, n: nat, r: Range)
    requires
        n <= s.len(),
    ensures
        without_repeats(s, n).contains(r) <==> exists|i: int| 0 <= i < n && #[trigger] s[i] == r,
    decreases n,
{
    if n > 0 {
        let before = without_repeats(s, (n - 1) as nat);
        lemma_repeats_kept(s, (n - 1) as nat, r);
        crate::sort::lemma_push_contains(before, s[n - 1], r);
        if before.len() > 0 && before.last() == s[n - 1] {
            assert(before.contains(before.last()));
        }
        assert(s[n - 1] == s[n - 1]);
        if exists|i: int| 0 <= i < n - 1 && #[trigger] s[i] == r {
            let i = choose|i: int| 0 <= i < n - 1 && #[trigger] s[i] == r;
            assert(s[i] == r);
        }
    } else {
        assert(without_repeats(s, n) =~= seq![]);
    }
}

/// A selection grows through every form that the position is in, and starts with the name of the
/// innermost where it is on one; outside every form it is empty.
pub proof fn law_selection_grows_through_every_form(root: FormView, pos: Position, r: Range)
    ensures
        (exists|i: int| #[trigger] leads_into(root, i, pos)) ==> (steps_at(root, pos).contains(r)
            <==> exists|path: Seq<int>|
            path.len() > 0 && #[trigger] step_stands(root, path, pos, r)),
        !(exists|i: int| #[trigger] leads_into(root, i, pos)) ==> steps_at(root, pos) == seq![
            Range { start: pos, end: pos },
        ],
{
    let around = below(root, pos);
    lemma_leads_into(root, pos, 0);
    if child_at(root, pos, 0) is Some {
        lemma_below_stands(root, pos, r);
        assert(around.len() > 0);
        lemma_repeats_kept(around, around.len(), r);
        if around.contains(r) {
            assert(around[around.index_of(r)] == r);
        }
    }
}

/// Whether no form in a form reaches beyond it, nor its name.
pub open spec fn well_nested(f: FormView) -> bool
    decreases f,
{
    &&& f.name matches Some(name) ==> within(name.range, f.range)
    &&& forall|i: int|
        0 <= i < f.children.len() ==> within((#[trigger] f.children[i]).range, f.range)
            && well_nested(f.children[i])
}

/// Whether a range lies in another.
pub open spec fn within(a: Range, b: Range) -> bool {
    b.start.at_or_before(a.start) && a.end.at_or_before(b.end)
}

proof fn lemma_below_grows(f: FormView, pos: Position)
    requires
        well_nested(f),
    ensures
        forall|i: int, j: int|
            0 <= i <= j < below(f, pos).len() ==> within(
                #[trigger] below(f, pos)[i],
                #[trigger] below(f, pos)[j],
            ),
        forall|i: int|
            0 <= i < below(f, pos).len() ==> within(#[trigger] below(f, pos)[i], f.range),
    decreases f,
{
    lemma_leads_into(f, pos, 0);
    if let Some(n) = child_at(f, pos, 0) {
        let child = f.children[n as int];
        assert(decreases_to!(f => f.children[n as int]));
        assert(well_nested(child) && within(child.range, f.range));
        lemma_below_grows(child, pos);
        let inner = if child_at(child, pos, 0) is None {
            name_step(child, pos)
        } else {
            below(child, pos)
        };
        let all = below(f, pos);
        assert(all == inner + seq![child.range]);
        assert forall|i: int| 0 <= i < all.len() implies within(#[trigger] all[i], child.range) by {
            if i < inner.len() {
                assert(all[i] == inner[i]);
            }
        }
        assert forall|i: int, j: int| 0 <= i <= j < all.len() implies within(
            #[trigger] all[i],
            #[trigger] all[j],
        ) by {
            if j < inner.len() {
                assert(all[i] == inner[i] && all[j] == inner[j]);
            }
        }
    }
}

proof fn lemma_repeats_grow(s: Seq<Range>, n: nat)
    requires
        n <= s.len(),
        forall|i: int, j: int|
            0 <= i <= j < s.len() ==> within(#[trigger] s[i], #[trigger] s[j]),
    ensures
        forall|i: int|
            0 <= i < without_repeats(s, n).len() ==> exists|k: int|
                0 <= k < n && s[k] == #[trigger] without_repeats(s, n)[i],
        forall|i: int, j: int|
            0 <= i < j < without_repeats(s, n).len() ==> within(
                #[trigger] without_repeats(s, n)[i],
                #[trigger] without_repeats(s, n)[j],
            ),
    decreases n,
{
    if n > 0 {
        lemma_repeats_grow(s, (n - 1) as nat);
        let before = without_repeats(s, (n - 1) as nat);
        let after = without_repeats(s, n);
        assert forall|i: int| 0 <= i < after.len() implies exists|k: int|
            0 <= k < n && s[k] == #[trigger] after[i] by {
            if i < before.len() {
                assert(after[i] == before[i]);
                let k = choose|k: int| 0 <= k < n - 1 && s[k] == before[i];
                assert(s[k] == after[i]);
            } else {
                assert(s[n - 1] == after[i]);
            }
        }
        assert forall|i: int, j: int| 0 <= i < j < after.len() implies within(
            #[trigger] after[i],
            #[trigger] after[j],
        ) by {
            assert(after[i] == before[i]);
            if j < before.len() {
                assert(after[j] == before[j]);
            } else {
                let k = choose|k: int| 0 <= k < n - 1 && s[k] == before[i];
                assert(within(s[k], s[n - 1]));
            }
        }
    }
}

/// Each step of a selection lies in every later one.
pub proof fn law_selection_only_grows(root: FormView, pos: Position, i: int, j: int)
    requires
        well_nested(root),
        0 <= i < j < steps_at(root, pos).len(),
    ensures
        within(steps_at(root, pos)[i], steps_at(root, pos)[j]),
{
    let around = below(root, pos);
    lemma_below_grows(root, pos);
    lemma_repeats_grow(around, around.len());
}

}
