//! The lexical scope of a walk over source code: which locals are bound where,
//! and which of them nothing used.

use vstd::prelude::*;
use crate::collect::{push_item, Copied};
use crate::lsp::Range;
use crate::text::{starts_with_char, str_eq};

verus! {

/// A local binding (a `let` name, a parameter, a destructured name, …) and where
/// the name that it binds stands.
#[derive(Clone, Debug, PartialEq, Eq)]
pub struct LocalBinding {
    pub name: String,
    pub name_range: Range,
}

/// What a [`LocalBinding`] says.
pub ghost struct BindingView {
    pub name: Seq<char>,
    pub name_range: Range,
}

impl DeepView for LocalBinding {
    type V = BindingView;

    open spec fn deep_view(&self) -> BindingView {
        BindingView { name: self.name@, name_range: self.name_range }
    }
}

impl Copied for LocalBinding {
    fn copied(&self) -> (r: Self) {
        LocalBinding { name: self.name.clone(), name_range: self.name_range }
    }
}

/// A binding in scope: whether it was used, and whether it is worth a report if
/// it never is. A name that the author cannot drop (a function's own name, a
/// record's fields, the parameters of a protocol method) is not.
#[derive(Debug)]
pub struct LocalSlot {
    pub name: String,
    pub name_range: Range,
    pub used: bool,
    pub lintable: bool,
}

/// What a [`LocalSlot`] says.
pub ghost struct SlotView {
    pub name: Seq<char>,
    pub name_range: Range,
    pub used: bool,
    pub lintable: bool,
}

impl DeepView for LocalSlot {
    type V = SlotView;

    open spec fn deep_view(&self) -> SlotView {
        SlotView {
            name: self.name@,
            name_range: self.name_range,
            used: self.used,
            lintable: self.lintable,
        }
    }
}

/// A stack of frames, innermost last, and the bindings found unused when their
/// frame was left.
#[derive(Debug)]
pub struct Scope {
    pub frames: Vec<Vec<LocalSlot>>,
    pub unused: Vec<LocalBinding>,
}

/// What a [`Scope`] says.
pub ghost struct ScopeView {
    pub frames: Seq<Seq<SlotView>>,
    pub unused: Seq<BindingView>,
}

impl View for Scope {
    type V = ScopeView;

    open spec fn view(&self) -> ScopeView {
        ScopeView { frames: self.frames.deep_view(), unused: self.unused.deep_view() }
    }
}

impl SlotView {
    /// Whether leaving the frame reports the binding. A leading `_` opts out.
    pub open spec fn reported(self) -> bool {
        self.lintable && !self.used && !(self.name.len() > 0 && self.name[0] == '_')
    }
}

/// The bindings to report among the first `n` of `frame`.
pub open spec fn harvest(frame: Seq<SlotView>, n: nat) -> Seq<BindingView>
    decreases n,
{
    if n == 0 || n > frame.len() {
        Seq::empty()
    } else {
        let before = harvest(frame, (n - 1) as nat);
        let slot = frame[n - 1];
        if slot.reported() {
            before.push(BindingView { name: slot.name, name_range: slot.name_range })
        } else {
            before
        }
    }
}

/// `bindings` as slots, none of them used yet.
pub open spec fn fresh_slots(bindings: Seq<BindingView>, lintable: bool) -> Seq<SlotView> {
    Seq::new(
        bindings.len(),
        |i: int|
            SlotView {
                name: bindings[i].name,
                name_range: bindings[i].name_range,
                used: false,
                lintable,
            },
    )
}

/// The newest of the first `n` slots of `frame` that binds `name`.
pub open spec fn slot_of(frame: Seq<SlotView>, name: Seq<char>, n: nat) -> Option<nat>
    decreases n,
{
    if n == 0 || n > frame.len() {
        None
    } else if frame[n - 1].name == name {
        Some((n - 1) as nat)
    } else {
        slot_of(frame, name, (n - 1) as nat)
    }
}

/// The innermost slot among the first `n` frames that binds `name`.
pub open spec fn innermost(frames: Seq<Seq<SlotView>>, name: Seq<char>, n: nat) -> Option<
    (nat, nat),
>
    decreases n,
{
    if n == 0 || n > frames.len() {
        None
    } else {
        match slot_of(frames[n - 1], name, frames[n - 1].len()) {
            Some(j) => Some(((n - 1) as nat, j)),
            None => innermost(frames, name, (n - 1) as nat),
        }
    }
}

impl ScopeView {
    /// No frame, nothing reported.
    pub open spec fn outside() -> ScopeView {
        ScopeView { frames: Seq::empty(), unused: Seq::empty() }
    }

    /// With a new, empty frame inside the others.
    pub open spec fn entered(self) -> ScopeView {
        ScopeView { frames: self.frames.push(Seq::empty()), ..self }
    }

    /// With the innermost frame left, and what it held unused reported.
    pub open spec fn left(self) -> ScopeView {
        if self.frames.len() == 0 {
            self
        } else {
            let frame = self.frames.last();
            ScopeView {
                frames: self.frames.drop_last(),
                unused: self.unused + harvest(frame, frame.len()),
            }
        }
    }

    /// With `bindings` in the innermost frame.
    pub open spec fn binding(self, bindings: Seq<BindingView>, lintable: bool) -> ScopeView {
        if self.frames.len() == 0 {
            self
        } else {
            ScopeView {
                frames: self.frames.drop_last().push(
                    self.frames.last() + fresh_slots(bindings, lintable),
                ),
                ..self
            }
        }
    }

    /// Whether some frame binds `name`.
    pub open spec fn binds(self, name: Seq<char>) -> bool {
        innermost(self.frames, name, self.frames.len()) is Some
    }

    /// With the innermost binding of `name` used.
    pub open spec fn using(self, name: Seq<char>) -> ScopeView {
        match innermost(self.frames, name, self.frames.len()) {
            Some((i, j)) => ScopeView {
                frames: self.frames.update(
                    i as int,
                    self.frames[i as int].update(
                        j as int,
                        SlotView { used: true, ..self.frames[i as int][j as int] },
                    ),
                ),
                ..self
            },
            None => self,
        }
    }
}

pub proof fn lemma_slot_of(frame: Seq<SlotView>, name: Seq<char>, n: nat)
    requires
        n <= frame.len(),
    ensures
        slot_of(frame, name, n) matches Some(j) ==> j < n && frame[j as int].name == name,
    decreases n,
{
    if n > 0 && frame[n - 1].name != name {
        lemma_slot_of(frame, name, (n - 1) as nat);
    }
}

pub proof fn lemma_innermost(frames: Seq<Seq<SlotView>>, name: Seq<char>, n: nat)
    requires
        n <= frames.len(),
    ensures
        innermost(frames, name, n) matches Some((i, j)) ==> i < n && j < frames[i as int].len()
            && frames[i as int][j as int].name == name,
    decreases n,
{
    if n > 0 {
        lemma_slot_of(frames[n - 1], name, frames[n - 1].len());
        if slot_of(frames[n - 1], name, frames[n - 1].len()) is None {
            lemma_innermost(frames, name, (n - 1) as nat);
        }
    }
}

impl Scope {
    /// No frame, nothing reported.
    pub fn new() -> (r: Self)
        ensures
            r@ == ScopeView::outside(),
    {
        let r = Scope { frames: Vec::new(), unused: Vec::new() };
        assert(r@.frames =~= Seq::empty());
        assert(r@.unused =~= Seq::empty());
        r
    }

    /// Enters a frame.
    pub fn push(&mut self)
        ensures
            final(self)@ == old(self)@.entered(),
    {
        let frame: Vec<LocalSlot> = Vec::new();
        assert(frame.deep_view() =~= Seq::empty());
        push_item(&mut self.frames, frame);
    }

    /// Leaves the innermost frame, and reports each of its bindings that is worth
    /// a report and was never used.
    pub fn pop(&mut self)
        ensures
            final(self)@ == old(self)@.left(),
    {
        let ghost before = self@;
        let frame = match self.frames.pop() {
            Some(frame) => frame,
            None => {
                return;
            },
        };
        let ghost slots = frame.deep_view();
        assert(slots == before.frames.last());
        assert(self.frames.deep_view() =~= before.frames.drop_last());
        let mut i: usize = 0;
        assert(before.unused + harvest(slots, 0) =~= before.unused);
        while i < frame.len()
            invariant
                i <= frame@.len(),
                slots == frame.deep_view(),
                self.frames.deep_view() == before.frames.drop_last(),
                self.unused.deep_view() == before.unused + harvest(slots, i as nat),
            decreases frame@.len() - i,
        {
            let slot = &frame[i];
            assert(slots[i as int] == slot.deep_view());
            if slot.lintable && !slot.used && !starts_with_char(slot.name.as_str(), '_') {
                let b = LocalBinding { name: slot.name.clone(), name_range: slot.name_range };
                push_item(&mut self.unused, b);
                assert(self.unused.deep_view() =~= before.unused + harvest(slots, (i + 1) as nat));
            }
            i += 1;
        }
    }

    /// Adds `bindings` to the innermost frame. Binding sites are collected before
    /// their frame is entered (a default is walked in the scope around it), so
    /// this is a step of its own.
    pub fn bind_all(&mut self, bindings: Vec<LocalBinding>, lintable: bool)
        ensures
            final(self)@ == old(self)@.binding(bindings.deep_view(), lintable),
    {
        let ghost before = self@;
        let mut frame = match self.frames.pop() {
            Some(frame) => frame,
            None => {
                return;
            },
        };
        let ghost held = frame.deep_view();
        let ghost fresh = fresh_slots(bindings.deep_view(), lintable);
        assert(held == before.frames.last());
        assert(self.frames.deep_view() =~= before.frames.drop_last());
        let mut i: usize = 0;
        assert(held + fresh.take(0) =~= held);
        while i < bindings.len()
            invariant
                i <= bindings@.len(),
                fresh == fresh_slots(bindings.deep_view(), lintable),
                frame.deep_view() == held + fresh.take(i as int),
            decreases bindings@.len() - i,
        {
            let b = &bindings[i];
            let slot = LocalSlot {
                name: b.name.clone(),
                name_range: b.name_range,
                used: false,
                lintable,
            };
            push_item(&mut frame, slot);
            assert(slot.deep_view() == fresh[i as int]);
            assert(frame.deep_view() =~= held + fresh.take(i as int + 1));
            i += 1;
        }
        assert(fresh.take(bindings@.len() as int) =~= fresh);
        push_item(&mut self.frames, frame);
    }

    /// Marks the innermost binding of `name` used, and says whether there is one,
    /// that is, whether the symbol is a local and no var. The newest slot of a
    /// frame comes first, so `(let [x 1 x (inc x)] x)` marks both.
    pub fn mark_used(&mut self, name: &str) -> (r: bool)
        ensures
            r == old(self)@.binds(name@),
            final(self)@ == old(self)@.using(name@),
    {
        let ghost before = self@;
        let mut n: usize = self.frames.len();
        while n > 0
            invariant
                n <= self.frames@.len(),
                self@ == before,
                before == old(self)@,
                innermost(before.frames, name@, before.frames.len()) == innermost(
                    before.frames,
                    name@,
                    n as nat,
                ),
            decreases n,
        {
            let ghost frame = before.frames[n - 1];
            let mut m: usize = self.frames[n - 1].len();
            while m > 0
                invariant
                    0 < n <= self.frames@.len(),
                    self@ == before,
                    before == old(self)@,
                    frame == before.frames[n - 1],
                    m <= frame.len() == self.frames@[n - 1]@.len(),
                    innermost(before.frames, name@, before.frames.len()) == innermost(
                        before.frames,
                        name@,
                        n as nat,
                    ),
                    slot_of(frame, name@, frame.len()) == slot_of(frame, name@, m as nat),
                decreases m,
            {
                assert(frame[m - 1] == self.frames@[n - 1]@[m - 1].deep_view());
                if str_eq(self.frames[n - 1][m - 1].name.as_str(), name) {
                    self.frames[n - 1][m - 1].used = true;
                    assert(self.frames.deep_view()[n - 1] =~= frame.update(
                        m - 1,
                        SlotView { used: true, ..frame[m - 1] },
                    ));
                    assert(self.frames.deep_view() =~= before.using(name@).frames);
                    return true;
                }
                m -= 1;
            }
            n -= 1;
        }
        false
    }
}

proof fn lemma_slot_is_last(frame: Seq<SlotView>, name: Seq<char>, n: nat)
    requires
        n <= frame.len(),
    ensures
        match slot_of(frame, name, n) {
            Some(j) => j < n && frame[j as int].name == name && forall|k: int|
                j < k < n ==> (#[trigger] frame[k]).name != name,
            None => forall|k: int| 0 <= k < n ==> (#[trigger] frame[k]).name != name,
        },
    decreases n,
{
    if n > 0 && frame[n - 1].name != name {
        lemma_slot_is_last(frame, name, (n - 1) as nat);
    }
}

/// Whether the binding at `j` of the frame at `i` is of that name, with no later one of the name in
/// its frame and none in a frame further in.
pub open spec fn stands_innermost(frames: Seq<Seq<SlotView>>, name: Seq<char>, i: int, j: int) -> bool {
    &&& 0 <= i < frames.len()
    &&& 0 <= j < frames[i].len()
    &&& frames[i][j].name == name
    &&& forall|k: int| j < k < frames[i].len() ==> (#[trigger] frames[i][k]).name != name
    &&& forall|h: int, k: int|
        i < h < frames.len() && 0 <= k < frames[h].len() ==> (#[trigger] frames[h][k]).name != name
}

proof fn lemma_innermost_stands(frames: Seq<Seq<SlotView>>, name: Seq<char>, n: nat)
    requires
        n <= frames.len(),
    ensures
        match innermost(frames, name, n) {
            Some((i, j)) => i < n && stands_innermost(frames.take(n as int), name, i as int, j as int),
            None => forall|h: int, k: int|
                0 <= h < n && 0 <= k < frames[h].len() ==> (#[trigger] frames[h][k]).name != name,
        },
    decreases n,
{
    if n > 0 {
        lemma_slot_is_last(frames[n - 1], name, frames[n - 1].len());
        if slot_of(frames[n - 1], name, frames[n - 1].len()) is None {
            lemma_innermost_stands(frames, name, (n - 1) as nat);
            if let Some((i, j)) = innermost(frames, name, n) {
                let now = frames.take(n as int);
                let before = frames.take(n - 1);
                assert(now[i as int] == before[i as int]);
                assert forall|h: int, k: int|
                    i < h < now.len() && 0 <= k < now[h].len() implies (#[trigger] now[h][k]).name
                    != name by {
                    if h < n - 1 {
                        assert(now[h] == before[h]);
                        assert(before[h][k].name != name);
                    } else {
                        assert(frames[n - 1][k].name != name);
                    }
                }
            }
        }
    }
}

/// A use counts for the innermost binding of the name and for no other: outside every scope that
/// binds the name it counts for none.
pub proof fn law_use_counts_for_the_innermost_binding(s: ScopeView, name: Seq<char>)
    ensures
        s.binds(name) <==> exists|i: int, j: int|
            0 <= i < s.frames.len() && 0 <= j < s.frames[i].len() && (#[trigger] s.frames[i][j]).name
                == name,
        s.using(name).unused == s.unused,
        s.using(name).frames.len() == s.frames.len(),
        forall|i: int|
            0 <= i < s.frames.len() ==> (#[trigger] s.using(name).frames[i]).len()
                == s.frames[i].len(),
        forall|i: int, j: int|
            0 <= i < s.frames.len() && 0 <= j < s.frames[i].len() ==> {
                &&& (#[trigger] s.using(name).frames[i][j]).name == s.frames[i][j].name
                &&& s.using(name).frames[i][j].name_range == s.frames[i][j].name_range
                &&& s.using(name).frames[i][j].lintable == s.frames[i][j].lintable
                &&& s.using(name).frames[i][j].used <==> s.frames[i][j].used || stands_innermost(
                    s.frames,
                    name,
                    i,
                    j,
                )
            },
{
    lemma_innermost_stands(s.frames, name, s.frames.len());
    assert(s.frames.take(s.frames.len() as int) =~= s.frames);
    if let Some((a, b)) = innermost(s.frames, name, s.frames.len()) {
        assert(s.frames[a as int][b as int].name == name);
        assert forall|i: int, j: int|
            #[trigger] stands_innermost(s.frames, name, i, j) implies i == a && j == b by {
            assert(s.frames[i][j].name == name);
        }
        assert forall|i: int, j: int|
            0 <= i < s.frames.len() && 0 <= j < s.frames[i].len() implies (
        #[trigger] s.using(name).frames[i][j]).used == (s.frames[i][j].used || stands_innermost(
            s.frames,
            name,
            i,
            j,
        )) by {
            if i == a && j == b {
                assert(stands_innermost(s.frames, name, i, j));
            }
        }
    } else {
        assert forall|i: int, j: int| !(#[trigger] stands_innermost(s.frames, name, i, j)) by {
            if stands_innermost(s.frames, name, i, j) {
                assert(s.frames[i][j].name == name);
            }
        }
    }
}

proof fn lemma_harvest(frame: Seq<SlotView>, n: nat, b: BindingView)
    requires
        n <= frame.len(),
    ensures
        harvest(frame, n).contains(b) <==> exists|j: int|
            0 <= j < n && (#[trigger] frame[j]).name == b.name && frame[j].name_range == b.name_range
                && frame[j].lintable && !frame[j].used && !(b.name.len() > 0 && b.name[0] == '_'),
    decreases n,
{
    if n > 0 {
        let before = harvest(frame, (n - 1) as nat);
        lemma_harvest(frame, (n - 1) as nat, b);
        let slot = frame[n - 1];
        crate::sort::lemma_push_contains(
            before,
            BindingView { name: slot.name, name_range: slot.name_range },
            b,
        );
    } else {
        assert(harvest(frame, n) =~= Seq::empty());
    }
}

/// Leaving a scope reports the bindings of it that nothing used, but for those whose name starts
/// with an underscore and those that no one is asked to use; what was reported before stays.
pub proof fn law_leaving_reports_what_was_not_used(s: ScopeView, b: BindingView)
    requires
        s.frames.len() > 0,
    ensures
        s.left().frames == s.frames.drop_last(),
        s.left().unused.contains(b) <==> {
            ||| s.unused.contains(b)
            ||| exists|j: int|
                0 <= j < s.frames.last().len() && (#[trigger] s.frames.last()[j]).name == b.name
                    && s.frames.last()[j].name_range == b.name_range && s.frames.last()[j].lintable
                    && !s.frames.last()[j].used && !(b.name.len() > 0 && b.name[0] == '_')
        },
{
    let frame = s.frames.last();
    lemma_harvest(frame, frame.len(), b);
    let more = harvest(frame, frame.len());
    crate::handlers::references::lemma_concat_contains(s.unused, more, b);
}

/// A scope that is entered, bound in and left again leaves the scopes around it as they were.
pub proof fn law_inner_scope_leaves_the_outer_alone(
    s: ScopeView,
    bindings: Seq<BindingView>,
    lintable: bool,
)
    ensures
        s.entered().binding(bindings, lintable).frames.len() == s.frames.len() + 1,
        s.entered().binding(bindings, lintable).left().frames == s.frames,
        forall|i: int|
            0 <= i < bindings.len() ==> s.entered().binding(bindings, lintable).binds(
                (#[trigger] bindings[i]).name,
            ),
{
    let inner = s.entered().binding(bindings, lintable);
    assert(inner.frames.drop_last() =~= s.frames);
    assert forall|i: int| 0 <= i < bindings.len() implies inner.binds(
        (#[trigger] bindings[i]).name,
    ) by {
        law_use_counts_for_the_innermost_binding(inner, bindings[i].name);
        assert(inner.frames[s.frames.len() as int][i].name == bindings[i].name);
    }
}

}
