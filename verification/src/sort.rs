//! Sorting what a search has found.

use vstd::prelude::*;
use vstd::relations::{sorted_by, total_ordering};
use vstd::seq_lib::{lemma_multiset_commutative, lemma_sorted_unique};
use crate::collect::Copied;
use crate::text::chars_of;

verus! {

/// Whether `a` comes before `b` in a dictionary, or is `b`.
pub open spec fn text_le(a: Seq<char>, b: Seq<char>) -> bool
    decreases a.len(),
{
    if a.len() == 0 {
        true
    } else if b.len() == 0 {
        false
    } else if a[0] != b[0] {
        a[0] < b[0]
    } else {
        text_le(a.drop_first(), b.drop_first())
    }
}

proof fn lemma_text_total(a: Seq<char>, b: Seq<char>)
    ensures
        text_le(a, a),
        text_le(a, b) || text_le(b, a),
        text_le(a, b) && text_le(b, a) ==> a == b,
    decreases a.len(),
{
    if a.len() > 0 {
        lemma_text_total(a.drop_first(), b.drop_first());
        if b.len() > 0 && text_le(a, b) && text_le(b, a) {
            assert(a =~= seq![a[0]] + a.drop_first());
            assert(b =~= seq![b[0]] + b.drop_first());
        }
    } else if text_le(b, a) {
        assert(a =~= b);
    }
}

proof fn lemma_text_transitive(a: Seq<char>, b: Seq<char>, c: Seq<char>)
    requires
        text_le(a, b),
        text_le(b, c),
    ensures
        text_le(a, c),
    decreases a.len(),
{
    if a.len() > 0 && a[0] == b[0] && b[0] == c[0] {
        lemma_text_transitive(a.drop_first(), b.drop_first(), c.drop_first());
    }
}

/// The order of a dictionary is one: it compares any two texts, and only equal ones stand
/// on both sides of each other.
pub proof fn lemma_text_order(a: Seq<char>, b: Seq<char>, c: Seq<char>)
    ensures
        text_le(a, a),
        text_le(a, b) || text_le(b, a),
        text_le(b, c) || text_le(c, b),
        text_le(a, b) && text_le(b, a) ==> a == b,
        text_le(b, c) && text_le(c, b) ==> b == c,
        text_le(a, c) && text_le(c, a) ==> a == c,
        text_le(a, b) && text_le(b, c) ==> text_le(a, c),
{
    lemma_text_total(a, b);
    lemma_text_total(b, c);
    lemma_text_total(a, c);
    if text_le(a, b) && text_le(b, c) {
        lemma_text_transitive(a, b, c);
    }
}

/// Whether `a` comes before `b` in a dictionary, or is `b`.
pub fn is_text_le(a: &str, b: &str) -> (r: bool)
    ensures
        r == text_le(a@, b@),
{
    let xs = chars_of(a);
    let ys = chars_of(b);
    let mut i: usize = 0;
    assert(a@.skip(0) =~= a@);
    assert(b@.skip(0) =~= b@);
    while i < xs.len() && i < ys.len()
        invariant
            xs@ == a@,
            ys@ == b@,
            i <= xs@.len(),
            i <= ys@.len(),
            text_le(a@, b@) == text_le(a@.skip(i as int), b@.skip(i as int)),
        decreases xs@.len() - i,
    {
        assert(a@.skip(i as int).drop_first() =~= a@.skip(i as int + 1));
        assert(b@.skip(i as int).drop_first() =~= b@.skip(i as int + 1));
        if xs[i] != ys[i] {
            return xs[i] < ys[i];
        }
        i += 1;
    }
    i == xs.len()
}

/// A name that a search has found, with what ranks it: the lower `tier` first, then
/// the lower `size`, then the names in the order of a dictionary.
#[derive(Clone, Debug)]
pub struct Ranked {
    pub tier: u64,
    pub size: u64,
    pub name: String,
}

/// What a [`Ranked`] says.
pub ghost struct RankView {
    pub tier: u64,
    pub size: u64,
    pub name: Seq<char>,
}

impl DeepView for Ranked {
    type V = RankView;

    open spec fn deep_view(&self) -> RankView {
        RankView { tier: self.tier, size: self.size, name: self.name@ }
    }
}

/// Whether `a` ranks before `b`, or is `b`.
pub open spec fn rank_le(a: RankView, b: RankView) -> bool {
    if a.tier != b.tier {
        a.tier < b.tier
    } else if a.size != b.size {
        a.size < b.size
    } else {
        text_le(a.name, b.name)
    }
}

/// The order of ranks.
pub open spec fn by_rank() -> spec_fn(RankView, RankView) -> bool {
    |a: RankView, b: RankView| rank_le(a, b)
}

/// `s` in the order of ranks.
pub open spec fn ranked(s: Seq<RankView>) -> Seq<RankView> {
    s.sort_by(by_rank())
}

/// Any two ranks can be compared, and only equal ones rank alike.
pub proof fn lemma_rank_is_total()
    ensures
        total_ordering(by_rank()),
{
    let r = by_rank();
    assert forall|a: RankView| #[trigger] r(a, a) by {
        lemma_text_total(a.name, a.name);
    }
    assert forall|a: RankView, b: RankView| #[trigger] r(a, b) && #[trigger] r(b, a) implies a
        == b by {
        lemma_text_total(a.name, b.name);
    }
    assert forall|a: RankView, b: RankView, c: RankView| #[trigger] r(a, b) && #[trigger] r(
        b,
        c,
    ) implies r(a, c) by {
        if a.tier == b.tier && b.tier == c.tier && a.size == b.size && b.size == c.size {
            lemma_text_transitive(a.name, b.name, c.name);
        }
    }
    assert forall|a: RankView, b: RankView| #[trigger] r(a, b) || #[trigger] r(b, a) by {
        lemma_text_total(a.name, b.name);
    }
}

impl Ranked {
    /// Whether `self` ranks before `other`, or alike.
    pub fn is_le(&self, other: &Ranked) -> (r: bool)
        ensures
            r == rank_le(self.deep_view(), other.deep_view()),
    {
        if self.tier != other.tier {
            self.tier < other.tier
        } else if self.size != other.size {
            self.size < other.size
        } else {
            is_text_le(self.name.as_str(), other.name.as_str())
        }
    }
}

fn take_last(v: &mut Vec<Ranked>) -> (r: Ranked)
    requires
        old(v)@.len() > 0,
    ensures
        r.deep_view() == old(v).deep_view().last(),
        final(v).deep_view() == old(v).deep_view().drop_last(),
        old(v).deep_view() == final(v).deep_view().push(r.deep_view()),
{
    let r = v.pop();
    assert(v.deep_view() =~= old(v).deep_view().drop_last());
    assert(old(v).deep_view() =~= v.deep_view().push(old(v).deep_view().last()));
    match r {
        Some(x) => x,
        None => Ranked { tier: 0, size: 0, name: String::new() },
    }
}

fn put_last(v: &mut Vec<Ranked>, x: Ranked)
    ensures
        final(v).deep_view() == old(v).deep_view().push(x.deep_view()),
{
    v.push(x);
    assert(v.deep_view() =~= old(v).deep_view().push(x.deep_view()));
}

/// Whether `r` falls, and nothing of `s` is above anything of `r`.
spec fn above(s: Seq<RankView>, r: Seq<RankView>) -> bool {
    &&& forall|i: int, j: int| 0 <= i < j < r.len() ==> rank_le(#[trigger] r[j], #[trigger] r[i])
    &&& forall|i: int, j: int|
        0 <= i < s.len() && 0 <= j < r.len() ==> rank_le(#[trigger] s[i], #[trigger] r[j])
}

spec fn rising(s: Seq<RankView>) -> bool {
    forall|i: int, j: int| 0 <= i < j < s.len() ==> rank_le(#[trigger] s[i], #[trigger] s[j])
}

fn merged(a: Vec<Ranked>, b: Vec<Ranked>) -> (r: Vec<Ranked>)
    requires
        rising(a.deep_view()),
        rising(b.deep_view()),
    ensures
        rising(r.deep_view()),
        r.deep_view().to_multiset() == a.deep_view().to_multiset().add(
            b.deep_view().to_multiset(),
        ),
{
    broadcast use {vstd::seq_lib::group_to_multiset_ensures, vstd::multiset::group_multiset_axioms};

    let ghost total = a.deep_view().to_multiset().add(b.deep_view().to_multiset());
    let mut a = a;
    let mut b = b;
    let mut down: Vec<Ranked> = Vec::new();
    assert(down.deep_view() =~= Seq::empty());
    assert(total =~= a.deep_view().to_multiset().add(b.deep_view().to_multiset()).add(
        down.deep_view().to_multiset(),
    ));
    while a.len() > 0 || b.len() > 0
        invariant
            rising(a.deep_view()),
            rising(b.deep_view()),
            above(a.deep_view(), down.deep_view()),
            above(b.deep_view(), down.deep_view()),
            total == a.deep_view().to_multiset().add(b.deep_view().to_multiset()).add(
                down.deep_view().to_multiset(),
            ),
        decreases a@.len() + b@.len(),
    {
        proof {
            lemma_rank_is_total();
        }
        let ghost (av, bv, dv) = (a.deep_view(), b.deep_view(), down.deep_view());
        let from_b = b.len() > 0 && (a.len() == 0 || a[a.len() - 1].is_le(&b[b.len() - 1]));
        if from_b {
            assert(a.len() > 0 ==> rank_le(av.last(), bv.last()));
            let x = take_last(&mut b);
            proof {
                b.deep_view().to_multiset_ensures();
                dv.to_multiset_ensures();
            }
            put_last(&mut down, x);
            assert forall|i: int| 0 <= i < av.len() implies rank_le(#[trigger] av[i], bv.last()) by {
                let r = by_rank();
                assert(r(av.last(), bv.last()));
                if i < av.len() - 1 {
                    assert(r(av[i], av.last()));
                }
            }
            assert(total =~= a.deep_view().to_multiset().add(b.deep_view().to_multiset()).add(
                down.deep_view().to_multiset(),
            ));
        } else {
            let x = take_last(&mut a);
            proof {
                a.deep_view().to_multiset_ensures();
                dv.to_multiset_ensures();
            }
            put_last(&mut down, x);
            assert forall|i: int| 0 <= i < bv.len() implies rank_le(#[trigger] bv[i], av.last()) by {
                let r = by_rank();
                assert(r(av.last(), bv.last()) || r(bv.last(), av.last()));
                if i < bv.len() - 1 {
                    assert(r(bv[i], bv.last()));
                }
            }
            assert(total =~= a.deep_view().to_multiset().add(b.deep_view().to_multiset()).add(
                down.deep_view().to_multiset(),
            ));
        }
    }
    assert(a.deep_view() =~= Seq::empty());
    assert(b.deep_view() =~= Seq::empty());
    let ghost falling = down.deep_view();
    assert(total =~= falling.to_multiset());
    let mut out: Vec<Ranked> = Vec::new();
    assert(out.deep_view() =~= Seq::empty());
    while down.len() > 0
        invariant
            above(Seq::empty(), down.deep_view()),
            rising(out.deep_view()),
            forall|i: int, j: int|
                0 <= i < out.deep_view().len() && 0 <= j < down.deep_view().len() ==> rank_le(
                    #[trigger] out.deep_view()[i],
                    #[trigger] down.deep_view()[j],
                ),
            total == down.deep_view().to_multiset().add(out.deep_view().to_multiset()),
        decreases down@.len(),
    {
        let x = take_last(&mut down);
        proof {
            down.deep_view().to_multiset_ensures();
            out.deep_view().to_multiset_ensures();
        }
        put_last(&mut out, x);
        assert(total =~= down.deep_view().to_multiset().add(out.deep_view().to_multiset()));
    }
    assert(down.deep_view() =~= Seq::empty());
    assert(total =~= out.deep_view().to_multiset());
    out
}

/// `v` in the order of ranks.
pub fn sort_ranked(v: Vec<Ranked>) -> (r: Vec<Ranked>)
    ensures
        r.deep_view() == ranked(v.deep_view()),
{
    let ghost s = v.deep_view();
    let r = halves_sorted(v);
    proof {
        lemma_rank_is_total();
        s.lemma_sort_by_ensures(by_rank());
        assert(sorted_by(r.deep_view(), by_rank()));
        lemma_sorted_unique(r.deep_view(), ranked(s), by_rank());
    }
    r
}

fn halves_sorted(v: Vec<Ranked>) -> (r: Vec<Ranked>)
    ensures
        rising(r.deep_view()),
        r.deep_view().to_multiset() == v.deep_view().to_multiset(),
    decreases v@.len(),
{
    let n: usize = v.len();
    if n <= 1 {
        return v;
    }
    let ghost s = v.deep_view();
    let mut a = v;
    let b = a.split_off(n / 2);
    proof {
        assert(s =~= a.deep_view() + b.deep_view());
        lemma_multiset_commutative(a.deep_view(), b.deep_view());
    }
    merged(halves_sorted(a), halves_sorted(b))
}

/// Sorting keeps the same names, and puts them in order.
pub proof fn law_sorting_keeps_everything(s: Seq<RankView>)
    ensures
        ranked(s).to_multiset() == s.to_multiset(),
        ranked(s).len() == s.len(),
        sorted_by(ranked(s), by_rank()),
{
    lemma_rank_is_total();
    s.lemma_sort_by_ensures(by_rank());
    s.to_multiset_ensures();
    ranked(s).to_multiset_ensures();
}

/// Ranks that are the same, each once, have one order, however they were listed.
pub proof fn lemma_listing_order_is_lost(x: Seq<RankView>, y: Seq<RankView>)
    requires
        x.no_duplicates(),
        y.no_duplicates(),
        forall|h: RankView| #[trigger] x.contains(h) <==> y.contains(h),
    ensures
        ranked(x) == ranked(y),
        x.len() == y.len(),
{
    x.lemma_multiset_has_no_duplicates();
    y.lemma_multiset_has_no_duplicates();
    x.to_multiset_ensures();
    y.to_multiset_ensures();
    assert forall|h: RankView| x.to_multiset().count(h) == y.to_multiset().count(h) by {
        assert(x.contains(h) <==> y.contains(h));
        assert(x.contains(h) <==> x.to_multiset().count(h) > 0);
        assert(y.contains(h) <==> y.to_multiset().count(h) > 0);
        if x.contains(h) {
            assert(x.to_multiset().contains(h));
            assert(y.to_multiset().contains(h));
        }
    }
    assert(x.to_multiset() =~= y.to_multiset());
    law_sorting_keeps_everything(x);
    law_sorting_keeps_everything(y);
    lemma_rank_is_total();
    lemma_sorted_unique(ranked(x), ranked(y), by_rank());
}

/// What holds an element after a push.
pub proof fn lemma_push_contains<A>(s: Seq<A>, x: A, y: A)
    ensures
        s.push(x).contains(y) <==> s.contains(y) || x == y,
{
    let t = s.push(x);
    if s.contains(y) {
        let i = choose|i: int| 0 <= i < s.len() && s[i] == y;
        assert(t[i] == y);
    }
    if x == y {
        assert(t[s.len() as int] == y);
    }
}

/// A place in a document that decides an order: line, column, and what comes first of
/// two at one place.
#[derive(Clone, Copy, Debug, PartialEq, Eq, Structural)]
pub struct Place {
    pub line: u32,
    pub character: u32,
    pub rank: u32,
}

impl Place {
    /// Whether `self` comes before `other`, or is `other`.
    pub open spec fn le(self, other: Place) -> bool {
        if self.line != other.line {
            self.line < other.line
        } else if self.character != other.character {
            self.character < other.character
        } else {
            self.rank <= other.rank
        }
    }

    /// Whether `self` comes before `other`, or is `other`.
    pub fn is_le(self, other: Place) -> (r: bool)
        ensures
            r == self.le(other),
    {
        if self.line != other.line {
            self.line < other.line
        } else if self.character != other.character {
            self.character < other.character
        } else {
            self.rank <= other.rank
        }
    }
}

/// Something that a list can be sorted by.
pub trait Sorted: Sized + DeepView {
    /// Whether `a` comes before `b`, or may stand with it in either order.
    spec fn le(a: Self::V, b: Self::V) -> bool;

    /// The order is total.
    proof fn lemma_order(a: Self::V, b: Self::V, c: Self::V)
        ensures
            Self::le(a, a),
            Self::le(a, b) || Self::le(b, a),
            Self::le(a, b) && Self::le(b, c) ==> Self::le(a, c),
    ;

    /// Whether `self` comes before `other`, or may stand with it in either order.
    fn is_le(&self, other: &Self) -> (r: bool)
        ensures
            r == Self::le(self.deep_view(), other.deep_view()),
    ;
}

/// `s` with `x` after everything that does not come later than it.
pub open spec fn put_in<T: Sorted>(s: Seq<T::V>, x: T::V) -> Seq<T::V>
    decreases s.len(),
{
    if s.len() == 0 || T::le(s.last(), x) {
        s.push(x)
    } else {
        put_in::<T>(s.drop_last(), x).push(s.last())
    }
}

/// The first `n` of `s` in their order; of two that may stand either way the earlier stays
/// first.
pub open spec fn arranged<T: Sorted>(s: Seq<T::V>, n: nat) -> Seq<T::V>
    decreases n,
{
    if n == 0 {
        seq![]
    } else {
        put_in::<T>(arranged::<T>(s, (n - 1) as nat), s[n - 1])
    }
}

proof fn lemma_put_in<T: Sorted>(s: Seq<T::V>, x: T::V, p: int)
    requires
        0 <= p <= s.len(),
        p > 0 ==> T::le(s[p - 1], x),
        forall|j: int| p <= j < s.len() ==> !T::le(#[trigger] s[j], x),
    ensures
        put_in::<T>(s, x) == s.take(p) + seq![x] + s.skip(p),
    decreases s.len(),
{
    if p == s.len() {
        assert(s.take(p) + seq![x] + s.skip(p) =~= s.push(x));
    } else {
        assert(s[s.len() - 1] == s.last());
        let t = s.drop_last();
        assert forall|j: int| p <= j < t.len() implies !T::le(#[trigger] t[j], x) by {
            assert(t[j] == s[j]);
        }
        lemma_put_in::<T>(t, x, p);
        assert(t.take(p) =~= s.take(p));
        assert(s.take(p) + seq![x] + s.skip(p) =~= (t.take(p) + seq![x] + t.skip(p)).push(
            s.last(),
        ));
    }
}

fn put<T: Sorted>(out: &mut Vec<T>, x: T)
    ensures
        final(out).deep_view() == put_in::<T>(old(out).deep_view(), x.deep_view()),
{
    let ghost s = out.deep_view();
    let mut p: usize = out.len();
    while p > 0 && !out[p - 1].is_le(&x)
        invariant
            p <= out@.len(),
            s == out.deep_view(),
            forall|j: int| p <= j < s.len() ==> !T::le(#[trigger] s[j], x.deep_view()),
        decreases p,
    {
        assert(s[p - 1] == out@[p - 1].deep_view());
        p -= 1;
    }
    proof {
        if p > 0 {
            assert(s[p - 1] == out@[p - 1].deep_view());
        }
        lemma_put_in::<T>(s, x.deep_view(), p as int);
    }
    out.insert(p, x);
    assert(out.deep_view() =~= s.take(p as int) + seq![x.deep_view()] + s.skip(p as int));
}

/// `items` in their order; of two that may stand either way the earlier stays first.
pub fn arrange<T: Sorted + Copied>(items: &Vec<T>) -> (r: Vec<T>)
    ensures
        r.deep_view() == arranged::<T>(items.deep_view(), items@.len()),
{
    let ghost all = items.deep_view();
    let mut out: Vec<T> = Vec::new();
    assert(out.deep_view() =~= seq![]);
    let mut i: usize = 0;
    while i < items.len()
        invariant
            i <= items@.len(),
            all == items.deep_view(),
            out.deep_view() == arranged::<T>(all, i as nat),
        decreases items@.len() - i,
    {
        assert(all[i as int] == items@[i as int].deep_view());
        put(&mut out, items[i].copied());
        i += 1;
    }
    out
}

/// Whether nothing comes before what stands in front of it.
pub open spec fn ordered<T: Sorted>(s: Seq<T::V>) -> bool {
    forall|i: int, j: int| 0 <= i <= j < s.len() ==> T::le(#[trigger] s[i], #[trigger] s[j])
}

proof fn lemma_put_in_keeps_order<T: Sorted>(s: Seq<T::V>, x: T::V)
    requires
        ordered::<T>(s),
    ensures
        ordered::<T>(put_in::<T>(s, x)),
        put_in::<T>(s, x).to_multiset() == s.to_multiset().insert(x),
        forall|y: T::V| #[trigger]
            put_in::<T>(s, x).contains(y) ==> s.contains(y) || y == x,
    decreases s.len(),
{
    broadcast use vstd::multiset::group_multiset_axioms;

    s.to_multiset_ensures();
    let r = put_in::<T>(s, x);
    if s.len() == 0 || T::le(s.last(), x) {
        assert forall|i: int, j: int| 0 <= i <= j < r.len() implies T::le(
            #[trigger] r[i],
            #[trigger] r[j],
        ) by {
            if j < s.len() {
                assert(T::le(s[i], s[j]));
            } else if i < s.len() {
                assert(T::le(s[i], s[s.len() - 1]));
                T::lemma_order(s[i], s.last(), x);
            } else {
                T::lemma_order(x, x, x);
            }
        }
    } else {
        let t = s.drop_last();
        let q = put_in::<T>(t, x);
        assert(ordered::<T>(t)) by {
            assert forall|i: int, j: int| 0 <= i <= j < t.len() implies T::le(
                #[trigger] t[i],
                #[trigger] t[j],
            ) by {
                assert(T::le(s[i], s[j]));
            }
        }
        lemma_put_in_keeps_order::<T>(t, x);
        q.to_multiset_ensures();
        t.to_multiset_ensures();
        assert(s =~= t.push(s.last()));
        assert(r.to_multiset() =~= s.to_multiset().insert(x));
        T::lemma_order(s.last(), x, x);
        assert forall|y: T::V| #[trigger] q.contains(y) implies T::le(y, s.last()) by {
            if t.contains(y) {
                let k = choose|k: int| 0 <= k < t.len() && t[k] == y;
                assert(T::le(s[k], s[s.len() - 1]));
            }
        }
        assert forall|i: int, j: int| 0 <= i <= j < r.len() implies T::le(
            #[trigger] r[i],
            #[trigger] r[j],
        ) by {
            if j < q.len() {
                assert(T::le(q[i], q[j]));
            } else if i < q.len() {
                assert(q.contains(q[i]));
            } else {
                T::lemma_order(s.last(), s.last(), s.last());
            }
        }
        assert forall|y: T::V| #[trigger] r.contains(y) implies s.contains(y) || y == x by {
            let k = choose|k: int| 0 <= k < r.len() && r[k] == y;
            if k < q.len() {
                assert(q.contains(y));
                if t.contains(y) {
                    let m = choose|m: int| 0 <= m < t.len() && t[m] == y;
                    assert(s[m] == y);
                }
            } else {
                assert(s[s.len() - 1] == y);
            }
        }
    }
}

/// Arranging keeps everything, and puts nothing before what comes earlier.
pub proof fn law_arranged<T: Sorted>(s: Seq<T::V>, n: nat)
    requires
        n <= s.len(),
    ensures
        ordered::<T>(arranged::<T>(s, n)),
        arranged::<T>(s, n).to_multiset() == s.take(n as int).to_multiset(),
        arranged::<T>(s, n).len() == n,
    decreases n,
{
    s.take(n as int).to_multiset_ensures();
    arranged::<T>(s, n).to_multiset_ensures();
    if n > 0 {
        law_arranged::<T>(s, (n - 1) as nat);
        lemma_put_in_keeps_order::<T>(arranged::<T>(s, (n - 1) as nat), s[n - 1]);
        assert(s.take(n as int) =~= s.take(n - 1).push(s[n - 1]));
        s.take(n - 1).to_multiset_ensures();
    } else {
        assert(s.take(0) =~= seq![]);
    }
}

/// There is one order for given values, where no two of them may stand either way.
pub proof fn law_one_order<T: Sorted>(a: Seq<T::V>, b: Seq<T::V>)
    requires
        ordered::<T>(a),
        ordered::<T>(b),
        a.to_multiset() == b.to_multiset(),
        forall|i: int, j: int|
            0 <= i < a.len() && 0 <= j < a.len() && T::le(#[trigger] a[i], #[trigger] a[j])
                && T::le(a[j], a[i]) ==> a[i] == a[j],
    ensures
        a == b,
    decreases a.len(),
{
    a.to_multiset_ensures();
    b.to_multiset_ensures();
    assert(a.len() == b.len());
    if a.len() > 0 {
        let n = a.len() as int;
        assert(a.to_multiset().count(a[n - 1]) > 0 && a.to_multiset().count(b[n - 1]) > 0) by {
            assert(a.contains(a[n - 1]));
            assert(b.contains(b[n - 1]));
        }
        assert(a.contains(b[n - 1]) && b.contains(a[n - 1]));
        let i = a.index_of(b[n - 1]);
        let j = b.index_of(a[n - 1]);
        assert(T::le(a[i], a[n - 1]));
        assert(T::le(b[j], b[n - 1]));
        assert(a[n - 1] == b[n - 1]);
        assert(a.drop_last() =~= a.remove(n - 1));
        assert(b.drop_last() =~= b.remove(n - 1));
        law_one_order::<T>(a.drop_last(), b.drop_last());
        assert(a =~= a.drop_last().push(a[n - 1]));
        assert(b =~= b.drop_last().push(b[n - 1]));
    } else {
        assert(a =~= b);
    }
}

}
