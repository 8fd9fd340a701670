//! Lists of strings, and small dictionaries keyed by a string.

use vstd::prelude::*;
use crate::text::str_eq;

verus! {

/// Appends `x` to `v`.
pub fn push_item<T: DeepView>(v: &mut Vec<T>, x: T)
    ensures
        final(v).deep_view() == old(v).deep_view().push(x.deep_view()),
        final(v)@ == old(v)@.push(x),
{
    v.push(x);
    assert(v.deep_view() =~= old(v).deep_view().push(x.deep_view()));
}

/// Whether `s` is one of `list`.
pub fn contains_str(list: &[String], s: &str) -> (r: bool)
    ensures
        r == strs(list@).contains(s@),
{
    let mut i: usize = 0;
    while i < list.len()
        invariant
            i <= list@.len(),
            forall|j: int| 0 <= j < i ==> (#[trigger] list@[j])@ != s@,
        decreases list.len() - i,
    {
        if str_eq(list[i].as_str(), s) {
            assert(strs(list@)[i as int] == s@);
            return true;
        }
        i += 1;
    }
    assert(!strs(list@).contains(s@)) by {
        if strs(list@).contains(s@) {
            let j = choose|j: int| 0 <= j < strs(list@).len() && strs(list@)[j] == s@;
            assert(list@[j]@ == s@);
        }
    }
    false
}

/// The characters of each string of `list`.
pub open spec fn strs(list: Seq<String>) -> Seq<Seq<char>> {
    Seq::new(list.len(), |i: int| list[i]@)
}

/// Appends `s` to `list`.
pub fn push_str(list: &mut Vec<String>, s: String)
    ensures
        strs(final(list)@) == strs(old(list)@).push(s@),
{
    list.push(s);
    assert(strs(list@) =~= strs(old(list)@).push(s@));
}

/// A copy of `list`.
pub fn copy_strs(list: &[String]) -> (r: Vec<String>)
    ensures
        strs(r@) == strs(list@),
        r.deep_view() == strs(list@),
{
    let mut out: Vec<String> = Vec::new();
    let mut i: usize = 0;
    while i < list.len()
        invariant
            i <= list@.len(),
            strs(out@) =~= strs(list@).take(i as int),
        decreases list.len() - i,
    {
        let ghost before = strs(out@);
        out.push(list[i].clone());
        assert(strs(out@) =~= before.push(list@[i as int]@));
        i += 1;
    }
    assert(out.deep_view() =~= strs(out@));
    assert(strs(list@).take(list@.len() as int) =~= strs(list@));
    out
}

/// A copy of `s`.
pub fn copy_opt(s: &Option<String>) -> (r: Option<String>)
    ensures
        r.deep_view() == s.deep_view(),
{
    match s {
        Some(t) => Some(t.clone()),
        None => None,
    }
}

/// The first `n` texts of `list`, with `sep` between them.
pub open spec fn joined_by(list: Seq<Seq<char>>, sep: Seq<char>, n: nat) -> Seq<char>
    decreases n,
{
    if n == 0 {
        Seq::empty()
    } else if n == 1 {
        list[0]
    } else {
        joined_by(list, sep, (n - 1) as nat) + sep + list[n - 1]
    }
}

/// The strings of `list`, with `sep` between them.
pub fn join_by(list: &[String], sep: &str) -> (r: String)
    ensures
        r@ == joined_by(strs(list@), sep@, list@.len()),
{
    let mut out = String::new();
    let mut i: usize = 0;
    assert(out@ =~= Seq::empty());
    while i < list.len()
        invariant
            i <= list@.len(),
            out@ == joined_by(strs(list@), sep@, i as nat),
        decreases list@.len() - i,
    {
        let ghost before = out@;
        if i > 0 {
            out.append(sep);
        } else {
            assert(before + list@[0]@ =~= list@[0]@);
        }
        out.append(list[i].as_str());
        i += 1;
    }
    out
}

/// A value that can be written out a second time.
pub trait Copied: Sized + DeepView {
    /// The same value again.
    fn copied(&self) -> (r: Self)
        ensures
            r.deep_view() == self.deep_view(),
    ;
}

impl Copied for String {
    fn copied(&self) -> (r: Self) {
        self.clone()
    }
}

impl Copied for u64 {
    fn copied(&self) -> (r: Self) {
        *self
    }
}

impl Copied for i32 {
    fn copied(&self) -> (r: Self) {
        *self
    }
}

impl<T: Copied> Copied for Vec<T> {
    fn copied(&self) -> (r: Self) {
        let mut out: Vec<T> = Vec::new();
        let mut i: usize = 0;
        while i < self.len()
            invariant
                i <= self@.len(),
                out.deep_view() =~= self.deep_view().take(i as int),
            decreases self@.len() - i,
        {
            push_item(&mut out, self[i].copied());
            i += 1;
        }
        assert(self.deep_view().take(i as int) =~= self.deep_view());
        out
    }
}

/// A dictionary in the order in which its keys were first put in.
#[derive(Clone, Debug)]
pub struct Dict<V> {
    pub entries: Vec<(String, V)>,
}

/// Where the first of the entries from `i` on with the key `k` stands.
pub open spec fn key_from<V>(d: Seq<(Seq<char>, V)>, k: Seq<char>, i: nat) -> Option<nat>
    decreases d.len() - i,
{
    if i >= d.len() {
        None
    } else if d[i as int].0 == k {
        Some(i)
    } else {
        key_from(d, k, i + 1)
    }
}

/// What the dictionary `d` gives for `k`.
pub open spec fn dict_get<V>(d: Seq<(Seq<char>, V)>, k: Seq<char>) -> Option<V> {
    match key_from(d, k, 0) {
        Some(i) => Some(d[i as int].1),
        None => None,
    }
}

/// The dictionary `d` once `k` has been given the value `v`.
pub open spec fn dict_put<V>(d: Seq<(Seq<char>, V)>, k: Seq<char>, v: V) -> Seq<(Seq<char>, V)> {
    match key_from(d, k, 0) {
        Some(i) => d.update(i as int, (k, v)),
        None => d.push((k, v)),
    }
}

pub proof fn lemma_key_from<V>(d: Seq<(Seq<char>, V)>, k: Seq<char>, i: nat)
    ensures
        match key_from(d, k, i) {
            Some(j) => i <= j < d.len() && d[j as int].0 == k && forall|m: int|
                i <= m < j ==> (#[trigger] d[m]).0 != k,
            None => forall|m: int| i <= m < d.len() ==> (#[trigger] d[m]).0 != k,
        },
    decreases d.len() - i,
{
    if i < d.len() && d[i as int].0 != k {
        lemma_key_from(d, k, i + 1);
    }
}

proof fn lemma_key_at<V>(d: Seq<(Seq<char>, V)>, k: Seq<char>, i: nat, j: nat)
    requires
        i <= j < d.len(),
        d[j as int].0 == k,
        forall|m: int| i <= m < j ==> (#[trigger] d[m]).0 != k,
    ensures
        key_from(d, k, i) == Some(j),
    decreases j - i,
{
    if i < j {
        assert(d[i as int].0 != k);
        lemma_key_at(d, k, i + 1, j);
    }
}

proof fn lemma_key_absent<V>(d: Seq<(Seq<char>, V)>, k: Seq<char>, i: nat)
    requires
        forall|m: int| i <= m < d.len() ==> (#[trigger] d[m]).0 != k,
    ensures
        key_from(d, k, i) is None,
    decreases d.len() - i,
{
    if i < d.len() {
        lemma_key_absent(d, k, i + 1);
    }
}

/// A dictionary gives back what was last put in, and nothing else changes.
pub proof fn law_dict_get_after_put<V>(d: Seq<(Seq<char>, V)>, k: Seq<char>, v: V, q: Seq<char>)
    ensures
        dict_get(dict_put(d, k, v), q) == (if q == k {
            Some(v)
        } else {
            dict_get(d, q)
        }),
{
    let e = dict_put(d, k, v);
    lemma_key_from(d, k, 0);
    lemma_key_from(d, q, 0);
    lemma_key_from(e, q, 0);
    match key_from(d, k, 0) {
        Some(i) => {
            if q == k {
                assert forall|m: int| 0 <= m < i implies (#[trigger] e[m]).0 != q by {
                    assert(d[m].0 != k);
                }
                lemma_key_at(e, q, 0, i);
            } else {
                match key_from(d, q, 0) {
                    Some(j) => {
                        assert forall|m: int| 0 <= m < j implies (#[trigger] e[m]).0 != q by {
                            assert(d[m].0 != q);
                        }
                        lemma_key_at(e, q, 0, j);
                    },
                    None => {
                        assert forall|m: int| 0 <= m < e.len() implies (#[trigger] e[m]).0
                            != q by {
                            assert(d[m].0 != q);
                        }
                        lemma_key_absent(e, q, 0);
                    },
                }
            }
        },
        None => {
            if q == k {
                assert forall|m: int| 0 <= m < d.len() implies (#[trigger] e[m]).0 != q by {
                    assert(d[m].0 != k);
                }
                lemma_key_at(e, q, 0, d.len());
            } else {
                match key_from(d, q, 0) {
                    Some(j) => {
                        assert forall|m: int| 0 <= m < j implies (#[trigger] e[m]).0 != q by {
                            assert(d[m].0 != q);
                        }
                        lemma_key_at(e, q, 0, j);
                    },
                    None => {
                        assert forall|m: int| 0 <= m < e.len() implies (#[trigger] e[m]).0
                            != q by {
                            if m < d.len() {
                                assert(d[m].0 != q);
                            }
                        }
                        lemma_key_absent(e, q, 0);
                    },
                }
            }
        },
    }
}

impl<V: DeepView> DeepView for Dict<V> {
    type V = Seq<(Seq<char>, V::V)>;

    open spec fn deep_view(&self) -> Seq<(Seq<char>, V::V)> {
        Seq::new(
            self.entries@.len(),
            |i: int| (self.entries@[i].0@, self.entries@[i].1.deep_view()),
        )
    }
}

impl<V: DeepView> Dict<V> {
    /// The empty dictionary.
    pub fn new() -> (r: Self)
        ensures
            r.deep_view() == Seq::<(Seq<char>, V::V)>::empty(),
    {
        let r = Dict { entries: Vec::new() };
        assert(r.deep_view() =~= Seq::<(Seq<char>, V::V)>::empty());
        r
    }

    /// What the dictionary gives for `k`.
    pub fn get(&self, k: &str) -> (r: Option<&V>)
        ensures
            match r {
                Some(v) => dict_get(self.deep_view(), k@) == Some(v.deep_view()),
                None => dict_get(self.deep_view(), k@) is None,
            },
    {
        match self.position(k) {
            Some(i) => Some(&self.entries[i].1),
            None => None,
        }
    }

    /// Whether the dictionary holds `k`.
    pub fn contains_key(&self, k: &str) -> (r: bool)
        ensures
            r == (dict_get(self.deep_view(), k@) is Some),
    {
        self.position(k).is_some()
    }

    fn position(&self, k: &str) -> (r: Option<usize>)
        ensures
            match r {
                Some(i) => key_from(self.deep_view(), k@, 0) == Some(i as nat) && i
                    < self.entries@.len(),
                None => key_from(self.deep_view(), k@, 0) is None,
            },
    {
        let ghost d = self.deep_view();
        let mut i: usize = 0;
        while i < self.entries.len()
            invariant
                i <= self.entries@.len(),
                d == self.deep_view(),
                key_from(d, k@, 0) == key_from(d, k@, i as nat),
            decreases self.entries@.len() - i,
        {
            assert(d[i as int].0 == self.entries@[i as int].0@);
            if str_eq(self.entries[i].0.as_str(), k) {
                return Some(i);
            }
            i += 1;
        }
        None
    }

    /// Gives `k` the value `v`.
    pub fn insert(&mut self, k: String, v: V)
        ensures
            final(self).deep_view() == dict_put(old(self).deep_view(), k@, v.deep_view()),
    {
        let ghost before = self.deep_view();
        let ghost (gk, gv) = (k@, v.deep_view());
        match self.position(k.as_str()) {
            Some(i) => {
                proof {
                    lemma_key_from(before, gk, 0);
                }
                self.entries.set(i, (k, v));
                assert(self.deep_view() =~= before.update(i as int, (gk, gv)));
            },
            None => {
                self.entries.push((k, v));
                assert(self.deep_view() =~= before.push((gk, gv)));
            },
        }
    }
}

impl<V: Copied> Copied for Dict<V> {
    fn copied(&self) -> (r: Self) {
        let mut entries: Vec<(String, V)> = Vec::new();
        let mut i: usize = 0;
        while i < self.entries.len()
            invariant
                i <= self.entries@.len(),
                entries@.len() == i,
                forall|j: int|
                    0 <= j < i ==> (#[trigger] entries@[j]).0@ == self.entries@[j].0@
                        && entries@[j].1.deep_view() == self.entries@[j].1.deep_view(),
            decreases self.entries@.len() - i,
        {
            entries.push((self.entries[i].0.clone(), self.entries[i].1.copied()));
            i += 1;
        }
        let r = Dict { entries };
        assert(r.deep_view() =~= self.deep_view());
        r
    }
}

}
