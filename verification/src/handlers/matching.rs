//! How well a name answers a typed query.

use vstd::prelude::*;
use crate::text::{chars_of, contains, find_from, has_part, matches_at, stands_at, str_eq};

verus! {

/// Whether the characters of `needle` stand in `haystack` at the places `at`, in
/// order.
pub open spec fn embeds(needle: Seq<char>, haystack: Seq<char>, at: Seq<int>) -> bool {
    &&& at.len() == needle.len()
    &&& forall|i: int|
        0 <= i < at.len() ==> 0 <= #[trigger] at[i] < haystack.len() && haystack[at[i]]
            == needle[i]
    &&& forall|i: int, j: int| 0 <= i < j < at.len() ==> #[trigger] at[i] < #[trigger] at[j]
}

/// Whether the characters of `needle` stand in `haystack` in order, with others
/// between them or not.
pub open spec fn subsequence(needle: Seq<char>, haystack: Seq<char>) -> bool {
    exists|at: Seq<int>| embeds(needle, haystack, at)
}

/// The tier of `name` for `query`: 0 for the name itself, 1 for a prefix of it, 2
/// for a part of it, 3 for its characters in order; `None` for no match. The empty
/// query matches every name in the last tier.
pub open spec fn tier_of(name: Seq<char>, query: Seq<char>) -> Option<u8> {
    if query.len() == 0 {
        Some(3)
    } else if name == query {
        Some(0)
    } else if query.is_prefix_of(name) {
        Some(1)
    } else if has_part(name, query) {
        Some(2)
    } else if subsequence(query, name) {
        Some(3)
    } else {
        None
    }
}

/// The tier of `name` for `query`.
pub fn match_score(name: &str, query: &str) -> (r: Option<u8>)
    ensures
        r == tier_of(name@, query@),
{
    if query.is_empty() {
        return Some(3);
    }
    if str_eq(name, query) {
        Some(0)
    } else if has_prefix(name, query) {
        Some(1)
    } else if contains(name, query) {
        Some(2)
    } else if is_subsequence(query, name) {
        Some(3)
    } else {
        None
    }
}

/// Whether `s` starts with `prefix`.
pub fn has_prefix(s: &str, prefix: &str) -> (r: bool)
    ensures
        r == prefix@.is_prefix_of(s@),
{
    let r = matches_at(&chars_of(s), &chars_of(prefix), 0);
    assert(r ==> s@.take(prefix@.len() as int) =~= prefix@);
    r
}

/// Whether `s` ends with `suffix`.
pub fn has_suffix(s: &str, suffix: &str) -> (r: bool)
    ensures
        r == suffix@.is_suffix_of(s@),
{
    let (cs, t) = (chars_of(s), chars_of(suffix));
    if t.len() > cs.len() {
        return false;
    }
    let r = matches_at(&cs, &t, cs.len() - t.len());
    assert(s@.subrange(s@.len() - suffix@.len(), s@.len() as int) =~= s@.skip(
        s@.len() - suffix@.len(),
    ));
    r
}

/// Whether the characters of `needle` stand in `haystack` in order.
pub fn is_subsequence(needle: &str, haystack: &str) -> (r: bool)
    ensures
        r == subsequence(needle@, haystack@),
{
    let ns = chars_of(needle);
    let hs = chars_of(haystack);
    let ghost mut at: Seq<int> = Seq::empty();
    let mut i: usize = 0;
    let mut j: usize = 0;
    while i < ns.len() && j < hs.len()
        invariant
            ns@ == needle@,
            hs@ == haystack@,
            i <= ns@.len(),
            j <= hs@.len(),
            embeds(ns@.take(i as int), hs@, at),
            forall|k: int| 0 <= k < at.len() ==> #[trigger] at[k] < j,
            forall|w: Seq<int>| #[trigger]
                embeds(ns@, hs@, w) && i < ns@.len() ==> w[i as int] >= j,
        decreases hs@.len() - j,
    {
        assert forall|w: Seq<int>| #[trigger] embeds(ns@, hs@, w) && ns@[i as int] != hs@[j as int]
            implies w[i as int] >= j + 1 by {
            assert(hs@[w[i as int]] == ns@[i as int]);
        }
        if hs[j] == ns[i] {
            assert forall|w: Seq<int>| #[trigger] embeds(ns@, hs@, w) && i + 1
                < ns@.len() implies w[i + 1] >= j + 1 by {
                assert(w[i as int] < w[i + 1]);
            }
            proof {
                at = at.push(j as int);
            }
            i += 1;
        }
        j += 1;
    }
    if i < ns.len() {
        assert(!subsequence(needle@, haystack@)) by {
            if subsequence(needle@, haystack@) {
                let w = choose|w: Seq<int>| embeds(needle@, haystack@, w);
                assert(w[i as int] < hs@.len());
            }
        }
        false
    } else {
        assert(ns@.take(i as int) =~= ns@);
        true
    }
}

proof fn lemma_part_is_subsequence(name: Seq<char>, query: Seq<char>, i: int)
    requires
        stands_at(name, query, i),
    ensures
        subsequence(query, name),
{
    let at = Seq::new(query.len(), |k: int| i + k);
    assert forall|k: int| 0 <= k < at.len() implies 0 <= #[trigger] at[k] < name.len()
        && name[at[k]] == query[k] by {
        assert(name.subrange(i, i + query.len())[k] == query[k]);
    }
    assert(embeds(query, name, at));
}

proof fn lemma_found(s: Seq<char>, t: Seq<char>, i: nat)
    ensures
        find_from(s, t, i) matches Some(j) ==> stands_at(s, t, j as int),
    decreases s.len() + 1 - i,
{
    if i <= s.len() && !stands_at(s, t, i as int) {
        lemma_found(s, t, i + 1);
    }
}

/// A name matches a query exactly when the query's characters stand in it in order:
/// the nearer tiers only rank what matches.
pub proof fn law_matches_are_subsequences(name: Seq<char>, query: Seq<char>)
    ensures
        tier_of(name, query) is Some <==> subsequence(query, name),
        tier_of(name, query) matches Some(tier) ==> tier <= 3,
{
    lemma_found(name, query, 0);
    if query.len() == 0 {
        assert(embeds(query, name, seq![]));
    } else if query.is_prefix_of(name) {
        assert(name.subrange(0, query.len() as int) =~= query);
        lemma_part_is_subsequence(name, query, 0);
    } else if name == query {
        assert(name.subrange(0, query.len() as int) =~= query);
        lemma_part_is_subsequence(name, query, 0);
    } else if has_part(name, query) {
        lemma_part_is_subsequence(name, query, find_from(name, query, 0)->0 as int);
    }
}

/// A query's longer forms match no more names: whatever matches the query with
/// characters appended matches the query.
pub proof fn law_longer_query_narrows(name: Seq<char>, query: Seq<char>, more: Seq<char>)
    requires
        tier_of(name, query + more) is Some,
    ensures
        tier_of(name, query) is Some,
{
    law_matches_are_subsequences(name, query + more);
    law_matches_are_subsequences(name, query);
    let at = choose|at: Seq<int>| embeds(query + more, name, at);
    let head = at.take(query.len() as int);
    assert forall|i: int| 0 <= i < head.len() implies 0 <= #[trigger] head[i] < name.len()
        && name[head[i]] == query[i] by {
        assert(head[i] == at[i]);
        assert((query + more)[i] == query[i]);
    }
    assert(embeds(query, name, head));
}

proof fn lemma_find_from(s: Seq<char>, t: Seq<char>, i: nat)
    ensures
        find_from(s, t, i) is Some <==> exists|k: int| i <= k && #[trigger] stands_at(s, t, k),
    decreases s.len() + 1 - i,
{
    if i <= s.len() && !stands_at(s, t, i as int) {
        lemma_find_from(s, t, i + 1);
        assert forall|k: int| i <= k && #[trigger] stands_at(s, t, k) implies i + 1 <= k by {}
    }
}

/// The name itself is the best match for a query, then come the names that start with it, then those
/// that hold it somewhere, then those that have its characters in order.
pub proof fn law_closer_names_match_better(name: Seq<char>, query: Seq<char>)
    requires
        query.len() > 0,
    ensures
        tier_of(name, query) == Some(0u8) <==> name == query,
        tier_of(name, query) matches Some(tier) && tier <= 1 <==> exists|rest: Seq<char>|
            name == #[trigger] (query + rest),
        tier_of(name, query) matches Some(tier) && tier <= 2 <==> exists|k: int| #[trigger]
            stands_at(name, query, k),
        tier_of(name, query) is Some <==> exists|at: Seq<int>| #[trigger]
            embeds(query, name, at),
{
    law_matches_are_subsequences(name, query);
    lemma_find_from(name, query, 0);
    if name == query {
        assert(query + Seq::<char>::empty() =~= name);
        assert(name.subrange(0, query.len() as int) =~= query);
        assert(stands_at(name, query, 0));
    }
    if query.is_prefix_of(name) {
        assert(query + name.skip(query.len() as int) =~= name);
        assert(name.subrange(0, query.len() as int) =~= query);
        assert(stands_at(name, query, 0));
    }
    if exists|rest: Seq<char>| name == #[trigger] (query + rest) {
        let rest = choose|rest: Seq<char>| name == #[trigger] (query + rest);
        assert(name.subrange(0, query.len() as int) =~= query);
    }
}

/// A text has a suffix where it is something with that behind it.
pub proof fn lemma_ends_in(name: Seq<char>, end: Seq<char>)
    ensures
        end.is_suffix_of(name) <==> exists|front: Seq<char>| name == #[trigger] (front + end),
{
    if end.is_suffix_of(name) {
        assert(name.take(name.len() - end.len()) + end =~= name);
    }
    if exists|front: Seq<char>| name == #[trigger] (front + end) {
        let front = choose|front: Seq<char>| name == #[trigger] (front + end);
        assert(name.subrange(name.len() - end.len(), name.len() as int) =~= end);
    }
}

}
