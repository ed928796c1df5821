//! The order of siblings: ascending by the bytes of their full paths.

use vstd::prelude::*;
use vstd::seq_lib::*;
use crate::entry::{entry_views, visible, visible_entries, Entry, EntryView};
use crate::order::{
    bytes_le, bytes_lt, lemma_le_lt_transitive, lemma_le_transitive, lemma_lt_asymmetric,
    lemma_lt_total, path_before, path_key,
};

verus! {

/// The key by which an entry is ordered among its siblings.
pub open spec fn entry_key(e: EntryView) -> Seq<u8> {
    path_key(e.path)
}

/// No entry comes after a later one.
pub open spec fn ascending(s: Seq<EntryView>) -> bool {
    forall|i: int, j: int|
        0 <= i < j < s.len() ==> bytes_le(#[trigger] entry_key(s[i]), #[trigger] entry_key(s[j]))
}

/// Every entry comes strictly before every later one.
pub open spec fn strictly_ascending(s: Seq<EntryView>) -> bool {
    forall|i: int, j: int|
        0 <= i < j < s.len() ==> bytes_lt(#[trigger] entry_key(s[i]), #[trigger] entry_key(s[j]))
}

/// No two entries have the same path.
pub open spec fn distinct_paths(s: Seq<EntryView>) -> bool {
    forall|i: int, j: int|
        0 <= i < j < s.len() ==> #[trigger] entry_key(s[i]) != #[trigger] entry_key(s[j])
}

/// `p` is the place of `e` in the ascending sequence `s`: behind the entries
/// that come strictly before it, in front of all others.
pub open spec fn is_place(e: EntryView, s: Seq<EntryView>, p: int) -> bool {
    &&& 0 <= p <= s.len()
    &&& forall|j: int| 0 <= j < p ==> bytes_lt(#[trigger] entry_key(s[j]), entry_key(e))
    &&& forall|j: int| p <= j < s.len() ==> !bytes_lt(#[trigger] entry_key(s[j]), entry_key(e))
}

/// The number of leading entries of `s` that come strictly before `e`.
pub open spec fn insert_position(e: EntryView, s: Seq<EntryView>) -> int
    decreases s.len(),
{
    if s.len() > 0 && bytes_lt(entry_key(s[0]), entry_key(e)) {
        1 + insert_position(e, s.drop_first())
    } else {
        0
    }
}

/// `s` with `e` put in behind the leading entries that come strictly before
/// it.
pub open spec fn insert_sorted(e: EntryView, s: Seq<EntryView>) -> Seq<EntryView> {
    s.insert(insert_position(e, s), e)
}

/// The entries of `s` in ascending order of their paths. Entries with the
/// same path keep the order they had in `s`.
pub open spec fn sorted_by_path(s: Seq<EntryView>) -> Seq<EntryView>
    decreases s.len(),
{
    if s.len() == 0 {
        s
    } else {
        insert_sorted(s[0], sorted_by_path(s.drop_first()))
    }
}

/// The entries of a listing as they are printed: the shown ones, in
/// ascending order of their paths.
pub open spec fn arranged(listing: Seq<EntryView>, show_hidden: bool) -> Seq<EntryView> {
    sorted_by_path(visible(listing, show_hidden))
}

/// The insert position lies within the sequence, behind entries that come
/// strictly before `e` and in front of one that does not.
pub proof fn lemma_insert_position(e: EntryView, s: Seq<EntryView>)
    ensures
        0 <= insert_position(e, s) <= s.len(),
        forall|j: int|
            0 <= j < insert_position(e, s) ==> bytes_lt(#[trigger] entry_key(s[j]), entry_key(e)),
        insert_position(e, s) < s.len() ==> !bytes_lt(
            entry_key(s[insert_position(e, s)]),
            entry_key(e),
        ),
    decreases s.len(),
{
    if s.len() > 0 && bytes_lt(entry_key(s[0]), entry_key(e)) {
        let t = s.drop_first();
        lemma_insert_position(e, t);
        assert forall|j: int| 0 <= j < insert_position(e, s) implies bytes_lt(
            #[trigger] entry_key(s[j]),
            entry_key(e),
        ) by {
            if j > 0 {
                assert(s[j] == t[j - 1]);
            }
        }
        if insert_position(e, s) < s.len() {
            assert(s[insert_position(e, s)] == t[insert_position(e, t)]);
        }
    }
}

/// In an ascending sequence the place of an entry is its insert position.
pub proof fn lemma_place_is_insert_position(e: EntryView, s: Seq<EntryView>, p: int)
    requires
        is_place(e, s, p),
    ensures
        p == insert_position(e, s),
    decreases s.len(),
{
    if s.len() > 0 && bytes_lt(entry_key(s[0]), entry_key(e)) {
        let t = s.drop_first();
        assert(p > 0) by {
            if p == 0 {
                assert(!bytes_lt(entry_key(s[0]), entry_key(e)));
            }
        }
        assert forall|j: int| 0 <= j < p - 1 implies bytes_lt(
            #[trigger] entry_key(t[j]),
            entry_key(e),
        ) by {
            assert(t[j] == s[j + 1]);
        }
        assert forall|j: int| p - 1 <= j < t.len() implies !bytes_lt(
            #[trigger] entry_key(t[j]),
            entry_key(e),
        ) by {
            assert(t[j] == s[j + 1]);
        }
        lemma_place_is_insert_position(e, t, p - 1);
    } else if s.len() > 0 {
        if p > 0 {
            assert(bytes_lt(entry_key(s[0]), entry_key(e)));
        }
    }
}

/// Putting an entry into an ascending sequence leaves it ascending.
pub proof fn lemma_insert_keeps_ascending(e: EntryView, s: Seq<EntryView>)
    requires
        ascending(s),
    ensures
        ascending(insert_sorted(e, s)),
{
    let p = insert_position(e, s);
    let r = insert_sorted(e, s);
    lemma_insert_position(e, s);
    assert forall|i: int, j: int| 0 <= i < j < r.len() implies bytes_le(
        #[trigger] entry_key(r[i]),
        #[trigger] entry_key(r[j]),
    ) by {
        if j < p {
            assert(r[i] == s[i] && r[j] == s[j]);
        } else if j == p {
            assert(r[i] == s[i] && r[j] == e);
            lemma_lt_asymmetric(entry_key(s[i]), entry_key(e));
        } else if i < p {
            assert(r[i] == s[i] && r[j] == s[j - 1]);
        } else if i == p {
            assert(r[i] == e && r[j] == s[j - 1]);
            assert(bytes_le(entry_key(e), entry_key(s[p])));
            if j - 1 > p {
                assert(bytes_le(entry_key(s[p]), entry_key(s[j - 1])));
                lemma_le_transitive(entry_key(e), entry_key(s[p]), entry_key(s[j - 1]));
            }
        } else {
            assert(r[i] == s[i - 1] && r[j] == s[j - 1]);
        }
    }
}

/// Putting an entry into a sequence adds it to what the sequence holds and
/// changes nothing else.
pub proof fn lemma_insert_holds(e: EntryView, s: Seq<EntryView>)
    ensures
        insert_sorted(e, s).to_multiset() == s.to_multiset().insert(e),
        insert_sorted(e, s).len() == s.len() + 1,
{
    broadcast use group_to_multiset_ensures;

    let p = insert_position(e, s);
    let r = insert_sorted(e, s);
    lemma_insert_position(e, s);
    assert(r[p] == e);
    assert(r.remove(p) =~= s);
    assert(r.to_multiset().remove(e) == s.to_multiset());
    assert(r.contains(e));
    assert(r.to_multiset() =~= s.to_multiset().insert(e));
}

/// A sorted sequence is ascending.
pub proof fn lemma_sorted_ascending(s: Seq<EntryView>)
    ensures
        ascending(sorted_by_path(s)),
    decreases s.len(),
{
    if s.len() > 0 {
        lemma_sorted_ascending(s.drop_first());
        lemma_insert_keeps_ascending(s[0], sorted_by_path(s.drop_first()));
    }
}

/// Sorting rearranges: the sorted sequence holds each entry as often as the
/// sequence it was made from does, and is as long.
pub proof fn lemma_sorted_permutes(s: Seq<EntryView>)
    ensures
        sorted_by_path(s).to_multiset() == s.to_multiset(),
        sorted_by_path(s).len() == s.len(),
        forall|e: EntryView| sorted_by_path(s).contains(e) <==> s.contains(e),
    decreases s.len(),
{
    broadcast use group_to_multiset_ensures;

    if s.len() > 0 {
        let t = s.drop_first();
        lemma_sorted_permutes(t);
        lemma_insert_holds(s[0], sorted_by_path(t));
        assert(s.remove(0) =~= t);
        assert(t.to_multiset() == s.to_multiset().remove(s[0]));
        assert(s.contains(s[0]));
        assert(sorted_by_path(s).to_multiset() =~= s.to_multiset());
    }
    assert forall|e: EntryView| sorted_by_path(s).contains(e) <==> s.contains(e) by {
        assert(sorted_by_path(s).to_multiset().count(e) == s.to_multiset().count(e));
    }
}

/// Putting an entry into a strictly ascending sequence that holds no entry
/// of the same path leaves it strictly ascending.
pub proof fn lemma_insert_keeps_strict(e: EntryView, s: Seq<EntryView>)
    requires
        strictly_ascending(s),
        forall|j: int| 0 <= j < s.len() ==> #[trigger] entry_key(s[j]) != entry_key(e),
    ensures
        strictly_ascending(insert_sorted(e, s)),
{
    let p = insert_position(e, s);
    let r = insert_sorted(e, s);
    lemma_insert_position(e, s);
    assert forall|i: int, j: int| 0 <= i < j < r.len() implies bytes_lt(
        #[trigger] entry_key(r[i]),
        #[trigger] entry_key(r[j]),
    ) by {
        if j < p {
            assert(r[i] == s[i] && r[j] == s[j]);
        } else if j == p {
            assert(r[i] == s[i] && r[j] == e);
        } else if i < p {
            assert(r[i] == s[i] && r[j] == s[j - 1]);
        } else if i == p {
            assert(r[i] == e && r[j] == s[j - 1]);
            lemma_lt_total(entry_key(e), entry_key(s[p]));
            assert(entry_key(s[p]) != entry_key(e));
            assert(bytes_lt(entry_key(e), entry_key(s[p])));
            if j - 1 > p {
                assert(bytes_lt(entry_key(s[p]), entry_key(s[j - 1])));
                crate::order::lemma_lt_transitive(
                    entry_key(e),
                    entry_key(s[p]),
                    entry_key(s[j - 1]),
                );
            }
        } else {
            assert(r[i] == s[i - 1] && r[j] == s[j - 1]);
        }
    }
}

/// Siblings have different paths, and then the sorted order is strict: each
/// entry comes strictly before the next.
pub proof fn lemma_sorted_strictly_ascending(s: Seq<EntryView>)
    requires
        distinct_paths(s),
    ensures
        strictly_ascending(sorted_by_path(s)),
    decreases s.len(),
{
    if s.len() > 0 {
        let t = s.drop_first();
        let u = sorted_by_path(t);
        assert forall|i: int, j: int| 0 <= i < j < t.len() implies #[trigger] entry_key(t[i])
            != #[trigger] entry_key(t[j]) by {
            assert(t[i] == s[i + 1] && t[j] == s[j + 1]);
        }
        lemma_sorted_strictly_ascending(t);
        lemma_sorted_permutes(t);
        assert forall|j: int| 0 <= j < u.len() implies #[trigger] entry_key(u[j]) != entry_key(
            s[0],
        ) by {
            assert(u.contains(u[j]));
            assert(t.contains(u[j]));
            let k = choose|k: int| 0 <= k < t.len() && t[k] == u[j];
            assert(t[k] == s[k + 1]);
            assert(entry_key(s[0]) != entry_key(s[k + 1]));
        }
        lemma_insert_keeps_strict(s[0], u);
    }
}

/// Leaving entries out of a listing whose paths differ leaves paths that
/// differ.
pub proof fn lemma_visible_keeps_distinct(listing: Seq<EntryView>, show_hidden: bool)
    requires
        distinct_paths(listing),
    ensures
        distinct_paths(visible(listing, show_hidden)),
    decreases listing.len(),
{
    reveal(Seq::filter);
    if listing.len() > 0 {
        let t = listing.drop_last();
        let v = visible(t, show_hidden);
        assert forall|i: int, j: int| 0 <= i < j < t.len() implies #[trigger] entry_key(t[i])
            != #[trigger] entry_key(t[j]) by {
            assert(t[i] == listing[i] && t[j] == listing[j]);
        }
        lemma_visible_keeps_distinct(t, show_hidden);
        let w = visible(listing, show_hidden);
        assert forall|i: int, j: int| 0 <= i < j < w.len() implies #[trigger] entry_key(w[i])
            != #[trigger] entry_key(w[j]) by {
            if j < v.len() {
                assert(w[i] == v[i] && w[j] == v[j]);
            } else {
                assert(w[i] == v[i] && w[j] == listing.last());
                t.lemma_filter_contains_rev(|e: EntryView| crate::entry::shown(e, show_hidden), v[i]);
                assert(v.contains(v[i]));
                let k = choose|k: int| 0 <= k < t.len() && t[k] == v[i];
                assert(t[k] == listing[k]);
                assert(entry_key(listing[k]) != entry_key(listing[listing.len() - 1]));
            }
        }
    }
}

/// The entries whose key is `key`.
pub open spec fn has_key(key: Seq<u8>) -> spec_fn(EntryView) -> bool {
    |e: EntryView| entry_key(e) == key
}

/// Where no entry has the key, none is picked out.
proof fn lemma_none_has_key(s: Seq<EntryView>, key: Seq<u8>)
    requires
        forall|j: int| 0 <= j < s.len() ==> #[trigger] entry_key(s[j]) != key,
    ensures
        s.filter(has_key(key)) == Seq::<EntryView>::empty(),
    decreases s.len(),
{
    reveal(Seq::filter);
    if s.len() > 0 {
        let front = s.drop_last();
        assert forall|j: int| 0 <= j < front.len() implies #[trigger] entry_key(front[j])
            != key by {
            assert(front[j] == s[j]);
        }
        lemma_none_has_key(front, key);
        assert(entry_key(s[s.len() - 1]) != key);
    }
}

/// Of a single entry, the entry is picked out if it has the key.
proof fn lemma_one_has_key(e: EntryView, key: Seq<u8>)
    ensures
        seq![e].filter(has_key(key)) == if entry_key(e) == key {
            seq![e]
        } else {
            Seq::<EntryView>::empty()
        },
{
    reveal(Seq::filter);
    let one = seq![e];
    assert(one.drop_last() =~= Seq::<EntryView>::empty());
    assert(one.last() == e);
    assert(one.drop_last().filter(has_key(key)) =~= Seq::<EntryView>::empty());
    if entry_key(e) == key {
        assert(one.filter(has_key(key)) =~= one);
    }
}

/// Sorting is stable: the entries of any one path stand in the sorted
/// sequence in the order in which they stood before.
pub proof fn lemma_sorted_stable(s: Seq<EntryView>, key: Seq<u8>)
    ensures
        sorted_by_path(s).filter(has_key(key)) == s.filter(has_key(key)),
    decreases s.len(),
{
    if s.len() > 0 {
        let e = s[0];
        let t = s.drop_first();
        let u = sorted_by_path(t);
        let p = insert_position(e, u);
        let pick = has_key(key);
        lemma_sorted_stable(t, key);
        lemma_insert_position(e, u);
        lemma_one_has_key(e, key);
        let front = u.subrange(0, p);
        let back = u.subrange(p, u.len() as int);
        assert(u =~= front + back);
        assert(insert_sorted(e, u) =~= (front + seq![e]) + back);
        assert(s =~= seq![e] + t);
        Seq::filter_distributes_over_add(front, back, pick);
        Seq::filter_distributes_over_add(front, seq![e], pick);
        Seq::filter_distributes_over_add(front + seq![e], back, pick);
        Seq::filter_distributes_over_add(seq![e], t, pick);
        if entry_key(e) == key {
            assert forall|j: int| 0 <= j < front.len() implies #[trigger] entry_key(front[j])
                != key by {
                assert(front[j] == u[j]);
                assert(bytes_lt(entry_key(u[j]), entry_key(e)));
                crate::order::lemma_lt_irreflexive(key);
            }
            lemma_none_has_key(front, key);
            assert(Seq::<EntryView>::empty() + seq![e] =~= seq![e]);
            assert(Seq::<EntryView>::empty() + back.filter(pick) =~= back.filter(pick));
        } else {
            assert(front.filter(pick) + Seq::<EntryView>::empty() =~= front.filter(pick));
            assert(Seq::<EntryView>::empty() + t.filter(pick) =~= t.filter(pick));
        }
    }
}

/// The place of `e` in the ascending `sorted`: the number of entries that
/// come strictly before it.
fn place_of(sorted: &Vec<Entry>, e: &Entry) -> (p: usize)
    requires
        ascending(entry_views(sorted@)),
    ensures
        p == insert_position(e@, entry_views(sorted@)),
        p <= sorted@.len(),
{
    let ghost v = entry_views(sorted@);
    let mut lo: usize = 0;
    let mut hi: usize = sorted.len();
    while lo < hi
        invariant
            lo <= hi <= sorted@.len(),
            v == entry_views(sorted@),
            ascending(v),
            forall|j: int| 0 <= j < lo ==> bytes_lt(#[trigger] entry_key(v[j]), entry_key(e@)),
            forall|j: int|
                hi <= j < v.len() ==> !bytes_lt(#[trigger] entry_key(v[j]), entry_key(e@)),
        decreases hi - lo,
    {
        let mid: usize = lo + (hi - lo) / 2;
        assert(v[mid as int] == sorted@[mid as int]@);
        if path_before(sorted[mid].path.as_str(), e.path.as_str()) {
            proof {
                assert forall|j: int| 0 <= j < mid + 1 implies bytes_lt(
                    #[trigger] entry_key(v[j]),
                    entry_key(e@),
                ) by {
                    if j < mid {
                        assert(bytes_le(entry_key(v[j]), entry_key(v[mid as int])));
                        lemma_le_lt_transitive(
                            entry_key(v[j]),
                            entry_key(v[mid as int]),
                            entry_key(e@),
                        );
                    }
                }
            }
            lo = mid + 1;
        } else {
            proof {
                assert forall|j: int| mid <= j < v.len() implies !bytes_lt(
                    #[trigger] entry_key(v[j]),
                    entry_key(e@),
                ) by {
                    if j > mid {
                        assert(bytes_le(entry_key(v[mid as int]), entry_key(v[j])));
                        lemma_le_transitive(
                            entry_key(e@),
                            entry_key(v[mid as int]),
                            entry_key(v[j]),
                        );
                    }
                }
            }
            hi = mid;
        }
    }
    proof {
        lemma_place_is_insert_position(e@, v, lo as int);
    }
    lo
}

/// Sorts the entries in ascending order of their full paths, compared byte by
/// byte. Entries with the same path keep their order.
pub fn sort_by_path(entries: Vec<Entry>) -> (sorted: Vec<Entry>)
    ensures
        entry_views(sorted@) == sorted_by_path(entry_views(entries@)),
        ascending(entry_views(sorted@)),
        entry_views(sorted@).to_multiset() == entry_views(entries@).to_multiset(),
        distinct_paths(entry_views(entries@)) ==> strictly_ascending(entry_views(sorted@)),
        forall|key: Seq<u8>| #[trigger]
            entry_views(sorted@).filter(has_key(key)) == entry_views(entries@).filter(
                has_key(key),
            ),
{
    let ghost all = entry_views(entries@);
    let mut rest = entries;
    let mut sorted: Vec<Entry> = Vec::new();
    assert(all.subrange(0, all.len() as int) =~= all);
    assert(all.subrange(all.len() as int, all.len() as int) =~= Seq::<EntryView>::empty());
    assert(entry_views(sorted@) =~= Seq::<EntryView>::empty());
    while rest.len() > 0
        invariant
            rest@.len() <= all.len(),
            entry_views(rest@) == all.subrange(0, rest@.len() as int),
            entry_views(sorted@) == sorted_by_path(
                all.subrange(rest@.len() as int, all.len() as int),
            ),
        decreases rest@.len(),
    {
        let ghost k = rest@.len() - 1;
        let ghost tail = all.subrange(k + 1, all.len() as int);
        let ghost before = entry_views(sorted@);
        let ghost rest_before = rest@;
        let e = rest.pop().unwrap();
        proof {
            lemma_sorted_ascending(tail);
            assert(entry_views(rest_before)[k] == rest_before[k]@);
            assert(e@ == all[k]);
        }
        let p = place_of(&sorted, &e);
        sorted.insert(p, e);
        proof {
            assert(entry_views(sorted@) =~= before.insert(p as int, e@));
            assert(all.subrange(k, all.len() as int).drop_first() =~= tail);
            assert(all.subrange(k, all.len() as int)[0] == all[k]);
            assert(entry_views(rest@) =~= all.subrange(0, k));
        }
    }
    proof {
        assert(all.subrange(0, all.len() as int) =~= all);
        lemma_sorted_ascending(all);
        lemma_sorted_permutes(all);
        if distinct_paths(all) {
            lemma_sorted_strictly_ascending(all);
        }
        assert forall|key: Seq<u8>| #[trigger]
            sorted_by_path(all).filter(has_key(key)) == all.filter(has_key(key)) by {
            lemma_sorted_stable(all, key);
        }
    }
    sorted
}

/// The entries of a listing as they are printed: hidden ones left out unless
/// `show_hidden` is set, the rest in ascending order of their full paths.
pub fn arrange(listing: &[Entry], show_hidden: bool) -> (shown: Vec<Entry>)
    ensures
        entry_views(shown@) == arranged(entry_views(listing@), show_hidden),
        ascending(entry_views(shown@)),
        distinct_paths(entry_views(listing@)) ==> strictly_ascending(entry_views(shown@)),
{
    proof {
        if distinct_paths(entry_views(listing@)) {
            lemma_visible_keeps_distinct(entry_views(listing@), show_hidden);
        }
    }
    sort_by_path(visible_entries(listing, show_hidden))
}

} // verus!
