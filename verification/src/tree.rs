//! The ordered tree: a mapping from numeric path to value, kept in the
//! order of the paths.

use vstd::prelude::*;
use crate::oid::{path_lt, path_less, path_equal, lemma_path_lt_irreflexive, lemma_path_lt_transitive, lemma_path_lt_asymmetric, lemma_path_lt_total};
use crate::value::{WireValue, WireModel};

verus! {

/// The content of a tree: its entries, in order.
pub type Entries = Seq<(Seq<u32>, WireModel)>;

/// The keys rise strictly from one entry to the next.
pub open spec fn sorted(s: Entries) -> bool {
    forall|i: int, j: int| 0 <= i < j < s.len() ==> path_lt(#[trigger] s[i].0, #[trigger] s[j].0)
}

/// Some entry has the key `k`.
pub open spec fn has_key(s: Entries, k: Seq<u32>) -> bool {
    exists|i: int| 0 <= i < s.len() && #[trigger] s[i].0 == k
}

/// The value stored under `k`, if any.
pub open spec fn lookup(s: Entries, k: Seq<u32>) -> Option<WireModel> {
    if has_key(s, k) {
        Some(s[choose|i: int| 0 <= i < s.len() && #[trigger] s[i].0 == k].1)
    } else {
        None
    }
}

/// The content of a tree as a mapping from key to value.
pub open spec fn as_map(s: Entries) -> Map<Seq<u32>, WireModel> {
    Map::new(|k: Seq<u32>| lookup(s, k) is Some, |k: Seq<u32>| lookup(s, k)->0)
}

/// A search that starts at `start` may return the key `k`.
pub open spec fn admits(start: Seq<u32>, inclusive: bool, k: Seq<u32>) -> bool {
    path_lt(start, k) || (inclusive && k == start)
}

/// `k` is the least key of `s` that a search from `start` may return.
pub open spec fn is_successor(s: Entries, start: Seq<u32>, inclusive: bool, k: Seq<u32>) -> bool {
    &&& has_key(s, k)
    &&& admits(start, inclusive, k)
    &&& forall|k2: Seq<u32>| #[trigger] has_key(s, k2) && admits(start, inclusive, k2) ==> !path_lt(k2, k)
}

/// No key of `s` can be returned by a search from `start`.
pub open spec fn no_successor(s: Entries, start: Seq<u32>, inclusive: bool) -> bool {
    forall|k2: Seq<u32>| #[trigger] has_key(s, k2) ==> !admits(start, inclusive, k2)
}

/// In a sorted sequence an entry is found under its own key.
pub proof fn lemma_lookup_index(s: Entries, i: int)
    requires
        sorted(s),
        0 <= i < s.len(),
    ensures
        has_key(s, s[i].0),
        lookup(s, s[i].0) == Some(s[i].1),
{
    let k = s[i].0;
    assert(s[i].0 == k);
    let j = choose|j: int| 0 <= j < s.len() && #[trigger] s[j].0 == k;
    lemma_path_lt_irreflexive(k);
    if j < i {
        assert(path_lt(s[j].0, s[i].0));
    } else if i < j {
        assert(path_lt(s[i].0, s[j].0));
    }
}

/// In a sorted sequence the keys stand in the order of their positions.
pub proof fn lemma_position_order(s: Entries, i: int, j: int)
    requires
        sorted(s),
        0 <= i < s.len(),
        0 <= j < s.len(),
    ensures
        path_lt(s[i].0, s[j].0) <==> i < j,
{
    lemma_path_lt_irreflexive(s[i].0);
    if j < i {
        assert(path_lt(s[j].0, s[i].0));
        lemma_path_lt_asymmetric(s[j].0, s[i].0);
    }
}

/// The order of the keys is the order in which searches find them: of two
/// keys of a tree, the first comes before the second exactly if the search
/// that starts after the first finds a key that is not beyond the second.
pub proof fn lemma_order_is_search_order(s: Entries, a: Seq<u32>, b: Seq<u32>)
    requires
        sorted(s),
        has_key(s, a),
        has_key(s, b),
    ensures
        path_lt(a, b) <==> exists|k: Seq<u32>| is_successor(s, a, false, k) && !path_lt(b, k),
{
    let ia = choose|i: int| 0 <= i < s.len() && #[trigger] s[i].0 == a;
    let ib = choose|i: int| 0 <= i < s.len() && #[trigger] s[i].0 == b;
    if path_lt(a, b) {
        lemma_position_order(s, ia, ib);
        let k = s[ia + 1].0;
        lemma_position_order(s, ia, ia + 1);
        lemma_position_order(s, ib, ia + 1);
        assert forall|k2: Seq<u32>| #[trigger] has_key(s, k2) && admits(a, false, k2) implies !path_lt(
            k2,
            k,
        ) by {
            let j = choose|j: int| 0 <= j < s.len() && #[trigger] s[j].0 == k2;
            lemma_position_order(s, ia, j);
            lemma_position_order(s, j, ia + 1);
        }
        assert(is_successor(s, a, false, k) && !path_lt(b, k));
    }
    if exists|k: Seq<u32>| is_successor(s, a, false, k) && !path_lt(b, k) {
        let k = choose|k: Seq<u32>| is_successor(s, a, false, k) && !path_lt(b, k);
        lemma_path_lt_total(k, b);
        if path_lt(k, b) {
            lemma_path_lt_transitive(a, k, b);
        }
    }
}

/// Two sorted sequences that hold the same mapping are the same sequence.
pub proof fn lemma_sorted_unique(s1: Entries, s2: Entries)
    requires
        sorted(s1),
        sorted(s2),
        as_map(s1) == as_map(s2),
    ensures
        s1 == s2,
    decreases s1.len(),
{
    assert forall|k: Seq<u32>| lookup(s1, k) == lookup(s2, k) by {
        assert(as_map(s1).dom().contains(k) == (lookup(s1, k) is Some));
        assert(as_map(s2).dom().contains(k) == (lookup(s2, k) is Some));
        if lookup(s1, k) is Some {
            assert(as_map(s1)[k] == lookup(s1, k)->0);
            assert(as_map(s2)[k] == lookup(s2, k)->0);
        }
    }
    if s1.len() == 0 {
        if s2.len() > 0 {
            lemma_lookup_index(s2, 0);
        }
        assert(s1 =~= s2);
    } else if s2.len() == 0 {
        lemma_lookup_index(s1, 0);
    } else {
        let n1 = s1.len() - 1;
        let n2 = s2.len() - 1;
        lemma_lookup_index(s1, n1);
        lemma_lookup_index(s2, n2);
        let j2 = choose|j: int| 0 <= j < s2.len() && #[trigger] s2[j].0 == s1[n1].0;
        let j1 = choose|j: int| 0 <= j < s1.len() && #[trigger] s1[j].0 == s2[n2].0;
        lemma_position_order(s2, j2, n2);
        lemma_position_order(s1, j1, n1);
        lemma_position_order(s2, n2, j2);
        lemma_position_order(s1, n1, j1);
        lemma_path_lt_total(s1[n1].0, s2[n2].0);
        if path_lt(s1[n1].0, s2[n2].0) {
            lemma_path_lt_asymmetric(s1[n1].0, s2[n2].0);
        }
        assert(s1[n1].0 == s2[n2].0);
        assert(s1[n1] == s2[n2]);
        let d1 = s1.drop_last();
        let d2 = s2.drop_last();
        assert forall|k: Seq<u32>| lookup(d1, k) == lookup(d2, k) by {
            lemma_drop_last_lookup(s1, k);
            lemma_drop_last_lookup(s2, k);
        }
        assert(as_map(d1) =~= as_map(d2));
        lemma_sorted_unique(d1, d2);
        assert(s1 =~= d1.push(s1[n1]));
        assert(s2 =~= d2.push(s2[n2]));
    }
}

/// Without its last entry a sorted sequence holds what it held, but for
/// the last key.
pub proof fn lemma_drop_last_lookup(s: Entries, k: Seq<u32>)
    requires
        sorted(s),
        s.len() > 0,
    ensures
        sorted(s.drop_last()),
        lookup(s.drop_last(), k) == if k == s.last().0 {
            None
        } else {
            lookup(s, k)
        },
{
    let d = s.drop_last();
    let n = s.len() - 1;
    assert forall|i: int, j: int| 0 <= i < j < d.len() implies path_lt(
        #[trigger] d[i].0,
        #[trigger] d[j].0,
    ) by {
        assert(path_lt(s[i].0, s[j].0));
    }
    if has_key(d, k) {
        let i = choose|i: int| 0 <= i < d.len() && #[trigger] d[i].0 == k;
        assert(s[i].0 == k);
        lemma_lookup_index(d, i);
        lemma_lookup_index(s, i);
        lemma_position_order(s, i, n);
        lemma_path_lt_irreflexive(k);
    } else if has_key(s, k) {
        let j = choose|j: int| 0 <= j < s.len() && #[trigger] s[j].0 == k;
        if j < n {
            assert(d[j].0 == k);
        }
    }
}

pub struct MibTree {
    entries: Vec<(Vec<u32>, WireValue)>,
}

impl View for MibTree {
    type V = Entries;

    closed spec fn view(&self) -> Entries {
        Seq::new(self.entries@.len(), |i: int| (self.entries@[i].0@, self.entries@[i].1@))
    }
}

impl MibTree {
    /// The keys are in strictly rising order, so no key occurs twice.
    pub open spec fn wf(&self) -> bool {
        sorted(self@)
    }

    /// The empty tree.
    pub fn new() -> (t: MibTree)
        ensures
            t@ == Seq::<(Seq<u32>, WireModel)>::empty(),
            t.wf(),
    {
        let t = MibTree { entries: Vec::new() };
        assert(t@ =~= Seq::<(Seq<u32>, WireModel)>::empty());
        t
    }

    /// Removes every entry.
    pub fn clear(&mut self)
        ensures
            final(self)@ == Seq::<(Seq<u32>, WireModel)>::empty(),
            final(self).wf(),
    {
        self.entries.clear();
        assert(self@ =~= Seq::<(Seq<u32>, WireModel)>::empty());
    }

    /// The number of entries.
    pub fn len(&self) -> (n: usize)
        ensures
            n == self@.len(),
    {
        self.entries.len()
    }

    /// The key of the entry at position `i`, in the order of the keys.
    pub fn key_at(&self, i: usize) -> (k: &Vec<u32>)
        requires
            i < self@.len(),
        ensures
            k@ == self@[i as int].0,
    {
        &self.entries[i].0
    }

    /// The value of the entry at position `i`, in the order of the keys.
    pub fn value_at(&self, i: usize) -> (v: &WireValue)
        requires
            i < self@.len(),
        ensures
            v@ == self@[i as int].1,
    {
        &self.entries[i].1
    }

    /// The position of the first entry whose key does not come before `key`.
    fn lower_bound(&self, key: &Vec<u32>) -> (idx: usize)
        requires
            self.wf(),
        ensures
            idx <= self@.len(),
            forall|i: int| 0 <= i < idx ==> path_lt(#[trigger] self@[i].0, key@),
            forall|i: int| idx <= i < self@.len() ==> !path_lt(#[trigger] self@[i].0, key@),
    {
        let mut lo: usize = 0;
        let mut hi: usize = self.entries.len();
        while lo < hi
            invariant
                self.wf(),
                0 <= lo <= hi <= self@.len(),
                self@.len() == self.entries@.len(),
                forall|i: int| 0 <= i < lo ==> path_lt(#[trigger] self@[i].0, key@),
                forall|i: int| hi <= i < self@.len() ==> !path_lt(#[trigger] self@[i].0, key@),
            decreases hi - lo,
        {
            let mid = lo + (hi - lo) / 2;
            if path_less(&self.entries[mid].0, key) {
                proof {
                    assert forall|i: int| 0 <= i < mid + 1 implies path_lt(
                        #[trigger] self@[i].0,
                        key@,
                    ) by {
                        if i < mid {
                            assert(path_lt(self@[i].0, self@[mid as int].0));
                            lemma_path_lt_transitive(self@[i].0, self@[mid as int].0, key@);
                        }
                    }
                }
                lo = mid + 1;
            } else {
                proof {
                    assert forall|i: int| mid <= i < self@.len() implies !path_lt(
                        #[trigger] self@[i].0,
                        key@,
                    ) by {
                        if i > mid && path_lt(self@[i].0, key@) {
                            assert(path_lt(self@[mid as int].0, self@[i].0));
                            lemma_path_lt_transitive(self@[mid as int].0, self@[i].0, key@);
                        }
                    }
                }
                hi = mid;
            }
        }
        lo
    }

    /// The value stored under `key`.
    pub fn get(&self, key: &Vec<u32>) -> (r: Option<&WireValue>)
        requires
            self.wf(),
        ensures
            match r {
                Some(v) => lookup(self@, key@) == Some(v@),
                None => lookup(self@, key@) is None,
            },
    {
        let idx = self.lower_bound(key);
        if idx < self.entries.len() && path_equal(&self.entries[idx].0, key) {
            proof {
                lemma_lookup_index(self@, idx as int);
            }
            Some(&self.entries[idx].1)
        } else {
            proof {
                lemma_path_lt_irreflexive(key@);
                if has_key(self@, key@) {
                    let i = choose|i: int| 0 <= i < self@.len() && #[trigger] self@[i].0 == key@;
                    if i > idx {
                        assert(path_lt(self@[idx as int].0, self@[i].0));
                    }
                }
            }
            None
        }
    }

    /// Stores `value` under `key`, in place of what was stored there.
    pub fn insert(&mut self, key: Vec<u32>, value: WireValue)
        requires
            old(self).wf(),
        ensures
            final(self).wf(),
            forall|k: Seq<u32>|
                lookup(final(self)@, k) == if k == key@ {
                    Some(value@)
                } else {
                    lookup(old(self)@, k)
                },
            as_map(final(self)@) == as_map(old(self)@).insert(key@, value@),
    {
        let idx = self.lower_bound(&key);
        let ghost s0 = self@;
        let ghost kv = key@;
        let ghost vv = value@;
        let replace = idx < self.entries.len() && path_equal(&self.entries[idx].0, &key);
        if replace {
            self.entries.set(idx, (key, value));
            proof {
                let s1 = self@;
                assert(s1 =~= s0.update(idx as int, (kv, vv)));
                assert forall|i: int, j: int| 0 <= i < j < s1.len() implies path_lt(
                    #[trigger] s1[i].0,
                    #[trigger] s1[j].0,
                ) by {
                    assert(path_lt(s0[i].0, s0[j].0));
                }
                assert forall|k: Seq<u32>|
                    lookup(s1, k) == if k == kv {
                        Some(vv)
                    } else {
                        lookup(s0, k)
                    } by {
                    if k == kv {
                        lemma_lookup_index(s1, idx as int);
                    } else if has_key(s0, k) {
                        let i = choose|i: int| 0 <= i < s0.len() && #[trigger] s0[i].0 == k;
                        assert(s1[i].0 == k);
                        lemma_lookup_index(s0, i);
                        lemma_lookup_index(s1, i);
                    } else if has_key(s1, k) {
                        let j = choose|j: int| 0 <= j < s1.len() && #[trigger] s1[j].0 == k;
                        assert(s0[j].0 == k);
                    }
                }
            }
        } else {
            self.entries.insert(idx, (key, value));
            proof {
                let s1 = self@;
                assert(s1 =~= s0.insert(idx as int, (kv, vv)));
                assert forall|i: int| idx <= i < s0.len() implies path_lt(kv, #[trigger] s0[i].0) by {
                    lemma_path_lt_total(kv, s0[i].0);
                    if i > idx && s0[i].0 == kv {
                        assert(path_lt(s0[idx as int].0, s0[i].0));
                    }
                }
                assert forall|i: int, j: int| 0 <= i < j < s1.len() implies path_lt(
                    #[trigger] s1[i].0,
                    #[trigger] s1[j].0,
                ) by {
                    let a = if i < idx { i } else { i - 1 };
                    let b = if j < idx { j } else { j - 1 };
                    if i != idx && j != idx {
                        assert(path_lt(s0[a].0, s0[b].0));
                    } else if i == idx {
                        assert(path_lt(kv, s0[b].0));
                    } else {
                        assert(path_lt(s0[a].0, kv));
                    }
                }
                lemma_path_lt_irreflexive(kv);
                assert forall|k: Seq<u32>|
                    lookup(s1, k) == if k == kv {
                        Some(vv)
                    } else {
                        lookup(s0, k)
                    } by {
                    if k == kv {
                        lemma_lookup_index(s1, idx as int);
                    } else if has_key(s0, k) {
                        let i = choose|i: int| 0 <= i < s0.len() && #[trigger] s0[i].0 == k;
                        let i1 = if i < idx { i } else { i + 1 };
                        assert(s1[i1].0 == k);
                        lemma_lookup_index(s0, i);
                        lemma_lookup_index(s1, i1);
                    } else if has_key(s1, k) {
                        let j = choose|j: int| 0 <= j < s1.len() && #[trigger] s1[j].0 == k;
                        let j0 = if j < idx { j } else { j - 1 };
                        assert(s0[j0].0 == k);
                    }
                }
            }
        }
        assert(as_map(self@) =~= as_map(s0).insert(kv, vv));
    }

    /// The entry with the least key that a search from `start` may return:
    /// the least key at or after `start` when `inclusive`, the least key
    /// after it otherwise.
    pub fn successor(&self, start: &Vec<u32>, inclusive: bool) -> (r: Option<(&Vec<u32>, &WireValue)>)
        requires
            self.wf(),
        ensures
            match r {
                Some((k, v)) => is_successor(self@, start@, inclusive, k@) && lookup(self@, k@)
                    == Some(v@),
                None => no_successor(self@, start@, inclusive),
            },
    {
        let mut idx = self.lower_bound(start);
        let ghost lb = idx;
        if !inclusive && idx < self.entries.len() && path_equal(&self.entries[idx].0, start) {
            idx += 1;
        }
        let ghost s = self@;
        proof {
            lemma_path_lt_irreflexive(start@);
            // Below `idx` nothing is admitted; from `idx` on everything is.
            assert forall|i: int| 0 <= i < idx implies !admits(start@, inclusive, #[trigger] s[i].0) by {
                if i < lb {
                    lemma_path_lt_asymmetric(s[i].0, start@);
                }
            }
            assert forall|i: int| idx <= i < s.len() implies admits(
                start@,
                inclusive,
                #[trigger] s[i].0,
            ) by {
                lemma_path_lt_total(start@, s[i].0);
                if i > lb && s[i].0 == start@ {
                    assert(path_lt(s[lb as int].0, s[i].0));
                }
            }
        }
        if idx < self.entries.len() {
            proof {
                lemma_lookup_index(s, idx as int);
                let k = s[idx as int].0;
                assert forall|k2: Seq<u32>| #[trigger]
                    has_key(s, k2) && admits(start@, inclusive, k2) implies !path_lt(k2, k) by {
                    let i = choose|i: int| 0 <= i < s.len() && #[trigger] s[i].0 == k2;
                    if i > idx {
                        assert(path_lt(s[idx as int].0, s[i].0));
                        lemma_path_lt_asymmetric(k, k2);
                    } else if i == idx {
                        lemma_path_lt_irreflexive(k);
                    }
                }
            }
            Some((&self.entries[idx].0, &self.entries[idx].1))
        } else {
            proof {
                assert forall|k2: Seq<u32>| #[trigger] has_key(s, k2) implies !admits(
                    start@,
                    inclusive,
                    k2,
                ) by {
                    let i = choose|i: int| 0 <= i < s.len() && #[trigger] s[i].0 == k2;
                }
            }
            None
        }
    }
}

} // verus!
