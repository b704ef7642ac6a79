//! Sequences of records: what it means for one to be sorted by key, and the
//! map from key to value that a sorted one stands for.

use std::collections::HashMap;
use vstd::prelude::*;
use vstd::std_specs::iter::IteratorSpec;

verus! {

/// The value that marks a deleted key.
pub const TOMBSTONE: i64 = i64::MIN;

/// The keys rise strictly from each record to the next.
pub open spec fn keys_ascend(s: Seq<(i64, i64)>) -> bool {
    forall|i: int, j: int| 0 <= i < j < s.len() ==> s[i].0 < s[j].0
}

/// Some record of `s` has the key `k`.
pub open spec fn has_key(s: Seq<(i64, i64)>, k: i64) -> bool {
    exists|i: int| 0 <= i < s.len() && #[trigger] s[i].0 == k
}

/// The place of a record with the key `k` in `s`.
pub open spec fn index_of_key(s: Seq<(i64, i64)>, k: i64) -> int {
    choose|i: int| 0 <= i < s.len() && #[trigger] s[i].0 == k
}

/// The map from key to value that the records of `s` stand for.
pub open spec fn entries_map(s: Seq<(i64, i64)>) -> Map<i64, i64> {
    Map::new(|k: i64| has_key(s, k), |k: i64| s[index_of_key(s, k)].1)
}

/// The part of `m` whose keys lie in the closed interval from `lo` to `hi`.
pub open spec fn range_of(m: Map<i64, i64>, lo: i64, hi: i64) -> Map<i64, i64> {
    m.restrict(Set::new(|k: i64| lo <= k <= hi))
}

/// In a sequence with rising keys, each record is the entry of its key.
pub proof fn lemma_entry_at(s: Seq<(i64, i64)>, i: int)
    requires
        keys_ascend(s),
        0 <= i < s.len(),
    ensures
        has_key(s, s[i].0),
        entries_map(s).contains_key(s[i].0),
        entries_map(s)[s[i].0] == s[i].1,
        index_of_key(s, s[i].0) == i,
{
    let j = index_of_key(s, s[i].0);
    assert(s[i].0 == s[i].0);
    if j < i {
        assert(s[j].0 < s[i].0);
    }
    if i < j {
        assert(s[i].0 < s[j].0);
    }
}

/// What rising keys mean for `left`, one record, then `right`.
pub proof fn lemma_ascend_join(left: Seq<(i64, i64)>, mid: (i64, i64), right: Seq<(i64, i64)>)
    ensures
        keys_ascend(left + seq![mid] + right) <==> {
            &&& keys_ascend(left)
            &&& keys_ascend(right)
            &&& forall|i: int| 0 <= i < left.len() ==> (#[trigger] left[i]).0 < mid.0
            &&& forall|i: int| 0 <= i < right.len() ==> mid.0 < (#[trigger] right[i]).0
        },
{
    let s = left + seq![mid] + right;
    let n = left.len() as int;
    assert(s[n] == mid);
    if keys_ascend(s) {
        assert forall|i: int, j: int| 0 <= i < j < left.len() implies left[i].0 < left[j].0 by {
            assert(s[i] == left[i] && s[j] == left[j]);
        }
        assert forall|i: int, j: int| 0 <= i < j < right.len() implies right[i].0 < right[j].0 by {
            assert(s[n + 1 + i] == right[i] && s[n + 1 + j] == right[j]);
        }
        assert forall|i: int| 0 <= i < left.len() implies (#[trigger] left[i]).0 < mid.0 by {
            assert(s[i] == left[i]);
        }
        assert forall|i: int| 0 <= i < right.len() implies mid.0 < (#[trigger] right[i]).0 by {
            assert(s[n + 1 + i] == right[i]);
        }
    }
    if keys_ascend(left) && keys_ascend(right) && (forall|i: int|
        0 <= i < left.len() ==> (#[trigger] left[i]).0 < mid.0) && (forall|i: int|
        0 <= i < right.len() ==> mid.0 < (#[trigger] right[i]).0) {
        assert forall|i: int, j: int| 0 <= i < j < s.len() implies s[i].0 < s[j].0 by {
            if i < n {
                assert(s[i] == left[i]);
            } else if i > n {
                assert(s[i] == right[i - n - 1]);
            }
            if j < n {
                assert(s[j] == left[j]);
            } else if j > n {
                assert(s[j] == right[j - n - 1]);
            }
        }
    }
}

/// The keys of `left`, one record, then `right` are those of the parts.
pub proof fn lemma_has_key_join(
    left: Seq<(i64, i64)>,
    mid: (i64, i64),
    right: Seq<(i64, i64)>,
    k: i64,
)
    ensures
        has_key(left + seq![mid] + right, k) <==> (has_key(left, k) || k == mid.0 || has_key(
            right,
            k,
        )),
{
    let s = left + seq![mid] + right;
    let n = left.len() as int;
    assert(s[n] == mid);
    if has_key(s, k) {
        let i = index_of_key(s, k);
        if i < n {
            assert(left[i].0 == k);
        } else if i > n {
            assert(right[i - n - 1].0 == k);
        }
    }
    if has_key(left, k) {
        let i = index_of_key(left, k);
        assert(s[i].0 == k);
    }
    if has_key(right, k) {
        let i = index_of_key(right, k);
        assert(s[n + 1 + i].0 == k);
    }
    if k == mid.0 {
        assert(s[n].0 == k);
    }
}

/// The value under `k` in `left`, one record, then `right`, when the keys
/// rise: it is the value in the part that holds `k`.
pub proof fn lemma_entry_join(
    left: Seq<(i64, i64)>,
    mid: (i64, i64),
    right: Seq<(i64, i64)>,
    k: i64,
)
    requires
        keys_ascend(left + seq![mid] + right),
        has_key(left + seq![mid] + right, k),
    ensures
        has_key(left, k) ==> entries_map(left + seq![mid] + right)[k] == entries_map(left)[k],
        k == mid.0 ==> entries_map(left + seq![mid] + right)[k] == mid.1,
        has_key(right, k) ==> entries_map(left + seq![mid] + right)[k] == entries_map(right)[k],
{
    let s = left + seq![mid] + right;
    let n = left.len() as int;
    lemma_ascend_join(left, mid, right);
    assert(s[n] == mid);
    if has_key(left, k) {
        let i = index_of_key(left, k);
        assert(s[i] == left[i]);
        lemma_entry_at(s, i);
        lemma_entry_at(left, i);
    }
    if k == mid.0 {
        lemma_entry_at(s, n);
    }
    if has_key(right, k) {
        let i = index_of_key(right, k);
        assert(s[n + 1 + i] == right[i]);
        lemma_entry_at(s, n + 1 + i);
        lemma_entry_at(right, i);
    }
}


/// What a scan leaves in its result map: the entries of `found` are added to
/// `before`, except under keys that `before` holds already.
pub open spec fn merged(before: Map<i64, i64>, found: Map<i64, i64>) -> Map<i64, i64> {
    found.union_prefer_right(before)
}

/// Puts `value` under `key` unless `map` holds the key already.
pub fn insert_if_absent(map: &mut HashMap<i64, i64>, key: i64, value: i64)
    ensures
        final(map)@ == if old(map)@.contains_key(key) {
            old(map)@
        } else {
            old(map)@.insert(key, value)
        },
{
    broadcast use vstd::std_specs::hash::group_hash_axioms;

    if !map.contains_key(&key) {
        map.insert(key, value);
    }
}


/// A copy of `records`.
pub fn copy_records(records: &Vec<(i64, i64)>) -> (copy: Vec<(i64, i64)>)
    ensures
        copy@ == records@,
{
    let mut copy: Vec<(i64, i64)> = Vec::with_capacity(records.len());
    let mut i: usize = 0;
    while i < records.len()
        invariant
            i <= records@.len(),
            copy@ == records@.subrange(0, i as int),
        decreases records@.len() - i,
    {
        copy.push(records[i]);
        assert(copy@ =~= records@.subrange(0, i + 1));
        i += 1;
    }
    assert(records@.subrange(0, records@.len() as int) =~= records@);
    copy
}

/// The entries of `map` whose value is not the tombstone, in no particular
/// order, each once.
pub fn live_entries(map: &HashMap<i64, i64>) -> (entries: Vec<(i64, i64)>)
    ensures
        forall|k: i64, v: i64|
            entries@.contains((k, v)) <==> (map@.contains_key(k) && map@[k] == v && v
                != TOMBSTONE),
        forall|i: int, j: int| 0 <= i < j < entries@.len() ==> entries@[i].0 != entries@[j].0,
{
    broadcast use vstd::std_specs::hash::group_hash_axioms;

    let mut entries: Vec<(i64, i64)> = Vec::new();
    let ghost mut src: Seq<int> = Seq::empty();
    let ghost all = vstd::std_specs::hash::spec_hash_map_iter(map).remaining();
    let ghost mut seen: int = 0;
    for pair in it: map.iter()
        invariant
            it.seq() == all,
            seen == it.index(),
            all.no_duplicates(),
            forall|i: int|
                0 <= i < all.len() ==> map@.contains_key(*(#[trigger] all[i]).0) && map@[*all[i].0]
                    == *all[i].1,
            forall|k: i64| #[trigger]
                map@.contains_key(k) ==> exists|i: int|
                    0 <= i < all.len() && *(#[trigger] all[i]).0 == k,
            src.len() == entries@.len(),
            forall|j: int|
                0 <= j < src.len() ==> 0 <= #[trigger] src[j] < seen && entries@[j] == (
                    *all[src[j]].0,
                    *all[src[j]].1,
                ),
            forall|a: int, b: int| 0 <= a < b < src.len() ==> src[a] < src[b],
            forall|i: int|
                0 <= i < seen && *(#[trigger] all[i]).1 != TOMBSTONE ==> exists|j: int|
                    0 <= j < src.len() && #[trigger] src[j] == i,
            forall|j: int| 0 <= j < entries@.len() ==> (#[trigger] entries@[j]).1 != TOMBSTONE,
    {
        let (key, value) = pair;
        let ghost at = it.index();
        let ghost src_before = src;
        assert(pair == all[at]);
        if *value != TOMBSTONE {
            entries.push((*key, *value));
            proof {
                src = src.push(at);
            }
        }
        proof {
            seen = seen + 1;
            assert forall|i: int|
                0 <= i < at + 1 && *(#[trigger] all[i]).1 != TOMBSTONE implies exists|j: int|
                0 <= j < src.len() && #[trigger] src[j] == i by {
                if i < at {
                    let j = choose|j: int| 0 <= j < src_before.len() && #[trigger] src_before[j] == i;
                    assert(src[j] == i);
                } else {
                    assert(src[src.len() - 1] == i);
                }
            }
        }
    }
    proof {
        assert(seen == all.len());
        assert forall|k: i64, v: i64|
            entries@.contains((k, v)) <==> (map@.contains_key(k) && map@[k] == v && v
                != TOMBSTONE) by {
            if entries@.contains((k, v)) {
                let j = entries@.index_of((k, v));
                assert(entries@[j] == (k, v));
                assert(0 <= src[j] < seen);
                assert(map@.contains_key(*all[src[j]].0));
            }
            if map@.contains_key(k) && map@[k] == v && v != TOMBSTONE {
                let i = choose|i: int| 0 <= i < all.len() && *(#[trigger] all[i]).0 == k;
                assert(map@[*all[i].0] == *all[i].1);
                let j = choose|j: int| 0 <= j < src.len() && #[trigger] src[j] == i;
                assert(entries@[j] == (k, v));
            }
        }
        assert forall|i: int, j: int| 0 <= i < j < entries@.len() implies entries@[i].0
            != entries@[j].0 by {
            let a = src[i];
            let b = src[j];
            assert(a < b);
            if entries@[i].0 == entries@[j].0 {
                assert(map@[*all[a].0] == *all[a].1);
                assert(map@[*all[b].0] == *all[b].1);
                assert(*all[a].0 == *all[b].0 && *all[a].1 == *all[b].1);
                assert(all[a] == all[b]);
            }
        }
    }
    entries
}

} // verus!
