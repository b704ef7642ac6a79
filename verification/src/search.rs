//! Binary searches in one page of records.

use crate::records::{entries_map, has_key, keys_ascend, lemma_entry_at};
use vstd::prelude::*;

verus! {

/// The value under `key` among the records of `s`, if any has that key.
pub open spec fn lookup(s: Seq<(i64, i64)>, key: i64) -> Option<i64> {
    if has_key(s, key) {
        Some(entries_map(s)[key])
    } else {
        None
    }
}

/// The number of records of `s` whose key is below `key`: in a sequence with
/// rising keys, the place of the first record whose key is at least `key`.
pub open spec fn count_below(s: Seq<(i64, i64)>, key: i64) -> nat
    decreases s.len(),
{
    if s.len() == 0 {
        0
    } else {
        count_below(s.drop_last(), key) + if s.last().0 < key {
            1nat
        } else {
            0nat
        }
    }
}

/// In a sequence with rising keys, the records with keys below `key` are
/// exactly the first `count_below` ones.
pub proof fn lemma_count_below(s: Seq<(i64, i64)>, key: i64)
    requires
        keys_ascend(s),
    ensures
        count_below(s, key) <= s.len(),
        forall|i: int| 0 <= i < count_below(s, key) ==> (#[trigger] s[i]).0 < key,
        forall|i: int| count_below(s, key) <= i < s.len() ==> (#[trigger] s[i]).0 >= key,
    decreases s.len(),
{
    if s.len() > 0 {
        let front = s.drop_last();
        assert forall|i: int, j: int| 0 <= i < j < front.len() implies front[i].0 < front[j].0 by {
            assert(front[i] == s[i] && front[j] == s[j]);
        }
        lemma_count_below(front, key);
        assert forall|i: int| 0 <= i < count_below(s, key) implies (#[trigger] s[i]).0 < key by {
            if i < front.len() {
                assert(front[i] == s[i]);
                if s.last().0 >= key {
                } else {
                    assert(s[i].0 <= s.last().0);
                }
            }
        }
        assert forall|i: int| count_below(s, key) <= i < s.len() implies (#[trigger] s[i]).0
            >= key by {
            if i < front.len() {
                assert(front[i] == s[i]);
                if s.last().0 < key {
                    assert(count_below(front, key) <= i);
                    assert(s[i].0 >= key);
                    assert(s[i].0 < s[s.len() - 1].0);
                }
            }
        }
    }
}

/// A place that splits a sequence with rising keys into keys below `key` and
/// keys from `key` on is the count of keys below `key`.
pub proof fn lemma_count_below_is(s: Seq<(i64, i64)>, key: i64, at: int)
    requires
        keys_ascend(s),
        0 <= at <= s.len(),
        forall|i: int| 0 <= i < at ==> (#[trigger] s[i]).0 < key,
        forall|i: int| at <= i < s.len() ==> (#[trigger] s[i]).0 >= key,
    ensures
        count_below(s, key) == at,
{
    lemma_count_below(s, key);
    let c = count_below(s, key) as int;
    if c < at {
        assert(s[c].0 >= key);
    }
    if at < c {
        assert(s[at].0 < key);
    }
}

/// The value under `key` in `kv_arr`, whose keys rise.
pub fn binary_search_array(kv_arr: &Vec<(i64, i64)>, key: i64) -> (value: Option<i64>)
    ensures
        value matches Some(v) ==> kv_arr@.contains((key, v)),
        keys_ascend(kv_arr@) ==> value == lookup(kv_arr@, key),
{
    let mut left: usize = 0;
    let mut right: usize = kv_arr.len();
    while left < right
        invariant
            left <= right <= kv_arr@.len(),
            keys_ascend(kv_arr@) ==> forall|i: int| 0 <= i < left ==> (#[trigger] kv_arr@[i]).0 < key,
            keys_ascend(kv_arr@) ==> forall|i: int|
                right <= i < kv_arr@.len() ==> (#[trigger] kv_arr@[i]).0 > key,
        decreases right - left,
    {
        let mid: usize = left + (right - left) / 2;
        let probe: (i64, i64) = kv_arr[mid];
        if probe.0 == key {
            proof {
                assert(kv_arr@[mid as int] == (key, probe.1));
                if keys_ascend(kv_arr@) {
                    lemma_entry_at(kv_arr@, mid as int);
                }
            }
            return Some(probe.1);
        } else if probe.0 > key {
            right = mid;
        } else {
            left = mid + 1;
        }
    }
    proof {
        if keys_ascend(kv_arr@) && has_key(kv_arr@, key) {
            let i = crate::records::index_of_key(kv_arr@, key);
            assert(kv_arr@[i].0 == key);
        }
    }
    None
}

/// The index of the first record of `kv_arr` whose key is at least `key`.
pub fn binary_search_array_start_index(kv_arr: &Vec<(i64, i64)>, key: i64) -> (found: Option<
    usize,
>)
    ensures
        found matches Some(i) ==> i < kv_arr@.len() && kv_arr@[i as int].0 >= key,
        keys_ascend(kv_arr@) ==> found == if count_below(kv_arr@, key) < kv_arr@.len() {
            Some(count_below(kv_arr@, key) as usize)
        } else {
            None
        },
{
    let mut left: usize = 0;
    let mut right: usize = kv_arr.len();
    while left < right
        invariant
            left <= right <= kv_arr@.len(),
            right < kv_arr@.len() ==> kv_arr@[right as int].0 >= key,
            keys_ascend(kv_arr@) ==> forall|i: int| 0 <= i < left ==> (#[trigger] kv_arr@[i]).0 < key,
            keys_ascend(kv_arr@) ==> forall|i: int|
                right <= i < kv_arr@.len() ==> (#[trigger] kv_arr@[i]).0 >= key,
        decreases right - left,
    {
        let mid: usize = left + (right - left) / 2;
        if kv_arr[mid].0 >= key {
            right = mid;
        } else {
            left = mid + 1;
        }
    }
    proof {
        if keys_ascend(kv_arr@) {
            lemma_count_below_is(kv_arr@, key, left as int);
        }
    }
    if left < kv_arr.len() {
        Some(left)
    } else {
        None
    }
}

/// The number of entries of `arr` from index 1 on whose key is at most `key`.
pub open spec fn count_at_most_after_first(arr: Seq<(i64, i64)>, key: i64) -> nat
    decreases arr.len(),
{
    if arr.len() <= 1 {
        0
    } else {
        count_at_most_after_first(arr.drop_last(), key) + if arr.last().0 <= key {
            1nat
        } else {
            0nat
        }
    }
}

/// The keys of `arr` rise from index 1 on.
pub open spec fn keys_ascend_after_first(arr: Seq<(i64, i64)>) -> bool {
    forall|i: int, j: int| 1 <= i < j < arr.len() ==> arr[i].0 < arr[j].0
}

/// With keys that rise from index 1 on, the entries from index 1 on whose
/// key is at most `key` are the first `count_at_most_after_first` of them.
pub proof fn lemma_count_at_most(arr: Seq<(i64, i64)>, key: i64)
    requires
        keys_ascend_after_first(arr),
    ensures
        count_at_most_after_first(arr, key) < arr.len() || arr.len() == 0,
        forall|i: int|
            1 <= i <= count_at_most_after_first(arr, key) ==> (#[trigger] arr[i]).0 <= key,
        forall|i: int|
            count_at_most_after_first(arr, key) < i < arr.len() ==> (#[trigger] arr[i]).0 > key,
    decreases arr.len(),
{
    if arr.len() > 1 {
        let front = arr.drop_last();
        assert forall|i: int, j: int| 1 <= i < j < front.len() implies front[i].0
            < front[j].0 by {
            assert(front[i] == arr[i] && front[j] == arr[j]);
        }
        lemma_count_at_most(front, key);
        let c = count_at_most_after_first(arr, key);
        assert forall|i: int| 1 <= i <= c implies (#[trigger] arr[i]).0 <= key by {
            if i < front.len() {
                assert(front[i] == arr[i]);
                if arr.last().0 <= key {
                    assert(arr[i].0 < arr[arr.len() - 1].0);
                }
            }
        }
        assert forall|i: int| c < i < arr.len() implies (#[trigger] arr[i]).0 > key by {
            if i < front.len() {
                assert(front[i] == arr[i]);
                if arr.last().0 <= key {
                    let cf = count_at_most_after_first(front, key);
                    assert(cf < i);
                    assert(arr[i].0 > key);
                    assert(arr[i].0 < arr[arr.len() - 1].0);
                }
            }
        }
    }
}

/// A place that splits the entries from index 1 on into keys at most `key`
/// and keys above it is their count.
pub proof fn lemma_count_at_most_is(arr: Seq<(i64, i64)>, key: i64, at: int)
    requires
        keys_ascend_after_first(arr),
        0 <= at,
        at < arr.len() || arr.len() == 0 && at == 0,
        forall|i: int| 1 <= i <= at ==> (#[trigger] arr[i]).0 <= key,
        forall|i: int| at < i < arr.len() ==> (#[trigger] arr[i]).0 > key,
    ensures
        count_at_most_after_first(arr, key) == at,
{
    lemma_count_at_most(arr, key);
    let c = count_at_most_after_first(arr, key) as int;
    if c < at {
        assert(arr[c + 1].0 > key);
        assert(arr[c + 1].0 <= key);
    }
    if at < c {
        assert(arr[at + 1].0 <= key);
    }
}

/// The index, from 1 on, of the last entry of `arr` whose key is at most
/// `key`; none where the key at index 1 is greater already.
pub fn binary_search_internal_se_key(arr: &Vec<(i64, i64)>, key: i64) -> (found: Option<usize>)
    ensures
        found matches Some(i) ==> 1 <= i < arr@.len() && arr@[i as int].0 <= key,
        keys_ascend_after_first(arr@) ==> found == if count_at_most_after_first(arr@, key) > 0 {
            Some(count_at_most_after_first(arr@, key) as usize)
        } else {
            None
        },
{
    if arr.len() < 2 {
        proof {
            if keys_ascend_after_first(arr@) {
                lemma_count_at_most(arr@, key);
            }
        }
        return None;
    }
    let mut left: usize = 1;
    let mut right: usize = arr.len();
    while left < right
        invariant
            1 <= left <= right <= arr@.len(),
            left > 1 ==> arr@[left - 1].0 <= key,
            keys_ascend_after_first(arr@) ==> forall|i: int|
                1 <= i < left ==> (#[trigger] arr@[i]).0 <= key,
            keys_ascend_after_first(arr@) ==> forall|i: int|
                right <= i < arr@.len() ==> (#[trigger] arr@[i]).0 > key,
        decreases right - left,
    {
        let mid: usize = left + (right - left) / 2;
        if arr[mid].0 <= key {
            left = mid + 1;
        } else {
            right = mid;
        }
    }
    proof {
        if keys_ascend_after_first(arr@) {
            lemma_count_at_most_is(arr@, key, left - 1);
        }
    }
    if left > 1 {
        Some(left - 1)
    } else {
        None
    }
}

} // verus!
