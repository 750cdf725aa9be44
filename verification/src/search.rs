//! Binary search over a positionally indexed, sorted key sequence.

use vstd::prelude::*;

use crate::key::TrackKey;

verus! {

/// A read-only table of keys, indexed by position.
pub trait KeyTable<K: TrackKey>: Sized {
    /// The integer model of the key at position `i`.
    spec fn key_at(&self, i: int) -> int;

    /// Which positions may be read.
    spec fn index_valid(&self, i: int) -> bool;

    /// The key at position `i`.
    fn key_ref(&self, i: usize) -> (r: &K)
        requires
            self.index_valid(i as int),
        ensures
            r.key_int() == self.key_at(i as int),
    ;
}

impl<K: TrackKey> KeyTable<K> for Vec<K> {
    open spec fn key_at(&self, i: int) -> int {
        self@[i].key_int()
    }

    open spec fn index_valid(&self, i: int) -> bool {
        0 <= i < self@.len()
    }

    fn key_ref(&self, i: usize) -> (r: &K) {
        &self[i]
    }
}

/// Over the half-open range `[left, right)` of a sorted key table, returns
/// the largest position whose key is at most `key`, together with that key.
///
/// Requires the range to be non-empty and its first key to be at most `key`.
pub fn search<'b, K: TrackKey, B: KeyTable<K>>(
    buffer: &'b B,
    left: usize,
    right: usize,
    key: &K,
) -> (r: (usize, &'b K))
    requires
        left < right,
        forall|i: int| left <= i < right ==> buffer.index_valid(i),
        forall|i: int, j: int|
            #![trigger buffer.key_at(i), buffer.key_at(j)]
            left <= i <= j < right ==> buffer.key_at(i) <= buffer.key_at(j),
        buffer.key_at(left as int) <= key.key_int(),
    ensures
        left <= r.0 < right,
        buffer.key_at(r.0 as int) <= key.key_int(),
        forall|i: int| r.0 < i < right ==> #[trigger] buffer.key_at(i) > key.key_int(),
        r.1.key_int() == buffer.key_at(r.0 as int),
{
    let mut lo = left;
    let mut hi = right;
    while lo < hi
        invariant
            left <= lo <= hi <= right,
            left < right,
            forall|i: int| left <= i < right ==> buffer.index_valid(i),
            forall|i: int, j: int|
                #![trigger buffer.key_at(i), buffer.key_at(j)]
                left <= i <= j < right ==> buffer.key_at(i) <= buffer.key_at(j),
            buffer.key_at(left as int) <= key.key_int(),
            lo > left ==> buffer.key_at(lo - 1) <= key.key_int(),
            forall|i: int| hi <= i < right ==> #[trigger] buffer.key_at(i) > key.key_int(),
        decreases hi - lo,
    {
        let middle = lo + (hi - lo) / 2;
        let kv = buffer.key_ref(middle);
        if key.key_lt(kv) {
            hi = middle;
        } else {
            lo = middle + 1;
        }
    }
    proof {
        if lo == left {
            assert(buffer.key_at(left as int) > key.key_int());
            assert(false);
        }
    }
    let result = lo - 1;
    (result, buffer.key_ref(result))
}

} // verus!
