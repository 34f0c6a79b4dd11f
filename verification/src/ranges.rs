//! Sorted keys in groups that share a nibble.
use vstd::prelude::*;

use crate::hash::{lemma_nibble_range, HashValue};

verus! {

/// Whether the nibbles at `idx` never fall from one key to a later one.
pub open spec fn rising_at<V>(kvs: Seq<(HashValue, V)>, idx: int) -> bool {
    forall|i: int, j: int|
        0 <= i <= j < kvs.len() ==> (#[trigger] kvs[i]).0.nibble_at(idx) <= (
        #[trigger] kvs[j]).0.nibble_at(idx)
}

/// An iterator that iterates the index range (inclusive) of each different nibble at given
/// `nibble_idx` of all the keys in a sorted key-value pairs.
pub struct NibbleRangeIterator<'a, V> {
    pub sorted_kvs: &'a [(HashValue, V)],
    pub nibble_idx: usize,
    pub pos: usize,
}

impl<'a, V> NibbleRangeIterator<'a, V> {
    pub open spec fn wf(self) -> bool {
        &&& self.nibble_idx < 64
        &&& self.pos <= self.sorted_kvs@.len()
    }

    /// The nibble that key `i` has at the iterator's position.
    pub open spec fn nibble_of(self, i: int) -> u8 {
        self.sorted_kvs@[i].0.nibble_at(self.nibble_idx as int)
    }

    pub fn new(sorted_kvs: &'a [(HashValue, V)], nibble_idx: usize) -> (r: Self)
        requires
            nibble_idx < 64,
        ensures
            r.wf(),
            r.sorted_kvs@ == sorted_kvs@,
            r.nibble_idx == nibble_idx,
            r.pos == 0,
    {
        NibbleRangeIterator { sorted_kvs, nibble_idx, pos: 0 }
    }

    /// Whether the keys are in order at the iterator's position.
    pub open spec fn in_order(self) -> bool {
        rising_at(self.sorted_kvs@, self.nibble_idx as int)
    }

    /// The next range, from the first key that was not in a range yet to the last one with the same
    /// nibble, where the keys are in order. Whatever the order, each range starts behind the one before,
    /// and there are no more when the keys are used up.
    pub fn next(&mut self) -> (r: Option<(usize, usize)>)
        requires
            old(self).wf(),
        ensures
            final(self).wf(),
            final(self).sorted_kvs@ == old(self).sorted_kvs@,
            final(self).nibble_idx == old(self).nibble_idx,
            match r {
                None => old(self).pos == old(self).sorted_kvs@.len() && final(self).pos == old(
                    self,
                ).pos,
                Some((left, right)) => {
                    &&& left == old(self).pos
                    &&& left <= right < old(self).sorted_kvs@.len()
                    &&& final(self).pos == right + 1
                    &&& old(self).in_order() ==> forall|i: int|
                        left <= i <= right ==> #[trigger] old(self).nibble_of(i) == old(
                            self,
                        ).nibble_of(left as int)
                    &&& old(self).in_order() ==> forall|i: int|
                        right < i < old(self).sorted_kvs@.len() ==> #[trigger] old(self).nibble_of(
                            i,
                        ) > old(self).nibble_of(left as int)
                },
            },
    {
        let left: usize = self.pos;
        if self.pos < self.sorted_kvs.len() {
            let cur_nibble: u8 = self.sorted_kvs[left].0.nibble(self.nibble_idx);
            let mut i: usize = left;
            let mut j: usize = self.sorted_kvs.len() - 1;
            // Find the last index of the cur_nibble.
            while i < j
                invariant
                    self.wf(),
                    self.sorted_kvs@ == old(self).sorted_kvs@,
                    self.nibble_idx == old(self).nibble_idx,
                    left == old(self).pos,
                    left <= i <= j < self.sorted_kvs@.len(),
                    cur_nibble == self.nibble_of(left as int),
                    self.in_order() ==> self.nibble_of(i as int) == cur_nibble,
                    self.in_order() ==> forall|k: int|
                        j < k < self.sorted_kvs@.len() ==> #[trigger] self.nibble_of(k)
                            > cur_nibble,
                decreases j - i,
            {
                let mid: usize = j - (j - i) / 2;
                if self.sorted_kvs[mid].0.nibble(self.nibble_idx) > cur_nibble {
                    assert forall|k: int|
                        self.in_order() && mid - 1 < k < self.sorted_kvs@.len() implies
                        #[trigger] self.nibble_of(k) > cur_nibble by {
                        assert(self.nibble_of(mid as int) <= self.nibble_of(k));
                    }
                    j = mid - 1;
                } else {
                    assert(self.in_order() ==> self.nibble_of(left as int) <= self.nibble_of(
                        mid as int,
                    ));
                    i = mid;
                }
            }
            assert forall|k: int| self.in_order() && left <= k <= i implies #[trigger] self.nibble_of(
                k,
            ) == cur_nibble by {
                assert(self.nibble_of(left as int) <= self.nibble_of(k));
                assert(self.nibble_of(k) <= self.nibble_of(i as int));
            }
            assert forall|k: int| self.in_order() && left <= k <= i implies #[trigger] old(
                self,
            ).nibble_of(k) == cur_nibble by {
                assert(self.nibble_of(k) == cur_nibble);
            }
            assert forall|k: int|
                self.in_order() && i < k < self.sorted_kvs@.len() implies #[trigger] old(
                self,
            ).nibble_of(k) > cur_nibble by {
                assert(self.nibble_of(k) > cur_nibble);
            }
            self.pos = i + 1;
            Some((left, i))
        } else {
            None
        }
    }
}

/// The entries whose key has nibble `n` at `depth`.
pub open spec fn bucket<V>(kvs: Seq<(HashValue, V)>, depth: nat, n: u8) -> Seq<(HashValue, V)> {
    kvs.filter(|kv: (HashValue, V)| kv.0.nibble_at(depth as int) == n)
}

/// Whether `key` lies below `path`.
pub open spec fn has_prefix(key: HashValue, path: Seq<u8>) -> bool {
    forall|j: int| 0 <= j < path.len() ==> #[trigger] key.nibble_at(j) == path[j]
}

/// Whether all keys lie below `path`.
#[verifier::opaque]
pub open spec fn all_under<V>(kvs: Seq<(HashValue, V)>, path: Seq<u8>) -> bool {
    forall|i: int| 0 <= i < kvs.len() ==> has_prefix((#[trigger] kvs[i]).0, path)
}

/// The nibble that all keys of range `i` have at `depth`.
pub open spec fn range_nibble<V>(
    kvs: Seq<(HashValue, V)>,
    depth: nat,
    ranges: Seq<(usize, usize)>,
    i: int,
) -> u8 {
    kvs[ranges[i].0 as int].0.nibble_at(depth as int)
}

/// Whether `ranges` are the groups of entries that share a nibble at `depth`, from left to right.
#[verifier::opaque]
pub open spec fn are_ranges<V>(
    kvs: Seq<(HashValue, V)>,
    depth: nat,
    ranges: Seq<(usize, usize)>,
) -> bool {
    &&& (ranges.len() == 0 <==> kvs.len() == 0)
    &&& ranges.len() > 0 ==> ranges[0].0 == 0 && ranges.last().1 == kvs.len() - 1
    &&& forall|i: int|
        0 <= i < ranges.len() ==> {
            let (left, right) = #[trigger] ranges[i];
            &&& left <= right < kvs.len()
            &&& bucket(kvs, depth, range_nibble(kvs, depth, ranges, i)) == kvs.subrange(
                left as int,
                right + 1,
            )
            &&& i + 1 < ranges.len() ==> ranges[i + 1].0 == right + 1
        }
    &&& forall|i: int, j: int|
        0 <= i < j < ranges.len() ==> #[trigger] range_nibble(kvs, depth, ranges, i)
            < #[trigger] range_nibble(kvs, depth, ranges, j)
    &&& forall|n: u8|
        n < 16 && (forall|i: int|
            0 <= i < ranges.len() ==> #[trigger] range_nibble(kvs, depth, ranges, i) != n)
            ==> #[trigger] bucket(kvs, depth, n).len() == 0
}

/// The first nibble behind those of the first `i` ranges.
pub open spec fn nibble_after<V>(
    kvs: Seq<(HashValue, V)>,
    depth: nat,
    ranges: Seq<(usize, usize)>,
    i: int,
) -> int {
    if i == 0 {
        0
    } else {
        range_nibble(kvs, depth, ranges, i - 1) + 1
    }
}

/// The buckets between two ranges are empty.
pub proof fn lemma_between_ranges<V>(
    kvs: Seq<(HashValue, V)>,
    depth: nat,
    ranges: Seq<(usize, usize)>,
    i: int,
)
    requires
        depth < 64,
        are_ranges(kvs, depth, ranges),
        0 <= i <= ranges.len(),
    ensures
        0 <= nibble_after(kvs, depth, ranges, i) <= 16,
        i < ranges.len() ==> nibble_after(kvs, depth, ranges, i) <= range_nibble(
            kvs,
            depth,
            ranges,
            i,
        ) < 16,
        forall|m: u8|
            nibble_after(kvs, depth, ranges, i) <= m < 16 && (i < ranges.len() ==> m
                < range_nibble(kvs, depth, ranges, i)) ==> #[trigger] bucket(kvs, depth, m).len()
                == 0,
{
    reveal(are_ranges);
    if i < ranges.len() {
        lemma_nibble_range(kvs[ranges[i].0 as int].0, depth as int);
    }
    if i > 0 {
        lemma_nibble_range(kvs[ranges[i - 1].0 as int].0, depth as int);
    }
    assert forall|m: u8|
        nibble_after(kvs, depth, ranges, i) <= m < 16 && (i < ranges.len() ==> m < range_nibble(
            kvs,
            depth,
            ranges,
            i,
        )) implies #[trigger] bucket(kvs, depth, m).len() == 0 by {
        assert forall|r: int| 0 <= r < ranges.len() implies #[trigger] range_nibble(
            kvs,
            depth,
            ranges,
            r,
        ) != m by {
            if r < i - 1 {
                assert(range_nibble(kvs, depth, ranges, r) < range_nibble(
                    kvs,
                    depth,
                    ranges,
                    i - 1,
                ));
            } else if r > i {
                assert(range_nibble(kvs, depth, ranges, i) < range_nibble(kvs, depth, ranges, r));
            }
        }
    }
}

/// What the ranges are.
pub proof fn lemma_range<V>(
    kvs: Seq<(HashValue, V)>,
    depth: nat,
    ranges: Seq<(usize, usize)>,
    i: int,
)
    requires
        are_ranges(kvs, depth, ranges),
        0 <= i < ranges.len(),
    ensures
        ranges[i].0 <= ranges[i].1 < kvs.len(),
        ranges[i].0 == if i == 0 {
            0
        } else {
            ranges[i - 1].1 + 1
        },
        bucket(kvs, depth, range_nibble(kvs, depth, ranges, i)) == kvs.subrange(
            ranges[i].0 as int,
            ranges[i].1 + 1,
        ),
        forall|j: int|
            0 <= j < i ==> #[trigger] range_nibble(kvs, depth, ranges, j) < range_nibble(
                kvs,
                depth,
                ranges,
                i,
            ),
{
    reveal(are_ranges);
    if i > 0 {
        let (left, right) = ranges[i - 1];
        assert(ranges[i].0 == right + 1);
    }
}

/// A bucket without a range is empty.
pub proof fn lemma_no_range<V>(
    kvs: Seq<(HashValue, V)>,
    depth: nat,
    ranges: Seq<(usize, usize)>,
    n: u8,
)
    requires
        are_ranges(kvs, depth, ranges),
        n < 16,
        forall|i: int|
            0 <= i < ranges.len() ==> #[trigger] range_nibble(kvs, depth, ranges, i) != n,
    ensures
        bucket(kvs, depth, n).len() == 0,
{
    reveal(are_ranges);
}

/// The ranges end where the entries end.
pub proof fn lemma_last_range<V>(
    kvs: Seq<(HashValue, V)>,
    depth: nat,
    ranges: Seq<(usize, usize)>,
)
    requires
        are_ranges(kvs, depth, ranges),
    ensures
        ranges.len() == 0 <==> kvs.len() == 0,
        ranges.len() > 0 ==> ranges.last().1 == kvs.len() - 1,
{
    reveal(are_ranges);
}

/// What is in a bucket.
pub proof fn lemma_bucket<V>(kvs: Seq<(HashValue, V)>, depth: nat, n: u8)
    ensures
        forall|i: int|
            0 <= i < bucket(kvs, depth, n).len() ==> {
                let e = #[trigger] bucket(kvs, depth, n)[i];
                e.0.nibble_at(depth as int) == n && kvs.contains(e)
            },
        forall|i: int|
            0 <= i < kvs.len() && (#[trigger] kvs[i]).0.nibble_at(depth as int) == n ==> bucket(
                kvs,
                depth,
                n,
            ).contains(kvs[i]),
        bucket(kvs, depth, n).len() <= kvs.len(),
    decreases kvs.len(),
{
    reveal(Seq::filter);
    let b = bucket(kvs, depth, n);
    if kvs.len() > 0 {
        let rest = kvs.drop_last();
        let inner = bucket(rest, depth, n);
        lemma_bucket(rest, depth, n);
        assert forall|i: int| 0 <= i < b.len() implies {
            let e = #[trigger] b[i];
            e.0.nibble_at(depth as int) == n && kvs.contains(e)
        } by {
            if i < inner.len() {
                assert(b[i] == inner[i]);
                let j = choose|j: int| 0 <= j < rest.len() && rest[j] == inner[i];
                assert(kvs[j] == b[i]);
            } else {
                assert(b[i] == kvs[kvs.len() - 1]);
            }
        }
        assert forall|i: int|
            0 <= i < kvs.len() && (#[trigger] kvs[i]).0.nibble_at(depth as int)
                == n implies b.contains(kvs[i]) by {
            if i < rest.len() {
                assert(rest[i] == kvs[i]);
                let j = choose|j: int| 0 <= j < inner.len() && inner[j] == rest[i];
                assert(b[j] == kvs[i]);
            } else {
                assert(b[b.len() - 1] == kvs[i]);
            }
        }
    }
}

/// A bucket of entries that lie side by side is the range between its ends.
pub proof fn lemma_bucket_is_range<V>(
    kvs: Seq<(HashValue, V)>,
    depth: nat,
    n: u8,
    left: int,
    end: int,
)
    requires
        0 <= left <= end <= kvs.len(),
        forall|i: int|
            0 <= i < kvs.len() ==> ((#[trigger] kvs[i]).0.nibble_at(depth as int) == n <==> left
                <= i < end),
    ensures
        bucket(kvs, depth, n) == kvs.subrange(left, end),
    decreases kvs.len(),
{
    reveal(Seq::filter);
    if kvs.len() > 0 {
        let last = kvs.last();
        let rest = kvs.drop_last();
        assert(kvs[kvs.len() - 1] == last);
        if end == kvs.len() && left < end {
            assert forall|i: int| 0 <= i < rest.len() implies ((#[trigger] rest[i]).0.nibble_at(
                depth as int,
            ) == n <==> left <= i < end - 1) by {
                assert(rest[i] == kvs[i]);
            }
            lemma_bucket_is_range(rest, depth, n, left, end - 1);
            assert(kvs.subrange(left, end) =~= rest.subrange(left, end - 1).push(last));
        } else {
            let l = if left == kvs.len() {
                left - 1
            } else {
                left
            };
            let e = if left == end && end == kvs.len() {
                end - 1
            } else {
                end
            };
            assert forall|i: int| 0 <= i < rest.len() implies ((#[trigger] rest[i]).0.nibble_at(
                depth as int,
            ) == n <==> l <= i < e) by {
                assert(rest[i] == kvs[i]);
            }
            lemma_bucket_is_range(rest, depth, n, l, e);
            assert(kvs.subrange(left, end) =~= rest.subrange(l, e));
        }
    } else {
        assert(kvs.subrange(left, end) =~= Seq::empty());
    }
}

/// Whether `ranges` are the groups of the first `pos` entries, none of which goes on behind `pos`.
spec fn are_ranges_upto<V>(
    kvs: Seq<(HashValue, V)>,
    depth: nat,
    ranges: Seq<(usize, usize)>,
    pos: int,
) -> bool {
    &&& 0 <= pos <= kvs.len()
    &&& (ranges.len() == 0 <==> pos == 0)
    &&& ranges.len() > 0 ==> ranges[0].0 == 0 && ranges.last().1 + 1 == pos
    &&& forall|i: int|
        0 <= i < ranges.len() ==> {
            let (left, right) = #[trigger] ranges[i];
            &&& left <= right < pos
            &&& bucket(kvs, depth, range_nibble(kvs, depth, ranges, i)) == kvs.subrange(
                left as int,
                right + 1,
            )
            &&& i + 1 < ranges.len() ==> ranges[i + 1].0 == right + 1
        }
    &&& forall|i: int, j: int|
        0 <= i < j < ranges.len() ==> #[trigger] range_nibble(kvs, depth, ranges, i)
            < #[trigger] range_nibble(kvs, depth, ranges, j)
    &&& forall|i: int, j: int|
        0 <= i < ranges.len() && pos <= j < kvs.len() ==> #[trigger] range_nibble(
            kvs,
            depth,
            ranges,
            i,
        ) < (#[trigger] kvs[j]).0.nibble_at(depth as int)
    &&& forall|j: int|
        0 <= j < pos ==> exists|i: int|
            0 <= i < ranges.len() && #[trigger] range_nibble(kvs, depth, ranges, i) == (
            #[trigger] kvs[j]).0.nibble_at(depth as int)
}

/// The groups of all entries are the groups.
proof fn lemma_ranges_done<V>(kvs: Seq<(HashValue, V)>, depth: nat, ranges: Seq<(usize, usize)>)
    requires
        are_ranges_upto(kvs, depth, ranges, kvs.len() as int),
    ensures
        are_ranges(kvs, depth, ranges),
{
    reveal(are_ranges);
    assert forall|n: u8|
        n < 16 && (forall|i: int|
            0 <= i < ranges.len() ==> #[trigger] range_nibble(kvs, depth, ranges, i)
                != n) implies #[trigger] bucket(kvs, depth, n).len() == 0 by {
        lemma_bucket(kvs, depth, n);
        let b = bucket(kvs, depth, n);
        if b.len() > 0 {
            let e = b[0];
            assert(kvs.contains(e));
            let j = choose|j: int| 0 <= j < kvs.len() && kvs[j] == e;
            assert(kvs[j].0.nibble_at(depth as int) == n);
        }
    }
}

/// The groups grow by the next one.
proof fn lemma_push_range<V>(
    kvs: Seq<(HashValue, V)>,
    depth: nat,
    ranges: Seq<(usize, usize)>,
    left: usize,
    right: usize,
)
    requires
        are_ranges_upto(kvs, depth, ranges, left as int),
        left <= right < kvs.len(),
        forall|i: int|
            left <= i <= right ==> (#[trigger] kvs[i]).0.nibble_at(depth as int)
                == kvs[left as int].0.nibble_at(depth as int),
        forall|i: int|
            right < i < kvs.len() ==> (#[trigger] kvs[i]).0.nibble_at(depth as int)
                > kvs[left as int].0.nibble_at(depth as int),
    ensures
        are_ranges_upto(kvs, depth, ranges.push((left, right)), right + 1),
{
    let n = kvs[left as int].0.nibble_at(depth as int);
    let after = ranges.push((left, right));
    let at = ranges.len() as int;
    assert forall|i: int| 0 <= i < kvs.len() implies ((#[trigger] kvs[i]).0.nibble_at(depth as int)
        == n <==> left <= i < right + 1) by {
        if i < left {
            let r = choose|r: int|
                0 <= r < ranges.len() && #[trigger] range_nibble(kvs, depth, ranges, r)
                    == kvs[i].0.nibble_at(depth as int);
            assert(range_nibble(kvs, depth, ranges, r) < kvs[left as int].0.nibble_at(
                depth as int,
            ));
        }
    }
    lemma_bucket_is_range(kvs, depth, n, left as int, right + 1);
    assert(after[at] == (left, right));
    assert(range_nibble(kvs, depth, after, at) == n);
    assert forall|i: int| 0 <= i < at implies #[trigger] range_nibble(kvs, depth, after, i)
        == range_nibble(kvs, depth, ranges, i) by {
        assert(after[i] == ranges[i]);
    }
    assert forall|i: int, j: int| 0 <= i < j < after.len() implies #[trigger] range_nibble(
        kvs,
        depth,
        after,
        i,
    ) < #[trigger] range_nibble(kvs, depth, after, j) by {
        if j < at {
            assert(range_nibble(kvs, depth, ranges, i) < range_nibble(kvs, depth, ranges, j));
        } else {
            assert(range_nibble(kvs, depth, ranges, i) < kvs[left as int].0.nibble_at(
                depth as int,
            ));
        }
    }
    assert forall|i: int, j: int|
        0 <= i < after.len() && right + 1 <= j < kvs.len() implies #[trigger] range_nibble(
        kvs,
        depth,
        after,
        i,
    ) < (#[trigger] kvs[j]).0.nibble_at(depth as int) by {
        if i < at {
            assert(range_nibble(kvs, depth, ranges, i) < kvs[j].0.nibble_at(depth as int));
        }
    }
    assert forall|j: int| 0 <= j < right + 1 implies exists|i: int|
        0 <= i < after.len() && #[trigger] range_nibble(kvs, depth, after, i) == (
        #[trigger] kvs[j]).0.nibble_at(depth as int) by {
        if j < left {
            let i = choose|i: int|
                0 <= i < ranges.len() && #[trigger] range_nibble(kvs, depth, ranges, i)
                    == kvs[j].0.nibble_at(depth as int);
            assert(range_nibble(kvs, depth, after, i) == kvs[j].0.nibble_at(depth as int));
        } else {
            assert(range_nibble(kvs, depth, after, at) == kvs[j].0.nibble_at(depth as int));
        }
    }
    assert forall|i: int| 0 <= i < after.len() implies {
        let (l, r) = #[trigger] after[i];
        &&& l <= r < right + 1
        &&& bucket(kvs, depth, range_nibble(kvs, depth, after, i)) == kvs.subrange(
            l as int,
            r + 1,
        )
        &&& i + 1 < after.len() ==> after[i + 1].0 == r + 1
    } by {
        if i < at {
            assert(after[i] == ranges[i]);
            assert(range_nibble(kvs, depth, after, i) == range_nibble(kvs, depth, ranges, i));
        }
    }
}

/// The groups of entries that share a nibble at `depth`, from left to right.
pub fn nibble_ranges<V>(kvs: &[(HashValue, V)], depth: usize) -> (ranges: Vec<(usize, usize)>)
    requires
        depth < 64,
        rising_at(kvs@, depth as int),
    ensures
        are_ranges(kvs@, depth as nat, ranges@),
{
    let mut ranges: Vec<(usize, usize)> = Vec::new();
    let mut iter = NibbleRangeIterator::new(kvs, depth);
    loop
        invariant_except_break
            iter.wf(),
            iter.sorted_kvs@ == kvs@,
            iter.nibble_idx == depth,
            rising_at(kvs@, depth as int),
            are_ranges_upto(kvs@, depth as nat, ranges@, iter.pos as int),
        ensures
            are_ranges(kvs@, depth as nat, ranges@),
        decreases kvs@.len() - iter.pos,
    {
        let ghost before = iter;
        match iter.next() {
            None => {
                proof {
                    lemma_ranges_done(kvs@, depth as nat, ranges@);
                }
                break;
            },
            Some((left, right)) => {
                proof {
                    assert forall|i: int| left <= i <= right implies (#[trigger] kvs@[i]).0.nibble_at(
                        depth as int,
                    ) == kvs@[left as int].0.nibble_at(depth as int) by {
                        assert(before.nibble_of(i) == before.nibble_of(left as int));
                    }
                    assert forall|i: int| right < i < kvs@.len() implies (
                    #[trigger] kvs@[i]).0.nibble_at(depth as int) > kvs@[left as int].0.nibble_at(
                        depth as int,
                    ) by {
                        assert(before.nibble_of(i) > before.nibble_of(left as int));
                    }
                    lemma_push_range(kvs@, depth as nat, ranges@, left, right);
                }
                ranges.push((left, right));
            },
        }
    }
    ranges
}

} // verus!
