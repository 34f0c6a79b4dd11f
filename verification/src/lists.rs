//! Lists of lists.
use vstd::prelude::*;

use crate::node_type::NodeKeyView;

verus! {

/// Whether `item` is in one of the lists.
#[verifier::opaque]
pub open spec fn in_lists<T>(lists: Seq<Seq<T>>, item: T) -> bool {
    exists|i: int, j: int|
        0 <= i < lists.len() && 0 <= j < lists[i].len() && #[trigger] lists[i][j] == item
}

/// Whether no two items in the lists have the same key.
#[verifier::opaque]
pub open spec fn distinct_lists<T>(lists: Seq<Seq<T>>, key: spec_fn(T) -> NodeKeyView) -> bool {
    forall|i: int, j: int, a: int, b: int|
        0 <= i < lists.len() && 0 <= j < lists[i].len() && 0 <= a < lists.len() && 0 <= b
            < lists[a].len() && key(#[trigger] lists[i][j]) == key(#[trigger] lists[a][b]) ==> i == a
            && j == b
}

/// The lists of `a` and those of `b`, the first lists joined into one.
pub open spec fn merged<T>(a: Seq<Seq<T>>, b: Seq<Seq<T>>) -> Seq<Seq<T>> {
    a.update(0, a[0] + b[0]) + b.skip(1)
}

/// Whether `after` is `before` with more behind its lists, and perhaps more lists.
pub open spec fn lists_grow<T>(before: Seq<Seq<T>>, after: Seq<Seq<T>>) -> bool {
    &&& before.len() <= after.len()
    &&& forall|i: int|
        0 <= i < before.len() ==> (#[trigger] before[i]).is_prefix_of(#[trigger] after[i])
}

/// Lists that grow twice have grown.
pub proof fn lemma_grow_twice<T>(a: Seq<Seq<T>>, b: Seq<Seq<T>>, c: Seq<Seq<T>>)
    requires
        lists_grow(a, b),
        lists_grow(b, c),
    ensures
        lists_grow(a, c),
{
    assert forall|i: int| 0 <= i < a.len() implies (#[trigger] a[i]).is_prefix_of(
        #[trigger] c[i],
    ) by {
        assert(a[i].is_prefix_of(b[i]));
        assert(b[i].is_prefix_of(c[i]));
        assert(c[i].subrange(0, a[i].len() as int) =~= a[i]) by {
            assert(b[i] == c[i].subrange(0, b[i].len() as int));
            assert(a[i] == b[i].subrange(0, a[i].len() as int));
        }
    }
}

/// Lists grow when others are joined to them.
pub proof fn lemma_merged_grow<T>(a: Seq<Seq<T>>, b: Seq<Seq<T>>)
    requires
        a.len() > 0,
        b.len() > 0,
    ensures
        lists_grow(a, merged(a, b)),
{
    let c = merged(a, b);
    assert forall|i: int| 0 <= i < a.len() implies (#[trigger] a[i]).is_prefix_of(
        #[trigger] c[i],
    ) by {
        assert(c[i].subrange(0, a[i].len() as int) =~= a[i]);
    }
}

/// What is in lists that are put behind each other.
pub proof fn lemma_in_joined<T>(a: Seq<Seq<T>>, b: Seq<Seq<T>>)
    ensures
        forall|x: T| #[trigger] in_lists(a + b, x) <==> in_lists(a, x) || in_lists(b, x),
{
    reveal(in_lists);
    let c = a + b;
    assert forall|x: T| #[trigger] in_lists(c, x) <==> in_lists(a, x) || in_lists(b, x) by {
        if in_lists(a, x) {
            let (i, j) = choose|i: int, j: int|
                0 <= i < a.len() && 0 <= j < a[i].len() && #[trigger] a[i][j] == x;
            assert(c[i][j] == x);
        }
        if in_lists(b, x) {
            let (i, j) = choose|i: int, j: int|
                0 <= i < b.len() && 0 <= j < b[i].len() && #[trigger] b[i][j] == x;
            assert(c[a.len() + i][j] == x);
        }
        if in_lists(c, x) {
            let (i, j) = choose|i: int, j: int|
                0 <= i < c.len() && 0 <= j < c[i].len() && #[trigger] c[i][j] == x;
            if i < a.len() {
                assert(a[i][j] == x);
            } else {
                assert(b[i - a.len()][j] == x);
            }
        }
    }
}

/// What is in lists whose first lists are joined.
pub proof fn lemma_in_merged<T>(a: Seq<Seq<T>>, b: Seq<Seq<T>>)
    requires
        a.len() > 0,
        b.len() > 0,
    ensures
        forall|x: T| #[trigger] in_lists(merged(a, b), x) <==> in_lists(a, x) || in_lists(b, x),
{
    reveal(in_lists);
    let c = merged(a, b);
    assert forall|x: T| #[trigger] in_lists(c, x) <==> in_lists(a, x) || in_lists(b, x) by {
        if in_lists(a, x) {
            let (i, j) = choose|i: int, j: int|
                0 <= i < a.len() && 0 <= j < a[i].len() && #[trigger] a[i][j] == x;
            assert(c[i][j] == x);
        }
        if in_lists(b, x) {
            let (i, j) = choose|i: int, j: int|
                0 <= i < b.len() && 0 <= j < b[i].len() && #[trigger] b[i][j] == x;
            if i == 0 {
                assert(c[0][a[0].len() + j] == x);
            } else {
                assert(c[a.len() + i - 1][j] == x);
            }
        }
        if in_lists(c, x) {
            let (i, j) = choose|i: int, j: int|
                0 <= i < c.len() && 0 <= j < c[i].len() && #[trigger] c[i][j] == x;
            if i == 0 && j >= a[0].len() {
                assert(b[0][j - a[0].len()] == x);
            } else if i < a.len() {
                assert(a[i][j] == x);
            } else {
                assert(b[i - a.len() + 1][j] == x);
            }
        }
    }
}

/// What is in a single list.
pub proof fn lemma_in_one<T>(list: Seq<T>)
    ensures
        forall|x: T| #[trigger] in_lists(seq![list], x) <==> list.contains(x),
{
    reveal(in_lists);
    let lists = seq![list];
    assert forall|x: T| #[trigger] in_lists(lists, x) <==> list.contains(x) by {
        if list.contains(x) {
            let j = choose|j: int| 0 <= j < list.len() && list[j] == x;
            assert(lists[0][j] == x);
        }
    }
}

/// Lists put behind each other have no key twice if each has none twice and no key is in both.
pub proof fn lemma_joined_distinct<T>(
    a: Seq<Seq<T>>,
    b: Seq<Seq<T>>,
    key: spec_fn(T) -> NodeKeyView,
)
    requires
        distinct_lists(a, key),
        distinct_lists(b, key),
        forall|x: T, y: T| #[trigger] in_lists(a, x) && #[trigger] in_lists(b, y) ==> key(x) != key(y),
    ensures
        distinct_lists(a + b, key),
{
    reveal(in_lists);
    reveal(distinct_lists);
    let c = a + b;
    assert forall|i: int, j: int, p: int, q: int|
        0 <= i < c.len() && 0 <= j < c[i].len() && 0 <= p < c.len() && 0 <= q < c[p].len() && key(
            #[trigger] c[i][j],
        ) == key(#[trigger] c[p][q]) implies i == p && j == q by {
        if i < a.len() && p < a.len() {
            assert(key(a[i][j]) == key(a[p][q]));
        } else if i >= a.len() && p >= a.len() {
            assert(key(b[i - a.len()][j]) == key(b[p - a.len()][q]));
        } else if i < a.len() {
            assert(in_lists(a, a[i][j]));
            assert(in_lists(b, b[p - a.len()][q]));
        } else {
            assert(in_lists(a, a[p][q]));
            assert(in_lists(b, b[i - a.len()][j]));
        }
    }
}

/// Lists whose first lists are joined have no key twice if each has none twice and no key is in both.
pub proof fn lemma_merged_distinct<T>(
    a: Seq<Seq<T>>,
    b: Seq<Seq<T>>,
    key: spec_fn(T) -> NodeKeyView,
)
    requires
        a.len() > 0,
        b.len() > 0,
        distinct_lists(a, key),
        distinct_lists(b, key),
        forall|x: T, y: T| #[trigger] in_lists(a, x) && #[trigger] in_lists(b, y) ==> key(x) != key(y),
    ensures
        distinct_lists(merged(a, b), key),
{
    lemma_joined_distinct(a, b, key);
    reveal(distinct_lists);
    let c = merged(a, b);
    let all = a + b;
    assert forall|i: int, j: int, p: int, q: int|
        0 <= i < c.len() && 0 <= j < c[i].len() && 0 <= p < c.len() && 0 <= q < c[p].len() && key(
            #[trigger] c[i][j],
        ) == key(#[trigger] c[p][q]) implies i == p && j == q by {
        let (i2, j2) = unmerged_place(a, i, j);
        let (p2, q2) = unmerged_place(a, p, q);
        assert(all[i2][j2] == c[i][j]);
        assert(all[p2][q2] == c[p][q]);
    }
}

/// Where an item of lists whose first lists are joined is in the lists put behind each other.
spec fn unmerged_place<T>(a: Seq<Seq<T>>, i: int, j: int) -> (int, int) {
    if i == 0 && j >= a[0].len() {
        (a.len() as int, j - a[0].len())
    } else if i < a.len() {
        (i, j)
    } else {
        (i + 1, j)
    }
}

/// The number of items of a list that `p` is true of.
pub open spec fn count<T>(list: Seq<T>, p: spec_fn(T) -> bool) -> nat
    decreases list.len(),
{
    if list.len() == 0 {
        0
    } else {
        count(list.drop_last(), p) + if p(list.last()) {
            1nat
        } else {
            0nat
        }
    }
}

/// The number of items in the lists that `p` is true of.
pub open spec fn count_lists<T>(lists: Seq<Seq<T>>, p: spec_fn(T) -> bool) -> nat
    decreases lists.len(),
{
    if lists.len() == 0 {
        0
    } else {
        count_lists(lists.drop_last(), p) + count(lists.last(), p)
    }
}

/// The counts of two pieces of a list add up.
pub proof fn lemma_count_add<T>(a: Seq<T>, b: Seq<T>, p: spec_fn(T) -> bool)
    ensures
        count(a + b, p) == count(a, p) + count(b, p),
    decreases b.len(),
{
    if b.len() == 0 {
        assert(a + b =~= a);
    } else {
        lemma_count_add(a, b.drop_last(), p);
        assert((a + b).drop_last() =~= a + b.drop_last());
    }
}

/// The counts of lists that are put behind each other add up.
pub proof fn lemma_count_joined<T>(a: Seq<Seq<T>>, b: Seq<Seq<T>>, p: spec_fn(T) -> bool)
    ensures
        count_lists(a + b, p) == count_lists(a, p) + count_lists(b, p),
    decreases b.len(),
{
    if b.len() == 0 {
        assert(a + b =~= a);
    } else {
        lemma_count_joined(a, b.drop_last(), p);
        assert((a + b).drop_last() =~= a + b.drop_last());
    }
}

/// The count of a single list.
pub proof fn lemma_count_one<T>(list: Seq<T>, p: spec_fn(T) -> bool)
    ensures
        count_lists(seq![list], p) == count(list, p),
{
    reveal_with_fuel(count_lists, 2);
    assert(seq![list].drop_last() =~= Seq::<Seq<T>>::empty());
}

/// The counts of lists whose first lists are joined add up.
pub proof fn lemma_count_merged<T>(a: Seq<Seq<T>>, b: Seq<Seq<T>>, p: spec_fn(T) -> bool)
    requires
        a.len() > 0,
        b.len() > 0,
    ensures
        count_lists(merged(a, b), p) == count_lists(a, p) + count_lists(b, p),
{
    let rest = a.skip(1) + b.skip(1);
    assert(merged(a, b) =~= seq![a[0] + b[0]] + rest);
    assert(a =~= seq![a[0]] + a.skip(1));
    assert(b =~= seq![b[0]] + b.skip(1));
    lemma_count_joined(seq![a[0] + b[0]], rest, p);
    lemma_count_joined(a.skip(1), b.skip(1), p);
    lemma_count_joined(seq![a[0]], a.skip(1), p);
    lemma_count_joined(seq![b[0]], b.skip(1), p);
    lemma_count_one(a[0] + b[0], p);
    lemma_count_one(a[0], p);
    lemma_count_one(b[0], p);
    lemma_count_add(a[0], b[0], p);
}

} // verus!
