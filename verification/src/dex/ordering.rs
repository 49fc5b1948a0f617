//! Stable ordering of entries by lists of indices, the order of `Vec<u32>`.

use vstd::prelude::*;

verus! {

/// Lexicographic order on index lists, a proper prefix first.
pub open spec fn ids_lt(a: Seq<u32>, b: Seq<u32>) -> bool
    decreases a.len(),
{
    if a.len() == 0 {
        b.len() > 0
    } else if b.len() == 0 {
        false
    } else if a[0] != b[0] {
        a[0] < b[0]
    } else {
        ids_lt(a.drop_first(), b.drop_first())
    }
}

pub proof fn lemma_ids_lt_irreflexive(a: Seq<u32>)
    ensures
        !ids_lt(a, a),
    decreases a.len(),
{
    if a.len() > 0 {
        lemma_ids_lt_irreflexive(a.drop_first());
    }
}

pub proof fn lemma_ids_lt_transitive(a: Seq<u32>, b: Seq<u32>, c: Seq<u32>)
    requires
        ids_lt(a, b),
        ids_lt(b, c),
    ensures
        ids_lt(a, c),
    decreases a.len(),
{
    if a.len() > 0 && a[0] == b[0] && b[0] == c[0] {
        lemma_ids_lt_transitive(a.drop_first(), b.drop_first(), c.drop_first());
    }
}

pub proof fn lemma_ids_lt_total(a: Seq<u32>, b: Seq<u32>)
    requires
        a != b,
    ensures
        ids_lt(a, b) || ids_lt(b, a),
    decreases a.len(),
{
    if a.len() == 0 {
        if b.len() == 0 {
            assert(a =~= b);
        }
    } else if b.len() > 0 && a[0] == b[0] {
        if a.drop_first() == b.drop_first() {
            assert(a =~= seq![a[0]] + a.drop_first());
            assert(b =~= seq![b[0]] + b.drop_first());
        }
        lemma_ids_lt_total(a.drop_first(), b.drop_first());
    }
}

/// Whether `a` comes strictly before `b` in the order of `Vec<u32>`.
pub fn ids_before(a: &Vec<u32>, b: &Vec<u32>) -> (r: bool)
    ensures
        r == ids_lt(a@, b@),
{
    let mut i: usize = 0;
    assert(a@.skip(0) =~= a@);
    assert(b@.skip(0) =~= b@);
    while i < a.len() && i < b.len() && a[i] == b[i]
        invariant
            i <= a@.len(),
            i <= b@.len(),
            ids_lt(a@, b@) == ids_lt(a@.skip(i as int), b@.skip(i as int)),
        decreases a@.len() - i,
    {
        assert(a@.skip(i as int).drop_first() =~= a@.skip(i + 1));
        assert(b@.skip(i as int).drop_first() =~= b@.skip(i + 1));
        i = i + 1;
    }
    if i == a.len() {
        i < b.len()
    } else if i == b.len() {
        false
    } else {
        assert(a@.skip(i as int)[0] == a@[i as int]);
        assert(b@.skip(i as int)[0] == b@[i as int]);
        a[i] < b[i]
    }
}

/// Entry `x` sorts before entry `y`: a smaller key, or an equal key and an earlier place.
pub open spec fn pair_lt(keys: Seq<Seq<u32>>, x: int, y: int) -> bool {
    ids_lt(keys[x], keys[y]) || (keys[x] == keys[y] && x < y)
}

/// `order` lists every entry of `keys` once, sorted by key, equal keys in their
/// input order: what a stable sort by key gives.
pub open spec fn is_stable_order(keys: Seq<Seq<u32>>, order: Seq<usize>) -> bool {
    &&& order.len() == keys.len()
    &&& forall|a: int| 0 <= a < order.len() ==> #[trigger] order[a] < keys.len()
    &&& forall|i: int| 0 <= i < keys.len() ==> #[trigger] order.contains(i as usize)
    &&& forall|a: int, b: int|
        0 <= a < b < order.len() ==> pair_lt(keys, #[trigger] order[a] as int, #[trigger] order[b] as int)
}

/// The keys of a list of key vectors.
pub open spec fn key_views(keys: Seq<Vec<u32>>) -> Seq<Seq<u32>> {
    Seq::new(keys.len(), |i: int| keys[i]@)
}

/// The entries of `keys` in stable sorted order.
pub fn stable_order(keys: &Vec<Vec<u32>>) -> (order: Vec<usize>)
    ensures
        is_stable_order(key_views(keys@), order@),
{
    let ghost k = key_views(keys@);
    let n = keys.len();
    let mut order: Vec<usize> = Vec::new();
    let mut i: usize = 0;
    while i < n
        invariant
            i <= n == keys@.len() == k.len(),
            k == key_views(keys@),
            order@.len() == i,
            forall|a: int| 0 <= a < order@.len() ==> #[trigger] order@[a] < i,
            forall|j: int| 0 <= j < i ==> #[trigger] order@.contains(j as usize),
            forall|a: int, b: int|
                0 <= a < b < order@.len() ==> pair_lt(k, #[trigger] order@[a] as int, #[trigger] order@[b] as int),
        decreases n - i,
    {
        let ki = &keys[i];
        let mut lo: usize = 0;
        let mut hi: usize = order.len();
        while lo < hi
            invariant
                lo <= hi <= order@.len() == i < n == keys@.len() == k.len(),
                k == key_views(keys@),
                ki@ == k[i as int],
                forall|a: int| 0 <= a < order@.len() ==> #[trigger] order@[a] < i,
                forall|a: int, b: int|
                    0 <= a < b < order@.len() ==> pair_lt(k, #[trigger] order@[a] as int, #[trigger] order@[b] as int),
                forall|a: int| 0 <= a < lo ==> !ids_lt(k[i as int], #[trigger] k[order@[a] as int]),
                forall|a: int| hi <= a < order@.len() ==> ids_lt(k[i as int], #[trigger] k[order@[a] as int]),
            decreases hi - lo,
        {
            let mid = lo + (hi - lo) / 2;
            let om = order[mid];
            if ids_before(ki, &keys[om]) {
                assert forall|a: int| mid <= a < order@.len() implies ids_lt(k[i as int], #[trigger] k[order@[a] as int]) by {
                    if a > mid {
                        assert(pair_lt(k, order@[mid as int] as int, order@[a] as int));
                        if ids_lt(k[om as int], k[order@[a] as int]) {
                            lemma_ids_lt_transitive(k[i as int], k[om as int], k[order@[a] as int]);
                        }
                    }
                }
                hi = mid;
            } else {
                assert forall|a: int| 0 <= a < mid + 1 implies !ids_lt(k[i as int], #[trigger] k[order@[a] as int]) by {
                    if a < mid {
                        assert(pair_lt(k, order@[a] as int, order@[mid as int] as int));
                        if ids_lt(k[i as int], k[order@[a] as int]) {
                            if ids_lt(k[order@[a] as int], k[om as int]) {
                                lemma_ids_lt_transitive(k[i as int], k[order@[a] as int], k[om as int]);
                            }
                        }
                    }
                }
                lo = mid + 1;
            }
        }
        let ghost before = order@;
        order.insert(lo, i);
        assert(order@ =~= before.subrange(0, lo as int).push(i) + before.subrange(lo as int, before.len() as int));
        assert forall|a: int, b: int| 0 <= a < b < order@.len() implies pair_lt(
            k,
            #[trigger] order@[a] as int,
            #[trigger] order@[b] as int,
        ) by {
            if b < lo {
                assert(order@[a] == before[a] && order@[b] == before[b]);
            } else if b == lo {
                assert(order@[a] == before[a]);
                if k[before[a] as int] != k[i as int] {
                    lemma_ids_lt_total(k[before[a] as int], k[i as int]);
                }
            } else if a < lo {
                assert(order@[a] == before[a] && order@[b] == before[b - 1]);
            } else if a == lo {
                assert(order@[b] == before[b - 1]);
            } else {
                assert(order@[a] == before[a - 1] && order@[b] == before[b - 1]);
            }
        }
        assert forall|j: int| 0 <= j < i + 1 implies #[trigger] order@.contains(j as usize) by {
            if j == i {
                assert(order@[lo as int] == i);
            } else {
                assert(before.contains(j as usize));
                let a = choose|a: int| 0 <= a < before.len() && before[a] == j as usize;
                if a < lo {
                    assert(order@[a] == j as usize);
                } else {
                    assert(order@[a + 1] == j as usize);
                }
            }
        }
        i = i + 1;
    }
    order
}

/// For each entry, its place in `order`.
pub fn places(order: &Vec<usize>) -> (ids: Vec<usize>)
    requires
        forall|a: int| 0 <= a < order@.len() ==> #[trigger] order@[a] < order@.len(),
        forall|i: int| 0 <= i < order@.len() ==> #[trigger] order@.contains(i as usize),
    ensures
        ids@.len() == order@.len(),
        forall|i: int| 0 <= i < ids@.len() ==> #[trigger] ids@[i] < order@.len() && order@[ids@[i] as int] == i,
{
    let n = order.len();
    let mut ids: Vec<usize> = Vec::new();
    let mut j: usize = 0;
    while j < n
        invariant
            j <= n == order@.len(),
            ids@.len() == j,
            forall|i: int| 0 <= i < j ==> #[trigger] ids@[i] == 0,
        decreases n - j,
    {
        ids.push(0);
        j = j + 1;
    }
    let mut a: usize = 0;
    while a < n
        invariant
            a <= n == order@.len() == ids@.len(),
            forall|x: int| 0 <= x < n ==> #[trigger] order@[x] < n,
            forall|i: int| 0 <= i < n ==> #[trigger] ids@[i] < n,
            forall|b: int| 0 <= b < a ==> order@[#[trigger] ids@[order@[b] as int] as int] == order@[b],
            forall|i: int| 0 <= i < n && order@[ids@[i] as int] != i ==> forall|b: int|
                0 <= b < a ==> #[trigger] order@[b] != i,
        decreases n - a,
    {
        let x = order[a];
        ids.set(x, a);
        a = a + 1;
    }
    assert forall|i: int| 0 <= i < ids@.len() implies #[trigger] ids@[i] < order@.len() && order@[ids@[i] as int] == i by {
        assert(order@.contains(i as usize));
        let b = choose|b: int| 0 <= b < order@.len() && order@[b] == i as usize;
        assert(order@[ids@[order@[b] as int] as int] == order@[b]);
    }
    ids
}

} // verus!
