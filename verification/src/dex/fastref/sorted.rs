//! Sorted, duplicate-free index lists: the shape every locator hands back.

use vstd::prelude::*;

verus! {

/// Strictly ascending.
pub open spec fn strictly_increasing(s: Seq<u32>) -> bool {
    forall|i: int, j: int| 0 <= i < j < s.len() ==> s[i] < s[j]
}

/// Ascending, duplicates allowed.
pub open spec fn ascending(s: Seq<u32>) -> bool {
    forall|i: int, j: int| 0 <= i <= j < s.len() ==> s[i] <= s[j]
}

/// Calls `slice::sort_unstable`, which sorts ascending and keeps the same elements.
#[verifier::external_body]
fn sort_unstable(v: &mut Vec<u32>)
    ensures
        final(v)@.to_multiset() == old(v)@.to_multiset(),
        ascending(final(v)@),
{
    v.sort_unstable()
}

/// The elements of `v`, ascending, each once (as `sort_unstable` then `dedup` give them).
pub fn sort_dedup(v: Vec<u32>) -> (r: Vec<u32>)
    ensures
        strictly_increasing(r@),
        r@.to_set() == v@.to_set(),
{
    let mut s = v;
    let ghost orig = s@;
    sort_unstable(&mut s);
    proof {
        s@.to_multiset_ensures();
        orig.to_multiset_ensures();
        assert forall|x: u32| s@.contains(x) == orig.contains(x) by {
            assert(s@.contains(x) <==> s@.to_multiset().count(x) > 0);
            assert(orig.contains(x) <==> orig.to_multiset().count(x) > 0);
        }
    }
    let mut r: Vec<u32> = Vec::new();
    let mut i: usize = 0;
    while i < s.len()
        invariant
            i <= s@.len(),
            ascending(s@),
            strictly_increasing(r@),
            r@.len() > 0 ==> i > 0 && r@[r@.len() - 1] == s@[i - 1],
            r@.len() == 0 ==> i == 0,
            forall|x: u32| r@.contains(x) <==> s@.subrange(0, i as int).contains(x),
        decreases s@.len() - i,
    {
        let x = s[i];
        let ghost pre = s@.subrange(0, i as int);
        let ghost old_r = r@;
        if r.len() == 0 || r[r.len() - 1] != x {
            r.push(x);
        }
        proof {
            let cur = s@.subrange(0, i + 1);
            assert(cur =~= pre.push(x));
            assert forall|y: u32| r@.contains(y) <==> cur.contains(y) by {
                assert(r@ == old_r || r@ == old_r.push(x));
                if cur.contains(y) {
                    let t = choose|t: int| 0 <= t < cur.len() && cur[t] == y;
                    if t < i {
                        assert(pre[t] == y);
                        assert(pre.contains(y));
                        assert(old_r.contains(y));
                        let k = choose|k: int| 0 <= k < old_r.len() && old_r[k] == y;
                        assert(r@[k] == y);
                    } else {
                        assert(y == x);
                        assert(r@[r@.len() - 1] == x);
                    }
                }
                if r@.contains(y) {
                    if y == x {
                        assert(cur[i as int] == x);
                    } else {
                        let k = choose|k: int| 0 <= k < r@.len() && r@[k] == y;
                        assert(old_r[k] == y);
                        assert(old_r.contains(y));
                        assert(pre.contains(y));
                        let u = choose|u: int| 0 <= u < pre.len() && pre[u] == y;
                        assert(cur[u] == y);
                    }
                }
            }
        }
        i = i + 1;
    }
    proof {
        assert(s@.subrange(0, s@.len() as int) =~= s@);
        assert(r@.to_set() =~= orig.to_set());
    }
    r
}

/// Whether `x` is in the strictly ascending `s` (binary search).
pub fn sorted_contains(s: &[u32], x: u32) -> (r: bool)
    requires
        strictly_increasing(s@),
    ensures
        r == s@.contains(x),
{
    let mut lo: usize = 0;
    let mut hi: usize = s.len();
    while lo < hi
        invariant
            lo <= hi <= s@.len(),
            strictly_increasing(s@),
            forall|k: int| 0 <= k < lo ==> s@[k] < x,
            forall|k: int| hi <= k < s@.len() ==> s@[k] > x,
        decreases hi - lo,
    {
        let mid = lo + (hi - lo) / 2;
        if s[mid] < x {
            lo = mid + 1;
        } else if s[mid] > x {
            hi = mid;
        } else {
            return true;
        }
    }
    proof {
        if s@.contains(x) {
            let t = choose|t: int| 0 <= t < s@.len() && s@[t] == x;
        }
    }
    false
}

/// The elements of the strictly ascending `c` that are also in the strictly ascending
/// `n`, in order.
pub fn intersect_sorted(c: Vec<u32>, n: &[u32]) -> (r: Vec<u32>)
    requires
        strictly_increasing(c@),
        strictly_increasing(n@),
    ensures
        r@ == c@.filter(|x: u32| n@.contains(x)),
        strictly_increasing(r@),
        forall|k: int| 0 <= k < r@.len() ==> c@.contains(#[trigger] r@[k]),
{
    let mut r: Vec<u32> = Vec::new();
    let mut i: usize = 0;
    while i < c.len()
        invariant
            i <= c@.len(),
            strictly_increasing(c@),
            strictly_increasing(n@),
            r@ == c@.subrange(0, i as int).filter(|x: u32| n@.contains(x)),
            strictly_increasing(r@),
            forall|k: int| 0 <= k < r@.len() ==> c@.subrange(0, i as int).contains(#[trigger] r@[k]),
        decreases c@.len() - i,
    {
        let x = c[i];
        let ghost pre = c@.subrange(0, i as int);
        let ghost cur = c@.subrange(0, i + 1);
        proof {
            assert(cur =~= pre.push(x));
            pre.lemma_filter_push(x, |x: u32| n@.contains(x));
        }
        if sorted_contains(n, x) {
            let ghost old_r = r@;
            r.push(x);
            proof {
                assert forall|a: int, b: int| 0 <= a < b < r@.len() implies r@[a] < r@[b] by {
                    if b == r@.len() - 1 {
                        assert(pre.contains(old_r[a]));
                        let t = choose|t: int| 0 <= t < pre.len() && pre[t] == old_r[a];
                        assert(c@[t] < c@[i as int]);
                    }
                }
                assert forall|k: int| 0 <= k < r@.len() implies cur.contains(#[trigger] r@[k]) by {
                    if k < old_r.len() {
                        let t = choose|t: int| 0 <= t < pre.len() && pre[t] == old_r[k];
                        assert(cur[t] == old_r[k]);
                    } else {
                        assert(cur[i as int] == x);
                    }
                }
            }
        } else {
            proof {
                assert forall|k: int| 0 <= k < r@.len() implies cur.contains(#[trigger] r@[k]) by {
                    let t = choose|t: int| 0 <= t < pre.len() && pre[t] == r@[k];
                    assert(cur[t] == r@[k]);
                }
            }
        }
        i = i + 1;
    }
    proof {
        assert(c@.subrange(0, c@.len() as int) =~= c@);
    }
    r
}

} // verus!
