//! The contiguous layout of string data that the fast string search relies on, and
//! why, under that layout, the fast search misses no string.

use vstd::prelude::*;

use crate::dex::fastref::locator::string::{fast_hits, first_occ, max_offset, min_offset, nul_in, offset_map};
use crate::dex::fastref::search::occurs_at;
use crate::dex::raw::RawDex;
use crate::dex::strings::{find_nul, mutf8_char, mutf8_unit3, spec_encode_mutf8};
use crate::leb128::{lemma_read_leb_consumed, spec_read_uleb128};

verus! {

/// Offset of the string_data_item of string `k`.
pub open spec fn item_off(d: RawDex, k: int) -> int {
    d.string_data_offset(k as u32)->0 as int
}

/// Length of the uleb128 prefix of the string_data_item of string `k`.
pub open spec fn prefix_len(d: RawDex, k: int) -> int {
    match spec_read_uleb128(d.data@, item_off(d, k)) {
        Some((_, n)) => n as int,
        None => 0,
    }
}

/// Position of the NUL that ends the string_data_item of string `k`.
pub open spec fn item_nul(d: RawDex, k: int) -> int {
    find_nul(d.data@, item_off(d, k) + prefix_len(d, k))
}

/// The string_data items lie one right after the other in string_ids order, each with
/// a readable length prefix and a terminating NUL, as dx and R8 write them.
pub open spec fn contiguous_strings(d: RawDex) -> bool {
    let n = d.string_ids.size as int;
    &&& forall|k: int| 0 <= k < n ==> (#[trigger] d.string_data_offset(k as u32)) is Some
    &&& forall|k: int| 0 <= k < n ==> spec_read_uleb128(d.data@, #[trigger] item_off(d, k)) is Some
    &&& forall|k: int| 0 <= k < n ==> #[trigger] item_nul(d, k) < d.data@.len()
    &&& forall|k: int| 0 <= k < n - 1 ==> #[trigger] item_off(d, k + 1) == item_nul(d, k) + 1
}

proof fn lemma_find_nul_props(data: Seq<u8>, e: int)
    requires
        0 <= e <= data.len(),
    ensures
        e <= find_nul(data, e) <= data.len(),
        find_nul(data, e) < data.len() ==> data[find_nul(data, e)] == 0,
        forall|c: int| e <= c < find_nul(data, e) ==> data[c] != 0,
    decreases data.len() - e,
{
    if e < data.len() && data[e] != 0 {
        lemma_find_nul_props(data, e + 1);
    }
}

/// What the layout gives for one item: prefix, then payload without NUL, then NUL.
pub proof fn lemma_item(d: RawDex, k: int)
    requires
        contiguous_strings(d),
        0 <= k < d.string_ids.size,
    ensures
        0 <= item_off(d, k),
        item_off(d, k) < item_off(d, k) + prefix_len(d, k) <= item_nul(d, k) < d.data@.len(),
        d.data@[item_nul(d, k)] == 0,
        forall|c: int| item_off(d, k) + prefix_len(d, k) <= c < item_nul(d, k) ==> d.data@[c] != 0,
{
    assert(d.string_data_offset(k as u32) is Some);
    assert(spec_read_uleb128(d.data@, item_off(d, k)) is Some);
    assert(item_nul(d, k) < d.data@.len());
    lemma_read_leb_consumed(d.data@, item_off(d, k));
    lemma_find_nul_props(d.data@, item_off(d, k) + prefix_len(d, k));
}

/// Items come in string_ids order and do not overlap.
pub proof fn lemma_items_ordered(d: RawDex, a: int, b: int)
    requires
        contiguous_strings(d),
        0 <= a < b < d.string_ids.size,
    ensures
        item_nul(d, a) < item_off(d, b),
    decreases b - a,
{
    let c = b - 1;
    assert(item_off(d, c + 1) == item_nul(d, c) + 1);
    assert(c + 1 == b);
    if a < b - 1 {
        lemma_items_ordered(d, a, b - 1);
        lemma_item(d, b - 1);
    }
}

/// Every position from the first item's start to the last item's NUL lies in an item.
#[verifier::spinoff_prover]
pub proof fn lemma_item_of(d: RawDex, j: int, p: int) -> (k: int)
    requires
        contiguous_strings(d),
        0 <= j < d.string_ids.size,
        item_off(d, j) <= p <= item_nul(d, d.string_ids.size - 1),
    ensures
        j <= k < d.string_ids.size,
        item_off(d, k) <= p <= item_nul(d, k),
    decreases d.string_ids.size - j,
{
    if p <= item_nul(d, j) {
        j
    } else {
        assert(item_off(d, j + 1) == item_nul(d, j) + 1);
        lemma_item_of(d, j + 1, p)
    }
}

/// Under the layout, the offset map names each item's offset by its index, and holds no
/// other key.
#[verifier::spinoff_prover]
#[verifier::rlimit(60)]
pub proof fn lemma_offset_map(d: RawDex, m: nat)
    requires
        contiguous_strings(d),
        m <= d.string_ids.size,
        d.data@.len() < 0x1_0000_0000,
    ensures
        forall|k: int| 0 <= k < m ==> #[trigger] offset_map(d, m).contains_key(item_off(d, k) as u32)
            && offset_map(d, m)[item_off(d, k) as u32] == k,
        forall|p: u32| #[trigger] offset_map(d, m).contains_key(p) ==> exists|k: int| 0 <= k < m && p == item_off(d, k),
    decreases m,
{
    if m > 0 {
        let last = (m - 1) as int;
        lemma_offset_map(d, (m - 1) as nat);
        lemma_item(d, last);
        assert(offset_map(d, m) == offset_map(d, (m - 1) as nat).insert(item_off(d, last) as u32, last as u32));
        assert forall|k: int| 0 <= k < m implies #[trigger] offset_map(d, m).contains_key(item_off(d, k) as u32)
            && offset_map(d, m)[item_off(d, k) as u32] == k by {
            if k < last {
                lemma_items_ordered(d, k, last);
                lemma_item(d, k);
                assert(item_off(d, k) < item_off(d, last));
                assert(item_off(d, k) as u32 != item_off(d, last) as u32);
                assert(offset_map(d, (m - 1) as nat).contains_key(item_off(d, k) as u32));
            }
        }
        assert forall|p: u32| #[trigger] offset_map(d, m).contains_key(p) implies exists|k: int|
            0 <= k < m && p == item_off(d, k) by {
            if p != item_off(d, last) as u32 {
                assert(offset_map(d, (m - 1) as nat).contains_key(p));
            }
        }
    }
}

/// Under the layout, the smallest offset is the first item's and the largest the last's.
#[verifier::spinoff_prover]
pub proof fn lemma_min_max(d: RawDex, m: nat)
    requires
        contiguous_strings(d),
        0 < m <= d.string_ids.size,
    ensures
        min_offset(d, m) as int == item_off(d, 0),
        max_offset(d, m) as int == item_off(d, m - 1),
    decreases m,
{
    let o = d.string_data_offset((m - 1) as u32)->0;
    assert(o as int == item_off(d, m - 1));
    assert(min_offset(d, m) == if o < min_offset(d, (m - 1) as nat) {
        o
    } else {
        min_offset(d, (m - 1) as nat)
    });
    assert(max_offset(d, m) == if o > max_offset(d, (m - 1) as nat) {
        o
    } else {
        max_offset(d, (m - 1) as nat)
    });
    if m > 1 {
        lemma_min_max(d, (m - 1) as nat);
        lemma_items_ordered(d, 0, m - 1);
        lemma_items_ordered(d, m - 2, m - 1);
        lemma_item(d, 0);
        lemma_item(d, m - 2);
    } else {
        assert(min_offset(d, 0) == u32::MAX);
        assert(max_offset(d, 0) == 0);
    }
}

/// MUTF-8 never writes a zero byte.
pub proof fn lemma_mutf8_no_zero(s: Seq<char>)
    ensures
        forall|i: int| 0 <= i < spec_encode_mutf8(s).len() ==> spec_encode_mutf8(s)[i] != 0,
    decreases s.len(),
{
    if s.len() > 0 {
        lemma_mutf8_no_zero(s.drop_last());
        let cp = s.last() as u32;
        vstd::utf8::char_is_scalar(s.last());
        assert(cp <= 0x10ffff);
        assert forall|i: int| 0 <= i < mutf8_char(cp).len() implies mutf8_char(cp)[i] != 0 by {
            if cp > 0xffff {
                let cp2 = cp - 0x10000;
                let hi = mutf8_unit3(0xd800 + cp2 / 1024);
                let lo = mutf8_unit3(0xdc00 + cp2 % 1024);
                assert(mutf8_char(cp) == hi + lo);
            }
        }
        let a = spec_encode_mutf8(s.drop_last());
        assert forall|i: int| 0 <= i < spec_encode_mutf8(s).len() implies spec_encode_mutf8(s)[i] != 0 by {
            if i >= a.len() {
                assert(spec_encode_mutf8(s)[i] == mutf8_char(cp)[i - a.len()]);
            }
        }
    }
}

/// The first occurrence from `pos` on comes no later than any occurrence from `pos` on.
pub proof fn lemma_first_occ_before(h: Seq<u8>, n: Seq<u8>, pos: int, r: int)
    requires
        0 <= pos <= r,
        occurs_at(h, n, r),
    ensures
        first_occ(h, n, pos) matches Some(q) && pos <= q <= r && occurs_at(h, n, q),
    decreases r - pos,
{
    if !occurs_at(h, n, pos) {
        lemma_first_occ_before(h, n, pos + 1, r);
    }
}

/// What `nul_in` finds: the first NUL from `a` on, before `end`.
pub proof fn lemma_nul_in(data: Seq<u8>, a: int, end: int)
    requires
        0 <= a,
        end <= data.len(),
    ensures
        nul_in(data, a, end) matches Some(z) ==> a <= z < end && data[z] == 0 && forall|c: int|
            a <= c < z ==> data[c] != 0,
        nul_in(data, a, end) is None ==> forall|c: int| a <= c < end ==> data[c] != 0,
    decreases end - a,
{
    if a < end && data[a] != 0 {
        lemma_nul_in(data, a + 1, end);
    }
}

/// An occurrence of a NUL-free needle in the string data lies in one item, before its
/// NUL.
#[verifier::spinoff_prover]
proof fn lemma_occ_item(d: RawDex, needle: Seq<u8>, start: int, end: int, a: int) -> (k: int)
    requires
        contiguous_strings(d),
        d.string_ids.size > 0,
        start == item_off(d, 0),
        end == item_nul(d, d.string_ids.size - 1) + 1,
        needle.len() > 0,
        forall|i: int| 0 <= i < needle.len() ==> needle[i] != 0,
        start <= a,
        a + needle.len() <= end,
        d.data@.subrange(a, a + needle.len()) == needle,
    ensures
        0 <= k < d.string_ids.size,
        item_off(d, k) <= a,
        a + needle.len() <= item_nul(d, k),
{
    let n = d.string_ids.size as int;
    let data = d.data@;
    lemma_item(d, n - 1);
    let k = lemma_item_of(d, 0, a);
    lemma_item(d, k);
    if a + needle.len() > item_nul(d, k) {
        let z = item_nul(d, k);
        assert(data.subrange(a, a + needle.len())[z - a] == data[z]);
    }
    k
}

/// Where the first NUL after an occurrence in item `k` leads: into the length prefix
/// (no item starts right after it), or to `k`'s own NUL (item `k + 1` starts right after
/// it, or the end sentinel when `k` is the last).
#[verifier::spinoff_prover]
proof fn lemma_next_item(d: RawDex, index: Map<u32, u32>, end: int, k: int, z: int)
    requires
        contiguous_strings(d),
        d.string_ids.size > 0,
        d.data@.len() < 0x1_0000_0000,
        end == item_nul(d, d.string_ids.size - 1) + 1,
        index == offset_map(d, d.string_ids.size as nat).insert(end as u32, d.string_ids.size as u32),
        0 <= k < d.string_ids.size,
        item_off(d, k) <= z <= item_nul(d, k),
        z < item_nul(d, k) ==> z < item_off(d, k) + prefix_len(d, k),
    ensures
        z < item_nul(d, k) ==> !index.contains_key((z + 1) as u32),
        z == item_nul(d, k) ==> index.contains_key((z + 1) as u32) && index[(z + 1) as u32] == k + 1,
{
    let n = d.string_ids.size as int;
    lemma_offset_map(d, n as nat);
    lemma_item(d, k);
    lemma_item(d, n - 1);
    if k < n - 1 {
        lemma_items_ordered(d, k, n - 1);
    }
    let next_item = (z + 1) as u32;
    assert(next_item as int == z + 1);
    if z < item_nul(d, k) {
        if index.contains_key(next_item) {
            assert(next_item != end as u32);
            assert(offset_map(d, n as nat).contains_key(next_item));
            let j = choose|j: int| 0 <= j < n && next_item == item_off(d, j) as u32;
            lemma_item(d, j);
            if j < k {
                lemma_items_ordered(d, j, k);
            } else if j > k {
                lemma_items_ordered(d, k, j);
            }
        }
    } else if k < n - 1 {
        assert(item_off(d, k + 1) == item_nul(d, k) + 1);
        lemma_item(d, k + 1);
        if k + 1 < n - 1 {
            lemma_items_ordered(d, k + 1, n - 1);
        }
        assert(offset_map(d, n as nat).contains_key(item_off(d, k + 1) as u32));
        assert(offset_map(d, n as nat)[item_off(d, k + 1) as u32] == k + 1);
        assert(next_item == item_off(d, k + 1) as u32);
        assert(next_item != end as u32);
    }
}

/// Under the layout, the fast search from `pos` reports string `h` whenever its payload
/// holds the needle at a position (relative to `start`) not before `pos`, unless it
/// gives up.
#[verifier::spinoff_prover]
#[verifier::rlimit(100)]
pub proof fn lemma_fast_complete(
    d: RawDex,
    needle: Seq<u8>,
    index: Map<u32, u32>,
    found: Set<u32>,
    start: int,
    end: int,
    pos: int,
    h: int,
    r: int,
)
    requires
        contiguous_strings(d),
        d.string_ids.size > 0,
        d.data@.len() < 0x1_0000_0000,
        start == item_off(d, 0),
        end == item_nul(d, d.string_ids.size - 1) + 1,
        index == offset_map(d, d.string_ids.size as nat).insert(end as u32, d.string_ids.size as u32),
        needle.len() > 0,
        forall|i: int| 0 <= i < needle.len() ==> needle[i] != 0,
        0 <= h < d.string_ids.size,
        found.contains(h as u32),
        item_off(d, h) + prefix_len(d, h) <= start + r,
        start + r + needle.len() <= item_nul(d, h),
        d.data@.subrange(start + r, start + r + needle.len()) == needle,
        0 <= pos <= r,
    ensures
        fast_hits(d.data@, start, end, needle, index, found, pos) matches Some(s) ==> s.contains(h as u32),
    decreases end - start + 1 - pos,
{
    let data = d.data@;
    let n = d.string_ids.size as int;
    let region = data.subrange(start, end);
    lemma_item(d, 0);
    lemma_item(d, n - 1);
    lemma_item(d, h);
    if h < n - 1 {
        lemma_items_ordered(d, h, n - 1);
    }
    assert(occurs_at(region, needle, r)) by {
        assert(region.subrange(r, r + needle.len()) =~= data.subrange(start + r, start + r + needle.len()));
    }
    lemma_first_occ_before(region, needle, pos, r);
    let q = first_occ(region, needle, pos)->0;
    let a = start + q;
    let abs_end = a + needle.len();
    let next_pos = q + needle.len();
    assert(data.subrange(a, abs_end) == needle) by {
        assert(data.subrange(a, abs_end) =~= region.subrange(q, q + needle.len()));
    }
    let k = lemma_occ_item(d, needle, start, end, a);
    lemma_item(d, k);
    if k < n - 1 {
        lemma_items_ordered(d, k, n - 1);
    }
    lemma_nul_in(data, abs_end, end);
    match nul_in(data, abs_end, end) {
        None => {
            assert(data[item_nul(d, k)] != 0);
        },
        Some(z) => {
            assert(z <= item_nul(d, k)) by {
                if z > item_nul(d, k) {
                    assert(data[item_nul(d, k)] != 0);
                }
            }
            assert(z < item_nul(d, k) ==> z < item_off(d, k) + prefix_len(d, k)) by {
                if z < item_nul(d, k) && z >= item_off(d, k) + prefix_len(d, k) {
                    assert(data[z] != 0);
                }
            }
            lemma_next_item(d, index, end, k, z);
            if z == item_nul(d, k) && found.contains(k as u32) {
                if k != h {
                    assert(k < h) by {
                        if k > h {
                            lemma_items_ordered(d, h, k);
                        }
                    }
                    lemma_items_ordered(d, k, h);
                    lemma_fast_complete(d, needle, index, found, start, end, next_pos, h, r);
                    match fast_hits(data, start, end, needle, index, found, next_pos) {
                        Some(rest) => {
                            let j = choose|j: int| 0 <= j < rest.len() && rest[j] == h as u32;
                            assert((seq![k as u32] + rest)[j + 1] == h as u32);
                        },
                        None => {},
                    }
                } else {
                    match fast_hits(data, start, end, needle, index, found, next_pos) {
                        Some(rest) => {
                            assert((seq![k as u32] + rest)[0] == h as u32);
                        },
                        None => {},
                    }
                }
            }
        },
    }
}

} // verus!
