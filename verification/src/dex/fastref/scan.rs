//! Raw-byte `(opcode, idx)` scanner over the code_item region.

use std::collections::HashSet;

use vstd::prelude::*;

use crate::dex::raw::{spec_map_entry, RawDex};
use crate::dex::fastref::search::find_byte;
use crate::leb128::{u16_at, u32_at};

verus! {

broadcast use vstd::std_specs::hash::group_hash_axioms;

/// A place in the code region where an opcode of interest is followed by a wanted index.
#[derive(Debug, Clone, Copy)]
pub struct CodeScanHit {
    pub file_off: u32,
    pub pool_idx: u32,
}

/// Which constant pool a reference points into.
#[derive(Debug, Clone, Copy, PartialEq, Eq)]
pub enum RefKind {
    String,
    Type,
    Field,
    Method,
}

/// Whether the wanted set is held as a bitset over the pool: more than eight
/// indices, a non-empty pool, and more than one index per 32 pool entries.
pub open spec fn bitset_mode(n: nat, pool_size: u32) -> bool {
    n > 8 && pool_size > 0 && n * 32 > pool_size
}

/// Membership as the scanners test it: an index of `wanted`; in bitset mode only
/// those below `pool_size` count.
pub open spec fn in_index_set(wanted: Seq<u32>, pool_size: u32, idx: u32) -> bool {
    wanted.contains(idx) && (bitset_mode(wanted.len(), pool_size) ==> idx < pool_size)
}

/// Bit `j` of a little-endian bitset held in 64-bit words.
pub open spec fn bit_at(bits: Seq<u64>, j: int) -> bool {
    (bits[j / 64] & (1u64 << ((j % 64) as u64))) != 0
}

/// The wanted pool indices, in the representation that suits their number.
enum IndexSet {
    Small(Vec<u32>),
    Bitset(Vec<u64>),
    Hash(HashSet<u32>),
}

impl IndexSet {
    spec fn holds(self, wanted: Seq<u32>, pool_size: u32) -> bool {
        match self {
            IndexSet::Small(v) => v@ == wanted && !bitset_mode(wanted.len(), pool_size),
            IndexSet::Bitset(b) => {
                &&& bitset_mode(wanted.len(), pool_size)
                &&& b@.len() * 64 >= pool_size
                &&& forall|j: int|
                    0 <= j < b@.len() * 64 ==> #[trigger] bit_at(b@, j) == (j < pool_size
                        && wanted.contains(j as u32))
            },
            IndexSet::Hash(h) => h@ == wanted.to_set() && !bitset_mode(wanted.len(), pool_size),
        }
    }

    fn new(indices: &[u32], pool_size: u32) -> (r: IndexSet)
        ensures
            r.holds(indices@, pool_size),
    {
        let n = indices.len();
        if n <= 8 {
            let mut v: Vec<u32> = Vec::new();
            let mut i: usize = 0;
            while i < n
                invariant
                    n == indices@.len(),
                    i <= n,
                    v@ == indices@.subrange(0, i as int),
                decreases n - i,
            {
                v.push(indices[i]);
                i = i + 1;
                proof {
                    assert(v@ =~= indices@.subrange(0, i as int));
                }
            }
            proof {
                assert(indices@.subrange(0, n as int) =~= indices@);
            }
            return IndexSet::Small(v);
        }
        if pool_size > 0 && (n as u64) > (pool_size as u64) / 32 {
            proof {
                assert(n * 32 > pool_size) by (nonlinear_arith)
                    requires
                        n > pool_size / 32,
                ;
            }
            let words: usize = ((pool_size as u64 + 63) / 64) as usize;
            let mut bits: Vec<u64> = Vec::new();
            while bits.len() < words
                invariant
                    bits@.len() <= words,
                    forall|k: int| 0 <= k < bits@.len() ==> bits@[k] == 0u64,
                decreases words - bits@.len(),
            {
                bits.push(0);
            }
            proof {
                assert forall|j: int| 0 <= j < bits@.len() * 64 implies #[trigger] bit_at(bits@, j)
                    == (j < pool_size && indices@.subrange(0, 0).contains(j as u32)) by {
                    lemma_bit_zero((j % 64) as u64);
                    assert(bits@[j / 64] == 0u64);
                }
            }
            let mut i: usize = 0;
            while i < n
                invariant
                    n == indices@.len(),
                    i <= n,
                    bits@.len() == words,
                    words == (pool_size + 63) / 64,
                    forall|j: int|
                        0 <= j < bits@.len() * 64 ==> #[trigger] bit_at(bits@, j) == (j < pool_size
                            && indices@.subrange(0, i as int).contains(j as u32)),
                decreases n - i,
            {
                let x = indices[i];
                let ghost old_bits = bits@;
                if x < pool_size {
                    let w: usize = (x / 64) as usize;
                    let k: u64 = (x % 64) as u64;
                    let nw = bits[w] | (1u64 << k);
                    bits.set(w, nw);
                    proof {
                        assert forall|j: int| 0 <= j < bits@.len() * 64 implies #[trigger] bit_at(
                            bits@,
                            j,
                        ) == (j < pool_size && indices@.subrange(0, i + 1).contains(j as u32)) by {
                            assert(indices@.subrange(0, i + 1) =~= indices@.subrange(0, i as int).push(x));
                            assert(bit_at(old_bits, j) == (j < pool_size && indices@.subrange(0, i as int).contains(j as u32)));
                            lemma_set_bit(old_bits, bits@, w as int, k, x as int, j);
                            let pre = indices@.subrange(0, i as int);
                            assert(pre.push(x).contains(j as u32) == (pre.contains(j as u32) || x
                                == j as u32)) by {
                                if pre.contains(j as u32) {
                                    let t = choose|t: int| 0 <= t < pre.len() && pre[t] == j as u32;
                                    assert(pre.push(x)[t] == j as u32);
                                }
                                if x == j as u32 {
                                    assert(pre.push(x)[pre.len() as int] == x);
                                }
                            }
                            if j < pool_size {
                                assert((j as u32) as int == j);
                            }
                        }
                    }
                } else {
                    proof {
                        assert forall|j: int| 0 <= j < bits@.len() * 64 implies #[trigger] bit_at(
                            bits@,
                            j,
                        ) == (j < pool_size && indices@.subrange(0, i + 1).contains(j as u32)) by {
                            assert(indices@.subrange(0, i + 1) =~= indices@.subrange(0, i as int).push(x));
                            assert(bit_at(old_bits, j) == (j < pool_size && indices@.subrange(0, i as int).contains(j as u32)));
                        }
                    }
                }
                i = i + 1;
            }
            proof {
                assert(indices@.subrange(0, n as int) =~= indices@);
            }
            return IndexSet::Bitset(bits);
        }
        let mut h: HashSet<u32> = HashSet::new();
        let mut i: usize = 0;
        while i < n
            invariant
                n == indices@.len(),
                i <= n,
                h@ == indices@.subrange(0, i as int).to_set(),
            decreases n - i,
        {
            h.insert(indices[i]);
            proof {
                assert(indices@.subrange(0, i + 1) =~= indices@.subrange(0, i as int).push(indices@[i as int]));
                indices@.subrange(0, i as int).lemma_push_to_set_commute(indices@[i as int]);
            }
            i = i + 1;
        }
        proof {
            assert(indices@.subrange(0, n as int) =~= indices@);
        }
        IndexSet::Hash(h)
    }

    fn contains(&self, idx: u32, Ghost(wanted): Ghost<Seq<u32>>, Ghost(pool_size): Ghost<u32>) -> (r: bool)
        requires
            self.holds(wanted, pool_size),
        ensures
            r == in_index_set(wanted, pool_size, idx),
    {
        match self {
            IndexSet::Small(a) => {
                let mut k: usize = 0;
                while k < a.len()
                    invariant
                        a@ == wanted,
                        !bitset_mode(wanted.len(), pool_size),
                        k <= a@.len(),
                        forall|j: int| 0 <= j < k ==> a@[j] != idx,
                    decreases a@.len() - k,
                {
                    if a[k] == idx {
                        proof {
                            assert(wanted[k as int] == idx);
                            assert(wanted.contains(idx));
                            assert(!bitset_mode(wanted.len(), pool_size));
                        }
                        return true;
                    }
                    k = k + 1;
                }
                false
            },
            IndexSet::Bitset(b) => {
                let w: usize = (idx / 64) as usize;
                if w < b.len() {
                    let r = (b[w] & (1u64 << ((idx % 64) as u64))) != 0;
                    proof {
                        assert(bit_at(b@, idx as int) == r);
                    }
                    r
                } else {
                    false
                }
            },
            IndexSet::Hash(h) => {
                proof {
                    assert(wanted.to_set().contains(idx) == wanted.contains(idx));
                }
                h.contains(&idx)
            },
        }
    }
}

proof fn lemma_set_bit(old: Seq<u64>, new: Seq<u64>, w: int, k: u64, x: int, j: int)
    requires
        0 <= w < old.len(),
        new == old.update(w, old[w] | (1u64 << k)),
        0 <= x,
        w == x / 64,
        k == x % 64,
        0 <= j < old.len() * 64,
    ensures
        bit_at(new, j) == (bit_at(old, j) || j == x),
{
    let jw = j / 64;
    let jk = (j % 64) as u64;
    assert(j == 64 * jw + jk);
    assert(x == 64 * w + k);
    if jw == w {
        lemma_bit_or(old[w], k, jk);
    } else {
        assert(new[jw] == old[jw]);
    }
}

proof fn lemma_bit_zero(k: u64)
    requires
        k < 64,
    ensures
        (0u64 & (1u64 << k)) == 0,
{
    assert((0u64 & (1u64 << k)) == 0) by (bit_vector);
}

proof fn lemma_bit_or(x: u64, k: u64, j: u64)
    requires
        k < 64,
        j < 64,
    ensures
        (((x | (1u64 << k)) & (1u64 << j)) != 0) == (((x & (1u64 << j)) != 0) || k == j),
{
    assert((((x | (1u64 << k)) & (1u64 << j)) != 0) == (((x & (1u64 << j)) != 0) || k == j))
        by (bit_vector)
        requires
            k < 64,
            j < 64,
    ;
}

/// The hits of a 16-bit-index scan from `p` on: each position with room for two code
/// units whose first byte the mask selects and whose index (the second unit) is wanted.
pub open spec fn spec_hits_u16(
    region: Seq<u8>,
    base: u32,
    mask: Seq<bool>,
    wanted: Seq<u32>,
    pool_size: u32,
    p: int,
) -> Seq<CodeScanHit>
    decreases region.len() - p,
{
    if p < 0 || p + 4 > region.len() {
        Seq::empty()
    } else {
        let idx = u16_at(region, p + 2) as u32;
        let rest = spec_hits_u16(region, base, mask, wanted, pool_size, p + 1);
        if mask[region[p] as int] && in_index_set(wanted, pool_size, idx) {
            seq![CodeScanHit { file_off: (base + p) as u32, pool_idx: idx }] + rest
        } else {
            rest
        }
    }
}

/// The hits of a 32-bit-index scan for `opcode` from `p` on (room for three code units).
pub open spec fn spec_hits_u32(
    region: Seq<u8>,
    base: u32,
    opcode: u8,
    wanted: Seq<u32>,
    pool_size: u32,
    p: int,
) -> Seq<CodeScanHit>
    decreases region.len() - p,
{
    if p < 0 || p + 6 > region.len() {
        Seq::empty()
    } else {
        let idx = u32_at(region, p + 2);
        let rest = spec_hits_u32(region, base, opcode, wanted, pool_size, p + 1);
        if region[p] == opcode && in_index_set(wanted, pool_size, idx) {
            seq![CodeScanHit { file_off: (base + p) as u32, pool_idx: idx }] + rest
        } else {
            rest
        }
    }
}

/// The mask that selects exactly the opcodes listed in `ops`.
pub open spec fn mask_of(ops: Seq<u8>) -> Seq<bool> {
    Seq::new(256, |i: int| ops.contains(i as u8))
}

/// The mask that selects exactly `opcode`.
pub open spec fn single_mask(opcode: u8) -> Seq<bool> {
    Seq::new(256, |i: int| i == opcode as int)
}

/// Opcodes whose second code unit is a type index.
pub open spec fn type_ops() -> Seq<u8> {
    seq![0x1cu8, 0x1f, 0x20, 0x22, 0x23, 0x24, 0x25]
}

/// Opcodes whose second code unit is a method index.
pub open spec fn method_ops() -> Seq<u8> {
    seq![0x6eu8, 0x6f, 0x70, 0x71, 0x72, 0x74, 0x75, 0x76, 0x77, 0x78, 0xfa, 0xfb]
}

/// The field-access opcodes `0x52..=0x6d`.
pub open spec fn field_mask() -> Seq<bool> {
    Seq::new(256, |i: int| 0x52 <= i <= 0x6d)
}

/// What `scan_kind` appends for `kind`.
pub open spec fn spec_scan_kind(
    kind: RefKind,
    region: Seq<u8>,
    base: u32,
    wanted: Seq<u32>,
    pool_size: u32,
) -> Seq<CodeScanHit> {
    match kind {
        RefKind::String => spec_hits_u16(region, base, single_mask(0x1a), wanted, pool_size, 0)
            + spec_hits_u32(region, base, 0x1b, wanted, pool_size, 0),
        RefKind::Type => spec_hits_u16(region, base, mask_of(type_ops()), wanted, pool_size, 0),
        RefKind::Field => spec_hits_u16(region, base, field_mask(), wanted, pool_size, 0),
        RefKind::Method => spec_hits_u16(region, base, mask_of(method_ops()), wanted, pool_size, 0),
    }
}

/// A 256-entry table that is `true` exactly at the opcodes in `ops`.
fn opcode_mask(ops: &[u8]) -> (m: [bool; 256])
    ensures
        m@ == mask_of(ops@),
{
    let mut m = [false; 256];
    let mut i: usize = 0;
    while i < ops.len()
        invariant
            i <= ops@.len(),
            m@.len() == 256,
            forall|k: int| 0 <= k < 256 ==> m@[k] == ops@.subrange(0, i as int).contains(k as u8),
        decreases ops@.len() - i,
    {
        let op = ops[i];
        m[op as usize] = true;
        proof {
            assert(ops@.subrange(0, i + 1) =~= ops@.subrange(0, i as int).push(op));
            assert forall|k: int| 0 <= k < 256 implies m@[k] == ops@.subrange(0, i + 1).contains(
                k as u8,
            ) by {
                if k == op as int {
                    assert(ops@.subrange(0, i + 1)[i as int] == op);
                } else {
                    assert((k as u8) != op);
                }
            }
        }
        i = i + 1;
    }
    proof {
        assert(ops@.subrange(0, ops@.len() as int) =~= ops@);
        assert(m@ =~= mask_of(ops@));
    }
    m
}

proof fn lemma_hits_u16_unfold(
    region: Seq<u8>,
    base: u32,
    mask: Seq<bool>,
    wanted: Seq<u32>,
    pool_size: u32,
    p: int,
)
    requires
        0 <= p,
        p + 4 <= region.len(),
    ensures
        spec_hits_u16(region, base, mask, wanted, pool_size, p) == if mask[region[p] as int]
            && in_index_set(wanted, pool_size, u16_at(region, p + 2) as u32) {
            seq![CodeScanHit { file_off: (base + p) as u32, pool_idx: u16_at(region, p + 2) as u32 }]
                + spec_hits_u16(region, base, mask, wanted, pool_size, p + 1)
        } else {
            spec_hits_u16(region, base, mask, wanted, pool_size, p + 1)
        },
{
}

/// Append to `out` every hit of a 16-bit-index opcode selected by `opcode_mask`.
pub fn scan_u16(
    region: &[u8],
    region_base: u32,
    opcode_mask: &[bool; 256],
    wanted: &[u32],
    pool_size: u32,
    out: &mut Vec<CodeScanHit>,
)
    requires
        region_base + region@.len() <= 0x1_0000_0000,
    ensures
        final(out)@ == old(out)@ + spec_hits_u16(
            region@,
            region_base,
            opcode_mask@,
            wanted@,
            pool_size,
            0,
        ),
{
    let set = IndexSet::new(wanted, pool_size);
    let n = region.len();
    let mut p: usize = 0;
    while p < n && n - p >= 4
        invariant
            n == region@.len(),
            region_base + n <= 0x1_0000_0000,
            set.holds(wanted@, pool_size),
            p <= n,
            old(out)@ + spec_hits_u16(region@, region_base, opcode_mask@, wanted@, pool_size, 0)
                == out@ + spec_hits_u16(
                region@,
                region_base,
                opcode_mask@,
                wanted@,
                pool_size,
                p as int,
            ),
        decreases n - p,
    {
        proof {
            lemma_hits_u16_unfold(region@, region_base, opcode_mask@, wanted@, pool_size, p as int);
        }
        if opcode_mask[region[p] as usize] {
            let idx = (region[p + 2] as u32) + (region[p + 3] as u32) * 256;
            proof {
                assert(idx == u16_at(region@, p + 2) as u32);
            }
            if set.contains(idx, Ghost(wanted@), Ghost(pool_size)) {
                let hit = CodeScanHit { file_off: region_base + p as u32, pool_idx: idx };
                let ghost before = out@;
                out.push(hit);
                proof {
                    assert(out@ =~= before + seq![hit]);
                    assert(seq![hit] + spec_hits_u16(
                        region@,
                        region_base,
                        opcode_mask@,
                        wanted@,
                        pool_size,
                        p + 1,
                    ) == spec_hits_u16(region@, region_base, opcode_mask@, wanted@, pool_size, p as int));
                    let rest = spec_hits_u16(
                        region@,
                        region_base,
                        opcode_mask@,
                        wanted@,
                        pool_size,
                        p + 1,
                    );
                    assert((before + seq![hit]) + rest =~= before + (seq![hit] + rest));
                }
            }
        }
        p = p + 1;
    }
    proof {
        assert(spec_hits_u16(region@, region_base, opcode_mask@, wanted@, pool_size, p as int)
            =~= Seq::<CodeScanHit>::empty());
        assert(out@ + Seq::<CodeScanHit>::empty() =~= out@);
    }
}

proof fn lemma_hits_u32_unfold(
    region: Seq<u8>,
    base: u32,
    opcode: u8,
    wanted: Seq<u32>,
    pool_size: u32,
    p: int,
)
    requires
        0 <= p,
        p + 6 <= region.len(),
    ensures
        spec_hits_u32(region, base, opcode, wanted, pool_size, p) == if region[p] == opcode
            && in_index_set(wanted, pool_size, u32_at(region, p + 2)) {
            seq![CodeScanHit { file_off: (base + p) as u32, pool_idx: u32_at(region, p + 2) }]
                + spec_hits_u32(region, base, opcode, wanted, pool_size, p + 1)
        } else {
            spec_hits_u32(region, base, opcode, wanted, pool_size, p + 1)
        },
{
}

/// Append to `out` every hit of `opcode` followed by a wanted 32-bit index.
pub fn scan_u32(
    region: &[u8],
    region_base: u32,
    opcode: u8,
    wanted: &[u32],
    pool_size: u32,
    out: &mut Vec<CodeScanHit>,
)
    requires
        region_base + region@.len() <= 0x1_0000_0000,
    ensures
        final(out)@ == old(out)@ + spec_hits_u32(region@, region_base, opcode, wanted@, pool_size, 0),
{
    let set = IndexSet::new(wanted, pool_size);
    let n = region.len();
    let mut p: usize = 0;
    while p < n && n - p >= 6
        invariant
            n == region@.len(),
            region_base + n <= 0x1_0000_0000,
            set.holds(wanted@, pool_size),
            p <= n,
            old(out)@ + spec_hits_u32(region@, region_base, opcode, wanted@, pool_size, 0) == out@
                + spec_hits_u32(region@, region_base, opcode, wanted@, pool_size, p as int),
        decreases n - p,
    {
        proof {
            lemma_hits_u32_unfold(region@, region_base, opcode, wanted@, pool_size, p as int);
        }
        if region[p] == opcode {
            let idx = (region[p + 2] as u32) + (region[p + 3] as u32) * 256 + (region[p + 4] as u32)
                * 65536 + (region[p + 5] as u32) * 16777216;
            proof {
                assert(idx == u32_at(region@, p + 2));
            }
            if set.contains(idx, Ghost(wanted@), Ghost(pool_size)) {
                let hit = CodeScanHit { file_off: region_base + p as u32, pool_idx: idx };
                let ghost before = out@;
                out.push(hit);
                proof {
                    assert(out@ =~= before + seq![hit]);
                    let rest = spec_hits_u32(
                        region@,
                        region_base,
                        opcode,
                        wanted@,
                        pool_size,
                        p + 1,
                    );
                    assert((before + seq![hit]) + rest =~= before + (seq![hit] + rest));
                }
            }
        }
        p = p + 1;
    }
    proof {
        assert(spec_hits_u32(region@, region_base, opcode, wanted@, pool_size, p as int)
            =~= Seq::<CodeScanHit>::empty());
        assert(out@ + Seq::<CodeScanHit>::empty() =~= out@);
    }
}

proof fn lemma_hits_skip(
    region: Seq<u8>,
    base: u32,
    opcode: u8,
    wanted: Seq<u32>,
    pool_size: u32,
    p: int,
    q: int,
)
    requires
        0 <= p <= q,
        forall|k: int| p <= k < q && k < region.len() ==> region[k] != opcode,
    ensures
        q + 4 <= region.len() ==> spec_hits_u16(region, base, single_mask(opcode), wanted, pool_size, p)
            == spec_hits_u16(region, base, single_mask(opcode), wanted, pool_size, q),
        q + 4 > region.len() ==> spec_hits_u16(region, base, single_mask(opcode), wanted, pool_size, p)
            == Seq::<CodeScanHit>::empty(),
    decreases q - p,
{
    if p < q && p + 4 <= region.len() {
        lemma_hits_skip(region, base, opcode, wanted, pool_size, p + 1, q);
        assert(single_mask(opcode)[region[p] as int] == false);
    }
}

/// Single-opcode fast path (const-string 0x1a): the same hits as [`scan_u16`] with a mask
/// that selects only `opcode`, found by jumping from one occurrence of the byte to the next.
pub fn scan_single_u16(
    region: &[u8],
    region_base: u32,
    opcode: u8,
    wanted: &[u32],
    pool_size: u32,
    out: &mut Vec<CodeScanHit>,
)
    requires
        region_base + region@.len() <= 0x1_0000_0000,
    ensures
        final(out)@ == old(out)@ + spec_hits_u16(
            region@,
            region_base,
            single_mask(opcode),
            wanted@,
            pool_size,
            0,
        ),
{
    let set = IndexSet::new(wanted, pool_size);
    let n = region.len();
    let ghost mask = single_mask(opcode);
    let mut from: usize = 0;
    while from < n
        invariant
            n == region@.len(),
            region_base + n <= 0x1_0000_0000,
            set.holds(wanted@, pool_size),
            from <= n,
            mask == single_mask(opcode),
            old(out)@ + spec_hits_u16(region@, region_base, mask, wanted@, pool_size, 0) == out@
                + spec_hits_u16(region@, region_base, mask, wanted@, pool_size, from as int),
        decreases n - from,
    {
        let rest = vstd::slice::slice_subrange(region, from, n);
        match find_byte(opcode, rest) {
            None => {
                proof {
                    assert forall|k: int| from <= k < n implies region@[k] != opcode by {
                        assert(rest@[k - from] == region@[k]);
                    }
                    lemma_hits_skip(region@, region_base, opcode, wanted@, pool_size, from as int, n as int);
                }
                from = n;
            },
            Some(i) => {
                let q = from + i;
                proof {
                    assert(rest@[i as int] == region@[q as int]);
                    assert forall|k: int| from <= k < q implies region@[k] != opcode by {
                        assert(rest@[k - from] == region@[k]);
                    }
                    lemma_hits_skip(region@, region_base, opcode, wanted@, pool_size, from as int, q as int);
                }
                if n - q >= 4 {
                    proof {
                        lemma_hits_u16_unfold(region@, region_base, mask, wanted@, pool_size, q as int);
                        assert(mask[region@[q as int] as int]);
                    }
                    let idx = (region[q + 2] as u32) + (region[q + 3] as u32) * 256;
                    proof {
                        assert(idx == u16_at(region@, q + 2) as u32);
                    }
                    if set.contains(idx, Ghost(wanted@), Ghost(pool_size)) {
                        let hit = CodeScanHit { file_off: region_base + q as u32, pool_idx: idx };
                        let ghost before = out@;
                        out.push(hit);
                        proof {
                            assert(out@ =~= before + seq![hit]);
                            let tail = spec_hits_u16(region@, region_base, mask, wanted@, pool_size, q + 1);
                            assert((before + seq![hit]) + tail =~= before + (seq![hit] + tail));
                        }
                    }
                } else {
                    proof {
                        lemma_hits_skip(region@, region_base, opcode, wanted@, pool_size, q + 1, q + 1);
                    }
                }
                from = q + 1;
            },
        }
    }
    proof {
        assert(spec_hits_u16(region@, region_base, mask, wanted@, pool_size, from as int)
            =~= Seq::<CodeScanHit>::empty());
        assert(out@ + Seq::<CodeScanHit>::empty() =~= out@);
    }
}

/// Append the hits of every opcode that refers into the pool of `kind`.
pub fn scan_kind(
    kind: RefKind,
    region: &[u8],
    region_base: u32,
    wanted: &[u32],
    pool_size: u32,
    out: &mut Vec<CodeScanHit>,
)
    requires
        region_base + region@.len() <= 0x1_0000_0000,
    ensures
        final(out)@ == old(out)@ + spec_scan_kind(kind, region@, region_base, wanted@, pool_size),
{
    match kind {
        RefKind::String => {
            let ghost start = out@;
            scan_single_u16(region, region_base, 0x1a, wanted, pool_size, out);
            scan_u32(region, region_base, 0x1b, wanted, pool_size, out);
            proof {
                let a = spec_hits_u16(region@, region_base, single_mask(0x1a), wanted@, pool_size, 0);
                let b = spec_hits_u32(region@, region_base, 0x1b, wanted@, pool_size, 0);
                assert((start + a) + b =~= start + (a + b));
            }
        },
        RefKind::Type => {
            let ops: [u8; 7] = [0x1c, 0x1f, 0x20, 0x22, 0x23, 0x24, 0x25];
            proof {
                assert(ops@ =~= type_ops());
            }
            let m = opcode_mask(&ops);
            scan_u16(region, region_base, &m, wanted, pool_size, out);
        },
        RefKind::Field => {
            let mut m = [false; 256];
            let mut op: usize = 0x52;
            while op <= 0x6d
                invariant
                    0x52 <= op <= 0x6e,
                    m@.len() == 256,
                    forall|k: int| 0 <= k < 256 ==> m@[k] == (0x52 <= k < op),
                decreases 0x6e - op,
            {
                m[op] = true;
                op = op + 1;
            }
            proof {
                assert(m@ =~= field_mask());
            }
            scan_u16(region, region_base, &m, wanted, pool_size, out);
        },
        RefKind::Method => {
            let ops: [u8; 12] = [0x6e, 0x6f, 0x70, 0x71, 0x72, 0x74, 0x75, 0x76, 0x77, 0x78, 0xfa, 0xfb];
            proof {
                assert(ops@ =~= method_ops());
            }
            let m = opcode_mask(&ops);
            scan_u16(region, region_base, &m, wanted, pool_size, out);
        },
    }
}

/// Prefer map_list TYPE_CODE_ITEM (0x2001) for the contiguous code region: from its offset
/// to the end of the file (the length taken modulo 2^32).
pub fn code_item_region(dex: &RawDex) -> (r: Option<(u32, u32)>)
    ensures
        r == match spec_map_entry(dex.data@, dex.map_off, 0x2001) {
            Some((_, off)) => Some((off, (dex.data@.len() % 0x1_0000_0000) as u32)),
            None => None::<(u32, u32)>,
        },
{
    match dex.map_entry(0x2001) {
        Some((_size, off)) => Some((off, (dex.data.len() as u64 % 0x1_0000_0000) as u32)),
        None => None,
    }
}


/// The hit a 16-bit-index scan reports at position `p` of `region`.
pub open spec fn hit_at(region: Seq<u8>, base: u32, p: int) -> CodeScanHit {
    CodeScanHit { file_off: (base + p) as u32, pool_idx: u16_at(region, p + 2) as u32 }
}

proof fn lemma_hits_u16_has(
    region: Seq<u8>,
    base: u32,
    mask: Seq<bool>,
    wanted: Seq<u32>,
    pool_size: u32,
    p0: int,
    p: int,
)
    requires
        0 <= p0 <= p,
        p + 4 <= region.len(),
        mask[region[p] as int],
        in_index_set(wanted, pool_size, u16_at(region, p + 2) as u32),
    ensures
        spec_hits_u16(region, base, mask, wanted, pool_size, p0).contains(hit_at(region, base, p)),
    decreases p - p0,
{
    let hs = spec_hits_u16(region, base, mask, wanted, pool_size, p0);
    if p0 == p {
        assert(hs[0] == hit_at(region, base, p));
    } else {
        lemma_hits_u16_has(region, base, mask, wanted, pool_size, p0 + 1, p);
        let rest = spec_hits_u16(region, base, mask, wanted, pool_size, p0 + 1);
        let k = choose|k: int| 0 <= k < rest.len() && rest[k] == hit_at(region, base, p);
        if hs.len() == rest.len() + 1 {
            assert(hs[k + 1] == rest[k]);
        } else {
            assert(hs[k] == rest[k]);
        }
    }
}

proof fn lemma_hits_u16_from(
    region: Seq<u8>,
    base: u32,
    mask: Seq<bool>,
    wanted: Seq<u32>,
    pool_size: u32,
    p0: int,
    k: int,
)
    requires
        0 <= p0,
        0 <= k < spec_hits_u16(region, base, mask, wanted, pool_size, p0).len(),
    ensures
        exists|p: int|
            p0 <= p && p + 4 <= region.len() && mask[region[p] as int] && in_index_set(
                wanted,
                pool_size,
                u16_at(region, p + 2) as u32,
            ) && spec_hits_u16(region, base, mask, wanted, pool_size, p0)[k] == #[trigger] hit_at(region, base, p),
    decreases region.len() - p0,
{
    let hs = spec_hits_u16(region, base, mask, wanted, pool_size, p0);
    let rest = spec_hits_u16(region, base, mask, wanted, pool_size, p0 + 1);
    let here = mask[region[p0] as int] && in_index_set(wanted, pool_size, u16_at(region, p0 + 2) as u32);
    if here && k == 0 {
        assert(hs[0] == hit_at(region, base, p0));
    } else if here {
        lemma_hits_u16_from(region, base, mask, wanted, pool_size, p0 + 1, k - 1);
        assert(hs[k] == rest[k - 1]);
    } else {
        lemma_hits_u16_from(region, base, mask, wanted, pool_size, p0 + 1, k);
    }
}

/// The hits of a 16-bit-index scan with `mask` are exactly the positions whose opcode the
/// mask selects and whose index is wanted.
proof fn lemma_hits_u16_exact(region: Seq<u8>, base: u32, mask: Seq<bool>, wanted: Seq<u32>, pool_size: u32)
    ensures
        forall|p: int|
            #![trigger region[p]]
            0 <= p && p + 4 <= region.len() && mask[region[p] as int] && in_index_set(
                wanted,
                pool_size,
                u16_at(region, p + 2) as u32,
            ) ==> spec_hits_u16(region, base, mask, wanted, pool_size, 0).contains(hit_at(region, base, p)),
        forall|h: CodeScanHit|
            #[trigger] spec_hits_u16(region, base, mask, wanted, pool_size, 0).contains(h) ==> exists|p: int|
                0 <= p && p + 4 <= region.len() && mask[region[p] as int] && in_index_set(
                    wanted,
                    pool_size,
                    u16_at(region, p + 2) as u32,
                ) && h == #[trigger] hit_at(region, base, p),
{
    assert forall|p: int|
        #![trigger region[p]]
        0 <= p && p + 4 <= region.len() && mask[region[p] as int] && in_index_set(
            wanted,
            pool_size,
            u16_at(region, p + 2) as u32,
        ) implies spec_hits_u16(region, base, mask, wanted, pool_size, 0).contains(hit_at(region, base, p)) by {
        lemma_hits_u16_has(region, base, mask, wanted, pool_size, 0, p);
    }
    assert forall|h: CodeScanHit| #[trigger] spec_hits_u16(region, base, mask, wanted, pool_size, 0).contains(h) implies exists|p: int|
        0 <= p && p + 4 <= region.len() && mask[region[p] as int] && in_index_set(
            wanted,
            pool_size,
            u16_at(region, p + 2) as u32,
        ) && h == #[trigger] hit_at(region, base, p) by {
        let hs = spec_hits_u16(region, base, mask, wanted, pool_size, 0);
        let k = choose|k: int| 0 <= k < hs.len() && hs[k] == h;
        lemma_hits_u16_from(region, base, mask, wanted, pool_size, 0, k);
    }
}

/// Whether `op` is an invoke instruction (its second code unit a method index): invoke-
/// virtual, -super, -direct, -static, -interface (0x6e-0x72), their range forms
/// (0x74-0x78), and invoke-polymorphic with its range form (0xfa, 0xfb).
pub open spec fn is_invoke_opcode(op: u8) -> bool {
    (0x6e <= op <= 0x72) || (0x74 <= op <= 0x78) || op == 0xfa || op == 0xfb
}

/// The method-reference scan reports exactly the invoke instructions whose method index
/// is wanted: each position whose opcode is an invoke kind (see [`is_invoke_opcode`])
/// and whose 16-bit index is wanted is a hit, and each hit is such a position.
pub proof fn method_scan_finds_exactly_the_invokes(region: Seq<u8>, base: u32, wanted: Seq<u32>, pool_size: u32)
    ensures
        forall|p: int|
            #![trigger region[p]]
            0 <= p && p + 4 <= region.len() && is_invoke_opcode(region[p]) && in_index_set(
                wanted,
                pool_size,
                u16_at(region, p + 2) as u32,
            ) ==> spec_scan_kind(RefKind::Method, region, base, wanted, pool_size).contains(hit_at(region, base, p)),
        forall|h: CodeScanHit|
            #[trigger] spec_scan_kind(RefKind::Method, region, base, wanted, pool_size).contains(h) ==> exists|p: int|
                0 <= p && p + 4 <= region.len() && is_invoke_opcode(region[p]) && in_index_set(
                    wanted,
                    pool_size,
                    u16_at(region, p + 2) as u32,
                ) && h == #[trigger] hit_at(region, base, p),
{
    let ops = method_ops();
    assert forall|op: u8| #[trigger] mask_of(ops)[op as int] == is_invoke_opcode(op) by {
        assert(ops[0] == 0x6e && ops[1] == 0x6f && ops[2] == 0x70 && ops[3] == 0x71 && ops[4] == 0x72);
        assert(ops[5] == 0x74 && ops[6] == 0x75 && ops[7] == 0x76 && ops[8] == 0x77 && ops[9] == 0x78);
        assert(ops[10] == 0xfa && ops[11] == 0xfb);
        if is_invoke_opcode(op) {
            if op == 0x6e { assert(ops[0] == op); }
            else if op == 0x6f { assert(ops[1] == op); }
            else if op == 0x70 { assert(ops[2] == op); }
            else if op == 0x71 { assert(ops[3] == op); }
            else if op == 0x72 { assert(ops[4] == op); }
            else if op == 0x74 { assert(ops[5] == op); }
            else if op == 0x75 { assert(ops[6] == op); }
            else if op == 0x76 { assert(ops[7] == op); }
            else if op == 0x77 { assert(ops[8] == op); }
            else if op == 0x78 { assert(ops[9] == op); }
            else if op == 0xfa { assert(ops[10] == op); }
            else { assert(ops[11] == op); }
        }
    }
    lemma_hits_u16_exact(region, base, mask_of(ops), wanted, pool_size);
}

/// Whether `op` takes a type index: const-class, check-cast, instance-of, new-instance,
/// new-array, filled-new-array and its range form.
pub open spec fn is_type_opcode(op: u8) -> bool {
    op == 0x1c || op == 0x1f || op == 0x20 || op == 0x22 || op == 0x23 || op == 0x24 || op == 0x25
}

/// The type-reference scan reports exactly the instructions that take a type index
/// (see [`is_type_opcode`]) whose index is wanted.
pub proof fn type_scan_finds_exactly_the_type_uses(region: Seq<u8>, base: u32, wanted: Seq<u32>, pool_size: u32)
    ensures
        forall|p: int|
            #![trigger region[p]]
            0 <= p && p + 4 <= region.len() && is_type_opcode(region[p]) && in_index_set(
                wanted,
                pool_size,
                u16_at(region, p + 2) as u32,
            ) ==> spec_scan_kind(RefKind::Type, region, base, wanted, pool_size).contains(hit_at(region, base, p)),
        forall|h: CodeScanHit|
            #[trigger] spec_scan_kind(RefKind::Type, region, base, wanted, pool_size).contains(h) ==> exists|p: int|
                0 <= p && p + 4 <= region.len() && is_type_opcode(region[p]) && in_index_set(
                    wanted,
                    pool_size,
                    u16_at(region, p + 2) as u32,
                ) && h == #[trigger] hit_at(region, base, p),
{
    let ops = type_ops();
    assert forall|op: u8| #[trigger] mask_of(ops)[op as int] == is_type_opcode(op) by {
        assert(ops[0] == 0x1c && ops[1] == 0x1f && ops[2] == 0x20 && ops[3] == 0x22);
        assert(ops[4] == 0x23 && ops[5] == 0x24 && ops[6] == 0x25);
        if is_type_opcode(op) {
            if op == 0x1c { assert(ops[0] == op); }
            else if op == 0x1f { assert(ops[1] == op); }
            else if op == 0x20 { assert(ops[2] == op); }
            else if op == 0x22 { assert(ops[3] == op); }
            else if op == 0x23 { assert(ops[4] == op); }
            else if op == 0x24 { assert(ops[5] == op); }
            else { assert(ops[6] == op); }
        }
    }
    lemma_hits_u16_exact(region, base, mask_of(ops), wanted, pool_size);
}

/// The field-reference scan reports exactly the field accesses (iget, iput, sget, sput
/// and their typed forms, 0x52-0x6d) whose field index is wanted.
pub proof fn field_scan_finds_exactly_the_field_accesses(region: Seq<u8>, base: u32, wanted: Seq<u32>, pool_size: u32)
    ensures
        forall|p: int|
            #![trigger region[p]]
            0 <= p && p + 4 <= region.len() && 0x52 <= region[p] <= 0x6d && in_index_set(
                wanted,
                pool_size,
                u16_at(region, p + 2) as u32,
            ) ==> spec_scan_kind(RefKind::Field, region, base, wanted, pool_size).contains(hit_at(region, base, p)),
        forall|h: CodeScanHit|
            #[trigger] spec_scan_kind(RefKind::Field, region, base, wanted, pool_size).contains(h) ==> exists|p: int|
                0 <= p && p + 4 <= region.len() && 0x52 <= region[p] <= 0x6d && in_index_set(
                    wanted,
                    pool_size,
                    u16_at(region, p + 2) as u32,
                ) && h == #[trigger] hit_at(region, base, p),
{
    lemma_hits_u16_exact(region, base, field_mask(), wanted, pool_size);
}


/// The hit a 32-bit-index scan reports at position `p` of `region`.
pub open spec fn hit32_at(region: Seq<u8>, base: u32, p: int) -> CodeScanHit {
    CodeScanHit { file_off: (base + p) as u32, pool_idx: u32_at(region, p + 2) }
}

proof fn lemma_hits_u32_has(
    region: Seq<u8>,
    base: u32,
    opcode: u8,
    wanted: Seq<u32>,
    pool_size: u32,
    p0: int,
    p: int,
)
    requires
        0 <= p0 <= p,
        p + 6 <= region.len(),
        region[p] == opcode,
        in_index_set(wanted, pool_size, u32_at(region, p + 2)),
    ensures
        spec_hits_u32(region, base, opcode, wanted, pool_size, p0).contains(hit32_at(region, base, p)),
    decreases p - p0,
{
    let hs = spec_hits_u32(region, base, opcode, wanted, pool_size, p0);
    if p0 == p {
        assert(hs[0] == hit32_at(region, base, p));
    } else {
        lemma_hits_u32_has(region, base, opcode, wanted, pool_size, p0 + 1, p);
        let rest = spec_hits_u32(region, base, opcode, wanted, pool_size, p0 + 1);
        let k = choose|k: int| 0 <= k < rest.len() && rest[k] == hit32_at(region, base, p);
        if hs.len() == rest.len() + 1 {
            assert(hs[k + 1] == rest[k]);
        } else {
            assert(hs[k] == rest[k]);
        }
    }
}

proof fn lemma_hits_u32_from(
    region: Seq<u8>,
    base: u32,
    opcode: u8,
    wanted: Seq<u32>,
    pool_size: u32,
    p0: int,
    k: int,
)
    requires
        0 <= p0,
        0 <= k < spec_hits_u32(region, base, opcode, wanted, pool_size, p0).len(),
    ensures
        exists|p: int|
            p0 <= p && p + 6 <= region.len() && region[p] == opcode && in_index_set(
                wanted,
                pool_size,
                u32_at(region, p + 2),
            ) && spec_hits_u32(region, base, opcode, wanted, pool_size, p0)[k] == #[trigger] hit32_at(region, base, p),
    decreases region.len() - p0,
{
    let hs = spec_hits_u32(region, base, opcode, wanted, pool_size, p0);
    let rest = spec_hits_u32(region, base, opcode, wanted, pool_size, p0 + 1);
    let here = region[p0] == opcode && in_index_set(wanted, pool_size, u32_at(region, p0 + 2));
    if here && k == 0 {
        assert(hs[0] == hit32_at(region, base, p0));
    } else if here {
        lemma_hits_u32_from(region, base, opcode, wanted, pool_size, p0 + 1, k - 1);
        assert(hs[k] == rest[k - 1]);
    } else {
        lemma_hits_u32_from(region, base, opcode, wanted, pool_size, p0 + 1, k);
    }
}

/// The string-reference scan reports exactly the `const-string` instructions (0x1a, a
/// 16-bit index) and `const-string/jumbo` instructions (0x1b, a 32-bit index) whose
/// string index is wanted.
pub proof fn string_scan_finds_exactly_the_const_strings(region: Seq<u8>, base: u32, wanted: Seq<u32>, pool_size: u32)
    ensures
        forall|p: int|
            #![trigger region[p]]
            0 <= p && p + 4 <= region.len() && region[p] == 0x1a && in_index_set(
                wanted,
                pool_size,
                u16_at(region, p + 2) as u32,
            ) ==> spec_scan_kind(RefKind::String, region, base, wanted, pool_size).contains(hit_at(region, base, p)),
        forall|p: int|
            #![trigger region[p]]
            0 <= p && p + 6 <= region.len() && region[p] == 0x1b && in_index_set(
                wanted,
                pool_size,
                u32_at(region, p + 2),
            ) ==> spec_scan_kind(RefKind::String, region, base, wanted, pool_size).contains(hit32_at(region, base, p)),
        forall|h: CodeScanHit|
            #[trigger] spec_scan_kind(RefKind::String, region, base, wanted, pool_size).contains(h) ==> (exists|p: int|
                0 <= p && p + 4 <= region.len() && region[p] == 0x1a && in_index_set(
                    wanted,
                    pool_size,
                    u16_at(region, p + 2) as u32,
                ) && h == #[trigger] hit_at(region, base, p)) || (exists|p: int|
                0 <= p && p + 6 <= region.len() && region[p] == 0x1b && in_index_set(
                    wanted,
                    pool_size,
                    u32_at(region, p + 2),
                ) && h == #[trigger] hit32_at(region, base, p)),
{
    let m = single_mask(0x1a);
    let a = spec_hits_u16(region, base, m, wanted, pool_size, 0);
    let b = spec_hits_u32(region, base, 0x1b, wanted, pool_size, 0);
    assert(spec_scan_kind(RefKind::String, region, base, wanted, pool_size) == a + b);
    assert forall|op: u8| #[trigger] m[op as int] == (op == 0x1a) by {}
    lemma_hits_u16_exact(region, base, m, wanted, pool_size);
    assert forall|p: int|
        #![trigger region[p]]
        0 <= p && p + 4 <= region.len() && region[p] == 0x1a && in_index_set(
            wanted,
            pool_size,
            u16_at(region, p + 2) as u32,
        ) implies (a + b).contains(hit_at(region, base, p)) by {
        assert(m[region[p] as int]);
        assert(a.contains(hit_at(region, base, p)));
        let k = choose|k: int| 0 <= k < a.len() && a[k] == hit_at(region, base, p);
        assert((a + b)[k] == a[k]);
    }
    assert forall|p: int|
        #![trigger region[p]]
        0 <= p && p + 6 <= region.len() && region[p] == 0x1b && in_index_set(
            wanted,
            pool_size,
            u32_at(region, p + 2),
        ) implies (a + b).contains(hit32_at(region, base, p)) by {
        lemma_hits_u32_has(region, base, 0x1b, wanted, pool_size, 0, p);
        let k = choose|k: int| 0 <= k < b.len() && b[k] == hit32_at(region, base, p);
        assert((a + b)[a.len() + k] == b[k]);
    }
    assert forall|h: CodeScanHit| #[trigger] (a + b).contains(h) implies (exists|p: int|
        0 <= p && p + 4 <= region.len() && region[p] == 0x1a && in_index_set(
            wanted,
            pool_size,
            u16_at(region, p + 2) as u32,
        ) && h == #[trigger] hit_at(region, base, p)) || (exists|p: int|
        0 <= p && p + 6 <= region.len() && region[p] == 0x1b && in_index_set(
            wanted,
            pool_size,
            u32_at(region, p + 2),
        ) && h == #[trigger] hit32_at(region, base, p)) by {
        let k = choose|k: int| 0 <= k < (a + b).len() && (a + b)[k] == h;
        if k < a.len() {
            assert(a[k] == h);
            assert(a.contains(h));
            let p = choose|p: int|
                0 <= p && p + 4 <= region.len() && m[region[p] as int] && in_index_set(
                    wanted,
                    pool_size,
                    u16_at(region, p + 2) as u32,
                ) && h == #[trigger] hit_at(region, base, p);
            assert(region[p] == 0x1a);
        } else {
            assert(b[k - a.len()] == h);
            lemma_hits_u32_from(region, base, 0x1b, wanted, pool_size, 0, k - a.len());
        }
    }
}

} // verus!
