//! Sorted, duplicate-free pools of strings and string triples, ordered the way a
//! `BTreeSet` orders them (by code point, a shorter prefix first).

use vstd::prelude::*;

use crate::text::chars_of;

verus! {

/// How one pool key stands to another.
#[derive(Debug, Clone, Copy, PartialEq, Eq, Structural)]
pub enum Rel {
    Before,
    Same,
    After,
}

/// Code-point order on texts, a proper prefix first (the order of `String`).
pub open spec fn text_lt(a: Seq<char>, b: Seq<char>) -> bool
    decreases a.len(),
{
    if a.len() == 0 {
        b.len() > 0
    } else if b.len() == 0 {
        false
    } else if a[0] != b[0] {
        a[0] < b[0]
    } else {
        text_lt(a.drop_first(), b.drop_first())
    }
}

/// Lexicographic order on sequences of texts (the order of tuples of `String`s).
pub open spec fn keys_lt(a: Seq<Seq<char>>, b: Seq<Seq<char>>) -> bool
    decreases a.len(),
{
    if a.len() == 0 {
        b.len() > 0
    } else if b.len() == 0 {
        false
    } else if a[0] != b[0] {
        text_lt(a[0], b[0])
    } else {
        keys_lt(a.drop_first(), b.drop_first())
    }
}

/// The relation of `a` to `b`.
pub open spec fn rel_of(a: Seq<Seq<char>>, b: Seq<Seq<char>>) -> Rel {
    if a == b {
        Rel::Same
    } else if keys_lt(a, b) {
        Rel::Before
    } else {
        Rel::After
    }
}

pub proof fn lemma_text_lt_irreflexive(a: Seq<char>)
    ensures
        !text_lt(a, a),
    decreases a.len(),
{
    if a.len() > 0 {
        lemma_text_lt_irreflexive(a.drop_first());
    }
}

pub proof fn lemma_text_lt_transitive(a: Seq<char>, b: Seq<char>, c: Seq<char>)
    requires
        text_lt(a, b),
        text_lt(b, c),
    ensures
        text_lt(a, c),
    decreases a.len(),
{
    if a.len() > 0 && a[0] == b[0] && b[0] == c[0] {
        lemma_text_lt_transitive(a.drop_first(), b.drop_first(), c.drop_first());
    }
}

pub proof fn lemma_text_lt_total(a: Seq<char>, b: Seq<char>)
    requires
        a != b,
    ensures
        text_lt(a, b) || text_lt(b, a),
    decreases a.len(),
{
    if a.len() == 0 {
        if b.len() == 0 {
            assert(a =~= b);
        }
    } else if b.len() > 0 && a[0] == b[0] {
        if a.drop_first() == b.drop_first() {
            assert(a =~= seq![a[0]] + a.drop_first());
            assert(b =~= seq![b[0]] + b.drop_first());
        }
        lemma_text_lt_total(a.drop_first(), b.drop_first());
    }
}

pub proof fn lemma_keys_lt_irreflexive(a: Seq<Seq<char>>)
    ensures
        !keys_lt(a, a),
    decreases a.len(),
{
    if a.len() > 0 {
        lemma_keys_lt_irreflexive(a.drop_first());
    }
}

pub proof fn lemma_keys_lt_transitive(a: Seq<Seq<char>>, b: Seq<Seq<char>>, c: Seq<Seq<char>>)
    requires
        keys_lt(a, b),
        keys_lt(b, c),
    ensures
        keys_lt(a, c),
    decreases a.len(),
{
    if a.len() > 0 && b.len() > 0 && c.len() > 0 {
        if a[0] == b[0] && b[0] == c[0] {
            lemma_keys_lt_transitive(a.drop_first(), b.drop_first(), c.drop_first());
        } else if a[0] != b[0] && b[0] != c[0] {
            lemma_text_lt_transitive(a[0], b[0], c[0]);
            if a[0] == c[0] {
                lemma_text_lt_irreflexive(a[0]);
            }
        }
    }
}

pub proof fn lemma_keys_lt_total(a: Seq<Seq<char>>, b: Seq<Seq<char>>)
    requires
        a != b,
    ensures
        keys_lt(a, b) || keys_lt(b, a),
    decreases a.len(),
{
    if a.len() == 0 {
        if b.len() == 0 {
            assert(a =~= b);
        }
    } else if b.len() > 0 {
        if a[0] == b[0] {
            if a.drop_first() == b.drop_first() {
                assert(a =~= seq![a[0]] + a.drop_first());
                assert(b =~= seq![b[0]] + b.drop_first());
            }
            lemma_keys_lt_total(a.drop_first(), b.drop_first());
        } else {
            lemma_text_lt_total(a[0], b[0]);
        }
    }
}

/// A value that can stand in a pool, ordered by its key.
pub trait PoolKey: Sized {
    spec fn key(&self) -> Seq<Seq<char>>;

    fn relate(&self, other: &Self) -> (r: Rel)
        ensures
            r == rel_of(self.key(), other.key()),
    ;
}

/// The relation of text `a` to text `b`.
pub fn text_rel(a: &str, b: &str) -> (r: Rel)
    ensures
        r == (if a@ == b@ {
            Rel::Same
        } else if text_lt(a@, b@) {
            Rel::Before
        } else {
            Rel::After
        }),
{
    let x = chars_of(a);
    let y = chars_of(b);
    let mut i: usize = 0;
    assert(a@.skip(0) =~= a@);
    assert(b@.skip(0) =~= b@);
    while i < x.len() && i < y.len() && x[i] == y[i]
        invariant
            x@ == a@,
            y@ == b@,
            i <= x@.len(),
            i <= y@.len(),
            x@.subrange(0, i as int) == y@.subrange(0, i as int),
            text_lt(a@, b@) == text_lt(a@.skip(i as int), b@.skip(i as int)),
        decreases x@.len() - i,
    {
        assert(a@.skip(i as int).drop_first() =~= a@.skip(i + 1));
        assert(b@.skip(i as int).drop_first() =~= b@.skip(i + 1));
        assert(x@.subrange(0, i + 1) =~= x@.subrange(0, i as int).push(x@[i as int]));
        assert(y@.subrange(0, i + 1) =~= y@.subrange(0, i as int).push(y@[i as int]));
        i = i + 1;
    }
    if i == x.len() && i == y.len() {
        assert(x@ =~= x@.subrange(0, i as int));
        assert(y@ =~= y@.subrange(0, i as int));
        return Rel::Same;
    }
    proof {
        if a@ == b@ {
            assert(x@[i as int] == y@[i as int]);
        }
    }
    if i == x.len() {
        assert(a@.skip(i as int).len() == 0);
        Rel::Before
    } else if i == y.len() {
        assert(b@.skip(i as int).len() == 0);
        Rel::After
    } else if x[i] < y[i] {
        assert(a@.skip(i as int)[0] == x@[i as int]);
        assert(b@.skip(i as int)[0] == y@[i as int]);
        Rel::Before
    } else {
        assert(a@.skip(i as int)[0] == x@[i as int]);
        assert(b@.skip(i as int)[0] == y@[i as int]);
        Rel::After
    }
}

impl PoolKey for String {
    open spec fn key(&self) -> Seq<Seq<char>> {
        seq![self@]
    }

    fn relate(&self, other: &Self) -> (r: Rel) {
        let r = text_rel(self.as_str(), other.as_str());
        proof {
            let a = self.key();
            let b = other.key();
            assert(a.drop_first() =~= Seq::<Seq<char>>::empty());
            assert(b.drop_first() =~= Seq::<Seq<char>>::empty());
            if self@ == other@ {
                assert(a =~= b);
            } else {
                assert(a[0] != b[0]);
            }
        }
        r
    }
}

impl PoolKey for (String, String, String) {
    open spec fn key(&self) -> Seq<Seq<char>> {
        seq![self.0@, self.1@, self.2@]
    }

    fn relate(&self, other: &Self) -> (r: Rel) {
        let ghost a = self.key();
        let ghost b = other.key();
        assert(a.drop_first() =~= seq![self.1@, self.2@]);
        assert(b.drop_first() =~= seq![other.1@, other.2@]);
        assert(a.drop_first().drop_first() =~= seq![self.2@]);
        assert(b.drop_first().drop_first() =~= seq![other.2@]);
        assert(a.drop_first().drop_first().drop_first() =~= Seq::<Seq<char>>::empty());
        assert(b.drop_first().drop_first().drop_first() =~= Seq::<Seq<char>>::empty());
        let r0 = text_rel(self.0.as_str(), other.0.as_str());
        if r0 != Rel::Same {
            assert(a != b) by {
                assert(a[0] != b[0]);
            }
            return r0;
        }
        let r1 = text_rel(self.1.as_str(), other.1.as_str());
        if r1 != Rel::Same {
            assert(a != b) by {
                assert(a[1] != b[1]);
            }
            assert(a.drop_first()[0] != b.drop_first()[0]);
            assert(keys_lt(a, b) == keys_lt(a.drop_first(), b.drop_first()));
            return r1;
        }
        let r2 = text_rel(self.2.as_str(), other.2.as_str());
        if r2 != Rel::Same {
            assert(a != b) by {
                assert(a[2] != b[2]);
            }
            assert(a.drop_first().drop_first()[0] != b.drop_first().drop_first()[0]);
            assert(keys_lt(a, b) == keys_lt(a.drop_first(), b.drop_first()));
            assert(keys_lt(a.drop_first(), b.drop_first()) == keys_lt(
                a.drop_first().drop_first(),
                b.drop_first().drop_first(),
            ));
            return r2;
        }
        assert(a =~= b);
        r2
    }
}

/// The keys of a pool, in order.
pub open spec fn keys_of<T: PoolKey>(v: Seq<T>) -> Seq<Seq<Seq<char>>> {
    Seq::new(v.len(), |i: int| v[i].key())
}

/// Strictly ascending keys: sorted and free of duplicates.
pub open spec fn strictly_sorted(k: Seq<Seq<Seq<char>>>) -> bool {
    forall|i: int, j: int| 0 <= i < j < k.len() ==> keys_lt(#[trigger] k[i], #[trigger] k[j])
}

/// Where `x` stands in a strictly sorted pool: `(true, i)` when entry `i` has its key,
/// else `(false, i)` with `i` the place where it would go.
pub fn search_pool<T: PoolKey>(pool: &Vec<T>, x: &T) -> (r: (bool, usize))
    requires
        strictly_sorted(keys_of(pool@)),
    ensures
        r.1 <= pool@.len(),
        r.0 ==> r.1 < pool@.len() && pool@[r.1 as int].key() == x.key(),
        !r.0 ==> forall|i: int| 0 <= i < r.1 ==> keys_lt(#[trigger] pool@[i].key(), x.key()),
        !r.0 ==> forall|i: int| r.1 <= i < pool@.len() ==> keys_lt(x.key(), #[trigger] pool@[i].key()),
{
    let ghost k = keys_of(pool@);
    let mut lo: usize = 0;
    let mut hi: usize = pool.len();
    while lo < hi
        invariant
            lo <= hi <= pool@.len(),
            k == keys_of(pool@),
            strictly_sorted(k),
            forall|i: int| 0 <= i < lo ==> keys_lt(#[trigger] pool@[i].key(), x.key()),
            forall|i: int| hi <= i < pool@.len() ==> keys_lt(x.key(), #[trigger] pool@[i].key()),
        decreases hi - lo,
    {
        let mid = lo + (hi - lo) / 2;
        match pool[mid].relate(x) {
            Rel::Same => {
                return (true, mid);
            },
            Rel::Before => {
                assert forall|i: int| 0 <= i < mid + 1 implies keys_lt(#[trigger] pool@[i].key(), x.key()) by {
                    if i < mid {
                        assert(keys_lt(k[i], k[mid as int]));
                        lemma_keys_lt_transitive(pool@[i].key(), pool@[mid as int].key(), x.key());
                    }
                }
                lo = mid + 1;
            },
            Rel::After => {
                proof {
                    lemma_keys_lt_total(pool@[mid as int].key(), x.key());
                }
                assert forall|i: int| mid <= i < pool@.len() implies keys_lt(x.key(), #[trigger] pool@[i].key()) by {
                    if i > mid {
                        assert(keys_lt(k[mid as int], k[i]));
                        lemma_keys_lt_transitive(x.key(), pool@[mid as int].key(), pool@[i].key());
                    }
                }
                hi = mid;
            },
        }
    }
    (false, lo)
}

/// Add `x` to a strictly sorted pool unless an entry with its key is there.
pub fn insert_pool<T: PoolKey>(pool: &mut Vec<T>, x: T)
    requires
        strictly_sorted(keys_of(old(pool)@)),
    ensures
        strictly_sorted(keys_of(final(pool)@)),
        forall|q: Seq<Seq<char>>| #[trigger] keys_of(final(pool)@).contains(q) <==> (keys_of(
            old(pool)@,
        ).contains(q) || q == x.key()),
{
    let (found, at) = search_pool(pool, &x);
    if found {
        assert forall|q: Seq<Seq<char>>| #[trigger] keys_of(pool@).contains(q) <==> (keys_of(
            old(pool)@,
        ).contains(q) || q == x.key()) by {
            if q == x.key() {
                assert(keys_of(pool@)[at as int] == q);
            }
        }
        return ;
    }
    let ghost before = keys_of(pool@);
    let ghost xk = x.key();
    pool.insert(at, x);
    let ghost after = keys_of(pool@);
    assert(after =~= before.subrange(0, at as int).push(xk) + before.subrange(at as int, before.len() as int));
    assert forall|i: int, j: int| 0 <= i < j < after.len() implies keys_lt(#[trigger] after[i], #[trigger] after[j]) by {
        if j < at {
            assert(after[i] == before[i] && after[j] == before[j]);
        } else if j == at {
            assert(after[i] == before[i]);
        } else if i < at {
            assert(after[i] == before[i] && after[j] == before[j - 1]);
            lemma_keys_lt_transitive(after[i], xk, after[j]);
        } else if i == at {
            assert(after[j] == before[j - 1]);
        } else {
            assert(after[i] == before[i - 1] && after[j] == before[j - 1]);
        }
    }
    assert forall|q: Seq<Seq<char>>| #[trigger] after.contains(q) <==> (before.contains(q) || q == xk) by {
        if after.contains(q) {
            let i = choose|i: int| 0 <= i < after.len() && after[i] == q;
            if i < at {
                assert(before[i] == q);
            } else if i > at {
                assert(before[i - 1] == q);
            }
        }
        if before.contains(q) {
            let i = choose|i: int| 0 <= i < before.len() && before[i] == q;
            if i < at {
                assert(after[i] == q);
            } else {
                assert(after[i + 1] == q);
            }
        }
        if q == xk {
            assert(after[at as int] == q);
        }
    }
}

} // verus!
