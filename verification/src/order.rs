//! Bytewise lexicographic order on keys, and key-prefix facts.
//!
//! The storage engine keeps its table sorted by this order, and the
//! prefix-bounded cursors rely on the gap lemma below: once an in-range key
//! stops matching a prefix, no later in-range key can match it again.

use vstd::prelude::*;

verus! {

/// Lexicographic (bytewise) order on byte sequences: `a <= b`.
pub open spec fn lex_le(a: Seq<u8>, b: Seq<u8>) -> bool
    decreases a.len(),
{
    if a.len() == 0 {
        true
    } else if b.len() == 0 {
        false
    } else if a[0] < b[0] {
        true
    } else if a[0] > b[0] {
        false
    } else {
        lex_le(a.skip(1), b.skip(1))
    }
}

/// Strict lexicographic order.
pub open spec fn lex_lt(a: Seq<u8>, b: Seq<u8>) -> bool {
    lex_le(a, b) && a != b
}

/// `k` starts with the byte sequence `p`.
pub open spec fn has_prefix(k: Seq<u8>, p: Seq<u8>) -> bool {
    p.len() <= k.len() && k.subrange(0, p.len() as int) == p
}

pub proof fn lemma_lex_le_refl(a: Seq<u8>)
    ensures
        lex_le(a, a),
    decreases a.len(),
{
    if a.len() > 0 {
        lemma_lex_le_refl(a.skip(1));
    }
}

pub proof fn lemma_lex_le_total(a: Seq<u8>, b: Seq<u8>)
    ensures
        lex_le(a, b) || lex_le(b, a),
    decreases a.len(),
{
    if a.len() > 0 && b.len() > 0 && a[0] == b[0] {
        lemma_lex_le_total(a.skip(1), b.skip(1));
    }
}

pub proof fn lemma_lex_le_antisym(a: Seq<u8>, b: Seq<u8>)
    requires
        lex_le(a, b),
        lex_le(b, a),
    ensures
        a == b,
    decreases a.len(),
{
    if a.len() == 0 {
        assert(b.len() == 0);
        assert(a =~= b);
    } else {
        assert(a[0] == b[0]);
        lemma_lex_le_antisym(a.skip(1), b.skip(1));
        assert(a.len() == b.len());
        assert forall|i: int| 0 <= i < a.len() implies a[i] == b[i] by {
            if i >= 1 {
                assert(a[i] == a.skip(1)[i - 1]);
                assert(b[i] == b.skip(1)[i - 1]);
            }
        }
        assert(a =~= b);
    }
}

pub proof fn lemma_lex_le_trans(a: Seq<u8>, b: Seq<u8>, c: Seq<u8>)
    requires
        lex_le(a, b),
        lex_le(b, c),
    ensures
        lex_le(a, c),
    decreases a.len(),
{
    if a.len() > 0 && b.len() > 0 && c.len() > 0 {
        if a[0] == b[0] && b[0] == c[0] {
            lemma_lex_le_trans(a.skip(1), b.skip(1), c.skip(1));
        }
    }
}

/// Equal leading bytes do not decide the order: comparison continues behind them.
pub proof fn lemma_lex_le_skip_step(a: Seq<u8>, b: Seq<u8>, i: int)
    requires
        0 <= i < a.len(),
        0 <= i < b.len(),
        a[i] == b[i],
    ensures
        lex_le(a.skip(i), b.skip(i)) == lex_le(a.skip(i + 1), b.skip(i + 1)),
{
    assert(a.skip(i)[0] == a[i]);
    assert(b.skip(i)[0] == b[i]);
    assert(a.skip(i).skip(1) =~= a.skip(i + 1));
    assert(b.skip(i).skip(1) =~= b.skip(i + 1));
}

/// A key that starts with `p` is lexicographically at or above `p`.
pub proof fn lemma_prefix_ge(k: Seq<u8>, p: Seq<u8>)
    requires
        has_prefix(k, p),
    ensures
        lex_le(p, k),
    decreases p.len(),
{
    if p.len() > 0 {
        assert(k.subrange(0, p.len() as int)[0] == k[0]);
        assert(k[0] == p[0]);
        assert forall|j: int|
            0 <= j < p.len() - 1 implies #[trigger] k.skip(1).subrange(0, p.len() - 1)[j]
            == p.skip(1)[j] by {
            assert(k.skip(1).subrange(0, p.len() - 1)[j] == k.skip(1)[j]);
            assert(k.skip(1)[j] == k[j + 1]);
            assert(k.subrange(0, p.len() as int)[j + 1] == k[j + 1]);
            assert(p.skip(1)[j] == p[j + 1]);
        }
        assert(k.skip(1).subrange(0, p.len() - 1) =~= p.skip(1));
        lemma_prefix_ge(k.skip(1), p.skip(1));
        lemma_lex_le_skip_step(p, k, 0);
        assert(p.skip(0) =~= p);
        assert(k.skip(0) =~= k);
        assert(p.skip(1) =~= p.skip(0int + 1));
        assert(k.skip(1) =~= k.skip(0int + 1));
    }
}

/// The gap lemma: a key `k` at or above `p` that does not start with `p`
/// lies strictly above every key `m` that does start with `p`.
pub proof fn lemma_prefix_gap(p: Seq<u8>, k: Seq<u8>, m: Seq<u8>)
    requires
        lex_le(p, k),
        !has_prefix(k, p),
        has_prefix(m, p),
    ensures
        lex_lt(m, k),
    decreases p.len(),
{
    if p.len() == 0 {
        assert(k.subrange(0, 0) =~= p);
        assert(false);
    } else {
        assert(k.len() > 0);
        assert(m.len() >= p.len());
        assert(m.subrange(0, p.len() as int)[0] == m[0]);
        assert(m[0] == p[0]);
        if p[0] < k[0] {
            assert(lex_le(m, k));
            assert(m != k) by {
                if m == k {
                    assert(m[0] == k[0]);
                }
            }
        } else if p[0] > k[0] {
            assert(false);
        } else {
            // p[0] == k[0] == m[0]: recurse behind the shared first byte.
            assert(lex_le(p.skip(1), k.skip(1)));
            assert(!has_prefix(k.skip(1), p.skip(1))) by {
                if has_prefix(k.skip(1), p.skip(1)) {
                    assert(p.len() <= k.len());
                    assert forall|j: int|
                        0 <= j < p.len() implies #[trigger] k.subrange(0, p.len() as int)[j]
                        == p[j] by {
                        assert(k.subrange(0, p.len() as int)[j] == k[j]);
                        if j >= 1 {
                            assert(k.skip(1).subrange(0, p.len() - 1)[j - 1] == k.skip(1)[j - 1]);
                            assert(k.skip(1)[j - 1] == k[j]);
                            assert(p.skip(1)[j - 1] == p[j]);
                        }
                    }
                    assert(k.subrange(0, p.len() as int) =~= p);
                    assert(false);
                }
            }
            assert(has_prefix(m.skip(1), p.skip(1))) by {
                assert forall|j: int|
                    0 <= j < p.len() - 1 implies #[trigger] m.skip(1).subrange(0, p.len() - 1)[j]
                    == p.skip(1)[j] by {
                    assert(m.skip(1).subrange(0, p.len() - 1)[j] == m.skip(1)[j]);
                    assert(m.skip(1)[j] == m[j + 1]);
                    assert(m.subrange(0, p.len() as int)[j + 1] == m[j + 1]);
                    assert(p.skip(1)[j] == p[j + 1]);
                }
                assert(m.skip(1).subrange(0, p.len() - 1) =~= p.skip(1));
            }
            lemma_prefix_gap(p.skip(1), k.skip(1), m.skip(1));
            assert(lex_le(m, k)) by {
                lemma_lex_le_skip_step(m, k, 0);
                assert(m.skip(0) =~= m);
                assert(k.skip(0) =~= k);
                assert(m.skip(1) =~= m.skip(0int + 1));
                assert(k.skip(1) =~= k.skip(0int + 1));
            }
            assert(m != k) by {
                if m == k {
                    assert(m.skip(1) == k.skip(1));
                }
            }
        }
    }
}

/// Strict order composes with itself and with the reflexive order.
pub proof fn lemma_lex_lt_trans(a: Seq<u8>, b: Seq<u8>, c: Seq<u8>)
    requires
        lex_lt(a, b),
        lex_lt(b, c),
    ensures
        lex_lt(a, c),
{
    lemma_lex_le_trans(a, b, c);
    if a == c {
        lemma_lex_le_antisym(a, b);
    }
}

pub proof fn lemma_lex_le_lt_trans(a: Seq<u8>, b: Seq<u8>, c: Seq<u8>)
    requires
        lex_le(a, b),
        lex_lt(b, c),
    ensures
        lex_lt(a, c),
{
    lemma_lex_le_trans(a, b, c);
    if a == c {
        lemma_lex_le_antisym(b, c);
    }
}

/// A failed comparison gives the strict order the other way.
pub proof fn lemma_lex_not_le(a: Seq<u8>, b: Seq<u8>)
    requires
        !lex_le(a, b),
    ensures
        lex_lt(b, a),
{
    lemma_lex_le_total(a, b);
    if a == b {
        lemma_lex_le_refl(a);
    }
}

/// Bytewise comparison: returns whether `a <= b` in lexicographic order.
pub fn key_le(a: &[u8], b: &[u8]) -> (r: bool)
    ensures
        r == lex_le(a@, b@),
{
    let mut i: usize = 0;
    proof {
        assert(a@.skip(0) =~= a@);
        assert(b@.skip(0) =~= b@);
    }
    loop
        invariant
            i <= a@.len(),
            i <= b@.len(),
            lex_le(a@, b@) == lex_le(a@.skip(i as int), b@.skip(i as int)),
        decreases a@.len() - i,
    {
        if i == a.len() {
            assert(a@.skip(i as int).len() == 0);
            return true;
        }
        if i == b.len() {
            assert(b@.skip(i as int).len() == 0);
            assert(a@.skip(i as int).len() > 0);
            return false;
        }
        let x = a[i];
        let y = b[i];
        proof {
            assert(a@.skip(i as int)[0] == a@[i as int]);
            assert(b@.skip(i as int)[0] == b@[i as int]);
        }
        if x < y {
            return true;
        }
        if x > y {
            return false;
        }
        proof {
            lemma_lex_le_skip_step(a@, b@, i as int);
        }
        i = i + 1;
    }
}

/// Bytewise equality of two byte strings.
pub fn key_eq(a: &[u8], b: &[u8]) -> (r: bool)
    ensures
        r == (a@ == b@),
{
    if a.len() != b.len() {
        return false;
    }
    let n = a.len();
    let mut i: usize = 0;
    while i < n
        invariant
            n == a@.len(),
            n == b@.len(),
            i <= n,
            forall|j: int| 0 <= j < i ==> a@[j] == b@[j],
        decreases n - i,
    {
        if a[i] != b[i] {
            return false;
        }
        i = i + 1;
    }
    proof {
        assert(a@ =~= b@);
    }
    true
}

/// Whether `k` starts with the byte string `p`.
pub fn starts_with_bytes(k: &[u8], p: &[u8]) -> (r: bool)
    ensures
        r == has_prefix(k@, p@),
{
    if p.len() > k.len() {
        return false;
    }
    let n = p.len();
    let mut i: usize = 0;
    while i < n
        invariant
            n == p@.len(),
            n <= k@.len(),
            i <= n,
            forall|j: int| 0 <= j < i ==> k@[j] == p@[j],
        decreases n - i,
    {
        if k[i] != p[i] {
            proof {
                if has_prefix(k@, p@) {
                    assert(k@.subrange(0, p@.len() as int)[i as int] == k@[i as int]);
                }
            }
            return false;
        }
        i = i + 1;
    }
    proof {
        assert(k@.subrange(0, p@.len() as int) =~= p@);
    }
    true
}

} // verus!
