//! The snapshot byte format: each row as an 8-byte little-endian key
//! length, the key, an 8-byte little-endian value length, and the value.
//! The embedding process moves these bytes to and from the data directory;
//! decoding is the exact inverse of encoding.

use vstd::prelude::*;

use crate::db::DBRow;
use crate::db::view_rows;

verus! {

/// The eight little-endian bytes of a 64-bit length.
#[verifier::opaque]
pub open spec fn u64_le(v: u64) -> Seq<u8> {
    seq![
        (v % 256) as u8,
        ((v / 256) % 256) as u8,
        ((v / 65536) % 256) as u8,
        ((v / 16777216) % 256) as u8,
        ((v / 4294967296) % 256) as u8,
        ((v / 1099511627776) % 256) as u8,
        ((v / 281474976710656) % 256) as u8,
        ((v / 72057594037927936) % 256) as u8,
    ]
}

/// The number held by eight little-endian bytes.
pub open spec fn le_val(b: Seq<u8>) -> int
    recommends
        b.len() == 8,
{
    b[0] + 256 * b[1] + 65536 * b[2] + 16777216 * b[3] + 4294967296 * b[4] + 1099511627776 * b[5]
        + 281474976710656 * b[6] + 72057594037927936 * b[7]
}

/// Reading back the eight bytes of a length returns the length.
pub proof fn lemma_le_round_trip(v: u64)
    ensures
        le_val(u64_le(v)) == v,
{
    reveal(u64_le);
    let b = u64_le(v);
    assert(b[0] == (v % 256) as u8);
    assert(v % 256 + 256 * (v / 256) == v) by (nonlinear_arith);
    assert(v / 256 % 256 + 256 * (v / 256 / 256) == v / 256) by (nonlinear_arith);
    assert(v / 256 / 256 == v / 65536) by (nonlinear_arith);
    assert(v / 65536 % 256 + 256 * (v / 65536 / 256) == v / 65536) by (nonlinear_arith);
    assert(v / 65536 / 256 == v / 16777216) by (nonlinear_arith);
    assert(v / 16777216 % 256 + 256 * (v / 16777216 / 256) == v / 16777216) by (nonlinear_arith);
    assert(v / 16777216 / 256 == v / 4294967296) by (nonlinear_arith);
    assert(v / 4294967296 % 256 + 256 * (v / 4294967296 / 256) == v / 4294967296)
        by (nonlinear_arith);
    assert(v / 4294967296 / 256 == v / 1099511627776) by (nonlinear_arith);
    assert(v / 1099511627776 % 256 + 256 * (v / 1099511627776 / 256) == v / 1099511627776)
        by (nonlinear_arith);
    assert(v / 1099511627776 / 256 == v / 281474976710656) by (nonlinear_arith);
    assert(v / 281474976710656 % 256 + 256 * (v / 281474976710656 / 256) == v / 281474976710656)
        by (nonlinear_arith);
    assert(v / 281474976710656 / 256 == v / 72057594037927936) by (nonlinear_arith);
    assert(v / 72057594037927936 % 256 == v / 72057594037927936) by (nonlinear_arith)
        requires
            v <= 0xffffffffffffffff,
    ;
}


/// Concatenation of byte strings is associative.
proof fn lemma_add_assoc(a: Seq<u8>, b: Seq<u8>, c: Seq<u8>)
    ensures
        (a + b) + c == a + (b + c),
{
    assert((a + b) + c =~= a + (b + c));
}

/// The empty byte string is the identity of concatenation.
proof fn lemma_add_empty(a: Seq<u8>)
    ensures
        a + Seq::<u8>::empty() == a,
        Seq::<u8>::empty() + a == a,
{
    assert(a + Seq::<u8>::empty() =~= a);
    assert(Seq::<u8>::empty() + a =~= a);
}

/// One encoded row: key length, key, value length, value.
pub open spec fn enc_row(r: (Seq<u8>, Seq<u8>)) -> Seq<u8> {
    u64_le(r.0.len() as u64) + r.0 + u64_le(r.1.len() as u64) + r.1
}

/// A whole encoded table: its rows one after another.
pub open spec fn enc_rows(t: Seq<(Seq<u8>, Seq<u8>)>) -> Seq<u8>
    decreases t.len(),
{
    if t.len() == 0 {
        Seq::empty()
    } else {
        enc_row(t[0]) + enc_rows(t.drop_first())
    }
}

/// Appending a row to the table appends its encoding to the bytes.
pub proof fn lemma_enc_rows_snoc(t: Seq<(Seq<u8>, Seq<u8>)>, x: (Seq<u8>, Seq<u8>))
    ensures
        enc_rows(t.push(x)) == enc_rows(t) + enc_row(x),
    decreases t.len(),
{
    if t.len() == 0 {
        assert(t.push(x)[0] == x);
        assert(t.push(x).drop_first() =~= Seq::<(Seq<u8>, Seq<u8>)>::empty());
        assert(enc_rows(Seq::<(Seq<u8>, Seq<u8>)>::empty()) == Seq::<u8>::empty());
        assert(enc_rows(t.push(x)) == enc_row(x) + Seq::<u8>::empty());
        lemma_add_empty(enc_row(x));
    } else {
        assert(t.push(x)[0] == t[0]);
        assert(t.push(x).drop_first() =~= t.drop_first().push(x));
        assert(enc_rows(t.push(x)) == enc_row(t[0]) + enc_rows(t.drop_first().push(x)));
        lemma_enc_rows_snoc(t.drop_first(), x);
        assert(enc_rows(t) == enc_row(t[0]) + enc_rows(t.drop_first()));
        lemma_add_assoc(enc_row(t[0]), enc_rows(t.drop_first()), enc_row(x));
    }
}

/// Appends the eight little-endian bytes of a length.
fn push_u64_len(out: &mut Vec<u8>, v: usize)
    ensures
        final(out)@ == old(out)@ + u64_le(v as u64),
{
    let w = v as u64;
    out.push((w % 256) as u8);
    out.push(((w / 256) % 256) as u8);
    out.push(((w / 65536) % 256) as u8);
    out.push(((w / 16777216) % 256) as u8);
    out.push(((w / 4294967296) % 256) as u8);
    out.push(((w / 1099511627776) % 256) as u8);
    out.push(((w / 281474976710656) % 256) as u8);
    out.push(((w / 72057594037927936) % 256) as u8);
    proof {
        reveal(u64_le);
        assert(out@ =~= old(out)@ + u64_le(w));
    }
}

/// Appends a byte string.
fn push_bytes(out: &mut Vec<u8>, s: &[u8])
    ensures
        final(out)@ == old(out)@ + s@,
{
    let n = s.len();
    let mut i: usize = 0;
    proof {
        assert(out@ =~= old(out)@ + s@.take(0));
    }
    while i < n
        invariant
            i <= n,
            n == s@.len(),
            out@ == old(out)@ + s@.take(i as int),
        decreases n - i,
    {
        out.push(s[i]);
        proof {
            assert(out@ =~= old(out)@ + s@.take(i as int + 1));
        }
        i = i + 1;
    }
    proof {
        assert(s@.take(n as int) =~= s@);
    }
}

/// Encodes a row table into the snapshot byte format.
pub fn encode_rows(rows: &Vec<DBRow>) -> (r: Vec<u8>)
    ensures
        r@ == enc_rows(view_rows(rows@)),
{
    let mut out: Vec<u8> = Vec::new();
    proof {
        assert(view_rows(rows@.take(0)) =~= Seq::<(Seq<u8>, Seq<u8>)>::empty());
        assert(out@ =~= enc_rows(view_rows(rows@.take(0))));
    }
    let n = rows.len();
    let mut i: usize = 0;
    while i < n
        invariant
            i <= n,
            n == rows@.len(),
            out@ == enc_rows(view_rows(rows@.take(i as int))),
        decreases n - i,
    {
        let ghost t_i = view_rows(rows@.take(i as int));
        let ghost rv = (rows@[i as int].key@, rows@[i as int].value@);
        push_u64_len(&mut out, rows[i].key.len());
        push_bytes(&mut out, rows[i].key.as_slice());
        push_u64_len(&mut out, rows[i].value.len());
        push_bytes(&mut out, rows[i].value.as_slice());
        proof {
            let e = enc_rows(t_i);
            let lk = u64_le(rv.0.len() as u64);
            let lv = u64_le(rv.1.len() as u64);
            assert(out@ == ((e + lk + rv.0) + lv) + rv.1);
            lemma_add_assoc(e, lk, rv.0);
            lemma_add_assoc(e, lk + rv.0, lv);
            lemma_add_assoc(e, (lk + rv.0) + lv, rv.1);
            assert(out@ == e + enc_row(rv));
            lemma_enc_rows_snoc(t_i, rv);
            assert(view_rows(rows@.take(i as int + 1)) =~= t_i.push(rv));
        }
        i = i + 1;
    }
    proof {
        assert(rows@.take(n as int) =~= rows@);
    }
    out
}


/// The exact inverse parse: the table held by a snapshot, or nothing when
/// the bytes are not a whole sequence of well-formed records.
pub open spec fn dec_rows(b: Seq<u8>) -> Option<Seq<(Seq<u8>, Seq<u8>)>>
    decreases b.len(),
{
    if b.len() == 0 {
        Option::Some(Seq::empty())
    } else if b.len() < 8 {
        Option::None
    } else {
        let kl = le_val(b.subrange(0, 8));
        if 8 + kl + 8 > b.len() {
            Option::None
        } else {
            let k = b.subrange(8, 8 + kl);
            let vl = le_val(b.subrange(8 + kl, 8 + kl + 8));
            if 8 + kl + 8 + vl > b.len() {
                Option::None
            } else {
                let v = b.subrange(8 + kl + 8, 8 + kl + 8 + vl);
                match dec_rows(b.skip(8 + kl + 8 + vl)) {
                    Option::Some(rest) => Option::Some(seq![(k, v)] + rest),
                    Option::None => Option::None,
                }
            }
        }
    }
}

/// A parsed leading table followed by the parse of the remaining bytes.
spec fn dec_cat(
    prefix: Seq<(Seq<u8>, Seq<u8>)>,
    rest: Option<Seq<(Seq<u8>, Seq<u8>)>>,
) -> Option<Seq<(Seq<u8>, Seq<u8>)>> {
    match rest {
        Option::Some(r) => Option::Some(prefix + r),
        Option::None => Option::None,
    }
}

/// Reads an eight-byte little-endian length.
fn read_le(bytes: &[u8], pos: usize) -> (r: u64)
    requires
        pos + 8 <= bytes@.len(),
    ensures
        r as int == le_val(bytes@.subrange(pos as int, pos as int + 8)),
{
    let b0 = bytes[pos] as u64;
    let b1 = bytes[pos + 1] as u64;
    let b2 = bytes[pos + 2] as u64;
    let b3 = bytes[pos + 3] as u64;
    let b4 = bytes[pos + 4] as u64;
    let b5 = bytes[pos + 5] as u64;
    let b6 = bytes[pos + 6] as u64;
    let b7 = bytes[pos + 7] as u64;
    let r = b0 + b1 * 256 + b2 * 65536 + b3 * 16777216 + b4 * 4294967296 + b5 * 1099511627776 + b6
        * 281474976710656 + b7 * 72057594037927936;
    proof {
        let s = bytes@.subrange(pos as int, pos as int + 8);
        assert(s[0] == bytes@[pos as int]);
        assert(s[1] == bytes@[pos as int + 1]);
        assert(s[2] == bytes@[pos as int + 2]);
        assert(s[3] == bytes@[pos as int + 3]);
        assert(s[4] == bytes@[pos as int + 4]);
        assert(s[5] == bytes@[pos as int + 5]);
        assert(s[6] == bytes@[pos as int + 6]);
        assert(s[7] == bytes@[pos as int + 7]);
    }
    r
}

/// Copies `len` bytes starting at `start`.
fn copy_range(bytes: &[u8], start: usize, len: usize) -> (r: Vec<u8>)
    requires
        start + len <= bytes@.len(),
    ensures
        r@ == bytes@.subrange(start as int, start as int + len as int),
{
    let mut r: Vec<u8> = Vec::new();
    let total = bytes.len();
    let mut i: usize = 0;
    proof {
        assert(r@ =~= bytes@.subrange(start as int, start as int));
    }
    while i < len
        invariant
            i <= len,
            total == bytes@.len(),
            start + len <= total,
            r@ == bytes@.subrange(start as int, start as int + i as int),
        decreases len - i,
    {
        r.push(bytes[start + i]);
        proof {
            assert(bytes@.subrange(start as int, start as int + i as int).push(
                bytes@[start as int + i as int],
            ) =~= bytes@.subrange(start as int, start as int + i as int + 1));
        }
        i = i + 1;
    }
    r
}

/// Decodes a snapshot byte string: yields the rows it holds exactly when
/// the bytes are a whole sequence of well-formed records, and nothing
/// otherwise.
pub fn decode_rows(bytes: &[u8]) -> (r: Option<Vec<DBRow>>)
    ensures
        match r {
            Option::Some(rows) => dec_rows(bytes@) == Option::Some(view_rows(rows@)),
            Option::None => dec_rows(bytes@) is None,
        },
{
    let mut out: Vec<DBRow> = Vec::new();
    let n = bytes.len();
    let mut pos: usize = 0;
    proof {
        assert(bytes@.skip(0) =~= bytes@);
        assert(view_rows(out@) =~= Seq::<(Seq<u8>, Seq<u8>)>::empty());
        assert(dec_rows(bytes@) == dec_cat(view_rows(out@), dec_rows(bytes@.skip(pos as int))));
    }
    while pos < n
        invariant
            pos <= n,
            n == bytes@.len(),
            dec_rows(bytes@) == dec_cat(view_rows(out@), dec_rows(bytes@.skip(pos as int))),
        decreases n - pos,
    {
        let ghost suffix = bytes@.skip(pos as int);
        let remaining = n - pos;
        if remaining < 8 {
            proof {
                assert(dec_rows(suffix) is None);
            }
            return Option::None;
        }
        let kl = read_le(bytes, pos);
        proof {
            assert(suffix.subrange(0, 8) =~= bytes@.subrange(pos as int, pos as int + 8));
        }
        if remaining - 8 < 8 || kl > ((remaining - 16) as u64) {
            proof {
                assert(8 + kl + 8 > suffix.len());
                assert(dec_rows(suffix) is None);
            }
            return Option::None;
        }
        let klu = kl as usize;
        let key = copy_range(bytes, pos + 8, klu);
        proof {
            assert(suffix.subrange(8, 8 + kl as int) =~= bytes@.subrange(
                pos as int + 8,
                pos as int + 8 + kl as int,
            ));
        }
        let vl = read_le(bytes, pos + 8 + klu);
        proof {
            assert(suffix.subrange(8 + kl as int, 8 + kl as int + 8) =~= bytes@.subrange(
                pos as int + 8 + kl as int,
                pos as int + 8 + kl as int + 8,
            ));
        }
        if vl > ((remaining - 16) as u64) - kl {
            proof {
                assert(8 + kl + 8 + vl > suffix.len());
                assert(dec_rows(suffix) is None);
            }
            return Option::None;
        }
        let vlu = vl as usize;
        let value = copy_range(bytes, pos + 16 + klu, vlu);
        proof {
            assert(suffix.subrange(8 + kl as int + 8, 8 + kl as int + 8 + vl as int)
                =~= bytes@.subrange(
                pos as int + 16 + kl as int,
                pos as int + 16 + kl as int + vl as int,
            ));
        }
        let ghost kv = (key@, value@);
        let ghost out_before = view_rows(out@);
        out.push(DBRow { key, value });
        pos = pos + 16 + klu + vlu;
        proof {
            assert(suffix.skip(8 + kl as int + 8 + vl as int) =~= bytes@.skip(pos as int));
            assert(dec_rows(suffix) == (match dec_rows(bytes@.skip(pos as int)) {
                Option::Some(rest) => Option::Some(seq![kv] + rest),
                Option::None => Option::<Seq<(Seq<u8>, Seq<u8>)>>::None,
            }));
            assert(view_rows(out@) =~= out_before.push(kv));
            match dec_rows(bytes@.skip(pos as int)) {
                Option::Some(rest) => {
                    assert(out_before + (seq![kv] + rest) =~= out_before.push(kv) + rest);
                },
                Option::None => {},
            }
        }
    }
    proof {
        assert(bytes@.skip(n as int).len() == 0);
        assert(dec_rows(bytes@.skip(n as int)) == Option::Some(
            Seq::<(Seq<u8>, Seq<u8>)>::empty(),
        ));
        assert(view_rows(out@) + Seq::<(Seq<u8>, Seq<u8>)>::empty() =~= view_rows(out@));
    }
    Option::Some(out)
}


/// The length of a length prefix.
proof fn lemma_u64_le_len(v: u64)
    ensures
        u64_le(v).len() == 8,
{
    reveal(u64_le);
}

/// Decoding an encoded table returns exactly that table: the snapshot
/// format loses nothing and invents nothing.
pub proof fn lemma_snapshot_round_trip(t: Seq<(Seq<u8>, Seq<u8>)>)
    requires
        forall|i: int|
            0 <= i < t.len() ==> (#[trigger] t[i]).0.len() < 0x10000000000000000 && t[i].1.len()
                < 0x10000000000000000,
    ensures
        dec_rows(enc_rows(t)) == Option::Some(t),
    decreases t.len(),
{
    if t.len() == 0 {
    } else {
        let b = enc_rows(t);
        let x = t[0];
        let kl = x.0.len() as int;
        let vl = x.1.len() as int;
        let lk = u64_le(x.0.len() as u64);
        let lv = u64_le(x.1.len() as u64);
        let rest = enc_rows(t.drop_first());
        lemma_u64_le_len(x.0.len() as u64);
        lemma_u64_le_len(x.1.len() as u64);
        assert(b == ((lk + x.0 + lv + x.1)) + rest);
        assert(b.len() == 8 + kl + 8 + vl + rest.len());
        assert(b.subrange(0, 8) =~= lk);
        lemma_le_round_trip(x.0.len() as u64);
        assert(le_val(b.subrange(0, 8)) == kl);
        assert(8 + kl + 8 <= b.len());
        assert(b.subrange(8, 8 + kl) =~= x.0);
        assert(b.subrange(8 + kl, 8 + kl + 8) =~= lv);
        lemma_le_round_trip(x.1.len() as u64);
        assert(le_val(b.subrange(8 + kl, 8 + kl + 8)) == vl);
        assert(8 + kl + 8 + vl <= b.len());
        assert(b.subrange(8 + kl + 8, 8 + kl + 8 + vl) =~= x.1);
        assert(b.skip(8 + kl + 8 + vl) =~= rest);
        assert(forall|i: int|
            0 <= i < t.drop_first().len() ==> #[trigger] t.drop_first()[i] == t[i + 1]);
        lemma_snapshot_round_trip(t.drop_first());
        assert(dec_rows(rest) == Option::Some(t.drop_first()));
        assert(dec_rows(b) == Option::Some(seq![(x.0, x.1)] + t.drop_first()));
        assert((x.0, x.1) == x);
        assert(seq![x] + t.drop_first() =~= t);
    }
}

} // verus!
