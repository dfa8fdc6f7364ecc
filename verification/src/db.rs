//! The storage handle: ordered table, durability policy, compatibility
//! marker, and prefix-bounded cursors.

use vstd::prelude::*;

use crate::config::Config;
use crate::config::DBOptions;
use crate::config::build_db_options;
use crate::order::has_prefix;
use crate::order::key_eq;
use crate::order::key_le;
use crate::order::lemma_lex_le_refl;
use crate::order::lemma_lex_le_trans;
use crate::order::lex_le;
use crate::order::lex_lt;

verus! {

/// One stored row: a key and a value, both plain byte strings.
#[derive(Debug)]
pub struct DBRow {
    pub key: Vec<u8>,
    pub value: Vec<u8>,
}

impl PartialEq for DBRow {
    /// Structural equality: both fields equal.
    fn eq(&self, other: &DBRow) -> (r: bool)
        ensures
            r == (self.key@ == other.key@ && self.value@ == other.value@),
    {
        key_eq(self.key.as_slice(), other.key.as_slice()) && key_eq(
            self.value.as_slice(),
            other.value.as_slice(),
        )
    }
}

impl vstd::std_specs::cmp::PartialEqSpecImpl for DBRow {
    open spec fn obeys_eq_spec() -> bool {
        true
    }

    open spec fn eq_spec(&self, other: &DBRow) -> bool {
        self.key@ == other.key@ && self.value@ == other.value@
    }
}

impl Eq for DBRow {
}

/// Per-batch durability policy: `Enable` blocks until the batch is
/// write-ahead-logged and fsynced; `Disable` skips the write-ahead log and
/// returns once the batch is applied in memory.
#[derive(Copy, Clone, Debug)]
pub enum DBFlush {
    Disable,
    Enable,
}

/// Why a handle could not be produced.
#[derive(Copy, Clone, Debug, PartialEq, Eq, Structural)]
pub enum DBError {
    /// The data directory is absent and the mode forbids creating it.
    OpenFailed,
    /// The stored compatibility marker disagrees with this binary:
    /// the directory must be abandoned and reindexed.
    Incompatible,
}

/// The view of a row table: each row as its (key, value) byte sequences.
pub open spec fn view_rows(rs: Seq<DBRow>) -> Seq<(Seq<u8>, Seq<u8>)> {
    rs.map(|i: int, r: DBRow| (r.key@, r.value@))
}

/// A well-formed table is strictly ascending by key.
pub open spec fn table_ok(t: Seq<(Seq<u8>, Seq<u8>)>) -> bool {
    forall|i: int, j: int|
        0 <= i < j < t.len() ==> lex_lt(#[trigger] t[i].0, #[trigger] t[j].0)
}

/// The finite map held by a table; a later row with an equal key wins.
pub open spec fn table_map(t: Seq<(Seq<u8>, Seq<u8>)>) -> Map<Seq<u8>, Seq<u8>>
    decreases t.len(),
{
    if t.len() == 0 {
        Map::empty()
    } else {
        table_map(t.drop_last()).insert(t.last().0, t.last().1)
    }
}

/// Every key of `table_map(t)` is the key of some row of `t`.
pub proof fn lemma_table_map_keys(t: Seq<(Seq<u8>, Seq<u8>)>)
    ensures
        forall|k: Seq<u8>|
            #[trigger] table_map(t).contains_key(k) ==> exists|i: int|
                0 <= i < t.len() && (#[trigger] t[i]).0 == k,
        forall|i: int| 0 <= i < t.len() ==> table_map(t).contains_key((#[trigger] t[i]).0),
    decreases t.len(),
{
    if t.len() > 0 {
        lemma_table_map_keys(t.drop_last());
        assert(forall|i: int| 0 <= i < t.len() - 1 ==> #[trigger] t.drop_last()[i] == t[i]);
        assert forall|k: Seq<u8>| #[trigger] table_map(t).contains_key(k) implies exists|i: int|
            0 <= i < t.len() && (#[trigger] t[i]).0 == k by {
            if k == t.last().0 {
                assert((t[t.len() - 1]).0 == k);
            } else {
                assert(table_map(t.drop_last()).contains_key(k));
                let i = choose|i: int|
                    0 <= i < t.drop_last().len() && (#[trigger] t.drop_last()[i]).0 == k;
                assert((t[i]).0 == k);
            }
        }
        assert forall|i: int| 0 <= i < t.len() implies table_map(t).contains_key(
            (#[trigger] t[i]).0,
        ) by {
            if i < t.len() - 1 {
                assert(table_map(t.drop_last()).contains_key(t.drop_last()[i].0));
            } else {
                assert(t[i] == t.last());
            }
        }
    }
}

/// In a well-formed table the map sends each row's key to that row's value.
pub proof fn lemma_table_map_at(t: Seq<(Seq<u8>, Seq<u8>)>)
    requires
        table_ok(t),
    ensures
        forall|i: int|
            0 <= i < t.len() ==> table_map(t).contains_key((#[trigger] t[i]).0) && table_map(t)[
                t[i].0] == t[i].1,
    decreases t.len(),
{
    lemma_table_map_keys(t);
    if t.len() > 0 {
        assert(forall|i: int| 0 <= i < t.len() - 1 ==> #[trigger] t.drop_last()[i] == t[i]);
        assert(table_ok(t.drop_last()));
        lemma_table_map_at(t.drop_last());
        assert forall|i: int| 0 <= i < t.len() implies table_map(t).contains_key(
            (#[trigger] t[i]).0,
        ) && table_map(t)[t[i].0] == t[i].1 by {
            if i < t.len() - 1 {
                assert(lex_lt(t[i].0, t[t.len() - 1].0));
                assert(t[i].0 != t.last().0);
                assert(table_map(t.drop_last())[t.drop_last()[i].0] == t.drop_last()[i].1);
            } else {
                assert(t[i] == t.last());
            }
        }
    }
}

/// In a well-formed table, every pair of the map is a row of the table.
pub proof fn lemma_table_map_pairs(t: Seq<(Seq<u8>, Seq<u8>)>)
    requires
        table_ok(t),
    ensures
        forall|k: Seq<u8>, v: Seq<u8>|
            #[trigger] table_map(t).contains_pair(k, v) ==> exists|i: int|
                0 <= i < t.len() && #[trigger] t[i] == (k, v),
{
    lemma_table_map_keys(t);
    lemma_table_map_at(t);
    assert forall|k: Seq<u8>, v: Seq<u8>| #[trigger] table_map(t).contains_pair(k, v)
        implies exists|i: int| 0 <= i < t.len() && #[trigger] t[i] == (k, v) by {
        let i = choose|i: int| 0 <= i < t.len() && (#[trigger] t[i]).0 == k;
        assert(table_map(t)[t[i].0] == t[i].1);
        assert(t[i].1 == v);
        assert(t[i] == (k, v));
    }
}

/// Copies a byte string into a fresh vector.
fn copy_bytes(s: &[u8]) -> (r: Vec<u8>)
    ensures
        r@ == s@,
{
    let mut r: Vec<u8> = Vec::new();
    let n = s.len();
    let mut i: usize = 0;
    while i < n
        invariant
            n == s@.len(),
            i <= n,
            r@ == s@.take(i as int),
        decreases n - i,
    {
        let b = s[i];
        r.push(b);
        proof {
            assert(s@.take(i as int).push(s@[i as int]) =~= s@.take(i as int + 1));
        }
        i = i + 1;
    }
    proof {
        assert(s@.take(n as int) =~= s@);
    }
    r
}

/// First index whose key is at or above `key`, in a table sorted by key.
fn lower_bound(rows: &Vec<DBRow>, key: &[u8]) -> (idx: usize)
    requires
        table_ok(view_rows(rows@)),
    ensures
        idx <= rows@.len(),
        forall|i: int| 0 <= i < idx ==> !lex_le(key@, (#[trigger] rows@[i]).key@),
        forall|i: int| idx <= i < rows@.len() ==> lex_le(key@, (#[trigger] rows@[i]).key@),
{
    let mut lo: usize = 0;
    let mut hi: usize = rows.len();
    while lo < hi
        invariant
            lo <= hi <= rows@.len(),
            table_ok(view_rows(rows@)),
            forall|i: int| 0 <= i < lo ==> !lex_le(key@, (#[trigger] rows@[i]).key@),
            forall|i: int| hi <= i < rows@.len() ==> lex_le(key@, (#[trigger] rows@[i]).key@),
        decreases hi - lo,
    {
        let mid = lo + (hi - lo) / 2;
        let le = key_le(key, rows[mid].key.as_slice());
        if le {
            proof {
                assert forall|i: int| mid <= i < rows@.len() implies lex_le(
                    key@,
                    (#[trigger] rows@[i]).key@,
                ) by {
                    if i > mid {
                        assert(lex_lt(
                            view_rows(rows@)[mid as int].0,
                            view_rows(rows@)[i].0,
                        ));
                        lemma_lex_le_trans(key@, rows@[mid as int].key@, rows@[i].key@);
                    }
                }
            }
            hi = mid;
        } else {
            proof {
                assert forall|i: int| 0 <= i <= mid implies !lex_le(
                    key@,
                    (#[trigger] rows@[i]).key@,
                ) by {
                    if i < mid && lex_le(key@, rows@[i].key@) {
                        assert(lex_lt(view_rows(rows@)[i].0, view_rows(rows@)[mid as int].0));
                        lemma_lex_le_trans(key@, rows@[i].key@, rows@[mid as int].key@);
                    }
                }
            }
            lo = mid + 1;
        }
    }
    lo
}


/// Copies a row table into a fresh vector.
fn clone_rows(rows: &Vec<DBRow>) -> (r: Vec<DBRow>)
    ensures
        view_rows(r@) == view_rows(rows@),
{
    let mut r: Vec<DBRow> = Vec::new();
    let n = rows.len();
    let mut i: usize = 0;
    while i < n
        invariant
            n == rows@.len(),
            i <= n,
            r@.len() == i,
            forall|j: int| 0 <= j < i ==> view_rows(r@)[j] == view_rows(rows@)[j],
        decreases n - i,
    {
        let key = copy_bytes(rows[i].key.as_slice());
        let value = copy_bytes(rows[i].value.as_slice());
        r.push(DBRow { key, value });
        i = i + 1;
    }
    proof {
        assert(view_rows(r@) =~= view_rows(rows@));
    }
    r
}

/// Replaces or inserts one row, keeping the table sorted by key.
fn table_upsert(rows: &mut Vec<DBRow>, row: DBRow)
    requires
        table_ok(view_rows(old(rows)@)),
    ensures
        table_ok(view_rows(final(rows)@)),
        table_map(view_rows(final(rows)@)) == table_map(view_rows(old(rows)@)).insert(
            row.key@,
            row.value@,
        ),
{
    let ghost t0 = view_rows(rows@);
    let ghost rk = row.key@;
    let ghost rv = row.value@;
    let idx = lower_bound(rows, row.key.as_slice());
    let replace = idx < rows.len() && key_eq(rows[idx].key.as_slice(), row.key.as_slice());
    if replace {
        proof {
            assert(t0[idx as int].0 == rk);
        }
        let _replaced = rows.remove(idx);
        rows.insert(idx, row);
        proof {
            let t1 = view_rows(rows@);
            assert(rows@.len() == t0.len());
            assert(forall|j: int|
                0 <= j < rows@.len() && j != idx ==> rows@[j] == old(rows)@[j]);
            assert(t1[idx as int] == (rk, rv));
            assert forall|i: int, j: int| 0 <= i < j < t1.len() implies lex_lt(
                (#[trigger] t1[i]).0,
                (#[trigger] t1[j]).0,
            ) by {
                assert(t1[i].0 == t0[i].0);
                assert(t1[j].0 == t0[j].0);
                assert(lex_lt(t0[i].0, t0[j].0));
            }
            lemma_table_map_keys(t0);
            lemma_table_map_at(t0);
            lemma_table_map_keys(t1);
            lemma_table_map_at(t1);
            let m0 = table_map(t0);
            let m1 = table_map(t1);
            assert forall|k: Seq<u8>| #[trigger] m1.contains_key(k) implies m0.insert(
                rk,
                rv,
            ).contains_key(k) by {
                let i = choose|i: int| 0 <= i < t1.len() && (#[trigger] t1[i]).0 == k;
                assert(t0[i].0 == k);
            }
            assert forall|k: Seq<u8>| #[trigger] m0.insert(rk, rv).contains_key(k)
                implies m1.contains_key(k) by {
                if k == rk {
                    assert(t1[idx as int].0 == k);
                } else {
                    let i = choose|i: int| 0 <= i < t0.len() && (#[trigger] t0[i]).0 == k;
                    assert(t1[i].0 == k);
                }
            }
            assert forall|k: Seq<u8>| #[trigger] m1.contains_key(k) implies m1[k] == m0.insert(
                rk,
                rv,
            )[k] by {
                if k == rk {
                    assert(m1[t1[idx as int].0] == t1[idx as int].1);
                } else {
                    let i = choose|i: int| 0 <= i < t1.len() && (#[trigger] t1[i]).0 == k;
                    assert(i != idx);
                    assert(m1[t1[i].0] == t1[i].1);
                    assert(t0[i] == t1[i]);
                    assert(m0[t0[i].0] == t0[i].1);
                }
            }
            assert(m1 =~= m0.insert(rk, rv));
        }
    } else {
        proof {
            assert forall|i: int| 0 <= i < idx implies lex_lt((#[trigger] t0[i]).0, rk) by {
                crate::order::lemma_lex_not_le(rk, t0[i].0);
            }
            assert forall|i: int| idx <= i < t0.len() implies lex_lt(rk, (#[trigger] t0[i]).0) by {
                assert(lex_le(rk, t0[idx as int].0));
                assert(rk != t0[idx as int].0);
                if i > idx {
                    assert(lex_lt(t0[idx as int].0, t0[i].0));
                    crate::order::lemma_lex_lt_trans(rk, t0[idx as int].0, t0[i].0);
                }
            }
        }
        rows.insert(idx, row);
        proof {
            let t1 = view_rows(rows@);
            assert(rows@.len() == t0.len() + 1);
            assert(forall|j: int| 0 <= j < idx ==> rows@[j] == old(rows)@[j]);
            assert(forall|j: int| idx < j < rows@.len() ==> rows@[j] == old(rows)@[j - 1]);
            assert(t1[idx as int] == (rk, rv));
            assert forall|i: int, j: int| 0 <= i < j < t1.len() implies lex_lt(
                (#[trigger] t1[i]).0,
                (#[trigger] t1[j]).0,
            ) by {
                if i < idx && j < idx {
                    assert(lex_lt(t0[i].0, t0[j].0));
                } else if i < idx && j == idx {
                    assert(lex_lt(t0[i].0, rk));
                } else if i < idx && j > idx {
                    assert(lex_lt(t0[i].0, t0[j - 1].0));
                } else if i == idx {
                    assert(lex_lt(rk, t0[j - 1].0));
                } else {
                    assert(lex_lt(t0[i - 1].0, t0[j - 1].0));
                }
            }
            lemma_table_map_keys(t0);
            lemma_table_map_at(t0);
            lemma_table_map_keys(t1);
            lemma_table_map_at(t1);
            let m0 = table_map(t0);
            let m1 = table_map(t1);
            assert forall|k: Seq<u8>| #[trigger] m1.contains_key(k) implies m0.insert(
                rk,
                rv,
            ).contains_key(k) by {
                let i = choose|i: int| 0 <= i < t1.len() && (#[trigger] t1[i]).0 == k;
                if i < idx {
                    assert(t0[i].0 == k);
                } else if i > idx {
                    assert(t0[i - 1].0 == k);
                }
            }
            assert forall|k: Seq<u8>| #[trigger] m0.insert(rk, rv).contains_key(k)
                implies m1.contains_key(k) by {
                if k == rk {
                    assert(t1[idx as int].0 == k);
                } else {
                    let i = choose|i: int| 0 <= i < t0.len() && (#[trigger] t0[i]).0 == k;
                    if i < idx {
                        assert(t1[i].0 == k);
                    } else {
                        assert(t1[i + 1].0 == k);
                    }
                }
            }
            assert forall|k: Seq<u8>| #[trigger] m1.contains_key(k) implies m1[k] == m0.insert(
                rk,
                rv,
            )[k] by {
                if k == rk {
                    assert(m1[t1[idx as int].0] == t1[idx as int].1);
                } else {
                    let i = choose|i: int| 0 <= i < t1.len() && (#[trigger] t1[i]).0 == k;
                    assert(i != idx);
                    assert(m1[t1[i].0] == t1[i].1);
                    if i < idx {
                        assert(t0[i] == t1[i]);
                        assert(m0[t0[i].0] == t0[i].1);
                    } else {
                        assert(t0[i - 1] == t1[i]);
                        assert(m0[t0[i - 1].0] == t0[i - 1].1);
                    }
                }
            }
            assert(m1 =~= m0.insert(rk, rv));
        }
    }
}


/// Fixed on-disk schema version, recorded in the compatibility marker.
pub const DB_VERSION: u32 = 1;

/// The reserved sentinel key that holds the compatibility marker.
pub open spec fn marker_key() -> Seq<u8> {
    seq![86u8]
}

/// Little-endian bytes of the fixed-width version number.
pub open spec fn version_le_bytes(v: u32) -> Seq<u8> {
    seq![
        (v & 0xff) as u8,
        ((v >> 8) & 0xff) as u8,
        ((v >> 16) & 0xff) as u8,
        ((v >> 24) & 0xff) as u8,
    ]
}

/// The expected marker value: the version bytes, plus one extra byte exactly
/// when light mode was active when the directory was first used.
pub open spec fn marker_bytes(light: bool) -> Seq<u8> {
    if light {
        version_le_bytes(DB_VERSION).push(1u8)
    } else {
        version_le_bytes(DB_VERSION)
    }
}

/// The map held by the rows handed to `open`, `Map::empty()` for a fresh
/// directory.
pub open spec fn stored_map(stored: Option<Vec<DBRow>>) -> Map<Seq<u8>, Seq<u8>> {
    match stored {
        Option::Some(rs) => table_map(view_rows(rs@)),
        Option::None => Map::empty(),
    }
}

/// The sentinel key as bytes.
fn marker_key_bytes() -> (r: Vec<u8>)
    ensures
        r@ == marker_key(),
{
    let mut r: Vec<u8> = Vec::new();
    r.push(86);
    proof {
        assert(r@ =~= marker_key());
    }
    r
}

/// The expected marker value for this binary under the given mode.
fn compatibility_bytes(light: bool) -> (r: Vec<u8>)
    ensures
        r@ == marker_bytes(light),
{
    let mut r: Vec<u8> = Vec::new();
    r.push((DB_VERSION & 0xff) as u8);
    r.push(((DB_VERSION >> 8) & 0xff) as u8);
    r.push(((DB_VERSION >> 16) & 0xff) as u8);
    r.push(((DB_VERSION >> 24) & 0xff) as u8);
    if light {
        r.push(1);
    }
    proof {
        assert(r@ =~= marker_bytes(light));
    }
    r
}

/// The storage handle: one open engine over one logical directory.
///
/// `rows` is the visible table (what reads in this process observe);
/// `persisted` is the durable table (what survives a restart). Both are kept
/// strictly sorted by key.
pub struct DB {
    rows: Vec<DBRow>,
    persisted: Vec<DBRow>,
    read_only_mode: bool,
    light_mode: bool,
    auto_compaction: bool,
    db_opts: DBOptions,
}

impl DB {
    /// The visible table, as (key, value) byte sequences.
    pub closed spec fn tbl(self) -> Seq<(Seq<u8>, Seq<u8>)> {
        view_rows(self.rows@)
    }

    /// The durable table, as (key, value) byte sequences.
    pub closed spec fn ptbl(self) -> Seq<(Seq<u8>, Seq<u8>)> {
        view_rows(self.persisted@)
    }

    /// Everything a read in this process observes.
    pub open spec fn contents(self) -> Map<Seq<u8>, Seq<u8>> {
        table_map(self.tbl())
    }

    /// Everything that survives a restart.
    pub open spec fn durable(self) -> Map<Seq<u8>, Seq<u8>> {
        table_map(self.ptbl())
    }

    pub closed spec fn read_only(self) -> bool {
        self.read_only_mode
    }

    pub closed spec fn light(self) -> bool {
        self.light_mode
    }

    pub closed spec fn auto_compaction_on(self) -> bool {
        self.auto_compaction
    }

    pub open spec fn wf(self) -> bool {
        table_ok(self.tbl()) && table_ok(self.ptbl())
    }

    /// Mode and tuning do not change over a handle's lifetime.
    pub open spec fn same_mode(self, other: DB) -> bool {
        self.read_only() == other.read_only() && self.light() == other.light()
    }

    /// Point lookup; an absent key yields nothing, never an error.
    pub fn get(&self, key: &[u8]) -> (r: Option<Vec<u8>>)
        requires
            self.wf(),
        ensures
            match r {
                Option::Some(v) => self.contents().contains_key(key@) && v@ == self.contents()[
                    key@],
                Option::None => !self.contents().contains_key(key@),
            },
    {
        let idx = lower_bound(&self.rows, key);
        if idx < self.rows.len() && key_eq(self.rows[idx].key.as_slice(), key) {
            proof {
                lemma_table_map_at(self.tbl());
                assert(self.tbl()[idx as int].0 == key@);
            }
            Option::Some(copy_bytes(self.rows[idx].value.as_slice()))
        } else {
            proof {
                lemma_table_map_keys(self.tbl());
                if self.contents().contains_key(key@) {
                    let i = choose|i: int|
                        0 <= i < self.tbl().len() && (#[trigger] self.tbl()[i]).0 == key@;
                    if i < idx {
                        lemma_lex_le_refl(key@);
                    } else {
                        assert(lex_le(key@, self.rows@[idx as int].key@));
                        if i > idx {
                            assert(lex_lt(self.tbl()[idx as int].0, self.tbl()[i].0));
                            crate::order::lemma_lex_le_lt_trans(
                                key@,
                                self.tbl()[idx as int].0,
                                self.tbl()[i].0,
                            );
                        }
                    }
                }
            }
            Option::None
        }
    }

    /// Asynchronous-durability write of one row; a no-op when read-only.
    pub fn put(&mut self, key: &[u8], value: &[u8])
        requires
            old(self).wf(),
        ensures
            final(self).wf(),
            final(self).same_mode(*old(self)),
            final(self).auto_compaction_on() == old(self).auto_compaction_on(),
            final(self).durable() == old(self).durable(),
            old(self).read_only() ==> final(self).contents() == old(self).contents(),
            !old(self).read_only() ==> final(self).contents() == old(self).contents().insert(
                key@,
                value@,
            ),
    {
        if self.read_only_mode {
            return ;
        }
        let row = DBRow { key: copy_bytes(key), value: copy_bytes(value) };
        table_upsert(&mut self.rows, row);
    }

    /// Durable write of one row, fsynced before returning; reserved for
    /// critical markers. A no-op when read-only.
    pub fn put_sync(&mut self, key: &[u8], value: &[u8])
        requires
            old(self).wf(),
        ensures
            final(self).wf(),
            final(self).same_mode(*old(self)),
            final(self).auto_compaction_on() == old(self).auto_compaction_on(),
            old(self).read_only() ==> final(self).contents() == old(self).contents() && final(self).durable() == old(self).durable(),
            !old(self).read_only() ==> final(self).contents() == old(self).contents().insert(
                key@,
                value@,
            ) && final(self).durable() == old(self).durable().insert(key@, value@),
    {
        if self.read_only_mode {
            return ;
        }
        let row = DBRow { key: copy_bytes(key), value: copy_bytes(value) };
        table_upsert(&mut self.rows, row);
        let row2 = DBRow { key: copy_bytes(key), value: copy_bytes(value) };
        table_upsert(&mut self.persisted, row2);
    }

    /// Commits an unordered batch of rows as one atomic unit. `flush`
    /// selects the durable policy (write-ahead log plus fsync) or the fast
    /// one (memory only) for this batch alone. A no-op when read-only.
    pub fn write(&mut self, rows: Vec<DBRow>, flush: DBFlush)
        requires
            old(self).wf(),
        ensures
            final(self).wf(),
            final(self).same_mode(*old(self)),
            final(self).auto_compaction_on() == old(self).auto_compaction_on(),
            old(self).read_only() ==> final(self).contents() == old(self).contents() && final(self).durable() == old(self).durable(),
            !old(self).read_only() ==> final(self).contents() == old(self).contents().union_prefer_right(table_map(view_rows(rows@))),
            !old(self).read_only() && flush is Enable ==> final(self).durable() == old(self).durable().union_prefer_right(table_map(view_rows(rows@))),
            !old(self).read_only() && flush is Disable ==> final(self).durable() == old(self).durable(),
    {
        if self.read_only_mode {
            return ;
        }
        let do_flush = match flush {
            DBFlush::Enable => true,
            DBFlush::Disable => false,
        };
        let ghost c0 = self.contents();
        let ghost d0 = self.durable();
        let n = rows.len();
        let mut i: usize = 0;
        proof {
            assert(view_rows(rows@.take(0)) =~= Seq::<(Seq<u8>, Seq<u8>)>::empty());
            assert(c0.union_prefer_right(table_map(view_rows(rows@.take(0)))) =~= c0);
            assert(d0.union_prefer_right(table_map(view_rows(rows@.take(0)))) =~= d0);
        }
        while i < n
            invariant
                i <= n,
                n == rows@.len(),
                self.wf(),
                self.read_only_mode == old(self).read_only_mode,
                self.light_mode == old(self).light_mode,
                self.auto_compaction == old(self).auto_compaction,
                self.contents() == c0.union_prefer_right(table_map(view_rows(rows@.take(i as int)))),
                do_flush ==> self.durable() == d0.union_prefer_right(
                    table_map(view_rows(rows@.take(i as int))),
                ),
                !do_flush ==> self.durable() == d0,
            decreases n - i,
        {
            let ghost bi = table_map(view_rows(rows@.take(i as int)));
            let row = DBRow {
                key: copy_bytes(rows[i].key.as_slice()),
                value: copy_bytes(rows[i].value.as_slice()),
            };
            let ghost rk = row.key@;
            let ghost rv = row.value@;
            table_upsert(&mut self.rows, row);
            if do_flush {
                let row2 = DBRow {
                    key: copy_bytes(rows[i].key.as_slice()),
                    value: copy_bytes(rows[i].value.as_slice()),
                };
                table_upsert(&mut self.persisted, row2);
            }
            proof {
                let tnext = view_rows(rows@.take(i as int + 1));
                assert(tnext.drop_last() =~= view_rows(rows@.take(i as int)));
                assert(tnext.last() == (rk, rv));
                assert(table_map(tnext) == bi.insert(rk, rv));
                assert(c0.union_prefer_right(bi.insert(rk, rv)) =~= c0.union_prefer_right(
                    bi,
                ).insert(rk, rv));
                if do_flush {
                    assert(d0.union_prefer_right(bi.insert(rk, rv)) =~= d0.union_prefer_right(
                        bi,
                    ).insert(rk, rv));
                }
            }
            i = i + 1;
        }
        proof {
            assert(rows@.take(n as int) =~= rows@);
        }
    }

    /// Forces buffered in-memory writes to the backing files; a no-op when
    /// read-only.
    pub fn flush(&mut self)
        requires
            old(self).wf(),
        ensures
            final(self).wf(),
            final(self).same_mode(*old(self)),
            final(self).auto_compaction_on() == old(self).auto_compaction_on(),
            final(self).contents() == old(self).contents(),
            old(self).read_only() ==> final(self).durable() == old(self).durable(),
            !old(self).read_only() ==> final(self).durable() == old(self).contents(),
    {
        if self.read_only_mode {
            return ;
        }
        self.persisted = clone_rows(&self.rows);
    }

    /// Synchronously collapses the whole key range across all storage
    /// levels, persisting any buffered writes on the way; intended for the
    /// end of a bulk-load phase that ran with background compaction
    /// disabled. A no-op when read-only.
    pub fn full_compaction(&mut self)
        requires
            old(self).wf(),
        ensures
            final(self).wf(),
            final(self).same_mode(*old(self)),
            final(self).auto_compaction_on() == old(self).auto_compaction_on(),
            final(self).contents() == old(self).contents(),
            old(self).read_only() ==> final(self).durable() == old(self).durable(),
            !old(self).read_only() ==> final(self).durable() == old(self).contents(),
    {
        if self.read_only_mode {
            return ;
        }
        self.persisted = clone_rows(&self.rows);
    }

    /// Re-enables background compaction after a bulk-load phase; a no-op
    /// when read-only.
    pub fn enable_auto_compaction(&mut self)
        requires
            old(self).wf(),
        ensures
            final(self).wf(),
            final(self).same_mode(*old(self)),
            final(self).contents() == old(self).contents(),
            final(self).durable() == old(self).durable(),
            old(self).read_only() ==> final(self).auto_compaction_on() == old(self).auto_compaction_on(),
            !old(self).read_only() ==> final(self).auto_compaction_on(),
    {
        if self.read_only_mode {
            return ;
        }
        self.auto_compaction = true;
    }

    /// Checks the stored compatibility marker against this binary's
    /// expectation, writing it on first use of a directory. A mismatch is
    /// fatal for the directory: it must be abandoned and reindexed.
    fn verify_compatibility(&mut self) -> (r: Result<(), DBError>)
        requires
            old(self).wf(),
        ensures
            final(self).wf(),
            final(self).same_mode(*old(self)),
            final(self).auto_compaction_on() == old(self).auto_compaction_on(),
            r is Err <==> old(self).contents().contains_key(marker_key())
                && old(self).contents()[marker_key()] != marker_bytes(old(self).light()),
            r is Err ==> r == Result::<(), DBError>::Err(DBError::Incompatible) && final(self).contents() == old(self).contents() && final(self).durable() == old(self).durable(),
            r is Ok && old(self).contents().contains_key(marker_key()) ==> final(self).contents()
                == old(self).contents() && final(self).durable() == old(self).durable(),
            r is Ok && !old(self).contents().contains_key(marker_key()) && !old(self).read_only()
                ==> final(self).contents() == old(self).contents().insert(
                marker_key(),
                marker_bytes(old(self).light()),
            ) && final(self).durable() == old(self).durable().insert(
                marker_key(),
                marker_bytes(old(self).light()),
            ),
            r is Ok && !old(self).contents().contains_key(marker_key()) && old(self).read_only()
                ==> final(self).contents() == old(self).contents() && final(self).durable() == old(self).durable(),
    {
        let expected = compatibility_bytes(self.light_mode);
        let mk = marker_key_bytes();
        let cur = self.get(mk.as_slice());
        match cur {
            Option::None => {
                self.put_sync(mk.as_slice(), expected.as_slice());
                Result::Ok(())
            },
            Option::Some(x) => {
                if key_eq(x.as_slice(), expected.as_slice()) {
                    Result::Ok(())
                } else {
                    Result::Err(DBError::Incompatible)
                }
            },
        }
    }

    /// Opens a data directory, given the rows that survive in it, or
    /// nothing when the directory is absent. A missing directory is created
    /// only in writable mode; a present marker must match the opening
    /// config, and an absent one is written (first use).
    pub fn open(stored: Option<Vec<DBRow>>, config: &Config) -> (r: Result<DB, DBError>)
        ensures
            r is Err ==> (r == Result::<DB, DBError>::Err(DBError::OpenFailed)
                && config.read_only && stored is None) || (r == Result::<DB, DBError>::Err(
                DBError::Incompatible,
            ) && stored_map(stored).contains_key(marker_key()) && stored_map(stored)[marker_key()]
                != marker_bytes(config.light_mode)),
            config.read_only && stored is None ==> r == Result::<DB, DBError>::Err(
                DBError::OpenFailed,
            ),
            stored_map(stored).contains_key(marker_key()) && stored_map(stored)[marker_key()]
                != marker_bytes(config.light_mode) && !(config.read_only && stored is None) ==> r
                == Result::<DB, DBError>::Err(DBError::Incompatible),
            r matches Result::Ok(db) ==> db.wf() && db.read_only() == config.read_only
                && db.light() == config.light_mode && !db.auto_compaction_on(),
            r matches Result::Ok(db) ==> (stored_map(stored).contains_key(marker_key())
                ==> db.contents() == stored_map(stored) && db.durable() == stored_map(stored)
                && stored_map(stored)[marker_key()] == marker_bytes(config.light_mode)),
            r matches Result::Ok(db) ==> (!stored_map(stored).contains_key(marker_key())
                && !config.read_only ==> db.contents() == stored_map(stored).insert(
                marker_key(),
                marker_bytes(config.light_mode),
            ) && db.durable() == db.contents()),
            r matches Result::Ok(db) ==> (!stored_map(stored).contains_key(marker_key())
                && config.read_only ==> db.contents() == stored_map(stored) && db.durable()
                == db.contents()),
    {
        let db_opts = build_db_options(config);
        match stored {
            Option::None => {
                if !db_opts.create_if_missing {
                    return Result::Err(DBError::OpenFailed);
                }
                let mut db = DB {
                    rows: Vec::new(),
                    persisted: Vec::new(),
                    read_only_mode: config.read_only,
                    light_mode: config.light_mode,
                    auto_compaction: !db_opts.disable_auto_compactions,
                    db_opts,
                };
                proof {
                    assert(db.tbl() =~= Seq::<(Seq<u8>, Seq<u8>)>::empty());
                    assert(db.ptbl() =~= Seq::<(Seq<u8>, Seq<u8>)>::empty());
                }
                match db.verify_compatibility() {
                    Result::Ok(()) => Result::Ok(db),
                    Result::Err(e) => {
                        proof {
                            assert(false);
                        }
                        Result::Err(e)
                    },
                }
            },
            Option::Some(rs) => {
                let mut db = DB {
                    rows: Vec::new(),
                    persisted: Vec::new(),
                    read_only_mode: config.read_only,
                    light_mode: config.light_mode,
                    auto_compaction: !db_opts.disable_auto_compactions,
                    db_opts,
                };
                proof {
                    assert(db.tbl() =~= Seq::<(Seq<u8>, Seq<u8>)>::empty());
                    assert(db.ptbl() =~= Seq::<(Seq<u8>, Seq<u8>)>::empty());
                    assert(view_rows(rs@.take(0)) =~= Seq::<(Seq<u8>, Seq<u8>)>::empty());
                }
                let n = rs.len();
                let mut i: usize = 0;
                while i < n
                    invariant
                        i <= n,
                        n == rs@.len(),
                        table_ok(view_rows(db.rows@)),
                        db.persisted@.len() == 0,
                        table_map(view_rows(db.rows@)) == table_map(view_rows(rs@.take(i as int))),
                        db.read_only_mode == config.read_only,
                        db.light_mode == config.light_mode,
                        db.auto_compaction == false,
                    decreases n - i,
                {
                    let ghost bi = table_map(view_rows(rs@.take(i as int)));
                    let row = DBRow {
                        key: copy_bytes(rs[i].key.as_slice()),
                        value: copy_bytes(rs[i].value.as_slice()),
                    };
                    let ghost rk = row.key@;
                    let ghost rv = row.value@;
                    table_upsert(&mut db.rows, row);
                    proof {
                        let tnext = view_rows(rs@.take(i as int + 1));
                        assert(tnext.drop_last() =~= view_rows(rs@.take(i as int)));
                        assert(tnext.last() == (rk, rv));
                        assert(table_map(tnext) == bi.insert(rk, rv));
                    }
                    i = i + 1;
                }
                proof {
                    assert(rs@.take(n as int) =~= rs@);
                }
                db.persisted = clone_rows(&db.rows);
                match db.verify_compatibility() {
                    Result::Ok(()) => Result::Ok(db),
                    Result::Err(e) => Result::Err(e),
                }
            },
        }
    }

    /// Closes and reopens the same directory with the same tuning. Every
    /// committed row remains readable: only cached state held by the
    /// previous handle is discarded, and the clean close persists any
    /// buffered writes on the way (a read-only handle has none and emits no
    /// write). The compatibility marker is re-verified after reopening.
    pub fn reopen(&mut self) -> (r: Result<(), DBError>)
        requires
            old(self).wf(),
        ensures
            final(self).wf(),
            final(self).same_mode(*old(self)),
            final(self).auto_compaction_on() == old(self).auto_compaction_on(),
            r is Err <==> old(self).contents().contains_key(marker_key()) && old(self).contents()[
                marker_key()] != marker_bytes(old(self).light()),
            r is Err ==> r == Result::<(), DBError>::Err(DBError::Incompatible) && final(self).contents() == old(self).contents(),
            r is Ok && old(self).contents().contains_key(marker_key()) ==> final(self).contents()
                == old(self).contents(),
            r is Ok && !old(self).contents().contains_key(marker_key()) && !old(self).read_only()
                ==> final(self).contents() == old(self).contents().insert(
                marker_key(),
                marker_bytes(old(self).light()),
            ),
            r is Ok && !old(self).contents().contains_key(marker_key()) && old(self).read_only()
                ==> final(self).contents() == old(self).contents(),
            !old(self).read_only() ==> final(self).durable() == final(self).contents(),
            old(self).read_only() ==> final(self).durable() == old(self).durable(),
    {
        if !self.read_only_mode {
            self.persisted = clone_rows(&self.rows);
        }
        self.verify_compatibility()
    }

    /// The rows that would survive a restart, for the embedding process to
    /// hand back to a later `open`.
    pub fn persisted_rows(&self) -> (r: Vec<DBRow>)
        requires
            self.wf(),
        ensures
            view_rows(r@) == self.ptbl(),
            table_ok(view_rows(r@)),
            table_map(view_rows(r@)) == self.durable(),
    {
        clone_rows(&self.persisted)
    }
}


/// The rows a prefix-bounded cursor yields from stream `s`: the longest
/// leading run whose keys all start with `p`.
pub open spec fn prefix_run(s: Seq<(Seq<u8>, Seq<u8>)>, p: Seq<u8>) -> Seq<(Seq<u8>, Seq<u8>)>
    decreases s.len(),
{
    if s.len() == 0 {
        Seq::empty()
    } else if has_prefix(s[0].0, p) {
        seq![s[0]] + prefix_run(s.drop_first(), p)
    } else {
        Seq::empty()
    }
}

/// The run is a leading slice of the stream and every yielded key matches.
pub proof fn lemma_prefix_run_sub(s: Seq<(Seq<u8>, Seq<u8>)>, p: Seq<u8>)
    ensures
        prefix_run(s, p).len() <= s.len(),
        forall|i: int|
            0 <= i < prefix_run(s, p).len() ==> #[trigger] prefix_run(s, p)[i] == s[i]
                && has_prefix(s[i].0, p),
    decreases s.len(),
{
    if s.len() > 0 && has_prefix(s[0].0, p) {
        lemma_prefix_run_sub(s.drop_first(), p);
        assert forall|i: int| 0 <= i < prefix_run(s, p).len() implies #[trigger] prefix_run(s, p)[i]
            == s[i] && has_prefix(s[i].0, p) by {
            if i >= 1 {
                assert(prefix_run(s, p)[i] == prefix_run(s.drop_first(), p)[i - 1]);
                assert(s.drop_first()[i - 1] == s[i]);
            }
        }
    }
}

/// In an ascending stream whose keys all lie at or above `p`, the run
/// covers every matching row: nothing under the prefix is skipped.
pub proof fn lemma_prefix_run_complete_asc(s: Seq<(Seq<u8>, Seq<u8>)>, p: Seq<u8>)
    requires
        table_ok(s),
        forall|i: int| 0 <= i < s.len() ==> lex_le(p, (#[trigger] s[i]).0),
    ensures
        forall|i: int|
            0 <= i < s.len() && has_prefix((#[trigger] s[i]).0, p) ==> i < prefix_run(s, p).len(),
    decreases s.len(),
{
    if s.len() == 0 {
    } else if has_prefix(s[0].0, p) {
        assert(forall|i: int| 0 <= i < s.drop_first().len() ==> #[trigger] s.drop_first()[i] == s[i
            + 1]);
        assert(table_ok(s.drop_first()));
        lemma_prefix_run_complete_asc(s.drop_first(), p);
        assert forall|i: int| 0 <= i < s.len() && has_prefix((#[trigger] s[i]).0, p) implies i
            < prefix_run(s, p).len() by {
            if i >= 1 {
                assert(s.drop_first()[i - 1] == s[i]);
                assert(i - 1 < prefix_run(s.drop_first(), p).len());
            }
        }
    } else {
        assert forall|i: int| 0 <= i < s.len() && has_prefix((#[trigger] s[i]).0, p) implies i
            < prefix_run(s, p).len() by {
            if i == 0 {
                assert(false);
            } else {
                crate::order::lemma_prefix_gap(p, s[0].0, s[i].0);
                assert(lex_lt(s[0].0, s[i].0));
                crate::order::lemma_lex_lt_trans(s[i].0, s[0].0, s[i].0);
                assert(false);
            }
        }
    }
}

/// In a descending stream bounded above by a key `mx` that itself matches
/// `p`, the run covers every matching row.
pub proof fn lemma_prefix_run_complete_desc(s: Seq<(Seq<u8>, Seq<u8>)>, p: Seq<u8>, mx: Seq<u8>)
    requires
        forall|i: int, j: int|
            0 <= i < j < s.len() ==> lex_lt((#[trigger] s[j]).0, (#[trigger] s[i]).0),
        forall|i: int| 0 <= i < s.len() ==> lex_le((#[trigger] s[i]).0, mx),
        has_prefix(mx, p),
    ensures
        forall|i: int|
            0 <= i < s.len() && has_prefix((#[trigger] s[i]).0, p) ==> i < prefix_run(s, p).len(),
    decreases s.len(),
{
    if s.len() == 0 {
    } else if has_prefix(s[0].0, p) {
        assert(forall|i: int| 0 <= i < s.drop_first().len() ==> #[trigger] s.drop_first()[i] == s[i
            + 1]);
        lemma_prefix_run_complete_desc(s.drop_first(), p, mx);
        assert forall|i: int| 0 <= i < s.len() && has_prefix((#[trigger] s[i]).0, p) implies i
            < prefix_run(s, p).len() by {
            if i >= 1 {
                assert(s.drop_first()[i - 1] == s[i]);
                assert(i - 1 < prefix_run(s.drop_first(), p).len());
            }
        }
    } else {
        assert(!lex_le(p, s[0].0)) by {
            if lex_le(p, s[0].0) {
                crate::order::lemma_prefix_gap(p, s[0].0, mx);
                crate::order::lemma_lex_le_antisym(s[0].0, mx);
            }
        }
        crate::order::lemma_lex_not_le(p, s[0].0);
        assert forall|i: int| 0 <= i < s.len() && has_prefix((#[trigger] s[i]).0, p) implies i
            < prefix_run(s, p).len() by {
            if i >= 1 {
                crate::order::lemma_prefix_ge(s[i].0, p);
                assert(lex_lt(s[i].0, s[0].0));
                crate::order::lemma_lex_le_lt_trans(p, s[i].0, s[0].0);
                crate::order::lemma_lex_lt_trans(p, s[0].0, p);
            }
        }
    }
}

/// A forward, prefix-bounded, one-shot cursor over a storage handle.
///
/// The cursor is a two-state machine: while active it walks the table
/// forward; once it sees a key outside the prefix, or the end of the table,
/// it latches done and yields nothing ever after.
pub struct ScanIterator<'a> {
    db: &'a DB,
    prefix: Vec<u8>,
    pos: usize,
    done: bool,
}

impl<'a> ScanIterator<'a> {
    /// The handle this cursor reads.
    pub closed spec fn db_spec(self) -> DB {
        *self.db
    }

    /// The requested prefix.
    pub closed spec fn prefix_spec(self) -> Seq<u8> {
        self.prefix@
    }

    pub closed spec fn wf(self) -> bool {
        self.db.wf() && self.pos as int <= self.db.tbl().len()
    }

    /// The rows still to be yielded, in order.
    pub closed spec fn remaining(self) -> Seq<(Seq<u8>, Seq<u8>)> {
        if self.done {
            Seq::empty()
        } else {
            prefix_run(self.db.tbl().skip(self.pos as int), self.prefix@)
        }
    }

    /// One step: yields the next row under the prefix, or nothing once the
    /// cursor is exhausted (and then forever).
    pub fn next(&mut self) -> (r: Option<DBRow>)
        requires
            old(self).wf(),
        ensures
            final(self).wf(),
            final(self).db_spec() == old(self).db_spec(),
            final(self).prefix_spec() == old(self).prefix_spec(),
            old(self).remaining().len() == 0 ==> r is None && final(self).remaining().len() == 0,
            old(self).remaining().len() > 0 ==> (r matches Option::Some(row) && (row.key@,
            row.value@) == old(self).remaining()[0] && final(self).remaining() == old(
                self,
            ).remaining().drop_first()),
    {
        if self.done {
            return Option::None;
        }
        if self.pos >= self.db.rows.len() {
            proof {
                assert(self.db.tbl().skip(self.pos as int).len() == 0);
            }
            return Option::None;
        }
        let ghost srest = self.db.tbl().skip(self.pos as int);
        proof {
            assert(srest[0] == self.db.tbl()[self.pos as int]);
        }
        let row = &self.db.rows[self.pos];
        if !crate::order::starts_with_bytes(row.key.as_slice(), self.prefix.as_slice()) {
            self.done = true;
            proof {
                assert(!has_prefix(srest[0].0, self.prefix@));
            }
            return Option::None;
        }
        let out = DBRow {
            key: copy_bytes(row.key.as_slice()),
            value: copy_bytes(row.value.as_slice()),
        };
        self.pos = self.pos + 1;
        proof {
            assert(srest.drop_first() =~= self.db.tbl().skip(self.pos as int));
            assert(prefix_run(srest, self.prefix@) == seq![srest[0]] + prefix_run(
                srest.drop_first(),
                self.prefix@,
            ));
            assert(prefix_run(srest, self.prefix@).drop_first() =~= prefix_run(
                srest.drop_first(),
                self.prefix@,
            ));
        }
        Option::Some(out)
    }
}

/// A backward, prefix-bounded, upper-bounded, one-shot cursor.
///
/// Walks the table downward from the greatest key at or below the requested
/// upper bound; once it sees a key outside the prefix it latches done.
pub struct ReverseScanIterator<'a> {
    db: &'a DB,
    prefix: Vec<u8>,
    /// One past the current row; zero when the position is invalid.
    pos: usize,
    done: bool,
}

impl<'a> ReverseScanIterator<'a> {
    /// The handle this cursor reads.
    pub closed spec fn db_spec(self) -> DB {
        *self.db
    }

    /// The requested prefix.
    pub closed spec fn prefix_spec(self) -> Seq<u8> {
        self.prefix@
    }

    pub closed spec fn wf(self) -> bool {
        self.db.wf() && self.pos as int <= self.db.tbl().len()
    }

    /// The rows still to be yielded, in descending key order.
    pub closed spec fn remaining(self) -> Seq<(Seq<u8>, Seq<u8>)> {
        if self.done {
            Seq::empty()
        } else {
            prefix_run(self.db.tbl().take(self.pos as int).reverse(), self.prefix@)
        }
    }

    /// One step: yields the next row under the prefix moving backward, or
    /// nothing once the cursor is exhausted (and then forever).
    pub fn next(&mut self) -> (r: Option<DBRow>)
        requires
            old(self).wf(),
        ensures
            final(self).wf(),
            final(self).db_spec() == old(self).db_spec(),
            final(self).prefix_spec() == old(self).prefix_spec(),
            old(self).remaining().len() == 0 ==> r is None && final(self).remaining().len() == 0,
            old(self).remaining().len() > 0 ==> (r matches Option::Some(row) && (row.key@,
            row.value@) == old(self).remaining()[0] && final(self).remaining() == old(
                self,
            ).remaining().drop_first()),
    {
        if self.done {
            return Option::None;
        }
        if self.pos == 0 {
            proof {
                assert(self.db.tbl().take(0).reverse().len() == 0);
            }
            return Option::None;
        }
        let ghost srev = self.db.tbl().take(self.pos as int).reverse();
        proof {
            assert(srev[0] == self.db.tbl()[self.pos as int - 1]);
        }
        let row = &self.db.rows[self.pos - 1];
        if !crate::order::starts_with_bytes(row.key.as_slice(), self.prefix.as_slice()) {
            self.done = true;
            proof {
                assert(!has_prefix(srev[0].0, self.prefix@));
            }
            return Option::None;
        }
        let out = DBRow {
            key: copy_bytes(row.key.as_slice()),
            value: copy_bytes(row.value.as_slice()),
        };
        self.pos = self.pos - 1;
        proof {
            assert(srev.drop_first() =~= self.db.tbl().take(self.pos as int).reverse());
            assert(prefix_run(srev, self.prefix@) == seq![srev[0]] + prefix_run(
                srev.drop_first(),
                self.prefix@,
            ));
            assert(prefix_run(srev, self.prefix@).drop_first() =~= prefix_run(
                srev.drop_first(),
                self.prefix@,
            ));
        }
        Option::Some(out)
    }
}


impl DB {
    /// Forward prefix scan: a cursor over every stored row whose key starts
    /// with `prefix`, in strictly ascending key order, skipping none.
    pub fn iter_scan<'a>(&'a self, prefix: &[u8]) -> (it: ScanIterator<'a>)
        requires
            self.wf(),
        ensures
            it.wf(),
            it.db_spec() == *self,
            it.prefix_spec() == prefix@,
            table_ok(it.remaining()),
            forall|i: int|
                0 <= i < it.remaining().len() ==> has_prefix(
                    (#[trigger] it.remaining()[i]).0,
                    prefix@,
                ) && self.contents().contains_pair(it.remaining()[i].0, it.remaining()[i].1),
            forall|k: Seq<u8>, v: Seq<u8>|
                #[trigger] self.contents().contains_pair(k, v) && has_prefix(k, prefix@)
                    ==> it.remaining().contains((k, v)),
    {
        let pos = lower_bound(&self.rows, prefix);
        let it = ScanIterator { db: self, prefix: copy_bytes(prefix), pos, done: false };
        proof {
            let t = self.tbl();
            let p = prefix@;
            let srest = t.skip(pos as int);
            assert(forall|i: int|
                0 <= i < t.len() ==> #[trigger] t[i] == (self.rows@[i].key@, self.rows@[i].value@));
            assert(forall|i: int| 0 <= i < srest.len() ==> #[trigger] srest[i] == t[pos + i]);
            assert forall|i: int, j: int| 0 <= i < j < srest.len() implies lex_lt(
                (#[trigger] srest[i]).0,
                (#[trigger] srest[j]).0,
            ) by {
                assert(lex_lt(t[pos + i].0, t[pos + j].0));
            }
            assert forall|i: int| 0 <= i < srest.len() implies lex_le(
                p,
                (#[trigger] srest[i]).0,
            ) by {
                assert(lex_le(p, (#[trigger] self.rows@[pos + i]).key@));
                assert(srest[i].0 == self.rows@[pos + i].key@);
            }
            lemma_prefix_run_sub(srest, p);
            lemma_table_map_at(t);
            lemma_table_map_keys(t);
            lemma_table_map_pairs(t);
            let rem = it.remaining();
            assert(rem == prefix_run(srest, p));
            assert forall|i: int, j: int| 0 <= i < j < rem.len() implies lex_lt(
                (#[trigger] rem[i]).0,
                (#[trigger] rem[j]).0,
            ) by {
                assert(rem[i] == srest[i]);
                assert(rem[j] == srest[j]);
            }
            assert forall|i: int| 0 <= i < rem.len() implies has_prefix(
                (#[trigger] rem[i]).0,
                p,
            ) && self.contents().contains_pair(rem[i].0, rem[i].1) by {
                assert(rem[i] == srest[i]);
                assert(srest[i] == t[pos + i]);
                assert(table_map(t)[t[pos + i].0] == t[pos + i].1);
            }
            lemma_prefix_run_complete_asc(srest, p);
            assert forall|k: Seq<u8>, v: Seq<u8>|
                #[trigger] self.contents().contains_pair(k, v) && has_prefix(k, p) implies
                rem.contains((k, v)) by {
                let i = choose|i: int| 0 <= i < t.len() && #[trigger] t[i] == (k, v);
                crate::order::lemma_prefix_ge(k, p);
                if i < pos {
                    assert(!lex_le(p, (#[trigger] self.rows@[i]).key@));
                    assert(t[i].0 == self.rows@[i].key@);
                    assert(false);
                }
                assert(srest[i - pos] == t[i]);
                assert(i - pos < prefix_run(srest, p).len());
                assert(rem[i - pos] == (k, v));
            }
        }
        it
    }

    /// Forward scan resuming at `start_at`: like `iter_scan`, but positioned
    /// at the first key at or above `start_at`; used to continue a scan past
    /// a previously seen key. When `start_at` lies at or above `prefix`, no
    /// matching row at or above `start_at` is skipped.
    pub fn iter_scan_from<'a>(&'a self, prefix: &[u8], start_at: &[u8]) -> (it: ScanIterator<'a>)
        requires
            self.wf(),
        ensures
            it.wf(),
            it.db_spec() == *self,
            it.prefix_spec() == prefix@,
            table_ok(it.remaining()),
            forall|i: int|
                0 <= i < it.remaining().len() ==> has_prefix(
                    (#[trigger] it.remaining()[i]).0,
                    prefix@,
                ) && lex_le(start_at@, it.remaining()[i].0) && self.contents().contains_pair(
                    it.remaining()[i].0,
                    it.remaining()[i].1,
                ),
            lex_le(prefix@, start_at@) ==> forall|k: Seq<u8>, v: Seq<u8>|
                #[trigger] self.contents().contains_pair(k, v) && has_prefix(k, prefix@) && lex_le(
                    start_at@,
                    k,
                ) ==> it.remaining().contains((k, v)),
    {
        let pos = lower_bound(&self.rows, start_at);
        let it = ScanIterator { db: self, prefix: copy_bytes(prefix), pos, done: false };
        proof {
            let t = self.tbl();
            let p = prefix@;
            let sa = start_at@;
            let srest = t.skip(pos as int);
            assert(forall|i: int|
                0 <= i < t.len() ==> #[trigger] t[i] == (self.rows@[i].key@, self.rows@[i].value@));
            assert(forall|i: int| 0 <= i < srest.len() ==> #[trigger] srest[i] == t[pos + i]);
            assert forall|i: int, j: int| 0 <= i < j < srest.len() implies lex_lt(
                (#[trigger] srest[i]).0,
                (#[trigger] srest[j]).0,
            ) by {
                assert(lex_lt(t[pos + i].0, t[pos + j].0));
            }
            assert forall|i: int| 0 <= i < srest.len() implies lex_le(
                sa,
                (#[trigger] srest[i]).0,
            ) by {
                assert(lex_le(sa, (#[trigger] self.rows@[pos + i]).key@));
                assert(srest[i].0 == self.rows@[pos + i].key@);
            }
            lemma_prefix_run_sub(srest, p);
            lemma_table_map_at(t);
            lemma_table_map_keys(t);
            lemma_table_map_pairs(t);
            let rem = it.remaining();
            assert(rem == prefix_run(srest, p));
            assert forall|i: int, j: int| 0 <= i < j < rem.len() implies lex_lt(
                (#[trigger] rem[i]).0,
                (#[trigger] rem[j]).0,
            ) by {
                assert(rem[i] == srest[i]);
                assert(rem[j] == srest[j]);
            }
            assert forall|i: int| 0 <= i < rem.len() implies has_prefix((#[trigger] rem[i]).0, p)
                && lex_le(sa, rem[i].0) && self.contents().contains_pair(rem[i].0, rem[i].1) by {
                assert(rem[i] == srest[i]);
                assert(srest[i] == t[pos + i]);
                assert(table_map(t)[t[pos + i].0] == t[pos + i].1);
            }
            if lex_le(p, sa) {
                assert forall|i: int| 0 <= i < srest.len() implies lex_le(
                    p,
                    (#[trigger] srest[i]).0,
                ) by {
                    crate::order::lemma_lex_le_trans(p, sa, srest[i].0);
                }
                lemma_prefix_run_complete_asc(srest, p);
                assert forall|k: Seq<u8>, v: Seq<u8>|
                    #[trigger] self.contents().contains_pair(k, v) && has_prefix(k, p) && lex_le(
                        sa,
                        k,
                    ) implies rem.contains((k, v)) by {
                    let i = choose|i: int| 0 <= i < t.len() && #[trigger] t[i] == (k, v);
                    if i < pos {
                        assert(!lex_le(sa, (#[trigger] self.rows@[i]).key@));
                        assert(t[i].0 == self.rows@[i].key@);
                        assert(false);
                    }
                    assert(srest[i - pos] == t[i]);
                    assert(i - pos < prefix_run(srest, p).len());
                    assert(rem[i - pos] == (k, v));
                }
            }
        }
        it
    }

    /// Reverse prefix scan from an explicit upper bound: a cursor positioned
    /// at the greatest key at or below `prefix_max` (included if present),
    /// yielding rows in strictly descending key order while keys match
    /// `prefix`. When `prefix_max` itself starts with `prefix`, every
    /// matching row at or below `prefix_max` is yielded. Answers "most
    /// recent record under this prefix" without a full prefix scan.
    pub fn iter_scan_reverse<'a>(&'a self, prefix: &[u8], prefix_max: &[u8]) -> (it:
        ReverseScanIterator<'a>)
        requires
            self.wf(),
        ensures
            it.wf(),
            it.db_spec() == *self,
            it.prefix_spec() == prefix@,
            forall|i: int, j: int|
                0 <= i < j < it.remaining().len() ==> lex_lt(
                    (#[trigger] it.remaining()[j]).0,
                    (#[trigger] it.remaining()[i]).0,
                ),
            forall|i: int|
                0 <= i < it.remaining().len() ==> has_prefix(
                    (#[trigger] it.remaining()[i]).0,
                    prefix@,
                ) && lex_le(it.remaining()[i].0, prefix_max@) && self.contents().contains_pair(
                    it.remaining()[i].0,
                    it.remaining()[i].1,
                ),
            has_prefix(prefix_max@, prefix@) ==> forall|k: Seq<u8>, v: Seq<u8>|
                #[trigger] self.contents().contains_pair(k, v) && has_prefix(k, prefix@) && lex_le(
                    k,
                    prefix_max@,
                ) ==> it.remaining().contains((k, v)),
    {
        let lb = lower_bound(&self.rows, prefix_max);
        let hit = lb < self.rows.len() && key_eq(self.rows[lb].key.as_slice(), prefix_max);
        let pos = if hit {
            lb + 1
        } else {
            lb
        };
        let it = ReverseScanIterator { db: self, prefix: copy_bytes(prefix), pos, done: false };
        proof {
            let t = self.tbl();
            let p = prefix@;
            let mx = prefix_max@;
            assert(forall|i: int|
                0 <= i < t.len() ==> #[trigger] t[i] == (self.rows@[i].key@, self.rows@[i].value@));
            assert forall|i: int| 0 <= i < pos implies lex_le((#[trigger] t[i]).0, mx) by {
                assert(t[i].0 == (#[trigger] self.rows@[i]).key@);
                if i < lb {
                    crate::order::lemma_lex_not_le(mx, t[i].0);
                } else {
                    assert(hit && i == lb);
                    crate::order::lemma_lex_le_refl(mx);
                }
            }
            assert forall|i: int| pos <= i < t.len() implies lex_lt(mx, (#[trigger] t[i]).0) by {
                assert(t[i].0 == (#[trigger] self.rows@[i]).key@);
                assert(lex_le(mx, t[lb as int].0));
                if hit {
                    assert(lex_lt(t[lb as int].0, t[i].0));
                    assert(t[lb as int].0 == mx);
                } else {
                    if i == lb {
                        assert(mx != t[i].0);
                    } else {
                        assert(lex_lt(t[lb as int].0, t[i].0));
                        crate::order::lemma_lex_le_lt_trans(mx, t[lb as int].0, t[i].0);
                    }
                }
            }
            let srev = t.take(pos as int).reverse();
            assert(srev.len() == pos);
            assert(forall|i: int| 0 <= i < pos ==> #[trigger] srev[i] == t[pos - 1 - i]);
            assert forall|i: int, j: int| 0 <= i < j < srev.len() implies lex_lt(
                (#[trigger] srev[j]).0,
                (#[trigger] srev[i]).0,
            ) by {
                assert(srev[i] == t[pos - 1 - i]);
                assert(srev[j] == t[pos - 1 - j]);
                assert(lex_lt(t[pos - 1 - j].0, t[pos - 1 - i].0));
            }
            assert forall|i: int| 0 <= i < srev.len() implies lex_le(
                (#[trigger] srev[i]).0,
                mx,
            ) by {
                assert(srev[i] == t[pos - 1 - i]);
            }
            lemma_prefix_run_sub(srev, p);
            lemma_table_map_at(t);
            lemma_table_map_keys(t);
            lemma_table_map_pairs(t);
            let rem = it.remaining();
            assert(rem == prefix_run(srev, p));
            assert forall|i: int, j: int| 0 <= i < j < rem.len() implies lex_lt(
                (#[trigger] rem[j]).0,
                (#[trigger] rem[i]).0,
            ) by {
                assert(rem[i] == srev[i]);
                assert(rem[j] == srev[j]);
            }
            assert forall|i: int| 0 <= i < rem.len() implies has_prefix((#[trigger] rem[i]).0, p)
                && lex_le(rem[i].0, mx) && self.contents().contains_pair(rem[i].0, rem[i].1) by {
                assert(rem[i] == srev[i]);
                assert(srev[i] == t[pos - 1 - i]);
                assert(table_map(t)[t[pos - 1 - i].0] == t[pos - 1 - i].1);
            }
            if has_prefix(mx, p) {
                lemma_prefix_run_complete_desc(srev, p, mx);
                assert forall|k: Seq<u8>, v: Seq<u8>|
                    #[trigger] self.contents().contains_pair(k, v) && has_prefix(k, p) && lex_le(
                        k,
                        mx,
                    ) implies rem.contains((k, v)) by {
                    let i = choose|i: int| 0 <= i < t.len() && #[trigger] t[i] == (k, v);
                    if i >= pos {
                        assert(lex_lt(mx, t[i].0));
                        crate::order::lemma_lex_le_antisym(k, mx);
                        assert(false);
                    }
                    assert(srev[pos - 1 - i] == t[i]);
                    assert(pos - 1 - i < prefix_run(srev, p).len());
                    assert(rem[pos - 1 - i] == (k, v));
                }
            }
        }
        it
    }
}

} // verus!

