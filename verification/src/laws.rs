//! Storage-layer laws: durability, visibility, and atomicity of batched
//! writes, stated over the contracts of `DB::write`, `DB::flush`,
//! `DB::reopen` and `DB::get`.

use vstd::prelude::*;

use crate::db::DB;
use crate::db::DBRow;
use crate::db::lemma_table_map_keys;
use crate::db::table_map;
use crate::db::view_rows;

verus! {

/// For every row set committed with the durable flush policy, a lookup
/// after a restart returns exactly the written value: `post` is the handle
/// after `DB::write(batch, DBFlush::Enable)` on writable `pre`, and `re` is
/// a handle whose visible table is `post`'s durable table, as a fresh
/// `DB::open` of the rows surviving `post` ensures.
pub proof fn lemma_durable_write_survives_restart(
    pre: DB,
    post: DB,
    re: DB,
    batch: Seq<DBRow>,
    k: Seq<u8>,
)
    requires
        !pre.read_only(),
        post.durable() == pre.durable().union_prefer_right(table_map(view_rows(batch))),
        re.contents() == post.durable(),
        table_map(view_rows(batch)).contains_key(k),
    ensures
        re.contents().contains_key(k),
        re.contents()[k] == table_map(view_rows(batch))[k],
{
}

/// For every row set committed with the fast flush policy, a lookup in the
/// same process immediately after the call returns the written value, even
/// without an explicit flush: `post` is the handle after
/// `DB::write(batch, DBFlush::Disable)` on writable `pre`.
pub proof fn lemma_fast_write_visible(pre: DB, post: DB, batch: Seq<DBRow>, k: Seq<u8>)
    requires
        !pre.read_only(),
        post.contents() == pre.contents().union_prefer_right(table_map(view_rows(batch))),
        table_map(view_rows(batch)).contains_key(k),
    ensures
        post.contents().contains_key(k),
        post.contents()[k] == table_map(view_rows(batch))[k],
{
}

/// A committed batch is atomic: afterwards every row of the batch is
/// visible at once, and every key outside the batch is exactly as before.
/// `post` is the handle after `DB::write(batch, _)` on writable `pre`.
pub proof fn lemma_write_atomic(pre: DB, post: DB, batch: Seq<DBRow>)
    requires
        !pre.read_only(),
        post.contents() == pre.contents().union_prefer_right(table_map(view_rows(batch))),
    ensures
        forall|i: int|
            0 <= i < batch.len() ==> post.contents().contains_key(
                (#[trigger] view_rows(batch)[i]).0,
            ),
        forall|k: Seq<u8>|
            !table_map(view_rows(batch)).contains_key(k) ==> (#[trigger] post.contents().contains_key(
                k,
            ) == pre.contents().contains_key(k)) && (pre.contents().contains_key(k)
                ==> post.contents()[k] == pre.contents()[k]),
{
    lemma_table_map_keys(view_rows(batch));
}

} // verus!
