//! A typed, policy-aware ordered key/value storage layer for an index server.
//!
//! The engine keeps rows sorted by bytewise key order and distinguishes the
//! visible table (what reads observe in this process) from the persisted table
//! (what survives a restart). Callers choose a per-batch durability policy,
//! open handles in writable or read-only mode, and answer range queries with
//! prefix-bounded forward and reverse cursors.

pub mod codec;
pub mod config;
pub mod db;
pub mod laws;
pub mod order;
