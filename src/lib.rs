//! An encrypted block and blob storage engine.
//!
//! Blocks are fixed-size, id-addressed byte payloads kept in a layered
//! block store: an encrypting layer over any store beneath, and a locking
//! write-back cache above it. Blobs of any length are kept as trees of node
//! blocks over that cache.
use vstd::prelude::*;

pub mod blobstore;
pub mod block_id;
pub mod block_store;
pub mod cipher;
pub mod data;
pub mod data_tree;
pub mod encrypted;
pub mod error;
pub mod fake_cipher;
pub mod id_map;
pub mod locking;
pub mod node;
pub mod node_store;

verus! {

} // verus!
