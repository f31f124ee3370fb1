//! Verified core of a deduplicating, content-addressed backup datastore.
//!
//! The on-disk world (chunk pool, snapshot namespace, lock files) is held as
//! plain values, so that every rule of the store is a function with a
//! contract: a caller that performs the actual I/O hands in what it read and
//! carries out what comes back.

pub mod access;
pub mod acl;
pub mod acl_laws;
pub mod api;
pub mod api_types;
pub mod auth;
pub mod chunk_store;
pub mod datastore;
pub mod digest;
pub mod error;
pub mod gc;
pub mod index;
pub mod listing;
pub mod manifest;
pub mod namespace;
pub mod node_config;
pub mod online_status;
pub mod pxar;
pub mod registry;
pub mod resolv_conf;
pub mod rfc3339;
pub mod text;
pub mod worker;
