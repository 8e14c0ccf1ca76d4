//! A small content-addressed object store in the style of a distributed
//! version-control system: object framing and addressing, tree and commit
//! payloads, pack decoding and delta reconstruction.

pub mod address;
pub mod bytes;
pub mod checkout;
pub mod commands;
pub mod commit;
pub mod decimal;
pub mod delta;
pub mod error;
pub mod hash;
pub mod kind;
pub mod object;
pub mod order;
pub mod pack;
pub mod remote;
pub mod resolve;
pub mod space;
pub mod store;
pub mod tree;
pub mod varint;
pub mod zlib;
