//! Coordination of circuit proposals between the admin services of a
//! permissioned network: the proposal store, the envelope codec, content
//! hashing, and the decisions of the admin service.

pub mod circuit;
pub mod codec;
pub mod hashing;
pub mod service;
