//! The realm tree, the identifier codec and the per-request context of the
//! portal's API.
pub mod context;
pub mod id;
pub mod realm;
