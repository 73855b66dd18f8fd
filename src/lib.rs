//! Secure software-update checker: encrypted version queries, response
//! decoding, and a changelog engine over a persisted version store.

pub mod store;
pub mod changelog;
pub mod decode;
pub mod codec;
pub mod request;
pub mod tick;
pub mod inventory;

