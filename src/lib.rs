pub mod codec;
pub mod kv;
pub mod laws;
pub mod store;
pub mod id;
