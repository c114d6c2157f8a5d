pub mod aof;
pub mod frame;
pub mod handler;
pub mod resp;
pub mod roundtrip;
pub mod server;
pub mod store;
pub mod table;
pub mod text;
