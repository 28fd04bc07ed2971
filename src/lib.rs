pub mod dtype;
pub mod engine;
pub mod query;
pub mod serial;
pub mod storage;
pub mod testlib;
