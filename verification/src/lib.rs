//! Reverse-trace AIDL/binder interface methods to the public SDK methods that
//! reach them, over a class graph decoded from `dexdump -d` output.

pub mod text;
pub mod dex;
pub mod api;
pub mod reverse;
pub mod table;
pub mod ancestry;
pub mod graph;
pub mod trace;
pub mod report;
pub mod input;
pub mod archive;
