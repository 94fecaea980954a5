//! A content-addressed metadata index: reports carry (name, hash) records,
//! and the index answers "which reports reference this hash".

use vstd::prelude::*;

mod hashing;
pub mod codec;
pub mod ids;
pub mod recordsets;
pub mod server;
pub mod storage;

pub use hashing::hash_of;
pub use ids::IdStorage;

verus! {

} // verus!
