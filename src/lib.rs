//! The reference store of a version-control engine: finding references by
//! partial name among loose files and a packed table, and updating the packed
//! table in a two-phase transaction.
//!
//! The library decides; its callers do the file work. A lookup takes what
//! reading each candidate path gave (see `name::lookup_candidates`), and a
//! transaction tells its caller when to release the lock and what to write.

use vstd::prelude::*;

pub mod encode;
pub mod find;
pub mod head;
pub mod name;
pub mod oid;
pub mod packed;
pub mod reference;
pub mod transaction;

verus! {

} // verus!
