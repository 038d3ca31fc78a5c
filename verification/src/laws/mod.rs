//! What holds of the cache as a whole.

pub mod calls;
pub mod files;
pub mod identifiers;
pub mod operations;
pub mod reads;
pub mod recovery;
pub mod replaying;
pub mod reservations;
pub mod runs;
pub mod seen;
pub mod stacks;
pub mod values;
pub mod versions;
