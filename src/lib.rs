//! A hierarchical, fixed-capacity bit set with four layers of summary words.
pub mod util;
pub mod atomic;

pub use atomic::AtomicBitSet;
pub use util::{Index, CAPACITY};
