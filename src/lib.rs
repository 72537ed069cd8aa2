pub mod atomic_bit_set;
pub mod world;

pub use atomic_bit_set::AtomicBitSet;
pub use world::{Entity, Read, System, World, Write};
