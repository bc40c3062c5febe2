//! Rateless Invertible Bloom Lookup Table (RIBLT) set-reconciliation codec.
//!
//! Two parties holding similar sets stream compact coded symbols from one
//! side to the other; collapsing the two streams and peeling the result
//! recovers the symmetric difference of the sets.

pub mod encoder;
pub mod mapping;
pub mod symbol;

pub use encoder::{RatelessIBLT, UnmanagedRatelessIBLT};
pub use mapping::RandomMapping;
pub use symbol::{CodedSymbol, Direction, PeelableResult, SimpleSymbol, Symbol};
