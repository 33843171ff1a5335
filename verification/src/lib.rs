//! Halton sequences: deterministic low-discrepancy sequences of fractions in
//! the open interval (0, 1), derived from the radix-reversed digits of
//! successive integers.
//!
//! Every value is represented exactly, as a fraction whose denominator is a
//! power of the base.  The crate offers a direct radical-inverse computation
//! and a stateful incremental generator that produces consecutive values with
//! an amortized O(1) digit-carry algorithm and supports O(D) random access.

pub mod model;
pub mod radical;
pub mod generator;

pub use generator::GenericSequence;
pub use generator::Sequence;
pub use radical::Fraction;
pub use radical::number;
