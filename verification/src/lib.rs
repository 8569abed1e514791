//! Meet-in-the-middle preimage search for the accumulator-style tuple hashes
//! used by CPython: given a target hash, a tuple length and an element range,
//! enumerate the tuples whose hash equals the target.
#![allow(non_snake_case)]

pub mod arith;
pub mod counter;
pub mod hash;
pub mod search;
pub mod table;
