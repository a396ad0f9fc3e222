//! Arbitrary-width two's-complement bit-vector values: storage, slicing,
//! arithmetic, shifts and bitwise logic, each operation proved against a
//! mathematical model of the bits it reads and writes.

pub mod store;
pub mod binary;
pub mod lemmas;
pub mod bitwise;
pub mod arith;
pub mod range;
pub mod shifts;
pub mod bitwise_map;
pub mod construct;
pub mod utility;
pub mod convert;
pub mod format;
pub mod reduce;
pub mod mul;
pub mod cmp;
pub mod api;
