//! Arbitrary-precision integers and their conversion to text in any radix
//! from 2 to 36.

pub mod bits;
pub mod convert;
pub mod digits;
pub mod fmt;
pub mod prepared;
pub mod radix;
pub mod ubig;

pub use fmt::{Alignment, FormatOptions, InRadix, RadixStyle};
pub use ubig::{IBig, Sign, UBig};
