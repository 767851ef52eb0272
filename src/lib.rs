//! Byte counts tagged with a unit convention (binary powers of 1024 or decimal
//! powers of 1000), with exact conversion to and from human-readable text such
//! as `"5.00 MB"` or `"4882.81 KiB"`.

pub mod arithmetic;
pub mod round_trip;
pub mod simplebyteunit;
pub mod suffix;
