//! Correctly rounded conversion of decimal digit strings to binary floating-point.
//!
//! `parse::parse_float` takes the integer digits, the fraction digits and the
//! decimal exponent of a literal and returns the bit pattern of the nearest
//! value of a binary format (`format::Format`), ties going to the even
//! pattern. Exact arithmetic on naturals (`bignum`) decides every rounding;
//! `laws` states what follows for zero, exact values, ties, padding zeros and
//! order.
pub mod bignum;
pub mod format;
pub mod parse;
pub mod rounding;
pub mod laws;
