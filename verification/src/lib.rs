//! The dynamic value model of an embedded expression language: the closed set
//! of runtime values and the coercions every interpreter needs: truthiness,
//! the value as an integer, as a float, as text, and as a literal.
//!
//! Nothing here computes in floating point. A float is held as the bit
//! pattern of an IEEE-754 binary64 number, and what the coercions need of it
//! is read from the bits: whether it is zero, what it truncates to, whether
//! it has a fractional part, which float is nearest to an integer. Two
//! things are left to the caller, who has the machine's floats: to write a
//! float out in decimal, for which a rendering holds a place
//! ([`Piece::Decimal`]), and to parse a text as a float
//! ([`FloatCoercion::Parse`], then [`binary64::float_or_zero`]).

pub mod binary64;
pub mod integer;
pub mod laws;
pub mod render;
pub mod text;
pub mod value;

pub use render::Piece;
pub use value::{CoercionError, FloatCoercion, FloatCoercionView, Value, ValueView};
