//! A codec for the TJS2 data-literal notation: a value model, a parser from
//! text, a printer back to text in compact or indented form, and the pieces of
//! a bridge between values and typed data.
//!
//! Floating-point conversions are not performed here: a real number is held as
//! its IEEE-754 binary64 bit pattern, and the caller supplies the conversions
//! between that pattern and decimal text.
pub mod de;
mod error;
pub mod laws;
pub mod parser;
pub mod ser;
pub mod text;
pub mod value;

pub use crate::de::{parse_value, ValueDeserializer};
pub use crate::error::Error;
pub use crate::ser::ValueSerializer;
pub use crate::value::{SerializeOptions, Value};
