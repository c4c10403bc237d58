//! Immediate operands for instructions: 64-bit integers, unsigned 32-bit
//! integers, signed 32-bit offsets and IEEE 754 binary32/binary64 bit patterns,
//! with their textual forms (formatting and parsing).

pub mod chars;
pub mod error;
pub mod render;
pub mod num_text;
pub mod digit_facts;
pub mod bitfield;
pub mod int_parse;
pub mod integer;
pub mod integer_laws;
pub mod ieee_format;
pub mod ieee_parse;
pub mod ieee;
pub mod ieee_laws;
pub mod hex_float_laws;
