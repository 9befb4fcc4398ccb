//! Numeric value model: the `Number` variants produced by the tokenizer,
//! the `Type` tags of the register machine, and the bound/fit utilities
//! for shrinking integers into a target type.

use vstd::prelude::*;

use vstd::string::StringExecFns;
use crate::strutil::str_eq;

verus! {

/// A numeric type tag.
#[derive(Debug, PartialEq, Eq, Clone, Structural)]
pub enum Type {
    U8,
    U16,
    U32,
    U64,
    I8,
    I16,
    I32,
    I64,
    F32,
    F64,
    Object,
}

/// A numeric literal value.
///
/// `I64` carries plain decimal integers, `U64` carries radix-prefixed
/// (hexadecimal, octal, binary) integers, and `F64` carries the exact
/// character sequence of a decimal literal with a fractional or exponent
/// part, with the `_` separators already stripped, ready for a
/// floating-point parser.
#[derive(Debug, PartialEq, Clone)]
pub enum Number {
    I64(i64),
    U64(u64),
    F64(String),
}

/// An operation name, as produced by `parse_instruction`.
#[derive(Debug, PartialEq, Eq, Structural)]
pub enum Verb {
    Add,
    Subtract,
    Multiply,
    Divide,
    Modulus,
    Is,
    Equal,
    Less,
    LessEqual,
    Greater,
    GreaterEqual,
    ShiftLeft,
    ShiftRight,
    And,
    Or,
    Xor,
    Not,
    F2I,
    I2F,
}

/// The type a numeric literal's tag text selects, if any.
///
/// The 64-bit integer tags have no spelling here, as in the grammar the
/// tags annotate.
pub open spec fn spec_tag_type(t: Seq<char>) -> Option<Type> {
    if t == "u8"@ {
        Some(Type::U8)
    } else if t == "u16"@ {
        Some(Type::U16)
    } else if t == "u32"@ {
        Some(Type::U32)
    } else if t == "i8"@ {
        Some(Type::I8)
    } else if t == "i16"@ {
        Some(Type::I16)
    } else if t == "i32"@ {
        Some(Type::I32)
    } else if t == "f32"@ {
        Some(Type::F32)
    } else if t == "f64"@ {
        Some(Type::F64)
    } else {
        None
    }
}

pub fn number_tag_to_type(tag: &str) -> (r: Result<Type, String>)
    ensures
        match spec_tag_type(tag@) {
            Some(tp) => r == Ok::<Type, String>(tp),
            None => r matches Err(m) && m@ == "Uknown numeric tag "@ + tag@,
        },
{
    if str_eq(tag, "u8") {
        Ok(Type::U8)
    } else if str_eq(tag, "u16") {
        Ok(Type::U16)
    } else if str_eq(tag, "u32") {
        Ok(Type::U32)
    } else if str_eq(tag, "i8") {
        Ok(Type::I8)
    } else if str_eq(tag, "i16") {
        Ok(Type::I16)
    } else if str_eq(tag, "i32") {
        Ok(Type::I32)
    } else if str_eq(tag, "f32") {
        Ok(Type::F32)
    } else if str_eq(tag, "f64") {
        Ok(Type::F64)
    } else {
        Err(String::from_str("Uknown numeric tag ").concat(tag))
    }
}

/// The verb an instruction name selects, if any.
pub open spec fn spec_verb_of(t: Seq<char>) -> Option<Verb> {
    if t == "+"@ {
        Some(Verb::Add)
    } else if t == "-"@ {
        Some(Verb::Subtract)
    } else if t == "*"@ {
        Some(Verb::Multiply)
    } else if t == "/"@ {
        Some(Verb::Divide)
    } else if t == "%"@ {
        Some(Verb::Modulus)
    } else if t == "is"@ {
        Some(Verb::Is)
    } else if t == "=="@ {
        Some(Verb::Equal)
    } else if t == "<"@ {
        Some(Verb::Less)
    } else if t == "<="@ {
        Some(Verb::LessEqual)
    } else if t == ">"@ {
        Some(Verb::Greater)
    } else if t == ">="@ {
        Some(Verb::GreaterEqual)
    } else if t == "<<"@ {
        Some(Verb::ShiftLeft)
    } else if t == ">>"@ {
        Some(Verb::ShiftRight)
    } else if t == "&"@ {
        Some(Verb::And)
    } else if t == "|"@ {
        Some(Verb::Or)
    } else if t == "^"@ {
        Some(Verb::Xor)
    } else if t == "!"@ {
        Some(Verb::Not)
    } else if t == "f2i"@ {
        Some(Verb::F2I)
    } else if t == "i2f"@ {
        Some(Verb::I2F)
    } else {
        None
    }
}

/// Parse a textual instruction name; every known verb takes no
/// argument.
pub fn parse_instruction(inst: &str, arg: Option<i64>) -> (r: Result<Verb, String>)
    ensures
        match (spec_verb_of(inst@), arg) {
            (Some(v), None) => r == Ok::<Verb, String>(v),
            _ => r matches Err(m) && m@ == "Unknown verb "@ + inst@,
        },
{
    if arg.is_some() {
        return Err(String::from_str("Unknown verb ").concat(inst));
    }
    if str_eq(inst, "+") {
        Ok(Verb::Add)
    } else if str_eq(inst, "-") {
        Ok(Verb::Subtract)
    } else if str_eq(inst, "*") {
        Ok(Verb::Multiply)
    } else if str_eq(inst, "/") {
        Ok(Verb::Divide)
    } else if str_eq(inst, "%") {
        Ok(Verb::Modulus)
    } else if str_eq(inst, "is") {
        Ok(Verb::Is)
    } else if str_eq(inst, "==") {
        Ok(Verb::Equal)
    } else if str_eq(inst, "<") {
        Ok(Verb::Less)
    } else if str_eq(inst, "<=") {
        Ok(Verb::LessEqual)
    } else if str_eq(inst, ">") {
        Ok(Verb::Greater)
    } else if str_eq(inst, ">=") {
        Ok(Verb::GreaterEqual)
    } else if str_eq(inst, "<<") {
        Ok(Verb::ShiftLeft)
    } else if str_eq(inst, ">>") {
        Ok(Verb::ShiftRight)
    } else if str_eq(inst, "&") {
        Ok(Verb::And)
    } else if str_eq(inst, "|") {
        Ok(Verb::Or)
    } else if str_eq(inst, "^") {
        Ok(Verb::Xor)
    } else if str_eq(inst, "!") {
        Ok(Verb::Not)
    } else if str_eq(inst, "f2i") {
        Ok(Verb::F2I)
    } else if str_eq(inst, "i2f") {
        Ok(Verb::I2F)
    } else {
        Err(String::from_str("Unknown verb ").concat(inst))
    }
}

/// The largest non-negative integer a value of type `tp` can hold.
///
/// The floating-point types saturate to the full `u64` range, as a
/// saturating cast of their maximum would.
pub open spec fn spec_max_integer(tp: Type) -> u64 {
    match tp {
        Type::U8 => 0xff,
        Type::U16 => 0xffff,
        Type::U32 => 0xffff_ffff,
        Type::U64 => 0xffff_ffff_ffff_ffff,
        Type::I8 => 0x7f,
        Type::I16 => 0x7fff,
        Type::I32 => 0x7fff_ffff,
        Type::I64 => 0x7fff_ffff_ffff_ffff,
        Type::F32 => 0xffff_ffff_ffff_ffff,
        Type::F64 => 0xffff_ffff_ffff_ffff,
        Type::Object => 0,
    }
}

/// The smallest integer a value of type `tp` can hold.
///
/// The floating-point types saturate to the full `i64` range, as a
/// saturating cast of their minimum would.
pub open spec fn spec_min_integer(tp: Type) -> i64 {
    match tp {
        Type::U8 => 0i64,
        Type::U16 => 0i64,
        Type::U32 => 0i64,
        Type::U64 => 0i64,
        Type::I8 => -0x80i64,
        Type::I16 => -0x8000i64,
        Type::I32 => -0x8000_0000i64,
        Type::I64 => (-0x7fff_ffff_ffff_ffffi64 - 1) as i64,
        Type::F32 => (-0x7fff_ffff_ffff_ffffi64 - 1) as i64,
        Type::F64 => (-0x7fff_ffff_ffff_ffffi64 - 1) as i64,
        Type::Object => 0i64,
    }
}

pub fn max_integer_value_of_type(tp: &Type) -> (r: u64)
    requires
        *tp != Type::Object,
    ensures
        r == spec_max_integer(*tp),
{
    match *tp {
        Type::U8 => 0xff,
        Type::U16 => 0xffff,
        Type::U32 => 0xffff_ffff,
        Type::U64 => 0xffff_ffff_ffff_ffff,
        Type::I8 => 0x7f,
        Type::I16 => 0x7fff,
        Type::I32 => 0x7fff_ffff,
        Type::I64 => 0x7fff_ffff_ffff_ffff,
        Type::F32 => 0xffff_ffff_ffff_ffff,
        Type::F64 => 0xffff_ffff_ffff_ffff,
        Type::Object => 0,
    }
}

pub fn min_integer_value_of_type(tp: &Type) -> (r: i64)
    requires
        *tp != Type::Object,
    ensures
        r == spec_min_integer(*tp),
{
    match *tp {
        Type::U8 => 0i64,
        Type::U16 => 0i64,
        Type::U32 => 0i64,
        Type::U64 => 0i64,
        Type::I8 => -0x80i64,
        Type::I16 => -0x8000i64,
        Type::I32 => -0x8000_0000i64,
        Type::I64 => -0x7fff_ffff_ffff_ffffi64 - 1,
        Type::F32 => -0x7fff_ffff_ffff_ffffi64 - 1,
        Type::F64 => -0x7fff_ffff_ffff_ffffi64 - 1,
        Type::Object => 0i64,
    }
}

/// Whether the magnitude `number` (negated if `negative`) fits in `tp`.
///
/// The negative case compares against the magnitude of the type's
/// minimum; for the unsigned types that magnitude wraps around to
/// `u64::MAX`, so any negative magnitude "fits" them, exactly as the
/// two's-complement comparison below computes it.
pub open spec fn spec_fits(number: u64, negative: bool, tp: Type) -> bool {
    if negative {
        if number > 0 {
            number - 1 <= (-(spec_min_integer(tp) + 1)) as u64
        } else {
            true
        }
    } else {
        number <= spec_max_integer(tp)
    }
}

pub fn integer_fits_in_type(number: u64, negative: bool, tp: &Type) -> (r: bool)
    requires
        *tp != Type::Object,
    ensures
        r == spec_fits(number, negative, *tp),
{
    if negative {
        if number > 0 {
            // One extra value is allowed on the negative side by
            // two's complement.
            number - 1 <= (-(min_integer_value_of_type(tp) + 1)) as u64
        } else {
            true
        }
    } else {
        number <= max_integer_value_of_type(tp)
    }
}

/// Negate a magnitude into an `i64`, covering the one extra value that
/// two's complement allows on the negative side.
pub fn make_negative_i64(number: u64) -> (r: i64)
    requires
        number <= 0x8000_0000_0000_0000,
    ensures
        r as int == -(number as int),
{
    if number != 0 {
        -((number - 1u64) as i64) - 1
    } else {
        number as i64
    }
}

} // verus!
