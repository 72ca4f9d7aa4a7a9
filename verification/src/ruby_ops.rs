use vstd::prelude::*;

verus! {

/// Why parsing through the Ruby interpreter failed.
#[derive(Debug, Clone)]
pub enum ParseError {
    SyntaxError,
    OtherRubyError(String),
}

/// The type tags of Ruby values.
#[allow(non_camel_case_types)]
#[derive(Debug, Clone, Copy, PartialEq, Eq, Structural)]
pub enum ruby_value_type {
    RUBY_T_NONE,
    RUBY_T_OBJECT,
    RUBY_T_CLASS,
    RUBY_T_MODULE,
    RUBY_T_FLOAT,
    RUBY_T_STRING,
    RUBY_T_REGEXP,
    RUBY_T_ARRAY,
    RUBY_T_HASH,
    RUBY_T_STRUCT,
    RUBY_T_BIGNUM,
    RUBY_T_FILE,
    RUBY_T_DATA,
    RUBY_T_MATCH,
    RUBY_T_COMPLEX,
    RUBY_T_RATIONAL,
    RUBY_T_NIL,
    RUBY_T_TRUE,
    RUBY_T_FALSE,
    RUBY_T_SYMBOL,
    RUBY_T_FIXNUM,
    RUBY_T_UNDEF,
    RUBY_T_IMEMO,
    RUBY_T_NODE,
    RUBY_T_ICLASS,
    RUBY_T_ZOMBIE,
    RUBY_T_MASK,
}

impl ruby_value_type {
    /// The tag's number in the interpreter.
    pub fn tag(&self) -> (r: u8)
        ensures
            r == match self {
                ruby_value_type::RUBY_T_NONE => 0x00u8,
                ruby_value_type::RUBY_T_OBJECT => 0x01u8,
                ruby_value_type::RUBY_T_CLASS => 0x02u8,
                ruby_value_type::RUBY_T_MODULE => 0x03u8,
                ruby_value_type::RUBY_T_FLOAT => 0x04u8,
                ruby_value_type::RUBY_T_STRING => 0x05u8,
                ruby_value_type::RUBY_T_REGEXP => 0x06u8,
                ruby_value_type::RUBY_T_ARRAY => 0x07u8,
                ruby_value_type::RUBY_T_HASH => 0x08u8,
                ruby_value_type::RUBY_T_STRUCT => 0x09u8,
                ruby_value_type::RUBY_T_BIGNUM => 0x0au8,
                ruby_value_type::RUBY_T_FILE => 0x0bu8,
                ruby_value_type::RUBY_T_DATA => 0x0cu8,
                ruby_value_type::RUBY_T_MATCH => 0x0du8,
                ruby_value_type::RUBY_T_COMPLEX => 0x0eu8,
                ruby_value_type::RUBY_T_RATIONAL => 0x0fu8,
                ruby_value_type::RUBY_T_NIL => 0x11u8,
                ruby_value_type::RUBY_T_TRUE => 0x12u8,
                ruby_value_type::RUBY_T_FALSE => 0x13u8,
                ruby_value_type::RUBY_T_SYMBOL => 0x14u8,
                ruby_value_type::RUBY_T_FIXNUM => 0x15u8,
                ruby_value_type::RUBY_T_UNDEF => 0x16u8,
                ruby_value_type::RUBY_T_IMEMO => 0x1au8,
                ruby_value_type::RUBY_T_NODE => 0x1bu8,
                ruby_value_type::RUBY_T_ICLASS => 0x1cu8,
                ruby_value_type::RUBY_T_ZOMBIE => 0x1du8,
                ruby_value_type::RUBY_T_MASK => 0x1fu8,
            },
    {
        match self {
            ruby_value_type::RUBY_T_NONE => 0x00,
            ruby_value_type::RUBY_T_OBJECT => 0x01,
            ruby_value_type::RUBY_T_CLASS => 0x02,
            ruby_value_type::RUBY_T_MODULE => 0x03,
            ruby_value_type::RUBY_T_FLOAT => 0x04,
            ruby_value_type::RUBY_T_STRING => 0x05,
            ruby_value_type::RUBY_T_REGEXP => 0x06,
            ruby_value_type::RUBY_T_ARRAY => 0x07,
            ruby_value_type::RUBY_T_HASH => 0x08,
            ruby_value_type::RUBY_T_STRUCT => 0x09,
            ruby_value_type::RUBY_T_BIGNUM => 0x0a,
            ruby_value_type::RUBY_T_FILE => 0x0b,
            ruby_value_type::RUBY_T_DATA => 0x0c,
            ruby_value_type::RUBY_T_MATCH => 0x0d,
            ruby_value_type::RUBY_T_COMPLEX => 0x0e,
            ruby_value_type::RUBY_T_RATIONAL => 0x0f,
            ruby_value_type::RUBY_T_NIL => 0x11,
            ruby_value_type::RUBY_T_TRUE => 0x12,
            ruby_value_type::RUBY_T_FALSE => 0x13,
            ruby_value_type::RUBY_T_SYMBOL => 0x14,
            ruby_value_type::RUBY_T_FIXNUM => 0x15,
            ruby_value_type::RUBY_T_UNDEF => 0x16,
            ruby_value_type::RUBY_T_IMEMO => 0x1a,
            ruby_value_type::RUBY_T_NODE => 0x1b,
            ruby_value_type::RUBY_T_ICLASS => 0x1c,
            ruby_value_type::RUBY_T_ZOMBIE => 0x1d,
            ruby_value_type::RUBY_T_MASK => 0x1f,
        }
    }
}

} // verus!
