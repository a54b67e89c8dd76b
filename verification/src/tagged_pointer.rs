//! Machine-word value representation.
//!
//! A word is either an immediate value or a reference to a heap object. The
//! three low-order bits tell them apart:
//!
//! | low bits | meaning                                            |
//! |----------|----------------------------------------------------|
//! | `xx1`    | 63-bit signed integer in the upper bits            |
//! | `000`    | heap reference; the zero word is the null reference |
//! | `010`    | boolean in bit 3                                   |
//! | `100`    | 32-bit float pattern in the upper half             |
//! | `110`    | nil                                                |
//!
//! No other module looks at raw bits: everything goes through the typed
//! constructors and accessors of [`TaggedPointer`].

use vstd::prelude::*;
use crate::errors::RuntimeError;

verus! {

/// Smallest integer that fits in a word.
pub const MIN_INTEGER: i64 = -0x4000_0000_0000_0000;

/// Largest integer that fits in a word.
pub const MAX_INTEGER: i64 = 0x3fff_ffff_ffff_ffff;

/// A value stored inline in a word.
#[derive(Clone, Copy, Debug, PartialEq, Eq, Structural)]
pub enum Immediate {
    Nil,
    Boolean(bool),
    /// A signed integer; representable when it lies in
    /// `MIN_INTEGER ..= MAX_INTEGER`.
    Integer(i64),
    /// The bit pattern of a 32-bit float.
    Float(u32),
}

/// What a word stands for.
#[derive(Clone, Copy, Debug, PartialEq, Eq, Structural)]
pub enum Value {
    Immediate(Immediate),
    /// The address of a heap object, a multiple of eight; zero is null.
    Reference(u64),
}

impl Immediate {
    /// Whether the value fits in a word.
    pub open spec fn representable(self) -> bool {
        match self {
            Immediate::Integer(i) => MIN_INTEGER <= i <= MAX_INTEGER,
            _ => true,
        }
    }
}

/// The word that holds an immediate value.
pub open spec fn encode_spec(v: Immediate) -> u64 {
    match v {
        Immediate::Nil => 6,
        Immediate::Boolean(b) => if b { 10 } else { 2 },
        Immediate::Integer(i) => if i >= 0 {
            (2 * i + 1) as u64
        } else {
            (2 * (i + 0x8000_0000_0000_0000) + 1) as u64
        },
        Immediate::Float(bits) => (bits * 0x1_0000_0000 + 4) as u64,
    }
}

/// The value that a word stands for. Every word stands for one.
pub open spec fn decode_spec(raw: u64) -> Value {
    if raw % 2 == 1 {
        let half = raw / 2;
        if half < 0x4000_0000_0000_0000 {
            Value::Immediate(Immediate::Integer(half as i64))
        } else {
            Value::Immediate(Immediate::Integer((half - 0x8000_0000_0000_0000) as i64))
        }
    } else if raw % 8 == 0 {
        Value::Reference(raw)
    } else if raw % 8 == 2 {
        Value::Immediate(Immediate::Boolean((raw / 8) % 2 == 1))
    } else if raw % 8 == 4 {
        Value::Immediate(Immediate::Float((raw / 0x1_0000_0000) as u32))
    } else {
        Value::Immediate(Immediate::Nil)
    }
}

/// A word is canonical when encoding what it stands for gives it back.
pub open spec fn is_canonical(raw: u64) -> bool {
    match decode_spec(raw) {
        Value::Immediate(v) => encode_spec(v) == raw,
        Value::Reference(_) => true,
    }
}

/// Decoding an encoded immediate gives the immediate back, for every
/// immediate that fits in a word.
pub proof fn lemma_round_trip(v: Immediate)
    requires
        v.representable(),
    ensures
        decode_spec(encode_spec(v)) == Value::Immediate(v),
        is_canonical(encode_spec(v)),
{
}

/// A word that stands for an immediate is never mistaken for a reference, and
/// the immediate it stands for fits in a word.
pub proof fn lemma_decode_representable(raw: u64)
    ensures
        decode_spec(raw) matches Value::Immediate(v) ==> v.representable(),
        decode_spec(raw) matches Value::Reference(a) ==> a == raw && a % 8 == 0,
{
}

/// A machine word holding an immediate value or a heap reference.
#[derive(Clone, Copy, Debug, PartialEq, Eq, Structural)]
pub struct TaggedPointer {
    pub raw: u64,
}

impl View for TaggedPointer {
    type V = u64;

    open spec fn view(&self) -> u64 {
        self.raw
    }
}

impl TaggedPointer {
    /// What the word stands for.
    pub open spec fn value(self) -> Value {
        decode_spec(self@)
    }

    /// The address the word refers to, unless it is an immediate or null.
    pub open spec fn target(self) -> Option<u64> {
        match self.value() {
            Value::Reference(address) => if address != 0 {
                Some(address)
            } else {
                None
            },
            Value::Immediate(_) => None,
        }
    }

    /// Wraps a raw word.
    pub fn from_raw(raw: u64) -> (p: TaggedPointer)
        ensures
            p@ == raw,
    {
        TaggedPointer { raw }
    }

    /// The raw word.
    pub fn raw(&self) -> (raw: u64)
        ensures
            raw == self@,
    {
        self.raw
    }

    /// The null reference: the zero word.
    pub fn null() -> (p: TaggedPointer)
        ensures
            p@ == 0,
            p.value() == Value::Reference(0),
    {
        TaggedPointer { raw: 0 }
    }

    /// The word that holds nil.
    pub fn nil() -> (p: TaggedPointer)
        ensures
            p@ == encode_spec(Immediate::Nil),
            p.value() == Value::Immediate(Immediate::Nil),
    {
        TaggedPointer { raw: 6 }
    }

    /// The word that holds a boolean.
    pub fn boolean(b: bool) -> (p: TaggedPointer)
        ensures
            p@ == encode_spec(Immediate::Boolean(b)),
            p.value() == Value::Immediate(Immediate::Boolean(b)),
    {
        if b {
            TaggedPointer { raw: 10 }
        } else {
            TaggedPointer { raw: 2 }
        }
    }

    /// The word that holds a float's bit pattern.
    pub fn float(bits: u32) -> (p: TaggedPointer)
        ensures
            p@ == encode_spec(Immediate::Float(bits)),
            p.value() == Value::Immediate(Immediate::Float(bits)),
    {
        let wide: u64 = bits as u64;
        assert((wide << 32) | 4 == wide * 0x1_0000_0000 + 4) by (bit_vector)
            requires
                wide <= 0xffff_ffff,
        ;
        TaggedPointer { raw: (wide << 32) | 4 }
    }

    /// The word that holds an integer, if the integer fits in 63 bits.
    pub fn integer(i: i64) -> (p: Option<TaggedPointer>)
        ensures
            p is Some <==> Immediate::Integer(i).representable(),
            p matches Some(w) ==> w@ == encode_spec(Immediate::Integer(i)) && w.value()
                == Value::Immediate(Immediate::Integer(i)),
    {
        if i < MIN_INTEGER || i > MAX_INTEGER {
            return None;
        }
        let payload: u64 = if i >= 0 {
            i as u64
        } else {
            ((i - MIN_INTEGER) as u64) + 0x4000_0000_0000_0000
        };
        assert((payload << 1) | 1 == payload * 2 + 1) by (bit_vector)
            requires
                payload < 0x8000_0000_0000_0000,
        ;
        Some(TaggedPointer { raw: (payload << 1) | 1 })
    }

    /// The word that refers to the object at `address`, if the address is
    /// aligned to eight bytes.
    pub fn reference(address: u64) -> (p: Option<TaggedPointer>)
        ensures
            p is Some <==> address % 8 == 0,
            p matches Some(w) ==> w@ == address && w.value() == Value::Reference(address),
    {
        if address % 8 == 0 {
            Some(TaggedPointer { raw: address })
        } else {
            None
        }
    }

    /// Encodes an immediate value; `None` when an integer does not fit and
    /// has to be boxed on the heap instead.
    pub fn encode(value: Immediate) -> (p: Option<TaggedPointer>)
        ensures
            p is Some <==> value.representable(),
            p matches Some(w) ==> w@ == encode_spec(value) && w.value() == Value::Immediate(value),
    {
        match value {
            Immediate::Nil => Some(TaggedPointer::nil()),
            Immediate::Boolean(b) => Some(TaggedPointer::boolean(b)),
            Immediate::Integer(i) => TaggedPointer::integer(i),
            Immediate::Float(bits) => Some(TaggedPointer::float(bits)),
        }
    }

    /// Decodes the word.
    pub fn decode(&self) -> (v: Value)
        ensures
            v == self.value(),
    {
        let raw = self.raw;
        assert(raw & 1 == raw % 2) by (bit_vector);
        assert(raw & 7 == raw % 8) by (bit_vector);
        assert(raw >> 1 == raw / 2) by (bit_vector);
        assert((raw >> 3) & 1 == (raw / 8) % 2) by (bit_vector);
        assert(raw >> 32 == raw / 0x1_0000_0000) by (bit_vector);
        if raw & 1 == 1 {
            let half: u64 = raw >> 1;
            if half < 0x4000_0000_0000_0000 {
                Value::Immediate(Immediate::Integer(half as i64))
            } else {
                let low: u64 = half - 0x4000_0000_0000_0000;
                Value::Immediate(Immediate::Integer((low as i64) + MIN_INTEGER))
            }
        } else {
            let tag: u64 = raw & 7;
            if tag == 0 {
                Value::Reference(raw)
            } else if tag == 2 {
                Value::Immediate(Immediate::Boolean((raw >> 3) & 1 == 1))
            } else if tag == 4 {
                Value::Immediate(Immediate::Float((raw >> 32) as u32))
            } else {
                Value::Immediate(Immediate::Nil)
            }
        }
    }

    /// Whether the word holds an immediate value.
    pub fn is_immediate(&self) -> (r: bool)
        ensures
            r == (self.value() is Immediate),
    {
        let raw = self.raw;
        assert(raw & 7 == raw % 8) by (bit_vector);
        raw & 7 != 0
    }

    /// Whether the word is a heap reference (null included).
    pub fn is_reference(&self) -> (r: bool)
        ensures
            r == (self.value() is Reference),
    {
        !self.is_immediate()
    }

    /// Whether the word is the null reference.
    pub fn is_null(&self) -> (r: bool)
        ensures
            r == (self@ == 0),
            r == (self.value() == Value::Reference(0)),
    {
        self.raw == 0
    }

    /// The address the word refers to. Fails with `TypeMismatch` when the
    /// word holds an immediate value.
    pub fn as_reference(&self) -> (r: Result<u64, RuntimeError>)
        ensures
            r == match self.value() {
                Value::Reference(a) => Ok::<u64, RuntimeError>(a),
                Value::Immediate(_) => Err::<u64, RuntimeError>(RuntimeError::TypeMismatch),
            },
    {
        match self.decode() {
            Value::Reference(a) => Ok(a),
            Value::Immediate(_) => Err(RuntimeError::TypeMismatch),
        }
    }

    /// The integer the word holds. Fails with `TypeMismatch` for anything
    /// else.
    pub fn as_integer(&self) -> (r: Result<i64, RuntimeError>)
        ensures
            r == match self.value() {
                Value::Immediate(Immediate::Integer(i)) => Ok::<i64, RuntimeError>(i),
                _ => Err::<i64, RuntimeError>(RuntimeError::TypeMismatch),
            },
    {
        match self.decode() {
            Value::Immediate(Immediate::Integer(i)) => Ok(i),
            _ => Err(RuntimeError::TypeMismatch),
        }
    }

    /// The boolean the word holds. Fails with `TypeMismatch` for anything
    /// else.
    pub fn as_boolean(&self) -> (r: Result<bool, RuntimeError>)
        ensures
            r == match self.value() {
                Value::Immediate(Immediate::Boolean(b)) => Ok::<bool, RuntimeError>(b),
                _ => Err::<bool, RuntimeError>(RuntimeError::TypeMismatch),
            },
    {
        match self.decode() {
            Value::Immediate(Immediate::Boolean(b)) => Ok(b),
            _ => Err(RuntimeError::TypeMismatch),
        }
    }

    /// The float bit pattern the word holds. Fails with `TypeMismatch` for
    /// anything else.
    pub fn as_float(&self) -> (r: Result<u32, RuntimeError>)
        ensures
            r == match self.value() {
                Value::Immediate(Immediate::Float(bits)) => Ok::<u32, RuntimeError>(bits),
                _ => Err::<u32, RuntimeError>(RuntimeError::TypeMismatch),
            },
    {
        match self.decode() {
            Value::Immediate(Immediate::Float(bits)) => Ok(bits),
            _ => Err(RuntimeError::TypeMismatch),
        }
    }
}

} // verus!
