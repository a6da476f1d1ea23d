//! The 32-bit instruction word and its decoder.
//!
//! An instruction carries its opcode in bits 31..24; the operand encoding of
//! bits 23..0 is opcode-specific and read with the shift-and-mask
//! primitives. A negative shift amount shifts left (widens a field), a
//! non-negative one shifts right (narrows a field down to bit 0).

use vstd::prelude::*;
use crate::render::render_u32;
use crate::render::spec_rendered;

verus! {

/// A 32-bit instruction word. It has no identity beyond its bit pattern.
pub struct Instruction(pub u32);

/// The closed set of operation symbols, ordinal-encoded in declaration
/// order: `MOV` carries value 0 and `ILX` value 21.
#[derive(Clone, Copy, PartialEq, Eq, Structural, Debug)]
pub enum Opcode {
    MOV,
    MEX,
    MRX,
    MMX,
    NIL,
    LFX,
    SWX,
    JMP,
    JSR,
    CMP,
    CMZ,
    ARG,
    ADD,
    SUB,
    MUL,
    DIV,
    AND,
    NOT,
    CAL,
    JPA,
    FLX,
    ILX,
}

/// The numeric encoding of an opcode symbol: its ordinal.
pub open spec fn spec_opcode_value(op: Opcode) -> u8 {
    match op {
        Opcode::MOV => 0,
        Opcode::MEX => 1,
        Opcode::MRX => 2,
        Opcode::MMX => 3,
        Opcode::NIL => 4,
        Opcode::LFX => 5,
        Opcode::SWX => 6,
        Opcode::JMP => 7,
        Opcode::JSR => 8,
        Opcode::CMP => 9,
        Opcode::CMZ => 10,
        Opcode::ARG => 11,
        Opcode::ADD => 12,
        Opcode::SUB => 13,
        Opcode::MUL => 14,
        Opcode::DIV => 15,
        Opcode::AND => 16,
        Opcode::NOT => 17,
        Opcode::CAL => 18,
        Opcode::JPA => 19,
        Opcode::FLX => 20,
        Opcode::ILX => 21,
    }
}

/// The symbol for a numeric opcode value, or nothing for a value with no
/// symbol (values above 21). No value silently aliases to another symbol.
pub open spec fn spec_opcode_of(v: u8) -> Option<Opcode> {
    if v == 0 {
        Some(Opcode::MOV)
    } else if v == 1 {
        Some(Opcode::MEX)
    } else if v == 2 {
        Some(Opcode::MRX)
    } else if v == 3 {
        Some(Opcode::MMX)
    } else if v == 4 {
        Some(Opcode::NIL)
    } else if v == 5 {
        Some(Opcode::LFX)
    } else if v == 6 {
        Some(Opcode::SWX)
    } else if v == 7 {
        Some(Opcode::JMP)
    } else if v == 8 {
        Some(Opcode::JSR)
    } else if v == 9 {
        Some(Opcode::CMP)
    } else if v == 10 {
        Some(Opcode::CMZ)
    } else if v == 11 {
        Some(Opcode::ARG)
    } else if v == 12 {
        Some(Opcode::ADD)
    } else if v == 13 {
        Some(Opcode::SUB)
    } else if v == 14 {
        Some(Opcode::MUL)
    } else if v == 15 {
        Some(Opcode::DIV)
    } else if v == 16 {
        Some(Opcode::AND)
    } else if v == 17 {
        Some(Opcode::NOT)
    } else if v == 18 {
        Some(Opcode::CAL)
    } else if v == 19 {
        Some(Opcode::JPA)
    } else if v == 20 {
        Some(Opcode::FLX)
    } else if v == 21 {
        Some(Opcode::ILX)
    } else {
        None
    }
}

/// The opcode value of an instruction word: its top byte, bits 31..24.
pub open spec fn spec_opcode(w: u32) -> u8 {
    (w >> 24) as u8
}

/// The signed-shift primitive: a negative amount shifts left by its
/// magnitude, a non-negative one shifts right with zero fill.
pub open spec fn spec_shift(w: u32, s: i8) -> u32 {
    if s < 0 {
        w << ((0 - s) as u32)
    } else {
        w >> (s as u32)
    }
}

/// The numeric-to-symbol mapping hits exactly the values up to 21, and
/// decodes each symbol back to its own ordinal.
pub proof fn lemma_opcode_of_value(v: u8)
    ensures
        spec_opcode_of(v) is Some <==> v <= 21,
        spec_opcode_of(v) matches Some(op) ==> spec_opcode_value(op) == v,
        forall|op: Opcode| spec_opcode_of(spec_opcode_value(op)) == Some(op),
{
}

impl Instruction {
    /// The raw instruction word.
    pub fn as_u32(&self) -> (r: u32)
        ensures
            r == self.0,
    {
        self.0
    }

    /// The word as upper-case hexadecimal text, at least four digits after
    /// the `0x` tag.
    pub fn as_hex(&self) -> (r: String)
        ensures
            r@ == spec_rendered(self.0 as int, 16, 4, 'x'),
    {
        render_u32(self.0, 16, 4, 'x')
    }

    /// The word as binary text, at least 27 digits after the `0b` tag.
    pub fn as_bin(&self) -> (r: String)
        ensures
            r@ == spec_rendered(self.0 as int, 2, 27, 'b'),
    {
        render_u32(self.0, 2, 27, 'b')
    }

    /// The opcode value: bits 31..24 of the word.
    pub fn get_opcode(&self) -> (r: u8)
        ensures
            r == spec_opcode(self.0),
    {
        (self.0 >> 24) as u8
    }

    /// The opcode value as hexadecimal text after a `0x` tag.
    pub fn get_ophex(&self) -> (r: String)
        ensures
            r@ == spec_rendered(spec_opcode(self.0) as int, 16, 1, 'x'),
    {
        render_u32(self.get_opcode() as u32, 16, 1, 'x')
    }

    /// The opcode symbol of the word, or nothing when the opcode value has
    /// no symbol; decoding never panics and never aliases to a default.
    pub fn get_op(&self) -> (r: Option<Opcode>)
        ensures
            r == spec_opcode_of(spec_opcode(self.0)),
            r is Some <==> spec_opcode(self.0) <= 21,
            r matches Some(op) ==> spec_opcode_value(op) == spec_opcode(self.0),
    {
        match self.get_opcode() {
            0 => Some(Opcode::MOV),
            1 => Some(Opcode::MEX),
            2 => Some(Opcode::MRX),
            3 => Some(Opcode::MMX),
            4 => Some(Opcode::NIL),
            5 => Some(Opcode::LFX),
            6 => Some(Opcode::SWX),
            7 => Some(Opcode::JMP),
            8 => Some(Opcode::JSR),
            9 => Some(Opcode::CMP),
            10 => Some(Opcode::CMZ),
            11 => Some(Opcode::ARG),
            12 => Some(Opcode::ADD),
            13 => Some(Opcode::SUB),
            14 => Some(Opcode::MUL),
            15 => Some(Opcode::DIV),
            16 => Some(Opcode::AND),
            17 => Some(Opcode::NOT),
            18 => Some(Opcode::CAL),
            19 => Some(Opcode::JPA),
            20 => Some(Opcode::FLX),
            21 => Some(Opcode::ILX),
            _ => None,
        }
    }

    /// Whether bit `pos` of the word is set; bit 0 is the least significant.
    pub fn get_bit(&self, pos: u8) -> (r: bool)
        requires
            pos < 32,
        ensures
            r == ((self.0 >> pos as u32) & 1 == 1),
    {
        (self.0 >> pos as u32) & 1 == 1
    }

    /// The word with surrounding bits masked off.
    pub fn mask(&self, mask: u32) -> (r: u32)
        ensures
            r == self.0 & mask,
    {
        self.0 & mask
    }

    /// The general operand-field extractor: shift the field into position,
    /// then mask off the surrounding bits.
    pub fn smask(&self, shift: i8, mask: u32) -> (r: u32)
        requires
            -32 < shift < 32,
        ensures
            r == spec_shift(self.0, shift) & mask,
    {
        self.shift(shift) & mask
    }

    /// The signed-shift primitive: negative shifts left by the magnitude,
    /// non-negative shifts right with zero fill.
    pub fn shift(&self, shift: i8) -> (r: u32)
        requires
            -32 < shift < 32,
        ensures
            r == spec_shift(self.0, shift),
    {
        if shift < 0 {
            self.0 << ((-(shift as i32)) as u32)
        } else {
            self.0 >> (shift as u32)
        }
    }
}

} // verus!
