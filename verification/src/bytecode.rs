//! The instruction set.

use crate::text::{decimal, push_decimal, push_signed, signed_decimal};
use vstd::prelude::*;
use vstd::string::*;

verus! {

/// One instruction. The first operand is a stack slot; the second refers to
/// a stack slot, to an entry of the constant pool, or is a literal.
#[derive(Clone, Copy, Debug, PartialEq, Eq, Structural)]
pub enum ByteCode {
    /// Puts the global named by a constant into a slot.
    GetGlobal(u8, u8),
    /// Stores a slot into the global named by a constant.
    SetGlobal(u8, u8),
    /// Stores a constant into the global named by a constant.
    SetGlobalConst(u8, u8),
    /// Stores one global into another, both named by constants.
    SetGlobalGlobal(u8, u8),
    /// Puts a constant into a slot.
    LoadConst(u8, u16),
    /// Puts nil into a slot.
    LoadNil(u8),
    /// Puts a boolean into a slot.
    LoadBool(u8, bool),
    /// Puts a small integer into a slot.
    LoadInt(u8, i16),
    /// Copies the second slot into the first.
    Move(u8, u8),
    /// Calls the function in a slot with the given number of arguments,
    /// which sit in the slots that follow it.
    Call(u8, u8),
}

/// A mnemonic followed by two numbers, with single spaces between.
pub open spec fn two_operands(name: Seq<char>, a: int, b: int) -> Seq<char> {
    name + seq![' '] + signed_decimal(a) + seq![' '] + signed_decimal(b)
}

impl ByteCode {
    /// The line that shows this instruction: its mnemonic and its operands
    /// in decimal, with single spaces between.
    pub open spec fn text(self) -> Seq<char> {
        match self {
            ByteCode::GetGlobal(dst, name) => two_operands("GetGlobal"@, dst as int, name as int),
            ByteCode::SetGlobal(dst, src) => two_operands("SetGlobal"@, dst as int, src as int),
            ByteCode::SetGlobalConst(dst, c) => two_operands(
                "SetGlobalConst"@,
                dst as int,
                c as int,
            ),
            ByteCode::SetGlobalGlobal(dst, src) => two_operands(
                "SetGlobalGlobal"@,
                dst as int,
                src as int,
            ),
            ByteCode::LoadConst(dst, c) => two_operands("LoadConst"@, dst as int, c as int),
            ByteCode::LoadNil(dst) => "LoadNil"@ + seq![' '] + signed_decimal(dst as int),
            ByteCode::LoadBool(dst, b) => "LoadBool"@ + seq![' '] + signed_decimal(dst as int)
                + seq![' '] + if b {
                "true"@
            } else {
                "false"@
            },
            ByteCode::LoadInt(dst, i) => two_operands("LoadInt"@, dst as int, i as int),
            ByteCode::Move(dst, src) => two_operands("Move"@, dst as int, src as int),
            ByteCode::Call(func, args) => two_operands("Call"@, func as int, args as int),
        }
    }

    /// The line that shows this instruction.
    pub fn to_string(&self) -> (s: String)
        ensures
            s@ == self.text(),
    {
        match *self {
            ByteCode::GetGlobal(dst, name) => spell("GetGlobal", dst as i64, name as i64),
            ByteCode::SetGlobal(dst, src) => spell("SetGlobal", dst as i64, src as i64),
            ByteCode::SetGlobalConst(dst, c) => spell("SetGlobalConst", dst as i64, c as i64),
            ByteCode::SetGlobalGlobal(dst, src) => spell("SetGlobalGlobal", dst as i64, src as i64),
            ByteCode::LoadConst(dst, c) => spell("LoadConst", dst as i64, c as i64),
            ByteCode::LoadNil(dst) => {
                let mut s = String::from_str("LoadNil");
                s.push(' ');
                push_signed(&mut s, dst as i64);
                assert(s@ =~= self.text());
                s
            },
            ByteCode::LoadBool(dst, b) => {
                let mut s = String::from_str("LoadBool");
                s.push(' ');
                push_signed(&mut s, dst as i64);
                s.push(' ');
                if b {
                    s.append("true");
                } else {
                    s.append("false");
                }
                assert(s@ =~= self.text());
                s
            },
            ByteCode::LoadInt(dst, i) => spell("LoadInt", dst as i64, i as i64),
            ByteCode::Move(dst, src) => spell("Move", dst as i64, src as i64),
            ByteCode::Call(func, args) => spell("Call", func as i64, args as i64),
        }
    }
}

/// A mnemonic followed by two numbers.
fn spell(name: &str, a: i64, b: i64) -> (s: String)
    ensures
        s@ == two_operands(name@, a as int, b as int),
{
    let mut s = String::from_str(name);
    s.push(' ');
    push_signed(&mut s, a);
    s.push(' ');
    push_signed(&mut s, b);
    assert(s@ =~= two_operands(name@, a as int, b as int));
    s
}

} // verus!
