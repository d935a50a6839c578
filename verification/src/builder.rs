//! Instruction sequences for storage, memory, hashing, strings and returns.
//!
//! In the comments on stacks the top is on the right.

use vstd::prelude::*;
use vstd::utf8::encode_utf8;

use crate::assembler::{Asm, Instr, Label, Op, Program};
use crate::bytes::minimal_be;
use crate::keccak::{keccak256_bytes, keccak256_digest};
use crate::word::Word;

verus! {

/// `PUSH1 byte`.
pub open spec fn push1(byte: u8) -> Instr {
    Instr::Push(seq![byte])
}

/// The push of a number, in as few bytes as it needs.
pub open spec fn push_number(value: nat) -> Instr {
    Instr::Push(minimal_be(value))
}

/// Stores the value on the stack at memory `0..32` and returns these 32 bytes.
pub open spec fn return_word_code() -> Seq<Instr> {
    seq![push1(0x00), Op::MStore@, push1(0x20), push1(0x00), Op::Return@]
}

/// Reverts without data.
pub open spec fn revert_empty_code() -> Seq<Instr> {
    seq![push1(0x00), push1(0x00), Op::Revert@]
}

/// `[key] -> [keccak256(key ++ base)]`.
pub open spec fn mapping_slot_code(base: nat) -> Seq<Instr> {
    seq![
        push1(0x00),
        Op::MStore@,
        push_number(base),
        push1(0x20),
        Op::MStore@,
        push1(0x40),
        push1(0x00),
        Op::Keccak256@,
    ]
}

/// `[index] -> [keccak256(base) + index]`.
pub open spec fn array_elem_slot_code(base: nat) -> Seq<Instr> {
    seq![
        push_number(base),
        push1(0x00),
        Op::MStore@,
        push1(0x20),
        push1(0x00),
        Op::Keccak256@,
        Op::Add@,
    ]
}

/// `[base, key] -> [keccak256(key ++ base)]`.
pub open spec fn mapping_slot_from_stack_code() -> Seq<Instr> {
    seq![
        push1(0x00),
        Op::MStore@,
        push1(0x20),
        Op::MStore@,
        push1(0x40),
        push1(0x00),
        Op::Keccak256@,
    ]
}

/// `[base, index] -> [keccak256(base) + index]`.
pub open spec fn array_elem_slot_from_stack_code() -> Seq<Instr> {
    seq![
        Instr::Swap(1),
        push1(0x00),
        Op::MStore@,
        push1(0x20),
        push1(0x00),
        Op::Keccak256@,
        Op::Add@,
    ]
}

/// Returns the packed short string on the stack in the form of the contract ABI: offset, length,
/// padded data.
pub open spec fn return_short_string_code() -> Seq<Instr> {
    seq![
        Instr::Dup(1),
        push1(0xff),
        Op::And@,
        push1(0x01),
        Op::Shr@,
        push1(0x20),
        Op::MStore@,
        push1(0xff),
        Op::Not@,
        Op::And@,
        push1(0x40),
        Op::MStore@,
        push1(0x20),
        push1(0x00),
        Op::MStore@,
        push1(0x60),
        push1(0x00),
        Op::Return@,
    ]
}

/// Copies the word that lies `back` bytes before the end of the code to memory `dest`.
pub open spec fn copy_code_word_code(back: nat, dest: u8) -> Seq<Instr> {
    seq![
        push1(0x20),
        push_number(back),
        Op::CodeSize@,
        Op::Sub@,
        push1(dest),
        Op::CodeCopy@,
    ]
}

/// Reverts unless the length on the stack is below 32.
pub open spec fn short_length_code(ok: Label) -> Seq<Instr> {
    seq![
        Instr::Dup(1),
        push1(32),
        Op::Gt@,
        Instr::JumpI(ok),
        push1(0x00),
        push1(0x00),
        Op::Revert@,
        Instr::JumpDest(ok),
    ]
}

/// Reads the string parameter whose head word is at `head` of the call data, reverts unless it is
/// shorter than 32 bytes, and stores it packed at memory `slot`.
pub open spec fn decode_short_string_param_code(head: nat, slot: nat, ok: Label) -> Seq<Instr> {
    seq![
        push_number(head),
        Op::CallDataLoad@,
        push1(0x04),
        Op::Add@,
        Instr::Dup(1),
        Op::CallDataLoad@,
        Instr::Dup(1),
        push1(32),
        Op::Gt@,
        Instr::JumpI(ok),
        push1(0x00),
        push1(0x00),
        Op::Revert@,
        Instr::JumpDest(ok),
        Instr::Swap(1),
        push1(0x20),
        Op::Add@,
        Op::CallDataLoad@,
        push1(0xff),
        Op::Not@,
        Op::And@,
        Instr::Swap(1),
        push1(0x01),
        Op::Shl@,
        Op::Or@,
        push_number(slot),
        Op::MStore@,
    ]
}

/// Copies the length word that lies `len_back` bytes before the end of the code and the data word
/// that lies `data_back` bytes before it, reverts unless the length is below 32, and stores the
/// packed string at memory `slot`.
pub open spec fn decode_short_string_constructor_arg_code(
    len_back: nat,
    data_back: nat,
    slot: nat,
    ok: Label,
) -> Seq<Instr> {
    seq![
        push1(0x20),
        push_number(len_back),
        Op::CodeSize@,
        Op::Sub@,
        push1(0x00),
        Op::CodeCopy@,
        push1(0x20),
        push_number(data_back),
        Op::CodeSize@,
        Op::Sub@,
        push1(0x20),
        Op::CodeCopy@,
        push1(0x00),
        Op::MLoad@,
        Instr::Dup(1),
        push1(32),
        Op::Gt@,
        Instr::JumpI(ok),
        push1(0x00),
        push1(0x00),
        Op::Revert@,
        Instr::JumpDest(ok),
        push1(0x01),
        Op::Shl@,
        push1(0x20),
        Op::MLoad@,
        push1(0xff),
        Op::Not@,
        Op::And@,
        Op::Or@,
        push_number(slot),
        Op::MStore@,
    ]
}

impl Asm {
    /// Appends `SLOAD`.
    pub fn sload(&mut self) -> (r: &mut Self)
        ensures
            r@ == old(self)@.with_op(Op::SLoad@),
            *final(self) == *final(r),
    {
        self.add_op(Op::SLoad)
    }

    /// Appends `SSTORE`.
    pub fn sstore(&mut self) -> (r: &mut Self)
        ensures
            r@ == old(self)@.with_op(Op::SStore@),
            *final(self) == *final(r),
    {
        self.add_op(Op::SStore)
    }

    /// Appends `MLOAD`.
    pub fn mload(&mut self) -> (r: &mut Self)
        ensures
            r@ == old(self)@.with_op(Op::MLoad@),
            *final(self) == *final(r),
    {
        self.add_op(Op::MLoad)
    }

    /// Appends `MSTORE`.
    pub fn mstore(&mut self) -> (r: &mut Self)
        ensures
            r@ == old(self)@.with_op(Op::MStore@),
            *final(self) == *final(r),
    {
        self.add_op(Op::MStore)
    }

    /// Loads a storage slot onto the stack.
    pub fn load_slot(&mut self, slot: Word) -> (r: &mut Self)
        ensures
            r@ == old(self)@.with_code(seq![push_number(slot@), Op::SLoad@]),
            *final(self) == *final(r),
    {
        self.push_word(slot).sload()
    }

    /// Stores the value on the stack in a storage slot.
    pub fn store_slot(&mut self, slot: Word) -> (r: &mut Self)
        ensures
            r@ == old(self)@.with_code(seq![push_number(slot@), Op::SStore@]),
            *final(self) == *final(r),
    {
        self.push_word(slot).sstore()
    }

    /// Appends `ADD`.
    pub fn add(&mut self) -> (r: &mut Self)
        ensures
            r@ == old(self)@.with_op(Op::Add@),
            *final(self) == *final(r),
    {
        self.add_op(Op::Add)
    }

    /// Appends `KECCAK256`.
    pub fn keccak256(&mut self) -> (r: &mut Self)
        ensures
            r@ == old(self)@.with_op(Op::Keccak256@),
            *final(self) == *final(r),
    {
        self.add_op(Op::Keccak256)
    }

    /// Returns the word on the stack.
    pub fn return_word(&mut self) -> (r: &mut Self)
        ensures
            r@ == old(self)@.with_code(return_word_code()),
            *final(self) == *final(r),
    {
        self.push_u8(0x00)
            .add_op(Op::MStore)
            .push_u8(0x20)
            .push_u8(0x00)
            .add_op(Op::Return)
    }

    /// Reverts without data.
    pub fn revert_empty(&mut self) -> (r: &mut Self)
        ensures
            r@ == old(self)@.with_code(revert_empty_code()),
            *final(self) == *final(r),
    {
        self.push_u8(0x00).push_u8(0x00).add_op(Op::Revert)
    }

    /// The slot of a key in the mapping at slot `base`: `[key] -> [keccak256(key ++ base)]`.
    pub fn mapping_slot(&mut self, base: Word) -> (r: &mut Self)
        ensures
            r@ == old(self)@.with_code(mapping_slot_code(base@)),
            *final(self) == *final(r),
    {
        self.push_u8(0x00)
            .add_op(Op::MStore)
            .push_word(base)
            .push_u8(0x20)
            .add_op(Op::MStore)
            .push_u8(0x40)
            .push_u8(0x00)
            .add_op(Op::Keccak256)
    }

    /// The slot of an element of the array at slot `base`: `[index] -> [keccak256(base) + index]`.
    pub fn array_elem_slot(&mut self, base: Word) -> (r: &mut Self)
        ensures
            r@ == old(self)@.with_code(array_elem_slot_code(base@)),
            *final(self) == *final(r),
    {
        self.push_word(base)
            .push_u8(0x00)
            .mstore()
            .push_u8(0x20)
            .push_u8(0x00)
            .keccak256()
            .add()
    }

    /// `keccak256(key ++ base)` with base and key both taken from the stack, so that the base can
    /// itself be a computed slot (nested mappings): `[base, key] -> [slot]`.
    pub fn mapping_slot_from_stack(&mut self) -> (r: &mut Self)
        ensures
            r@ == old(self)@.with_code(mapping_slot_from_stack_code()),
            *final(self) == *final(r),
    {
        self.push_u8(0x00)
            .mstore()
            .push_u8(0x20)
            .mstore()
            .push_u8(0x40)
            .push_u8(0x00)
            .keccak256()
    }

    /// `keccak256(base) + index` with base and index both taken from the stack:
    /// `[base, index] -> [slot]`.
    pub fn array_elem_slot_from_stack(&mut self) -> (r: &mut Self)
        ensures
            r@ == old(self)@.with_code(array_elem_slot_from_stack_code()),
            *final(self) == *final(r),
    {
        self.add_op(Op::Swap(1))
            .push_u8(0x00)
            .mstore()
            .push_u8(0x20)
            .push_u8(0x00)
            .keccak256()
            .add()
    }

    /// Appends `POP`.
    pub fn pop(&mut self) -> (r: &mut Self)
        ensures
            r@ == old(self)@.with_op(Op::Pop@),
            *final(self) == *final(r),
    {
        self.add_op(Op::Pop)
    }

    /// Appends `AND`.
    pub fn and(&mut self) -> (r: &mut Self)
        ensures
            r@ == old(self)@.with_op(Op::And@),
            *final(self) == *final(r),
    {
        self.add_op(Op::And)
    }

    /// Appends `OR`.
    pub fn or(&mut self) -> (r: &mut Self)
        ensures
            r@ == old(self)@.with_op(Op::Or@),
            *final(self) == *final(r),
    {
        self.add_op(Op::Or)
    }

    /// Appends `NOT`.
    pub fn not(&mut self) -> (r: &mut Self)
        ensures
            r@ == old(self)@.with_op(Op::Not@),
            *final(self) == *final(r),
    {
        self.add_op(Op::Not)
    }

    /// Appends `DUP1`.
    pub fn dup1(&mut self) -> (r: &mut Self)
        ensures
            r@ == old(self)@.with_op(Instr::Dup(1)),
            *final(self) == *final(r),
    {
        self.add_op(Op::Dup(1))
    }

    /// Appends `SWAP1`.
    pub fn swap1(&mut self) -> (r: &mut Self)
        ensures
            r@ == old(self)@.with_op(Instr::Swap(1)),
            *final(self) == *final(r),
    {
        self.add_op(Op::Swap(1))
    }

    /// Appends `SHR`.
    pub fn shr(&mut self) -> (r: &mut Self)
        ensures
            r@ == old(self)@.with_op(Op::Shr@),
            *final(self) == *final(r),
    {
        self.add_op(Op::Shr)
    }

    /// Appends `SHL`.
    pub fn shl(&mut self) -> (r: &mut Self)
        ensures
            r@ == old(self)@.with_op(Op::Shl@),
            *final(self) == *final(r),
    {
        self.add_op(Op::Shl)
    }

    /// Appends `RETURN`.
    pub fn ret(&mut self) -> (r: &mut Self)
        ensures
            r@ == old(self)@.with_op(Op::Return@),
            *final(self) == *final(r),
    {
        self.add_op(Op::Return)
    }

    /// Appends `CODESIZE`.
    pub fn code_size(&mut self) -> (r: &mut Self)
        ensures
            r@ == old(self)@.with_op(Op::CodeSize@),
            *final(self) == *final(r),
    {
        self.add_op(Op::CodeSize)
    }

    /// Appends `CODECOPY`.
    pub fn code_copy(&mut self) -> (r: &mut Self)
        ensures
            r@ == old(self)@.with_op(Op::CodeCopy@),
            *final(self) == *final(r),
    {
        self.add_op(Op::CodeCopy)
    }

    /// Appends `SUB`.
    pub fn sub(&mut self) -> (r: &mut Self)
        ensures
            r@ == old(self)@.with_op(Op::Sub@),
            *final(self) == *final(r),
    {
        self.add_op(Op::Sub)
    }

    /// Appends `CALLER`.
    pub fn msg_sender(&mut self) -> (r: &mut Self)
        ensures
            r@ == old(self)@.with_op(Op::Caller@),
            *final(self) == *final(r),
    {
        self.add_op(Op::Caller)
    }

    /// Appends `ORIGIN`.
    pub fn tx_origin(&mut self) -> (r: &mut Self)
        ensures
            r@ == old(self)@.with_op(Op::Origin@),
            *final(self) == *final(r),
    {
        self.add_op(Op::Origin)
    }

    /// Appends `BALANCE`.
    pub fn balance(&mut self) -> (r: &mut Self)
        ensures
            r@ == old(self)@.with_op(Op::Balance@),
            *final(self) == *final(r),
    {
        self.add_op(Op::Balance)
    }

    /// Appends `CALLDATALOAD`.
    pub fn calldataload(&mut self) -> (r: &mut Self)
        ensures
            r@ == old(self)@.with_op(Op::CallDataLoad@),
            *final(self) == *final(r),
    {
        self.add_op(Op::CallDataLoad)
    }

    /// Appends the push of the Keccak-256 digest of an event signature.
    pub fn push_topic(&mut self, sig: &str) -> (r: &mut Self)
        ensures
            r@ == old(self)@.with_op(Instr::Push(keccak256_digest(encode_utf8(sig@)))),
            *final(self) == *final(r),
    {
        let digest = keccak256_bytes(sig.as_bytes());
        self.push_bytes(digest.as_slice())
    }

    /// Returns the packed short string on the stack in the form of the contract ABI.
    pub fn return_short_string(&mut self) -> (r: &mut Self)
        ensures
            r@ == old(self)@.with_code(return_short_string_code()),
            *final(self) == *final(r),
    {
        self.dup1()
            .push_u8(0xff)
            .and()
            .push_u8(0x01)
            .shr()
            .push_u8(0x20)
            .mstore()
            .push_u8(0xff)
            .not()
            .and()
            .push_u8(0x40)
            .mstore()
            .push_u8(0x20)
            .push_u8(0x00)
            .mstore()
            .push_u8(0x60)
            .push_u8(0x00)
            .ret()
    }

    /// Copies the word that lies `back` bytes before the end of the code to memory `dest`.
    fn copy_code_word(&mut self, back: u32, dest: u8)
        ensures
            final(self)@ == old(self)@.with_code(copy_code_word_code(back as nat, dest)),
    {
        self.push_u8(0x20)
            .push_word(Word::from_u64(back as u64))
            .code_size()
            .sub()
            .push_u8(dest)
            .code_copy();
        assert(self@.instrs =~= old(self)@.instrs + copy_code_word_code(back as nat, dest));
    }

    /// Reverts unless the length on the stack is below 32: the length byte of a packed string has
    /// room for no more.
    fn require_short(&mut self, ok: Label)
        ensures
            final(self)@ == old(self)@.with_code(short_length_code(ok)),
    {
        self.dup1()
            .push_u8(32)
            .add_op(Op::Gt)
            .add_op(Op::JumpI(ok))
            .revert_empty()
            .add_op(Op::JumpDest(ok));
        assert(self@.instrs =~= old(self)@.instrs + short_length_code(ok));
    }

    /// Decodes a short string parameter of a call into memory `slot`.
    pub fn decode_short_string_param(&mut self, head: u32, slot: u32) -> (r: &mut Self)
        requires
            old(self)@.labels < u32::MAX,
        ensures
            r@ == (Program { instrs: old(self)@.instrs, labels: old(self)@.labels + 1 }).with_code(
                decode_short_string_param_code(
                    head as nat,
                    slot as nat,
                    old(self)@.labels as Label,
                ),
            ),
            *final(self) == *final(r),
    {
        let ok = self.fresh_label();
        self.push_word(Word::from_u64(head as u64))
            .calldataload()
            .push_u8(0x04)
            .add()
            .dup1()
            .calldataload();
        self.require_short(ok);
        self.swap1()
            .push_u8(0x20)
            .add()
            .calldataload()
            .push_u8(0xff)
            .not()
            .and()
            .swap1()
            .push_u8(0x01)
            .shl()
            .or()
            .push_word(Word::from_u64(slot as u64))
            .mstore()
    }

    /// Decodes a short string argument of a constructor, which lies at the end of the code, into
    /// memory `slot`.
    pub fn decode_short_string_constructor_arg(
        &mut self,
        len_back: u32,
        data_back: u32,
        slot: u32,
    ) -> (r: &mut Self)
        requires
            old(self)@.labels < u32::MAX,
        ensures
            r@ == (Program { instrs: old(self)@.instrs, labels: old(self)@.labels + 1 }).with_code(
                decode_short_string_constructor_arg_code(
                    len_back as nat,
                    data_back as nat,
                    slot as nat,
                    old(self)@.labels as Label,
                ),
            ),
            *final(self) == *final(r),
    {
        let ok = self.fresh_label();
        self.copy_code_word(len_back, 0x00);
        self.copy_code_word(data_back, 0x20);
        self.push_u8(0x00).mload();
        self.require_short(ok);
        self.push_u8(0x01)
            .shl()
            .push_u8(0x20)
            .mload()
            .push_u8(0xff)
            .not()
            .and()
            .or()
            .push_word(Word::from_u64(slot as u64))
            .mstore()
    }
}

} // verus!
