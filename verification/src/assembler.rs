//! Instructions, and their assembly into bytecode.
//!
//! An [`Asm`] collects instructions whose jumps name labels. Assembling it places every label at
//! the program counter of its `JUMPDEST`.

use std::collections::HashMap;
use vstd::prelude::*;

use crate::bytes::{lemma_minimal_be_is_trim, minimal_be, trim_zeros};
use crate::word::Word;

verus! {

broadcast use vstd::std_specs::hash::group_hash_axioms;

/// A jump target, resolved to a program counter when the program is assembled.
pub type Label = u32;

/// One instruction of the assembler.
///
/// The first seven variants carry an operand. Every other variant is an opcode without operands,
/// whose byte is given by [`Op::simple_byte`].
#[derive(Debug, Clone, PartialEq)]
pub enum Op {
    /// `PUSH0` to `PUSH32`, sized by the operand (an empty operand is `PUSH0`).
    Push(Vec<u8>),
    /// `DUP1` to `DUP16`.
    Dup(u8),
    /// `SWAP1` to `SWAP16`.
    Swap(u8),
    /// `LOG0` to `LOG4`.
    Log(u8),
    /// An unconditional jump to a label.
    Jump(Label),
    /// A jump to a label that is taken if the value on the stack is not zero.
    JumpI(Label),
    /// The place that a label stands for.
    JumpDest(Label),
    Stop,
    Add,
    Mul,
    Sub,
    Div,
    SDiv,
    Mod,
    SMod,
    AddMod,
    MulMod,
    Exp,
    SignExtend,
    Lt,
    Gt,
    SLt,
    SGt,
    Eq,
    IsZero,
    And,
    Or,
    Xor,
    Not,
    Byte,
    Shl,
    Shr,
    Sar,
    Keccak256,
    Address,
    Balance,
    Origin,
    Caller,
    CallValue,
    CallDataLoad,
    CallDataSize,
    CallDataCopy,
    CodeSize,
    CodeCopy,
    GasPrice,
    ExtCodeSize,
    ExtCodeCopy,
    ReturnDataSize,
    ReturnDataCopy,
    ExtCodeHash,
    BlockHash,
    Coinbase,
    Timestamp,
    Number,
    PrevRandao,
    GasLimit,
    ChainId,
    SelfBalance,
    BaseFee,
    BlobHash,
    BlobBaseFee,
    Pop,
    MLoad,
    MStore,
    MStore8,
    SLoad,
    SStore,
    Pc,
    MSize,
    Gas,
    TLoad,
    TStore,
    MCopy,
    Create,
    Call,
    CallCode,
    Return,
    DelegateCall,
    Create2,
    StaticCall,
    Revert,
    Invalid,
    SelfDestruct,
}

/// The mathematical form of an instruction. An opcode without operands is its byte.
pub enum Instr {
    Push(Seq<u8>),
    Dup(u8),
    Swap(u8),
    Log(u8),
    Jump(Label),
    JumpI(Label),
    JumpDest(Label),
    Simple(u8),
}

/// The byte of an opcode without operands, `None` for an instruction that carries an operand.
#[verifier::opaque]
pub open spec fn simple_opcode(op: Op) -> Option<u8> {
    match op {
            Op::Stop => Some(0x00u8),
            Op::Add => Some(0x01u8),
            Op::Mul => Some(0x02u8),
            Op::Sub => Some(0x03u8),
            Op::Div => Some(0x04u8),
            Op::SDiv => Some(0x05u8),
            Op::Mod => Some(0x06u8),
            Op::SMod => Some(0x07u8),
            Op::AddMod => Some(0x08u8),
            Op::MulMod => Some(0x09u8),
            Op::Exp => Some(0x0au8),
            Op::SignExtend => Some(0x0bu8),
            Op::Lt => Some(0x10u8),
            Op::Gt => Some(0x11u8),
            Op::SLt => Some(0x12u8),
            Op::SGt => Some(0x13u8),
            Op::Eq => Some(0x14u8),
            Op::IsZero => Some(0x15u8),
            Op::And => Some(0x16u8),
            Op::Or => Some(0x17u8),
            Op::Xor => Some(0x18u8),
            Op::Not => Some(0x19u8),
            Op::Byte => Some(0x1au8),
            Op::Shl => Some(0x1bu8),
            Op::Shr => Some(0x1cu8),
            Op::Sar => Some(0x1du8),
            Op::Keccak256 => Some(0x20u8),
            Op::Address => Some(0x30u8),
            Op::Balance => Some(0x31u8),
            Op::Origin => Some(0x32u8),
            Op::Caller => Some(0x33u8),
            Op::CallValue => Some(0x34u8),
            Op::CallDataLoad => Some(0x35u8),
            Op::CallDataSize => Some(0x36u8),
            Op::CallDataCopy => Some(0x37u8),
            Op::CodeSize => Some(0x38u8),
            Op::CodeCopy => Some(0x39u8),
            Op::GasPrice => Some(0x3au8),
            Op::ExtCodeSize => Some(0x3bu8),
            Op::ExtCodeCopy => Some(0x3cu8),
            Op::ReturnDataSize => Some(0x3du8),
            Op::ReturnDataCopy => Some(0x3eu8),
            Op::ExtCodeHash => Some(0x3fu8),
            Op::BlockHash => Some(0x40u8),
            Op::Coinbase => Some(0x41u8),
            Op::Timestamp => Some(0x42u8),
            Op::Number => Some(0x43u8),
            Op::PrevRandao => Some(0x44u8),
            Op::GasLimit => Some(0x45u8),
            Op::ChainId => Some(0x46u8),
            Op::SelfBalance => Some(0x47u8),
            Op::BaseFee => Some(0x48u8),
            Op::BlobHash => Some(0x49u8),
            Op::BlobBaseFee => Some(0x4au8),
            Op::Pop => Some(0x50u8),
            Op::MLoad => Some(0x51u8),
            Op::MStore => Some(0x52u8),
            Op::MStore8 => Some(0x53u8),
            Op::SLoad => Some(0x54u8),
            Op::SStore => Some(0x55u8),
            Op::Pc => Some(0x58u8),
            Op::MSize => Some(0x59u8),
            Op::Gas => Some(0x5au8),
            Op::TLoad => Some(0x5cu8),
            Op::TStore => Some(0x5du8),
            Op::MCopy => Some(0x5eu8),
            Op::Create => Some(0xf0u8),
            Op::Call => Some(0xf1u8),
            Op::CallCode => Some(0xf2u8),
            Op::Return => Some(0xf3u8),
            Op::DelegateCall => Some(0xf4u8),
            Op::Create2 => Some(0xf5u8),
            Op::StaticCall => Some(0xfau8),
            Op::Revert => Some(0xfdu8),
            Op::Invalid => Some(0xfeu8),
            Op::SelfDestruct => Some(0xffu8),
        _ => None,
    }
}

impl View for Op {
    type V = Instr;

    open spec fn view(&self) -> Instr {
        match *self {
            Op::Push(bytes) => Instr::Push(bytes@),
            Op::Dup(n) => Instr::Dup(n),
            Op::Swap(n) => Instr::Swap(n),
            Op::Log(n) => Instr::Log(n),
            Op::Jump(label) => Instr::Jump(label),
            Op::JumpI(label) => Instr::JumpI(label),
            Op::JumpDest(label) => Instr::JumpDest(label),
            _ => Instr::Simple(simple_opcode(*self)->Some_0),
        }
    }
}

/// Whether the operand of an instruction is one that the machine has an opcode for.
pub open spec fn operand_valid(instr: Instr) -> bool {
    match instr {
        Instr::Push(bytes) => bytes.len() <= 32,
        Instr::Dup(n) => 1 <= n <= 16,
        Instr::Swap(n) => 1 <= n <= 16,
        Instr::Log(n) => n <= 4,
        _ => true,
    }
}

/// The program counter that a jump to `label` is encoded with: zero for a label without a place.
pub open spec fn target(table: Map<Label, u32>, label: Label) -> u32 {
    if table.dom().contains(label) {
        table[label]
    } else {
        0
    }
}

/// Whether the target of an instruction fits the two bytes that a jump has for it.
pub open spec fn target_fits(instr: Instr, table: Map<Label, u32>) -> bool {
    match instr {
        Instr::Jump(label) => target(table, label) <= 0xFFFF,
        Instr::JumpI(label) => target(table, label) <= 0xFFFF,
        _ => true,
    }
}

/// `PUSH2 pc`, then the jump opcode.
pub open spec fn jump_bytes(pc: u32, opcode: u8) -> Seq<u8> {
    seq![0x61u8, (pc / 0x100) as u8, (pc % 0x100) as u8, opcode]
}

/// The bytes of an instruction.
pub open spec fn encode(instr: Instr, table: Map<Label, u32>) -> Seq<u8> {
    match instr {
        Instr::Push(bytes) => seq![(0x5F + bytes.len()) as u8] + bytes,
        Instr::Dup(n) => seq![(0x80 + (n - 1)) as u8],
        Instr::Swap(n) => seq![(0x90 + (n - 1)) as u8],
        Instr::Log(n) => seq![(0xA0 + n) as u8],
        Instr::Jump(label) => jump_bytes(target(table, label), 0x56),
        Instr::JumpI(label) => jump_bytes(target(table, label), 0x57),
        Instr::JumpDest(_) => seq![0x5Bu8],
        Instr::Simple(byte) => seq![byte],
    }
}

/// The bytes of a program whose labels have the places of `table`.
pub open spec fn encode_all(instrs: Seq<Instr>, table: Map<Label, u32>) -> Seq<u8>
    decreases instrs.len(),
{
    if instrs.len() == 0 {
        Seq::empty()
    } else {
        encode_all(instrs.drop_last(), table) + encode(instrs.last(), table)
    }
}

/// The number of bytes of an instruction, whatever places the labels have.
pub open spec fn width(instr: Instr) -> nat {
    match instr {
        Instr::Push(bytes) => 1 + bytes.len(),
        Instr::Jump(_) => 4,
        Instr::JumpI(_) => 4,
        _ => 1,
    }
}

/// The number of bytes of a program.
pub open spec fn code_len(instrs: Seq<Instr>) -> nat
    decreases instrs.len(),
{
    if instrs.len() == 0 {
        0
    } else {
        code_len(instrs.drop_last()) + width(instrs.last())
    }
}

/// The places of the labels of a program: the program counter of the last `JUMPDEST` of each.
pub open spec fn label_table(instrs: Seq<Instr>) -> Map<Label, u32>
    decreases instrs.len(),
{
    if instrs.len() == 0 {
        Map::empty()
    } else {
        let before = label_table(instrs.drop_last());
        match instrs.last() {
            Instr::JumpDest(label) => before.insert(label, code_len(instrs.drop_last()) as u32),
            _ => before,
        }
    }
}

/// The places of labels after an instruction at the given address.
pub open spec fn with_place(
    table: Map<Label, u32>,
    instr: Instr,
    address: nat,
) -> Map<Label, u32> {
    match instr {
        Instr::JumpDest(label) => table.insert(label, address as u32),
        _ => table,
    }
}

/// The bytecode of a program.
pub open spec fn assembled(instrs: Seq<Instr>) -> Seq<u8> {
    encode_all(instrs, label_table(instrs))
}

/// Whether every instruction has an opcode, and every jump has a target that fits two bytes, in
/// the finished table as in the table of the labels placed so far.
pub open spec fn assembles(instrs: Seq<Instr>) -> bool {
    forall|i: int|
        #![trigger instrs[i]]
        0 <= i < instrs.len() ==> {
            &&& operand_valid(instrs[i])
            &&& target_fits(instrs[i], label_table(instrs))
            &&& target_fits(instrs[i], label_table(instrs.take(i)))
        }
}

/// Whether every instruction has an opcode, and every place in the code has an address of two
/// bytes.
pub open spec fn encodable(instrs: Seq<Instr>) -> bool {
    &&& operands_valid(instrs)
    &&& code_len(instrs) <= 0xFFFF
}

/// Whether every instruction has an opcode.
pub open spec fn operands_valid(instrs: Seq<Instr>) -> bool {
    forall|i: int| #![trigger instrs[i]] 0 <= i < instrs.len() ==> operand_valid(instrs[i])
}

/// The places of the labels after one more instruction.
proof fn lemma_label_table_step(instrs: Seq<Instr>, i: int)
    requires
        0 <= i < instrs.len(),
    ensures
        label_table(instrs.take(i + 1)) == with_place(
            label_table(instrs.take(i)),
            instrs[i],
            code_len(instrs.take(i)),
        ),
        code_len(instrs.take(i + 1)) == code_len(instrs.take(i)) + width(instrs[i]),
{
    assert(instrs.take(i + 1).drop_last() =~= instrs.take(i));
}

/// The instructions of a program that assembles can be emitted, before all labels are placed and
/// after.
proof fn lemma_assembles_at(instrs: Seq<Instr>, i: int)
    requires
        assembles(instrs),
        0 <= i < instrs.len(),
    ensures
        operand_valid(instrs[i]),
        target_fits(instrs[i], label_table(instrs)),
        target_fits(
            instrs[i],
            with_place(label_table(instrs.take(i)), instrs[i], code_len(instrs.take(i))),
        ),
{
}

/// A part of a program is no longer than the whole.
pub proof fn lemma_code_len_take(instrs: Seq<Instr>, i: int)
    requires
        0 <= i <= instrs.len(),
    ensures
        code_len(instrs.take(i)) <= code_len(instrs),
    decreases instrs.len(),
{
    if i < instrs.len() {
        lemma_code_len_take(instrs.drop_last(), i);
        assert(instrs.drop_last().take(i) =~= instrs.take(i));
    } else {
        assert(instrs.take(i) =~= instrs);
    }
}

/// What one more instruction does to the length and the validity of a program.
proof fn lemma_encodable_step(instrs: Seq<Instr>, i: int)
    requires
        0 <= i < instrs.len(),
    ensures
        code_len(instrs.take(i + 1)) == code_len(instrs.take(i)) + width(instrs[i]),
        operands_valid(instrs.take(i + 1)) <==> operands_valid(instrs.take(i)) && operand_valid(
            instrs[i],
        ),
        encodable(instrs) ==> encodable(instrs.take(i + 1)),
{
    let now = instrs.take(i + 1);
    let before = instrs.take(i);
    assert(now.drop_last() =~= before);
    assert(now.last() == instrs[i]);
    lemma_code_len_take(instrs, i + 1);
    if operands_valid(now) {
        assert forall|j: int| #![trigger before[j]] 0 <= j < before.len() implies operand_valid(
            before[j],
        ) by {
            assert(now[j] == before[j]);
        }
        assert(operand_valid(now[i]));
    }
    if operands_valid(before) && operand_valid(instrs[i]) {
        assert forall|j: int| #![trigger now[j]] 0 <= j < now.len() implies operand_valid(
            now[j],
        ) by {
            if j < i {
                assert(now[j] == before[j]);
            }
        }
    }
    if operands_valid(instrs) {
        assert forall|j: int| #![trigger now[j]] 0 <= j < now.len() implies operand_valid(
            now[j],
        ) by {
            assert(now[j] == instrs[j]);
        }
    }
}

/// Labels are placed within the code.
pub proof fn lemma_label_table_bound(instrs: Seq<Instr>, label: Label)
    requires
        code_len(instrs) <= u32::MAX,
    ensures
        target(label_table(instrs), label) <= code_len(instrs),
    decreases instrs.len(),
{
    if instrs.len() > 0 {
        lemma_label_table_bound(instrs.drop_last(), label);
    }
}

/// Code that is short enough can be assembled.
pub proof fn lemma_encodable_assembles(instrs: Seq<Instr>)
    requires
        encodable(instrs),
    ensures
        assembles(instrs),
{
    assert forall|i: int| #![trigger instrs[i]] 0 <= i < instrs.len() implies {
        &&& operand_valid(instrs[i])
        &&& target_fits(instrs[i], label_table(instrs))
        &&& target_fits(instrs[i], label_table(instrs.take(i)))
    } by {
        lemma_code_len_take(instrs, i);
        match instrs[i] {
            Instr::Jump(label) => {
                lemma_label_table_bound(instrs, label);
                lemma_label_table_bound(instrs.take(i), label);
            },
            Instr::JumpI(label) => {
                lemma_label_table_bound(instrs, label);
                lemma_label_table_bound(instrs.take(i), label);
            },
            _ => {},
        }
    }
}

/// The number of bytes of an instruction does not depend on the places of the labels.
pub proof fn lemma_encode_len(instr: Instr, table: Map<Label, u32>)
    ensures
        encode(instr, table).len() == width(instr),
{
}

/// The number of bytes of a program does not depend on the places of the labels.
pub proof fn lemma_encode_all_len(instrs: Seq<Instr>, table: Map<Label, u32>)
    ensures
        encode_all(instrs, table).len() == code_len(instrs),
    decreases instrs.len(),
{
    if instrs.len() > 0 {
        lemma_encode_all_len(instrs.drop_last(), table);
        lemma_encode_len(instrs.last(), table);
    }
}

impl Op {
    /// The byte of an opcode without operands, `None` for an instruction that carries an operand.
    pub fn simple_byte(&self) -> (r: Option<u8>)
        ensures
            r == simple_opcode(*self),
    {
        reveal(simple_opcode);
        match self {
            Op::Stop => Some(0x00u8),
            Op::Add => Some(0x01u8),
            Op::Mul => Some(0x02u8),
            Op::Sub => Some(0x03u8),
            Op::Div => Some(0x04u8),
            Op::SDiv => Some(0x05u8),
            Op::Mod => Some(0x06u8),
            Op::SMod => Some(0x07u8),
            Op::AddMod => Some(0x08u8),
            Op::MulMod => Some(0x09u8),
            Op::Exp => Some(0x0au8),
            Op::SignExtend => Some(0x0bu8),
            Op::Lt => Some(0x10u8),
            Op::Gt => Some(0x11u8),
            Op::SLt => Some(0x12u8),
            Op::SGt => Some(0x13u8),
            Op::Eq => Some(0x14u8),
            Op::IsZero => Some(0x15u8),
            Op::And => Some(0x16u8),
            Op::Or => Some(0x17u8),
            Op::Xor => Some(0x18u8),
            Op::Not => Some(0x19u8),
            Op::Byte => Some(0x1au8),
            Op::Shl => Some(0x1bu8),
            Op::Shr => Some(0x1cu8),
            Op::Sar => Some(0x1du8),
            Op::Keccak256 => Some(0x20u8),
            Op::Address => Some(0x30u8),
            Op::Balance => Some(0x31u8),
            Op::Origin => Some(0x32u8),
            Op::Caller => Some(0x33u8),
            Op::CallValue => Some(0x34u8),
            Op::CallDataLoad => Some(0x35u8),
            Op::CallDataSize => Some(0x36u8),
            Op::CallDataCopy => Some(0x37u8),
            Op::CodeSize => Some(0x38u8),
            Op::CodeCopy => Some(0x39u8),
            Op::GasPrice => Some(0x3au8),
            Op::ExtCodeSize => Some(0x3bu8),
            Op::ExtCodeCopy => Some(0x3cu8),
            Op::ReturnDataSize => Some(0x3du8),
            Op::ReturnDataCopy => Some(0x3eu8),
            Op::ExtCodeHash => Some(0x3fu8),
            Op::BlockHash => Some(0x40u8),
            Op::Coinbase => Some(0x41u8),
            Op::Timestamp => Some(0x42u8),
            Op::Number => Some(0x43u8),
            Op::PrevRandao => Some(0x44u8),
            Op::GasLimit => Some(0x45u8),
            Op::ChainId => Some(0x46u8),
            Op::SelfBalance => Some(0x47u8),
            Op::BaseFee => Some(0x48u8),
            Op::BlobHash => Some(0x49u8),
            Op::BlobBaseFee => Some(0x4au8),
            Op::Pop => Some(0x50u8),
            Op::MLoad => Some(0x51u8),
            Op::MStore => Some(0x52u8),
            Op::MStore8 => Some(0x53u8),
            Op::SLoad => Some(0x54u8),
            Op::SStore => Some(0x55u8),
            Op::Pc => Some(0x58u8),
            Op::MSize => Some(0x59u8),
            Op::Gas => Some(0x5au8),
            Op::TLoad => Some(0x5cu8),
            Op::TStore => Some(0x5du8),
            Op::MCopy => Some(0x5eu8),
            Op::Create => Some(0xf0u8),
            Op::Call => Some(0xf1u8),
            Op::CallCode => Some(0xf2u8),
            Op::Return => Some(0xf3u8),
            Op::DelegateCall => Some(0xf4u8),
            Op::Create2 => Some(0xf5u8),
            Op::StaticCall => Some(0xfau8),
            Op::Revert => Some(0xfdu8),
            Op::Invalid => Some(0xfeu8),
            Op::SelfDestruct => Some(0xffu8),
            _ => None,
        }
    }

    /// Appends the bytes of the instruction to `out`. A jump to a label that `lookup_table` does
    /// not hold gets the target zero.
    pub fn emit(&self, out: &mut Vec<u8>, lookup_table: &HashMap<Label, u32>)
        requires
            operand_valid(self@),
            target_fits(self@, lookup_table@),
        ensures
            final(out)@ == old(out)@ + encode(self@, lookup_table@),
    {
        let ghost before = out@;
        match self {
            Op::Push(bytes) => {
                out.push(0x5F + bytes.len() as u8);
                out.extend_from_slice(bytes.as_slice());
                assert(out@ =~= before + encode(self@, lookup_table@));
            },
            Op::Dup(n) => {
                out.push(0x80 + (*n - 1));
            },
            Op::Swap(n) => {
                out.push(0x90 + (*n - 1));
            },
            Op::Log(n) => {
                out.push(0xA0 + *n);
            },
            Op::Jump(label) => {
                emit_jump(out, lookup_table, *label, 0x56);
            },
            Op::JumpI(label) => {
                emit_jump(out, lookup_table, *label, 0x57);
            },
            Op::JumpDest(_) => {
                out.push(0x5B);
            },
            _ => {
                reveal(simple_opcode);
                match self.simple_byte() {
                    Some(byte) => out.push(byte),
                    None => {},
                }
            },
        }
        assert(out@ =~= before + encode(self@, lookup_table@));
    }

    /// Gives a label its place, where the instruction is one.
    fn place_label(&self, table: &mut HashMap<Label, u32>, place: usize)
        ensures
            final(table)@ == with_place(old(table)@, self@, place as nat),
    {
        if let Op::JumpDest(label) = self {
            table.insert(*label, place as u32);
        }
    }

    /// The number of bytes of the instruction, `None` if the machine has no opcode for it.
    pub fn checked_width(&self) -> (r: Option<usize>)
        ensures
            match r {
                Some(n) => operand_valid(self@) && n == width(self@) && n <= 33,
                None => !operand_valid(self@),
            },
    {
        match self {
            Op::Push(bytes) => if bytes.len() <= 32 {
                Some(1 + bytes.len())
            } else {
                None
            },
            Op::Dup(n) => if 1 <= *n && *n <= 16 {
                Some(1)
            } else {
                None
            },
            Op::Swap(n) => if 1 <= *n && *n <= 16 {
                Some(1)
            } else {
                None
            },
            Op::Log(n) => if *n <= 4 {
                Some(1)
            } else {
                None
            },
            Op::Jump(_) => Some(4),
            Op::JumpI(_) => Some(4),
            _ => Some(1),
        }
    }
}

/// Appends `PUSH2` with the place of the label, then the jump opcode.
fn emit_jump(out: &mut Vec<u8>, lookup_table: &HashMap<Label, u32>, label: Label, opcode: u8)
    requires
        target(lookup_table@, label) <= 0xFFFF,
    ensures
        final(out)@ == old(out)@ + jump_bytes(target(lookup_table@, label), opcode),
{
    let ghost before = out@;
    let pc: u32 = match lookup_table.get(&label) {
        Some(pc) => *pc,
        None => 0,
    };
    out.push(0x61);
    out.push((pc / 0x100) as u8);
    out.push((pc % 0x100) as u8);
    out.push(opcode);
    assert(out@ =~= before + jump_bytes(pc, opcode));
}

/// A label moved up by `base`, modulo the number of labels.
pub open spec fn moved_label(label: Label, base: nat) -> Label {
    ((label + base) % 0x1_0000_0000) as Label
}

/// An instruction whose label, where it has one, is moved up by `base`.
pub open spec fn relocate(instr: Instr, base: nat) -> Instr {
    match instr {
        Instr::Jump(label) => Instr::Jump(moved_label(label, base)),
        Instr::JumpI(label) => Instr::JumpI(moved_label(label, base)),
        Instr::JumpDest(label) => Instr::JumpDest(moved_label(label, base)),
        _ => instr,
    }
}

/// Instructions whose labels are moved up by `base`.
pub open spec fn relocate_all(instrs: Seq<Instr>, base: nat) -> Seq<Instr> {
    instrs.map_values(|instr: Instr| relocate(instr, base))
}

/// The mathematical form of a program: its instructions, and the number of labels handed out.
#[verifier::ext_equal]
pub struct Program {
    pub instrs: Seq<Instr>,
    pub labels: nat,
}

impl Program {
    /// The program followed by further instructions.
    pub open spec fn with_code(self, instrs: Seq<Instr>) -> Program {
        Program { instrs: self.instrs + instrs, labels: self.labels }
    }

    /// The program followed by another one, whose labels are renumbered to follow those of the
    /// first.
    pub open spec fn with_program(self, other: Program) -> Program {
        Program {
            instrs: self.instrs + relocate_all(other.instrs, self.labels),
            labels: self.labels + other.labels,
        }
    }

    /// The program followed by one instruction.
    pub open spec fn with_op(self, instr: Instr) -> Program {
        Program { instrs: self.instrs.push(instr), labels: self.labels }
    }
}

/// A program under construction.
pub struct Asm {
    ops: Vec<Op>,
    next_label: Label,
}

impl View for Asm {
    type V = Program;

    closed spec fn view(&self) -> Program {
        Program {
            instrs: self.ops@.map_values(|op: Op| op@),
            labels: self.next_label as nat,
        }
    }
}

/// The trimmed copy of a byte string.
fn trimmed(bytes: &[u8; 32]) -> (r: Vec<u8>)
    ensures
        r@ == trim_zeros(bytes@),
{
    let mut start: usize = 0;
    assert(bytes@.skip(0) =~= bytes@);
    while start < 32 && bytes[start] == 0
        invariant
            start <= 32,
            bytes@.len() == 32,
            trim_zeros(bytes@.skip(start as int)) == trim_zeros(bytes@),
        decreases 32 - start,
    {
        assert(bytes@.skip(start as int).drop_first() =~= bytes@.skip(start + 1));
        start += 1;
    }
    let mut out: Vec<u8> = Vec::new();
    let mut i: usize = start;
    while i < 32
        invariant
            start <= i <= 32,
            bytes@.len() == 32,
            out@ == bytes@.subrange(start as int, i as int),
        decreases 32 - i,
    {
        out.push(bytes[i]);
        i += 1;
    }
    assert(out@ =~= bytes@.skip(start as int));
    out
}

impl Asm {
    /// An empty program, with no labels handed out.
    pub fn new() -> (r: Self)
        ensures
            r@ == (Program { instrs: Seq::empty(), labels: 0 }),
    {
        let r = Self { ops: Vec::new(), next_label: 0 };
        assert(r@.instrs =~= Seq::<Instr>::empty());
        r
    }

    /// Hands out a label that was not handed out before.
    pub fn fresh_label(&mut self) -> (label: Label)
        requires
            old(self)@.labels < u32::MAX,
        ensures
            label == old(self)@.labels,
            final(self)@ == (Program {
                instrs: old(self)@.instrs,
                labels: old(self)@.labels + 1,
            }),
    {
        let label = self.next_label;
        self.next_label += 1;
        label
    }

    /// The number of labels handed out.
    pub fn label_count(&self) -> (r: u32)
        ensures
            r == self@.labels,
    {
        self.next_label
    }

    /// Appends an instruction.
    pub fn add_op(&mut self, op: Op) -> (r: &mut Self)
        ensures
            r@ == old(self)@.with_op(op@),
            *final(self) == *final(r),
    {
        self.ops.push(op);
        assert(self@.instrs =~= old(self)@.instrs.push(op@));
        self
    }

    /// Appends `PUSH1`.
    pub fn push_u8(&mut self, byte: u8) -> (r: &mut Self)
        ensures
            r@ == old(self)@.with_op(Instr::Push(seq![byte])),
            *final(self) == *final(r),
    {
        let bytes: Vec<u8> = vec![byte];
        assert(bytes@ =~= seq![byte]);
        self.add_op(Op::Push(bytes))
    }

    /// Appends the push of a word, in as few bytes as its value needs.
    pub fn push_word(&mut self, word: Word) -> (r: &mut Self)
        ensures
            r@ == old(self)@.with_op(Instr::Push(minimal_be(word@))),
            *final(self) == *final(r),
    {
        let bytes = word.to_be_bytes();
        let significant = trimmed(&bytes);
        proof {
            lemma_minimal_be_is_trim(bytes@);
        }
        self.add_op(Op::Push(significant))
    }

    /// Appends the push of a byte string.
    pub fn push_bytes(&mut self, bytes: &[u8]) -> (r: &mut Self)
        ensures
            r@ == old(self)@.with_op(Instr::Push(bytes@)),
            *final(self) == *final(r),
    {
        let mut copy: Vec<u8> = Vec::new();
        copy.extend_from_slice(bytes);
        assert(copy@ =~= bytes@);
        self.add_op(Op::Push(copy))
    }

    /// Appends a whole program. Its labels are renumbered to follow those of this program.
    pub fn append(&mut self, other: Asm)
        requires
            old(self)@.labels + other@.labels <= u32::MAX,
        ensures
            final(self)@ == old(self)@.with_program(other@),
    {
        let ghost theirs = other@.instrs;
        let base = self.next_label;
        let mut moved = other.ops;
        let mut i: usize = 0;
        while i < moved.len()
            invariant
                i <= moved@.len(),
                moved@.len() == theirs.len(),
                forall|j: int|
                    #![trigger moved@[j]]
                    0 <= j < moved@.len() ==> moved@[j]@ == if j < i {
                        relocate(theirs[j], base as nat)
                    } else {
                        theirs[j]
                    },
            decreases moved@.len() - i,
        {
            assert(moved@[i as int]@ == theirs[i as int]);
            let replaced = match &moved[i] {
                Op::Jump(label) => Some(Op::Jump(label.wrapping_add(base))),
                Op::JumpI(label) => Some(Op::JumpI(label.wrapping_add(base))),
                Op::JumpDest(label) => Some(Op::JumpDest(label.wrapping_add(base))),
                _ => None,
            };
            if let Some(op) = replaced {
                moved[i] = op;
            }
            i += 1;
        }
        self.ops.append(&mut moved);
        self.next_label = base + other.next_label;
        assert(self@.instrs =~= old(self)@.instrs + relocate_all(theirs, base as nat));
    }

    /// Two-pass assembly: the first pass places the labels, the second one emits the bytecode
    /// with the places as jump targets.
    pub fn finish(&self) -> (out: Vec<u8>)
        requires
            assembles(self@.instrs),
        ensures
            out@ == assembled(self@.instrs),
    {
        let table = self.build_label_table();
        let mut out: Vec<u8> = Vec::new();
        let ghost instrs = self@.instrs;
        let mut i: usize = 0;
        while i < self.ops.len()
            invariant
                i <= self.ops@.len(),
                instrs == self@.instrs,
                assembles(instrs),
                table@ == label_table(instrs),
                out@ == encode_all(instrs.take(i as int), table@),
            decreases self.ops@.len() - i,
        {
            assert(self.ops@[i as int]@ == instrs[i as int]);
            proof {
                lemma_assembles_at(instrs, i as int);
            }
            self.ops[i].emit(&mut out, &table);
            i += 1;
            assert(instrs.take(i as int).drop_last() =~= instrs.take(i - 1));
        }
        assert(instrs.take(i as int) =~= instrs);
        out
    }

    /// Whether every instruction has an opcode, and every place in the code has an address of two
    /// bytes.
    pub fn is_encodable(&self) -> (r: bool)
        ensures
            r == encodable(self@.instrs),
    {
        let ghost instrs = self@.instrs;
        let mut len: usize = 0;
        let mut i: usize = 0;
        while i < self.ops.len()
            invariant
                i <= self.ops@.len(),
                instrs == self@.instrs,
                len == code_len(instrs.take(i as int)),
                len <= 0xFFFF,
                operands_valid(instrs.take(i as int)),
            decreases self.ops@.len() - i,
        {
            assert(self.ops@[i as int]@ == instrs[i as int]);
            proof {
                lemma_encodable_step(instrs, i as int);
            }
            let wide = match self.ops[i].checked_width() {
                Some(wide) => wide,
                None => return false,
            };
            len += wide;
            i += 1;
            if len > 0xFFFF {
                return false;
            }
        }
        assert(instrs.take(i as int) =~= instrs);
        true
    }

    /// Assembly of a program that may hold operands without an opcode, or be longer than the
    /// two bytes of a jump reach: `None` then.
    pub fn try_finish(&self) -> (r: Option<Vec<u8>>)
        ensures
            match r {
                Some(out) => encodable(self@.instrs) && out@ == assembled(self@.instrs),
                None => !encodable(self@.instrs),
            },
    {
        let ghost instrs = self@.instrs;
        if !self.is_encodable() {
            return None;
        }
        proof {
            lemma_encodable_assembles(instrs);
        }
        Some(self.finish())
    }

    /// The places of the labels.
    pub fn build_label_table(&self) -> (table: HashMap<Label, u32>)
        requires
            assembles(self@.instrs),
        ensures
            table@ == label_table(self@.instrs),
    {
        let mut table: HashMap<Label, u32> = HashMap::new();
        let mut scratch_pad: Vec<u8> = Vec::new();
        let ghost instrs = self@.instrs;
        let mut i: usize = 0;
        while i < self.ops.len()
            invariant
                i <= self.ops@.len(),
                instrs == self@.instrs,
                assembles(instrs),
                table@ == label_table(instrs.take(i as int)),
                scratch_pad@.len() == code_len(instrs.take(i as int)),
            decreases self.ops@.len() - i,
        {
            assert(self.ops@[i as int]@ == instrs[i as int]);
            proof {
                lemma_label_table_step(instrs, i as int);
                lemma_assembles_at(instrs, i as int);
            }
            self.ops[i].place_label(&mut table, scratch_pad.len());
            self.ops[i].emit(&mut scratch_pad, &table);
            proof {
                lemma_encode_len(instrs[i as int], table@);
            }
            i += 1;
        }
        assert(instrs.take(i as int) =~= instrs);
        table
    }
}

} // verus!
