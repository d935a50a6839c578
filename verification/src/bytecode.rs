//! Bytecode: what each instruction is in bytes, where labels lie, and how programs are put
//! together.

use vstd::prelude::*;

use crate::assembler::{
    assembled, assembles, code_len, encodable, encode, encode_all, label_table, lemma_code_len_take,
    lemma_encodable_assembles, lemma_encode_all_len, operand_valid, simple_opcode, Instr, Label, Op,
    Program,
};
use crate::bytes::be_value;
use crate::contract::{
    body_labels, combinable, creation_code, deployable, lemma_with_bodies_labels, runtime, Entry,
};
use crate::word::limbs_value;

verus! {

/// The opcodes of the instructions without operands.
pub proof fn law_opcodes()
    ensures
        simple_opcode(Op::Stop) == Some(0x00u8),
        simple_opcode(Op::Add) == Some(0x01u8),
        simple_opcode(Op::Mul) == Some(0x02u8),
        simple_opcode(Op::Sub) == Some(0x03u8),
        simple_opcode(Op::Div) == Some(0x04u8),
        simple_opcode(Op::SDiv) == Some(0x05u8),
        simple_opcode(Op::Mod) == Some(0x06u8),
        simple_opcode(Op::SMod) == Some(0x07u8),
        simple_opcode(Op::AddMod) == Some(0x08u8),
        simple_opcode(Op::MulMod) == Some(0x09u8),
        simple_opcode(Op::Exp) == Some(0x0au8),
        simple_opcode(Op::SignExtend) == Some(0x0bu8),
        simple_opcode(Op::Lt) == Some(0x10u8),
        simple_opcode(Op::Gt) == Some(0x11u8),
        simple_opcode(Op::SLt) == Some(0x12u8),
        simple_opcode(Op::SGt) == Some(0x13u8),
        simple_opcode(Op::Eq) == Some(0x14u8),
        simple_opcode(Op::IsZero) == Some(0x15u8),
        simple_opcode(Op::And) == Some(0x16u8),
        simple_opcode(Op::Or) == Some(0x17u8),
        simple_opcode(Op::Xor) == Some(0x18u8),
        simple_opcode(Op::Not) == Some(0x19u8),
        simple_opcode(Op::Byte) == Some(0x1au8),
        simple_opcode(Op::Shl) == Some(0x1bu8),
        simple_opcode(Op::Shr) == Some(0x1cu8),
        simple_opcode(Op::Sar) == Some(0x1du8),
        simple_opcode(Op::Keccak256) == Some(0x20u8),
        simple_opcode(Op::Address) == Some(0x30u8),
        simple_opcode(Op::Balance) == Some(0x31u8),
        simple_opcode(Op::Origin) == Some(0x32u8),
        simple_opcode(Op::Caller) == Some(0x33u8),
        simple_opcode(Op::CallValue) == Some(0x34u8),
        simple_opcode(Op::CallDataLoad) == Some(0x35u8),
        simple_opcode(Op::CallDataSize) == Some(0x36u8),
        simple_opcode(Op::CallDataCopy) == Some(0x37u8),
        simple_opcode(Op::CodeSize) == Some(0x38u8),
        simple_opcode(Op::CodeCopy) == Some(0x39u8),
        simple_opcode(Op::GasPrice) == Some(0x3au8),
        simple_opcode(Op::ExtCodeSize) == Some(0x3bu8),
        simple_opcode(Op::ExtCodeCopy) == Some(0x3cu8),
        simple_opcode(Op::ReturnDataSize) == Some(0x3du8),
        simple_opcode(Op::ReturnDataCopy) == Some(0x3eu8),
        simple_opcode(Op::ExtCodeHash) == Some(0x3fu8),
        simple_opcode(Op::BlockHash) == Some(0x40u8),
        simple_opcode(Op::Coinbase) == Some(0x41u8),
        simple_opcode(Op::Timestamp) == Some(0x42u8),
        simple_opcode(Op::Number) == Some(0x43u8),
        simple_opcode(Op::PrevRandao) == Some(0x44u8),
        simple_opcode(Op::GasLimit) == Some(0x45u8),
        simple_opcode(Op::ChainId) == Some(0x46u8),
        simple_opcode(Op::SelfBalance) == Some(0x47u8),
        simple_opcode(Op::BaseFee) == Some(0x48u8),
        simple_opcode(Op::BlobHash) == Some(0x49u8),
        simple_opcode(Op::BlobBaseFee) == Some(0x4au8),
        simple_opcode(Op::Pop) == Some(0x50u8),
        simple_opcode(Op::MLoad) == Some(0x51u8),
        simple_opcode(Op::MStore) == Some(0x52u8),
        simple_opcode(Op::MStore8) == Some(0x53u8),
        simple_opcode(Op::SLoad) == Some(0x54u8),
        simple_opcode(Op::SStore) == Some(0x55u8),
        simple_opcode(Op::Pc) == Some(0x58u8),
        simple_opcode(Op::MSize) == Some(0x59u8),
        simple_opcode(Op::Gas) == Some(0x5au8),
        simple_opcode(Op::TLoad) == Some(0x5cu8),
        simple_opcode(Op::TStore) == Some(0x5du8),
        simple_opcode(Op::MCopy) == Some(0x5eu8),
        simple_opcode(Op::Create) == Some(0xf0u8),
        simple_opcode(Op::Call) == Some(0xf1u8),
        simple_opcode(Op::CallCode) == Some(0xf2u8),
        simple_opcode(Op::Return) == Some(0xf3u8),
        simple_opcode(Op::DelegateCall) == Some(0xf4u8),
        simple_opcode(Op::Create2) == Some(0xf5u8),
        simple_opcode(Op::StaticCall) == Some(0xfau8),
        simple_opcode(Op::Revert) == Some(0xfdu8),
        simple_opcode(Op::Invalid) == Some(0xfeu8),
        simple_opcode(Op::SelfDestruct) == Some(0xffu8),
{
    reveal(simple_opcode);
}

/// An instruction without operands is the byte of its opcode. The others have none.
pub proof fn law_simple_instruction(op: Op, table: Map<Label, u32>)
    ensures
        match simple_opcode(op) {
            Some(byte) => encode(op@, table) == seq![byte],
            None => op is Push || op is Dup || op is Swap || op is Log || op is Jump || op is JumpI
                || op is JumpDest,
        },
{
    reveal(simple_opcode);
}

/// `PUSH0` is the byte 0x5F, and the opcodes of longer operands follow. The operand comes behind
/// the opcode.
pub proof fn law_push_bytes(bytes: Seq<u8>, table: Map<Label, u32>)
    requires
        bytes.len() <= 32,
    ensures
        encode(Instr::Push(bytes), table).len() == 1 + bytes.len(),
        encode(Instr::Push(bytes), table)[0] == 0x5F + bytes.len(),
        forall|i: int|
            #![trigger bytes[i]]
            0 <= i < bytes.len() ==> encode(Instr::Push(bytes), table)[1 + i] == bytes[i],
{
}

/// `DUP1` is the byte 0x80, `SWAP1` 0x90 and `LOG0` 0xA0. The opcodes of larger operands follow
/// each.
pub proof fn law_stack_and_log_bytes(n: u8, table: Map<Label, u32>)
    ensures
        1 <= n <= 16 ==> encode(Instr::Dup(n), table) == seq![(0x7F + n) as u8],
        1 <= n <= 16 ==> encode(Instr::Swap(n), table) == seq![(0x8F + n) as u8],
        n <= 4 ==> encode(Instr::Log(n), table) == seq![(0xA0 + n) as u8],
{
}

/// A jump pushes the place of its label in two bytes, most significant byte first. `JUMP` is the
/// byte 0x56 and `JUMPI` 0x57. A label without a place counts as zero. `JUMPDEST` is the byte 0x5B.
pub proof fn law_jump_bytes(label: Label, table: Map<Label, u32>)
    ensures
        ({
            let place = if table.dom().contains(label) {
                table[label] as int
            } else {
                0
            };
            let jump = encode(Instr::Jump(label), table);
            let branch = encode(Instr::JumpI(label), table);
            place <= 0xFFFF ==> {
                &&& jump.len() == 4 && jump[0] == 0x61 && jump[3] == 0x56
                &&& branch.len() == 4 && branch[0] == 0x61 && branch[3] == 0x57
                &&& jump[1] * 256 + jump[2] == place
                &&& branch[1] * 256 + branch[2] == place
            }
        }),
        encode(Instr::JumpDest(label), table) == seq![0x5Bu8],
{
}

/// There are opcodes for pushes of up to 32 bytes, for the first sixteen `DUP` and `SWAP`, and for
/// logs of up to four topics.
pub proof fn law_operands(instr: Instr)
    ensures
        operand_valid(instr) <==> match instr {
            Instr::Push(bytes) => bytes.len() <= 32,
            Instr::Dup(n) => n != 0 && n < 17,
            Instr::Swap(n) => n != 0 && n < 17,
            Instr::Log(n) => n < 5,
            _ => true,
        },
{
}

/// The bytecode of a program is that of its instructions, one behind the other, with the places
/// that the labels have in the whole program.
pub proof fn law_bytes_in_order(instrs: Seq<Instr>)
    ensures
        assembled(instrs) == instrs.map_values(
            |instr: Instr| encode(instr, label_table(instrs)),
        ).flatten(),
        assembled(instrs).len() == code_len(instrs),
{
    let table = label_table(instrs);
    let parts = instrs.map_values(|instr: Instr| encode(instr, table));
    lemma_bytes_in_order(instrs, table);
    parts.lemma_flatten_and_flatten_alt_are_equivalent();
    lemma_encode_all_len(instrs, table);
}

/// The bytes of the instructions, one behind the other.
proof fn lemma_bytes_in_order(instrs: Seq<Instr>, table: Map<Label, u32>)
    ensures
        encode_all(instrs, table) == instrs.map_values(
            |instr: Instr| encode(instr, table),
        ).flatten_alt(),
    decreases instrs.len(),
{
    if instrs.len() > 0 {
        let init = instrs.drop_last();
        lemma_bytes_in_order(init, table);
        assert(instrs.map_values(|instr: Instr| encode(instr, table)).drop_last()
            =~= init.map_values(|instr: Instr| encode(instr, table)));
    }
}

/// A label has the place where its last `JUMPDEST` comes in the bytecode: as many bytes come before
/// it as the instructions in front of it have.
pub proof fn law_label_of_last_dest(instrs: Seq<Instr>, label: Label, i: int)
    requires
        assembled(instrs).len() <= u32::MAX,
        0 <= i < instrs.len(),
        instrs[i] == Instr::JumpDest(label),
        forall|j: int| #![trigger instrs[j]] i < j < instrs.len() ==> instrs[j]
            != Instr::JumpDest(label),
    ensures
        label_table(instrs).dom().contains(label),
        label_table(instrs)[label] == assembled(instrs.take(i)).len(),
    decreases instrs.len(),
{
    let init = instrs.drop_last();
    law_bytes_in_order(instrs);
    law_bytes_in_order(instrs.take(i));
    law_bytes_in_order(init);
    lemma_code_len_take(instrs, i);
    if i < instrs.len() - 1 {
        assert forall|j: int| #![trigger init[j]] i < j < init.len() implies init[j]
            != Instr::JumpDest(label) by {
            assert(init[j] == instrs[j]);
        }
        assert(init.take(i) =~= instrs.take(i));
        law_label_of_last_dest(init, label, i);
    } else {
        assert(init =~= instrs.take(i));
    }
}

/// A label without a `JUMPDEST` has no place.
pub proof fn law_label_without_dest(instrs: Seq<Instr>, label: Label)
    requires
        !instrs.contains(Instr::JumpDest(label)),
    ensures
        !label_table(instrs).dom().contains(label),
    decreases instrs.len(),
{
    if instrs.len() > 0 {
        let init = instrs.drop_last();
        assert forall|j: int| 0 <= j < init.len() implies init[j] != Instr::JumpDest(label) by {
            assert(instrs.contains(instrs[j]));
        }
        assert(instrs.contains(instrs.last()));
        law_label_without_dest(init, label);
    }
}

/// A program is assembled if every instruction has an opcode, and the code has no more than 65535
/// bytes.
pub proof fn law_encodable(instrs: Seq<Instr>)
    ensures
        encodable(instrs) <==> {
            &&& assembled(instrs).len() <= 0xFFFF
            &&& forall|i: int|
                #![trigger instrs[i]]
                0 <= i < instrs.len() ==> match instrs[i] {
                    Instr::Push(bytes) => bytes.len() <= 32,
                    Instr::Dup(n) => n != 0 && n < 17,
                    Instr::Swap(n) => n != 0 && n < 17,
                    Instr::Log(n) => n < 5,
                    _ => true,
                }
        },
        encodable(instrs) ==> assembles(instrs),
{
    law_bytes_in_order(instrs);
    if encodable(instrs) {
        lemma_encodable_assembles(instrs);
    }
    assert forall|i: int| #![trigger instrs[i]] operand_valid(instrs[i]) <==> match instrs[i] {
        Instr::Push(bytes) => bytes.len() <= 32,
        Instr::Dup(n) => n != 0 && n < 17,
        Instr::Swap(n) => n != 0 && n < 17,
        Instr::Log(n) => n < 5,
        _ => true,
    } by {
        law_operands(instrs[i]);
    }
}

/// Of two programs put together, the first one stays as it is. The labels of the second are moved
/// up by the number of labels of the first, and nothing else in it changes.
pub proof fn law_appended(a: Program, b: Program, i: int)
    requires
        0 <= i < b.instrs.len(),
    ensures
        a.with_program(b).labels == a.labels + b.labels,
        a.with_program(b).instrs.len() == a.instrs.len() + b.instrs.len(),
        a.with_program(b).instrs.take(a.instrs.len() as int) == a.instrs,
        ({
            let now = a.with_program(b).instrs[a.instrs.len() + i];
            match b.instrs[i] {
                Instr::Jump(label) => a.labels + label <= u32::MAX ==> now == Instr::Jump(
                    (a.labels + label) as u32,
                ),
                Instr::JumpI(label) => a.labels + label <= u32::MAX ==> now == Instr::JumpI(
                    (a.labels + label) as u32,
                ),
                Instr::JumpDest(label) => a.labels + label <= u32::MAX ==> now == Instr::JumpDest(
                    (a.labels + label) as u32,
                ),
                other => now == other,
            }
        }),
{
}

/// Instructions that are added to a program come at its end, and add no labels.
pub proof fn law_added(a: Program, instrs: Seq<Instr>, instr: Instr)
    ensures
        a.with_code(instrs).labels == a.labels,
        a.with_code(instrs).instrs.len() == a.instrs.len() + instrs.len(),
        a.with_code(instrs).instrs.take(a.instrs.len() as int) == a.instrs,
        a.with_code(instrs).instrs.skip(a.instrs.len() as int) == instrs,
        a.with_op(instr) == a.with_code(seq![instr]),
{
    assert(a.instrs.push(instr) =~= a.instrs + seq![instr]);
}

/// Functions can be put into one program if their labels and one for each function are no more
/// than there are.
pub proof fn law_combinable(fns: Seq<Entry>)
    ensures
        combinable(fns) <==> runtime(fns).labels <= u32::MAX,
        runtime(fns).labels == fns.len() + fns.map_values(
            |f: Entry| f.body.labels as int,
        ).fold_left(0int, |sum: int, n: int| sum + n),
{
    lemma_with_bodies_labels(fns, fns.len());
    lemma_label_sum(fns, fns.len());
    assert(fns.take(fns.len() as int) =~= fns);
}

/// The sum of the labels of the first functions.
proof fn lemma_label_sum(fns: Seq<Entry>, k: nat)
    requires
        k <= fns.len(),
    ensures
        body_labels(fns, k) == fns.take(k as int).map_values(
            |f: Entry| f.body.labels as int,
        ).fold_left(0int, |sum: int, n: int| sum + n),
    decreases k,
{
    let all = fns.take(k as int).map_values(|f: Entry| f.body.labels as int);
    if k > 0 {
        lemma_label_sum(fns, (k - 1) as nat);
        assert(all.drop_last() =~= fns.take(k - 1).map_values(|f: Entry| f.body.labels as int));
        assert(all.last() == fns[k - 1].body.labels);
    }
}

/// Creation code starts with the constructor and ends with the runtime code. Fifteen bytes lie in
/// between. Sizes and offsets in them have two bytes.
pub proof fn law_creation_code(constructor: Seq<u8>, code: Seq<u8>)
    ensures
        creation_code(constructor, code).len() == constructor.len() + 15 + code.len(),
        creation_code(constructor, code).take(constructor.len() as int) == constructor,
        creation_code(constructor, code).skip((constructor.len() + 15) as int) == code,
        deployable(constructor, code) <==> constructor.len() + 15 <= 0xFFFF && code.len()
            <= 0xFFFF,
{
    assert(creation_code(constructor, code).take(constructor.len() as int) =~= constructor);
    assert(creation_code(constructor, code).skip((constructor.len() + 15) as int) =~= code);
}

/// The number that a byte string stands for is that of its digits to the base 256, the last one
/// of which counts once.
pub proof fn law_place_value(s: Seq<u8>, b: u8, limbs: Seq<u64>)
    ensures
        be_value(Seq::empty()) == 0,
        be_value(s.push(b)) == be_value(s) * 256 + b,
        limbs.len() == 4 ==> limbs_value(limbs) == limbs[0] + 0x1_0000_0000_0000_0000 * (limbs[1]
            + 0x1_0000_0000_0000_0000 * (limbs[2] + 0x1_0000_0000_0000_0000 * limbs[3])),
{
    assert(s.push(b).drop_last() =~= s);
}

} // verus!
