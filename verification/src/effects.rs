//! Laws of instruction sequences: what they do to the stack, the memory and the storage.

use vstd::arithmetic::power::pow;
use vstd::arithmetic::power2::{
    lemma2_to64, lemma_pow2_adds, lemma_pow2_pos, lemma_pow2_unfold, pow2,
};
use vstd::prelude::*;

use crate::assembler::{simple_opcode, Instr, Label, Op};
use crate::builder::{
    array_elem_slot_code, array_elem_slot_from_stack_code, mapping_slot_code,
    mapping_slot_from_stack_code, push1, push_number, return_short_string_code, return_word_code,
    revert_empty_code,
};
use crate::bytes::{
    be_bytes, be_value, lemma_be_bytes_len, lemma_be_bytes_of_be_value, lemma_be_value_bound,
    lemma_be_value_of_be_bytes, minimal_be,
};
use crate::machine::{
    bit_and, bit_or, bytes_at, calldata_word, effect, flag, hash, lemma_reaches_self,
    lemma_reaches_step, lemma_reaches_trans, load, log_effect, modulus, padded, reaches, running,
    shifted_left, shifted_right, simple_effect, slot_value, step, stored, word, written, Chain,
    Effect, Machine, Memory, State, Status,
};
use crate::word::lemma_pow_256_32;

verus! {

/// The opcodes that compiled code is made of.
pub proof fn lemma_opcodes()
    ensures
        Op::Stop@ == Instr::Simple(0x00),
        Op::Add@ == Instr::Simple(0x01),
        Op::Mul@ == Instr::Simple(0x02),
        Op::Sub@ == Instr::Simple(0x03),
        Op::Div@ == Instr::Simple(0x04),
        Op::Mod@ == Instr::Simple(0x06),
        Op::Lt@ == Instr::Simple(0x10),
        Op::Gt@ == Instr::Simple(0x11),
        Op::Eq@ == Instr::Simple(0x14),
        Op::IsZero@ == Instr::Simple(0x15),
        Op::And@ == Instr::Simple(0x16),
        Op::Or@ == Instr::Simple(0x17),
        Op::Not@ == Instr::Simple(0x19),
        Op::Shl@ == Instr::Simple(0x1b),
        Op::Shr@ == Instr::Simple(0x1c),
        Op::Keccak256@ == Instr::Simple(0x20),
        Op::Address@ == Instr::Simple(0x30),
        Op::Caller@ == Instr::Simple(0x33),
        Op::CallDataLoad@ == Instr::Simple(0x35),
        Op::CodeSize@ == Instr::Simple(0x38),
        Op::CodeCopy@ == Instr::Simple(0x39),
        Op::Timestamp@ == Instr::Simple(0x42),
        Op::Pop@ == Instr::Simple(0x50),
        Op::MLoad@ == Instr::Simple(0x51),
        Op::MStore@ == Instr::Simple(0x52),
        Op::SLoad@ == Instr::Simple(0x54),
        Op::SStore@ == Instr::Simple(0x55),
        Op::Gas@ == Instr::Simple(0x5a),
        Op::Call@ == Instr::Simple(0xf1),
        Op::Return@ == Instr::Simple(0xf3),
        Op::StaticCall@ == Instr::Simple(0xfa),
        Op::Revert@ == Instr::Simple(0xfd),
{
    reveal(simple_opcode);
}

/// The shortest byte string of a number stands for it.
pub proof fn lemma_minimal_be_value(n: nat)
    ensures
        be_value(minimal_be(n)) == n,
    decreases n,
{
    if n > 0 {
        lemma_minimal_be_value(n / 256);
        assert(minimal_be(n).drop_last() =~= minimal_be(n / 256));
    }
}

/// The push of a number pushes it.
pub proof fn lemma_push_number(chain: Chain, n: nat, m: Machine)
    ensures
        effect(chain, push_number(n), m) == Effect::Next(m.pushed(n)),
{
    reveal(effect);
    lemma_minimal_be_value(n);
}

/// The push of a byte pushes it.
pub proof fn lemma_push1(chain: Chain, byte: u8, m: Machine)
    ensures
        effect(chain, push1(byte), m) == Effect::Next(m.pushed(byte as nat)),
{
    reveal(effect);
    reveal_with_fuel(be_value, 2);
    assert(seq![byte].drop_last() =~= Seq::<u8>::empty());
}

/// The effect of code without jumps from position `i` on.
pub open spec fn line(chain: Chain, code: Seq<Instr>, i: int, m: Machine) -> Effect
    decreases code.len() - i,
{
    if i < 0 || i >= code.len() {
        Effect::Next(m)
    } else {
        match effect(chain, code[i], m) {
            Effect::Next(next) => line(chain, code, i + 1, next),
            Effect::Halt(status, last) => Effect::Halt(status, last),
        }
    }
}

/// Whether a program has the given code at position `at`.
#[verifier::opaque]
pub open spec fn holds(program: Seq<Instr>, at: nat, code: Seq<Instr>) -> bool {
    &&& at + code.len() <= program.len()
    &&& program.subrange(at as int, (at + code.len()) as int) == code
}

/// Whether code has no jumps.
pub open spec fn jump_free(code: Seq<Instr>) -> bool {
    forall|i: int|
        #![trigger code[i]]
        0 <= i < code.len() ==> code[i] !is Jump && code[i] !is JumpI
}

proof fn lemma_line_from(
    chain: Chain,
    program: Seq<Instr>,
    at: nat,
    code: Seq<Instr>,
    i: int,
    m: Machine,
) -> (t: State)
    requires
        holds(program, at, code),
        jump_free(code),
        0 <= i <= code.len(),
    ensures
        reaches(chain, program, running((at + i) as nat, m), t),
        match line(chain, code, i, m) {
            Effect::Next(next) => t == running(at + code.len(), next),
            Effect::Halt(status, last) => t.machine == last && t.status == status,
        },
    decreases code.len() - i,
{
    reveal(holds);
    let s = running((at + i) as nat, m);
    if i == code.len() {
        lemma_reaches_self(chain, program, s);
        s
    } else {
        lemma_reaches_step(chain, program, s);
        assert(program.subrange(at as int, (at + code.len()) as int)[i] == program[at + i]);
        match effect(chain, code[i], m) {
            Effect::Next(next) => {
                let t = lemma_line_from(chain, program, at, code, i + 1, next);
                lemma_reaches_trans(chain, program, s, step(chain, program, s), t);
                t
            },
            Effect::Halt(status, last) => step(chain, program, s),
        }
    }
}

/// A program runs through code without jumps as the code does.
pub proof fn lemma_line(
    chain: Chain,
    program: Seq<Instr>,
    at: nat,
    code: Seq<Instr>,
    m: Machine,
) -> (t: State)
    requires
        holds(program, at, code),
        jump_free(code),
    ensures
        reaches(chain, program, running(at, m), t),
        match line(chain, code, 0, m) {
            Effect::Next(next) => t == running(at + code.len(), next),
            Effect::Halt(status, last) => t.machine == last && t.status == status,
        },
{
    lemma_line_from(chain, program, at, code, 0, m)
}

/// A machine with one more element on its stack.
pub proof fn lemma_one_on_top(m: Machine, x: nat)
    ensures
        m.pushed(x).dropped(1) == m,
        m.pushed(x).top(0) == x,
        m.pushed(x).stack.len() == m.stack.len() + 1,
{
    assert(m.pushed(x).dropped(1).stack =~= m.stack);
}

/// A machine with two more elements on its stack.
pub proof fn lemma_two_on_top(m: Machine, x: nat, y: nat)
    ensures
        m.pushed(x).pushed(y).dropped(2) == m,
        m.pushed(x).pushed(y).top(0) == y,
        m.pushed(x).pushed(y).top(1) == x,
        m.pushed(x).pushed(y).stack.len() == m.stack.len() + 2,
{
    assert(m.pushed(x).pushed(y).dropped(2).stack =~= m.stack);
}

/// A machine and the top element of its stack.
pub proof fn lemma_split_one(m: Machine)
    requires
        m.stack.len() >= 1,
    ensures
        m == m.dropped(1).pushed(m.top(0)),
{
    assert(m.dropped(1).pushed(m.top(0)).stack =~= m.stack);
}

/// A machine and the top two elements of its stack.
pub proof fn lemma_split_two(m: Machine)
    requires
        m.stack.len() >= 2,
    ensures
        m == m.dropped(2).pushed(m.top(1)).pushed(m.top(0)),
{
    assert(m.dropped(2).pushed(m.top(1)).pushed(m.top(0)).stack =~= m.stack);
}

/// `ADD`.
pub proof fn op_add(chain: Chain, m: Machine, x: nat, y: nat)
    ensures
        effect(chain, Op::Add@, m.pushed(x).pushed(y)) == Effect::Next(
            m.pushed(word((y + x) as int)),
        ),
{
    reveal(effect);
    reveal(simple_effect);
    lemma_opcodes();
    lemma_two_on_top(m, x, y);
}

/// `MUL`.
pub proof fn op_mul(chain: Chain, m: Machine, x: nat, y: nat)
    ensures
        effect(chain, Op::Mul@, m.pushed(x).pushed(y)) == Effect::Next(
            m.pushed(word((y * x) as int)),
        ),
{
    reveal(effect);
    reveal(simple_effect);
    lemma_opcodes();
    lemma_two_on_top(m, x, y);
}

/// `SUB`.
pub proof fn op_sub(chain: Chain, m: Machine, x: nat, y: nat)
    ensures
        effect(chain, Op::Sub@, m.pushed(x).pushed(y)) == Effect::Next(m.pushed(word(y - x))),
{
    reveal(effect);
    reveal(simple_effect);
    lemma_opcodes();
    lemma_two_on_top(m, x, y);
}

/// `DIV`.
pub proof fn op_div(chain: Chain, m: Machine, x: nat, y: nat)
    ensures
        effect(chain, Op::Div@, m.pushed(x).pushed(y)) == Effect::Next(
            m.pushed(
                if x == 0 {
                    0
                } else {
                    y / x
                },
            ),
        ),
{
    reveal(effect);
    reveal(simple_effect);
    lemma_opcodes();
    lemma_two_on_top(m, x, y);
}

/// `MOD`.
pub proof fn op_mod(chain: Chain, m: Machine, x: nat, y: nat)
    ensures
        effect(chain, Op::Mod@, m.pushed(x).pushed(y)) == Effect::Next(
            m.pushed(
                if x == 0 {
                    0
                } else {
                    y % x
                },
            ),
        ),
{
    reveal(effect);
    reveal(simple_effect);
    lemma_opcodes();
    lemma_two_on_top(m, x, y);
}

/// `LT`.
pub proof fn op_lt(chain: Chain, m: Machine, x: nat, y: nat)
    ensures
        effect(chain, Op::Lt@, m.pushed(x).pushed(y)) == Effect::Next(m.pushed(flag(y < x))),
{
    reveal(effect);
    reveal(simple_effect);
    lemma_opcodes();
    lemma_two_on_top(m, x, y);
}

/// `GT`.
pub proof fn op_gt(chain: Chain, m: Machine, x: nat, y: nat)
    ensures
        effect(chain, Op::Gt@, m.pushed(x).pushed(y)) == Effect::Next(m.pushed(flag(y > x))),
{
    reveal(effect);
    reveal(simple_effect);
    lemma_opcodes();
    lemma_two_on_top(m, x, y);
}

/// `EQ`.
pub proof fn op_eq(chain: Chain, m: Machine, x: nat, y: nat)
    ensures
        effect(chain, Op::Eq@, m.pushed(x).pushed(y)) == Effect::Next(m.pushed(flag(y == x))),
{
    reveal(effect);
    reveal(simple_effect);
    lemma_opcodes();
    lemma_two_on_top(m, x, y);
}

/// `ISZERO`.
pub proof fn op_iszero(chain: Chain, m: Machine, x: nat)
    ensures
        effect(chain, Op::IsZero@, m.pushed(x)) == Effect::Next(m.pushed(flag(x == 0))),
{
    reveal(effect);
    reveal(simple_effect);
    lemma_opcodes();
    lemma_one_on_top(m, x);
}

/// `AND`.
pub proof fn op_and(chain: Chain, m: Machine, x: nat, y: nat)
    ensures
        effect(chain, Op::And@, m.pushed(x).pushed(y)) == Effect::Next(m.pushed(bit_and(y, x))),
{
    reveal(effect);
    reveal(simple_effect);
    lemma_opcodes();
    lemma_two_on_top(m, x, y);
}

/// `OR`.
pub proof fn op_or(chain: Chain, m: Machine, x: nat, y: nat)
    ensures
        effect(chain, Op::Or@, m.pushed(x).pushed(y)) == Effect::Next(m.pushed(bit_or(y, x))),
{
    reveal(effect);
    reveal(simple_effect);
    lemma_opcodes();
    lemma_two_on_top(m, x, y);
}

/// `NOT`.
pub proof fn op_not(chain: Chain, m: Machine, x: nat)
    ensures
        effect(chain, Op::Not@, m.pushed(x)) == Effect::Next(m.pushed((modulus() - 1 - x) as nat)),
{
    reveal(effect);
    reveal(simple_effect);
    lemma_opcodes();
    lemma_one_on_top(m, x);
}

/// `SHL`.
pub proof fn op_shl(chain: Chain, m: Machine, x: nat, y: nat)
    ensures
        effect(chain, Op::Shl@, m.pushed(x).pushed(y)) == Effect::Next(
            m.pushed(shifted_left(x, y)),
        ),
{
    reveal(effect);
    reveal(simple_effect);
    lemma_opcodes();
    lemma_two_on_top(m, x, y);
}

/// `SHR`.
pub proof fn op_shr(chain: Chain, m: Machine, x: nat, y: nat)
    ensures
        effect(chain, Op::Shr@, m.pushed(x).pushed(y)) == Effect::Next(
            m.pushed(shifted_right(x, y)),
        ),
{
    reveal(effect);
    reveal(simple_effect);
    lemma_opcodes();
    lemma_two_on_top(m, x, y);
}

/// `KECCAK256`.
pub proof fn op_keccak256(chain: Chain, m: Machine, x: nat, y: nat)
    ensures
        effect(chain, Op::Keccak256@, m.pushed(x).pushed(y)) == Effect::Next(
            m.pushed(hash(bytes_at(m.memory, y as int, x))),
        ),
{
    reveal(effect);
    reveal(simple_effect);
    lemma_opcodes();
    lemma_two_on_top(m, x, y);
}

/// `ADDRESS`.
pub proof fn op_address(chain: Chain, m: Machine)
    ensures
        effect(chain, Op::Address@, m) == Effect::Next(m.pushed(word(chain.address as int))),
{
    reveal(effect);
    reveal(simple_effect);
    lemma_opcodes();
}

/// `CALLER`.
pub proof fn op_caller(chain: Chain, m: Machine)
    ensures
        effect(chain, Op::Caller@, m) == Effect::Next(m.pushed(word(chain.caller as int))),
{
    reveal(effect);
    reveal(simple_effect);
    lemma_opcodes();
}

/// `CALLDATALOAD`.
pub proof fn op_calldataload(chain: Chain, m: Machine, x: nat)
    ensures
        effect(chain, Op::CallDataLoad@, m.pushed(x)) == Effect::Next(
            m.pushed(calldata_word(chain, x)),
        ),
{
    reveal(effect);
    reveal(simple_effect);
    lemma_opcodes();
    lemma_one_on_top(m, x);
}

/// `CODESIZE`.
pub proof fn op_codesize(chain: Chain, m: Machine)
    ensures
        effect(chain, Op::CodeSize@, m) == Effect::Next(m.pushed(chain.code.len())),
{
    reveal(effect);
    reveal(simple_effect);
    lemma_opcodes();
}

/// `TIMESTAMP`.
pub proof fn op_timestamp(chain: Chain, m: Machine)
    ensures
        effect(chain, Op::Timestamp@, m) == Effect::Next(m.pushed(word(chain.timestamp as int))),
{
    reveal(effect);
    reveal(simple_effect);
    lemma_opcodes();
}

/// `MLOAD`.
pub proof fn op_mload(chain: Chain, m: Machine, x: nat)
    ensures
        effect(chain, Op::MLoad@, m.pushed(x)) == Effect::Next(m.pushed(load(m.memory, x as int))),
{
    reveal(effect);
    reveal(simple_effect);
    lemma_opcodes();
    lemma_one_on_top(m, x);
}

/// `SLOAD`.
pub proof fn op_sload(chain: Chain, m: Machine, x: nat)
    ensures
        effect(chain, Op::SLoad@, m.pushed(x)) == Effect::Next(m.pushed(slot_value(m.storage, x))),
{
    reveal(effect);
    reveal(simple_effect);
    lemma_opcodes();
    lemma_one_on_top(m, x);
}

/// `GAS`.
pub proof fn op_gas(chain: Chain, m: Machine)
    ensures
        effect(chain, Op::Gas@, m) == Effect::Next(m.pushed(word(chain.gas as int))),
{
    reveal(effect);
    reveal(simple_effect);
    lemma_opcodes();
}

/// `POP`.
pub proof fn op_pop(chain: Chain, m: Machine, x: nat)
    ensures
        effect(chain, Op::Pop@, m.pushed(x)) == Effect::Next(m),
{
    reveal(effect);
    reveal(simple_effect);
    lemma_opcodes();
    lemma_one_on_top(m, x);
}

/// `MSTORE`: the offset is on top of the value.
pub proof fn op_mstore(chain: Chain, m: Machine, value: nat, offset: nat)
    ensures
        effect(chain, Op::MStore@, m.pushed(value).pushed(offset)) == Effect::Next(
            m.with_memory(stored(m.memory, offset as int, value)),
        ),
{
    reveal(effect);
    reveal(simple_effect);
    lemma_opcodes();
    lemma_two_on_top(m, value, offset);
}

/// `SSTORE`: the slot is on top of the value.
pub proof fn op_sstore(chain: Chain, m: Machine, value: nat, slot: nat)
    ensures
        effect(chain, Op::SStore@, m.pushed(value).pushed(slot)) == Effect::Next(
            m.with_storage(m.storage.insert(slot, value)),
        ),
{
    reveal(effect);
    reveal(simple_effect);
    lemma_opcodes();
    lemma_two_on_top(m, value, slot);
}

/// `CODECOPY`: the destination is on top of the offset, and the length below.
pub proof fn op_codecopy(chain: Chain, m: Machine, len: nat, offset: nat, dest: nat)
    ensures
        effect(chain, Op::CodeCopy@, m.pushed(len).pushed(offset).pushed(dest)) == Effect::Next(
            m.with_memory(written(m.memory, dest as int, padded(chain.code, offset as int, len))),
        ),
{
    reveal(effect);
    reveal(simple_effect);
    lemma_opcodes();
    let x = m.pushed(len).pushed(offset).pushed(dest);
    assert(x.dropped(3).stack =~= m.stack);
}

/// `STOP`.
pub proof fn op_stop(chain: Chain, m: Machine)
    ensures
        effect(chain, Op::Stop@, m) == Effect::Halt(Status::Stopped, m),
{
    reveal(effect);
    reveal(simple_effect);
    lemma_opcodes();
}

/// `RETURN`: the offset is on top of the length.
pub proof fn op_return(chain: Chain, m: Machine, len: nat, offset: nat)
    ensures
        effect(chain, Op::Return@, m.pushed(len).pushed(offset)) == Effect::Halt(
            Status::Returned(bytes_at(m.memory, offset as int, len)),
            m,
        ),
{
    reveal(effect);
    reveal(simple_effect);
    lemma_opcodes();
    lemma_two_on_top(m, len, offset);
}

/// `REVERT`: the offset is on top of the length.
pub proof fn op_revert(chain: Chain, m: Machine, len: nat, offset: nat)
    ensures
        effect(chain, Op::Revert@, m.pushed(len).pushed(offset)) == Effect::Halt(
            Status::Reverted(bytes_at(m.memory, offset as int, len)),
            m,
        ),
{
    reveal(effect);
    reveal(simple_effect);
    lemma_opcodes();
    lemma_two_on_top(m, len, offset);
}

/// `DUP1`.
pub proof fn op_dup1(chain: Chain, m: Machine, x: nat)
    ensures
        effect(chain, Instr::Dup(1), m.pushed(x)) == Effect::Next(m.pushed(x).pushed(x)),
{
    reveal(effect);
    lemma_one_on_top(m, x);
}

/// `DUP` of an element further down.
pub proof fn op_dup(chain: Chain, m: Machine, n: u8)
    requires
        1 <= n <= m.stack.len(),
    ensures
        effect(chain, Instr::Dup(n), m) == Effect::Next(m.pushed(m.top(n - 1))),
{
    reveal(effect);
}

/// `PUSH` of a byte string.
pub proof fn op_push(chain: Chain, m: Machine, bytes: Seq<u8>)
    ensures
        effect(chain, Instr::Push(bytes), m) == Effect::Next(m.pushed(be_value(bytes))),
{
    reveal(effect);
}

/// `LOG`.
pub proof fn op_log(chain: Chain, m: Machine, n: u8)
    ensures
        effect(chain, Instr::Log(n), m) == log_effect(m, n as nat),
{
    reveal(effect);
}

/// `JUMPDEST`.
pub proof fn op_jumpdest(chain: Chain, m: Machine, label: Label)
    ensures
        effect(chain, Instr::JumpDest(label), m) == Effect::Next(m),
{
    reveal(effect);
}

/// `SWAP1`.
pub proof fn op_swap1(chain: Chain, m: Machine, x: nat, y: nat)
    ensures
        effect(chain, Instr::Swap(1), m.pushed(x).pushed(y)) == Effect::Next(
            m.pushed(y).pushed(x),
        ),
{
    reveal(effect);
    let a = m.pushed(x).pushed(y);
    let k = a.stack.len() - 1;
    assert(a.stack.update(k, a.stack[k - 1]).update(k - 1, a.stack[k]) =~= m.pushed(y).pushed(
        x,
    ).stack);
}

/// One instruction of code without jumps.
pub proof fn advance(chain: Chain, code: Seq<Instr>, i: int, m: Machine, next: Machine)
    requires
        0 <= i < code.len(),
        effect(chain, code[i], m) == Effect::Next(next),
    ensures
        line(chain, code, i, m) == line(chain, code, i + 1, next),
{
}

/// The last instruction of code without jumps that halts.
pub proof fn advance_halt(
    chain: Chain,
    code: Seq<Instr>,
    i: int,
    m: Machine,
    status: Status,
    last: Machine,
)
    requires
        0 <= i < code.len(),
        effect(chain, code[i], m) == Effect::Halt(status, last),
    ensures
        line(chain, code, i, m) == Effect::Halt(status, last),
{
}

/// The number of words, as a power.
pub proof fn lemma_modulus()
    ensures
        pow(256, 32) == modulus(),
        pow2(256) == modulus(),
        pow2(248) * 256 == modulus(),
{
    lemma_pow_256_32();
    lemma2_to64();
    lemma_pow2_adds(64, 64);
    lemma_pow2_adds(128, 128);
    let a = pow2(64);
    let b = pow2(128);
    assert(a * a == 0x1_0000_0000_0000_0000_0000_0000_0000_0000) by (nonlinear_arith)
        requires
            a == 0x1_0000_0000_0000_0000,
    ;
    assert(b * b == modulus()) by (nonlinear_arith)
        requires
            b == 0x1_0000_0000_0000_0000_0000_0000_0000_0000,
    ;
    lemma_pow2_adds(248, 8);
}

/// What was stored is loaded again, and the bytes in memory are those of the word.
pub proof fn law_load_stored(memory: Memory, offset: int, value: nat)
    requires
        value < modulus(),
    ensures
        load(stored(memory, offset, value), offset) == value,
        bytes_at(stored(memory, offset, value), offset, 32) == be_bytes(value, 32),
{
    lemma_modulus();
    lemma_be_bytes_len(value, 32);
    lemma_be_value_of_be_bytes(value, 32);
    assert(bytes_at(stored(memory, offset, value), offset, 32) =~= be_bytes(value, 32));
}

/// A store leaves alone what does not overlap with it.
pub proof fn law_stored_elsewhere(memory: Memory, offset: int, value: nat, other: int, len: nat)
    requires
        other + len <= offset || offset + 32 <= other,
    ensures
        bytes_at(stored(memory, offset, value), other, len) == bytes_at(memory, other, len),
        len == 32 ==> load(stored(memory, offset, value), other) == load(memory, other),
{
    lemma_be_bytes_len(value, 32);
    assert(bytes_at(stored(memory, offset, value), other, len) =~= bytes_at(memory, other, len));
}

/// A word that is loaded is below the number of words, and its bytes are those in memory.
pub proof fn lemma_load_bytes(memory: Memory, offset: int)
    ensures
        load(memory, offset) < modulus(),
        bytes_at(memory, offset, 32) == be_bytes(load(memory, offset), 32),
{
    lemma_modulus();
    let bytes = bytes_at(memory, offset, 32);
    lemma_be_value_bound(bytes);
    lemma_be_bytes_of_be_value(bytes);
}

/// The slot of a key in the mapping at slot `base`.
pub open spec fn mapping_slot(base: nat, key: nat) -> nat {
    hash(be_bytes(key, 32) + be_bytes(base, 32))
}

/// The slot of an element of the array at slot `base`.
pub open spec fn array_slot(base: nat, index: nat) -> nat {
    word((hash(be_bytes(base, 32)) + index) as int)
}

/// The memory after the slot of a key in a mapping was computed.
pub open spec fn mapping_scratch(memory: Memory, base: nat, key: nat) -> Memory {
    stored(stored(memory, 0, key), 0x20, base)
}

proof fn lemma_mapping_hash(memory: Memory, base: nat, key: nat)
    requires
        base < modulus(),
        key < modulus(),
    ensures
        hash(bytes_at(mapping_scratch(memory, base, key), 0, 0x40)) == mapping_slot(base, key),
{
    let first = stored(memory, 0, key);
    let both = mapping_scratch(memory, base, key);
    law_load_stored(memory, 0, key);
    law_stored_elsewhere(first, 0x20, base, 0, 32);
    law_load_stored(first, 0x20, base);
    lemma_be_bytes_len(key, 32);
    lemma_be_bytes_len(base, 32);
    assert forall|i: int| 0 <= i < 0x40 implies #[trigger] bytes_at(both, 0, 0x40)[i] == (be_bytes(
        key,
        32,
    ) + be_bytes(base, 32))[i] by {
        if i < 32 {
            assert(bytes_at(both, 0, 32)[i] == be_bytes(key, 32)[i]);
        } else {
            assert(bytes_at(both, 0x20, 32)[i - 32] == be_bytes(base, 32)[i - 32]);
        }
    }
    assert(bytes_at(both, 0, 0x40) =~= be_bytes(key, 32) + be_bytes(base, 32));
}

/// `mapping_slot_from_stack` leaves the slot of a key in a mapping in the place of the two, and
/// writes only to the scratch space below 0x40.
pub proof fn law_mapping_slot_from_stack(chain: Chain, m: Machine)
    requires
        m.stack.len() >= 2,
        m.top(0) < modulus(),
        m.top(1) < modulus(),
    ensures
        line(chain, mapping_slot_from_stack_code(), 0, m) == Effect::Next(
            m.dropped(2).with_memory(mapping_scratch(m.memory, m.top(1), m.top(0))).pushed(
                mapping_slot(m.top(1), m.top(0)),
            ),
        ),
        jump_free(mapping_slot_from_stack_code()),
{
    let key = m.top(0);
    let base = m.top(1);
    let m0 = m.dropped(2);
    lemma_split_two(m);
    lemma_mapping_hash(m.memory, base, key);
    lemma_opcodes();
    let code = mapping_slot_from_stack_code();
    lemma_push1(chain, 0x00, m);
    let s1 = m.pushed(0);
    advance(chain, code, 0, m, s1);
    op_mstore(chain, m0.pushed(base), key, 0);
    let s2 = m0.pushed(base).with_memory(stored(m.memory, 0, key));
    advance(chain, code, 1, s1, s2);
    lemma_push1(chain, 0x20, s2);
    let s3 = s2.pushed(0x20);
    advance(chain, code, 2, s2, s3);
    op_mstore(chain, m0.with_memory(stored(m.memory, 0, key)), base, 0x20);
    let s4 = m0.with_memory(mapping_scratch(m.memory, base, key));
    advance(chain, code, 3, s3, s4);
    lemma_push1(chain, 0x40, s4);
    let s5 = s4.pushed(0x40);
    advance(chain, code, 4, s4, s5);
    lemma_push1(chain, 0x00, s5);
    let s6 = s5.pushed(0);
    advance(chain, code, 5, s5, s6);
    op_keccak256(chain, s4, 0x40, 0);
    let s7 = s4.pushed(mapping_slot(base, key));
    advance(chain, code, 6, s6, s7);
    assert(line(chain, code, 7, s7) == Effect::Next(s7));
}

/// `mapping_slot` leaves the slot of a key in the mapping at a known slot.
pub proof fn law_mapping_slot(chain: Chain, base: nat, m: Machine)
    requires
        m.stack.len() >= 1,
        m.top(0) < modulus(),
        base < modulus(),
    ensures
        line(chain, mapping_slot_code(base), 0, m) == Effect::Next(
            m.dropped(1).with_memory(mapping_scratch(m.memory, base, m.top(0))).pushed(
                mapping_slot(base, m.top(0)),
            ),
        ),
        jump_free(mapping_slot_code(base)),
{
    let key = m.top(0);
    let m0 = m.dropped(1);
    lemma_split_one(m);
    lemma_mapping_hash(m.memory, base, key);
    lemma_opcodes();
    let code = mapping_slot_code(base);
    lemma_push1(chain, 0x00, m);
    let s1 = m.pushed(0);
    advance(chain, code, 0, m, s1);
    op_mstore(chain, m0, key, 0);
    let s2 = m0.with_memory(stored(m.memory, 0, key));
    advance(chain, code, 1, s1, s2);
    lemma_push_number(chain, base, s2);
    let s3 = s2.pushed(base);
    advance(chain, code, 2, s2, s3);
    lemma_push1(chain, 0x20, s3);
    let s4 = s3.pushed(0x20);
    advance(chain, code, 3, s3, s4);
    op_mstore(chain, s2, base, 0x20);
    let s5 = m0.with_memory(mapping_scratch(m.memory, base, key));
    advance(chain, code, 4, s4, s5);
    lemma_push1(chain, 0x40, s5);
    let s6 = s5.pushed(0x40);
    advance(chain, code, 5, s5, s6);
    lemma_push1(chain, 0x00, s6);
    let s7 = s6.pushed(0);
    advance(chain, code, 6, s6, s7);
    op_keccak256(chain, s5, 0x40, 0);
    let s8 = s5.pushed(mapping_slot(base, key));
    advance(chain, code, 7, s7, s8);
    assert(line(chain, code, 8, s8) == Effect::Next(s8));
}

/// `array_elem_slot` leaves the slot of an element of the array at a known slot, and writes only to
/// the scratch space below 0x20.
pub proof fn law_array_elem_slot(chain: Chain, base: nat, m: Machine)
    requires
        m.stack.len() >= 1,
        m.top(0) < modulus(),
        base < modulus(),
    ensures
        line(chain, array_elem_slot_code(base), 0, m) == Effect::Next(
            m.dropped(1).with_memory(stored(m.memory, 0, base)).pushed(
                array_slot(base, m.top(0)),
            ),
        ),
        jump_free(array_elem_slot_code(base)),
{
    let index = m.top(0);
    let m0 = m.dropped(1);
    lemma_split_one(m);
    law_load_stored(m.memory, 0, base);
    lemma_opcodes();
    let code = array_elem_slot_code(base);
    lemma_push_number(chain, base, m);
    let s1 = m.pushed(base);
    advance(chain, code, 0, m, s1);
    lemma_push1(chain, 0x00, s1);
    let s2 = s1.pushed(0);
    advance(chain, code, 1, s1, s2);
    op_mstore(chain, m, base, 0);
    let s3 = m.with_memory(stored(m.memory, 0, base));
    advance(chain, code, 2, s2, s3);
    lemma_push1(chain, 0x20, s3);
    let s4 = s3.pushed(0x20);
    advance(chain, code, 3, s3, s4);
    lemma_push1(chain, 0x00, s4);
    let s5 = s4.pushed(0);
    advance(chain, code, 4, s4, s5);
    op_keccak256(chain, s3, 0x20, 0);
    let s6 = s3.pushed(hash(be_bytes(base, 32)));
    advance(chain, code, 5, s5, s6);
    op_add(chain, m0.with_memory(s3.memory), index, hash(be_bytes(base, 32)));
    let s7 = m0.with_memory(s3.memory).pushed(array_slot(base, index));
    advance(chain, code, 6, s6, s7);
    assert(line(chain, code, 7, s7) == Effect::Next(s7));
}

/// `array_elem_slot_from_stack` does the same for a slot on the stack.
pub proof fn law_array_elem_slot_from_stack(chain: Chain, m: Machine)
    requires
        m.stack.len() >= 2,
        m.top(0) < modulus(),
        m.top(1) < modulus(),
    ensures
        line(chain, array_elem_slot_from_stack_code(), 0, m) == Effect::Next(
            m.dropped(2).with_memory(stored(m.memory, 0, m.top(1))).pushed(
                array_slot(m.top(1), m.top(0)),
            ),
        ),
        jump_free(array_elem_slot_from_stack_code()),
{
    let index = m.top(0);
    let base = m.top(1);
    let m0 = m.dropped(2);
    lemma_split_two(m);
    law_load_stored(m.memory, 0, base);
    lemma_opcodes();
    let code = array_elem_slot_from_stack_code();
    op_swap1(chain, m0, base, index);
    let s1 = m0.pushed(index).pushed(base);
    advance(chain, code, 0, m, s1);
    lemma_push1(chain, 0x00, s1);
    let s2 = s1.pushed(0);
    advance(chain, code, 1, s1, s2);
    op_mstore(chain, m0.pushed(index), base, 0);
    let s3 = m0.pushed(index).with_memory(stored(m.memory, 0, base));
    advance(chain, code, 2, s2, s3);
    lemma_push1(chain, 0x20, s3);
    let s4 = s3.pushed(0x20);
    advance(chain, code, 3, s3, s4);
    lemma_push1(chain, 0x00, s4);
    let s5 = s4.pushed(0);
    advance(chain, code, 4, s4, s5);
    op_keccak256(chain, s3, 0x20, 0);
    let s6 = s3.pushed(hash(be_bytes(base, 32)));
    advance(chain, code, 5, s5, s6);
    op_add(chain, m0.with_memory(s3.memory), index, hash(be_bytes(base, 32)));
    let s7 = m0.with_memory(s3.memory).pushed(array_slot(base, index));
    advance(chain, code, 6, s6, s7);
    assert(line(chain, code, 7, s7) == Effect::Next(s7));
}

/// `return_word` returns the 32 bytes of the word on the stack.
pub proof fn law_return_word(chain: Chain, m: Machine)
    requires
        m.stack.len() >= 1,
        m.top(0) < modulus(),
    ensures
        line(chain, return_word_code(), 0, m) == Effect::Halt(
            Status::Returned(be_bytes(m.top(0), 32)),
            m.dropped(1).with_memory(stored(m.memory, 0, m.top(0))),
        ),
        jump_free(return_word_code()),
{
    let v = m.top(0);
    let m0 = m.dropped(1);
    lemma_split_one(m);
    law_load_stored(m.memory, 0, v);
    lemma_opcodes();
    let code = return_word_code();
    lemma_push1(chain, 0x00, m);
    let s1 = m.pushed(0);
    advance(chain, code, 0, m, s1);
    op_mstore(chain, m0, v, 0);
    let s2 = m0.with_memory(stored(m.memory, 0, v));
    advance(chain, code, 1, s1, s2);
    lemma_push1(chain, 0x20, s2);
    let s3 = s2.pushed(0x20);
    advance(chain, code, 2, s2, s3);
    lemma_push1(chain, 0x00, s3);
    let s4 = s3.pushed(0);
    advance(chain, code, 3, s3, s4);
    op_return(chain, s2, 0x20, 0);
    advance_halt(chain, code, 4, s4, Status::Returned(be_bytes(v, 32)), s2);
}

/// `revert_empty` reverts without data.
pub proof fn law_revert_empty(chain: Chain, m: Machine)
    ensures
        line(chain, revert_empty_code(), 0, m) == Effect::Halt(
            Status::Reverted(Seq::empty()),
            m,
        ),
        jump_free(revert_empty_code()),
{
    lemma_opcodes();
    assert(bytes_at(m.memory, 0, 0) =~= Seq::empty());
    let code = revert_empty_code();
    lemma_push1(chain, 0x00, m);
    let s1 = m.pushed(0);
    advance(chain, code, 0, m, s1);
    lemma_push1(chain, 0x00, s1);
    let s2 = s1.pushed(0);
    advance(chain, code, 1, s1, s2);
    op_revert(chain, m, 0, 0);
    advance_halt(chain, code, 2, s2, Status::Reverted(Seq::empty()), m);
}

/// The low bits of a number.
pub proof fn lemma_and_low(n: nat, v: nat)
    ensures
        bit_and((pow2(n) - 1) as nat, v) == v % pow2(n),
    decreases n,
{
    lemma_pow2_pos(n);
    if n == 0 {
        lemma2_to64();
    } else {
        lemma_and_low((n - 1) as nat, v / 2);
        lemma_pow2_unfold(n);
        lemma_pow2_pos((n - 1) as nat);
        let p = pow2((n - 1) as nat);
        let a = (pow2(n) - 1) as nat;
        assert(a / 2 == p - 1 && a % 2 == 1);
        let q = v / 2;
        let r = q % p;
        let d = q / p;
        vstd::arithmetic::div_mod::lemma_fundamental_div_mod(q as int, p as int);
        let x = (2 * r + v % 2) as int;
        assert(v == d * (2 * p) + x) by (nonlinear_arith)
            requires
                q == p * d + r,
                v == 2 * q + v % 2,
                x == 2 * r + v % 2,
        ;
        assert(0 <= x < 2 * p);
        vstd::arithmetic::div_mod::lemma_fundamental_div_mod_converse(
            v as int,
            (2 * p) as int,
            d as int,
            x,
        );
    }
}

/// Bits above a multiple.
pub proof fn lemma_and_high(n: nat, a: nat, v: nat)
    ensures
        bit_and(a * pow2(n), v) == bit_and(a, v / pow2(n)) * pow2(n),
    decreases n,
{
    lemma_pow2_pos(n);
    if n == 0 {
        lemma2_to64();
        assert(a * 1 == a);
    } else if a == 0 {
        assert(0 * pow2(n) == 0);
    } else {
        let p = pow2((n - 1) as nat);
        lemma_pow2_unfold(n);
        lemma_pow2_pos((n - 1) as nat);
        lemma_and_high((n - 1) as nat, a, v / 2);
        let x = a * pow2(n);
        assert(x == 2 * (a * p) && x > 0) by (nonlinear_arith)
            requires
                x == a * pow2(n),
                pow2(n) == 2 * p,
                a > 0,
                p > 0,
        ;
        assert(x / 2 == a * p && x % 2 == 0);
        assert((v / 2) / p == v / pow2(n)) by {
            vstd::arithmetic::div_mod::lemma_div_denominator(v as int, 2, p as int);
        }
        let y = bit_and(a, v / pow2(n));
        assert(2 * (y * p) == y * pow2(n)) by (nonlinear_arith)
            requires
                pow2(n) == 2 * p,
        ;
    }
}

/// The complement of the low byte, and of it a word.
pub proof fn lemma_and_mask(v: nat)
    requires
        v < modulus(),
    ensures
        bit_and((modulus() - 1 - 0xff) as nat, v) == v - v % 256,
        bit_and(0xff, v) == v % 256,
{
    lemma_modulus();
    lemma2_to64();
    lemma_and_low(8, v);
    let a = (pow2(248) - 1) as nat;
    lemma_pow2_pos(248);
    lemma_and_high(8, a, v);
    lemma_and_low(248, v / 256);
    assert(a * 256 == modulus() - 256);
    assert(v / 256 < pow2(248));
    vstd::arithmetic::div_mod::lemma_small_mod(v / 256, pow2(248));
}

/// Bits that do not meet add up.
pub proof fn lemma_or_adds(n: nat, low: nat, high: nat)
    requires
        low < pow2(n),
        high % pow2(n) == 0,
    ensures
        bit_or(low, high) == low + high,
        bit_or(high, low) == low + high,
    decreases n,
{
    if n == 0 {
        lemma2_to64();
        if high > 0 {
            lemma_or_zero(high);
        }
    } else {
        let p = pow2((n - 1) as nat);
        lemma_pow2_unfold(n);
        lemma_pow2_pos((n - 1) as nat);
        let d = high / pow2(n);
        assert(high == d * (2 * p)) by (nonlinear_arith)
            requires
                pow2(n) == 2 * p,
                p > 0,
                high % pow2(n) == 0,
                d == high / pow2(n),
        ;
        assert(high == 2 * (d * p)) by (nonlinear_arith)
            requires
                high == d * (2 * p),
        ;
        assert(high / 2 == d * p && high % 2 == 0);
        assert((d * p) % p == 0) by {
            vstd::arithmetic::div_mod::lemma_mod_multiples_basic(d as int, p as int);
        }
        assert(low / 2 < p);
        lemma_or_adds((n - 1) as nat, low / 2, high / 2);
        if low == 0 {
            lemma_or_zero(high);
        }
        if high == 0 {
            lemma_or_zero(low);
        }
    }
}

/// Bitwise or with zero.
proof fn lemma_or_zero(a: nat)
    ensures
        bit_or(a, 0) == a,
        bit_or(0, a) == a,
    decreases a,
{
    if a > 0 {
        lemma_or_zero(a / 2);
    }
}

/// What the contract ABI has for a string that is packed in a word: the offset of the string, its
/// length, and its bytes.
pub open spec fn string_data(v: nat) -> Seq<u8> {
    be_bytes(0x20, 32) + be_bytes((v % 256) / 2, 32) + be_bytes((v - v % 256) as nat, 32)
}

/// The memory after a packed string was laid out as the contract ABI has it.
pub open spec fn string_scratch(memory: Memory, v: nat) -> Memory {
    stored(
        stored(stored(memory, 0x20, (v % 256) / 2), 0x40, (v - v % 256) as nat),
        0,
        0x20,
    )
}

proof fn lemma_string_scratch(memory: Memory, v: nat)
    requires
        v < modulus(),
    ensures
        bytes_at(string_scratch(memory, v), 0, 0x60) == string_data(v),
{
    let len = (v % 256) / 2;
    let data = (v - v % 256) as nat;
    let a = stored(memory, 0x20, len);
    let b = stored(a, 0x40, data);
    let c = stored(b, 0, 0x20);
    law_load_stored(memory, 0x20, len);
    law_stored_elsewhere(a, 0x40, data, 0x20, 32);
    law_load_stored(a, 0x40, data);
    law_stored_elsewhere(b, 0, 0x20, 0x20, 32);
    law_stored_elsewhere(b, 0, 0x20, 0x40, 32);
    law_load_stored(b, 0, 0x20);
    lemma_be_bytes_len(0x20, 32);
    lemma_be_bytes_len(len, 32);
    lemma_be_bytes_len(data, 32);
    assert forall|i: int| 0 <= i < 0x60 implies #[trigger] bytes_at(c, 0, 0x60)[i] == string_data(
        v,
    )[i] by {
        if i < 32 {
            assert(bytes_at(c, 0, 32)[i] == be_bytes(0x20, 32)[i]);
        } else if i < 64 {
            assert(bytes_at(c, 0x20, 32)[i - 32] == be_bytes(len, 32)[i - 32]);
        } else {
            assert(bytes_at(c, 0x40, 32)[i - 64] == be_bytes(data, 32)[i - 64]);
        }
    }
    assert(bytes_at(c, 0, 0x60) =~= string_data(v));
}

/// `return_short_string` returns the packed string on the stack in the form of the contract ABI.
pub proof fn law_return_short_string(chain: Chain, m: Machine)
    requires
        m.stack.len() >= 1,
        m.top(0) < modulus(),
    ensures
        line(chain, return_short_string_code(), 0, m) == Effect::Halt(
            Status::Returned(string_data(m.top(0))),
            m.dropped(1).with_memory(string_scratch(m.memory, m.top(0))),
        ),
        jump_free(return_short_string_code()),
{
    let v = m.top(0);
    let m0 = m.dropped(1);
    let len = (v % 256) / 2;
    let data = (v - v % 256) as nat;
    let mask = (modulus() - 1 - 0xff) as nat;
    lemma_split_one(m);
    lemma_and_mask(v);
    lemma_string_scratch(m.memory, v);
    lemma2_to64();
    lemma_opcodes();
    let code = return_short_string_code();
    op_dup1(chain, m0, v);
    let s1 = m.pushed(v);
    advance(chain, code, 0, m, s1);
    lemma_push1(chain, 0xff, s1);
    let s2 = s1.pushed(0xff);
    advance(chain, code, 1, s1, s2);
    op_and(chain, m, v, 0xff);
    let s3 = m.pushed(v % 256);
    advance(chain, code, 2, s2, s3);
    lemma_push1(chain, 0x01, s3);
    let s4 = s3.pushed(1);
    advance(chain, code, 3, s3, s4);
    op_shr(chain, m, v % 256, 1);
    let s5 = m.pushed(len);
    advance(chain, code, 4, s4, s5);
    lemma_push1(chain, 0x20, s5);
    let s6 = s5.pushed(0x20);
    advance(chain, code, 5, s5, s6);
    op_mstore(chain, m, len, 0x20);
    let s7 = m.with_memory(stored(m.memory, 0x20, len));
    advance(chain, code, 6, s6, s7);
    lemma_push1(chain, 0xff, s7);
    let s8 = s7.pushed(0xff);
    advance(chain, code, 7, s7, s8);
    op_not(chain, s7, 0xff);
    let s9 = s7.pushed(mask);
    advance(chain, code, 8, s8, s9);
    op_and(chain, m0.with_memory(s7.memory), v, mask);
    let s10 = m0.with_memory(s7.memory).pushed(data);
    advance(chain, code, 9, s9, s10);
    lemma_push1(chain, 0x40, s10);
    let s11 = s10.pushed(0x40);
    advance(chain, code, 10, s10, s11);
    op_mstore(chain, m0.with_memory(s7.memory), data, 0x40);
    let s12 = m0.with_memory(stored(s7.memory, 0x40, data));
    advance(chain, code, 11, s11, s12);
    lemma_push1(chain, 0x20, s12);
    let s13 = s12.pushed(0x20);
    advance(chain, code, 12, s12, s13);
    lemma_push1(chain, 0x00, s13);
    let s14 = s13.pushed(0);
    advance(chain, code, 13, s13, s14);
    op_mstore(chain, s12, 0x20, 0);
    let s15 = m0.with_memory(string_scratch(m.memory, v));
    advance(chain, code, 14, s14, s15);
    lemma_push1(chain, 0x60, s15);
    let s16 = s15.pushed(0x60);
    advance(chain, code, 15, s15, s16);
    lemma_push1(chain, 0x00, s16);
    let s17 = s16.pushed(0);
    advance(chain, code, 16, s16, s17);
    op_return(chain, s15, 0x60, 0);
    advance_halt(chain, code, 17, s17, Status::Returned(string_data(v)), s15);
}

} // verus!
