//! How code gets at the arguments of a call: from the call data, and from behind the code of a
//! constructor.

use vstd::prelude::*;

use vstd::arithmetic::power2::{lemma2_to64, pow2};

use crate::abi::Parameter;
use crate::assembler::{moved_label, relocate_all, Instr, Label, Op};
use crate::builder::{
    decode_short_string_constructor_arg_code, decode_short_string_param_code, push1, push_number,
};
use crate::bytes::{lemma_be_bytes_of_be_value, lemma_be_value_bound};
use crate::code::Fragment;
use crate::effects::{
    advance, holds, jump_free, law_load_stored, law_stored_elsewhere, lemma_and_mask, lemma_modulus,
    lemma_opcodes, lemma_or_adds, lemma_push1, lemma_push_number, line, op_add, op_and,
    op_calldataload, op_codecopy, op_codesize, op_dup1, op_gt, op_mload, op_mstore, op_not, op_or,
    op_shl, op_sub, op_swap1,
};
use crate::machine::{
    bit_and, bit_or, calldata_word, flag, lemma_reaches_self, lemma_reaches_trans, load, modulus,
    padded, reaches, running, shifted_left, stored, word, written, Chain, Effect, Machine, Memory,
    State, Status,
};
use crate::meaning::{
    bail, code_word, eval_constructor_params, eval_function_params, packed_word, Outcome, Store,
};
use crate::model::Scope;
use crate::scheme::{
    arguments_len, constructor_params, copy_argument_code, function_params, guard_code, head_offset,
    short_string_type, string_count,
};
use crate::shape::{
    is_cell, label_free, scope_ok, sound_constructor_params, sound_function_params, unique_dests,
};
use crate::simulate::{
    clean, delivers, lemma_holds_concat, lemma_related_cell, lemma_related_scratch, lemma_sits_code,
    lemma_sits_followed, related, run_guard, run_line, sits,
};
use crate::steps::lemma_calldata_bound;

verus! {

/// Code that puts the offset and the length of a string in the call data on the stack, and whether
/// it is short enough.
pub open spec fn param_length_code(head: nat) -> Seq<Instr> {
    seq![
        push_number(head),
        Op::CallDataLoad@,
        push1(0x04),
        Op::Add@,
        Instr::Dup(1),
        Op::CallDataLoad@,
        Instr::Dup(1),
        push1(32),
        Op::Gt@,
    ]
}

/// Code that packs a string in the call data whose offset and length are on the stack.
pub open spec fn param_pack_code(slot: nat) -> Seq<Instr> {
    seq![
        Instr::Swap(1),
        push1(0x20),
        Op::Add@,
        Op::CallDataLoad@,
        push1(0xff),
        Op::Not@,
        Op::And@,
        Instr::Swap(1),
        push1(0x01),
        Op::Shl@,
        Op::Or@,
        push_number(slot),
        Op::MStore@,
    ]
}

/// Where a string in the call data is.
pub open spec fn string_at(chain: Chain, head: nat) -> nat {
    word((4 + calldata_word(chain, head)) as int)
}

/// The parts of a packed string add up.
proof fn lemma_packed(len: nat, data: nat)
    requires
        len < 32,
        data < modulus(),
    ensures
        bit_and((modulus() - 1 - 0xff) as nat, data) == data - data % 256,
        shifted_left(len, 1) == 2 * len,
        bit_or(2 * len, (data - data % 256) as nat) == packed_word(len, data),
        bit_or((data - data % 256) as nat, 2 * len) == packed_word(len, data),
        packed_word(len, data) < modulus(),
{
    lemma_and_mask(data);
    lemma2_to64();
    lemma_modulus();
    assert(modulus() % 256 == 0) by (nonlinear_arith)
        requires
            modulus() == pow2(248) * 256,
    ;
    let high = (data - data % 256) as nat;
    assert(high % pow2(8) == 0);
    lemma_or_adds(8, 2 * len, high);
    assert(high + 256 <= modulus());
    vstd::arithmetic::div_mod::lemma_small_mod(2 * len, modulus());
    assert(len * pow2(1) == 2 * len) by (nonlinear_arith)
        requires
            pow2(1) == 2,
    ;
}

/// The length of a string in the call data.
proof fn lemma_param_length(chain: Chain, head: nat, m: Machine)
    ensures
        ({
            let at = string_at(chain, head);
            let len = calldata_word(chain, at);
            &&& line(chain, param_length_code(head), 0, m) == Effect::Next(
                m.pushed(at).pushed(len).pushed(flag(32 > len)),
            )
            &&& jump_free(param_length_code(head))
        }),
{
    let at = string_at(chain, head);
    let len = calldata_word(chain, at);
    let code = param_length_code(head);
    lemma_opcodes();
    lemma_push_number(chain, head, m);
    let x1 = m.pushed(head);
    advance(chain, code, 0, m, x1);
    op_calldataload(chain, m, head);
    let x2 = m.pushed(calldata_word(chain, head));
    advance(chain, code, 1, x1, x2);
    lemma_push1(chain, 0x04, x2);
    let x3 = x2.pushed(4);
    advance(chain, code, 2, x2, x3);
    op_add(chain, m, calldata_word(chain, head), 4);
    let x4 = m.pushed(at);
    advance(chain, code, 3, x3, x4);
    op_dup1(chain, m, at);
    let x5 = x4.pushed(at);
    advance(chain, code, 4, x4, x5);
    op_calldataload(chain, m.pushed(at), at);
    let x6 = m.pushed(at).pushed(len);
    advance(chain, code, 5, x5, x6);
    op_dup1(chain, m.pushed(at), len);
    let x7 = x6.pushed(len);
    advance(chain, code, 6, x6, x7);
    lemma_push1(chain, 32, x7);
    let x8 = x7.pushed(32);
    advance(chain, code, 7, x7, x8);
    op_gt(chain, m.pushed(at).pushed(len), len, 32);
    let x9 = m.pushed(at).pushed(len).pushed(flag(32 > len));
    advance(chain, code, 8, x8, x9);
    assert(line(chain, code, 9, x9) == Effect::Next(x9));
}

/// A string in the call data that is packed.
proof fn lemma_param_pack(chain: Chain, at: nat, len: nat, slot: nat, m: Machine)
    requires
        len < 32,
    ensures
        ({
            let data = calldata_word(chain, word((0x20 + at) as int));
            &&& line(chain, param_pack_code(slot), 0, m.pushed(at).pushed(len)) == Effect::Next(
                m.with_memory(stored(m.memory, slot as int, packed_word(len, data))),
            )
            &&& jump_free(param_pack_code(slot))
        }),
{
    let data = calldata_word(chain, word((0x20 + at) as int));
    let mask = (modulus() - 1 - 0xff) as nat;
    let high = (data - data % 256) as nat;
    let packed = packed_word(len, data);
    let code = param_pack_code(slot);
    lemma_opcodes();
    lemma_calldata_bound(chain, word((0x20 + at) as int));
    lemma_packed(len, data);
    let x0 = m.pushed(at).pushed(len);
    op_swap1(chain, m, at, len);
    let x1 = m.pushed(len).pushed(at);
    advance(chain, code, 0, x0, x1);
    lemma_push1(chain, 0x20, x1);
    let x2 = x1.pushed(0x20);
    advance(chain, code, 1, x1, x2);
    op_add(chain, m.pushed(len), at, 0x20);
    let x3 = m.pushed(len).pushed(word((0x20 + at) as int));
    advance(chain, code, 2, x2, x3);
    op_calldataload(chain, m.pushed(len), word((0x20 + at) as int));
    let x4 = m.pushed(len).pushed(data);
    advance(chain, code, 3, x3, x4);
    lemma_push1(chain, 0xff, x4);
    let x5 = x4.pushed(0xff);
    advance(chain, code, 4, x4, x5);
    op_not(chain, m.pushed(len).pushed(data), 0xff);
    let x6 = m.pushed(len).pushed(data).pushed(mask);
    advance(chain, code, 5, x5, x6);
    op_and(chain, m.pushed(len), data, mask);
    let x7 = m.pushed(len).pushed(high);
    advance(chain, code, 6, x6, x7);
    op_swap1(chain, m, len, high);
    let x8 = m.pushed(high).pushed(len);
    advance(chain, code, 7, x7, x8);
    lemma_push1(chain, 0x01, x8);
    let x9 = x8.pushed(1);
    advance(chain, code, 8, x8, x9);
    op_shl(chain, m.pushed(high), len, 1);
    let x10 = m.pushed(high).pushed(2 * len);
    advance(chain, code, 9, x9, x10);
    op_or(chain, m, high, 2 * len);
    let x11 = m.pushed(packed);
    advance(chain, code, 10, x10, x11);
    lemma_push_number(chain, slot, x11);
    let x12 = x11.pushed(slot);
    advance(chain, code, 11, x11, x12);
    op_mstore(chain, m, packed, slot);
    let x13 = m.with_memory(stored(m.memory, slot as int, packed));
    advance(chain, code, 12, x12, x13);
    assert(line(chain, code, 13, x13) == Effect::Next(x13));
}

/// What decoding a string comes to: a machine that runs on behind the code with the packed string
/// in its memory, or a revert without data if the string has 32 bytes or more.
pub open spec fn decoded(
    t: State,
    len: nat,
    pc: nat,
    scratch: Machine,
    slot: nat,
    data: nat,
) -> bool {
    if len >= 32 {
        &&& t.status == Status::Reverted(Seq::empty())
        &&& t.machine.memory == scratch.memory
        &&& t.machine.storage == scratch.storage
        &&& t.machine.logs == scratch.logs
    } else {
        t == running(
            pc,
            scratch.with_memory(stored(scratch.memory, slot as int, packed_word(len, data))),
        )
    }
}

/// `decode_short_string_param` stores the packed form of a string in the call data at `slot`,
/// whatever the slot, and writes no other memory. It reverts without data if the string has 32
/// bytes or more.
pub proof fn law_decode_short_string_param(
    chain: Chain,
    program: Seq<Instr>,
    at: nat,
    head: nat,
    slot: nat,
    ok: Label,
    m: Machine,
) -> (t: State)
    requires
        unique_dests(program),
        holds(program, at, decode_short_string_param_code(head, slot, ok)),
    ensures
        reaches(chain, program, running(at, m), t),
        ({
            let place = string_at(chain, head);
            let len = calldata_word(chain, place);
            let data = calldata_word(chain, word((0x20 + place) as int));
            decoded(t, len, at + 27, m, slot, data)
        }),
{
    let place = string_at(chain, head);
    let len = calldata_word(chain, place);
    let data = calldata_word(chain, word((0x20 + place) as int));
    let first = param_length_code(head);
    let guard = relocate_all(guard_code().program.instrs, ok as nat);
    let last = param_pack_code(slot);
    lemma_opcodes();
    assert(decode_short_string_param_code(head, slot, ok) =~= first + (guard + last));
    assert(guard.len() == 5);
    lemma_holds_concat(program, at, first, guard + last);
    lemma_holds_concat(program, at + 9, guard, last);
    lemma_param_length(chain, head, m);
    let m1 = m.pushed(place).pushed(len);
    run_line(chain, program, at, first, m, m1.pushed(flag(32 > len)));
    let t1 = running(at + 9, m1.pushed(flag(32 > len)));
    let t2 = run_guard(chain, program, at + 9, ok as nat, m1, flag(32 > len));
    lemma_reaches_trans(chain, program, running(at, m), t1, t2);
    if len >= 32 {
        t2
    } else {
        let m2 = m.with_memory(stored(m.memory, slot as int, packed_word(len, data)));
        lemma_param_pack(chain, place, len, slot, m);
        run_line(chain, program, at + 14, last, m1, m2);
        lemma_reaches_trans(chain, program, running(at, m), t2, running(at + 27, m2));
        running(at + 27, m2)
    }
}

/// A string parameter is decoded into its cell, or refused.
pub proof fn run_decode_param(
    chain: Chain,
    program: Seq<Instr>,
    at: nat,
    base: nat,
    head: nat,
    slot: nat,
    m: Machine,
    st: Store,
) -> (t: State)
    requires
        unique_dests(program),
        sits(
            program,
            at,
            base,
            Fragment::of(decode_short_string_param_code(head, slot, 0), 1).program,
        ),
        is_cell(slot),
        related(st, m),
    ensures
        reaches(chain, program, running(at, m), t),
        ({
            let place = string_at(chain, head);
            let len = calldata_word(chain, place);
            let data = calldata_word(chain, word((0x20 + place) as int));
            &&& decoded(t, len, at + 27, m, slot, data)
            &&& delivers(
                t,
                if len >= 32 {
                    Outcome::Reverted
                } else {
                    Outcome::Next(st.with_cell(slot, packed_word(len, data)))
                },
                at + 27,
                m.stack,
            )
        }),
{
    let place = string_at(chain, head);
    let len = calldata_word(chain, place);
    let data = calldata_word(chain, word((0x20 + place) as int));
    let ok = moved_label(0, base);
    lemma_opcodes();
    assert(relocate_all(decode_short_string_param_code(head, slot, 0), base)
        =~= decode_short_string_param_code(head, slot, ok));
    if len < 32 {
        lemma_calldata_bound(chain, word((0x20 + place) as int));
        lemma_packed(len, data);
        lemma_related_cell(st, m, slot, packed_word(len, data));
    }
    law_decode_short_string_param(chain, program, at, head, slot, ok, m)
}

/// The parameters of a function.
pub proof fn run_function_params(
    chain: Chain,
    program: Seq<Instr>,
    at: nat,
    base: nat,
    m: Machine,
    params: Seq<Parameter>,
    k: nat,
    scope: Scope,
    st: Store,
) -> (t: State)
    requires
        unique_dests(program),
        sits(program, at, base, function_params(params, k, scope).code.program),
        clean(function_params(params, k, scope).code),
        related(st, m),
        scope_ok(scope),
        k <= params.len(),
    ensures
        reaches(chain, program, running(at, m), t),
        delivers(
            t,
            eval_function_params(chain, params, k, scope, st),
            at + function_params(params, k, scope).code.program.instrs.len(),
            m.stack,
        ),
    decreases k,
{
    if k == 0 {
        lemma_reaches_self(chain, program, running(at, m));
        running(at, m)
    } else {
        let j = (k - 1) as nat;
        let before = function_params(params, j, scope);
        let head = head_offset(j);
        let slot = before.scope.next_local as nat;
        let piece = Fragment::of(decode_short_string_param_code(head, slot, 0), 1);
        sound_function_params(params, j, scope);
        if short_string_type(params[k - 1].ty) {
            lemma_sits_followed(program, at, base, before.code, piece);
            let t = run_function_params(chain, program, at, base, m, params, j, scope, st);
            match eval_function_params(chain, params, j, scope, st) {
                Outcome::Next(st1) => {
                    let u = run_decode_param(
                        chain,
                        program,
                        at + before.code.program.instrs.len(),
                        base + before.code.program.labels,
                        head,
                        slot,
                        t.machine,
                        st1,
                    );
                    lemma_reaches_trans(chain, program, running(at, m), t, u);
                    u
                },
                _ => t,
            }
        } else {
            run_function_params(chain, program, at, base, m, params, j, scope, st)
        }
    }
}

/// The word that lies `back` bytes before the end of the code, stored.
proof fn lemma_code_word(chain: Chain, memory: Memory, back: nat, slot: nat)
    ensures
        written(
            memory,
            slot as int,
            padded(chain.code, word(chain.code.len() - back) as int, 32),
        ) == stored(memory, slot as int, code_word(chain, back)),
        code_word(chain, back) < modulus(),
{
    let bytes = padded(chain.code, word(chain.code.len() - back) as int, 32);
    lemma_be_bytes_of_be_value(bytes);
    lemma_be_value_bound(bytes);
    lemma_modulus();
}

/// A word from behind the code.
proof fn lemma_copy_argument(chain: Chain, back: nat, slot: nat, m: Machine)
    ensures
        line(chain, copy_argument_code(back, slot), 0, m) == Effect::Next(
            m.with_memory(stored(m.memory, slot as int, code_word(chain, back))),
        ),
        jump_free(copy_argument_code(back, slot)),
        label_free(copy_argument_code(back, slot)),
        code_word(chain, back) < modulus(),
{
    let from = word(chain.code.len() - back);
    let code = copy_argument_code(back, slot);
    lemma_opcodes();
    lemma_code_word(chain, m.memory, back, slot);
    lemma_push_number(chain, 32, m);
    let x1 = m.pushed(32);
    advance(chain, code, 0, m, x1);
    lemma_push_number(chain, back, x1);
    let x2 = x1.pushed(back);
    advance(chain, code, 1, x1, x2);
    op_codesize(chain, x2);
    let x3 = x2.pushed(chain.code.len());
    advance(chain, code, 2, x2, x3);
    op_sub(chain, m.pushed(32), back, chain.code.len());
    let x4 = m.pushed(32).pushed(from);
    advance(chain, code, 3, x3, x4);
    lemma_push_number(chain, slot, x4);
    let x5 = x4.pushed(slot);
    advance(chain, code, 4, x4, x5);
    op_codecopy(chain, m, 32, from, slot);
    let x6 = m.with_memory(stored(m.memory, slot as int, code_word(chain, back)));
    advance(chain, code, 5, x5, x6);
    assert(line(chain, code, 6, x6) == Effect::Next(x6));
}

/// Code that copies the length and the data of a string from behind the code, and tells whether it
/// is short enough.
pub open spec fn argument_length_code(len_back: nat, data_back: nat) -> Seq<Instr> {
    seq![
        push1(0x20),
        push_number(len_back),
        Op::CodeSize@,
        Op::Sub@,
        push1(0x00),
        Op::CodeCopy@,
        push1(0x20),
        push_number(data_back),
        Op::CodeSize@,
        Op::Sub@,
        push1(0x20),
        Op::CodeCopy@,
        push1(0x00),
        Op::MLoad@,
        Instr::Dup(1),
        push1(32),
        Op::Gt@,
    ]
}

/// Code that packs a string whose length is on the stack, and whose data is in memory.
pub open spec fn argument_pack_code(slot: nat) -> Seq<Instr> {
    seq![
        push1(0x01),
        Op::Shl@,
        push1(0x20),
        Op::MLoad@,
        push1(0xff),
        Op::Not@,
        Op::And@,
        Op::Or@,
        push_number(slot),
        Op::MStore@,
    ]
}

/// Memory after the length and the data of a string were copied.
pub open spec fn argument_scratch(memory: Memory, len: nat, data: nat) -> Memory {
    stored(stored(memory, 0, len), 0x20, data)
}

/// The length of a string behind the code.
proof fn lemma_argument_length(chain: Chain, len_back: nat, data_back: nat, m: Machine)
    ensures
        ({
            let len = code_word(chain, len_back);
            let data = code_word(chain, data_back);
            let after = m.with_memory(argument_scratch(m.memory, len, data));
            &&& line(chain, argument_length_code(len_back, data_back), 0, m) == Effect::Next(
                after.pushed(len).pushed(flag(32 > len)),
            )
            &&& load(after.memory, 0x20) == data
            &&& data < modulus()
            &&& jump_free(argument_length_code(len_back, data_back))
        }),
{
    let len = code_word(chain, len_back);
    let data = code_word(chain, data_back);
    let len_from = word(chain.code.len() - len_back);
    let data_from = word(chain.code.len() - data_back);
    let code = argument_length_code(len_back, data_back);
    let m1 = m.with_memory(stored(m.memory, 0, len));
    let m2 = m.with_memory(argument_scratch(m.memory, len, data));
    lemma_opcodes();
    lemma_code_word(chain, m.memory, len_back, 0);
    lemma_code_word(chain, m1.memory, data_back, 0x20);
    law_load_stored(m.memory, 0, len);
    law_load_stored(m1.memory, 0x20, data);
    law_stored_elsewhere(m1.memory, 0x20, data, 0, 32);
    lemma_push1(chain, 0x20, m);
    let x1 = m.pushed(32);
    advance(chain, code, 0, m, x1);
    lemma_push_number(chain, len_back, x1);
    let x2 = x1.pushed(len_back);
    advance(chain, code, 1, x1, x2);
    op_codesize(chain, x2);
    let x3 = x2.pushed(chain.code.len());
    advance(chain, code, 2, x2, x3);
    op_sub(chain, m.pushed(32), len_back, chain.code.len());
    let x4 = m.pushed(32).pushed(len_from);
    advance(chain, code, 3, x3, x4);
    lemma_push1(chain, 0x00, x4);
    let x5 = x4.pushed(0);
    advance(chain, code, 4, x4, x5);
    op_codecopy(chain, m, 32, len_from, 0);
    let x6 = m1;
    advance(chain, code, 5, x5, x6);
    lemma_push1(chain, 0x20, x6);
    let x7 = x6.pushed(32);
    advance(chain, code, 6, x6, x7);
    lemma_push_number(chain, data_back, x7);
    let x8 = x7.pushed(data_back);
    advance(chain, code, 7, x7, x8);
    op_codesize(chain, x8);
    let x9 = x8.pushed(chain.code.len());
    advance(chain, code, 8, x8, x9);
    op_sub(chain, m1.pushed(32), data_back, chain.code.len());
    let x10 = m1.pushed(32).pushed(data_from);
    advance(chain, code, 9, x9, x10);
    lemma_push1(chain, 0x20, x10);
    let x11 = x10.pushed(0x20);
    advance(chain, code, 10, x10, x11);
    op_codecopy(chain, m1, 32, data_from, 0x20);
    let x12 = m2;
    advance(chain, code, 11, x11, x12);
    lemma_push1(chain, 0x00, x12);
    let x13 = x12.pushed(0);
    advance(chain, code, 12, x12, x13);
    op_mload(chain, m2, 0);
    let x14 = m2.pushed(len);
    advance(chain, code, 13, x13, x14);
    op_dup1(chain, m2, len);
    let x15 = x14.pushed(len);
    advance(chain, code, 14, x14, x15);
    lemma_push1(chain, 32, x15);
    let x16 = x15.pushed(32);
    advance(chain, code, 15, x15, x16);
    op_gt(chain, m2.pushed(len), len, 32);
    let x17 = m2.pushed(len).pushed(flag(32 > len));
    advance(chain, code, 16, x16, x17);
    assert(line(chain, code, 17, x17) == Effect::Next(x17));
}

/// A string behind the code that is packed.
proof fn lemma_argument_pack(chain: Chain, len: nat, data: nat, slot: nat, m: Machine)
    requires
        len < 32,
        data < modulus(),
        load(m.memory, 0x20) == data,
    ensures
        line(chain, argument_pack_code(slot), 0, m.pushed(len)) == Effect::Next(
            m.with_memory(stored(m.memory, slot as int, packed_word(len, data))),
        ),
        jump_free(argument_pack_code(slot)),
{
    let mask = (modulus() - 1 - 0xff) as nat;
    let high = (data - data % 256) as nat;
    let packed = packed_word(len, data);
    let code = argument_pack_code(slot);
    lemma_opcodes();
    lemma_packed(len, data);
    let x0 = m.pushed(len);
    lemma_push1(chain, 0x01, x0);
    let x1 = x0.pushed(1);
    advance(chain, code, 0, x0, x1);
    op_shl(chain, m, len, 1);
    let x2 = m.pushed(2 * len);
    advance(chain, code, 1, x1, x2);
    lemma_push1(chain, 0x20, x2);
    let x3 = x2.pushed(0x20);
    advance(chain, code, 2, x2, x3);
    op_mload(chain, m.pushed(2 * len), 0x20);
    let x4 = m.pushed(2 * len).pushed(data);
    advance(chain, code, 3, x3, x4);
    lemma_push1(chain, 0xff, x4);
    let x5 = x4.pushed(0xff);
    advance(chain, code, 4, x4, x5);
    op_not(chain, m.pushed(2 * len).pushed(data), 0xff);
    let x6 = m.pushed(2 * len).pushed(data).pushed(mask);
    advance(chain, code, 5, x5, x6);
    op_and(chain, m.pushed(2 * len), data, mask);
    let x7 = m.pushed(2 * len).pushed(high);
    advance(chain, code, 6, x6, x7);
    op_or(chain, m, 2 * len, high);
    let x8 = m.pushed(packed);
    advance(chain, code, 7, x7, x8);
    lemma_push_number(chain, slot, x8);
    let x9 = x8.pushed(slot);
    advance(chain, code, 8, x8, x9);
    op_mstore(chain, m, packed, slot);
    let x10 = m.with_memory(stored(m.memory, slot as int, packed));
    advance(chain, code, 9, x9, x10);
    assert(line(chain, code, 10, x10) == Effect::Next(x10));
}

/// `decode_short_string_constructor_arg` copies the length and the data of a string from behind the
/// code to the first two words of memory, and stores the packed form of the string at `slot`,
/// whatever the slot. It writes no other memory, and reverts without data if the string has 32
/// bytes or more.
pub proof fn law_decode_short_string_constructor_arg(
    chain: Chain,
    program: Seq<Instr>,
    at: nat,
    len_back: nat,
    data_back: nat,
    slot: nat,
    ok: Label,
    m: Machine,
) -> (t: State)
    requires
        unique_dests(program),
        holds(
            program,
            at,
            decode_short_string_constructor_arg_code(len_back, data_back, slot, ok),
        ),
    ensures
        reaches(chain, program, running(at, m), t),
        ({
            let len = code_word(chain, len_back);
            let data = code_word(chain, data_back);
            let scratch = m.with_memory(argument_scratch(m.memory, len, data));
            decoded(t, len, at + 32, scratch, slot, data)
        }),
{
    let len = code_word(chain, len_back);
    let data = code_word(chain, data_back);
    let first = argument_length_code(len_back, data_back);
    let guard = relocate_all(guard_code().program.instrs, ok as nat);
    let last = argument_pack_code(slot);
    lemma_opcodes();
    let code = decode_short_string_constructor_arg_code(len_back, data_back, slot, ok);
    assert(code =~= first + (guard + last));
    assert(guard.len() == 5);
    lemma_holds_concat(program, at, first, guard + last);
    lemma_holds_concat(program, at + 17, guard, last);
    lemma_argument_length(chain, len_back, data_back, m);
    let m1 = m.with_memory(argument_scratch(m.memory, len, data));
    run_line(chain, program, at, first, m, m1.pushed(len).pushed(flag(32 > len)));
    let t1 = running(at + 17, m1.pushed(len).pushed(flag(32 > len)));
    let t2 = run_guard(chain, program, at + 17, ok as nat, m1.pushed(len), flag(32 > len));
    lemma_reaches_trans(chain, program, running(at, m), t1, t2);
    if len >= 32 {
        t2
    } else {
        let m2 = m1.with_memory(stored(m1.memory, slot as int, packed_word(len, data)));
        lemma_argument_pack(chain, len, data, slot, m1);
        run_line(chain, program, at + 22, last, m1.pushed(len), m2);
        lemma_reaches_trans(chain, program, running(at, m), t2, running(at + 32, m2));
        running(at + 32, m2)
    }
}

/// A string argument of a constructor is decoded into its cell, or refused.
pub proof fn run_decode_argument(
    chain: Chain,
    program: Seq<Instr>,
    at: nat,
    base: nat,
    len_back: nat,
    data_back: nat,
    slot: nat,
    m: Machine,
    st: Store,
) -> (t: State)
    requires
        unique_dests(program),
        sits(
            program,
            at,
            base,
            Fragment::of(
                decode_short_string_constructor_arg_code(len_back, data_back, slot, 0),
                1,
            ).program,
        ),
        is_cell(slot),
        related(st, m),
    ensures
        reaches(chain, program, running(at, m), t),
        ({
            let len = code_word(chain, len_back);
            let data = code_word(chain, data_back);
            let scratch = m.with_memory(argument_scratch(m.memory, len, data));
            &&& decoded(t, len, at + 32, scratch, slot, data)
            &&& delivers(
                t,
                if len >= 32 {
                    Outcome::Reverted
                } else {
                    Outcome::Next(st.with_cell(slot, packed_word(len, data)))
                },
                at + 32,
                m.stack,
            )
        }),
{
    let len = code_word(chain, len_back);
    let data = code_word(chain, data_back);
    let ok = moved_label(0, base);
    lemma_opcodes();
    assert(relocate_all(
        decode_short_string_constructor_arg_code(len_back, data_back, slot, 0),
        base,
    ) =~= decode_short_string_constructor_arg_code(len_back, data_back, slot, ok));
    if len < 32 {
        let half = m.with_memory(stored(m.memory, 0, len));
        let scratch = m.with_memory(argument_scratch(m.memory, len, data));
        lemma_code_word(chain, m.memory, data_back, 0x20);
        lemma_packed(len, data);
        lemma_related_scratch(st, m, 0, len);
        lemma_related_scratch(st, half, 0x20, data);
        lemma_related_cell(st, scratch, slot, packed_word(len, data));
    }
    law_decode_short_string_constructor_arg(
        chain,
        program,
        at,
        len_back,
        data_back,
        slot,
        ok,
        m,
    )
}

/// A word argument of a constructor is copied into its cell.
pub proof fn run_copy_argument(
    chain: Chain,
    program: Seq<Instr>,
    at: nat,
    back: nat,
    slot: nat,
    m: Machine,
    st: Store,
) -> (t: State)
    requires
        holds(program, at, copy_argument_code(back, slot)),
        is_cell(slot),
        related(st, m),
    ensures
        reaches(chain, program, running(at, m), t),
        delivers(
            t,
            Outcome::Next(st.with_cell(slot, code_word(chain, back))),
            at + 6,
            m.stack,
        ),
{
    let value = code_word(chain, back);
    let next = m.with_memory(stored(m.memory, slot as int, value));
    lemma_copy_argument(chain, back, slot, m);
    run_line(chain, program, at, copy_argument_code(back, slot), m, next);
    lemma_related_cell(st, m, slot, value);
    running(at + 6, next)
}

/// What becomes of a string argument of a constructor.
spec fn then_string(o: Outcome, slot: nat, len: nat, data: nat) -> Outcome {
    match o {
        Outcome::Next(st) => if len >= 32 {
            Outcome::Reverted
        } else {
            Outcome::Next(st.with_cell(slot, packed_word(len, data)))
        },
        other => bail(other),
    }
}

/// A string argument of a constructor, behind other code.
proof fn step_string_argument(
    chain: Chain,
    program: Seq<Instr>,
    at: nat,
    base: nat,
    m: Machine,
    before: Fragment,
    len_back: nat,
    data_back: nat,
    slot: nat,
    o: Outcome,
    t: State,
) -> (u: State)
    requires
        unique_dests(program),
        sits(
            program,
            at,
            base,
            before.followed_by(string_argument(len_back, data_back, slot)).program,
        ),
        clean(before.followed_by(string_argument(len_back, data_back, slot))),
        is_cell(slot),
        reaches(chain, program, running(at, m), t),
        delivers(t, o, at + before.program.instrs.len(), m.stack),
    ensures
        reaches(chain, program, running(at, m), u),
        delivers(
            u,
            then_string(o, slot, code_word(chain, len_back), code_word(chain, data_back)),
            at + before.followed_by(
                string_argument(len_back, data_back, slot),
            ).program.instrs.len(),
            m.stack,
        ),
{
    lemma_sits_followed(
        program,
        at,
        base,
        before,
        string_argument(len_back, data_back, slot),
    );
    match o {
        Outcome::Next(st) => {
            let u = run_decode_argument(
                chain,
                program,
                at + before.program.instrs.len(),
                base + before.program.labels,
                len_back,
                data_back,
                slot,
                t.machine,
                st,
            );
            lemma_reaches_trans(chain, program, running(at, m), t, u);
            u
        },
        _ => t,
    }
}

/// The code that decodes a string argument of a constructor.
pub open spec fn string_argument(len_back: nat, data_back: nat, slot: nat) -> Fragment {
    Fragment::of(decode_short_string_constructor_arg_code(len_back, data_back, slot, 0), 1)
}

/// What becomes of a word argument of a constructor.
spec fn then_word(o: Outcome, slot: nat, value: nat) -> Outcome {
    match o {
        Outcome::Next(st) => Outcome::Next(st.with_cell(slot, value)),
        other => bail(other),
    }
}

/// A word argument of a constructor, behind other code.
proof fn step_word_argument(
    chain: Chain,
    program: Seq<Instr>,
    at: nat,
    base: nat,
    m: Machine,
    before: Fragment,
    back: nat,
    slot: nat,
    o: Outcome,
    t: State,
) -> (u: State)
    requires
        sits(program, at, base, before.with_code(copy_argument_code(back, slot)).program),
        is_cell(slot),
        reaches(chain, program, running(at, m), t),
        delivers(t, o, at + before.program.instrs.len(), m.stack),
    ensures
        reaches(chain, program, running(at, m), u),
        delivers(
            u,
            then_word(o, slot, code_word(chain, back)),
            at + before.with_code(copy_argument_code(back, slot)).program.instrs.len(),
            m.stack,
        ),
{
    lemma_copy_argument(chain, back, slot, m);
    lemma_sits_code(program, at, base, before.program, copy_argument_code(back, slot));
    match o {
        Outcome::Next(st) => {
            let u = run_copy_argument(
                chain,
                program,
                at + before.program.instrs.len(),
                back,
                slot,
                t.machine,
                st,
            );
            lemma_reaches_trans(chain, program, running(at, m), t, u);
            u
        },
        _ => t,
    }
}

/// The arguments of a constructor.
pub proof fn run_constructor_params(
    chain: Chain,
    program: Seq<Instr>,
    at: nat,
    base: nat,
    m: Machine,
    params: Seq<Parameter>,
    k: nat,
    scope: Scope,
    st: Store,
) -> (t: State)
    requires
        unique_dests(program),
        sits(program, at, base, constructor_params(params, k, scope).code.program),
        clean(constructor_params(params, k, scope).code),
        related(st, m),
        scope_ok(scope),
        k <= params.len(),
    ensures
        reaches(chain, program, running(at, m), t),
        delivers(
            t,
            eval_constructor_params(chain, params, k, scope, st),
            at + constructor_params(params, k, scope).code.program.instrs.len(),
            m.stack,
        ),
    decreases k,
{
    if k == 0 {
        lemma_reaches_self(chain, program, running(at, m));
        running(at, m)
    } else {
        let j = (k - 1) as nat;
        let before = constructor_params(params, j, scope);
        let slot = before.scope.next_local as nat;
        let left = string_count(params, params.len()) - string_count(params, j);
        let len_back = (64 * left) as nat;
        let data_back = (64 * left - 32) as nat;
        let back = (arguments_len(params) - 32 * j) as nat;
        sound_constructor_params(params, j, scope);
        if !before.scope.has_room() {
            running(at, m)
        } else if short_string_type(params[k - 1].ty) {
            let piece = string_argument(len_back, data_back, slot);
            lemma_sits_followed(program, at, base, before.code, piece);
            let t = run_constructor_params(chain, program, at, base, m, params, j, scope, st);
            let o = eval_constructor_params(chain, params, j, scope, st);
            step_string_argument(
                chain,
                program,
                at,
                base,
                m,
                before.code,
                len_back,
                data_back,
                slot,
                o,
                t,
            )
        } else {
            lemma_sits_code(
                program,
                at,
                base,
                before.code.program,
                copy_argument_code(back, slot),
            );
            let t = run_constructor_params(chain, program, at, base, m, params, j, scope, st);
            let o = eval_constructor_params(chain, params, j, scope, st);
            step_word_argument(chain, program, at, base, m, before.code, back, slot, o, t)
        }
    }
}

} // verus!
