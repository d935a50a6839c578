//! What the pieces of compiled code do on the machine, each around code whose effect is known.

use vstd::prelude::*;
use vstd::utf8::encode_utf8;

use crate::assembler::{moved_label, relocate_all, Instr, Op};
use crate::ast::BinOp;
use crate::builder::{
    array_elem_slot_code, array_elem_slot_from_stack_code, mapping_slot_from_stack_code,
    push_number, return_short_string_code, return_word_code,
};
use crate::bytes::{be_bytes, be_value, lemma_be_bytes_len, lemma_be_value_bound};
use crate::code::Fragment;
use crate::effects::{
    advance, advance_halt, array_slot, holds, jump_free, law_array_elem_slot,
    law_array_elem_slot_from_stack, law_mapping_slot_from_stack, law_return_short_string,
    law_return_word, lemma_line, lemma_load_bytes, lemma_modulus, lemma_opcodes, lemma_push_number,
    line, mapping_scratch, mapping_slot, op_add, op_div, op_dup, op_eq, op_gas, op_gt, op_iszero,
    op_log, op_lt, op_mload, op_mod, op_mstore, op_mul, op_pop, op_push, op_return, op_shl,
    op_sload, op_sstore, op_sub, op_swap1, string_data,
};
use crate::keccak::keccak256_digest;
use crate::machine::{
    bytes_at, call_effect, calldata_word, effect, flag, lemma_reaches_trans, load, log_effect,
    modulus, padded, reaches, running, simple_effect, slot_value, stored, word, written, Chain,
    Effect, Log, Machine, Request, State, Status,
};
use crate::meaning::{
    array_grown, bail, call_data, cell_words, done, foreign_call, is_overlaid, operate, right_first,
    words_data, Outcome, Store,
};
use crate::model::Scope;
use crate::scheme::{
    array_push_code, branches_code, foreign_call_code, guard_code, log_code, loop_code, packed,
    return_words_code, selector_code, stores_code,
};
use crate::shape::{
    is_cell, label_free, lemma_call_pieces_label_free, lemma_label_free_concat,
    lemma_number_pieces_label_free, lemma_pieces_label_free, lemma_stores_label_free, scope_ok,
    unique_dests,
};
use crate::simulate::{
    all_values, clean, delivers, lemma_holds_concat, lemma_holds_index, lemma_line_concat,
    lemma_narrow, lemma_related_cell, lemma_related_intro, lemma_related_load, lemma_related_parts,
    lemma_related_scratch, lemma_related_slot, lemma_related_stack, lemma_relocate_label_free,
    lemma_sits_code, lemma_sits_followed, lemma_stores, lemma_word_stored, lemma_words_stored,
    lemma_words_stored_elsewhere, narrow, related, run_dest, run_guard, run_jump,
    run_jump_not_taken, run_jump_taken, run_line, run_one, sits, with_stack, words_stored,
};

verus! {

/// Whether a program holds a fragment without faults, and a machine stands for a store.
pub open spec fn ready(
    program: Seq<Instr>,
    at: nat,
    base: nat,
    code: Fragment,
    m: Machine,
    scope: Scope,
    st: Store,
) -> bool {
    &&& unique_dests(program)
    &&& narrow(program)
    &&& sits(program, at, base, code.program)
    &&& clean(code)
    &&& related(st, m)
    &&& scope_ok(scope)
}

/// Code without labels that a program holds.
pub proof fn lemma_sits_plain(program: Seq<Instr>, at: nat, base: nat, code: Seq<Instr>)
    requires
        sits(program, at, base, Fragment::of(code, 0).program),
        label_free(code),
    ensures
        holds(program, at, code),
{
    lemma_relocate_label_free(code, base);
}

/// The push of a number.
pub proof fn run_push(chain: Chain, program: Seq<Instr>, at: nat, n: nat, m: Machine)
    requires
        holds(program, at, seq![push_number(n)]),
    ensures
        reaches(chain, program, running(at, m), running(at + 1, m.pushed(n))),
{
    lemma_holds_index(program, at, seq![push_number(n)], 0);
    lemma_push_number(chain, n, m);
    run_one(chain, program, at, push_number(n), m, m.pushed(n));
}

/// The push of a number, and an instruction that is no jump.
pub proof fn run_push_op(
    chain: Chain,
    program: Seq<Instr>,
    at: nat,
    n: nat,
    instr: Instr,
    m: Machine,
    next: Machine,
)
    requires
        holds(program, at, seq![push_number(n), instr]),
        instr !is Jump,
        instr !is JumpI,
        effect(chain, instr, m.pushed(n)) == Effect::Next(next),
    ensures
        reaches(chain, program, running(at, m), running(at + 2, next)),
{
    let code = seq![push_number(n), instr];
    lemma_holds_index(program, at, code, 0);
    lemma_holds_index(program, at, code, 1);
    lemma_push_number(chain, n, m);
    run_one(chain, program, at, push_number(n), m, m.pushed(n));
    run_one(chain, program, at + 1, instr, m.pushed(n), next);
    lemma_reaches_trans(
        chain,
        program,
        running(at, m),
        running(at + 1, m.pushed(n)),
        running(at + 2, next),
    );
}

/// What operators do after their operands.
pub open spec fn operator_tail(op: BinOp) -> Seq<Instr> {
    match op {
        BinOp::Add => seq![Op::Add@],
        BinOp::Mul => seq![Op::Mul@],
        BinOp::Sub => seq![Op::Sub@],
        BinOp::Div => seq![Op::Div@],
        BinOp::Rem => seq![Op::Mod@],
        BinOp::Shl => seq![Op::Shl@],
        BinOp::Lt => seq![Op::Gt@],
        BinOp::Gt => seq![Op::Lt@],
        BinOp::Eq => seq![Op::Eq@],
        BinOp::Ne => seq![Op::Eq@, Op::IsZero@],
        BinOp::Le => seq![Op::Lt@, Op::IsZero@],
        BinOp::Ge => seq![Op::Gt@, Op::IsZero@],
        BinOp::Other => Seq::empty(),
    }
}

/// What follows the operands names no labels.
pub proof fn lemma_operator_tail(op: BinOp)
    ensures
        label_free(operator_tail(op)),
        jump_free(operator_tail(op)),
{
    lemma_opcodes();
}

/// A quotient is no larger than what is divided.
pub proof fn lemma_div_bound(l: nat, r: nat)
    requires
        r > 0,
    ensures
        l / r <= l,
        l % r <= l,
{
    vstd::arithmetic::div_mod::lemma_div_is_ordered_by_denominator(l as int, 1, r as int);
    vstd::arithmetic::div_mod::lemma_mod_decreases(l, r);
}

/// An operator, on a stack with its operands.
pub proof fn lemma_operator(chain: Chain, op: BinOp, m: Machine, l: nat, r: nat)
    requires
        op != BinOp::Other,
        l < modulus(),
        r < modulus(),
    ensures
        operate(op, l, r) is Some,
        operate(op, l, r)->Some_0 < modulus(),
        right_first(op) ==> line(chain, operator_tail(op), 0, m.pushed(r).pushed(l))
            == Effect::Next(m.pushed(operate(op, l, r)->Some_0)),
        !right_first(op) ==> line(chain, operator_tail(op), 0, m.pushed(l).pushed(r))
            == Effect::Next(m.pushed(operate(op, l, r)->Some_0)),
{
    let code = operator_tail(op);
    let v = operate(op, l, r)->Some_0;
    let lr = m.pushed(l).pushed(r);
    let rl = m.pushed(r).pushed(l);
    match op {
        BinOp::Add => {
            op_add(chain, m, l, r);
            assert(r + l == l + r);
            advance(chain, code, 0, lr, m.pushed(v));
        },
        BinOp::Mul => {
            op_mul(chain, m, l, r);
            assert(r * l == l * r) by (nonlinear_arith);
            advance(chain, code, 0, lr, m.pushed(v));
        },
        BinOp::Sub => {
            op_sub(chain, m, r, l);
            advance(chain, code, 0, rl, m.pushed(v));
        },
        BinOp::Div => {
            op_div(chain, m, r, l);
            if r > 0 {
                lemma_div_bound(l, r);
            }
            advance(chain, code, 0, rl, m.pushed(v));
        },
        BinOp::Rem => {
            op_mod(chain, m, r, l);
            if r > 0 {
                lemma_div_bound(l, r);
            }
            advance(chain, code, 0, rl, m.pushed(v));
        },
        BinOp::Shl => {
            op_shl(chain, m, l, r);
            advance(chain, code, 0, lr, m.pushed(v));
        },
        BinOp::Lt => {
            op_gt(chain, m, l, r);
            advance(chain, code, 0, lr, m.pushed(v));
        },
        BinOp::Gt => {
            op_lt(chain, m, l, r);
            advance(chain, code, 0, lr, m.pushed(v));
        },
        BinOp::Eq => {
            op_eq(chain, m, l, r);
            advance(chain, code, 0, lr, m.pushed(v));
        },
        BinOp::Ne => {
            op_eq(chain, m, l, r);
            advance(chain, code, 0, lr, m.pushed(flag(r == l)));
            op_iszero(chain, m, flag(r == l));
            advance(chain, code, 1, m.pushed(flag(r == l)), m.pushed(v));
        },
        BinOp::Le => {
            op_lt(chain, m, l, r);
            advance(chain, code, 0, lr, m.pushed(flag(r < l)));
            op_iszero(chain, m, flag(r < l));
            advance(chain, code, 1, m.pushed(flag(r < l)), m.pushed(v));
        },
        BinOp::Ge => {
            op_gt(chain, m, l, r);
            advance(chain, code, 0, lr, m.pushed(flag(r > l)));
            op_iszero(chain, m, flag(r > l));
            advance(chain, code, 1, m.pushed(flag(r > l)), m.pushed(v));
        },
        BinOp::Other => {},
    }
}

/// The code before further instructions.
pub proof fn split_code(program: Seq<Instr>, at: nat, base: nat, f: Fragment, code: Seq<Instr>)
    requires
        sits(program, at, base, f.with_code(code).program),
    ensures
        sits(program, at, base, f.program),
{
    lemma_sits_code(program, at, base, f.program, code);
}

/// Two fragments that follow each other.
pub proof fn split_two(program: Seq<Instr>, at: nat, base: nat, f: Fragment, g: Fragment)
    requires
        sits(program, at, base, f.followed_by(g).program),
        clean(f.followed_by(g)),
    ensures
        clean(f),
        clean(g),
        sits(program, at, base, f.program),
        sits(program, at + f.program.instrs.len(), base + f.program.labels, g.program),
{
    lemma_sits_followed(program, at, base, f, g);
}

/// What becomes of a value that is stored in a cell.
pub open spec fn then_cell(o: Outcome, offset: nat) -> Outcome {
    match o {
        Outcome::Value(v, st) => Outcome::Next(st.with_cell(offset, v)),
        other => bail(other),
    }
}

/// What becomes of a value that is stored in a slot.
pub open spec fn then_slot(o: Outcome, slot: nat) -> Outcome {
    match o {
        Outcome::Value(v, st) => Outcome::Next(st.with_slot(slot, v)),
        other => bail(other),
    }
}

/// A value on the stack that is stored in a cell.
pub proof fn run_store_cell(
    chain: Chain,
    program: Seq<Instr>,
    at: nat,
    offset: nat,
    t: State,
    v: nat,
    st: Store,
    stack: Seq<nat>,
) -> (u: State)
    requires
        holds(program, at, seq![push_number(offset), Op::MStore@]),
        delivers(t, Outcome::Value(v, st), at, stack),
        is_cell(offset),
    ensures
        reaches(chain, program, t, u),
        delivers(u, Outcome::Next(st.with_cell(offset, v)), at + 2, stack),
{
    let m0 = with_stack(t.machine, stack);
    assert(m0.pushed(v).stack =~= t.machine.stack);
    lemma_related_stack(st, t.machine, m0);
    let next = m0.with_memory(stored(m0.memory, offset as int, v));
    op_mstore(chain, m0, v, offset);
    lemma_opcodes();
    run_push_op(chain, program, at, offset, Op::MStore@, t.machine, next);
    lemma_related_cell(st, m0, offset, v);
    running(at + 2, next)
}

/// A value on the stack that is stored in a slot.
pub proof fn run_store_slot(
    chain: Chain,
    program: Seq<Instr>,
    at: nat,
    slot: nat,
    t: State,
    v: nat,
    st: Store,
    stack: Seq<nat>,
) -> (u: State)
    requires
        holds(program, at, seq![push_number(slot), Op::SStore@]),
        delivers(t, Outcome::Value(v, st), at, stack),
    ensures
        reaches(chain, program, t, u),
        delivers(u, Outcome::Next(st.with_slot(slot, v)), at + 2, stack),
{
    let m0 = with_stack(t.machine, stack);
    assert(m0.pushed(v).stack =~= t.machine.stack);
    lemma_related_stack(st, t.machine, m0);
    let next = m0.with_storage(m0.storage.insert(slot, v));
    op_sstore(chain, m0, v, slot);
    lemma_opcodes();
    run_push_op(chain, program, at, slot, Op::SStore@, t.machine, next);
    lemma_related_slot(st, m0, slot, v);
    running(at + 2, next)
}

/// Code for a value that is stored in a cell.
pub proof fn step_store_cell(
    chain: Chain,
    program: Seq<Instr>,
    at: nat,
    base: nat,
    m: Machine,
    value: Fragment,
    offset: nat,
    o: Outcome,
    t: State,
) -> (u: State)
    requires
        sits(
            program,
            at,
            base,
            value.with_code(seq![push_number(offset), Op::MStore@]).program,
        ),
        is_cell(offset),
        reaches(chain, program, running(at, m), t),
        delivers(t, o, at + value.program.instrs.len(), m.stack),
    ensures
        reaches(chain, program, running(at, m), u),
        delivers(
            u,
            then_cell(o, offset),
            at + value.with_code(seq![push_number(offset), Op::MStore@]).program.instrs.len(),
            m.stack,
        ),
{
    let store = seq![push_number(offset), Op::MStore@];
    lemma_number_pieces_label_free(offset);
    lemma_sits_code(program, at, base, value.program, store);
    match o {
        Outcome::Value(v, st) => {
            let u = run_store_cell(
                chain,
                program,
                at + value.program.instrs.len(),
                offset,
                t,
                v,
                st,
                m.stack,
            );
            lemma_reaches_trans(chain, program, running(at, m), t, u);
            u
        },
        _ => t,
    }
}

/// Code for a value that is stored in a slot.
pub proof fn step_store_slot(
    chain: Chain,
    program: Seq<Instr>,
    at: nat,
    base: nat,
    m: Machine,
    value: Fragment,
    slot: nat,
    o: Outcome,
    t: State,
) -> (u: State)
    requires
        sits(program, at, base, value.with_code(seq![push_number(slot), Op::SStore@]).program),
        reaches(chain, program, running(at, m), t),
        delivers(t, o, at + value.program.instrs.len(), m.stack),
    ensures
        reaches(chain, program, running(at, m), u),
        delivers(
            u,
            then_slot(o, slot),
            at + value.with_code(seq![push_number(slot), Op::SStore@]).program.instrs.len(),
            m.stack,
        ),
{
    let store = seq![push_number(slot), Op::SStore@];
    lemma_number_pieces_label_free(slot);
    lemma_sits_code(program, at, base, value.program, store);
    match o {
        Outcome::Value(v, st) => {
            let u = run_store_slot(
                chain,
                program,
                at + value.program.instrs.len(),
                slot,
                t,
                v,
                st,
                m.stack,
            );
            lemma_reaches_trans(chain, program, running(at, m), t, u);
            u
        },
        _ => t,
    }
}

/// A slot that is read.
pub proof fn run_load_slot(
    chain: Chain,
    program: Seq<Instr>,
    at: nat,
    slot: nat,
    m: Machine,
    st: Store,
) -> (u: State)
    requires
        holds(program, at, seq![push_number(slot), Op::SLoad@]),
        related(st, m),
    ensures
        reaches(chain, program, running(at, m), u),
        delivers(u, Outcome::Value(slot_value(st.storage, slot), st), at + 2, m.stack),
{
    lemma_related_parts(st, m);
    op_sload(chain, m, slot);
    lemma_opcodes();
    let next = m.pushed(slot_value(m.storage, slot));
    run_push_op(chain, program, at, slot, Op::SLoad@, m, next);
    lemma_related_stack(st, m, next);
    running(at + 2, next)
}

/// The words on the stack are returned.
pub proof fn run_return_words(
    chain: Chain,
    program: Seq<Instr>,
    at: nat,
    t: State,
    vs: Seq<nat>,
    st: Store,
    stack: Seq<nat>,
) -> (u: State)
    requires
        holds(program, at, return_words_code(vs.len())),
        delivers(t, Outcome::Values(vs, st), at, stack),
    ensures
        reaches(chain, program, t, u),
        u.status == Status::Returned(words_data(vs)),
        u.machine.storage == st.storage,
        u.machine.logs == st.logs,
{
    let k = vs.len();
    let m0 = with_stack(t.machine, stack);
    let m1 = m0.with_memory(words_stored(m0.memory, 0, vs));
    let tail = seq![push_number(32 * k), push_number(0), Op::Return@];
    lemma_opcodes();
    lemma_stores(chain, m0, 0, vs);
    lemma_words_stored(m0.memory, 0, vs);
    lemma_related_parts(st, t.machine);
    assert(with_stack(m0, m0.stack + vs) == t.machine);
    lemma_push_number(chain, 32 * k, m1);
    advance(chain, tail, 0, m1, m1.pushed(32 * k));
    lemma_push_number(chain, 0, m1.pushed(32 * k));
    advance(chain, tail, 1, m1.pushed(32 * k), m1.pushed(32 * k).pushed(0));
    op_return(chain, m1, 32 * k, 0);
    advance_halt(
        chain,
        tail,
        2,
        m1.pushed(32 * k).pushed(0),
        Status::Returned(words_data(vs)),
        m1,
    );
    lemma_line_concat(chain, stores_code(0, k), tail, 0, t.machine);
    assert forall|i: int| #![trigger return_words_code(k)[i]] 0 <= i
        < return_words_code(k).len() implies return_words_code(k)[i] !is Jump
        && return_words_code(k)[i] !is JumpI by {
        if i < stores_code(0, k).len() {
            assert(return_words_code(k)[i] == stores_code(0, k)[i]);
        } else {
            assert(return_words_code(k)[i] == tail[i - stores_code(0, k).len()]);
        }
    }
    lemma_line(chain, program, at, return_words_code(k), t.machine)
}

/// What becomes of values that are returned.
pub open spec fn then_return_words(o: Outcome) -> Outcome {
    match o {
        Outcome::Values(vs, after) => Outcome::Returned(words_data(vs), after),
        other => bail(other),
    }
}

/// What becomes of a value that is returned.
pub open spec fn then_return(o: Outcome, as_string: bool) -> Outcome {
    match o {
        Outcome::Value(v, after) => Outcome::Returned(
            if as_string {
                string_data(v)
            } else {
                be_bytes(v, 32)
            },
            after,
        ),
        other => bail(other),
    }
}

/// Code for values that are returned.
pub proof fn step_return_words(
    chain: Chain,
    program: Seq<Instr>,
    at: nat,
    base: nat,
    m: Machine,
    all: Fragment,
    k: nat,
    o: Outcome,
    t: State,
) -> (u: State)
    requires
        sits(program, at, base, all.with_code(return_words_code(k)).program),
        o matches Outcome::Values(vs, _) ==> vs.len() == k,
        reaches(chain, program, running(at, m), t),
        delivers(t, o, at + all.program.instrs.len(), m.stack),
    ensures
        reaches(chain, program, running(at, m), u),
        delivers(
            u,
            then_return_words(o),
            at + all.with_code(return_words_code(k)).program.instrs.len(),
            m.stack,
        ),
{
    lemma_opcodes();
    lemma_stores_label_free(0, k);
    lemma_label_free_concat(
        stores_code(0, k),
        seq![push_number(32 * k), push_number(0), Op::Return@],
    );
    lemma_sits_code(program, at, base, all.program, return_words_code(k));
    match o {
        Outcome::Values(vs, st1) => {
            let u = run_return_words(
                chain,
                program,
                at + all.program.instrs.len(),
                t,
                vs,
                st1,
                m.stack,
            );
            lemma_reaches_trans(chain, program, running(at, m), t, u);
            u
        },
        _ => t,
    }
}

/// What a returned value ends in.
pub open spec fn return_code(as_string: bool) -> Seq<Instr> {
    if as_string {
        return_short_string_code()
    } else {
        return_word_code()
    }
}

/// Code for a value that is returned.
pub proof fn step_return(
    chain: Chain,
    program: Seq<Instr>,
    at: nat,
    base: nat,
    m: Machine,
    value: Fragment,
    as_string: bool,
    o: Outcome,
    t: State,
) -> (u: State)
    requires
        sits(program, at, base, value.with_code(return_code(as_string)).program),
        reaches(chain, program, running(at, m), t),
        delivers(t, o, at + value.program.instrs.len(), m.stack),
    ensures
        reaches(chain, program, running(at, m), u),
        delivers(
            u,
            then_return(o, as_string),
            at + value.with_code(return_code(as_string)).program.instrs.len(),
            m.stack,
        ),
{
    let ending = return_code(as_string);
    lemma_pieces_label_free();
    lemma_sits_code(program, at, base, value.program, ending);
    match o {
        Outcome::Value(v, st1) => {
            lemma_related_parts(st1, t.machine);
            law_return_word(chain, t.machine);
            law_return_short_string(chain, t.machine);
            let u = lemma_line(
                chain,
                program,
                at + value.program.instrs.len(),
                ending,
                t.machine,
            );
            lemma_reaches_trans(chain, program, running(at, m), t, u);
            u
        },
        _ => t,
    }
}

/// One more value on the stack.
pub proof fn lemma_one_more_value(
    t: State,
    vs: Seq<nat>,
    v: nat,
    st: Store,
    pc: nat,
    stack: Seq<nat>,
)
    requires
        delivers(t, Outcome::Value(v, st), pc, stack + vs),
        all_values(vs),
    ensures
        delivers(t, Outcome::Values(vs.push(v), st), pc, stack),
{
    assert(stack + vs.push(v) =~= (stack + vs).push(v));
    assert forall|i: int| #![trigger vs.push(v)[i]] 0 <= i < vs.push(v).len() implies vs.push(
        v,
    )[i] < modulus() by {
        if i < vs.len() {
            assert(vs.push(v)[i] == vs[i]);
        }
    }
}

/// What becomes of the result of an inlined function.
pub open spec fn then_result(o: Outcome, returning: bool, want_value: bool) -> Outcome {
    match o {
        Outcome::Value(v, after) => if !returning {
            Outcome::Unfinished
        } else if want_value {
            Outcome::Value(v, after)
        } else {
            Outcome::Next(after)
        },
        Outcome::Next(after) => if !returning && !want_value {
            Outcome::Next(after)
        } else {
            Outcome::Unfinished
        },
        other => bail(other),
    }
}

/// What comes after an inlined function: a result that nobody wants is dropped.
pub open spec fn cleanup_code(returning: bool, want_value: bool) -> Seq<Instr> {
    if !want_value && returning {
        seq![Op::Pop@]
    } else {
        Seq::empty()
    }
}

/// The parts of an internal call.
pub proof fn split_internal_call(
    program: Seq<Instr>,
    at: nat,
    base: nat,
    bound: Fragment,
    body: Fragment,
    ending: Seq<Instr>,
)
    requires
        sits(program, at, base, bound.followed_by(body).with_code(ending).program),
        clean(bound.followed_by(body).with_code(ending)),
    ensures
        clean(bound),
        clean(body),
        sits(program, at, base, bound.program),
        sits(program, at + bound.program.instrs.len(), base + bound.program.labels, body.program),
{
    split_code(program, at, base, bound.followed_by(body), ending);
    split_two(program, at, base, bound, body);
}

/// The end of an internal call.
pub proof fn step_internal_call(
    chain: Chain,
    program: Seq<Instr>,
    at: nat,
    base: nat,
    m: Machine,
    bound: Fragment,
    body: Fragment,
    returning: bool,
    want_value: bool,
    o: Outcome,
    t: State,
) -> (u: State)
    requires
        sits(
            program,
            at,
            base,
            bound.followed_by(body).with_code(cleanup_code(returning, want_value)).program,
        ),
        clean(bound.followed_by(body)),
        reaches(chain, program, running(at, m), t),
        delivers(
            t,
            o,
            at + bound.program.instrs.len() + body.program.instrs.len(),
            m.stack,
        ),
    ensures
        reaches(chain, program, running(at, m), u),
        delivers(
            u,
            then_result(o, returning, want_value),
            at + bound.followed_by(body).with_code(
                cleanup_code(returning, want_value),
            ).program.instrs.len(),
            m.stack,
        ),
{
    let both = bound.followed_by(body);
    let ending = cleanup_code(returning, want_value);
    lemma_pieces_label_free();
    lemma_sits_code(program, at, base, both.program, ending);
    lemma_sits_followed(program, at, base, bound, body);
    let end = at + both.program.instrs.len();
    match o {
        Outcome::Value(v, st2) => {
            if returning && !want_value {
                let m0 = with_stack(t.machine, m.stack);
                assert(m0.pushed(v).stack =~= t.machine.stack);
                op_pop(chain, m0, v);
                lemma_opcodes();
                lemma_holds_index(program, end, ending, 0);
                run_one(chain, program, end, Op::Pop@, t.machine, m0);
                lemma_related_stack(st2, t.machine, m0);
                lemma_reaches_trans(
                    chain,
                    program,
                    running(at, m),
                    t,
                    running(end + 1, m0),
                );
                running(end + 1, m0)
            } else {
                t
            }
        },
        _ => t,
    }
}

/// The scratch space of a mapping holds no cells.
pub proof fn lemma_related_mapping_scratch(st: Store, m: Machine, base: nat, key: nat)
    requires
        related(st, m),
    ensures
        related(st, m.with_memory(mapping_scratch(m.memory, base, key))),
{
    lemma_related_scratch(st, m, 0, key);
    let first = m.with_memory(stored(m.memory, 0, key));
    lemma_related_scratch(st, first, 0x20, base);
}

/// A base slot and a key on the stack become the slot of the key in a mapping.
pub proof fn run_mapping_slot(
    chain: Chain,
    program: Seq<Instr>,
    at: nat,
    t: State,
    slot: nat,
    key: nat,
    st: Store,
    stack: Seq<nat>,
) -> (u: State)
    requires
        holds(program, at, mapping_slot_from_stack_code()),
        slot < modulus(),
        delivers(t, Outcome::Value(key, st), at, stack.push(slot)),
    ensures
        reaches(chain, program, t, u),
        delivers(u, Outcome::Value(mapping_slot(slot, key), st), at + 7, stack),
{
    let m = t.machine;
    assert(m.top(0) == key && m.top(1) == slot);
    law_mapping_slot_from_stack(chain, m);
    let next = m.dropped(2).with_memory(mapping_scratch(m.memory, slot, key)).pushed(
        mapping_slot(slot, key),
    );
    run_line(chain, program, at, mapping_slot_from_stack_code(), m, next);
    assert(m.dropped(2).stack =~= stack);
    lemma_related_mapping_scratch(st, m, slot, key);
    lemma_related_stack(st, m.with_memory(mapping_scratch(m.memory, slot, key)), next);
    running(at + 7, next)
}

/// A base slot and an index on the stack become the slot of the element of an array.
pub proof fn run_array_slot(
    chain: Chain,
    program: Seq<Instr>,
    at: nat,
    t: State,
    slot: nat,
    index: nat,
    st: Store,
    stack: Seq<nat>,
) -> (u: State)
    requires
        holds(program, at, array_elem_slot_from_stack_code()),
        slot < modulus(),
        delivers(t, Outcome::Value(index, st), at, stack.push(slot)),
    ensures
        reaches(chain, program, t, u),
        delivers(u, Outcome::Value(array_slot(slot, index), st), at + 7, stack),
{
    let m = t.machine;
    assert(m.top(0) == index && m.top(1) == slot);
    law_array_elem_slot_from_stack(chain, m);
    let next = m.dropped(2).with_memory(stored(m.memory, 0, slot)).pushed(
        array_slot(slot, index),
    );
    run_line(chain, program, at, array_elem_slot_from_stack_code(), m, next);
    assert(m.dropped(2).stack =~= stack);
    lemma_related_scratch(st, m, 0, slot);
    lemma_related_stack(st, m.with_memory(stored(m.memory, 0, slot)), next);
    running(at + 7, next)
}

/// An index on the stack becomes the slot of the element of an array at a known slot.
pub proof fn run_known_array_slot(
    chain: Chain,
    program: Seq<Instr>,
    at: nat,
    t: State,
    slot: nat,
    index: nat,
    st: Store,
    stack: Seq<nat>,
) -> (u: State)
    requires
        holds(program, at, array_elem_slot_code(slot)),
        slot < modulus(),
        delivers(t, Outcome::Value(index, st), at, stack),
    ensures
        reaches(chain, program, t, u),
        delivers(u, Outcome::Value(array_slot(slot, index), st), at + 7, stack),
{
    let m = t.machine;
    assert(m.top(0) == index);
    law_array_elem_slot(chain, slot, m);
    let next = m.dropped(1).with_memory(stored(m.memory, 0, slot)).pushed(
        array_slot(slot, index),
    );
    run_line(chain, program, at, array_elem_slot_code(slot), m, next);
    assert(m.dropped(1).stack =~= stack);
    lemma_related_scratch(st, m, 0, slot);
    lemma_related_stack(st, m.with_memory(stored(m.memory, 0, slot)), next);
    running(at + 7, next)
}

/// A value and a slot on the stack: the value is stored in the slot.
pub proof fn run_sstore(
    chain: Chain,
    program: Seq<Instr>,
    at: nat,
    t: State,
    v: nat,
    slot: nat,
    st: Store,
    stack: Seq<nat>,
) -> (u: State)
    requires
        at < program.len(),
        program[at as int] == Op::SStore@,
        delivers(t, Outcome::Value(slot, st), at, stack.push(v)),
    ensures
        reaches(chain, program, t, u),
        delivers(u, Outcome::Next(st.with_slot(slot, v)), at + 1, stack),
{
    let m0 = with_stack(t.machine, stack);
    assert(m0.pushed(v).pushed(slot).stack =~= t.machine.stack);
    let next = m0.with_storage(m0.storage.insert(slot, v));
    op_sstore(chain, m0, v, slot);
    lemma_opcodes();
    run_one(chain, program, at, Op::SStore@, t.machine, next);
    lemma_related_stack(st, t.machine, m0);
    lemma_related_slot(st, m0, slot, v);
    running(at + 1, next)
}

/// The parts of an `insert`.
pub proof fn split_insert(
    program: Seq<Instr>,
    at: nat,
    base: nat,
    value: Fragment,
    slot: Fragment,
    key: Fragment,
    ending: Seq<Instr>,
)
    requires
        sits(
            program,
            at,
            base,
            value.followed_by(slot).followed_by(key).with_code(ending).program,
        ),
        clean(value.followed_by(slot).followed_by(key).with_code(ending)),
    ensures
        clean(value),
        clean(slot),
        clean(key),
        sits(program, at, base, value.program),
        sits(program, at + value.program.instrs.len(), base + value.program.labels, slot.program),
        sits(
            program,
            at + value.program.instrs.len() + slot.program.instrs.len(),
            base + value.program.labels + slot.program.labels,
            key.program,
        ),
{
    let two = value.followed_by(slot);
    split_code(program, at, base, two.followed_by(key), ending);
    lemma_sits_followed(program, at, base, two, key);
    lemma_sits_followed(program, at, base, value, slot);
}

/// The end of an `insert`.
pub proof fn step_insert(
    chain: Chain,
    program: Seq<Instr>,
    at: nat,
    base: nat,
    m: Machine,
    value: Fragment,
    slot_code: Fragment,
    key: Fragment,
    v: nat,
    slot: nat,
    o: Outcome,
    t: State,
) -> (u: State)
    requires
        sits(
            program,
            at,
            base,
            value.followed_by(slot_code).followed_by(key).with_code(
                mapping_slot_from_stack_code().push(Op::SStore@),
            ).program,
        ),
        clean(value.followed_by(slot_code).followed_by(key)),
        slot < modulus(),
        reaches(chain, program, running(at, m), t),
        delivers(
            t,
            o,
            at + value.program.instrs.len() + slot_code.program.instrs.len()
                + key.program.instrs.len(),
            m.stack.push(v).push(slot),
        ),
    ensures
        reaches(chain, program, running(at, m), u),
        delivers(
            u,
            (match o {
                Outcome::Value(k, st) => Outcome::Next(st.with_slot(mapping_slot(slot, k), v)),
                other => bail(other),
            }),
            at + value.followed_by(slot_code).followed_by(key).with_code(
                mapping_slot_from_stack_code().push(Op::SStore@),
            ).program.instrs.len(),
            m.stack,
        ),
{
    let ending = mapping_slot_from_stack_code().push(Op::SStore@);
    lemma_pieces_label_free();
    lemma_opcodes();
    let two = value.followed_by(slot_code);
    let three = two.followed_by(key);
    lemma_sits_code(program, at, base, three.program, ending);
    lemma_sits_followed(program, at, base, two, key);
    lemma_sits_followed(program, at, base, value, slot_code);
    match o {
        Outcome::Value(k, st) => {
            let end = at + three.program.instrs.len();
            assert(ending =~= mapping_slot_from_stack_code() + seq![Op::SStore@]);
            lemma_holds_concat(program, end, mapping_slot_from_stack_code(), seq![Op::SStore@]);
            lemma_holds_index(program, end + 7, seq![Op::SStore@], 0);
            let t4 = run_mapping_slot(chain, program, end, t, slot, k, st, m.stack.push(v));
            lemma_reaches_trans(chain, program, running(at, m), t, t4);
            let t5 = run_sstore(
                chain,
                program,
                end + 7,
                t4,
                v,
                mapping_slot(slot, k),
                st,
                m.stack,
            );
            lemma_reaches_trans(chain, program, running(at, m), t4, t5);
            t5
        },
        _ => t,
    }
}

/// The parts of a `set`.
pub proof fn split_set(
    program: Seq<Instr>,
    at: nat,
    base: nat,
    value: Fragment,
    index: Fragment,
    ending: Seq<Instr>,
)
    requires
        sits(program, at, base, value.followed_by(index).with_code(ending).program),
        clean(value.followed_by(index).with_code(ending)),
    ensures
        clean(value),
        clean(index),
        sits(program, at, base, value.program),
        sits(program, at + value.program.instrs.len(), base + value.program.labels, index.program),
{
    split_code(program, at, base, value.followed_by(index), ending);
    split_two(program, at, base, value, index);
}

/// The end of a `set`.
pub proof fn step_set(
    chain: Chain,
    program: Seq<Instr>,
    at: nat,
    base: nat,
    m: Machine,
    value: Fragment,
    index: Fragment,
    slot: nat,
    v: nat,
    o: Outcome,
    t: State,
) -> (u: State)
    requires
        sits(
            program,
            at,
            base,
            value.followed_by(index).with_code(
                array_elem_slot_code(slot).push(Op::SStore@),
            ).program,
        ),
        clean(value.followed_by(index)),
        slot < modulus(),
        reaches(chain, program, running(at, m), t),
        delivers(
            t,
            o,
            at + value.program.instrs.len() + index.program.instrs.len(),
            m.stack.push(v),
        ),
    ensures
        reaches(chain, program, running(at, m), u),
        delivers(
            u,
            (match o {
                Outcome::Value(i, st) => Outcome::Next(st.with_slot(array_slot(slot, i), v)),
                other => bail(other),
            }),
            at + value.followed_by(index).with_code(
                array_elem_slot_code(slot).push(Op::SStore@),
            ).program.instrs.len(),
            m.stack,
        ),
{
    let ending = array_elem_slot_code(slot).push(Op::SStore@);
    lemma_number_pieces_label_free(slot);
    lemma_opcodes();
    let two = value.followed_by(index);
    lemma_sits_code(program, at, base, two.program, ending);
    lemma_sits_followed(program, at, base, value, index);
    match o {
        Outcome::Value(i, st) => {
            let end = at + two.program.instrs.len();
            assert(ending =~= array_elem_slot_code(slot) + seq![Op::SStore@]);
            lemma_holds_concat(program, end, array_elem_slot_code(slot), seq![Op::SStore@]);
            lemma_holds_index(program, end + 7, seq![Op::SStore@], 0);
            let t3 = run_known_array_slot(
                chain, program, end, t, slot, i, st, m.stack.push(v),
            );
            lemma_reaches_trans(chain, program, running(at, m), t, t3);
            let t4 = run_sstore(
                chain, program, end + 7, t3, v, array_slot(slot, i), st, m.stack,
            );
            lemma_reaches_trans(chain, program, running(at, m), t3, t4);
            t4
        },
        _ => t,
    }
}

/// A value on the stack is put behind the last element of an array.
pub proof fn run_array_push(
    chain: Chain,
    program: Seq<Instr>,
    at: nat,
    t: State,
    slot: nat,
    v: nat,
    st: Store,
    stack: Seq<nat>,
) -> (u: State)
    requires
        holds(program, at, array_push_code(slot)),
        slot < modulus(),
        delivers(t, Outcome::Value(v, st), at, stack),
    ensures
        reaches(chain, program, t, u),
        delivers(u, Outcome::Next(array_grown(st, slot, v)), at + 16, stack),
{
    lemma_opcodes();
    let a = seq![push_number(slot), Op::SLoad@];
    let b = array_elem_slot_code(slot);
    let c = seq![Op::SStore@];
    let d = seq![push_number(slot), Op::SLoad@];
    let e = seq![push_number(1), Op::Add@];
    let f = seq![push_number(slot), Op::SStore@];
    assert(array_push_code(slot) =~= a + (b + (c + (d + (e + f)))));
    lemma_holds_concat(program, at, a, b + (c + (d + (e + f))));
    lemma_holds_concat(program, at + 2, b, c + (d + (e + f)));
    lemma_holds_concat(program, at + 9, c, d + (e + f));
    lemma_holds_concat(program, at + 10, d, e + f);
    lemma_holds_concat(program, at + 12, e, f);
    lemma_holds_index(program, at + 9, c, 0);
    let t1 = run_load_slot(chain, program, at, slot, t.machine, st);
    let len = slot_value(st.storage, slot);
    let t2 = run_known_array_slot(
        chain, program, at + 2, t1, slot, len, st, stack.push(v),
    );
    lemma_reaches_trans(chain, program, t, t1, t2);
    let element = array_slot(slot, len);
    let t3 = run_sstore(chain, program, at + 9, t2, v, element, st, stack);
    lemma_reaches_trans(chain, program, t, t2, t3);
    let st1 = st.with_slot(element, v);
    let t4 = run_load_slot(chain, program, at + 10, slot, t3.machine, st1);
    lemma_reaches_trans(chain, program, t, t3, t4);
    let old_len = slot_value(st1.storage, slot);
    let m0 = with_stack(t4.machine, stack);
    assert(m0.pushed(old_len).stack =~= t4.machine.stack);
    let new_len = word((old_len + 1) as int);
    op_add(chain, m0, old_len, 1);
    assert(1 + old_len == old_len + 1);
    let m5 = m0.pushed(new_len);
    run_push_op(chain, program, at + 12, 1, Op::Add@, t4.machine, m5);
    let t5 = running(at + 14, m5);
    lemma_related_stack(st1, t4.machine, m5);
    lemma_reaches_trans(chain, program, t, t4, t5);
    let t6 = run_store_slot(chain, program, at + 14, slot, t5, new_len, st1, stack);
    lemma_reaches_trans(chain, program, t, t5, t6);
    t6
}

/// Code for a value that is put behind the last element of an array.
pub proof fn step_push(
    chain: Chain,
    program: Seq<Instr>,
    at: nat,
    base: nat,
    m: Machine,
    value: Fragment,
    slot: nat,
    o: Outcome,
    t: State,
) -> (u: State)
    requires
        sits(program, at, base, value.with_code(array_push_code(slot)).program),
        slot < modulus(),
        reaches(chain, program, running(at, m), t),
        delivers(t, o, at + value.program.instrs.len(), m.stack),
    ensures
        reaches(chain, program, running(at, m), u),
        delivers(
            u,
            (match o {
                Outcome::Value(v, st) => Outcome::Next(array_grown(st, slot, v)),
                other => bail(other),
            }),
            at + value.with_code(array_push_code(slot)).program.instrs.len(),
            m.stack,
        ),
{
    lemma_number_pieces_label_free(slot);
    lemma_sits_code(program, at, base, value.program, array_push_code(slot));
    match o {
        Outcome::Value(v, st) => {
            let u = run_array_push(
                chain, program, at + value.program.instrs.len(), t, slot, v, st, m.stack,
            );
            lemma_reaches_trans(chain, program, running(at, m), t, u);
            u
        },
        _ => t,
    }
}

/// Code for a condition that has to hold.
pub proof fn step_requirement(
    chain: Chain,
    program: Seq<Instr>,
    at: nat,
    base: nat,
    m: Machine,
    cond: Fragment,
    o: Outcome,
    t: State,
) -> (u: State)
    requires
        unique_dests(program),
        sits(program, at, base, cond.followed_by(guard_code()).program),
        clean(cond.followed_by(guard_code())),
        reaches(chain, program, running(at, m), t),
        delivers(t, o, at + cond.program.instrs.len(), m.stack),
    ensures
        reaches(chain, program, running(at, m), u),
        delivers(
            u,
            (match o {
                Outcome::Value(v, after) => if v == 0 {
                    Outcome::Reverted
                } else {
                    Outcome::Next(after)
                },
                other => bail(other),
            }),
            at + cond.followed_by(guard_code()).program.instrs.len(),
            m.stack,
        ),
{
    lemma_sits_followed(program, at, base, cond, guard_code());
    match o {
        Outcome::Value(v, st1) => {
            let m0 = with_stack(t.machine, m.stack);
            assert(m0.pushed(v).stack =~= t.machine.stack);
            let u = run_guard(
                chain,
                program,
                at + cond.program.instrs.len(),
                base + cond.program.labels,
                m0,
                v,
            );
            lemma_related_stack(st1, t.machine, m0);
            lemma_reaches_trans(chain, program, running(at, m), t, u);
            u
        },
        _ => t,
    }
}

/// The words on the stack are logged.
pub proof fn run_log(
    chain: Chain,
    program: Seq<Instr>,
    at: nat,
    t: State,
    sig: Seq<char>,
    first: nat,
    vs: Seq<nat>,
    st: Store,
    stack: Seq<nat>,
) -> (u: State)
    requires
        first % 32 == 0,
        holds(program, at, log_code(sig, first, vs.len())),
        delivers(t, Outcome::Values(vs, st), at, stack),
    ensures
        reaches(chain, program, t, u),
        delivers(
            u,
            Outcome::Next(
                st.overlaid(first, vs).with_log(
                    Log {
                        topics: seq![be_value(keccak256_digest(encode_utf8(sig)))],
                        data: words_data(vs),
                    },
                ),
            ),
            at + log_code(sig, first, vs.len()).len(),
            stack,
        ),
{
    let k = vs.len();
    let digest = keccak256_digest(encode_utf8(sig));
    let topic = be_value(digest);
    let m0 = with_stack(t.machine, stack);
    let m1 = m0.with_memory(words_stored(m0.memory, first as int, vs));
    let tail = seq![Instr::Push(digest), push_number(32 * k), push_number(first), Instr::Log(1)];
    lemma_stores(chain, m0, first, vs);
    lemma_words_stored(m0.memory, first as int, vs);
    assert(with_stack(m0, m0.stack + vs) == t.machine);
    op_push(chain, m1, digest);
    let a = m1.pushed(topic);
    advance(chain, tail, 0, m1, a);
    lemma_push_number(chain, 32 * k, a);
    let b = a.pushed(32 * k);
    advance(chain, tail, 1, a, b);
    lemma_push_number(chain, first, b);
    let c = b.pushed(first);
    advance(chain, tail, 2, b, c);
    let log = Log { topics: seq![topic], data: words_data(vs) };
    assert(c.dropped(3).stack =~= m1.stack);
    assert(Seq::new(1, |i: int| c.top(2 + i)) =~= seq![topic]);
    let next = m1.with_log(log);
    op_log(chain, c, 1);
    assert(log_effect(c, 1) == Effect::Next(next));
    advance(chain, tail, 3, c, next);
    assert(line(chain, tail, 4, next) == Effect::Next(next));
    lemma_line_concat(chain, stores_code(first, k), tail, 0, t.machine);
    let code = log_code(sig, first, k);
    assert forall|i: int| #![trigger code[i]] 0 <= i < code.len() implies code[i] !is Jump
        && code[i] !is JumpI by {
        if i < stores_code(first, k).len() {
            assert(code[i] == stores_code(first, k)[i]);
        } else {
            assert(code[i] == tail[i - stores_code(first, k).len()]);
        }
    }
    run_line(chain, program, at, code, t.machine, next);
    let after = st.overlaid(first, vs).with_log(log);
    lemma_related_parts(st, t.machine);
    assert forall|other: nat| #![trigger after.cell(other)] is_cell(other) implies load(
        next.memory,
        other as int,
    ) == after.cell(other) by {
        if is_overlaid(other, first, vs.len()) {
            let j = (other - first) / 32;
            assert(other == first + 32 * j);
            lemma_word_stored(m0.memory, first as int, vs, j);
        } else {
            lemma_words_stored_elsewhere(m0.memory, first as int, vs, other as int);
            lemma_related_load(st, t.machine, other);
            assert(after.cell(other) == st.cell(other));
        }
    }
    lemma_related_intro(after, next);
    running(at + code.len(), next)
}

/// What becomes of the values of an event.
pub open spec fn then_log(o: Outcome, sig: Seq<char>, first: nat) -> Outcome {
    match o {
        Outcome::Values(vs, after) => Outcome::Next(
            after.overlaid(first, vs).with_log(
                Log {
                    topics: seq![be_value(keccak256_digest(encode_utf8(sig)))],
                    data: words_data(vs),
                },
            ),
        ),
        other => bail(other),
    }
}

/// Code for values that are logged.
pub proof fn step_log(
    chain: Chain,
    program: Seq<Instr>,
    at: nat,
    base: nat,
    m: Machine,
    fields: Fragment,
    sig: Seq<char>,
    first: nat,
    k: nat,
    o: Outcome,
    t: State,
) -> (u: State)
    requires
        first % 32 == 0,
        sits(program, at, base, fields.with_code(log_code(sig, first, k)).program),
        o matches Outcome::Values(vs, _) ==> vs.len() == k,
        reaches(chain, program, running(at, m), t),
        delivers(t, o, at + fields.program.instrs.len(), m.stack),
    ensures
        reaches(chain, program, running(at, m), u),
        delivers(
            u,
            then_log(o, sig, first),
            at + fields.with_code(log_code(sig, first, k)).program.instrs.len(),
            m.stack,
        ),
{
    lemma_stores_label_free(first, k);
    lemma_label_free_concat(
        stores_code(first, k),
        seq![
            Instr::Push(keccak256_digest(encode_utf8(sig))),
            push_number(32 * k),
            push_number(first),
            Instr::Log(1),
        ],
    );
    lemma_sits_code(program, at, base, fields.program, log_code(sig, first, k));
    match o {
        Outcome::Values(vs, st1) => {
            let u = run_log(
                chain, program, at + fields.program.instrs.len(), t, sig, first, vs, st1, m.stack,
            );
            lemma_reaches_trans(chain, program, running(at, m), t, u);
            u
        },
        _ => t,
    }
}

/// The test of a condition: the jump is taken if the value on the stack is zero.
pub proof fn run_test(
    chain: Chain,
    program: Seq<Instr>,
    at: nat,
    label: u32,
    j: nat,
    m: Machine,
    v: nat,
)
    requires
        unique_dests(program),
        at + 1 < program.len(),
        program[at as int] == Op::IsZero@,
        program[(at + 1) as int] == Instr::JumpI(label),
        j < program.len(),
        program[j as int] == Instr::JumpDest(label),
    ensures
        v == 0 ==> reaches(chain, program, running(at, m.pushed(v)), running(j + 1, m)),
        v != 0 ==> reaches(chain, program, running(at, m.pushed(v)), running(at + 2, m)),
{
    let s = running(at, m.pushed(v));
    let flagged = m.pushed(flag(v == 0));
    op_iszero(chain, m, v);
    lemma_opcodes();
    run_one(chain, program, at, Op::IsZero@, m.pushed(v), flagged);
    if v == 0 {
        run_jump_taken(chain, program, at + 1, label, j, m, 1);
        lemma_reaches_trans(chain, program, s, running(at + 1, flagged), running(j + 1, m));
    } else {
        run_jump_not_taken(chain, program, at + 1, label, m);
        lemma_reaches_trans(chain, program, s, running(at + 1, flagged), running(at + 2, m));
    }
}

/// The parts of an `if` without `else`.
pub proof fn split_if(program: Seq<Instr>, at: nat, base: nat, test: Fragment, yes: Fragment)
    requires
        sits(program, at, base, test.followed_by(branches_code(yes, None)).program),
        clean(test.followed_by(branches_code(yes, None))),
    ensures
        clean(test),
        clean(yes),
        sits(program, at, base, test.program),
        sits(
            program,
            at + test.program.instrs.len() + 2,
            base + test.program.labels + 1,
            yes.program,
        ),
{
    let start = Fragment::of(seq![Op::IsZero@, Instr::JumpI(0)], 1);
    let first = start.followed_by(yes);
    lemma_sits_followed(program, at, base, test, branches_code(yes, None));
    let here = at + test.program.instrs.len();
    let above = base + test.program.labels;
    lemma_sits_code(program, here, above, first.program, seq![Instr::JumpDest(0)]);
    lemma_sits_followed(program, here, above, start, yes);
}

/// Into an `if` without `else`: behind the test, or to the end.
pub proof fn step_if_enter(
    chain: Chain,
    program: Seq<Instr>,
    at: nat,
    base: nat,
    m: Machine,
    test: Fragment,
    yes: Fragment,
    v: nat,
    st: Store,
    t: State,
) -> (u: State)
    requires
        unique_dests(program),
        sits(program, at, base, test.followed_by(branches_code(yes, None)).program),
        clean(test.followed_by(branches_code(yes, None))),
        reaches(chain, program, running(at, m), t),
        delivers(t, Outcome::Value(v, st), at + test.program.instrs.len(), m.stack),
    ensures
        reaches(chain, program, running(at, m), u),
        delivers(
            u,
            Outcome::Next(st),
            if v != 0 {
                at + test.program.instrs.len() + 2
            } else {
                at + test.followed_by(branches_code(yes, None)).program.instrs.len()
            },
            m.stack,
        ),
{
    let start = Fragment::of(seq![Op::IsZero@, Instr::JumpI(0)], 1);
    let first = start.followed_by(yes);
    lemma_sits_followed(program, at, base, test, branches_code(yes, None));
    let here = at + test.program.instrs.len();
    let above = base + test.program.labels;
    let label = moved_label(0, above);
    lemma_opcodes();
    lemma_sits_code(program, here, above, first.program, seq![Instr::JumpDest(0)]);
    lemma_sits_followed(program, here, above, start, yes);
    let end = here + first.program.instrs.len();
    lemma_holds_index(program, end, relocate_all(seq![Instr::JumpDest(0)], above), 0);
    lemma_holds_index(program, here, relocate_all(start.program.instrs, above), 0);
    lemma_holds_index(program, here, relocate_all(start.program.instrs, above), 1);
    let m0 = with_stack(t.machine, m.stack);
    assert(m0.pushed(v).stack =~= t.machine.stack);
    lemma_related_stack(st, t.machine, m0);
    run_test(chain, program, here, label, end, m0, v);
    let u = if v == 0 {
        running(end + 1, m0)
    } else {
        running(here + 2, m0)
    };
    lemma_reaches_trans(chain, program, running(at, m), t, u);
    u
}

/// Out of the body of an `if` without `else`.
pub proof fn step_if_leave(
    chain: Chain,
    program: Seq<Instr>,
    at: nat,
    base: nat,
    m: Machine,
    test: Fragment,
    yes: Fragment,
    o: Outcome,
    t: State,
) -> (u: State)
    requires
        sits(program, at, base, test.followed_by(branches_code(yes, None)).program),
        clean(test.followed_by(branches_code(yes, None))),
        reaches(chain, program, running(at, m), t),
        delivers(
            t,
            o,
            at + test.program.instrs.len() + 2 + yes.program.instrs.len(),
            m.stack,
        ),
    ensures
        reaches(chain, program, running(at, m), u),
        delivers(
            u,
            done(o),
            at + test.followed_by(branches_code(yes, None)).program.instrs.len(),
            m.stack,
        ),
{
    let start = Fragment::of(seq![Op::IsZero@, Instr::JumpI(0)], 1);
    let first = start.followed_by(yes);
    lemma_sits_followed(program, at, base, test, branches_code(yes, None));
    let here = at + test.program.instrs.len();
    let above = base + test.program.labels;
    lemma_sits_code(program, here, above, first.program, seq![Instr::JumpDest(0)]);
    lemma_sits_followed(program, here, above, start, yes);
    let end = here + first.program.instrs.len();
    lemma_holds_index(program, end, relocate_all(seq![Instr::JumpDest(0)], above), 0);
    match o {
        Outcome::Next(st) => {
            let u = running(end + 1, t.machine);
            run_dest(chain, program, end, moved_label(0, above), t.machine);
            lemma_reaches_trans(chain, program, running(at, m), t, u);
            u
        },
        _ => t,
    }
}

/// The facts about the code of an `if` with `else`.
pub proof fn lemma_if_else_parts(
    program: Seq<Instr>,
    at: nat,
    base: nat,
    test: Fragment,
    yes: Fragment,
    no: Fragment,
)
    requires
        sits(program, at, base, test.followed_by(branches_code(yes, Some(no))).program),
        clean(test.followed_by(branches_code(yes, Some(no)))),
    ensures
        clean(test),
        clean(yes),
        clean(no),
        sits(program, at, base, test.program),
        ({
            let here = at + test.program.instrs.len();
            let above = base + test.program.labels;
            let mid = here + 2 + yes.program.instrs.len();
            let end = mid + 2 + no.program.instrs.len();
            &&& sits(program, here + 2, above + 2, yes.program)
            &&& sits(program, mid + 2, above + 2 + yes.program.labels, no.program)
            &&& end < program.len()
            &&& program[here as int] == Op::IsZero@
            &&& program[(here + 1) as int] == Instr::JumpI(moved_label(0, above))
            &&& program[mid as int] == Instr::Jump(moved_label(1, above))
            &&& program[(mid + 1) as int] == Instr::JumpDest(moved_label(0, above))
            &&& program[end as int] == Instr::JumpDest(moved_label(1, above))
            &&& test.followed_by(branches_code(yes, Some(no))).program.instrs.len() == end + 1 - at
        }),
{
    let whole = branches_code(yes, Some(no));
    lemma_sits_followed(program, at, base, test, whole);
    let here = at + test.program.instrs.len();
    let above = base + test.program.labels;
    let start = Fragment::of(seq![Op::IsZero@, Instr::JumpI(0)], 2);
    let first = start.followed_by(yes);
    let skip = seq![Instr::Jump(1), Instr::JumpDest(0)];
    let second = first.with_code(skip);
    let third = second.followed_by(no);
    lemma_opcodes();
    lemma_sits_code(program, here, above, third.program, seq![Instr::JumpDest(1)]);
    lemma_sits_followed(program, here, above, second, no);
    lemma_sits_code(program, here, above, first.program, skip);
    lemma_sits_followed(program, here, above, start, yes);
    let end = here + third.program.instrs.len();
    let mid = here + first.program.instrs.len();
    lemma_holds_index(program, end, relocate_all(seq![Instr::JumpDest(1)], above), 0);
    lemma_holds_index(program, mid, relocate_all(skip, above), 0);
    lemma_holds_index(program, mid, relocate_all(skip, above), 1);
    lemma_holds_index(program, here, relocate_all(start.program.instrs, above), 0);
    lemma_holds_index(program, here, relocate_all(start.program.instrs, above), 1);
}

/// The parts of an `if` with `else`.
pub proof fn split_if_else(
    program: Seq<Instr>,
    at: nat,
    base: nat,
    test: Fragment,
    yes: Fragment,
    no: Fragment,
)
    requires
        sits(program, at, base, test.followed_by(branches_code(yes, Some(no))).program),
        clean(test.followed_by(branches_code(yes, Some(no)))),
    ensures
        clean(test),
        clean(yes),
        clean(no),
        sits(program, at, base, test.program),
        sits(
            program,
            at + test.program.instrs.len() + 2,
            base + test.program.labels + 2,
            yes.program,
        ),
        sits(
            program,
            at + test.program.instrs.len() + yes.program.instrs.len() + 4,
            base + test.program.labels + yes.program.labels + 2,
            no.program,
        ),
{
    lemma_if_else_parts(program, at, base, test, yes, no);
}

/// Into an `if` with `else`: to one of its bodies.
pub proof fn step_if_else_enter(
    chain: Chain,
    program: Seq<Instr>,
    at: nat,
    base: nat,
    m: Machine,
    test: Fragment,
    yes: Fragment,
    no: Fragment,
    v: nat,
    st: Store,
    t: State,
) -> (u: State)
    requires
        unique_dests(program),
        sits(program, at, base, test.followed_by(branches_code(yes, Some(no))).program),
        clean(test.followed_by(branches_code(yes, Some(no)))),
        reaches(chain, program, running(at, m), t),
        delivers(t, Outcome::Value(v, st), at + test.program.instrs.len(), m.stack),
    ensures
        reaches(chain, program, running(at, m), u),
        delivers(
            u,
            Outcome::Next(st),
            if v != 0 {
                at + test.program.instrs.len() + 2
            } else {
                at + test.program.instrs.len() + yes.program.instrs.len() + 4
            },
            m.stack,
        ),
{
    lemma_if_else_parts(program, at, base, test, yes, no);
    let here = at + test.program.instrs.len();
    let above = base + test.program.labels;
    let mid = here + 2 + yes.program.instrs.len();
    let m0 = with_stack(t.machine, m.stack);
    assert(m0.pushed(v).stack =~= t.machine.stack);
    lemma_related_stack(st, t.machine, m0);
    run_test(chain, program, here, moved_label(0, above), mid + 1, m0, v);
    let u = if v == 0 {
        running(mid + 2, m0)
    } else {
        running(here + 2, m0)
    };
    lemma_reaches_trans(chain, program, running(at, m), t, u);
    u
}

/// Out of a body of an `if` with `else`.
pub proof fn step_if_else_leave(
    chain: Chain,
    program: Seq<Instr>,
    at: nat,
    base: nat,
    m: Machine,
    test: Fragment,
    yes: Fragment,
    no: Fragment,
    first: bool,
    o: Outcome,
    t: State,
) -> (u: State)
    requires
        unique_dests(program),
        sits(program, at, base, test.followed_by(branches_code(yes, Some(no))).program),
        clean(test.followed_by(branches_code(yes, Some(no)))),
        reaches(chain, program, running(at, m), t),
        delivers(
            t,
            o,
            if first {
                at + test.program.instrs.len() + 2 + yes.program.instrs.len()
            } else {
                at + test.program.instrs.len() + yes.program.instrs.len() + 4
                    + no.program.instrs.len()
            },
            m.stack,
        ),
    ensures
        reaches(chain, program, running(at, m), u),
        delivers(
            u,
            done(o),
            at + test.followed_by(branches_code(yes, Some(no))).program.instrs.len(),
            m.stack,
        ),
{
    lemma_if_else_parts(program, at, base, test, yes, no);
    let here = at + test.program.instrs.len();
    let above = base + test.program.labels;
    let mid = here + 2 + yes.program.instrs.len();
    let end = mid + 2 + no.program.instrs.len();
    match o {
        Outcome::Next(st) => {
            let u = running(end + 1, t.machine);
            if first {
                run_jump(chain, program, mid, moved_label(1, above), end, t.machine);
            } else {
                run_dest(chain, program, end, moved_label(1, above), t.machine);
            }
            lemma_reaches_trans(chain, program, running(at, m), t, u);
            u
        },
        _ => t,
    }
}

/// The facts about the code of a loop.
pub proof fn lemma_loop_parts(
    program: Seq<Instr>,
    at: nat,
    base: nat,
    test: Fragment,
    body: Fragment,
)
    requires
        sits(program, at, base, loop_code(test, body).program),
        clean(loop_code(test, body)),
    ensures
        clean(test),
        clean(body),
        sits(program, at + 1, base + 2, test.program),
        ({
            let mid = at + 1 + test.program.instrs.len();
            let end = mid + 2 + body.program.instrs.len();
            &&& sits(program, mid + 2, base + 2 + test.program.labels, body.program)
            &&& end + 1 < program.len()
            &&& program[at as int] == Instr::JumpDest(moved_label(0, base))
            &&& program[mid as int] == Op::IsZero@
            &&& program[(mid + 1) as int] == Instr::JumpI(moved_label(1, base))
            &&& program[end as int] == Instr::Jump(moved_label(0, base))
            &&& program[(end + 1) as int] == Instr::JumpDest(moved_label(1, base))
            &&& loop_code(test, body).program.instrs.len() == end + 2 - at
        }),
{
    let start = Fragment::of(seq![Instr::JumpDest(0)], 2);
    let first = start.followed_by(test);
    let check = seq![Op::IsZero@, Instr::JumpI(1)];
    let second = first.with_code(check);
    let third = second.followed_by(body);
    let back = seq![Instr::Jump(0), Instr::JumpDest(1)];
    lemma_opcodes();
    lemma_sits_code(program, at, base, third.program, back);
    lemma_sits_followed(program, at, base, second, body);
    lemma_sits_code(program, at, base, first.program, check);
    lemma_sits_followed(program, at, base, start, test);
    let mid = at + first.program.instrs.len();
    let end = at + third.program.instrs.len();
    lemma_holds_index(program, at, relocate_all(seq![Instr::JumpDest(0)], base), 0);
    lemma_holds_index(program, mid, relocate_all(check, base), 0);
    lemma_holds_index(program, mid, relocate_all(check, base), 1);
    lemma_holds_index(program, end, relocate_all(back, base), 0);
    lemma_holds_index(program, end, relocate_all(back, base), 1);
}

/// The parts of a loop.
pub proof fn split_loop(program: Seq<Instr>, at: nat, base: nat, test: Fragment, body: Fragment)
    requires
        sits(program, at, base, loop_code(test, body).program),
        clean(loop_code(test, body)),
    ensures
        clean(test),
        clean(body),
        sits(program, at + 1, base + 2, test.program),
        sits(
            program,
            at + test.program.instrs.len() + 3,
            base + test.program.labels + 2,
            body.program,
        ),
{
    lemma_loop_parts(program, at, base, test, body);
}

/// Into a loop.
pub proof fn step_loop_enter(
    chain: Chain,
    program: Seq<Instr>,
    at: nat,
    base: nat,
    m: Machine,
    test: Fragment,
    body: Fragment,
)
    requires
        sits(program, at, base, loop_code(test, body).program),
        clean(loop_code(test, body)),
    ensures
        reaches(chain, program, running(at, m), running(at + 1, m)),
{
    lemma_loop_parts(program, at, base, test, body);
    run_dest(chain, program, at, moved_label(0, base), m);
}

/// The test of a loop: to its body, or to its end.
pub proof fn step_loop_test(
    chain: Chain,
    program: Seq<Instr>,
    at: nat,
    base: nat,
    m: Machine,
    test: Fragment,
    body: Fragment,
    v: nat,
    st: Store,
    t: State,
) -> (u: State)
    requires
        unique_dests(program),
        sits(program, at, base, loop_code(test, body).program),
        clean(loop_code(test, body)),
        reaches(chain, program, running(at + 1, m), t),
        delivers(t, Outcome::Value(v, st), at + 1 + test.program.instrs.len(), m.stack),
    ensures
        reaches(chain, program, running(at + 1, m), u),
        delivers(
            u,
            Outcome::Next(st),
            if v != 0 {
                at + test.program.instrs.len() + 3
            } else {
                at + loop_code(test, body).program.instrs.len()
            },
            m.stack,
        ),
{
    lemma_loop_parts(program, at, base, test, body);
    let mid = at + 1 + test.program.instrs.len();
    let end = mid + 2 + body.program.instrs.len();
    let m0 = with_stack(t.machine, m.stack);
    assert(m0.pushed(v).stack =~= t.machine.stack);
    lemma_related_stack(st, t.machine, m0);
    run_test(chain, program, mid, moved_label(1, base), end + 1, m0, v);
    let u = if v == 0 {
        running(end + 2, m0)
    } else {
        running(mid + 2, m0)
    };
    lemma_reaches_trans(chain, program, running(at + 1, m), t, u);
    u
}

/// Back to the start of a loop.
pub proof fn step_loop_back(
    chain: Chain,
    program: Seq<Instr>,
    at: nat,
    base: nat,
    m: Machine,
    test: Fragment,
    body: Fragment,
    t: State,
)
    requires
        unique_dests(program),
        sits(program, at, base, loop_code(test, body).program),
        clean(loop_code(test, body)),
        reaches(chain, program, running(at + 1, m), t),
        t == running(
            at + test.program.instrs.len() + 3 + body.program.instrs.len(),
            t.machine,
        ),
    ensures
        reaches(chain, program, running(at + 1, m), running(at + 1, t.machine)),
{
    lemma_loop_parts(program, at, base, test, body);
    let end = at + test.program.instrs.len() + 3 + body.program.instrs.len();
    run_jump(chain, program, end, moved_label(0, base), at, t.machine);
    lemma_reaches_trans(chain, program, running(at + 1, m), t, running(at + 1, t.machine));
}

/// A packed string is a word.
pub proof fn lemma_packed_bound(text: Seq<u8>)
    requires
        text.len() <= 31,
    ensures
        be_value(packed(text)) < modulus(),
{
    lemma_modulus();
    lemma_be_value_bound(packed(text));
}

/// A word of the call data is a word.
pub proof fn lemma_calldata_bound(chain: Chain, offset: nat)
    ensures
        calldata_word(chain, offset) < modulus(),
{
    lemma_modulus();
    lemma_be_value_bound(padded(chain.calldata, offset as int, 32));
}

/// The words in the cells, as memory has them.
pub proof fn lemma_cell_words(st: Store, m: Machine, first: nat, n: nat)
    requires
        related(st, m),
        is_cell(first),
    ensures
        bytes_at(m.memory, first as int, 32 * n) == words_data(cell_words(st, first, n)),
        words_data(cell_words(st, first, n)).len() == 32 * n,
    decreases n,
{
    let words = cell_words(st, first, n);
    if n == 0 {
        assert(bytes_at(m.memory, first as int, 0) =~= words_data(words));
    } else {
        let k = (n - 1) as nat;
        lemma_cell_words(st, m, first, k);
        assert(words.drop_last() =~= cell_words(st, first, k));
        let at = first + 32 * k;
        assert(is_cell(at));
        lemma_related_load(st, m, at);
        lemma_load_bytes(m.memory, at as int);
        lemma_be_bytes_len(st.cell(at), 32);
        let all = bytes_at(m.memory, first as int, 32 * n);
        assert forall|i: int| 0 <= i < 32 * n implies #[trigger] all[i] == words_data(
            words,
        )[i] by {
            if i < 32 * k {
                assert(bytes_at(m.memory, first as int, 32 * k)[i] == words_data(
                    cell_words(st, first, k),
                )[i]);
            } else {
                assert(bytes_at(m.memory, at as int, 32)[i - 32 * k] == be_bytes(
                    st.cell(at),
                    32,
                )[i - 32 * k]);
            }
        }
        assert(all =~= words_data(words));
    }
}

/// The call data in the cells, as memory has it.
pub proof fn lemma_call_data(st: Store, m: Machine, base: nat, n: nat)
    requires
        related(st, m),
        is_cell(base),
    ensures
        bytes_at(m.memory, (base + 28) as int, 4 + 32 * n) == call_data(st, base, n),
{
    lemma_related_load(st, m, base);
    lemma_load_bytes(m.memory, base as int);
    lemma_be_bytes_len(st.cell(base), 32);
    assert(is_cell(base + 32));
    lemma_cell_words(st, m, base + 32, n);
    let all = bytes_at(m.memory, (base + 28) as int, 4 + 32 * n);
    let first = be_bytes(st.cell(base), 32);
    assert forall|i: int| 0 <= i < 4 + 32 * n implies #[trigger] all[i] == call_data(
        st,
        base,
        n,
    )[i] by {
        if i < 4 {
            assert(bytes_at(m.memory, base as int, 32)[28 + i] == first[28 + i]);
            assert(first.skip(28)[i] == first[28 + i]);
        } else {
            assert(bytes_at(m.memory, (base + 32) as int, 32 * n)[i - 4] == words_data(
                cell_words(st, base + 32, n),
            )[i - 4]);
        }
    }
    assert(all =~= call_data(st, base, n));
}

/// The code of a call of another contract puts whether it succeeded in the place of the address.
pub proof fn lemma_foreign_call(
    chain: Chain,
    m: Machine,
    target: nat,
    buffer: u32,
    n: nat,
    mutable: bool,
    want_value: bool,
)
    ensures
        line(
            chain,
            foreign_call_code(buffer, n, mutable, want_value),
            0,
            m.pushed(target),
        ) == Effect::Next(
            call_effect(
                chain,
                m,
                0,
                target,
                (buffer + 28) as nat,
                4 + 32 * n,
                0,
                if want_value {
                    0x20
                } else {
                    0
                },
                mutable,
            ),
        ),
        jump_free(foreign_call_code(buffer, n, mutable, want_value)),
{
    let out: nat = if want_value {
        0x20
    } else {
        0
    };
    let args = (buffer + 28) as nat;
    let args_len = 4 + 32 * n;
    lemma_opcodes();
    if mutable {
        let code = seq![
            push_number(out),
            push_number(0),
            push_number(args_len),
            push_number(args),
            push_number(0),
            Instr::Dup(6),
            Op::Gas@,
            Op::Call@,
            Instr::Swap(1),
            Op::Pop@,
        ];
        assert(foreign_call_code(buffer, n, mutable, want_value) =~= code);
        lemma_call_line(chain, code, m, target, args, args_len, out);
    } else {
        let code = seq![
            push_number(out),
            push_number(0),
            push_number(args_len),
            push_number(args),
            Instr::Dup(5),
            Op::Gas@,
            Op::StaticCall@,
            Instr::Swap(1),
            Op::Pop@,
        ];
        assert(foreign_call_code(buffer, n, mutable, want_value) =~= code);
        lemma_static_call_line(chain, code, m, target, args, args_len, out);
    }
}

/// `CALL`.
pub proof fn op_call(
    chain: Chain,
    m: Machine,
    m1: Machine,
    target: nat,
    args: nat,
    args_len: nat,
    out: nat,
)
    requires
        m.stack.len() == m1.stack.len() + 7,
        m.dropped(7) == m1,
        m.top(1) == target,
        m.top(3) == args,
        m.top(4) == args_len,
        m.top(5) == 0,
        m.top(6) == out,
    ensures
        effect(chain, Op::Call@, m) == Effect::Next(
            call_effect(chain, m1, 0, target, args, args_len, 0, out, true),
        ),
{
    reveal(effect);
    reveal(simple_effect);
    lemma_opcodes();
    assert(m1.dropped(0).stack =~= m1.stack);
    assert(call_effect(chain, m, 7, target, args, args_len, 0, out, true).stack =~= call_effect(
        chain,
        m1,
        0,
        target,
        args,
        args_len,
        0,
        out,
        true,
    ).stack);
}

/// `STATICCALL`.
pub proof fn op_static_call(
    chain: Chain,
    m: Machine,
    m1: Machine,
    target: nat,
    args: nat,
    args_len: nat,
    out: nat,
)
    requires
        m.stack.len() == m1.stack.len() + 6,
        m.dropped(6) == m1,
        m.top(1) == target,
        m.top(2) == args,
        m.top(3) == args_len,
        m.top(4) == 0,
        m.top(5) == out,
    ensures
        effect(chain, Op::StaticCall@, m) == Effect::Next(
            call_effect(chain, m1, 0, target, args, args_len, 0, out, false),
        ),
{
    reveal(effect);
    reveal(simple_effect);
    lemma_opcodes();
    assert(m1.dropped(0).stack =~= m1.stack);
    assert(call_effect(chain, m, 6, target, args, args_len, 0, out, false).stack =~= call_effect(
        chain,
        m1,
        0,
        target,
        args,
        args_len,
        0,
        out,
        false,
    ).stack);
}

/// The call of a function that can write.
pub proof fn lemma_call_line(
    chain: Chain,
    code: Seq<Instr>,
    m: Machine,
    target: nat,
    args: nat,
    args_len: nat,
    out: nat,
)
    requires
        code == seq![
            push_number(out),
            push_number(0),
            push_number(args_len),
            push_number(args),
            push_number(0),
            Instr::Dup(6),
            Op::Gas@,
            Op::Call@,
            Instr::Swap(1),
            Op::Pop@,
        ],
    ensures
        line(chain, code, 0, m.pushed(target)) == Effect::Next(
            call_effect(chain, m, 0, target, args, args_len, 0, out, true),
        ),
        jump_free(code),
{
    lemma_opcodes();
    let m1 = m.pushed(target);
    let x1 = m1.pushed(out);
    let x2 = x1.pushed(0);
    let x3 = x2.pushed(args_len);
    let x4 = x3.pushed(args);
    let x5 = x4.pushed(0);
    let x6 = x5.pushed(target);
    let x7 = x6.pushed(word(chain.gas as int));
    lemma_push_number(chain, out, m1);
    advance(chain, code, 0, m1, x1);
    lemma_push_number(chain, 0, x1);
    advance(chain, code, 1, x1, x2);
    lemma_push_number(chain, args_len, x2);
    advance(chain, code, 2, x2, x3);
    lemma_push_number(chain, args, x3);
    advance(chain, code, 3, x3, x4);
    lemma_push_number(chain, 0, x4);
    advance(chain, code, 4, x4, x5);
    assert(x5.top(5) == target);
    op_dup(chain, x5, 6);
    advance(chain, code, 5, x5, x6);
    op_gas(chain, x6);
    advance(chain, code, 6, x6, x7);
    assert(x7.dropped(7).stack =~= m1.stack);
    op_call(chain, x7, m1, target, args, args_len, out);
    let called = call_effect(chain, m1, 0, target, args, args_len, 0, out, true);
    advance(chain, code, 7, x7, called);
    lemma_drop_target(chain, code, 8, m, target, args, args_len, out, true);
}

/// The call of a function that only reads.
pub proof fn lemma_static_call_line(
    chain: Chain,
    code: Seq<Instr>,
    m: Machine,
    target: nat,
    args: nat,
    args_len: nat,
    out: nat,
)
    requires
        code == seq![
            push_number(out),
            push_number(0),
            push_number(args_len),
            push_number(args),
            Instr::Dup(5),
            Op::Gas@,
            Op::StaticCall@,
            Instr::Swap(1),
            Op::Pop@,
        ],
    ensures
        line(chain, code, 0, m.pushed(target)) == Effect::Next(
            call_effect(chain, m, 0, target, args, args_len, 0, out, false),
        ),
        jump_free(code),
{
    lemma_opcodes();
    let m1 = m.pushed(target);
    let x1 = m1.pushed(out);
    let x2 = x1.pushed(0);
    let x3 = x2.pushed(args_len);
    let x4 = x3.pushed(args);
    let x5 = x4.pushed(target);
    let x6 = x5.pushed(word(chain.gas as int));
    lemma_push_number(chain, out, m1);
    advance(chain, code, 0, m1, x1);
    lemma_push_number(chain, 0, x1);
    advance(chain, code, 1, x1, x2);
    lemma_push_number(chain, args_len, x2);
    advance(chain, code, 2, x2, x3);
    lemma_push_number(chain, args, x3);
    advance(chain, code, 3, x3, x4);
    assert(x4.top(4) == target);
    op_dup(chain, x4, 5);
    advance(chain, code, 4, x4, x5);
    op_gas(chain, x5);
    advance(chain, code, 5, x5, x6);
    assert(x6.dropped(6).stack =~= m1.stack);
    op_static_call(chain, x6, m1, target, args, args_len, out);
    let called = call_effect(chain, m1, 0, target, args, args_len, 0, out, false);
    advance(chain, code, 6, x6, called);
    lemma_drop_target(chain, code, 7, m, target, args, args_len, out, false);
}

/// The address below the result of a call is dropped.
pub proof fn lemma_drop_target(
    chain: Chain,
    code: Seq<Instr>,
    i: int,
    m: Machine,
    target: nat,
    args: nat,
    args_len: nat,
    out: nat,
    mutable: bool,
)
    requires
        0 <= i,
        i + 2 == code.len(),
        code[i] == Instr::Swap(1),
        code[i + 1] == Op::Pop@,
    ensures
        line(
            chain,
            code,
            i,
            call_effect(chain, m.pushed(target), 0, target, args, args_len, 0, out, mutable),
        ) == Effect::Next(call_effect(chain, m, 0, target, args, args_len, 0, out, mutable)),
{
    let called = call_effect(chain, m.pushed(target), 0, target, args, args_len, 0, out, mutable);
    let result = call_effect(chain, m, 0, target, args, args_len, 0, out, mutable);
    let ok = result.stack.last();
    let left = with_stack(result, m.stack);
    assert(m.dropped(0).stack =~= m.stack);
    assert(m.pushed(target).dropped(0).stack =~= m.pushed(target).stack);
    assert(left.pushed(ok).stack =~= result.stack);
    assert(left.pushed(target).pushed(ok).stack =~= called.stack);
    op_swap1(chain, left, target, ok);
    advance(chain, code, i, called, left.pushed(ok).pushed(target));
    op_pop(chain, left.pushed(ok), target);
    advance(chain, code, i + 1, left.pushed(ok).pushed(target), result);
    assert(line(chain, code, i + 2, result) == Effect::Next(result));
}

/// The call of another contract, from the address on the stack on.
pub proof fn run_foreign_call(
    chain: Chain,
    program: Seq<Instr>,
    at: nat,
    base: nat,
    t0: State,
    target: nat,
    buffer: u32,
    n: nat,
    mutable: bool,
    want_value: bool,
    st: Store,
    stack: Seq<nat>,
) -> (t: State)
    requires
        unique_dests(program),
        is_cell(buffer as nat),
        holds(program, at, foreign_call_code(buffer, n, mutable, want_value)),
        sits(
            program,
            at + foreign_call_code(buffer, n, mutable, want_value).len(),
            base,
            guard_code().program,
        ),
        want_value ==> holds(
            program,
            at + foreign_call_code(buffer, n, mutable, want_value).len() + 5,
            seq![push_number(0), Op::MLoad@],
        ),
        delivers(t0, Outcome::Next(st), at, stack.push(target)),
    ensures
        reaches(chain, program, t0, t),
        delivers(
            t,
            foreign_call(chain, target, buffer as nat, n, mutable, want_value, st),
            at + foreign_call_code(buffer, n, mutable, want_value).len() + 5 + (if want_value {
                2nat
            } else {
                0
            }),
            stack,
        ),
{
    let code = foreign_call_code(buffer, n, mutable, want_value);
    let m = with_stack(t0.machine, stack);
    assert(m.pushed(target).stack =~= t0.machine.stack);
    lemma_related_stack(st, t0.machine, m);
    lemma_foreign_call(chain, m, target, buffer, n, mutable, want_value);
    let out: nat = if want_value {
        0x20
    } else {
        0
    };
    let args = (buffer + 28) as nat;
    let done = call_effect(chain, m, 0, target, args, 4 + 32 * n, 0, out, mutable);
    run_line(chain, program, at, code, t0.machine, done);
    let t1 = running(at + code.len(), done);
    lemma_call_data(st, m, buffer as nat, n);
    lemma_related_parts(st, m);
    let request = Request {
        target,
        data: call_data(st, buffer as nat, n),
        mutable,
        storage: st.storage,
        logs: st.logs,
        earlier: st.calls,
    };
    let reply = (chain.outside)(request);
    let ok = flag(reply.success);
    let left = with_stack(done, stack);
    assert(m.dropped(0).stack =~= m.stack);
    assert(left.pushed(ok).stack =~= done.stack);
    let t2 = run_guard(chain, program, at + code.len(), base, left, ok);
    lemma_reaches_trans(chain, program, t0, t1, t2);
    if !reply.success {
        t2
    } else {
        let after = Store {
            cells: st.cells,
            storage: if mutable {
                reply.storage
            } else {
                st.storage
            },
            logs: if mutable {
                st.logs + reply.logs
            } else {
                st.logs
            },
            calls: st.calls + 1,
        };
        let copied = if out <= reply.data.len() {
            reply.data.take(out as int)
        } else {
            reply.data
        };
        assert(left.memory == written(m.memory, 0, copied));
        assert forall|other: nat| #![trigger after.cell(other)] is_cell(other) implies load(
            left.memory,
            other as int,
        ) == after.cell(other) by {
            assert(after.cell(other) == st.cell(other));
            lemma_related_load(st, m, other);
            assert(bytes_at(left.memory, other as int, 32) =~= bytes_at(
                m.memory,
                other as int,
                32,
            ));
        }
        lemma_related_intro(after, left);
        if want_value && reply.data.len() >= 32 {
            let v = be_value(reply.data.take(32));
            assert(bytes_at(left.memory, 0, 32) =~= reply.data.take(32));
            lemma_load_bytes(left.memory, 0);
            op_mload(chain, left, 0);
            lemma_opcodes();
            let next = left.pushed(v);
            let here = at + code.len() + 5;
            run_push_op(chain, program, here, 0, Op::MLoad@, left, next);
            lemma_related_stack(after, left, next);
            let t3 = running(here + 2, next);
            lemma_reaches_trans(chain, program, t0, t2, t3);
            t3
        } else {
            t2
        }
    }
}

/// The code of a call of another contract, around that of its address and its arguments.
pub open spec fn interface_code(
    address: Fragment,
    bound: Fragment,
    sig: Seq<char>,
    buffer: u32,
    n: nat,
    mutable: bool,
    want_value: bool,
) -> Fragment {
    address.with_code(selector_code(sig, buffer)).followed_by(bound).with_code(
        foreign_call_code(buffer, n, mutable, want_value),
    ).followed_by(guard_code()).with_code(
        if want_value {
            seq![push_number(0), Op::MLoad@]
        } else {
            Seq::empty()
        },
    )
}

/// The facts about the code of a call of another contract.
pub proof fn lemma_interface_parts(
    program: Seq<Instr>,
    at: nat,
    base: nat,
    address: Fragment,
    bound: Fragment,
    sig: Seq<char>,
    buffer: u32,
    n: nat,
    mutable: bool,
    want_value: bool,
)
    requires
        sits(
            program,
            at,
            base,
            interface_code(address, bound, sig, buffer, n, mutable, want_value).program,
        ),
        clean(interface_code(address, bound, sig, buffer, n, mutable, want_value)),
    ensures
        clean(address),
        clean(bound),
        sits(program, at, base, address.program),
        ({
            let at2 = at + address.program.instrs.len();
            let at3 = at2 + 3 + bound.program.instrs.len();
            let call = foreign_call_code(buffer, n, mutable, want_value);
            let at4 = at3 + call.len();
            let labels = base + address.program.labels;
            &&& holds(program, at2, selector_code(sig, buffer))
            &&& sits(program, at2 + 3, labels, bound.program)
            &&& holds(program, at3, call)
            &&& sits(program, at4, labels + bound.program.labels, guard_code().program)
            &&& want_value ==> holds(program, at4 + 5, seq![push_number(0), Op::MLoad@])
            &&& interface_code(
                address,
                bound,
                sig,
                buffer,
                n,
                mutable,
                want_value,
            ).program.instrs.len() == at4 + 5 + (if want_value {
                2nat
            } else {
                0
            }) - at
        }),
{
    let first = selector_code(sig, buffer);
    let call = foreign_call_code(buffer, n, mutable, want_value);
    let last: Seq<Instr> = if want_value {
        seq![push_number(0), Op::MLoad@]
    } else {
        Seq::empty()
    };
    lemma_call_pieces_label_free(sig, buffer, n, mutable, want_value);
    lemma_pieces_label_free();
    let a = address.with_code(first);
    let b = a.followed_by(bound);
    let c = b.with_code(call);
    let d = c.followed_by(guard_code());
    lemma_sits_code(program, at, base, d.program, last);
    lemma_sits_followed(program, at, base, c, guard_code());
    lemma_sits_code(program, at, base, b.program, call);
    lemma_sits_followed(program, at, base, a, bound);
    lemma_sits_code(program, at, base, address.program, first);
    assert(guard_code().program.instrs.len() == 5);
}

/// The parts of a call of another contract.
pub proof fn split_interface(
    program: Seq<Instr>,
    at: nat,
    base: nat,
    address: Fragment,
    bound: Fragment,
    sig: Seq<char>,
    buffer: u32,
    n: nat,
    mutable: bool,
    want_value: bool,
)
    requires
        sits(
            program,
            at,
            base,
            interface_code(address, bound, sig, buffer, n, mutable, want_value).program,
        ),
        clean(interface_code(address, bound, sig, buffer, n, mutable, want_value)),
    ensures
        clean(address),
        clean(bound),
        sits(program, at, base, address.program),
        sits(
            program,
            at + address.program.instrs.len() + 3,
            base + address.program.labels,
            bound.program,
        ),
{
    lemma_interface_parts(
        program, at, base, address, bound, sig, buffer, n, mutable, want_value,
    );
}

/// The selector is stored.
pub proof fn step_selector(
    chain: Chain,
    program: Seq<Instr>,
    at: nat,
    base: nat,
    m: Machine,
    address: Fragment,
    bound: Fragment,
    sig: Seq<char>,
    buffer: u32,
    n: nat,
    mutable: bool,
    want_value: bool,
    target: nat,
    st: Store,
    t: State,
) -> (u: State)
    requires
        sits(
            program,
            at,
            base,
            interface_code(address, bound, sig, buffer, n, mutable, want_value).program,
        ),
        clean(interface_code(address, bound, sig, buffer, n, mutable, want_value)),
        narrow(program),
        is_cell(buffer as nat),
        reaches(chain, program, running(at, m), t),
        delivers(t, Outcome::Value(target, st), at + address.program.instrs.len(), m.stack),
    ensures
        reaches(chain, program, running(at, m), u),
        delivers(
            u,
            Outcome::Next(
                st.with_cell(
                    buffer as nat,
                    be_value(keccak256_digest(encode_utf8(sig)).take(4)),
                ),
            ),
            at + address.program.instrs.len() + 3,
            m.stack.push(target),
        ),
{
    lemma_interface_parts(
        program, at, base, address, bound, sig, buffer, n, mutable, want_value,
    );
    let at2 = at + address.program.instrs.len();
    let selector = keccak256_digest(encode_utf8(sig)).take(4);
    let number = be_value(selector);
    let store = seq![push_number(buffer as nat), Op::MStore@];
    lemma_opcodes();
    assert(selector_code(sig, buffer) =~= seq![Instr::Push(selector)] + store);
    lemma_holds_concat(program, at2, seq![Instr::Push(selector)], store);
    lemma_holds_index(program, at2, seq![Instr::Push(selector)], 0);
    lemma_narrow(program, at2, selector);
    let pushed = t.machine.pushed(number);
    op_push(chain, t.machine, selector);
    run_one(chain, program, at2, Instr::Push(selector), t.machine, pushed);
    let t2 = running(at2 + 1, pushed);
    lemma_related_stack(st, t.machine, pushed);
    lemma_reaches_trans(chain, program, running(at, m), t, t2);
    let u = run_store_cell(
        chain,
        program,
        at2 + 1,
        buffer as nat,
        t2,
        number,
        st,
        m.stack.push(target),
    );
    lemma_reaches_trans(chain, program, running(at, m), t2, u);
    u
}

/// The call itself.
pub proof fn step_interface(
    chain: Chain,
    program: Seq<Instr>,
    at: nat,
    base: nat,
    m: Machine,
    address: Fragment,
    bound: Fragment,
    sig: Seq<char>,
    buffer: u32,
    n: nat,
    mutable: bool,
    want_value: bool,
    target: nat,
    o: Outcome,
    t: State,
) -> (u: State)
    requires
        unique_dests(program),
        sits(
            program,
            at,
            base,
            interface_code(address, bound, sig, buffer, n, mutable, want_value).program,
        ),
        clean(interface_code(address, bound, sig, buffer, n, mutable, want_value)),
        is_cell(buffer as nat),
        reaches(chain, program, running(at, m), t),
        delivers(
            t,
            o,
            at + address.program.instrs.len() + 3 + bound.program.instrs.len(),
            m.stack.push(target),
        ),
    ensures
        reaches(chain, program, running(at, m), u),
        delivers(
            u,
            (match o {
                Outcome::Next(st) => foreign_call(
                    chain,
                    target,
                    buffer as nat,
                    n,
                    mutable,
                    want_value,
                    st,
                ),
                other => bail(other),
            }),
            at + interface_code(
                address,
                bound,
                sig,
                buffer,
                n,
                mutable,
                want_value,
            ).program.instrs.len(),
            m.stack,
        ),
{
    lemma_interface_parts(
        program, at, base, address, bound, sig, buffer, n, mutable, want_value,
    );
    match o {
        Outcome::Next(st) => {
            let u = run_foreign_call(
                chain,
                program,
                at + address.program.instrs.len() + 3 + bound.program.instrs.len(),
                base + address.program.labels + bound.program.labels,
                t,
                target,
                buffer,
                n,
                mutable,
                want_value,
                st,
                m.stack,
            );
            lemma_reaches_trans(chain, program, running(at, m), t, u);
            u
        },
        _ => t,
    }
}

} // verus!
