//! The law of the compiler: compiled code, run on the machine, does what the source means.

use vstd::prelude::*;
use vstd::utf8::encode_utf8;

use crate::abi::{signature, Parameter};
use crate::assembler::{Instr, Op};
use crate::ast::{BinOp, Expr, FieldValue, Pat, Stmt};
use crate::builder::{
    array_elem_slot_code, array_elem_slot_from_stack_code, mapping_slot_from_stack_code,
    push_number,
};
use crate::bytes::be_value;
use crate::code::Fragment;
use crate::effects::{
    array_slot, lemma_load_bytes, lemma_opcodes, mapping_slot, op_address, op_calldataload,
    op_caller, op_mload, op_sload, op_timestamp,
};
use crate::errors::{plain_fault, ErrorKind, Fault};
use crate::keccak::keccak256_digest;
use crate::machine::{
    calldata_word, flag, lemma_reaches_self, lemma_reaches_trans, modulus, reaches, running,
    slot_value, word, Chain, Machine, State,
};
use crate::meaning::{
    bail, call_value, done, eval_array_push, eval_array_set, eval_assignment, eval_binary,
    eval_bindings, eval_block, eval_conditional, eval_emission, eval_event_values, eval_expression,
    eval_expression_statement, eval_foreign_arguments, eval_interface_call, eval_internal_call,
    eval_mapping_insert, eval_place, eval_repetition, eval_requirement, eval_statement,
    eval_statements, eval_value, eval_values, foreign_call, operate, right_first, variable, Outcome,
    Store,
};
use crate::model::{depth, lemma_depth, Env, EventParameter, ForeignMethod, Internal, Scope};
use crate::names::lookup;
use crate::scheme::{
    array_push, array_push_code, array_set, assignment, binary, bindings, block, branches_code,
    call_code, conditional, data_place, emission, event_values, expression, expression_statement,
    field_of, foreign_arguments, get_value, guard_code, identifier_code, interface_call,
    interface_of, internal_call, lemma_literal_field, literal_field, log_code, loop_code,
    mapping_insert, packed, path_is, pattern_name, place, repetition, requirement,
    return_words_code, self_path, slot_of, statement, statements, type_shape, value_statement,
    values, Bound, Lowered, Placed, Tail, TypeShape,
};
use crate::shape::{
    is_cell, law_block_sound, lemma_local_is_cell, lemma_number_pieces_label_free,
    lemma_pieces_label_free, lemma_scope_reserved_for_call, scope_ok, sound_bindings,
    sound_event_values, sound_expression, sound_foreign_arguments, sound_place, sound_statements,
    sound_values,
};
use crate::simulate::{
    clean, delivers, lemma_holds_index, lemma_related_load, lemma_related_parts,
    lemma_related_stack, lemma_sits_code, lemma_sits_followed, related, run_line, run_one, sits,
    with_stack,
};
use crate::steps::{
    cleanup_code, interface_code, lemma_calldata_bound, lemma_one_more_value, lemma_operator,
    lemma_operator_tail, lemma_packed_bound, lemma_sits_plain, operator_tail, ready, return_code,
    run_array_slot, run_load_slot, run_mapping_slot, run_push, run_push_op, split_code, split_if,
    split_if_else, split_insert, split_interface, split_internal_call, split_loop, split_set,
    split_two, step_if_else_enter, step_if_else_leave, step_if_enter, step_if_leave, step_insert,
    step_interface, step_internal_call, step_log, step_loop_back, step_loop_enter, step_loop_test,
    step_push, step_requirement, step_return, step_return_words, step_selector, step_set,
    step_store_cell, step_store_slot, then_cell, then_log, then_result, then_return,
    then_return_words, then_slot,
};

verus! {

/// The code of an expression, as proofs about the code around it see it.
#[verifier::opaque]
spec fn expression_part(env: Env, e: Expr, scope: Scope) -> Lowered {
    expression(env, e, scope)
}

/// The meaning of an expression, as proofs about the code around it see it.
#[verifier::opaque]
spec fn expression_outcome(
    chain: Chain,
    env: Env,
    e: Expr,
    scope: Scope,
    st: Store,
    rounds: nat,
) -> Outcome {
    eval_expression(chain, env, e, scope, st, rounds)
}

/// The code of an inner block, as proofs about the code around it see it.
#[verifier::opaque]
spec fn block_part(env: Env, stmts: Seq<Stmt>, tail: Tail, scope: Scope) -> Lowered {
    block(env, stmts, tail, scope)
}

/// The meaning of an inner block, as proofs about the code around it see it.
#[verifier::opaque]
spec fn block_outcome(
    chain: Chain,
    env: Env,
    stmts: Seq<Stmt>,
    tail: Tail,
    scope: Scope,
    st: Store,
    rounds: nat,
) -> Outcome {
    eval_block(chain, env, stmts, tail, scope, st, rounds)
}

/// The code behind `else`, as proofs about the code around it see it.
#[verifier::opaque]
spec fn else_part(env: Env, other: Expr, scope: Scope) -> Lowered {
    match other {
        Expr::Block(stmts) => block(env, stmts@, Tail::Void, scope),
        Expr::If(_, _, _) => conditional(env, other, scope),
        _ => Lowered::fault(ErrorKind::UnsupportedStatement, scope),
    }
}

/// The meaning of what stands behind `else`, as proofs about the code around it see it.
#[verifier::opaque]
spec fn else_outcome(
    chain: Chain,
    env: Env,
    other: Expr,
    scope: Scope,
    st: Store,
    rounds: nat,
) -> Outcome {
    match other {
        Expr::Block(stmts) => eval_block(chain, env, stmts@, Tail::Void, scope, st, rounds),
        Expr::If(_, _, _) => eval_conditional(chain, env, other, scope, st, rounds),
        _ => Outcome::Unfinished,
    }
}

/// The code of the first arguments of a call, as proofs about the code around it see it.
#[verifier::opaque]
spec fn arguments_part(
    env: Env,
    args: Seq<Expr>,
    k: nat,
    buffer: u32,
    scope: Scope,
) -> Lowered {
    foreign_arguments(env, args, k, buffer, scope)
}

/// The meaning of the first arguments of a call, as proofs about the code around it see it.
#[verifier::opaque]
spec fn arguments_outcome(
    chain: Chain,
    env: Env,
    args: Seq<Expr>,
    k: nat,
    buffer: u32,
    scope: Scope,
    st: Store,
    rounds: nat,
) -> Outcome {
    eval_foreign_arguments(chain, env, args, k, buffer, scope, st, rounds)
}

/// An expression within other code.
proof fn part_expression(
    chain: Chain,
    program: Seq<Instr>,
    at: nat,
    base: nat,
    m: Machine,
    env: Env,
    e: Expr,
    scope: Scope,
    st: Store,
    rounds: nat,
) -> (t: State)
    requires
        ready(program, at, base, expression_part(env, e, scope).code, m, scope, st),
    ensures
        reaches(chain, program, running(at, m), t),
        delivers(
            t,
            expression_outcome(chain, env, e, scope, st, rounds),
            at + expression_part(env, e, scope).code.program.instrs.len(),
            m.stack,
        ),
        scope_ok(expression_part(env, e, scope).scope),
    decreases depth(env), e, 0nat, 6nat,
{
    reveal(expression_part);
    reveal(expression_outcome);
    sound_expression(env, e, scope);
    sim_expression(
        chain, program, at, base, m, env, e, scope, st, rounds,
    )
}

/// An inner block.
proof fn part_block(
    chain: Chain,
    program: Seq<Instr>,
    at: nat,
    base: nat,
    m: Machine,
    env: Env,
    stmts: Seq<Stmt>,
    tail: Tail,
    scope: Scope,
    st: Store,
    rounds: nat,
) -> (t: State)
    requires
        ready(program, at, base, block_part(env, stmts, tail, scope).code, m, scope, st),
    ensures
        reaches(chain, program, running(at, m), t),
        delivers(
            t,
            block_outcome(chain, env, stmts, tail, scope, st, rounds),
            at + block_part(env, stmts, tail, scope).code.program.instrs.len(),
            m.stack,
        ),
    decreases depth(env), stmts, stmts.len(), 5nat,
{
    reveal(block_part);
    reveal(block_outcome);
    sim_block(
        chain, program, at, base, m, env, stmts, tail, scope, st, rounds,
    )
}

/// What stands behind `else`.
proof fn part_else(
    chain: Chain,
    program: Seq<Instr>,
    at: nat,
    base: nat,
    m: Machine,
    env: Env,
    other: Expr,
    scope: Scope,
    st: Store,
    rounds: nat,
) -> (t: State)
    requires
        ready(program, at, base, else_part(env, other, scope).code, m, scope, st),
    ensures
        reaches(chain, program, running(at, m), t),
        delivers(
            t,
            else_outcome(chain, env, other, scope, st, rounds),
            at + else_part(env, other, scope).code.program.instrs.len(),
            m.stack,
        ),
    decreases depth(env), other, 0nat, 9nat,
{
    reveal(else_part);
    reveal(else_outcome);
    match other {
        Expr::Block(stmts) => sim_block(
            chain, program, at, base, m, env, stmts@, Tail::Void, scope, st, rounds,
        ),
        Expr::If(_, _, _) => sim_conditional(
            chain, program, at, base, m, env, other, scope, st, rounds,
        ),
        _ => running(at, m),
    }
}

/// The first arguments of a call of another contract.
proof fn part_arguments(
    chain: Chain,
    program: Seq<Instr>,
    at: nat,
    base: nat,
    m: Machine,
    env: Env,
    args: Seq<Expr>,
    k: nat,
    buffer: u32,
    scope: Scope,
    st: Store,
    rounds: nat,
) -> (t: State)
    requires
        ready(program, at, base, arguments_part(env, args, k, buffer, scope).code, m, scope, st),
        is_cell(buffer as nat),
    ensures
        reaches(chain, program, running(at, m), t),
        delivers(
            t,
            arguments_outcome(chain, env, args, k, buffer, scope, st, rounds),
            at + arguments_part(env, args, k, buffer, scope).code.program.instrs.len(),
            m.stack,
        ),
    decreases depth(env), args, k, 1nat,
{
    reveal(arguments_part);
    reveal(arguments_outcome);
    sim_foreign_arguments(
        chain, program, at, base, m, env, args, k, buffer, scope, st, rounds,
    )
}

/// The scope behind an inner block.
proof fn lemma_block_part_scope(env: Env, stmts: Seq<Stmt>, scope: Scope)
    requires
        scope_ok(scope),
    ensures
        scope_ok(block_part(env, stmts, Tail::Void, scope).scope),
{
    reveal(block_part);
    law_block_sound(env, stmts, Tail::Void, scope);
}

/// A declaration of a variable, over its parts.
proof fn unfold_local(
    chain: Chain,
    env: Env,
    pat: Pat,
    e: Expr,
    tail: Tail,
    scope: Scope,
    st: Store,
    rounds: nat,
)
    requires
        pattern_name(pat) is Ok,
    ensures
        ({
            let value = expression_part(env, e, scope);
            let offset = value.scope.next_local as nat;
            let stmt = Stmt::Local(pat, Some(e));
            &&& statement(env, stmt, tail, scope).code == if value.scope.has_room() {
                value.code.with_code(seq![push_number(offset), Op::MStore@])
            } else {
                value.code.followed_by(Fragment::fault(plain_fault(ErrorKind::TooManyLocals)))
            }
            &&& eval_statement(chain, env, stmt, tail, scope, st, rounds) == then_cell(
                expression_outcome(chain, env, e, scope, st, rounds),
                offset,
            )
        }),
{
    reveal(expression_part);
    reveal(expression_outcome);
}

/// The code of a value that is stored at an offset or in a slot.
spec fn stored_part(env: Env, e: Expr, offset: nat, store: Instr, scope: Scope) -> Fragment {
    expression_part(env, e, scope).code.with_code(seq![push_number(offset), store])
}

/// A value that is stored in a cell.
proof fn part_store_cell(
    chain: Chain,
    program: Seq<Instr>,
    at: nat,
    base: nat,
    m: Machine,
    env: Env,
    e: Expr,
    offset: nat,
    scope: Scope,
    st: Store,
    rounds: nat,
) -> (t: State)
    requires
        ready(program, at, base, stored_part(env, e, offset, Op::MStore@, scope), m, scope, st),
        scope_ok(expression_part(env, e, scope).scope) ==> is_cell(offset),
    ensures
        reaches(chain, program, running(at, m), t),
        delivers(
            t,
            then_cell(expression_outcome(chain, env, e, scope, st, rounds), offset),
            at + stored_part(env, e, offset, Op::MStore@, scope).program.instrs.len(),
            m.stack,
        ),
    decreases depth(env), e, 0nat, 7nat,
{
    let value = expression_part(env, e, scope);
    split_code(program, at, base, value.code, seq![push_number(offset), Op::MStore@]);
    let t = part_expression(chain, program, at, base, m, env, e, scope, st, rounds);
    let o = expression_outcome(chain, env, e, scope, st, rounds);
    step_store_cell(chain, program, at, base, m, value.code, offset, o, t)
}

/// A value that is stored in a slot.
proof fn part_store_slot(
    chain: Chain,
    program: Seq<Instr>,
    at: nat,
    base: nat,
    m: Machine,
    env: Env,
    e: Expr,
    offset: nat,
    scope: Scope,
    st: Store,
    rounds: nat,
) -> (t: State)
    requires
        ready(program, at, base, stored_part(env, e, offset, Op::SStore@, scope), m, scope, st),
    ensures
        reaches(chain, program, running(at, m), t),
        delivers(
            t,
            then_slot(expression_outcome(chain, env, e, scope, st, rounds), offset),
            at + stored_part(env, e, offset, Op::SStore@, scope).program.instrs.len(),
            m.stack,
        ),
    decreases depth(env), e, 0nat, 7nat,
{
    let value = expression_part(env, e, scope);
    split_code(program, at, base, value.code, seq![push_number(offset), Op::SStore@]);
    let t = part_expression(chain, program, at, base, m, env, e, scope, st, rounds);
    let o = expression_outcome(chain, env, e, scope, st, rounds);
    step_store_slot(chain, program, at, base, m, value.code, offset, o, t)
}

/// An assignment, over its parts.
proof fn unfold_assignment(
    chain: Chain,
    env: Env,
    left: Expr,
    right: Expr,
    e: Expr,
    scope: Scope,
    st: Store,
    rounds: nat,
)
    requires
        e matches Expr::Assign(l, r) && *l == left && *r == right,
        clean(assignment(env, e, scope).code),
    ensures
        ({
            let value = expression_part(env, right, scope);
            let o = expression_outcome(chain, env, right, scope, st, rounds);
            let code = assignment(env, e, scope).code;
            let outcome = eval_assignment(chain, env, e, scope, st, rounds);
            match left {
                Expr::Field(_, member) => slot_of(env.contract, member) matches Ok(slot) && code
                    == value.code.with_code(seq![push_number(slot as nat), Op::SStore@]) && outcome
                    == then_slot(o, slot as nat),
                Expr::Ident(name) => lookup(scope.locals, name@) matches Some(offset) && code
                    == value.code.with_code(seq![push_number(offset as nat), Op::MStore@])
                    && outcome == then_cell(o, offset as nat),
                _ => false,
            }
        }),
{
    reveal(expression_part);
    reveal(expression_outcome);
}

/// What `if` without `else` means.
spec fn if_outcome(
    chain: Chain,
    env: Env,
    cond: Expr,
    body: Seq<Stmt>,
    scope: Scope,
    st: Store,
    rounds: nat,
) -> Outcome {
    match expression_outcome(chain, env, cond, scope, st, rounds) {
        Outcome::Value(v, after) => if v != 0 {
            let inner = expression_part(env, cond, scope).scope;
            done(block_outcome(chain, env, body, Tail::Void, inner, after, rounds))
        } else {
            Outcome::Next(after)
        },
        other => bail(other),
    }
}

/// What `if` with `else` means.
spec fn if_else_outcome(
    chain: Chain,
    env: Env,
    cond: Expr,
    body: Seq<Stmt>,
    other: Expr,
    scope: Scope,
    st: Store,
    rounds: nat,
) -> Outcome {
    match expression_outcome(chain, env, cond, scope, st, rounds) {
        Outcome::Value(v, after) => {
            let inner = expression_part(env, cond, scope).scope;
            if v != 0 {
                done(block_outcome(chain, env, body, Tail::Void, inner, after, rounds))
            } else {
                let skipped = block_part(env, body, Tail::Void, inner).scope;
                done(else_outcome(chain, env, other, skipped, after, rounds))
            }
        },
        other => bail(other),
    }
}

/// The code of `if` without `else`.
spec fn if_part(env: Env, cond: Expr, body: Seq<Stmt>, scope: Scope) -> Fragment {
    let test = expression_part(env, cond, scope);
    test.code.followed_by(branches_code(block_part(env, body, Tail::Void, test.scope).code, None))
}

/// The code of `if` with `else`.
spec fn if_else_part(
    env: Env,
    cond: Expr,
    body: Seq<Stmt>,
    other: Expr,
    scope: Scope,
) -> Fragment {
    let test = expression_part(env, cond, scope);
    let yes = block_part(env, body, Tail::Void, test.scope);
    let no = else_part(env, other, yes.scope);
    test.code.followed_by(branches_code(yes.code, Some(no.code)))
}

/// A conditional, over its parts.
proof fn unfold_conditional(chain: Chain, env: Env, e: Expr, scope: Scope, st: Store, rounds: nat)
    ensures
        (e matches Expr::If(cond, body, otherwise) ==> match otherwise {
            None => {
                &&& conditional(env, e, scope).code == if_part(env, *cond, body@, scope)
                &&& eval_conditional(chain, env, e, scope, st, rounds) == if_outcome(
                    chain,
                    env,
                    *cond,
                    body@,
                    scope,
                    st,
                    rounds,
                )
            },
            Some(other) => {
                &&& conditional(env, e, scope).code == if_else_part(
                    env,
                    *cond,
                    body@,
                    *other,
                    scope,
                )
                &&& eval_conditional(chain, env, e, scope, st, rounds) == if_else_outcome(
                    chain,
                    env,
                    *cond,
                    body@,
                    *other,
                    scope,
                    st,
                    rounds,
                )
            },
        }),
{
    reveal(expression_part);
    reveal(expression_outcome);
    reveal(block_part);
    reveal(block_outcome);
    reveal(else_part);
    reveal(else_outcome);
}

/// `if` without `else`.
proof fn part_if(
    chain: Chain,
    program: Seq<Instr>,
    at: nat,
    base: nat,
    m: Machine,
    env: Env,
    e: Expr,
    cond: Expr,
    body: Seq<Stmt>,
    scope: Scope,
    st: Store,
    rounds: nat,
) -> (t: State)
    requires
        ready(program, at, base, if_part(env, cond, body, scope), m, scope, st),
        e matches Expr::If(c, b, _) && *c == cond && b@ == body,
    ensures
        reaches(chain, program, running(at, m), t),
        delivers(
            t,
            if_outcome(chain, env, cond, body, scope, st, rounds),
            at + if_part(env, cond, body, scope).program.instrs.len(),
            m.stack,
        ),
    decreases depth(env), e, 0nat, 7nat,
{
    let test = expression_part(env, cond, scope);
    let yes = block_part(env, body, Tail::Void, test.scope);
    split_if(program, at, base, test.code, yes.code);
    let t0 = part_expression(chain, program, at, base, m, env, cond, scope, st, rounds);
    match expression_outcome(chain, env, cond, scope, st, rounds) {
        Outcome::Value(v, st1) => {
            let t1 = step_if_enter(chain, program, at, base, m, test.code, yes.code, v, st1, t0);
            if v != 0 {
                let t2 = part_block(
                    chain,
                    program,
                    at + test.code.program.instrs.len() + 2,
                    base + test.code.program.labels + 1,
                    t1.machine,
                    env,
                    body,
                    Tail::Void,
                    test.scope,
                    st1,
                    rounds,
                );
                lemma_reaches_trans(chain, program, running(at, m), t1, t2);
                let o = block_outcome(chain, env, body, Tail::Void, test.scope, st1, rounds);
                step_if_leave(chain, program, at, base, m, test.code, yes.code, o, t2)
            } else {
                t1
            }
        },
        _ => t0,
    }
}

/// `if` with `else`.
proof fn part_if_else(
    chain: Chain,
    program: Seq<Instr>,
    at: nat,
    base: nat,
    m: Machine,
    env: Env,
    e: Expr,
    cond: Expr,
    body: Seq<Stmt>,
    other: Expr,
    scope: Scope,
    st: Store,
    rounds: nat,
) -> (t: State)
    requires
        ready(program, at, base, if_else_part(env, cond, body, other, scope), m, scope, st),
        e matches Expr::If(c, b, Some(o)) && *c == cond && b@ == body && *o == other,
    ensures
        reaches(chain, program, running(at, m), t),
        delivers(
            t,
            if_else_outcome(chain, env, cond, body, other, scope, st, rounds),
            at + if_else_part(env, cond, body, other, scope).program.instrs.len(),
            m.stack,
        ),
    decreases depth(env), e, 0nat, 7nat,
{
    let test = expression_part(env, cond, scope);
    let yes = block_part(env, body, Tail::Void, test.scope);
    let no = else_part(env, other, yes.scope);
    split_if_else(program, at, base, test.code, yes.code, no.code);
    let t0 = part_expression(chain, program, at, base, m, env, cond, scope, st, rounds);
    lemma_block_part_scope(env, body, test.scope);
    match expression_outcome(chain, env, cond, scope, st, rounds) {
        Outcome::Value(v, st1) => {
            let t1 = step_if_else_enter(
                chain, program, at, base, m, test.code, yes.code, no.code, v, st1, t0,
            );
            if v != 0 {
                let t2 = part_block(
                    chain,
                    program,
                    at + test.code.program.instrs.len() + 2,
                    base + test.code.program.labels + 2,
                    t1.machine,
                    env,
                    body,
                    Tail::Void,
                    test.scope,
                    st1,
                    rounds,
                );
                lemma_reaches_trans(chain, program, running(at, m), t1, t2);
                let o = block_outcome(chain, env, body, Tail::Void, test.scope, st1, rounds);
                step_if_else_leave(
                    chain, program, at, base, m, test.code, yes.code, no.code, true, o, t2,
                )
            } else {
                let t2 = part_else(
                    chain,
                    program,
                    at + test.code.program.instrs.len() + yes.code.program.instrs.len() + 4,
                    base + test.code.program.labels + yes.code.program.labels + 2,
                    t1.machine,
                    env,
                    other,
                    yes.scope,
                    st1,
                    rounds,
                );
                lemma_reaches_trans(chain, program, running(at, m), t1, t2);
                let o = else_outcome(chain, env, other, yes.scope, st1, rounds);
                step_if_else_leave(
                    chain, program, at, base, m, test.code, yes.code, no.code, false, o, t2,
                )
            }
        },
        _ => t0,
    }
}

/// The code of a loop.
spec fn loop_part(env: Env, cond: Expr, body: Seq<Stmt>, scope: Scope) -> Fragment {
    let test = expression_part(env, cond, scope);
    loop_code(test.code, block_part(env, body, Tail::Void, test.scope).code)
}

/// What a number of rounds of a loop means.
#[verifier::opaque]
spec fn loop_outcome(
    chain: Chain,
    env: Env,
    e: Expr,
    scope: Scope,
    st: Store,
    rounds: nat,
    left: nat,
) -> Outcome {
    eval_repetition(chain, env, e, scope, st, rounds, left)
}

/// A loop, over its parts.
proof fn unfold_loop(
    chain: Chain,
    env: Env,
    e: Expr,
    cond: Expr,
    body: Seq<Stmt>,
    scope: Scope,
    st: Store,
    rounds: nat,
    left: nat,
)
    requires
        e matches Expr::While(c, b) && *c == cond && b@ == body,
    ensures
        repetition(env, e, scope).code == loop_part(env, cond, body, scope),
        loop_outcome(chain, env, e, scope, st, rounds, left) == if left == 0 {
            Outcome::Unfinished
        } else {
            match expression_outcome(chain, env, cond, scope, st, rounds) {
                Outcome::Value(v, after) => if v == 0 {
                    Outcome::Next(after)
                } else {
                    let inner = expression_part(env, cond, scope).scope;
                    match block_outcome(chain, env, body, Tail::Void, inner, after, rounds) {
                        Outcome::Next(again) => loop_outcome(
                            chain,
                            env,
                            e,
                            scope,
                            again,
                            rounds,
                            (left - 1) as nat,
                        ),
                        other => bail(other),
                    }
                },
                other => bail(other),
            }
        },
{
    reveal(expression_part);
    reveal(expression_outcome);
    reveal(block_part);
    reveal(block_outcome);
    reveal(loop_outcome);
}

/// The code of a call of another contract, over its parts.
spec fn interface_part(
    env: Env,
    target: Expr,
    args: Seq<Expr>,
    callee: ForeignMethod,
    want_value: bool,
    scope: Scope,
) -> Fragment {
    let address = expression_part(env, target, scope);
    let buffer = address.scope.next_local;
    let reserved = address.scope.reserved_for_call(args.len());
    let bound = arguments_part(env, args, args.len(), buffer, reserved);
    interface_code(
        address.code,
        bound.code,
        callee.sig,
        buffer,
        args.len(),
        callee.mutable,
        want_value,
    )
}

/// What a call of another contract means, over its parts.
spec fn interface_outcome(
    chain: Chain,
    env: Env,
    target: Expr,
    args: Seq<Expr>,
    callee: ForeignMethod,
    want_value: bool,
    scope: Scope,
    st: Store,
    rounds: nat,
) -> Outcome {
    match expression_outcome(chain, env, target, scope, st, rounds) {
        Outcome::Value(place, st1) => {
            let inner = expression_part(env, target, scope).scope;
            let buffer = inner.next_local;
            let selector = keccak256_digest(encode_utf8(callee.sig)).take(4);
            match arguments_outcome(
                chain,
                env,
                args,
                args.len(),
                buffer,
                inner.reserved_for_call(args.len()),
                st1.with_cell(buffer as nat, be_value(selector)),
                rounds,
            ) {
                Outcome::Next(st2) => foreign_call(
                    chain,
                    place,
                    buffer as nat,
                    args.len(),
                    callee.mutable,
                    want_value,
                    st2,
                ),
                other => bail(other),
            }
        },
        other => bail(other),
    }
}

/// A call of another contract, over its parts.
proof fn unfold_interface_call(
    chain: Chain,
    env: Env,
    e: Expr,
    want_value: bool,
    scope: Scope,
    st: Store,
    rounds: nat,
)
    requires
        clean(interface_call(env, e, want_value, scope).code),
    ensures
        (match e {
            Expr::MethodCall(receiver, method, args) => match interface_of(
                env.contract,
                *receiver,
            ) {
                Some(methods) => match *receiver {
                    Expr::Call(_, targets) => match lookup(methods, method@) {
                        Some(callee) => {
                            &&& targets@.len() == 1
                            &&& expression_part(
                                env,
                                targets@[0],
                                scope,
                            ).scope.has_room_for_call(args@.len())
                            &&& interface_call(env, e, want_value, scope).code == interface_part(
                            env,
                            targets@[0],
                            args@,
                            callee,
                            want_value,
                            scope,
                        )
                            &&& eval_interface_call(chain, env, e, want_value, scope, st, rounds)
                            == interface_outcome(
                            chain,
                            env,
                            targets@[0],
                            args@,
                            callee,
                            want_value,
                            scope,
                            st,
                            rounds,
                        )
                        },
                        None => false,
                    },
                    _ => false,
                },
                None => false,
            },
            _ => false,
        }),
{
    reveal(expression_part);
    reveal(expression_outcome);
    reveal(arguments_part);
    reveal(arguments_outcome);
}

/// A call of another contract, over its parts.
proof fn part_interface_call(
    chain: Chain,
    program: Seq<Instr>,
    at: nat,
    base: nat,
    m: Machine,
    env: Env,
    e: Expr,
    receiver: Expr,
    target: Expr,
    args: Seq<Expr>,
    callee: ForeignMethod,
    want_value: bool,
    scope: Scope,
    st: Store,
    rounds: nat,
) -> (t: State)
    requires
        ready(
            program,
            at,
            base,
            interface_part(env, target, args, callee, want_value, scope),
            m,
            scope,
            st,
        ),
        e matches Expr::MethodCall(r, _, a) && *r == receiver && a@ == args,
        receiver matches Expr::Call(_, targets) && targets@.len() == 1 && targets@[0] == target,
        expression_part(env, target, scope).scope.has_room_for_call(args.len()),
    ensures
        reaches(chain, program, running(at, m), t),
        delivers(
            t,
            interface_outcome(
                chain, env, target, args, callee, want_value, scope, st, rounds,
            ),
            at + interface_part(env, target, args, callee, want_value, scope).program.instrs.len(),
            m.stack,
        ),
    decreases depth(env), e, 0nat, 3nat,
{
    let n = args.len();
    let address = expression_part(env, target, scope);
    let buffer = address.scope.next_local;
    let room = address.scope.reserved_for_call(n);
    let bound = arguments_part(env, args, args.len(), buffer, room);
    split_interface(
        program, at, base, address.code, bound.code, callee.sig, buffer, n, callee.mutable,
        want_value,
    );
    let t1 = part_expression(chain, program, at, base, m, env, target, scope, st, rounds);
    match expression_outcome(chain, env, target, scope, st, rounds) {
        Outcome::Value(place, st1) => {
            let t2 = step_selector(
                chain, program, at, base, m, address.code, bound.code, callee.sig, buffer, n,
                callee.mutable, want_value, place, st1, t1,
            );
            let selector = keccak256_digest(encode_utf8(callee.sig)).take(4);
            let st2 = st1.with_cell(buffer as nat, be_value(selector));
            lemma_scope_reserved_for_call(address.scope, n);
            let t3 = part_arguments(
                chain,
                program,
                at + address.code.program.instrs.len() + 3,
                base + address.code.program.labels,
                t2.machine,
                env,
                args,
                n,
                buffer,
                room,
                st2,
                rounds,
            );
            lemma_reaches_trans(chain, program, running(at, m), t2, t3);
            let o = arguments_outcome(chain, env, args, n, buffer, room, st2, rounds);
            step_interface(
                chain, program, at, base, m, address.code, bound.code, callee.sig, buffer, n,
                callee.mutable, want_value, place, o, t3,
            )
        },
        _ => t1,
    }
}

/// A number of rounds of `while`, from behind its start.
proof fn part_rounds(
    chain: Chain,
    program: Seq<Instr>,
    at: nat,
    base: nat,
    m: Machine,
    env: Env,
    e: Expr,
    cond: Expr,
    body: Seq<Stmt>,
    scope: Scope,
    st: Store,
    rounds: nat,
    left: nat,
) -> (t: State)
    requires
        e matches Expr::While(c, b) && *c == cond && b@ == body,
        ready(program, at, base, loop_part(env, cond, body, scope), m, scope, st),
    ensures
        reaches(chain, program, running(at + 1, m), t),
        delivers(
            t,
            loop_outcome(chain, env, e, scope, st, rounds, left),
            at + loop_part(env, cond, body, scope).program.instrs.len(),
            m.stack,
        ),
    decreases depth(env), e, left, 7nat,
{
    let s = running(at + 1, m);
    unfold_loop(chain, env, e, cond, body, scope, st, rounds, left);
    if left == 0 {
        lemma_reaches_self(chain, program, s);
        s
    } else {
        let test = expression_part(env, cond, scope);
        let inner = block_part(env, body, Tail::Void, test.scope);
        split_loop(program, at, base, test.code, inner.code);
        let t0 = part_expression(
            chain, program, at + 1, base + 2, m, env, cond, scope, st, rounds,
        );
        match expression_outcome(chain, env, cond, scope, st, rounds) {
            Outcome::Value(v, st1) => {
                let t1 = step_loop_test(
                    chain, program, at, base, m, test.code, inner.code, v, st1, t0,
                );
                if v == 0 {
                    t1
                } else {
                    let t2 = part_block(
                        chain,
                        program,
                        at + test.code.program.instrs.len() + 3,
                        base + test.code.program.labels + 2,
                        t1.machine,
                        env,
                        body,
                        Tail::Void,
                        test.scope,
                        st1,
                        rounds,
                    );
                    lemma_reaches_trans(chain, program, s, t1, t2);
                    match block_outcome(chain, env, body, Tail::Void, test.scope, st1, rounds) {
                        Outcome::Next(st2) => {
                            step_loop_back(
                                chain, program, at, base, m, test.code, inner.code, t2,
                            );
                            let again = running(at + 1, t2.machine);
                            let t3 = part_rounds(
                                chain, program, at, base, t2.machine, env, e, cond, body, scope,
                                st2, rounds, (left - 1) as nat,
                            );
                            lemma_reaches_trans(chain, program, s, again, t3);
                            t3
                        },
                        _ => t2,
                    }
                }
            },
            _ => t0,
        }
    }
}

/// The code of the first of a list of expressions, as proofs about the code around it see it.
#[verifier::opaque]
spec fn values_part(
    env: Env,
    elems: Seq<Expr>,
    k: nat,
    scope: Scope,
) -> Lowered {
    values(env, elems, k, scope)
}

/// The meaning of the first of a list of expressions, as proofs about the code around it see it.
#[verifier::opaque]
spec fn values_outcome(
    chain: Chain,
    env: Env,
    elems: Seq<Expr>,
    k: nat,
    scope: Scope,
    st: Store,
    rounds: nat,
) -> Outcome {
    eval_values(chain, env, elems, k, scope, st, rounds)
}

/// The code of the first fields of an event, as proofs about the code around it see it.
#[verifier::opaque]
spec fn event_part(
    env: Env,
    literal: Seq<FieldValue>,
    fields: Seq<EventParameter>,
    k: nat,
    scope: Scope,
) -> Lowered {
    event_values(env, literal, fields, k, scope)
}

/// The meaning of the first fields of an event, as proofs about the code around it see it.
#[verifier::opaque]
spec fn event_outcome(
    chain: Chain,
    env: Env,
    literal: Seq<FieldValue>,
    fields: Seq<EventParameter>,
    k: nat,
    scope: Scope,
    st: Store,
    rounds: nat,
) -> Outcome {
    eval_event_values(chain, env, literal, fields, k, scope, st, rounds)
}

/// The code of the first arguments of an internal call, as proofs about the code around it see it.
#[verifier::opaque]
spec fn bindings_part(
    env: Env,
    params: Seq<Parameter>,
    args: Seq<Expr>,
    k: nat,
    scope: Scope,
) -> Bound {
    bindings(env, params, args, k, scope)
}

/// The meaning of the first arguments of an internal call, as proofs about the code around it see
/// it.
#[verifier::opaque]
spec fn bindings_outcome(
    chain: Chain,
    env: Env,
    params: Seq<Parameter>,
    args: Seq<Expr>,
    k: nat,
    scope: Scope,
    st: Store,
    rounds: nat,
) -> Outcome {
    eval_bindings(chain, env, params, args, k, scope, st, rounds)
}

/// The code of a place in storage, as proofs about the code around it see it.
#[verifier::opaque]
spec fn place_part(
    env: Env,
    e: Expr,
    scope: Scope,
) -> Placed {
    place(env, e, scope)
}

/// The meaning of a place in storage, as proofs about the code around it see it.
#[verifier::opaque]
spec fn place_outcome(
    chain: Chain,
    env: Env,
    e: Expr,
    scope: Scope,
    st: Store,
    rounds: nat,
) -> Outcome {
    eval_place(chain, env, e, scope, st, rounds)
}

/// The first of a list of expressions.
proof fn part_values(
    chain: Chain,
    program: Seq<Instr>,
    at: nat,
    base: nat,
    m: Machine,
    env: Env,
    elems: Seq<Expr>,
    k: nat,
    scope: Scope,
    st: Store,
    rounds: nat,
) -> (t: State)
    requires
        ready(program, at, base, values_part(env, elems, k, scope).code, m, scope, st),
    ensures
        reaches(chain, program, running(at, m), t),
        delivers(
            t,
            values_outcome(chain, env, elems, k, scope, st, rounds),
            at + values_part(env, elems, k, scope).code.program.instrs.len(),
            m.stack,
        ),
    decreases depth(env), elems, k, 1nat,
{
    reveal(values_part);
    reveal(values_outcome);
    sim_values(
        chain, program, at, base, m, env, elems, k, scope, st, rounds,
    )
}

/// The first fields of an event.
proof fn part_event(
    chain: Chain,
    program: Seq<Instr>,
    at: nat,
    base: nat,
    m: Machine,
    env: Env,
    literal: Seq<FieldValue>,
    fields: Seq<EventParameter>,
    k: nat,
    scope: Scope,
    st: Store,
    rounds: nat,
) -> (t: State)
    requires
        ready(program, at, base, event_part(env, literal, fields, k, scope).code, m, scope, st),
    ensures
        reaches(chain, program, running(at, m), t),
        delivers(
            t,
            event_outcome(chain, env, literal, fields, k, scope, st, rounds),
            at + event_part(env, literal, fields, k, scope).code.program.instrs.len(),
            m.stack,
        ),
    decreases depth(env), literal, k, 1nat,
{
    reveal(event_part);
    reveal(event_outcome);
    sim_event_values(
        chain, program, at, base, m, env, literal, fields, k, scope, st, rounds,
    )
}

/// The first arguments of an internal call.
proof fn part_bindings(
    chain: Chain,
    program: Seq<Instr>,
    at: nat,
    base: nat,
    m: Machine,
    env: Env,
    params: Seq<Parameter>,
    args: Seq<Expr>,
    k: nat,
    scope: Scope,
    st: Store,
    rounds: nat,
) -> (t: State)
    requires
        ready(program, at, base, bindings_part(env, params, args, k, scope).code, m, scope, st),
    ensures
        reaches(chain, program, running(at, m), t),
        delivers(
            t,
            bindings_outcome(chain, env, params, args, k, scope, st, rounds),
            at + bindings_part(env, params, args, k, scope).code.program.instrs.len(),
            m.stack,
        ),
    decreases depth(env), args, k, 1nat,
{
    reveal(bindings_part);
    reveal(bindings_outcome);
    sim_bindings(
        chain, program, at, base, m, env, params, args, k, scope, st, rounds,
    )
}

/// A place in storage.
proof fn part_place(
    chain: Chain,
    program: Seq<Instr>,
    at: nat,
    base: nat,
    m: Machine,
    env: Env,
    e: Expr,
    scope: Scope,
    st: Store,
    rounds: nat,
) -> (t: State)
    requires
        ready(program, at, base, (place_part(env, e, scope).place->Ok_0).0, m, scope, st),
        place_part(env, e, scope).place is Ok,
    ensures
        reaches(chain, program, running(at, m), t),
        delivers(
            t,
            place_outcome(chain, env, e, scope, st, rounds),
            at + (place_part(env, e, scope).place->Ok_0).0.program.instrs.len(),
            m.stack,
        ),
        scope_ok(place_part(env, e, scope).scope),
    decreases depth(env), e, 0nat, 3nat,
{
    reveal(place_part);
    reveal(place_outcome);
    sound_place(env, e, scope);
    sim_place(
        chain, program, at, base, m, env, e, scope, st, rounds,
    )
}

/// What becomes of a further value, behind others.
spec fn then_value(vs: Seq<nat>, o: Outcome) -> Outcome {
    match o {
        Outcome::Value(v, after) => Outcome::Values(vs.push(v), after),
        other => bail(other),
    }
}

/// A list of expressions, over its parts.
proof fn unfold_values(
    chain: Chain,
    env: Env,
    elems: Seq<Expr>,
    k: nat,
    scope: Scope,
    st: Store,
    rounds: nat,
)
    requires
        0 < k <= elems.len(),
        scope_ok(scope),
    ensures
        ({
            let j = (k - 1) as nat;
            let before = values_part(env, elems, j, scope);
            &&& scope_ok(before.scope)
            &&& values(env, elems, k, scope).code == before.code.followed_by(
                expression_part(env, elems[k - 1], before.scope).code,
            )
            &&& eval_values(chain, env, elems, k, scope, st, rounds) == match values_outcome(
                chain,
                env,
                elems,
                j,
                scope,
                st,
                rounds,
            ) {
                Outcome::Values(vs, st1) => then_value(
                    vs,
                    expression_outcome(chain, env, elems[k - 1], before.scope, st1, rounds),
                ),
                other => bail(other),
            }
        }),
{
    reveal(values_part);
    reveal(values_outcome);
    reveal(expression_part);
    reveal(expression_outcome);
    sound_values(env, elems, (k - 1) as nat, scope);
}

/// The fields of an event, over their parts.
proof fn unfold_event_values(
    chain: Chain,
    env: Env,
    literal: Seq<FieldValue>,
    fields: Seq<EventParameter>,
    k: nat,
    scope: Scope,
    st: Store,
    rounds: nat,
)
    requires
        0 < k,
        scope_ok(scope),
        clean(event_values(env, literal, fields, k, scope).code),
    ensures
        ({
            let j = (k - 1) as nat;
            let before = event_part(env, literal, fields, j, scope);
            match literal_field(literal, fields[k - 1].name, literal.len()) {
                None => false,
                Some(i) => {
                    let e = literal[i as int].value;
                    &&& i < literal.len()
                    &&& scope_ok(before.scope)
                    &&& event_values(env, literal, fields, k, scope).code
                        == before.code.followed_by(expression_part(env, e, before.scope).code)
                    &&& eval_event_values(chain, env, literal, fields, k, scope, st, rounds)
                        == match event_outcome(
                        chain,
                        env,
                        literal,
                        fields,
                        j,
                        scope,
                        st,
                        rounds,
                    ) {
                        Outcome::Values(vs, st1) => then_value(
                            vs,
                            expression_outcome(chain, env, e, before.scope, st1, rounds),
                        ),
                        other => bail(other),
                    }
                },
            }
        }),
{
    reveal(event_part);
    reveal(event_outcome);
    reveal(expression_part);
    reveal(expression_outcome);
    let name = fields[k - 1].name;
    lemma_literal_field(literal, name, literal.len());
    sound_event_values(env, literal, fields, (k - 1) as nat, scope);
    if literal_field(literal, name, literal.len()) is None {
        let fault = Fault { kind: ErrorKind::MissingEventField, subject: name };
        let before = event_values(env, literal, fields, (k - 1) as nat, scope);
        lemma_fault_not_clean(before.code, fault);
    }
}

/// Code with a fault behind it is not clean.
proof fn lemma_fault_not_clean(f: Fragment, fault: Fault)
    ensures
        !clean(f.followed_by(Fragment::fault(fault))),
{
}

/// The arguments of an internal call, over their parts.
proof fn unfold_bindings(
    chain: Chain,
    env: Env,
    params: Seq<Parameter>,
    args: Seq<Expr>,
    k: nat,
    scope: Scope,
    st: Store,
    rounds: nat,
)
    requires
        0 < k <= args.len(),
        scope_ok(scope),
        clean(bindings(env, params, args, k, scope).code),
    ensures
        ({
            let j = (k - 1) as nat;
            let before = bindings_part(env, params, args, j, scope);
            let offset = expression_part(env, args[k - 1], before.scope).scope.next_local as nat;
            &&& scope_ok(before.scope)
            &&& bindings(env, params, args, k, scope).code == before.code.followed_by(
                stored_part(env, args[k - 1], offset, Op::MStore@, before.scope),
            )
            &&& eval_bindings(chain, env, params, args, k, scope, st, rounds)
                == match bindings_outcome(chain, env, params, args, j, scope, st, rounds) {
                Outcome::Next(st1) => then_cell(
                    expression_outcome(chain, env, args[k - 1], before.scope, st1, rounds),
                    offset,
                ),
                other => bail(other),
            }
        }),
{
    reveal(bindings_part);
    reveal(bindings_outcome);
    reveal(expression_part);
    reveal(expression_outcome);
    let before = bindings(env, params, args, (k - 1) as nat, scope);
    let value = expression(env, args[k - 1], before.scope);
    sound_bindings(env, params, args, (k - 1) as nat, scope);
    if !value.scope.has_room() {
        lemma_fault_not_clean(
            before.code.followed_by(value.code),
            plain_fault(ErrorKind::TooManyLocals),
        );
    }
}

/// The arguments of a call of another contract, over their parts.
proof fn unfold_arguments(
    chain: Chain,
    env: Env,
    args: Seq<Expr>,
    k: nat,
    buffer: u32,
    scope: Scope,
    st: Store,
    rounds: nat,
)
    requires
        0 < k <= args.len(),
        scope_ok(scope),
    ensures
        ({
            let j = (k - 1) as nat;
            let before = arguments_part(env, args, j, buffer, scope);
            let offset = (buffer + 32 * k) as nat;
            &&& scope_ok(before.scope)
            &&& foreign_arguments(env, args, k, buffer, scope).code == before.code.followed_by(
                stored_part(env, args[k - 1], offset, Op::MStore@, before.scope),
            )
            &&& eval_foreign_arguments(chain, env, args, k, buffer, scope, st, rounds)
                == match arguments_outcome(chain, env, args, j, buffer, scope, st, rounds) {
                Outcome::Next(st1) => then_cell(
                    expression_outcome(chain, env, args[k - 1], before.scope, st1, rounds),
                    offset,
                ),
                other => bail(other),
            }
        }),
{
    reveal(arguments_part);
    reveal(arguments_outcome);
    reveal(expression_part);
    reveal(expression_outcome);
    sound_foreign_arguments(env, args, (k - 1) as nat, buffer, scope);
}

/// `emit`, over its parts.
proof fn unfold_emission(
    chain: Chain,
    env: Env,
    e: Expr,
    scope: Scope,
    st: Store,
    rounds: nat,
)
    requires
        clean(emission_part(env, e, scope)),
    ensures
        (match e {
            Expr::Call(_, args) => args@.len() > 0 && match args@[0] {
                Expr::Struct(name, literal) => match lookup(env.contract.events, name@) {
                    Some(event) => match signature(event.name, event.params()) {
                        Ok(sig) => {
                            let k = event.fields.len();
                            let first = data_place(
                                event_part(env, literal@, event.fields, k, scope).scope,
                                k,
                            );
                            &&& emission_part(env, e, scope) == event_part(
                                env,
                                literal@,
                                event.fields,
                                k,
                                scope,
                            ).code.with_code(log_code(sig, first, k))
                            &&& emission_outcome(chain, env, e, scope, st, rounds) == then_log(
                                event_outcome(
                                    chain,
                                    env,
                                    literal@,
                                    event.fields,
                                    k,
                                    scope,
                                    st,
                                    rounds,
                                ),
                                sig,
                                first,
                            )
                        },
                        Err(_) => false,
                    },
                    None => false,
                },
                _ => false,
            },
            _ => false,
        }),
{
    reveal(emission_part);
    reveal(emission_outcome);
    reveal(event_part);
    reveal(event_outcome);
    if let Expr::Call(_, args) = e {
        if args@.len() > 0 {
            if let Expr::Struct(name, literal) = args@[0] {
                if let Some(event) = lookup(env.contract.events, name@) {
                    let k = event.fields.len();
                    let fields = event_values(env, literal@, event.fields, k, scope);
                    if let Err(fault) = signature(event.name, event.params()) {
                        lemma_fault_not_clean(fields.code, fault);
                    }
                    lemma_fault_not_clean(fields.code, plain_fault(ErrorKind::TooManyLocals));
                }
            }
        }
    }
}

/// The data of an event is laid out in whole words.
proof fn lemma_data_place(
    env: Env,
    literal: Seq<FieldValue>,
    fields: Seq<EventParameter>,
    k: nat,
    scope: Scope,
)
    requires
        scope_ok(scope),
    ensures
        data_place(event_part(env, literal, fields, k, scope).scope, k) % 32 == 0,
{
    reveal(event_part);
    sound_event_values(env, literal, fields, k, scope);
}

/// The code of an `emit`, as proofs about the code around it see it.
#[verifier::opaque]
spec fn emission_part(env: Env, e: Expr, scope: Scope) -> Fragment {
    emission(env, e, scope).code
}

/// The meaning of an `emit`, as proofs about the code around it see it.
#[verifier::opaque]
spec fn emission_outcome(
    chain: Chain,
    env: Env,
    e: Expr,
    scope: Scope,
    st: Store,
    rounds: nat,
) -> Outcome {
    eval_emission(chain, env, e, scope, st, rounds)
}

/// The fields of an event that are logged.
proof fn part_log(
    chain: Chain,
    program: Seq<Instr>,
    at: nat,
    base: nat,
    m: Machine,
    env: Env,
    literal: Seq<FieldValue>,
    fields: Seq<EventParameter>,
    sig: Seq<char>,
    first: nat,
    scope: Scope,
    st: Store,
    rounds: nat,
) -> (t: State)
    requires
        first % 32 == 0,
        ready(
            program,
            at,
            base,
            event_part(env, literal, fields, fields.len(), scope).code.with_code(
                log_code(sig, first, fields.len()),
            ),
            m,
            scope,
            st,
        ),
    ensures
        reaches(chain, program, running(at, m), t),
        delivers(
            t,
            then_log(
                event_outcome(chain, env, literal, fields, fields.len(), scope, st, rounds),
                sig,
                first,
            ),
            at + event_part(env, literal, fields, fields.len(), scope).code.with_code(
                log_code(sig, first, fields.len()),
            ).program.instrs.len(),
            m.stack,
        ),
    decreases depth(env), literal, fields.len(), 2nat,
{
    let k = fields.len();
    let code = event_part(env, literal, fields, k, scope).code;
    split_code(program, at, base, code, log_code(sig, first, k));
    let t = part_event(chain, program, at, base, m, env, literal, fields, k, scope, st, rounds);
    let o = event_outcome(chain, env, literal, fields, k, scope, st, rounds);
    lemma_event_outcome_len(chain, env, literal, fields, k, scope, st, rounds);
    step_log(chain, program, at, base, m, code, sig, first, k, o, t)
}

/// As many values as fields.
proof fn lemma_event_outcome_len(
    chain: Chain,
    env: Env,
    literal: Seq<FieldValue>,
    fields: Seq<EventParameter>,
    k: nat,
    scope: Scope,
    st: Store,
    rounds: nat,
)
    ensures
        event_outcome(chain, env, literal, fields, k, scope, st, rounds) matches Outcome::Values(
            vs,
            _,
        ) ==> vs.len() == k,
{
    reveal(event_outcome);
    lemma_event_values_len(chain, env, literal, fields, k, scope, st, rounds);
}

/// As many values as expressions.
proof fn lemma_values_outcome_len(
    chain: Chain,
    env: Env,
    elems: Seq<Expr>,
    scope: Scope,
    st: Store,
    rounds: nat,
)
    ensures
        values_outcome(chain, env, elems, elems.len(), scope, st, rounds) matches Outcome::Values(
            vs,
            _,
        ) ==> vs.len() == elems.len(),
{
    reveal(values_outcome);
    lemma_values_len(chain, env, elems, elems.len(), scope, st, rounds);
}

/// Expressions whose values are returned.
proof fn part_return_words(
    chain: Chain,
    program: Seq<Instr>,
    at: nat,
    base: nat,
    m: Machine,
    env: Env,
    elems: Seq<Expr>,
    scope: Scope,
    st: Store,
    rounds: nat,
) -> (t: State)
    requires
        ready(program, at, base, values_part(env, elems, elems.len(), scope).code.with_code(
                return_words_code(elems.len()),
            ), m, scope, st),
    ensures
        reaches(chain, program, running(at, m), t),
        delivers(
            t,
            then_return_words(
                values_outcome(chain, env, elems, elems.len(), scope, st, rounds),
            ),
            at + values_part(env, elems, elems.len(), scope).code.with_code(
                return_words_code(elems.len()),
            ).program.instrs.len(),
            m.stack,
        ),
    decreases depth(env), elems, elems.len(), 2nat,
{
    let k = elems.len();
    let code = values_part(env, elems, k, scope).code;
    split_code(program, at, base, code, return_words_code(k));
    let t = part_values(chain, program, at, base, m, env, elems, k, scope, st, rounds);
    let o = values_outcome(chain, env, elems, k, scope, st, rounds);
    lemma_values_outcome_len(chain, env, elems, scope, st, rounds);
    step_return_words(chain, program, at, base, m, code, k, o, t)
}

/// An expression whose value is returned.
proof fn part_return(
    chain: Chain,
    program: Seq<Instr>,
    at: nat,
    base: nat,
    m: Machine,
    env: Env,
    e: Expr,
    as_string: bool,
    scope: Scope,
    st: Store,
    rounds: nat,
) -> (t: State)
    requires
        ready(
            program,
            at,
            base,
            expression_part(env, e, scope).code.with_code(return_code(as_string)),
            m,
            scope,
            st,
        ),
    ensures
        reaches(chain, program, running(at, m), t),
        delivers(
            t,
            then_return(
                expression_outcome(chain, env, e, scope, st, rounds),
                as_string,
            ),
            at + expression_part(env, e, scope).code.with_code(
                return_code(as_string),
            ).program.instrs.len(),
            m.stack,
        ),
    decreases depth(env), e, 0nat, 7nat,
{
    let value = expression_part(env, e, scope);
    split_code(program, at, base, value.code, return_code(as_string));
    let t = part_expression(chain, program, at, base, m, env, e, scope, st, rounds);
    let o = expression_outcome(chain, env, e, scope, st, rounds);
    step_return(chain, program, at, base, m, value.code, as_string, o, t)
}

/// The code of the value of a block, as proofs about the code around it see it.
#[verifier::opaque]
spec fn value_part(env: Env, e: Expr, tail: Tail, scope: Scope) -> Fragment {
    value_statement(env, e, tail, scope).code
}

/// The meaning of the value of a block, as proofs about the code around it see it.
#[verifier::opaque]
spec fn value_outcome(
    chain: Chain,
    env: Env,
    e: Expr,
    tail: Tail,
    scope: Scope,
    st: Store,
    rounds: nat,
) -> Outcome {
    eval_value(chain, env, e, tail, scope, st, rounds)
}

/// A value that is left on the stack, over its parts.
proof fn unfold_leave(chain: Chain, env: Env, e: Expr, scope: Scope, st: Store, rounds: nat)
    ensures
        value_part(env, e, Tail::Leave, scope) == expression_part(env, e, scope).code,
        value_outcome(chain, env, e, Tail::Leave, scope, st, rounds) == expression_outcome(
            chain,
            env,
            e,
            scope,
            st,
            rounds,
        ),
        !clean(value_part(env, e, Tail::Void, scope)),
{
    reveal(value_part);
    reveal(value_outcome);
    reveal(expression_part);
    reveal(expression_outcome);
}

/// A value that is returned, over its parts.
proof fn unfold_return(
    chain: Chain,
    env: Env,
    e: Expr,
    scope: Scope,
    st: Store,
    rounds: nat,
)
    requires
        clean(value_part(env, e, Tail::Return, scope)),
    ensures
        ({
            let code = value_part(env, e, Tail::Return, scope);
            let outcome = value_outcome(chain, env, e, Tail::Return, scope, st, rounds);
            match e {
                Expr::Tuple(elems) => {
                    &&& code == values_part(env, elems@, elems@.len(), scope).code.with_code(
                        return_words_code(elems@.len()),
                    )
                    &&& outcome == then_return_words(
                        values_outcome(chain, env, elems@, elems@.len(), scope, st, rounds),
                    )
                },
                _ => {
                    &&& code == expression_part(env, e, scope).code.with_code(
                        return_code(env.ret_string),
                    )
                    &&& outcome == then_return(
                        expression_outcome(chain, env, e, scope, st, rounds),
                        env.ret_string,
                    )
                },
            }
        }),
{
    reveal(value_part);
    reveal(value_outcome);
    reveal(values_part);
    reveal(values_outcome);
    reveal(expression_part);
    reveal(expression_outcome);
}

/// The code of an `insert`, over its parts.
spec fn insert_part(value: Fragment, slot: Fragment, key: Fragment) -> Fragment {
    value.followed_by(slot).followed_by(key).with_code(
        mapping_slot_from_stack_code().push(Op::SStore@),
    )
}

/// What an `insert` means, over its parts.
spec fn insert_outcome(
    chain: Chain,
    env: Env,
    receiver: Expr,
    key: Expr,
    value: Expr,
    scope: Scope,
    st: Store,
    rounds: nat,
) -> Outcome {
    let inner = place_part(env, receiver, scope).scope;
    let innermost = expression_part(env, value, inner).scope;
    match expression_outcome(chain, env, value, inner, st, rounds) {
        Outcome::Value(v, st1) => match place_outcome(chain, env, receiver, scope, st1, rounds) {
            Outcome::Value(slot, st2) => then_insert(
                expression_outcome(chain, env, key, innermost, st2, rounds),
                slot,
                v,
            ),
            other => bail(other),
        },
        other => bail(other),
    }
}

/// What becomes of the key of an `insert`.
spec fn then_insert(o: Outcome, slot: nat, v: nat) -> Outcome {
    match o {
        Outcome::Value(key, st) => Outcome::Next(st.with_slot(mapping_slot(slot, key), v)),
        other => bail(other),
    }
}

/// `insert`, over its parts.
proof fn unfold_insert(
    chain: Chain,
    env: Env,
    e: Expr,
    scope: Scope,
    st: Store,
    rounds: nat,
)
    requires
        clean(mapping_insert(env, e, scope).code),
    ensures
        (match e {
            Expr::MethodCall(receiver, _, args) => args@.len() == 2 && match place_part(
                env,
                *receiver,
                scope,
            ).place {
                Ok((slot, _)) => {
                    let inner = place_part(env, *receiver, scope).scope;
                    let value = expression_part(env, args@[1], inner);
                    let key = expression_part(env, args@[0], value.scope);
                    &&& mapping_insert(env, e, scope).code == insert_part(
                        value.code,
                        slot,
                        key.code,
                    )
                    &&& eval_mapping_insert(chain, env, e, scope, st, rounds) == insert_outcome(
                        chain,
                        env,
                        *receiver,
                        args@[0],
                        args@[1],
                        scope,
                        st,
                        rounds,
                    )
                },
                Err(_) => false,
            },
            _ => false,
        }),
{
    reveal(place_part);
    reveal(place_outcome);
    reveal(expression_part);
    reveal(expression_outcome);
}

/// `insert`, over its parts.
proof fn part_insert(
    chain: Chain,
    program: Seq<Instr>,
    at: nat,
    base: nat,
    m: Machine,
    env: Env,
    e: Expr,
    receiver: Expr,
    key: Expr,
    value: Expr,
    scope: Scope,
    st: Store,
    rounds: nat,
) -> (t: State)
    requires
        ready(program, at, base, insert_part(
                expression_part(env, value, place_part(env, receiver, scope).scope).code,
                (place_part(env, receiver, scope).place->Ok_0).0,
                expression_part(
                    env,
                    key,
                    expression_part(env, value, place_part(env, receiver, scope).scope).scope,
                ).code,
            ), m, scope, st),
        e matches Expr::MethodCall(r, _, args) && *r == receiver && args@.len() == 2 && args@[0]
            == key && args@[1] == value,
        place_part(env, receiver, scope).place is Ok,
    ensures
        reaches(chain, program, running(at, m), t),
        delivers(
            t,
            insert_outcome(chain, env, receiver, key, value, scope, st, rounds),
            at + insert_part(
                expression_part(env, value, place_part(env, receiver, scope).scope).code,
                (place_part(env, receiver, scope).place->Ok_0).0,
                expression_part(
                    env,
                    key,
                    expression_part(env, value, place_part(env, receiver, scope).scope).scope,
                ).code,
            ).program.instrs.len(),
            m.stack,
        ),
    decreases depth(env), e, 0nat, 7nat,
{
    let target = place_part(env, receiver, scope);
    let slot_code = (target.place->Ok_0).0;
    let first = expression_part(env, value, target.scope);
    let last = expression_part(env, key, first.scope);
    split_insert(
        program,
        at,
        base,
        first.code,
        slot_code,
        last.code,
        mapping_slot_from_stack_code().push(Op::SStore@),
    );
    lemma_place_part_scope(env, receiver, scope);
    let t1 = part_expression(
        chain, program, at, base, m, env, value, target.scope, st, rounds,
    );
    match expression_outcome(chain, env, value, target.scope, st, rounds) {
        Outcome::Value(v, st1) => {
            let at2 = at + first.code.program.instrs.len();
            let base2 = base + first.code.program.labels;
            let t2 = part_place(
                chain, program, at2, base2, t1.machine, env, receiver, scope, st1, rounds,
            );
            lemma_reaches_trans(chain, program, running(at, m), t1, t2);
            match place_outcome(chain, env, receiver, scope, st1, rounds) {
                Outcome::Value(slot, st2) => {
                    let t3 = part_expression(
                        chain,
                        program,
                        at2 + slot_code.program.instrs.len(),
                        base2 + slot_code.program.labels,
                        t2.machine,
                        env,
                        key,
                        first.scope,
                        st2,
                        rounds,
                    );
                    lemma_reaches_trans(chain, program, running(at, m), t2, t3);
                    let o = expression_outcome(chain, env, key, first.scope, st2, rounds);
                    step_insert(
                        chain, program, at, base, m, first.code, slot_code, last.code, v, slot, o,
                        t3,
                    )
                },
                _ => t2,
            }
        },
        _ => t1,
    }
}

/// The scope behind a place in storage.
proof fn lemma_place_part_scope(env: Env, e: Expr, scope: Scope)
    requires
        scope_ok(scope),
    ensures
        scope_ok(place_part(env, e, scope).scope),
{
    reveal(place_part);
    sound_place(env, e, scope);
}

/// `set`, over its parts.
proof fn unfold_set(
    chain: Chain,
    env: Env,
    e: Expr,
    scope: Scope,
    st: Store,
    rounds: nat,
)
    requires
        clean(array_set(env, e, scope).code),
    ensures
        (match e {
            Expr::MethodCall(receiver, _, args) => args@.len() == 2 && match field_of(
                env.contract,
                *receiver,
            ) {
                Ok(field) => {
                    let slot = field.slot as nat;
                    &&& array_set(env, e, scope).code == set_part(
                        env,
                        args@[0],
                        args@[1],
                        slot,
                        scope,
                    )
                    &&& eval_array_set(chain, env, e, scope, st, rounds) == set_outcome(
                        chain,
                        env,
                        args@[0],
                        args@[1],
                        slot,
                        scope,
                        st,
                        rounds,
                    )
                },
                Err(_) => false,
            },
            _ => false,
        }),
{
    reveal(expression_part);
    reveal(expression_outcome);
}

/// The code of a `set`, over its parts.
spec fn set_part(env: Env, index: Expr, value: Expr, slot: nat, scope: Scope) -> Fragment {
    let first = expression_part(env, value, scope);
    first.code.followed_by(expression_part(env, index, first.scope).code).with_code(
        array_elem_slot_code(slot).push(Op::SStore@),
    )
}

/// What a `set` means, over its parts.
spec fn set_outcome(
    chain: Chain,
    env: Env,
    index: Expr,
    value: Expr,
    slot: nat,
    scope: Scope,
    st: Store,
    rounds: nat,
) -> Outcome {
    let inner = expression_part(env, value, scope).scope;
    match expression_outcome(chain, env, value, scope, st, rounds) {
        Outcome::Value(v, st1) => match expression_outcome(chain, env, index, inner, st1, rounds) {
            Outcome::Value(i, st2) => Outcome::Next(st2.with_slot(array_slot(slot, i), v)),
            other => bail(other),
        },
        other => bail(other),
    }
}

/// `set`, over its parts.
proof fn part_set(
    chain: Chain,
    program: Seq<Instr>,
    at: nat,
    base: nat,
    m: Machine,
    env: Env,
    e: Expr,
    index: Expr,
    value: Expr,
    slot: nat,
    scope: Scope,
    st: Store,
    rounds: nat,
) -> (t: State)
    requires
        ready(program, at, base, set_part(env, index, value, slot, scope), m, scope, st),
        e matches Expr::MethodCall(_, _, args) && args@.len() == 2 && args@[0] == index && args@[1]
            == value,
        slot < modulus(),
    ensures
        reaches(chain, program, running(at, m), t),
        delivers(
            t,
            set_outcome(chain, env, index, value, slot, scope, st, rounds),
            at + set_part(env, index, value, slot, scope).program.instrs.len(),
            m.stack,
        ),
    decreases depth(env), e, 0nat, 7nat,
{
    let first = expression_part(env, value, scope);
    let last = expression_part(env, index, first.scope);
    split_set(
        program,
        at,
        base,
        first.code,
        last.code,
        array_elem_slot_code(slot).push(Op::SStore@),
    );
    let t1 = part_expression(chain, program, at, base, m, env, value, scope, st, rounds);
    match expression_outcome(chain, env, value, scope, st, rounds) {
        Outcome::Value(v, st1) => {
            let t2 = part_expression(
                chain,
                program,
                at + first.code.program.instrs.len(),
                base + first.code.program.labels,
                t1.machine,
                env,
                index,
                first.scope,
                st1,
                rounds,
            );
            lemma_reaches_trans(chain, program, running(at, m), t1, t2);
            let o = expression_outcome(chain, env, index, first.scope, st1, rounds);
            step_set(chain, program, at, base, m, first.code, last.code, slot, v, o, t2)
        },
        _ => t1,
    }
}

/// The scope in the body of an inlined function.
spec fn callee_scope(bound: Bound) -> Scope {
    Scope { locals: bound.locals, params: Seq::empty(), next_local: bound.scope.next_local }
}

/// What is done with the value of the body of an inlined function.
spec fn callee_tail(callee: Internal) -> Tail {
    if callee.output is Some {
        Tail::Leave
    } else {
        Tail::Void
    }
}

/// The code of an internal call, over its parts.
spec fn internal_part(
    env: Env,
    within: Env,
    callee: Internal,
    args: Seq<Expr>,
    want_value: bool,
    scope: Scope,
) -> Fragment {
    let bound = bindings_part(env, callee.params, args, args.len(), scope);
    let inner = callee_scope(bound);
    bound.code.followed_by(
        block_part(within, callee.block, callee_tail(callee), inner).code,
    ).with_code(cleanup_code(callee.output is Some, want_value))
}

/// What an internal call means, over its parts.
spec fn internal_outcome(
    chain: Chain,
    env: Env,
    within: Env,
    callee: Internal,
    args: Seq<Expr>,
    want_value: bool,
    scope: Scope,
    st: Store,
    rounds: nat,
) -> Outcome {
    let bound = bindings_part(env, callee.params, args, args.len(), scope);
    let inner = callee_scope(bound);
    match bindings_outcome(chain, env, callee.params, args, args.len(), scope, st, rounds) {
        Outcome::Next(st1) => then_result(
            block_outcome(
                chain,
                within,
                callee.block,
                callee_tail(callee),
                inner,
                st1,
                rounds,
            ),
            callee.output is Some,
            want_value,
        ),
        other => bail(other),
    }
}

/// An internal call, over its parts.
proof fn unfold_internal_call(
    chain: Chain,
    env: Env,
    e: Expr,
    want_value: bool,
    scope: Scope,
    st: Store,
    rounds: nat,
)
    requires
        clean(internal_call(env, e, want_value, scope).code),
    ensures
        (match e {
            Expr::MethodCall(_, method, args) => match lookup(
                env.contract.internal_functions,
                method@,
            ) {
                Some(callee) => {
                    let within = env.within(method@);
                    &&& !env.stack.contains(method@)
                    &&& internal_call(env, e, want_value, scope).code == internal_part(
                        env,
                        within,
                        callee,
                        args@,
                        want_value,
                        scope,
                    )
                    &&& eval_internal_call(chain, env, e, want_value, scope, st, rounds)
                        == internal_outcome(
                        chain,
                        env,
                        within,
                        callee,
                        args@,
                        want_value,
                        scope,
                        st,
                        rounds,
                    )
                },
                None => false,
            },
            _ => false,
        }),
{
    reveal(bindings_part);
    reveal(bindings_outcome);
    reveal(block_part);
    reveal(block_outcome);
}

/// The scope in the body of an inlined function is in order.
proof fn lemma_callee_scope(
    env: Env,
    params: Seq<Parameter>,
    args: Seq<Expr>,
    scope: Scope,
)
    requires
        scope_ok(scope),
    ensures
        scope_ok(callee_scope(bindings_part(env, params, args, args.len(), scope))),
{
    reveal(bindings_part);
    sound_bindings(env, params, args, args.len(), scope);
}

/// An internal call, over its parts.
proof fn part_internal_call(
    chain: Chain,
    program: Seq<Instr>,
    at: nat,
    base: nat,
    m: Machine,
    env: Env,
    e: Expr,
    within: Env,
    callee: Internal,
    args: Seq<Expr>,
    want_value: bool,
    scope: Scope,
    st: Store,
    rounds: nat,
) -> (t: State)
    requires
        ready(
            program,
            at,
            base,
            internal_part(env, within, callee, args, want_value, scope),
            m,
            scope,
            st,
        ),
        e matches Expr::MethodCall(_, _, a) && a@ == args,
        depth(within) < depth(env),
    ensures
        reaches(chain, program, running(at, m), t),
        delivers(
            t,
            internal_outcome(
                chain, env, within, callee, args, want_value, scope, st, rounds,
            ),
            at + internal_part(env, within, callee, args, want_value, scope).program.instrs.len(),
            m.stack,
        ),
    decreases depth(env), e, 0nat, 3nat,
{
    let n = args.len();
    let bound = bindings_part(env, callee.params, args, n, scope);
    let inner = callee_scope(bound);
    let tail = callee_tail(callee);
    let returning = callee.output is Some;
    let body = block_part(within, callee.block, tail, inner);
    split_internal_call(
        program,
        at,
        base,
        bound.code,
        body.code,
        cleanup_code(returning, want_value),
    );
    lemma_callee_scope(env, callee.params, args, scope);
    let t = part_bindings(
        chain, program, at, base, m, env, callee.params, args, n, scope, st, rounds,
    );
    match bindings_outcome(chain, env, callee.params, args, n, scope, st, rounds) {
        Outcome::Next(st1) => {
            let u = part_block(
                chain,
                program,
                at + bound.code.program.instrs.len(),
                base + bound.code.program.labels,
                t.machine,
                within,
                callee.block,
                tail,
                inner,
                st1,
                rounds,
            );
            lemma_reaches_trans(chain, program, running(at, m), t, u);
            let o = block_outcome(chain, within, callee.block, tail, inner, st1, rounds);
            step_internal_call(
                chain, program, at, base, m, bound.code, body.code, returning, want_value, o, u,
            )
        },
        _ => t,
    }
}

/// The code of an operator, over its parts: `first` is evaluated before `last`.
spec fn operands_part(first: Fragment, last: Fragment, op: BinOp) -> Fragment {
    first.followed_by(last).with_code(operator_tail(op))
}

/// What an operator means on the values of its operands.
spec fn then_operate(op: BinOp, l: nat, r: nat, st: Store) -> Outcome {
    match operate(op, l, r) {
        Some(v) => Outcome::Value(v, st),
        None => Outcome::Unfinished,
    }
}

/// What an operator means, over its parts: the operand that is evaluated first is `first`.
spec fn operands_outcome(
    chain: Chain,
    env: Env,
    op: BinOp,
    first: Expr,
    first_scope: Scope,
    last: Expr,
    last_scope: Scope,
    st: Store,
    rounds: nat,
) -> Outcome {
    match expression_outcome(chain, env, first, first_scope, st, rounds) {
        Outcome::Value(a, st1) => match expression_outcome(
            chain,
            env,
            last,
            last_scope,
            st1,
            rounds,
        ) {
            Outcome::Value(b, st2) => if right_first(op) {
                then_operate(op, b, a, st2)
            } else {
                then_operate(op, a, b, st2)
            },
            other => bail(other),
        },
        other => bail(other),
    }
}

/// An operator, over its parts.
proof fn unfold_binary(
    chain: Chain,
    env: Env,
    e: Expr,
    scope: Scope,
    st: Store,
    rounds: nat,
)
    requires
        clean(binary(env, e, scope).code),
    ensures
        (match e {
            Expr::Binary(op, left, right) => {
                let l = expression_part(env, *left, scope);
                let r = expression_part(env, *right, l.scope);
                let code = binary(env, e, scope).code;
                let outcome = eval_binary(chain, env, e, scope, st, rounds);
                &&& op != BinOp::Other
                &&& if right_first(op) {
                    &&& code == operands_part(r.code, l.code, op)
                    &&& outcome == operands_outcome(
                        chain,
                        env,
                        op,
                        *right,
                        l.scope,
                        *left,
                        scope,
                        st,
                        rounds,
                    )
                } else {
                    &&& code == operands_part(l.code, r.code, op)
                    &&& outcome == operands_outcome(
                        chain,
                        env,
                        op,
                        *left,
                        scope,
                        *right,
                        l.scope,
                        st,
                        rounds,
                    )
                }
            },
            _ => false,
        }),
{
    reveal(expression_part);
    reveal(expression_outcome);
}

/// The operator behind its operands.
proof fn step_operands(
    chain: Chain,
    program: Seq<Instr>,
    at: nat,
    base: nat,
    m: Machine,
    first: Fragment,
    last: Fragment,
    op: BinOp,
    a: nat,
    o: Outcome,
    t: State,
) -> (u: State)
    requires
        sits(program, at, base, operands_part(first, last, op).program),
        clean(operands_part(first, last, op)),
        op != BinOp::Other,
        a < modulus(),
        reaches(chain, program, running(at, m), t),
        delivers(
            t,
            o,
            at + first.program.instrs.len() + last.program.instrs.len(),
            m.stack.push(a),
        ),
    ensures
        reaches(chain, program, running(at, m), u),
        delivers(
            u,
            (match o {
                Outcome::Value(b, st) => if right_first(op) {
                    then_operate(op, b, a, st)
                } else {
                    then_operate(op, a, b, st)
                },
                other => bail(other),
            }),
            at + operands_part(first, last, op).program.instrs.len(),
            m.stack,
        ),
{
    let both = first.followed_by(last);
    let tail = operator_tail(op);
    lemma_operator_tail(op);
    lemma_sits_code(program, at, base, both.program, tail);
    lemma_sits_followed(program, at, base, first, last);
    match o {
        Outcome::Value(b, st) => {
            let (l, r) = if right_first(op) {
                (b, a)
            } else {
                (a, b)
            };
            let m0 = with_stack(t.machine, m.stack);
            assert(m0.pushed(a).pushed(b).stack =~= t.machine.stack);
            lemma_operator(chain, op, m0, l, r);
            let next = m0.pushed(operate(op, l, r)->Some_0);
            let end = at + both.program.instrs.len();
            run_line(chain, program, end, tail, t.machine, next);
            lemma_related_stack(st, t.machine, next);
            let u = running(end + tail.len(), next);
            lemma_reaches_trans(chain, program, running(at, m), t, u);
            u
        },
        _ => t,
    }
}

/// An operator, over its parts.
proof fn part_operands(
    chain: Chain,
    program: Seq<Instr>,
    at: nat,
    base: nat,
    m: Machine,
    env: Env,
    e: Expr,
    op: BinOp,
    first: Expr,
    first_scope: Scope,
    last: Expr,
    last_scope: Scope,
    st: Store,
    rounds: nat,
) -> (t: State)
    requires
        e matches Expr::Binary(_, l, r) && (first == *l || first == *r) && (last == *l || last
            == *r),
        op != BinOp::Other,
        scope_ok(last_scope),
        ready(
            program,
            at,
            base,
            operands_part(
                expression_part(env, first, first_scope).code,
                expression_part(env, last, last_scope).code,
                op,
            ),
            m,
            first_scope,
            st,
        ),
    ensures
        reaches(chain, program, running(at, m), t),
        delivers(
            t,
            operands_outcome(
                chain,
                env,
                op,
                first,
                first_scope,
                last,
                last_scope,
                st,
                rounds,
            ),
            at + operands_part(
                expression_part(env, first, first_scope).code,
                expression_part(env, last, last_scope).code,
                op,
            ).program.instrs.len(),
            m.stack,
        ),
    decreases depth(env), e, 0nat, 3nat,
{
    let a = expression_part(env, first, first_scope);
    let b = expression_part(env, last, last_scope);
    split_code(program, at, base, a.code.followed_by(b.code), operator_tail(op));
    split_two(program, at, base, a.code, b.code);
    let t1 = part_expression(chain, program, at, base, m, env, first, first_scope, st, rounds);
    match expression_outcome(chain, env, first, first_scope, st, rounds) {
        Outcome::Value(v, st1) => {
            let t2 = part_expression(
                chain,
                program,
                at + a.code.program.instrs.len(),
                base + a.code.program.labels,
                t1.machine,
                env,
                last,
                last_scope,
                st1,
                rounds,
            );
            lemma_reaches_trans(chain, program, running(at, m), t1, t2);
            let o = expression_outcome(chain, env, last, last_scope, st1, rounds);
            step_operands(chain, program, at, base, m, a.code, b.code, op, v, o, t2)
        },
        _ => t1,
    }
}

/// The scope behind an expression.
proof fn lemma_expression_part_scope(env: Env, e: Expr, scope: Scope)
    requires
        scope_ok(scope),
    ensures
        scope_ok(expression_part(env, e, scope).scope),
{
    reveal(expression_part);
    sound_expression(env, e, scope);
}

/// What a key selects in a mapping or an array.
spec fn then_slot_of(o: Outcome, shape: TypeShape, slot: nat) -> Outcome {
    match o {
        Outcome::Value(key, st) => match shape {
            TypeShape::Mapping(_) => Outcome::Value(mapping_slot(slot, key), st),
            TypeShape::Array(_) => Outcome::Value(array_slot(slot, key), st),
            TypeShape::Scalar => Outcome::Unfinished,
        },
        other => bail(other),
    }
}

/// The code that combines a slot and a key.
spec fn combine_code(shape: TypeShape) -> Seq<Instr> {
    if shape is Mapping {
        mapping_slot_from_stack_code()
    } else {
        array_elem_slot_from_stack_code()
    }
}

/// The code of a `get`, over its parts.
spec fn place_get_part(env: Env, receiver: Expr, key: Expr, scope: Scope) -> Fragment {
    let target = place_part(env, receiver, scope);
    let (slot, ty) = target.place->Ok_0;
    slot.followed_by(expression_part(env, key, target.scope).code).with_code(
        combine_code(type_shape(ty)),
    )
}

/// The slot that a `get` means, over its parts.
spec fn place_get_outcome(
    chain: Chain,
    env: Env,
    receiver: Expr,
    key: Expr,
    scope: Scope,
    st: Store,
    rounds: nat,
) -> Outcome {
    let target = place_part(env, receiver, scope);
    match place_outcome(chain, env, receiver, scope, st, rounds) {
        Outcome::Value(slot, st1) => then_slot_of(
            expression_outcome(chain, env, key, target.scope, st1, rounds),
            type_shape((target.place->Ok_0).1),
            slot,
        ),
        other => bail(other),
    }
}

/// A `get` that is a place in storage, over its parts.
proof fn unfold_place_get(
    chain: Chain,
    env: Env,
    e: Expr,
    scope: Scope,
    st: Store,
    rounds: nat,
)
    requires
        place(env, e, scope).place is Ok,
        e is MethodCall,
    ensures
        (match e {
            Expr::MethodCall(receiver, _, args) => {
                &&& args@.len() == 1
                &&& place_part(env, *receiver, scope).place matches Ok((_, ty))
                    && type_shape(ty) !is Scalar
                &&& (place(env, e, scope).place->Ok_0).0 == place_get_part(
                    env,
                    *receiver,
                    args@[0],
                    scope,
                )
                &&& eval_place(chain, env, e, scope, st, rounds) == place_get_outcome(
                    chain,
                    env,
                    *receiver,
                    args@[0],
                    scope,
                    st,
                    rounds,
                )
            },
            _ => false,
        }),
{
    reveal(place_part);
    reveal(place_outcome);
    reveal(expression_part);
    reveal(expression_outcome);
}

/// A slot and a key on the stack are combined.
proof fn step_combine(
    chain: Chain,
    program: Seq<Instr>,
    at: nat,
    base: nat,
    m: Machine,
    slot_code: Fragment,
    key: Fragment,
    shape: TypeShape,
    slot: nat,
    o: Outcome,
    t: State,
) -> (u: State)
    requires
        sits(
            program,
            at,
            base,
            slot_code.followed_by(key).with_code(combine_code(shape)).program,
        ),
        clean(slot_code.followed_by(key)),
        shape !is Scalar,
        slot < modulus(),
        reaches(chain, program, running(at, m), t),
        delivers(
            t,
            o,
            at + slot_code.program.instrs.len() + key.program.instrs.len(),
            m.stack.push(slot),
        ),
    ensures
        reaches(chain, program, running(at, m), u),
        delivers(
            u,
            then_slot_of(o, shape, slot),
            at + slot_code.followed_by(key).with_code(combine_code(shape)).program.instrs.len(),
            m.stack,
        ),
{
    let both = slot_code.followed_by(key);
    lemma_pieces_label_free();
    lemma_sits_code(program, at, base, both.program, combine_code(shape));
    lemma_sits_followed(program, at, base, slot_code, key);
    match o {
        Outcome::Value(k, st) => {
            let end = at + both.program.instrs.len();
            let u = if shape is Mapping {
                run_mapping_slot(chain, program, end, t, slot, k, st, m.stack)
            } else {
                run_array_slot(chain, program, end, t, slot, k, st, m.stack)
            };
            lemma_reaches_trans(chain, program, running(at, m), t, u);
            u
        },
        _ => t,
    }
}

/// A `get` that is a place in storage, over its parts.
proof fn part_place_get(
    chain: Chain,
    program: Seq<Instr>,
    at: nat,
    base: nat,
    m: Machine,
    env: Env,
    e: Expr,
    receiver: Expr,
    key: Expr,
    scope: Scope,
    st: Store,
    rounds: nat,
) -> (t: State)
    requires
        ready(program, at, base, place_get_part(env, receiver, key, scope), m, scope, st),
        e matches Expr::MethodCall(r, _, args) && *r == receiver && args@.len() == 1 && args@[0]
            == key,
        place_part(env, receiver, scope).place matches Ok((_, ty)) && type_shape(ty) !is Scalar,
    ensures
        reaches(chain, program, running(at, m), t),
        delivers(
            t,
            place_get_outcome(chain, env, receiver, key, scope, st, rounds),
            at + place_get_part(env, receiver, key, scope).program.instrs.len(),
            m.stack,
        ),
    decreases depth(env), e, 0nat, 1nat,
{
    let target = place_part(env, receiver, scope);
    let (slot_code, ty) = target.place->Ok_0;
    let shape = type_shape(ty);
    let last = expression_part(env, key, target.scope);
    split_code(program, at, base, slot_code.followed_by(last.code), combine_code(shape));
    split_two(program, at, base, slot_code, last.code);
    let t1 = part_place(chain, program, at, base, m, env, receiver, scope, st, rounds);
    match place_outcome(chain, env, receiver, scope, st, rounds) {
        Outcome::Value(slot, st1) => {
            let t2 = part_expression(
                chain,
                program,
                at + slot_code.program.instrs.len(),
                base + slot_code.program.labels,
                t1.machine,
                env,
                key,
                target.scope,
                st1,
                rounds,
            );
            lemma_reaches_trans(chain, program, running(at, m), t1, t2);
            let o = expression_outcome(chain, env, key, target.scope, st1, rounds);
            step_combine(
                chain, program, at, base, m, slot_code, last.code, shape, slot, o, t2,
            )
        },
        _ => t1,
    }
}

/// The code of a statement, as proofs about the code around it see it.
#[verifier::opaque]
spec fn statement_part(env: Env, stmt: Stmt, tail: Tail, scope: Scope) -> Lowered {
    statement(env, stmt, tail, scope)
}

/// The meaning of a statement, as proofs about the code around it see it.
#[verifier::opaque]
spec fn statement_outcome(
    chain: Chain,
    env: Env,
    stmt: Stmt,
    tail: Tail,
    scope: Scope,
    st: Store,
    rounds: nat,
) -> Outcome {
    eval_statement(chain, env, stmt, tail, scope, st, rounds)
}

/// The code of the first statements, as proofs about the code around it see it.
#[verifier::opaque]
spec fn statements_part(
    env: Env,
    stmts: Seq<Stmt>,
    k: nat,
    tail: Tail,
    scope: Scope,
) -> Lowered {
    statements(env, stmts, k, tail, scope)
}

/// The meaning of the first statements, as proofs about the code around it see it.
#[verifier::opaque]
spec fn statements_outcome(
    chain: Chain,
    env: Env,
    stmts: Seq<Stmt>,
    k: nat,
    tail: Tail,
    scope: Scope,
    st: Store,
    rounds: nat,
) -> Outcome {
    eval_statements(chain, env, stmts, k, tail, scope, st, rounds)
}

/// What is done with the value of the statement at position `k`, counted from one.
spec fn tail_of(stmts: Seq<Stmt>, k: nat, tail: Tail) -> Tail {
    if k == stmts.len() {
        tail
    } else {
        Tail::Void
    }
}

/// A list of statements, over its parts.
proof fn unfold_statements(
    chain: Chain,
    env: Env,
    stmts: Seq<Stmt>,
    k: nat,
    tail: Tail,
    scope: Scope,
    st: Store,
    rounds: nat,
)
    requires
        0 < k <= stmts.len(),
        scope_ok(scope),
    ensures
        ({
            let before = statements_part(env, stmts, (k - 1) as nat, tail, scope);
            let last = tail_of(stmts, k, tail);
            &&& scope_ok(before.scope)
            &&& statements(env, stmts, k, tail, scope).code == before.code.followed_by(
                statement_part(env, stmts[k - 1], last, before.scope).code,
            )
            &&& eval_statements(chain, env, stmts, k, tail, scope, st, rounds)
                == match statements_outcome(
                chain,
                env,
                stmts,
                (k - 1) as nat,
                tail,
                scope,
                st,
                rounds,
            ) {
                Outcome::Next(after) => statement_outcome(
                    chain,
                    env,
                    stmts[k - 1],
                    last,
                    before.scope,
                    after,
                    rounds,
                ),
                other => bail(other),
            }
        }),
{
    reveal(statement_part);
    reveal(statement_outcome);
    reveal(statements_part);
    reveal(statements_outcome);
    sound_statements(env, stmts, (k - 1) as nat, tail, scope);
}

/// A statement within a list.
proof fn part_statement(
    chain: Chain,
    program: Seq<Instr>,
    at: nat,
    base: nat,
    m: Machine,
    env: Env,
    stmt: Stmt,
    tail: Tail,
    scope: Scope,
    st: Store,
    rounds: nat,
) -> (t: State)
    requires
        ready(program, at, base, statement_part(env, stmt, tail, scope).code, m, scope, st),
    ensures
        reaches(chain, program, running(at, m), t),
        delivers(
            t,
            statement_outcome(chain, env, stmt, tail, scope, st, rounds),
            at + statement_part(env, stmt, tail, scope).code.program.instrs.len(),
            m.stack,
        ),
    decreases depth(env), stmt, 0nat, 2nat,
{
    reveal(statement_part);
    reveal(statement_outcome);
    sim_statement(
        chain, program, at, base, m, env, stmt, tail, scope, st, rounds,
    )
}

/// The first statements of a list.
proof fn part_statements(
    chain: Chain,
    program: Seq<Instr>,
    at: nat,
    base: nat,
    m: Machine,
    env: Env,
    stmts: Seq<Stmt>,
    k: nat,
    tail: Tail,
    scope: Scope,
    st: Store,
    rounds: nat,
) -> (t: State)
    requires
        ready(program, at, base, statements_part(env, stmts, k, tail, scope).code, m, scope, st),
    ensures
        reaches(chain, program, running(at, m), t),
        delivers(
            t,
            statements_outcome(chain, env, stmts, k, tail, scope, st, rounds),
            at + statements_part(env, stmts, k, tail, scope).code.program.instrs.len(),
            m.stack,
        ),
    decreases depth(env), stmts, k, 3nat,
{
    reveal(statements_part);
    reveal(statements_outcome);
    sim_statements(
        chain, program, at, base, m, env, stmts, k, tail, scope, st, rounds,
    )
}

/// A list of statements.
proof fn sim_statements(
    chain: Chain,
    program: Seq<Instr>,
    at: nat,
    base: nat,
    m: Machine,
    env: Env,
    stmts: Seq<Stmt>,
    k: nat,
    tail: Tail,
    scope: Scope,
    st: Store,
    rounds: nat,
) -> (t: State)
    requires
        ready(program, at, base, statements(env, stmts, k, tail, scope).code, m, scope, st),
    ensures
        reaches(chain, program, running(at, m), t),
        delivers(
            t,
            eval_statements(chain, env, stmts, k, tail, scope, st, rounds),
            at + statements(env, stmts, k, tail, scope).code.program.instrs.len(),
            m.stack,
        ),
    decreases depth(env), stmts, k, 2nat,
{
    if k == 0 || k > stmts.len() {
        lemma_reaches_self(chain, program, running(at, m));
        running(at, m)
    } else {
        let j = (k - 1) as nat;
        let last = tail_of(stmts, k, tail);
        let before = statements_part(env, stmts, j, tail, scope);
        unfold_statements(chain, env, stmts, k, tail, scope, st, rounds);
        split_two(
            program,
            at,
            base,
            before.code,
            statement_part(env, stmts[k - 1], last, before.scope).code,
        );
        let t = part_statements(
            chain, program, at, base, m, env, stmts, j, tail, scope, st, rounds,
        );
        match statements_outcome(chain, env, stmts, j, tail, scope, st, rounds) {
            Outcome::Next(st1) => {
                let u = part_statement(
                    chain,
                    program,
                    at + before.code.program.instrs.len(),
                    base + before.code.program.labels,
                    t.machine,
                    env,
                    stmts[k - 1],
                    last,
                    before.scope,
                    st1,
                    rounds,
                );
                lemma_reaches_trans(chain, program, running(at, m), t, u);
                u
            },
            _ => t,
        }
    }
}

/// A block.
proof fn sim_block(
    chain: Chain,
    program: Seq<Instr>,
    at: nat,
    base: nat,
    m: Machine,
    env: Env,
    stmts: Seq<Stmt>,
    tail: Tail,
    scope: Scope,
    st: Store,
    rounds: nat,
) -> (t: State)
    requires
        ready(program, at, base, block(env, stmts, tail, scope).code, m, scope, st),
    ensures
        reaches(chain, program, running(at, m), t),
        delivers(
            t,
            eval_block(chain, env, stmts, tail, scope, st, rounds),
            at + block(env, stmts, tail, scope).code.program.instrs.len(),
            m.stack,
        ),
    decreases depth(env), stmts, stmts.len(), 4nat,
{
    sim_statements(
        chain,
        program,
        at,
        base,
        m,
        env,
        stmts,
        stmts.len(),
        tail,
        scope,
        st,
        rounds,
    )
}

/// A statement.
proof fn sim_statement(
    chain: Chain,
    program: Seq<Instr>,
    at: nat,
    base: nat,
    m: Machine,
    env: Env,
    stmt: Stmt,
    tail: Tail,
    scope: Scope,
    st: Store,
    rounds: nat,
) -> (t: State)
    requires
        ready(program, at, base, statement(env, stmt, tail, scope).code, m, scope, st),
    ensures
        reaches(chain, program, running(at, m), t),
        delivers(
            t,
            eval_statement(chain, env, stmt, tail, scope, st, rounds),
            at + statement(env, stmt, tail, scope).code.program.instrs.len(),
            m.stack,
        ),
    decreases depth(env), stmt, 0nat, 1nat,
{
    match stmt {
        Stmt::Expr(e, semi) => {
            let stmt_tail = if semi {
                Tail::Void
            } else {
                tail
            };
            sim_expression_statement(
                chain,
                program,
                at,
                base,
                m,
                env,
                e,
                stmt_tail,
                scope,
                st,
                rounds,
            )
        },
        Stmt::Local(pat, init) => {
            let e = init->Some_0;
            unfold_local(chain, env, pat, e, tail, scope, st, rounds);
            let value = expression_part(env, e, scope);
            let offset = value.scope.next_local as nat;
            part_store_cell(
                chain, program, at, base, m, env, e, offset, scope, st, rounds,
            )
        },
        Stmt::Other => running(at, m),
    }
}

/// An expression that stands as a statement.
proof fn sim_expression_statement(
    chain: Chain,
    program: Seq<Instr>,
    at: nat,
    base: nat,
    m: Machine,
    env: Env,
    e: Expr,
    tail: Tail,
    scope: Scope,
    st: Store,
    rounds: nat,
) -> (t: State)
    requires
        ready(program, at, base, expression_statement(env, e, tail, scope).code, m, scope, st),
    ensures
        reaches(chain, program, running(at, m), t),
        delivers(
            t,
            eval_expression_statement(chain, env, e, tail, scope, st, rounds),
            at + expression_statement(env, e, tail, scope).code.program.instrs.len(),
            m.stack,
        ),
    decreases depth(env), e, rounds + 1, 9nat,
{
    match e {
        Expr::Assign(left, right) => sim_assignment(
            chain, program, at, base, m, env, e, scope, st, rounds,
        ),
        Expr::MethodCall(receiver, method, args) => {
            if interface_of(env.contract, *receiver) is Some {
                if tail == Tail::Void {
                    sim_interface_call(
                        chain, program, at, base, m, env, e, false, scope, st, rounds,
                    )
                } else {
                    sim_value(chain, program, at, base, m, env, e, tail, scope, st, rounds)
                }
            } else if method@ == "insert"@ {
                sim_mapping_insert(chain, program, at, base, m, env, e, scope, st, rounds)
            } else if method@ == "set"@ {
                sim_array_set(chain, program, at, base, m, env, e, scope, st, rounds)
            } else if method@ == "push"@ {
                sim_array_push(chain, program, at, base, m, env, e, scope, st, rounds)
            } else if tail == Tail::Void && self_path(*receiver) && lookup(
                env.contract.internal_functions,
                method@,
            ) is Some {
                sim_internal_call(
                    chain, program, at, base, m, env, e, false, scope, st, rounds,
                )
            } else {
                sim_value(chain, program, at, base, m, env, e, tail, scope, st, rounds)
            }
        },
        Expr::Call(func, args) => {
            if path_is(*func, "require"@) {
                sim_requirement(chain, program, at, base, m, env, e, scope, st, rounds)
            } else if path_is(*func, "emit"@) {
                sim_emission(chain, program, at, base, m, env, e, scope, st, rounds)
            } else {
                sim_value(chain, program, at, base, m, env, e, tail, scope, st, rounds)
            }
        },
        Expr::If(cond, body, otherwise) => sim_conditional(
            chain, program, at, base, m, env, e, scope, st, rounds,
        ),
        Expr::While(cond, body) => sim_repetition(
            chain, program, at, base, m, env, e, scope, st, rounds,
        ),
        _ => sim_value(chain, program, at, base, m, env, e, tail, scope, st, rounds),
    }
}

/// The value of a block, over its parts.
proof fn part_value(
    chain: Chain,
    program: Seq<Instr>,
    at: nat,
    base: nat,
    m: Machine,
    env: Env,
    e: Expr,
    tail: Tail,
    scope: Scope,
    st: Store,
    rounds: nat,
) -> (t: State)
    requires
        ready(program, at, base, value_part(env, e, tail, scope), m, scope, st),
    ensures
        reaches(chain, program, running(at, m), t),
        delivers(
            t,
            value_outcome(chain, env, e, tail, scope, st, rounds),
            at + value_part(env, e, tail, scope).program.instrs.len(),
            m.stack,
        ),
    decreases depth(env), e, 0nat, 8nat,
{
    match tail {
        Tail::Return => {
            unfold_return(chain, env, e, scope, st, rounds);
            match e {
                Expr::Tuple(elems) => part_return_words(
                    chain, program, at, base, m, env, elems@, scope, st, rounds,
                ),
                _ => part_return(
                    chain, program, at, base, m, env, e, env.ret_string, scope, st, rounds,
                ),
            }
        },
        _ => {
            unfold_leave(chain, env, e, scope, st, rounds);
            if tail == Tail::Leave {
                part_expression(chain, program, at, base, m, env, e, scope, st, rounds)
            } else {
                running(at, m)
            }
        },
    }
}

/// The value that a block results in.
proof fn sim_value(
    chain: Chain,
    program: Seq<Instr>,
    at: nat,
    base: nat,
    m: Machine,
    env: Env,
    e: Expr,
    tail: Tail,
    scope: Scope,
    st: Store,
    rounds: nat,
) -> (t: State)
    requires
        ready(program, at, base, value_statement(env, e, tail, scope).code, m, scope, st),
    ensures
        reaches(chain, program, running(at, m), t),
        delivers(
            t,
            eval_value(chain, env, e, tail, scope, st, rounds),
            at + value_statement(env, e, tail, scope).code.program.instrs.len(),
            m.stack,
        ),
    decreases depth(env), e, 0nat, 9nat,
{
    reveal(value_part);
    reveal(value_outcome);
    part_value(chain, program, at, base, m, env, e, tail, scope, st, rounds)
}

/// As many values as expressions.
proof fn lemma_values_len(
    chain: Chain,
    env: Env,
    elems: Seq<Expr>,
    k: nat,
    scope: Scope,
    st: Store,
    rounds: nat,
)
    requires
        k <= elems.len(),
    ensures
        eval_values(chain, env, elems, k, scope, st, rounds) matches Outcome::Values(vs, _)
            ==> vs.len() == k,
    decreases k,
{
    if k > 0 {
        lemma_values_len(chain, env, elems, (k - 1) as nat, scope, st, rounds);
    }
}

/// A list of expressions.
proof fn sim_values(
    chain: Chain,
    program: Seq<Instr>,
    at: nat,
    base: nat,
    m: Machine,
    env: Env,
    elems: Seq<Expr>,
    k: nat,
    scope: Scope,
    st: Store,
    rounds: nat,
) -> (t: State)
    requires
        ready(program, at, base, values(env, elems, k, scope).code, m, scope, st),
    ensures
        reaches(chain, program, running(at, m), t),
        delivers(
            t,
            eval_values(chain, env, elems, k, scope, st, rounds),
            at + values(env, elems, k, scope).code.program.instrs.len(),
            m.stack,
        ),
    decreases depth(env), elems, k, 0nat,
{
    if k == 0 || k > elems.len() {
        lemma_reaches_self(chain, program, running(at, m));
        assert(m.stack + Seq::<nat>::empty() =~= m.stack);
        running(at, m)
    } else {
        let j = (k - 1) as nat;
        let before = values_part(env, elems, j, scope);
        unfold_values(chain, env, elems, k, scope, st, rounds);
        let last = expression_part(env, elems[k - 1], before.scope);
        split_two(program, at, base, before.code, last.code);
        let t = part_values(chain, program, at, base, m, env, elems, j, scope, st, rounds);
        match values_outcome(chain, env, elems, j, scope, st, rounds) {
            Outcome::Values(vs, st1) => {
                let here = at + before.code.program.instrs.len();
                let u = part_expression(
                    chain,
                    program,
                    here,
                    base + before.code.program.labels,
                    t.machine,
                    env,
                    elems[k - 1],
                    before.scope,
                    st1,
                    rounds,
                );
                lemma_reaches_trans(chain, program, running(at, m), t, u);
                if let Outcome::Value(v, st2) = expression_outcome(
                    chain, env, elems[k - 1], before.scope, st1, rounds,
                ) {
                    lemma_one_more_value(
                        u, vs, v, st2, here + last.code.program.instrs.len(), m.stack,
                    );
                }
                u
            },
            _ => t,
        }
    }
}

/// The arguments of an internal call.
proof fn sim_bindings(
    chain: Chain,
    program: Seq<Instr>,
    at: nat,
    base: nat,
    m: Machine,
    env: Env,
    params: Seq<Parameter>,
    args: Seq<Expr>,
    k: nat,
    scope: Scope,
    st: Store,
    rounds: nat,
) -> (t: State)
    requires
        ready(program, at, base, bindings(env, params, args, k, scope).code, m, scope, st),
    ensures
        reaches(chain, program, running(at, m), t),
        delivers(
            t,
            eval_bindings(chain, env, params, args, k, scope, st, rounds),
            at + bindings(env, params, args, k, scope).code.program.instrs.len(),
            m.stack,
        ),
    decreases depth(env), args, k, 0nat,
{
    if k == 0 || k > args.len() {
        lemma_reaches_self(chain, program, running(at, m));
        running(at, m)
    } else {
        let j = (k - 1) as nat;
        let before = bindings_part(env, params, args, j, scope);
        unfold_bindings(chain, env, params, args, k, scope, st, rounds);
        let offset = expression_part(env, args[k - 1], before.scope).scope.next_local as nat;
        split_two(
            program,
            at,
            base,
            before.code,
            stored_part(env, args[k - 1], offset, Op::MStore@, before.scope),
        );
        let t = part_bindings(
            chain, program, at, base, m, env, params, args, j, scope, st, rounds,
        );
        match bindings_outcome(chain, env, params, args, j, scope, st, rounds) {
            Outcome::Next(st1) => {
                let u = part_store_cell(
                    chain,
                    program,
                    at + before.code.program.instrs.len(),
                    base + before.code.program.labels,
                    t.machine,
                    env,
                    args[k - 1],
                    offset,
                    before.scope,
                    st1,
                    rounds,
                );
                lemma_reaches_trans(chain, program, running(at, m), t, u);
                u
            },
            _ => t,
        }
    }
}

/// A call of an internal function.
proof fn sim_internal_call(
    chain: Chain,
    program: Seq<Instr>,
    at: nat,
    base: nat,
    m: Machine,
    env: Env,
    e: Expr,
    want_value: bool,
    scope: Scope,
    st: Store,
    rounds: nat,
) -> (t: State)
    requires
        ready(program, at, base, internal_call(env, e, want_value, scope).code, m, scope, st),
    ensures
        reaches(chain, program, running(at, m), t),
        delivers(
            t,
            eval_internal_call(chain, env, e, want_value, scope, st, rounds),
            at + internal_call(env, e, want_value, scope).code.program.instrs.len(),
            m.stack,
        ),
    decreases depth(env), e, 0nat, 4nat,
{
    unfold_internal_call(chain, env, e, want_value, scope, st, rounds);
    if let Expr::MethodCall(_, method, args) = e {
        let callee = lookup(env.contract.internal_functions, method@)->Some_0;
        lemma_depth(env, method@);
        part_internal_call(
            chain, program, at, base, m, env, e, env.within(method@), callee, args@, want_value,
            scope, st, rounds,
        )
    } else {
        running(at, m)
    }
}

/// An assignment.
proof fn sim_assignment(
    chain: Chain,
    program: Seq<Instr>,
    at: nat,
    base: nat,
    m: Machine,
    env: Env,
    e: Expr,
    scope: Scope,
    st: Store,
    rounds: nat,
) -> (t: State)
    requires
        ready(program, at, base, assignment(env, e, scope).code, m, scope, st),
    ensures
        reaches(chain, program, running(at, m), t),
        delivers(
            t,
            eval_assignment(chain, env, e, scope, st, rounds),
            at + assignment(env, e, scope).code.program.instrs.len(),
            m.stack,
        ),
    decreases depth(env), e, 0nat, 8nat,
{
    if let Expr::Assign(left, right) = e {
        unfold_assignment(chain, env, *left, *right, e, scope, st, rounds);
        match *left {
            Expr::Field(_, member) => {
                let slot = slot_of(env.contract, member)->Ok_0;
                part_store_slot(
                    chain, program, at, base, m, env, *right, slot as nat, scope, st, rounds,
                )
            },
            Expr::Ident(name) => {
                let offset = lookup(scope.locals, name@)->Some_0;
                lemma_local_is_cell(scope, name@);
                part_store_cell(
                    chain, program, at, base, m, env, *right, offset as nat, scope, st, rounds,
                )
            },
            _ => running(at, m),
        }
    } else {
        running(at, m)
    }
}

/// `insert`.
proof fn sim_mapping_insert(
    chain: Chain,
    program: Seq<Instr>,
    at: nat,
    base: nat,
    m: Machine,
    env: Env,
    e: Expr,
    scope: Scope,
    st: Store,
    rounds: nat,
) -> (t: State)
    requires
        ready(program, at, base, mapping_insert(env, e, scope).code, m, scope, st),
    ensures
        reaches(chain, program, running(at, m), t),
        delivers(
            t,
            eval_mapping_insert(chain, env, e, scope, st, rounds),
            at + mapping_insert(env, e, scope).code.program.instrs.len(),
            m.stack,
        ),
    decreases depth(env), e, 0nat, 8nat,
{
    unfold_insert(chain, env, e, scope, st, rounds);
    if let Expr::MethodCall(receiver, _, args) = e {
        part_insert(
            chain, program, at, base, m, env, e, *receiver, args@[0], args@[1], scope, st, rounds,
        )
    } else {
        running(at, m)
    }
}

/// `set`.
proof fn sim_array_set(
    chain: Chain,
    program: Seq<Instr>,
    at: nat,
    base: nat,
    m: Machine,
    env: Env,
    e: Expr,
    scope: Scope,
    st: Store,
    rounds: nat,
) -> (t: State)
    requires
        ready(program, at, base, array_set(env, e, scope).code, m, scope, st),
    ensures
        reaches(chain, program, running(at, m), t),
        delivers(
            t,
            eval_array_set(chain, env, e, scope, st, rounds),
            at + array_set(env, e, scope).code.program.instrs.len(),
            m.stack,
        ),
    decreases depth(env), e, 0nat, 8nat,
{
    unfold_set(chain, env, e, scope, st, rounds);
    if let Expr::MethodCall(receiver, _, args) = e {
        let slot = (field_of(env.contract, *receiver)->Ok_0).slot as nat;
        part_set(
            chain, program, at, base, m, env, e, args@[0], args@[1], slot, scope, st, rounds,
        )
    } else {
        running(at, m)
    }
}

/// `push`.
proof fn sim_array_push(
    chain: Chain,
    program: Seq<Instr>,
    at: nat,
    base: nat,
    m: Machine,
    env: Env,
    e: Expr,
    scope: Scope,
    st: Store,
    rounds: nat,
) -> (t: State)
    requires
        ready(program, at, base, array_push(env, e, scope).code, m, scope, st),
    ensures
        reaches(chain, program, running(at, m), t),
        delivers(
            t,
            eval_array_push(chain, env, e, scope, st, rounds),
            at + array_push(env, e, scope).code.program.instrs.len(),
            m.stack,
        ),
    decreases depth(env), e, 0nat, 8nat,
{
    if let Expr::MethodCall(receiver, _, args) = e {
        if let Ok(field) = field_of(env.contract, *receiver) {
            if args@.len() == 1 {
                let slot = field.slot as nat;
                let value = expression(env, args@[0], scope);
                split_code(program, at, base, value.code, array_push_code(slot));
                let t = sim_expression(
                    chain, program, at, base, m, env, args@[0], scope, st, rounds,
                );
                let o = eval_expression(chain, env, args@[0], scope, st, rounds);
                step_push(chain, program, at, base, m, value.code, slot, o, t)
            } else {
                running(at, m)
            }
        } else {
            running(at, m)
        }
    } else {
        running(at, m)
    }
}

/// `require`.
proof fn sim_requirement(
    chain: Chain,
    program: Seq<Instr>,
    at: nat,
    base: nat,
    m: Machine,
    env: Env,
    e: Expr,
    scope: Scope,
    st: Store,
    rounds: nat,
) -> (t: State)
    requires
        ready(program, at, base, requirement(env, e, scope).code, m, scope, st),
    ensures
        reaches(chain, program, running(at, m), t),
        delivers(
            t,
            eval_requirement(chain, env, e, scope, st, rounds),
            at + requirement(env, e, scope).code.program.instrs.len(),
            m.stack,
        ),
    decreases depth(env), e, 0nat, 8nat,
{
    if let Expr::Call(_, args) = e {
        if args@.len() > 0 {
            let cond = expression(env, args@[0], scope);
            split_two(program, at, base, cond.code, guard_code());
            let t = sim_expression(
                chain, program, at, base, m, env, args@[0], scope, st, rounds,
            );
            let o = eval_expression(chain, env, args@[0], scope, st, rounds);
            step_requirement(chain, program, at, base, m, cond.code, o, t)
        } else {
            running(at, m)
        }
    } else {
        running(at, m)
    }
}

/// The values of the fields of an event.
proof fn sim_event_values(
    chain: Chain,
    program: Seq<Instr>,
    at: nat,
    base: nat,
    m: Machine,
    env: Env,
    literal: Seq<FieldValue>,
    fields: Seq<EventParameter>,
    k: nat,
    scope: Scope,
    st: Store,
    rounds: nat,
) -> (t: State)
    requires
        ready(program, at, base, event_values(env, literal, fields, k, scope).code, m, scope, st),
    ensures
        reaches(chain, program, running(at, m), t),
        delivers(
            t,
            eval_event_values(chain, env, literal, fields, k, scope, st, rounds),
            at + event_values(env, literal, fields, k, scope).code.program.instrs.len(),
            m.stack,
        ),
    decreases depth(env), literal, k, 0nat,
{
    if k == 0 {
        lemma_reaches_self(chain, program, running(at, m));
        assert(m.stack + Seq::<nat>::empty() =~= m.stack);
        running(at, m)
    } else {
        let j = (k - 1) as nat;
        let before = event_part(env, literal, fields, j, scope);
        unfold_event_values(chain, env, literal, fields, k, scope, st, rounds);
        let i = literal_field(literal, fields[k - 1].name, literal.len())->Some_0;
        let e = literal[i as int].value;
        let last = expression_part(env, e, before.scope);
        split_two(program, at, base, before.code, last.code);
        let t = part_event(
            chain, program, at, base, m, env, literal, fields, j, scope, st, rounds,
        );
        match event_outcome(chain, env, literal, fields, j, scope, st, rounds) {
            Outcome::Values(vs, st1) => {
                let here = at + before.code.program.instrs.len();
                let u = part_expression(
                    chain,
                    program,
                    here,
                    base + before.code.program.labels,
                    t.machine,
                    env,
                    e,
                    before.scope,
                    st1,
                    rounds,
                );
                lemma_reaches_trans(chain, program, running(at, m), t, u);
                if let Outcome::Value(v, st2) = expression_outcome(
                    chain, env, e, before.scope, st1, rounds,
                ) {
                    lemma_one_more_value(
                        u, vs, v, st2, here + last.code.program.instrs.len(), m.stack,
                    );
                }
                u
            },
            _ => t,
        }
    }
}

/// As many values as fields.
pub proof fn lemma_event_values_len(
    chain: Chain,
    env: Env,
    literal: Seq<FieldValue>,
    fields: Seq<EventParameter>,
    k: nat,
    scope: Scope,
    st: Store,
    rounds: nat,
)
    ensures
        eval_event_values(chain, env, literal, fields, k, scope, st, rounds) matches
            Outcome::Values(vs, _) ==> vs.len() == k,
    decreases k,
{
    if k > 0 {
        lemma_event_values_len(
            chain, env, literal, fields, (k - 1) as nat, scope, st, rounds,
        );
    }
}

/// `emit`, over its parts.
proof fn part_emission(
    chain: Chain,
    program: Seq<Instr>,
    at: nat,
    base: nat,
    m: Machine,
    env: Env,
    e: Expr,
    scope: Scope,
    st: Store,
    rounds: nat,
) -> (t: State)
    requires
        ready(program, at, base, emission_part(env, e, scope), m, scope, st),
    ensures
        reaches(chain, program, running(at, m), t),
        delivers(
            t,
            emission_outcome(chain, env, e, scope, st, rounds),
            at + emission_part(env, e, scope).program.instrs.len(),
            m.stack,
        ),
    decreases depth(env), e, 0nat, 7nat,
{
    unfold_emission(chain, env, e, scope, st, rounds);
    if let Expr::Call(_, args) = e {
        if let Expr::Struct(name, literal) = args@[0] {
            let event = lookup(env.contract.events, name@)->Some_0;
            let sig = signature(event.name, event.params())->Ok_0;
            let k = event.fields.len();
            let first = data_place(event_part(env, literal@, event.fields, k, scope).scope, k);
            lemma_data_place(env, literal@, event.fields, k, scope);
            part_log(
                chain,
                program,
                at,
                base,
                m,
                env,
                literal@,
                event.fields,
                sig,
                first,
                scope,
                st,
                rounds,
            )
        } else {
            running(at, m)
        }
    } else {
        running(at, m)
    }
}

/// `emit`.
proof fn sim_emission(
    chain: Chain,
    program: Seq<Instr>,
    at: nat,
    base: nat,
    m: Machine,
    env: Env,
    e: Expr,
    scope: Scope,
    st: Store,
    rounds: nat,
) -> (t: State)
    requires
        ready(program, at, base, emission(env, e, scope).code, m, scope, st),
    ensures
        reaches(chain, program, running(at, m), t),
        delivers(
            t,
            eval_emission(chain, env, e, scope, st, rounds),
            at + emission(env, e, scope).code.program.instrs.len(),
            m.stack,
        ),
    decreases depth(env), e, 0nat, 8nat,
{
    reveal(emission_part);
    reveal(emission_outcome);
    part_emission(chain, program, at, base, m, env, e, scope, st, rounds)
}

/// `if`.
proof fn sim_conditional(
    chain: Chain,
    program: Seq<Instr>,
    at: nat,
    base: nat,
    m: Machine,
    env: Env,
    e: Expr,
    scope: Scope,
    st: Store,
    rounds: nat,
) -> (t: State)
    requires
        ready(program, at, base, conditional(env, e, scope).code, m, scope, st),
    ensures
        reaches(chain, program, running(at, m), t),
        delivers(
            t,
            eval_conditional(chain, env, e, scope, st, rounds),
            at + conditional(env, e, scope).code.program.instrs.len(),
            m.stack,
        ),
    decreases depth(env), e, 0nat, 8nat,
{
    if let Expr::If(cond, body, otherwise) = e {
        unfold_conditional(chain, env, e, scope, st, rounds);
        match otherwise {
            None => part_if(
                chain, program, at, base, m, env, e, *cond, body@, scope, st, rounds,
            ),
            Some(other) => part_if_else(
                chain, program, at, base, m, env, e, *cond, body@, *other, scope, st, rounds,
            ),
        }
    } else {
        running(at, m)
    }
}

/// `while`.
proof fn sim_repetition(
    chain: Chain,
    program: Seq<Instr>,
    at: nat,
    base: nat,
    m: Machine,
    env: Env,
    e: Expr,
    scope: Scope,
    st: Store,
    rounds: nat,
) -> (t: State)
    requires
        ready(program, at, base, repetition(env, e, scope).code, m, scope, st),
    ensures
        reaches(chain, program, running(at, m), t),
        delivers(
            t,
            eval_repetition(chain, env, e, scope, st, rounds, rounds),
            at + repetition(env, e, scope).code.program.instrs.len(),
            m.stack,
        ),
    decreases depth(env), e, rounds + 1, 8nat,
{
    if let Expr::While(cond, body) = e {
        unfold_loop(chain, env, e, *cond, body@, scope, st, rounds, rounds);
        let test = expression_part(env, *cond, scope);
        let inner = block_part(env, body@, Tail::Void, test.scope);
        step_loop_enter(chain, program, at, base, m, test.code, inner.code);
        let t = part_rounds(
            chain, program, at, base, m, env, e, *cond, body@, scope, st, rounds, rounds,
        );
        reveal(loop_outcome);
        lemma_reaches_trans(chain, program, running(at, m), running(at + 1, m), t);
        t
    } else {
        running(at, m)
    }
}

/// An expression.
proof fn sim_expression(
    chain: Chain,
    program: Seq<Instr>,
    at: nat,
    base: nat,
    m: Machine,
    env: Env,
    e: Expr,
    scope: Scope,
    st: Store,
    rounds: nat,
) -> (t: State)
    requires
        ready(program, at, base, expression(env, e, scope).code, m, scope, st),
    ensures
        reaches(chain, program, running(at, m), t),
        delivers(
            t,
            eval_expression(chain, env, e, scope, st, rounds),
            at + expression(env, e, scope).code.program.instrs.len(),
            m.stack,
        ),
    decreases depth(env), e, 0nat, 5nat,
{
    lemma_opcodes();
    match e {
        Expr::Int(value) => {
            if let Some(v) = value {
                lemma_number_pieces_label_free(v as nat);
                lemma_sits_plain(program, at, base, seq![push_number(v as nat)]);
                run_push(chain, program, at, v as nat, m);
                lemma_related_stack(st, m, m.pushed(v as nat));
                running(at + 1, m.pushed(v as nat))
            } else {
                running(at, m)
            }
        },
        Expr::Bool(b) => {
            let v = flag(b);
            lemma_number_pieces_label_free(v);
            lemma_sits_plain(program, at, base, seq![push_number(v)]);
            run_push(chain, program, at, v, m);
            lemma_related_stack(st, m, m.pushed(v));
            running(at + 1, m.pushed(v))
        },
        Expr::Str(text) => {
            let v = be_value(packed(encode_utf8(text@)));
            lemma_packed_bound(encode_utf8(text@));
            lemma_number_pieces_label_free(v);
            lemma_sits_plain(program, at, base, seq![push_number(v)]);
            run_push(chain, program, at, v, m);
            lemma_related_stack(st, m, m.pushed(v));
            running(at + 1, m.pushed(v))
        },
        Expr::Field(inner, member) => {
            if let Ok(slot) = slot_of(env.contract, member) {
                lemma_number_pieces_label_free(slot as nat);
                lemma_sits_plain(program, at, base, seq![push_number(slot as nat), Op::SLoad@]);
                run_load_slot(chain, program, at, slot as nat, m, st)
            } else {
                running(at, m)
            }
        },
        Expr::MethodCall(receiver, method, args) => {
            if interface_of(env.contract, *receiver) is Some {
                sim_interface_call(chain, program, at, base, m, env, e, true, scope, st, rounds)
            } else if self_path(*receiver) && lookup(
                env.contract.internal_functions,
                method@,
            ) is Some {
                sim_internal_call(chain, program, at, base, m, env, e, true, scope, st, rounds)
            } else if method@ == "get"@ {
                sim_get_value(chain, program, at, base, m, env, e, scope, st, rounds)
            } else if method@ == "len"@ {
                if let Ok(field) = field_of(env.contract, *receiver) {
                    let slot = field.slot as nat;
                    lemma_number_pieces_label_free(slot);
                    lemma_sits_plain(program, at, base, seq![push_number(slot), Op::SLoad@]);
                    run_load_slot(chain, program, at, slot, m, st)
                } else {
                    running(at, m)
                }
            } else {
                running(at, m)
            }
        },
        Expr::Binary(op, left, right) => sim_binary(
            chain, program, at, base, m, env, e, scope, st, rounds,
        ),
        Expr::Paren(inner) => sim_expression(
            chain, program, at, base, m, env, *inner, scope, st, rounds,
        ),
        Expr::Call(func, args) => sim_call(chain, program, at, base, m, *func, args@, st),
        Expr::Ident(name) => sim_identifier(chain, program, at, base, m, name@, scope, st),
        _ => running(at, m),
    }
}

/// A call in an expression.
proof fn sim_call(
    chain: Chain,
    program: Seq<Instr>,
    at: nat,
    base: nat,
    m: Machine,
    func: Expr,
    args: Seq<Expr>,
    st: Store,
) -> (t: State)
    requires
        sits(program, at, base, call_code(func, args).program),
        clean(call_code(func, args)),
        related(st, m),
    ensures
        reaches(chain, program, running(at, m), t),
        delivers(
            t,
            match call_value(chain, func, args) {
                Some(v) => Outcome::Value(v, st),
                None => Outcome::Unfinished,
            },
            at + call_code(func, args).program.instrs.len(),
            m.stack,
        ),
{
    lemma_opcodes();
    if path_is(func, "msg_sender"@) {
        let v = word(chain.caller as int);
        lemma_sits_plain(program, at, base, seq![Op::Caller@]);
        lemma_holds_index(program, at, seq![Op::Caller@], 0);
        op_caller(chain, m);
        run_one(chain, program, at, Op::Caller@, m, m.pushed(v));
        lemma_related_stack(st, m, m.pushed(v));
        running(at + 1, m.pushed(v))
    } else if path_is(func, "address_this"@) {
        let v = word(chain.address as int);
        lemma_sits_plain(program, at, base, seq![Op::Address@]);
        lemma_holds_index(program, at, seq![Op::Address@], 0);
        op_address(chain, m);
        run_one(chain, program, at, Op::Address@, m, m.pushed(v));
        lemma_related_stack(st, m, m.pushed(v));
        running(at + 1, m.pushed(v))
    } else if path_is(func, "block_timestamp"@) {
        let v = word(chain.timestamp as int);
        lemma_sits_plain(program, at, base, seq![Op::Timestamp@]);
        lemma_holds_index(program, at, seq![Op::Timestamp@], 0);
        op_timestamp(chain, m);
        run_one(chain, program, at, Op::Timestamp@, m, m.pushed(v));
        lemma_related_stack(st, m, m.pushed(v));
        running(at + 1, m.pushed(v))
    } else {
        let v = (args[0]->Int_0)->Some_0 as nat;
        lemma_number_pieces_label_free(v);
        lemma_sits_plain(program, at, base, seq![push_number(v)]);
        run_push(chain, program, at, v, m);
        lemma_related_stack(st, m, m.pushed(v));
        running(at + 1, m.pushed(v))
    }
}

/// A variable.
proof fn sim_identifier(
    chain: Chain,
    program: Seq<Instr>,
    at: nat,
    base: nat,
    m: Machine,
    name: Seq<char>,
    scope: Scope,
    st: Store,
) -> (t: State)
    requires
        sits(program, at, base, identifier_code(name, scope).program),
        clean(identifier_code(name, scope)),
        related(st, m),
        scope_ok(scope),
    ensures
        reaches(chain, program, running(at, m), t),
        delivers(
            t,
            match variable(chain, name, scope, st) {
                Some(v) => Outcome::Value(v, st),
                None => Outcome::Unfinished,
            },
            at + identifier_code(name, scope).program.instrs.len(),
            m.stack,
        ),
{
    lemma_opcodes();
    if let Some(offset) = lookup(scope.locals, name) {
        let n = offset as nat;
        lemma_number_pieces_label_free(n);
        lemma_sits_plain(program, at, base, seq![push_number(n), Op::MLoad@]);
        lemma_local_is_cell(scope, name);
        op_mload(chain, m, n);
        lemma_load_bytes(m.memory, n as int);
        lemma_related_load(st, m, n);
        let next = m.pushed(st.cell(n));
        run_push_op(chain, program, at, n, Op::MLoad@, m, next);
        lemma_related_stack(st, m, next);
        running(at + 2, next)
    } else {
        let n = lookup(scope.params, name)->Some_0 as nat;
        lemma_number_pieces_label_free(n);
        lemma_sits_plain(program, at, base, seq![push_number(n), Op::CallDataLoad@]);
        op_calldataload(chain, m, n);
        lemma_calldata_bound(chain, n);
        let next = m.pushed(calldata_word(chain, n));
        run_push_op(chain, program, at, n, Op::CallDataLoad@, m, next);
        lemma_related_stack(st, m, next);
        running(at + 2, next)
    }
}

/// `get`.
proof fn sim_get_value(
    chain: Chain,
    program: Seq<Instr>,
    at: nat,
    base: nat,
    m: Machine,
    env: Env,
    e: Expr,
    scope: Scope,
    st: Store,
    rounds: nat,
) -> (t: State)
    requires
        ready(program, at, base, get_value(env, e, scope).code, m, scope, st),
    ensures
        reaches(chain, program, running(at, m), t),
        delivers(
            t,
            (match eval_place(chain, env, e, scope, st, rounds) {
                Outcome::Value(slot, after) => Outcome::Value(
                    slot_value(after.storage, slot),
                    after,
                ),
                other => bail(other),
            }),
            at + get_value(env, e, scope).code.program.instrs.len(),
            m.stack,
        ),
    decreases depth(env), e, 0nat, 4nat,
{
    let target = place(env, e, scope);
    lemma_opcodes();
    lemma_pieces_label_free();
    match target.place {
        Err(_) => running(at, m),
        Ok((code, ty)) => {
            lemma_sits_code(program, at, base, code.program, seq![Op::SLoad@]);
            let t = sim_place(chain, program, at, base, m, env, e, scope, st, rounds);
            match eval_place(chain, env, e, scope, st, rounds) {
                Outcome::Value(slot, st1) => {
                    let end = at + code.program.instrs.len();
                    lemma_holds_index(program, end, seq![Op::SLoad@], 0);
                    let m0 = with_stack(t.machine, m.stack);
                    assert(m0.pushed(slot).stack =~= t.machine.stack);
                    lemma_related_parts(st1, t.machine);
                    op_sload(chain, m0, slot);
                    let next = m0.pushed(slot_value(m0.storage, slot));
                    run_one(chain, program, end, Op::SLoad@, t.machine, next);
                    lemma_related_stack(st1, t.machine, next);
                    lemma_reaches_trans(
                        chain, program, running(at, m), t, running(end + 1, next),
                    );
                    running(end + 1, next)
                },
                _ => t,
            }
        },
    }
}

/// `left op right`.
proof fn sim_binary(
    chain: Chain,
    program: Seq<Instr>,
    at: nat,
    base: nat,
    m: Machine,
    env: Env,
    e: Expr,
    scope: Scope,
    st: Store,
    rounds: nat,
) -> (t: State)
    requires
        ready(program, at, base, binary(env, e, scope).code, m, scope, st),
    ensures
        reaches(chain, program, running(at, m), t),
        delivers(
            t,
            eval_binary(chain, env, e, scope, st, rounds),
            at + binary(env, e, scope).code.program.instrs.len(),
            m.stack,
        ),
    decreases depth(env), e, 0nat, 4nat,
{
    unfold_binary(chain, env, e, scope, st, rounds);
    if let Expr::Binary(op, left, right) = e {
        lemma_expression_part_scope(env, *left, scope);
        let inner = expression_part(env, *left, scope).scope;
        if right_first(op) {
            part_operands(
                chain, program, at, base, m, env, e, op, *right, inner, *left, scope, st, rounds,
            )
        } else {
            part_operands(
                chain, program, at, base, m, env, e, op, *left, scope, *right, inner, st, rounds,
            )
        }
    } else {
        running(at, m)
    }
}

/// A place in storage.
proof fn sim_place(
    chain: Chain,
    program: Seq<Instr>,
    at: nat,
    base: nat,
    m: Machine,
    env: Env,
    e: Expr,
    scope: Scope,
    st: Store,
    rounds: nat,
) -> (t: State)
    requires
        place(env, e, scope).place is Ok,
        ready(program, at, base, (place(env, e, scope).place->Ok_0).0, m, scope, st),
    ensures
        reaches(chain, program, running(at, m), t),
        delivers(
            t,
            eval_place(chain, env, e, scope, st, rounds),
            at + (place(env, e, scope).place->Ok_0).0.program.instrs.len(),
            m.stack,
        ),
    decreases depth(env), e, 0nat, 2nat,
{
    match e {
        Expr::Field(inner, member) => {
            let slot = slot_of(env.contract, member)->Ok_0 as nat;
            lemma_number_pieces_label_free(slot);
            lemma_sits_plain(program, at, base, seq![push_number(slot)]);
            run_push(chain, program, at, slot, m);
            lemma_related_stack(st, m, m.pushed(slot));
            running(at + 1, m.pushed(slot))
        },
        Expr::MethodCall(receiver, method, args) => {
            unfold_place_get(chain, env, e, scope, st, rounds);
            part_place_get(
                chain, program, at, base, m, env, e, *receiver, args@[0], scope, st, rounds,
            )
        },
        _ => running(at, m),
    }
}

/// The arguments of a call of another contract.
proof fn sim_foreign_arguments(
    chain: Chain,
    program: Seq<Instr>,
    at: nat,
    base: nat,
    m: Machine,
    env: Env,
    args: Seq<Expr>,
    k: nat,
    buffer: u32,
    scope: Scope,
    st: Store,
    rounds: nat,
) -> (t: State)
    requires
        is_cell(buffer as nat),
        ready(
            program,
            at,
            base,
            foreign_arguments(env, args, k, buffer, scope).code,
            m,
            scope,
            st,
        ),
    ensures
        reaches(chain, program, running(at, m), t),
        delivers(
            t,
            eval_foreign_arguments(chain, env, args, k, buffer, scope, st, rounds),
            at + foreign_arguments(env, args, k, buffer, scope).code.program.instrs.len(),
            m.stack,
        ),
    decreases depth(env), args, k, 0nat,
{
    if k == 0 || k > args.len() {
        lemma_reaches_self(chain, program, running(at, m));
        running(at, m)
    } else {
        let j = (k - 1) as nat;
        let before = arguments_part(env, args, j, buffer, scope);
        unfold_arguments(chain, env, args, k, buffer, scope, st, rounds);
        let offset = (buffer + 32 * k) as nat;
        split_two(
            program,
            at,
            base,
            before.code,
            stored_part(env, args[k - 1], offset, Op::MStore@, before.scope),
        );
        let t = part_arguments(
            chain, program, at, base, m, env, args, j, buffer, scope, st, rounds,
        );
        match arguments_outcome(chain, env, args, j, buffer, scope, st, rounds) {
            Outcome::Next(st1) => {
                let u = part_store_cell(
                    chain,
                    program,
                    at + before.code.program.instrs.len(),
                    base + before.code.program.labels,
                    t.machine,
                    env,
                    args[k - 1],
                    offset,
                    before.scope,
                    st1,
                    rounds,
                );
                lemma_reaches_trans(chain, program, running(at, m), t, u);
                u
            },
            _ => t,
        }
    }
}

/// A call of another contract.
proof fn sim_interface_call(
    chain: Chain,
    program: Seq<Instr>,
    at: nat,
    base: nat,
    m: Machine,
    env: Env,
    e: Expr,
    want_value: bool,
    scope: Scope,
    st: Store,
    rounds: nat,
) -> (t: State)
    requires
        ready(program, at, base, interface_call(env, e, want_value, scope).code, m, scope, st),
    ensures
        reaches(chain, program, running(at, m), t),
        delivers(
            t,
            eval_interface_call(chain, env, e, want_value, scope, st, rounds),
            at + interface_call(env, e, want_value, scope).code.program.instrs.len(),
            m.stack,
        ),
    decreases depth(env), e, 0nat, 4nat,
{
    unfold_interface_call(chain, env, e, want_value, scope, st, rounds);
    if let Expr::MethodCall(receiver, method, args) = e {
        let methods = interface_of(env.contract, *receiver)->Some_0;
        if let Expr::Call(_, targets) = *receiver {
            let callee = lookup(methods, method@)->Some_0;
            part_interface_call(
                chain, program, at, base, m, env, e, *receiver, targets@[0], args@, callee,
                want_value, scope, st, rounds,
            )
        } else {
            running(at, m)
        }
    } else {
        running(at, m)
    }
}

/// Compiled blocks do what they mean: from a machine that stands for a store, the code gets to a
/// machine that stands for the store that the block leaves, or halts as the block does.
pub proof fn law_block_correct(
    chain: Chain,
    program: Seq<Instr>,
    at: nat,
    base: nat,
    m: Machine,
    env: Env,
    stmts: Seq<Stmt>,
    tail: Tail,
    scope: Scope,
    st: Store,
    rounds: nat,
) -> (t: State)
    requires
        ready(program, at, base, block(env, stmts, tail, scope).code, m, scope, st),
    ensures
        reaches(chain, program, running(at, m), t),
        delivers(
            t,
            eval_block(chain, env, stmts, tail, scope, st, rounds),
            at + block(env, stmts, tail, scope).code.program.instrs.len(),
            m.stack,
        ),
{
    sim_block(chain, program, at, base, m, env, stmts, tail, scope, st, rounds)
}

/// Compiled expressions do what they mean: the code leaves the value on the stack.
pub proof fn law_expression_correct(
    chain: Chain,
    program: Seq<Instr>,
    at: nat,
    base: nat,
    m: Machine,
    env: Env,
    e: Expr,
    scope: Scope,
    st: Store,
    rounds: nat,
) -> (t: State)
    requires
        ready(program, at, base, expression(env, e, scope).code, m, scope, st),
    ensures
        reaches(chain, program, running(at, m), t),
        delivers(
            t,
            eval_expression(chain, env, e, scope, st, rounds),
            at + expression(env, e, scope).code.program.instrs.len(),
            m.stack,
        ),
{
    sim_expression(chain, program, at, base, m, env, e, scope, st, rounds)
}

} // verus!
