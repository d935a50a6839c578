//! The laws of whole contracts: the bytecode of a compiled contract, once deployed, answers calls
//! as its functions mean.

use vstd::prelude::*;
use vstd::utf8::encode_utf8;

use crate::abi::signature;
use crate::arguments::{run_constructor_params, run_function_params};
use crate::assembler::{
    assembled, code_len, encodable, label_table, lemma_encode_all_len, relocate_all, Instr, Op,
    Program,
};
use crate::ast::{Item, Stmt, Type};
use crate::bytes::{be_value, lemma_be_value_zeros, zeros};
use crate::code::Fragment;
use crate::contract::{combinable, creation_code, deployable, init_code, init_len, runtime, Entry};
use crate::correct::law_block_correct;
use crate::dispatch::{
    body_base, body_place, law_dispatch, law_runtime_tidy, law_selects, law_unknown_selector,
    selects, selects_first, selects_none, tidy_bodies,
};
use crate::effects::{holds, lemma_opcodes, op_codecopy, op_return, op_stop};
use crate::errors::Fault;
use crate::keccak::keccak256_digest;
use crate::layout::{address, all_genuine, in_code, law_bytecode_runs_program, starts_with};
use crate::machine::{
    after_call, bytes_at, code_reaches, effect, halted, lemma_code_reaches_step,
    lemma_code_reaches_trans, lemma_reaches_self, lemma_reaches_step, lemma_reaches_trans,
    lemma_run_code_add, load, padded, reaches, run_code, running, step, written, Chain, Ledger, Log,
    Machine, State, Status, Storage,
};
use crate::meaning::{
    bail, eval_block, eval_constructor, eval_constructor_params, eval_function,
    eval_function_params, initial_store, left_by, Outcome, Store,
};
use crate::model::{Contract, Env, Scope};
use crate::module::{
    all_errors, bodies, compiled, creation_fragment, declared, entry_points, has_full_selectors,
    lemma_signatures_len, programs_of, signatures, Constructor, Declared, External,
};
use crate::scheme::{
    block, constructor_code, constructor_params, function_code, function_params, outer_env,
    string_result, Tail,
};
use crate::shape::{
    is_cell, law_constructor_tidy, law_function_tidy, lemma_initial_scope, lemma_pieces_label_free,
    scope_ok, sound_constructor_params, sound_function_params, tidy, unique_dests,
};
use crate::simulate::{
    clean, delivers, lemma_holds_index, lemma_operands_narrow, lemma_related_intro,
    lemma_related_parts, lemma_sits_code, lemma_sits_followed, narrow, related, sits,
};
use crate::steps::ready;

verus! {

/// Whether an outcome is the end of a call: data, a revert, or the end of a function without a
/// result. One that is not comes from a loop that takes more rounds than were allowed, from another
/// contract that replied with less than a word where a word was asked for, or from a function with
/// a result whose block has no value.
pub open spec fn settled(outcome: Outcome, output: Option<Type>) -> bool {
    outcome is Returned || outcome is Reverted || (outcome is Next && output is None)
}

/// Whether a call that began with a ledger and came to a state has ended with the given outcome,
/// and leaves behind what the outcome does: nothing new, if it reverted. A function without a
/// result stops at its end. Of an outcome that is not settled nothing is said.
pub open spec fn finishes(
    before: Ledger,
    t: State,
    outcome: Outcome,
    output: Option<Type>,
) -> bool {
    settled(outcome, output) ==> {
        &&& after_call(before, t) == left_by(before, outcome)
        &&& match outcome {
            Outcome::Returned(data, _) => t.status == Status::Returned(data),
            Outcome::Reverted => t.status == Status::Reverted(Seq::empty()),
            _ => t.status == Status::Stopped,
        }
    }
}

/// The code of the block of a function, as proofs about the code around it see it.
#[verifier::opaque]
spec fn body_part(env: Env, stmts: Seq<Stmt>, tail: Tail, scope: Scope) -> Fragment {
    block(env, stmts, tail, scope).code
}

/// The meaning of the block of a function, as proofs about the code around it see it.
#[verifier::opaque]
spec fn body_outcome(
    chain: Chain,
    env: Env,
    stmts: Seq<Stmt>,
    tail: Tail,
    scope: Scope,
    st: Store,
    rounds: nat,
) -> Outcome {
    eval_block(chain, env, stmts, tail, scope, st, rounds)
}

/// The block of a function.
proof fn part_body(
    chain: Chain,
    program: Seq<Instr>,
    at: nat,
    base: nat,
    m: Machine,
    env: Env,
    stmts: Seq<Stmt>,
    tail: Tail,
    scope: Scope,
    st: Store,
    rounds: nat,
) -> (t: State)
    requires
        ready(program, at, base, body_part(env, stmts, tail, scope), m, scope, st),
    ensures
        reaches(chain, program, running(at, m), t),
        delivers(
            t,
            body_outcome(chain, env, stmts, tail, scope, st, rounds),
            at + body_part(env, stmts, tail, scope).program.instrs.len(),
            m.stack,
        ),
{
    reveal(body_part);
    reveal(body_outcome);
    law_block_correct(chain, program, at, base, m, env, stmts, tail, scope, st, rounds)
}

/// What becomes of the parameters of a function: its block runs.
spec fn then_body(
    chain: Chain,
    env: Env,
    stmts: Seq<Stmt>,
    tail: Tail,
    scope: Scope,
    o: Outcome,
    rounds: nat,
) -> Outcome {
    match o {
        Outcome::Next(st) => body_outcome(chain, env, stmts, tail, scope, st, rounds),
        other => bail(other),
    }
}

/// A block that runs after other code.
proof fn run_block_behind(
    chain: Chain,
    program: Seq<Instr>,
    at: nat,
    base: nat,
    m: Machine,
    start: Fragment,
    o: Outcome,
    t: State,
    env: Env,
    stmts: Seq<Stmt>,
    tail: Tail,
    scope: Scope,
    rounds: nat,
) -> (u: State)
    requires
        unique_dests(program),
        narrow(program),
        sits(program, at, base, start.followed_by(body_part(env, stmts, tail, scope)).program),
        clean(start.followed_by(body_part(env, stmts, tail, scope))),
        scope_ok(scope),
        reaches(chain, program, running(at, m), t),
        delivers(t, o, at + start.program.instrs.len(), m.stack),
    ensures
        reaches(chain, program, running(at, m), u),
        delivers(
            u,
            then_body(chain, env, stmts, tail, scope, o, rounds),
            at + start.followed_by(body_part(env, stmts, tail, scope)).program.instrs.len(),
            m.stack,
        ),
{
    lemma_sits_followed(program, at, base, start, body_part(env, stmts, tail, scope));
    match o {
        Outcome::Next(st) => {
            let u = part_body(
                chain,
                program,
                at + start.program.instrs.len(),
                base + start.program.labels,
                t.machine,
                env,
                stmts,
                tail,
                scope,
                st,
                rounds,
            );
            lemma_reaches_trans(chain, program, running(at, m), t, u);
            u
        },
        _ => t,
    }
}

/// The end of a function without a result.
proof fn run_stop(
    chain: Chain,
    program: Seq<Instr>,
    at: nat,
    base: nat,
    m: Machine,
    body: Fragment,
    before: Ledger,
    o: Outcome,
    t: State,
) -> (u: State)
    requires
        sits(program, at, base, body.with_code(seq![Op::Stop@]).program),
        reaches(chain, program, running(at, m), t),
        delivers(t, o, at + body.program.instrs.len(), m.stack),
    ensures
        reaches(chain, program, running(at, m), u),
        finishes(before, u, o, None),
{
    lemma_pieces_label_free();
    lemma_sits_code(program, at, base, body.program, seq![Op::Stop@]);
    match o {
        Outcome::Next(st) => {
            lemma_opcodes();
            lemma_holds_index(program, at + body.program.instrs.len(), seq![Op::Stop@], 0);
            op_stop(chain, t.machine);
            lemma_reaches_step(chain, program, t);
            lemma_related_parts(st, t.machine);
            let u = step(chain, program, t);
            lemma_reaches_trans(chain, program, running(at, m), t, u);
            u
        },
        _ => t,
    }
}

/// Compiled functions do what they mean.
pub proof fn law_function_correct(
    chain: Chain,
    program: Seq<Instr>,
    at: nat,
    base: nat,
    m: Machine,
    contract: Contract,
    x: External,
    before: Ledger,
    st: Store,
    rounds: nat,
) -> (t: State)
    requires
        unique_dests(program),
        narrow(program),
        sits(
            program,
            at,
            base,
            function_code(contract, x.params, x.output, x.block).program,
        ),
        clean(function_code(contract, x.params, x.output, x.block)),
        related(st, m),
    ensures
        reaches(chain, program, running(at, m), t),
        finishes(
            before,
            t,
            eval_function(chain, contract, x.params, x.output, x.block, st, rounds),
            x.output,
        ),
{
    let env = outer_env(contract, string_result(x.output));
    let n = x.params.len();
    let start = function_params(x.params, n, Scope::initial());
    let tail = if x.output is Some {
        Tail::Return
    } else {
        Tail::Void
    };
    let body = start.code.followed_by(body_part(env, x.block, tail, start.scope));
    reveal(body_part);
    reveal(body_outcome);
    lemma_initial_scope();
    sound_function_params(x.params, n, Scope::initial());
    if x.output is None {
        lemma_sits_code(program, at, base, body.program, seq![Op::Stop@]);
    }
    lemma_sits_followed(
        program,
        at,
        base,
        start.code,
        body_part(env, x.block, tail, start.scope),
    );
    let t = run_function_params(
        chain,
        program,
        at,
        base,
        m,
        x.params,
        n,
        Scope::initial(),
        st,
    );
    let o = eval_function_params(chain, x.params, n, Scope::initial(), st);
    let u = run_block_behind(
        chain,
        program,
        at,
        base,
        m,
        start.code,
        o,
        t,
        env,
        x.block,
        tail,
        start.scope,
        rounds,
    );
    if x.output is None {
        let outcome = eval_function(chain, contract, x.params, x.output, x.block, st, rounds);
        run_stop(chain, program, at, base, m, body, before, outcome, u)
    } else {
        u
    }
}

/// Compiled constructors do what they mean, and run to their end.
pub proof fn law_constructor_correct(
    chain: Chain,
    program: Seq<Instr>,
    at: nat,
    base: nat,
    m: Machine,
    contract: Contract,
    c: Constructor,
    st: Store,
    rounds: nat,
) -> (t: State)
    requires
        unique_dests(program),
        narrow(program),
        sits(program, at, base, constructor_code(contract, c.params, c.block).program),
        clean(constructor_code(contract, c.params, c.block)),
        related(st, m),
    ensures
        reaches(chain, program, running(at, m), t),
        delivers(
            t,
            eval_constructor(chain, contract, c.params, c.block, st, rounds),
            at + constructor_code(contract, c.params, c.block).program.instrs.len(),
            m.stack,
        ),
{
    let env = outer_env(contract, false);
    let n = c.params.len();
    let start = constructor_params(c.params, n, Scope::initial());
    reveal(body_part);
    reveal(body_outcome);
    lemma_initial_scope();
    sound_constructor_params(c.params, n, Scope::initial());
    lemma_sits_followed(
        program,
        at,
        base,
        start.code,
        body_part(env, c.block, Tail::Void, start.scope),
    );
    let t = run_constructor_params(
        chain,
        program,
        at,
        base,
        m,
        c.params,
        n,
        Scope::initial(),
        st,
    );
    let o = eval_constructor_params(chain, c.params, n, Scope::initial(), st);
    run_block_behind(
        chain,
        program,
        at,
        base,
        m,
        start.code,
        o,
        t,
        env,
        c.block,
        Tail::Void,
        start.scope,
        rounds,
    )
}

/// A machine at the start of a call: nothing on the stack, zeros in memory.
pub open spec fn fresh(storage: Storage, logs: Seq<Log>) -> Machine {
    Machine { stack: Seq::empty(), memory: |i: int| 0u8, storage, logs, calls: 0 }
}

/// A machine at the start of a call stands for a store without variables.
proof fn lemma_fresh(storage: Storage, logs: Seq<Log>)
    ensures
        related(initial_store(storage, logs), fresh(storage, logs)),
{
    let st = initial_store(storage, logs);
    let m = fresh(storage, logs);
    assert forall|at: nat| #![trigger st.cell(at)] is_cell(at) implies load(m.memory, at as int)
        == st.cell(at) by {
        assert(bytes_at(m.memory, at as int, 32) =~= zeros(32));
        lemma_be_value_zeros(32);
    }
    lemma_related_intro(st, m);
}

/// The entry points of a contract.
pub open spec fn contract_entries(d: Declared, sigs: Seq<Seq<char>>) -> Seq<Entry> {
    entry_points(sigs, programs_of(bodies(d)))
}

/// The bytecode that answers calls of a contract.
pub open spec fn runtime_code(d: Declared, sigs: Seq<Seq<char>>) -> Seq<u8> {
    assembled(runtime(contract_entries(d, sigs)).instrs)
}

/// Whether a module compiles, and what it declares.
pub open spec fn compiles(items: Seq<Item>, d: Declared, sigs: Seq<Seq<char>>) -> bool {
    &&& compiled(items) is Ok
    &&& declared(items, items.len()) == Ok::<Declared, Fault>(d)
    &&& signatures(d.externals, d.externals.len()) == Ok::<Seq<Seq<char>>, Fault>(sigs)
}

/// A fragment among some that have no faults has none.
proof fn lemma_no_errors(fragments: Seq<Fragment>, k: nat, i: int)
    requires
        k <= fragments.len(),
        all_errors(fragments, k).len() == 0,
        0 <= i < k,
    ensures
        clean(fragments[i]),
    decreases k,
{
    if i < k - 1 {
        lemma_no_errors(fragments, (k - 1) as nat, i);
    }
}

/// What is known of the entry points of a contract that compiles.
proof fn lemma_contract_entries(items: Seq<Item>, d: Declared, sigs: Seq<Seq<char>>)
    requires
        compiles(items, d, sigs),
    ensures
        sigs.len() == d.externals.len(),
        contract_entries(d, sigs).len() == d.externals.len(),
        tidy_bodies(contract_entries(d, sigs)),
        combinable(contract_entries(d, sigs)),
        encodable(runtime(contract_entries(d, sigs)).instrs),
        clean(creation_fragment(d)),
        encodable(creation_fragment(d).program.instrs),
        deployable(assembled(creation_fragment(d).program.instrs), runtime_code(d, sigs)),
        compiled(items)->Ok_0.deploy_code == creation_code(
            assembled(creation_fragment(d).program.instrs),
            runtime_code(d, sigs),
        ),
        forall|i: int|
            #![trigger contract_entries(d, sigs)[i]]
            0 <= i < d.externals.len() ==> {
                let x = d.externals[i];
                let code = function_code(d.contract, x.params, x.output, x.block);
                contract_entries(d, sigs)[i].body == code.program && clean(code)
            },
{
    let fns = contract_entries(d, sigs);
    let fragments = bodies(d);
    lemma_signatures_len(d.externals, d.externals.len());
    assert forall|i: int| #![trigger fns[i]] 0 <= i < d.externals.len() implies {
        let x = d.externals[i];
        let code = function_code(d.contract, x.params, x.output, x.block);
        fns[i].body == code.program && clean(code) && tidy(code.program)
    } by {
        let x = d.externals[i];
        assert(fragments[i] == function_code(d.contract, x.params, x.output, x.block));
        lemma_no_errors(fragments, fragments.len(), i);
        law_function_tidy(d.contract, x.params, x.output, x.block);
    }
}

/// The program that answers the calls of a contract has what bytecode and calls ask for.
proof fn lemma_runtime(items: Seq<Item>, d: Declared, sigs: Seq<Seq<char>>)
    requires
        compiles(items, d, sigs),
    ensures
        ({
            let instrs = runtime(contract_entries(d, sigs)).instrs;
            &&& unique_dests(instrs)
            &&& narrow(instrs)
            &&& all_genuine(instrs)
            &&& encodable(instrs)
            &&& starts_with(runtime_code(d, sigs), instrs)
        }),
{
    let fns = contract_entries(d, sigs);
    let instrs = runtime(fns).instrs;
    lemma_contract_entries(items, d, sigs);
    law_runtime_tidy(fns);
    lemma_operands_narrow(instrs);
    lemma_encode_all_len(instrs, label_table(instrs));
    assert(runtime_code(d, sigs).take(code_len(instrs) as int) =~= runtime_code(d, sigs));
}

/// A call of a compiled contract does what the called function means. The bytecode that answers
/// calls, run on the data of a call that names the function, ends as the function does: it returns
/// the same data, reverts, or stops, and leaves the same storage and log behind. A call that
/// reverts leaves storage and log as they were.
pub proof fn law_call(
    chain: Chain,
    items: Seq<Item>,
    d: Declared,
    sigs: Seq<Seq<char>>,
    k: nat,
    storage: Storage,
    logs: Seq<Log>,
    rounds: nat,
) -> (t: State)
    requires
        compiles(items, d, sigs),
        selects_first(chain, contract_entries(d, sigs), k as int),
    ensures
        ({
            let x = d.externals[k as int];
            let outcome = eval_function(
                chain,
                d.contract,
                x.params,
                x.output,
                x.block,
                initial_store(storage, logs),
                rounds,
            );
            settled(outcome, x.output) ==> {
                &&& code_reaches(
                    chain,
                    runtime_code(d, sigs),
                    running(0, fresh(storage, logs)),
                    t,
                )
                &&& finishes(Ledger { storage, logs }, t, outcome, x.output)
            }
        }),
{
    let fns = contract_entries(d, sigs);
    let instrs = runtime(fns).instrs;
    let m = fresh(storage, logs);
    let x = d.externals[k as int];
    let st = initial_store(storage, logs);
    lemma_contract_entries(items, d, sigs);
    lemma_runtime(items, d, sigs);
    lemma_fresh(storage, logs);
    law_dispatch(chain, fns, k, m);
    let start = running(body_place(fns, k), m);
    assert(fns[k as int].body == function_code(
        d.contract,
        x.params,
        x.output,
        x.block,
    ).program);
    let t = law_function_correct(
        chain,
        instrs,
        body_place(fns, k),
        body_base(fns, k),
        m,
        d.contract,
        x,
        Ledger { storage, logs },
        st,
        rounds,
    );
    lemma_reaches_trans(chain, instrs, running(0, m), start, t);
    let outcome = eval_function(
        chain,
        d.contract,
        x.params,
        x.output,
        x.block,
        st,
        rounds,
    );
    if settled(outcome, x.output) {
        assert(instrs.take(0).len() == 0);
        law_bytecode_runs_program(chain, runtime_code(d, sigs), instrs, running(0, m), t);
    }
    in_code(instrs, t)
}

/// A call of a compiled contract that names no external function reverts without data, and leaves
/// storage and log as they were.
pub proof fn law_unknown_call(
    chain: Chain,
    items: Seq<Item>,
    d: Declared,
    sigs: Seq<Seq<char>>,
    storage: Storage,
    logs: Seq<Log>,
) -> (t: State)
    requires
        compiles(items, d, sigs),
        selects_none(chain, contract_entries(d, sigs)),
    ensures
        code_reaches(chain, runtime_code(d, sigs), running(0, fresh(storage, logs)), t),
        t.status == Status::Reverted(Seq::empty()),
        t.machine.storage == storage,
        t.machine.logs == logs,
        after_call((Ledger { storage, logs }), t) == (Ledger { storage, logs }),
{
    let fns = contract_entries(d, sigs);
    let instrs = runtime(fns).instrs;
    let m = fresh(storage, logs);
    lemma_contract_entries(items, d, sigs);
    lemma_runtime(items, d, sigs);
    let t = law_unknown_selector(chain, fns, m);
    assert(instrs.take(0).len() == 0);
    law_bytecode_runs_program(chain, runtime_code(d, sigs), instrs, running(0, m), t);
    in_code(instrs, t)
}

/// The meaning of the constructor of a contract: where there is none, nothing happens.
pub open spec fn eval_creation(chain: Chain, d: Declared, st: Store, rounds: nat) -> Outcome {
    match d.constructor {
        None => Outcome::Next(st),
        Some(c) => eval_constructor(chain, d.contract, c.params, c.block, st, rounds),
    }
}

/// The push of two bytes in bytecode.
proof fn lemma_push2_code(chain: Chain, code: Seq<u8>, at: nat, value: nat, m: Machine)
    requires
        at + 3 <= code.len(),
        value <= 0xFFFF,
        code[at as int] == 0x61,
        code[(at + 1) as int] == (value / 0x100) as u8,
        code[(at + 2) as int] == (value % 0x100) as u8,
    ensures
        code_reaches(chain, code, running(at, m), running(at + 3, m.pushed(value))),
{
    let hi = (value / 0x100) as u8;
    let lo = (value % 0x100) as u8;
    assert(padded(code, (at + 1) as int, 2) =~= seq![hi, lo]);
    assert(be_value(seq![hi, lo]) == value) by {
        assert(seq![hi, lo].drop_last() =~= seq![hi]);
        assert(seq![hi].drop_last() =~= Seq::<u8>::empty());
        reveal_with_fuel(be_value, 3);
    }
    lemma_code_reaches_step(chain, code, running(at, m));
}

/// The push of one zero byte in bytecode.
proof fn lemma_push_zero_code(chain: Chain, code: Seq<u8>, at: nat, m: Machine)
    requires
        at + 2 <= code.len(),
        code[at as int] == 0x60,
        code[(at + 1) as int] == 0x00,
    ensures
        code_reaches(chain, code, running(at, m), running(at + 2, m.pushed(0))),
{
    assert(padded(code, (at + 1) as int, 1) =~= seq![0u8]);
    assert(be_value(seq![0u8]) == 0) by {
        assert(seq![0u8].drop_last() =~= Seq::<u8>::empty());
        reveal_with_fuel(be_value, 2);
    }
    lemma_code_reaches_step(chain, code, running(at, m));
}

/// `CODECOPY` in bytecode.
proof fn lemma_codecopy_code(chain: Chain, code: Seq<u8>, at: nat, size: nat, from: nat, m: Machine)
    requires
        at < code.len(),
        code[at as int] == 0x39,
    ensures
        code_reaches(
            chain,
            code,
            running(at, m.pushed(size).pushed(from).pushed(0)),
            running(
                at + 1,
                m.with_memory(written(m.memory, 0, padded(chain.code, from as int, size))),
            ),
        ),
{
    reveal(effect);
    lemma_opcodes();
    op_codecopy(chain, m, size, from, 0);
    lemma_code_reaches_step(chain, code, running(at, m.pushed(size).pushed(from).pushed(0)));
}

/// `RETURN` in bytecode.
proof fn lemma_return_code(chain: Chain, code: Seq<u8>, at: nat, size: nat, m: Machine)
    requires
        at < code.len(),
        code[at as int] == 0xf3,
    ensures
        code_reaches(
            chain,
            code,
            running(at, m.pushed(size).pushed(0)),
            halted(at, m, Status::Returned(bytes_at(m.memory, 0, size))),
        ),
{
    reveal(effect);
    lemma_opcodes();
    op_return(chain, m, size, 0);
    lemma_code_reaches_step(chain, code, running(at, m.pushed(size).pushed(0)));
}

/// The code behind a constructor returns a part of the code.
proof fn run_init(chain: Chain, at: nat, size: nat, offset: nat, m: Machine) -> (t: State)
    requires
        size <= 0xFFFF,
        offset <= 0xFFFF,
        at + 15 <= chain.code.len(),
        chain.code.subrange(at as int, (at + 15) as int) == init_code(size, offset),
    ensures
        code_reaches(chain, chain.code, running(at, m), t),
        t.status == Status::Returned(padded(chain.code, offset as int, size)),
        t.machine.storage == m.storage,
        t.machine.logs == m.logs,
{
    let code = chain.code;
    let init = init_code(size, offset);
    assert forall|i: int| at <= i < at + 15 implies code[i] == init[i - at] by {
        assert(code.subrange(at as int, (at + 15) as int)[i - at] == code[i]);
    }
    let s = running(at, m);
    let x1 = m.pushed(size);
    lemma_push2_code(chain, code, at, size, m);
    let x2 = x1.pushed(offset);
    lemma_push2_code(chain, code, at + 3, offset, x1);
    lemma_code_reaches_trans(chain, code, s, running(at + 3, x1), running(at + 6, x2));
    let x3 = x2.pushed(0);
    lemma_push_zero_code(chain, code, at + 6, x2);
    lemma_code_reaches_trans(chain, code, s, running(at + 6, x2), running(at + 8, x3));
    let copied = padded(code, offset as int, size);
    let x4 = m.with_memory(written(m.memory, 0, copied));
    lemma_codecopy_code(chain, code, at + 8, size, offset, m);
    lemma_code_reaches_trans(chain, code, s, running(at + 8, x3), running(at + 9, x4));
    let x5 = x4.pushed(size);
    lemma_push2_code(chain, code, at + 9, size, x4);
    lemma_code_reaches_trans(chain, code, s, running(at + 9, x4), running(at + 12, x5));
    let x6 = x5.pushed(0);
    lemma_push_zero_code(chain, code, at + 12, x5);
    lemma_code_reaches_trans(chain, code, s, running(at + 12, x5), running(at + 14, x6));
    assert(bytes_at(x4.memory, 0, size) =~= copied);
    lemma_return_code(chain, code, at + 14, size, x4);
    let t = halted(at + 14, x4, Status::Returned(copied));
    lemma_code_reaches_trans(chain, code, s, running(at + 14, x6), t);
    t
}

/// Where the parts of creation code are.
proof fn lemma_creation_parts(constructor: Seq<u8>, code: Seq<u8>, arguments: Seq<u8>)
    requires
        deployable(constructor, code),
    ensures
        ({
            let whole = creation_code(constructor, code) + arguments;
            let n = constructor.len();
            &&& n + 15 + code.len() <= whole.len()
            &&& whole.take(n as int) == constructor
            &&& whole.subrange(n as int, (n + 15) as int) == init_code(code.len(), n + init_len())
            &&& padded(whole, (n + init_len()) as int, code.len()) == code
        }),
{
    let whole = creation_code(constructor, code) + arguments;
    let n = constructor.len();
    assert(whole.take(n as int) =~= constructor);
    assert(whole.subrange(n as int, (n + 15) as int) =~= init_code(code.len(), n + init_len()));
    assert(padded(whole, (n + init_len()) as int, code.len()) =~= code);
}

/// A program holds itself.
proof fn lemma_sits_itself(p: Program)
    requires
        tidy(p),
    ensures
        sits(p.instrs, 0, 0, p),
{
    reveal(holds);
    assert forall|i: int| 0 <= i < p.instrs.len() implies #[trigger] relocate_all(p.instrs, 0)[i]
        == p.instrs[i] by {}
    assert(relocate_all(p.instrs, 0) =~= p.instrs);
    assert(p.instrs.subrange(0, p.instrs.len() as int) =~= p.instrs);
}

/// The constructor of a contract that compiles, run as a program of its own.
proof fn run_creation(
    chain: Chain,
    items: Seq<Item>,
    d: Declared,
    sigs: Seq<Seq<char>>,
    storage: Storage,
    logs: Seq<Log>,
    rounds: nat,
) -> (t: State)
    requires
        compiles(items, d, sigs),
    ensures
        ({
            let instrs = creation_fragment(d).program.instrs;
            &&& reaches(chain, instrs, running(0, fresh(storage, logs)), t)
            &&& delivers(
                t,
                eval_creation(chain, d, initial_store(storage, logs), rounds),
                instrs.len(),
                Seq::empty(),
            )
            &&& all_genuine(instrs)
        }),
{
    let p = creation_fragment(d).program;
    let m = fresh(storage, logs);
    lemma_contract_entries(items, d, sigs);
    lemma_fresh(storage, logs);
    match d.constructor {
        None => {
            lemma_reaches_self(chain, p.instrs, running(0, m));
            running(0, m)
        },
        Some(c) => {
            law_constructor_tidy(d.contract, c.params, c.block);
            lemma_operands_narrow(p.instrs);
            lemma_sits_itself(p);
            law_constructor_correct(
                chain,
                p.instrs,
                0,
                0,
                m,
                d.contract,
                c,
                initial_store(storage, logs),
                rounds,
            )
        },
    }
}

/// The creation code of a compiled contract deploys it. Run with the arguments of the constructor
/// behind it, it runs the constructor, and then returns the bytecode that answers calls. It reverts
/// if the constructor does, and then leaves storage and log as they were.
pub proof fn law_deploy(
    chain: Chain,
    items: Seq<Item>,
    d: Declared,
    sigs: Seq<Seq<char>>,
    arguments: Seq<u8>,
    storage: Storage,
    logs: Seq<Log>,
    rounds: nat,
) -> (t: State)
    requires
        compiles(items, d, sigs),
        chain.code == compiled(items)->Ok_0.deploy_code + arguments,
    ensures
        ({
            let before = Ledger { storage, logs };
            let outcome = eval_creation(chain, d, initial_store(storage, logs), rounds);
            outcome is Next || outcome is Reverted ==> {
                &&& code_reaches(chain, chain.code, running(0, fresh(storage, logs)), t)
                &&& after_call(before, t) == left_by(before, outcome)
                &&& t.status == if outcome is Next {
                    Status::Returned(runtime_code(d, sigs))
                } else {
                    Status::Reverted(Seq::empty())
                }
            }
        }),
{
    let instrs = creation_fragment(d).program.instrs;
    let constructor = assembled(instrs);
    let code = runtime_code(d, sigs);
    let m = fresh(storage, logs);
    let s = running(0, m);
    lemma_contract_entries(items, d, sigs);
    lemma_creation_parts(constructor, code, arguments);
    lemma_encode_all_len(instrs, label_table(instrs));
    assert(starts_with(chain.code, instrs));
    assert(instrs.take(0).len() == 0);
    let u = run_creation(chain, items, d, sigs, storage, logs, rounds);
    match eval_creation(chain, d, initial_store(storage, logs), rounds) {
        Outcome::Next(st) => {
            law_bytecode_runs_program(chain, chain.code, instrs, s, u);
            assert(instrs.take(instrs.len() as int) =~= instrs);
            let n = constructor.len();
            let t = run_init(chain, n, code.len(), n + init_len(), u.machine);
            lemma_code_reaches_trans(chain, chain.code, s, running(n, u.machine), t);
            lemma_related_parts(st, u.machine);
            t
        },
        Outcome::Reverted => {
            law_bytecode_runs_program(chain, chain.code, instrs, s, u);
            in_code(instrs, u)
        },
        _ => u,
    }
}

/// The bytecode of a contract that was put together by hand enters the body of the first function
/// whose selector a call names.
pub proof fn law_assembled_dispatch(chain: Chain, fns: Seq<Entry>, k: nat, m: Machine)
    requires
        tidy_bodies(fns),
        combinable(fns),
        encodable(runtime(fns).instrs),
        selects_first(chain, fns, k as int),
    ensures
        code_reaches(
            chain,
            assembled(runtime(fns).instrs),
            running(0, m),
            running(address(runtime(fns).instrs, body_place(fns, k) as int), m),
        ),
{
    let instrs = runtime(fns).instrs;
    law_runtime_tidy(fns);
    lemma_encode_all_len(instrs, label_table(instrs));
    assert(assembled(instrs).take(code_len(instrs) as int) =~= assembled(instrs));
    assert(instrs.take(0).len() == 0);
    law_dispatch(chain, fns, k, m);
    law_bytecode_runs_program(
        chain,
        assembled(instrs),
        instrs,
        running(0, m),
        running(body_place(fns, k), m),
    );
}

/// The bytecode of a contract that was put together by hand reverts a call that names no function,
/// without data, and the call leaves the storage and the log as it found them.
pub proof fn law_assembled_unknown_selector(
    chain: Chain,
    fns: Seq<Entry>,
    m: Machine,
) -> (t: State)
    requires
        tidy_bodies(fns),
        combinable(fns),
        encodable(runtime(fns).instrs),
        selects_none(chain, fns),
    ensures
        code_reaches(chain, assembled(runtime(fns).instrs), running(0, m), t),
        t.status == Status::Reverted(Seq::empty()),
        t.machine.storage == m.storage,
        t.machine.logs == m.logs,
{
    let instrs = runtime(fns).instrs;
    law_runtime_tidy(fns);
    lemma_encode_all_len(instrs, label_table(instrs));
    assert(assembled(instrs).take(code_len(instrs) as int) =~= assembled(instrs));
    assert(instrs.take(0).len() == 0);
    let u = law_unknown_selector(chain, fns, m);
    law_bytecode_runs_program(chain, assembled(instrs), instrs, running(0, m), u);
    in_code(instrs, u)
}

/// The creation code of a contract without a constructor returns the bytecode that answers calls.
pub proof fn law_assembled_deploy(
    chain: Chain,
    code: Seq<u8>,
    arguments: Seq<u8>,
    m: Machine,
) -> (t: State)
    requires
        deployable(Seq::empty(), code),
        chain.code == creation_code(Seq::empty(), code) + arguments,
    ensures
        code_reaches(chain, chain.code, running(0, m), t),
        t.status == Status::Returned(code),
        t.machine.storage == m.storage,
        t.machine.logs == m.logs,
{
    lemma_creation_parts(Seq::empty(), code, arguments);
    run_init(chain, 0, code.len(), init_len(), m)
}

/// The signatures of the first external functions.
proof fn lemma_signature_at(externals: Seq<External>, k: nat, i: int)
    requires
        k <= externals.len(),
        0 <= i < k,
    ensures
        signatures(externals, k) matches Ok(sigs) ==> sigs.len() == k && signature(
            externals[i].name,
            externals[i].params,
        ) == Ok::<Seq<char>, Fault>(sigs[i]),
    decreases k,
{
    lemma_signatures_len(externals, k);
    if i < k - 1 {
        lemma_signature_at(externals, (k - 1) as nat, i);
    }
    lemma_signatures_len(externals, (k - 1) as nat);
}

/// A call of a compiled contract names the external functions whose selector is the first four
/// bytes of its data.
pub proof fn law_called_by_data(
    chain: Chain,
    items: Seq<Item>,
    d: Declared,
    sigs: Seq<Seq<char>>,
    k: nat,
)
    requires
        compiles(items, d, sigs),
        has_full_selectors(items),
        k < sigs.len(),
    ensures
        selects(chain, contract_entries(d, sigs)[k as int]) <==> padded(chain.calldata, 0, 4)
            == keccak256_digest(encode_utf8(sigs[k as int])).take(4),
{
    law_selects(chain, contract_entries(d, sigs)[k as int]);
}

/// Each external function of a compiled contract is called by the first four bytes of the digest of
/// its signature.
pub proof fn law_selector_of_function(
    items: Seq<Item>,
    d: Declared,
    sigs: Seq<Seq<char>>,
    i: int,
)
    requires
        compiles(items, d, sigs),
        0 <= i < d.externals.len(),
    ensures
        match signature(d.externals[i].name, d.externals[i].params) {
            Ok(sig) => contract_entries(d, sigs)[i].selector == keccak256_digest(
                encode_utf8(sig),
            ).take(4),
            Err(_) => false,
        },
{
    lemma_signature_at(d.externals, d.externals.len(), i);
}

/// Bytecode that has halted stays as it is.
proof fn lemma_halted_stays(chain: Chain, code: Seq<u8>, t: State, n: nat)
    requires
        t.status !is Running,
    ensures
        run_code(chain, code, t, n) == t,
    decreases n,
{
    if n > 0 {
        lemma_halted_stays(chain, code, t, (n - 1) as nat);
    }
}

/// Bytecode halts in one state at most.
pub proof fn law_one_end(chain: Chain, code: Seq<u8>, s: State, t: State, u: State)
    requires
        code_reaches(chain, code, s, t),
        code_reaches(chain, code, s, u),
        t.status !is Running,
        u.status !is Running,
    ensures
        t == u,
{
    let n = choose|n: nat| #[trigger] run_code(chain, code, s, n) == t;
    let k = choose|k: nat| #[trigger] run_code(chain, code, s, k) == u;
    if n <= k {
        lemma_run_code_add(chain, code, s, n, (k - n) as nat);
        lemma_halted_stays(chain, code, t, (k - n) as nat);
    } else {
        lemma_run_code_add(chain, code, s, k, (n - k) as nat);
        lemma_halted_stays(chain, code, u, (n - k) as nat);
    }
}

/// Whether two outcomes are the same to the caller: the same data, storage and log.
pub open spec fn same_outcome(a: Outcome, b: Outcome) -> bool {
    match (a, b) {
        (Outcome::Returned(x, s), Outcome::Returned(y, t)) => {
            &&& x == y
            &&& s.storage == t.storage
            &&& s.logs == t.logs
        },
        (Outcome::Next(s), Outcome::Next(t)) => s.storage == t.storage && s.logs == t.logs,
        (Outcome::Reverted, Outcome::Reverted) => true,
        _ => false,
    }
}

/// However many rounds of its loops are allowed, a call has one outcome at most.
pub proof fn law_one_outcome(
    chain: Chain,
    items: Seq<Item>,
    d: Declared,
    sigs: Seq<Seq<char>>,
    k: nat,
    storage: Storage,
    logs: Seq<Log>,
    rounds: nat,
    more: nat,
)
    requires
        compiles(items, d, sigs),
        selects_first(chain, contract_entries(d, sigs), k as int),
    ensures
        ({
            let x = d.externals[k as int];
            let st = initial_store(storage, logs);
            let a = eval_function(chain, d.contract, x.params, x.output, x.block, st, rounds);
            let b = eval_function(chain, d.contract, x.params, x.output, x.block, st, more);
            settled(a, x.output) && settled(b, x.output) ==> same_outcome(a, b)
        }),
{
    let x = d.externals[k as int];
    let st = initial_store(storage, logs);
    let a = eval_function(chain, d.contract, x.params, x.output, x.block, st, rounds);
    let b = eval_function(chain, d.contract, x.params, x.output, x.block, st, more);
    let t = law_call(chain, items, d, sigs, k, storage, logs, rounds);
    let u = law_call(chain, items, d, sigs, k, storage, logs, more);
    if settled(a, x.output) && settled(b, x.output) {
        law_one_end(
            chain,
            runtime_code(d, sigs),
            running(0, fresh(storage, logs)),
            t,
            u,
        );
    }
}

} // verus!
