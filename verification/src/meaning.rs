//! The meaning of a function body: what each construct of the source computes, without regard to
//! stack, memory, labels and jumps.
//!
//! Variables live in cells, and storage in slots. The compilation scheme says which cell a name
//! stands for. Operands are evaluated from left to right, except those of subtraction, division and
//! remainder, which are evaluated from right to left, and the value of an `insert` or a `set`,
//! which comes before the key.

use vstd::prelude::*;
use vstd::utf8::encode_utf8;

use crate::abi::{signature, Parameter};
use crate::ast::{BinOp, Expr, FieldValue, Stmt, Type};
use crate::bytes::{be_bytes, be_value};
use crate::effects::{array_slot, mapping_slot, string_data};
use crate::keccak::keccak256_digest;
use crate::machine::{
    calldata_word, flag, padded, shifted_left, slot_value, word, Chain, Ledger, Log, Request,
    Storage,
};
use crate::model::{depth, lemma_depth, Contract, Env, EventParameter, Scope};
use crate::names::lookup;
use crate::scheme::{
    arguments_len, bindings, block, constructor_params, data_place, event_values, expression,
    field_of, foreign_arguments, function_params, head_offset, interface_of, lemma_literal_field,
    literal_field, outer_env, packed, path_ends_in, path_is, place, self_path, short_string_type,
    slot_of, statements, string_count, string_result, type_shape, values, Tail, TypeShape,
};

verus! {

/// What a function body works on: a word in every cell, the storage, the log, and the number of
/// calls of other contracts so far. A cell that was never written holds zero.
#[verifier::ext_equal]
pub struct Store {
    pub cells: Map<nat, nat>,
    pub storage: Storage,
    pub logs: Seq<Log>,
    pub calls: nat,
}

/// Whether a cell is one of the `len` words of memory from `first` on.
pub open spec fn is_overlaid(at: nat, first: nat, len: nat) -> bool {
    at >= first && (at - first) % 32 == 0 && (at - first) / 32 < len
}

impl Store {
    /// The word in a cell.
    pub open spec fn cell(self, at: nat) -> nat {
        if self.cells.dom().contains(at) {
            self.cells[at]
        } else {
            0
        }
    }

    /// With another word in a cell.
    pub open spec fn with_cell(self, at: nat, value: nat) -> Store {
        Store {
            cells: self.cells.insert(at, value),
            storage: self.storage,
            logs: self.logs,
            calls: self.calls,
        }
    }

    /// With another word in a slot.
    pub open spec fn with_slot(self, slot: nat, value: nat) -> Store {
        Store {
            cells: self.cells,
            storage: self.storage.insert(slot, value),
            logs: self.logs,
            calls: self.calls,
        }
    }

    /// With words laid over the cells from `first` on.
    pub open spec fn overlaid(self, first: nat, words: Seq<nat>) -> Store {
        Store {
            cells: Map::new(
                |at: nat| self.cells.dom().contains(at) || is_overlaid(at, first, words.len()),
                |at: nat|
                    if is_overlaid(at, first, words.len()) {
                        words[(at - first) / 32]
                    } else {
                        self.cells[at]
                    },
            ),
            storage: self.storage,
            logs: self.logs,
            calls: self.calls,
        }
    }

    /// With a further log.
    pub open spec fn with_log(self, log: Log) -> Store {
        Store {
            cells: self.cells,
            storage: self.storage,
            logs: self.logs.push(log),
            calls: self.calls,
        }
    }
}

/// What a construct comes to.
pub enum Outcome {
    /// It is done, without a value.
    Next(Store),
    /// It is done, with a value.
    Value(nat, Store),
    /// It is done, with several values.
    Values(Seq<nat>, Store),
    /// The contract returns data.
    Returned(Seq<u8>, Store),
    /// The contract reverts.
    Reverted,
    /// It was given too few rounds of a loop to finish, or has no meaning.
    Unfinished,
}

/// What becomes of a construct whose first part did not come to a value.
pub open spec fn bail(outcome: Outcome) -> Outcome {
    match outcome {
        Outcome::Reverted => Outcome::Reverted,
        _ => Outcome::Unfinished,
    }
}

/// What a block without a value comes to.
pub open spec fn done(outcome: Outcome) -> Outcome {
    match outcome {
        Outcome::Next(st) => Outcome::Next(st),
        other => bail(other),
    }
}

/// The bytes of words, one after the other.
pub open spec fn words_data(words: Seq<nat>) -> Seq<u8>
    decreases words.len(),
{
    if words.len() == 0 {
        Seq::empty()
    } else {
        words_data(words.drop_last()) + be_bytes(words.last(), 32)
    }
}

/// What an operator computes. Arithmetic is modulo `2^256`, and division by zero gives zero.
pub open spec fn operate(op: BinOp, l: nat, r: nat) -> Option<nat> {
    match op {
        BinOp::Add => Some(word((l + r) as int)),
        BinOp::Sub => Some(word(l - r)),
        BinOp::Mul => Some(word((l * r) as int)),
        BinOp::Div => Some(
            if r == 0 {
                0
            } else {
                l / r
            },
        ),
        BinOp::Rem => Some(
            if r == 0 {
                0
            } else {
                l % r
            },
        ),
        BinOp::Shl => Some(shifted_left(l, r)),
        BinOp::Lt => Some(flag(l < r)),
        BinOp::Gt => Some(flag(l > r)),
        BinOp::Eq => Some(flag(l == r)),
        BinOp::Ne => Some(flag(l != r)),
        BinOp::Le => Some(flag(l <= r)),
        BinOp::Ge => Some(flag(l >= r)),
        BinOp::Other => None,
    }
}

/// Whether the right operand is evaluated first.
pub open spec fn right_first(op: BinOp) -> bool {
    op == BinOp::Sub || op == BinOp::Div || op == BinOp::Rem
}

/// What a call in an expression computes.
pub open spec fn call_value(chain: Chain, func: Expr, args: Seq<Expr>) -> Option<nat> {
    if path_is(func, "msg_sender"@) {
        Some(word(chain.caller as int))
    } else if path_is(func, "address_this"@) {
        Some(word(chain.address as int))
    } else if path_is(func, "block_timestamp"@) {
        Some(word(chain.timestamp as int))
    } else if path_ends_in(func, "from"@) && args.len() == 1 && args[0] is Int {
        match args[0]->Int_0 {
            Some(v) => Some(v as nat),
            None => None,
        }
    } else {
        None
    }
}

/// What a name stands for: a local variable hides a parameter.
pub open spec fn variable(chain: Chain, name: Seq<char>, scope: Scope, st: Store) -> Option<nat> {
    match lookup(scope.locals, name) {
        Some(offset) => Some(st.cell(offset as nat)),
        None => match lookup(scope.params, name) {
            Some(offset) => Some(calldata_word(chain, offset as nat)),
            None => None,
        },
    }
}

/// The first `k` statements of a block.
pub open spec fn eval_statements(
    chain: Chain,
    env: Env,
    stmts: Seq<Stmt>,
    k: nat,
    tail: Tail,
    scope: Scope,
    st: Store,
    rounds: nat,
) -> Outcome
    decreases depth(env), stmts, k, 0nat,
{
    if k == 0 || k > stmts.len() {
        Outcome::Next(st)
    } else {
        match eval_statements(chain, env, stmts, (k - 1) as nat, tail, scope, st, rounds) {
            Outcome::Next(before) => eval_statement(
                chain,
                env,
                stmts[k - 1],
                if k == stmts.len() {
                    tail
                } else {
                    Tail::Void
                },
                statements(env, stmts, (k - 1) as nat, tail, scope).scope,
                before,
                rounds,
            ),
            other => bail(other),
        }
    }
}

/// A block.
pub open spec fn eval_block(
    chain: Chain,
    env: Env,
    stmts: Seq<Stmt>,
    tail: Tail,
    scope: Scope,
    st: Store,
    rounds: nat,
) -> Outcome
    decreases depth(env), stmts, stmts.len(), 1nat,
{
    eval_statements(chain, env, stmts, stmts.len(), tail, scope, st, rounds)
}

/// A statement.
pub open spec fn eval_statement(
    chain: Chain,
    env: Env,
    stmt: Stmt,
    tail: Tail,
    scope: Scope,
    st: Store,
    rounds: nat,
) -> Outcome
    decreases depth(env), stmt, 0nat, 1nat,
{
    match stmt {
        Stmt::Expr(e, semi) => eval_expression_statement(
            chain,
            env,
            e,
            if semi {
                Tail::Void
            } else {
                tail
            },
            scope,
            st,
            rounds,
        ),
        Stmt::Local(_, init) => match init {
            None => Outcome::Unfinished,
            Some(e) => match eval_expression(chain, env, e, scope, st, rounds) {
                Outcome::Value(v, after) => Outcome::Next(
                    after.with_cell(expression(env, e, scope).scope.next_local as nat, v),
                ),
                other => bail(other),
            },
        },
        Stmt::Other => Outcome::Unfinished,
    }
}

/// An expression that stands as a statement.
pub open spec fn eval_expression_statement(
    chain: Chain,
    env: Env,
    e: Expr,
    tail: Tail,
    scope: Scope,
    st: Store,
    rounds: nat,
) -> Outcome
    decreases depth(env), e, rounds + 1, 9nat,
{
    match e {
        Expr::Assign(left, right) => eval_assignment(chain, env, e, scope, st, rounds),
        Expr::MethodCall(receiver, method, args) => {
            if interface_of(env.contract, *receiver) is Some {
                if tail == Tail::Void {
                    eval_interface_call(chain, env, e, false, scope, st, rounds)
                } else {
                    eval_value(chain, env, e, tail, scope, st, rounds)
                }
            } else if method@ == "insert"@ {
                eval_mapping_insert(chain, env, e, scope, st, rounds)
            } else if method@ == "set"@ {
                eval_array_set(chain, env, e, scope, st, rounds)
            } else if method@ == "push"@ {
                eval_array_push(chain, env, e, scope, st, rounds)
            } else if tail == Tail::Void && self_path(*receiver) && lookup(
                env.contract.internal_functions,
                method@,
            ) is Some {
                eval_internal_call(chain, env, e, false, scope, st, rounds)
            } else {
                eval_value(chain, env, e, tail, scope, st, rounds)
            }
        },
        Expr::Call(func, args) => if path_is(*func, "require"@) {
            eval_requirement(chain, env, e, scope, st, rounds)
        } else if path_is(*func, "emit"@) {
            eval_emission(chain, env, e, scope, st, rounds)
        } else {
            eval_value(chain, env, e, tail, scope, st, rounds)
        },
        Expr::If(cond, body, otherwise) => eval_conditional(chain, env, e, scope, st, rounds),
        Expr::While(cond, body) => eval_repetition(chain, env, e, scope, st, rounds, rounds),
        _ => eval_value(chain, env, e, tail, scope, st, rounds),
    }
}

/// The value that a block results in.
pub open spec fn eval_value(
    chain: Chain,
    env: Env,
    e: Expr,
    tail: Tail,
    scope: Scope,
    st: Store,
    rounds: nat,
) -> Outcome
    decreases depth(env), e, 0nat, 8nat,
{
    match tail {
        Tail::Return => match e {
            Expr::Tuple(elems) => match eval_values(
                chain,
                env,
                elems@,
                elems@.len(),
                scope,
                st,
                rounds,
            ) {
                Outcome::Values(vs, after) => Outcome::Returned(words_data(vs), after),
                other => bail(other),
            },
            _ => match eval_expression(chain, env, e, scope, st, rounds) {
                Outcome::Value(v, after) => Outcome::Returned(
                    if env.ret_string {
                        string_data(v)
                    } else {
                        be_bytes(v, 32)
                    },
                    after,
                ),
                other => bail(other),
            },
        },
        Tail::Leave => eval_expression(chain, env, e, scope, st, rounds),
        Tail::Void => Outcome::Unfinished,
    }
}

/// The first `k` of a list of expressions.
pub open spec fn eval_values(
    chain: Chain,
    env: Env,
    elems: Seq<Expr>,
    k: nat,
    scope: Scope,
    st: Store,
    rounds: nat,
) -> Outcome
    decreases depth(env), elems, k, 0nat,
{
    if k == 0 || k > elems.len() {
        Outcome::Values(Seq::empty(), st)
    } else {
        match eval_values(chain, env, elems, (k - 1) as nat, scope, st, rounds) {
            Outcome::Values(vs, before) => match eval_expression(
                chain,
                env,
                elems[k - 1],
                values(env, elems, (k - 1) as nat, scope).scope,
                before,
                rounds,
            ) {
                Outcome::Value(v, after) => Outcome::Values(vs.push(v), after),
                other => bail(other),
            },
            other => bail(other),
        }
    }
}

/// The first `k` arguments of an internal call, each put into the cell of its parameter.
pub open spec fn eval_bindings(
    chain: Chain,
    env: Env,
    params: Seq<Parameter>,
    args: Seq<Expr>,
    k: nat,
    scope: Scope,
    st: Store,
    rounds: nat,
) -> Outcome
    decreases depth(env), args, k, 0nat,
{
    if k == 0 || k > args.len() {
        Outcome::Next(st)
    } else {
        match eval_bindings(chain, env, params, args, (k - 1) as nat, scope, st, rounds) {
            Outcome::Next(before) => {
                let inner = bindings(env, params, args, (k - 1) as nat, scope).scope;
                match eval_expression(chain, env, args[k - 1], inner, before, rounds) {
                    Outcome::Value(v, after) => Outcome::Next(
                        after.with_cell(
                            expression(env, args[k - 1], inner).scope.next_local as nat,
                            v,
                        ),
                    ),
                    other => bail(other),
                }
            },
            other => bail(other),
        }
    }
}

/// A call of an internal function.
pub open spec fn eval_internal_call(
    chain: Chain,
    env: Env,
    e: Expr,
    want_value: bool,
    scope: Scope,
    st: Store,
    rounds: nat,
) -> Outcome
    decreases depth(env), e, 0nat, 4nat,
{
    match e {
        Expr::MethodCall(_, method, args) => match lookup(
            env.contract.internal_functions,
            method@,
        ) {
            None => Outcome::Unfinished,
            Some(callee) => if env.stack.contains(method@) || args@.len() != callee.params.len() {
                Outcome::Unfinished
            } else {
                match eval_bindings(
                    chain,
                    env,
                    callee.params,
                    args@,
                    args@.len(),
                    scope,
                    st,
                    rounds,
                ) {
                    Outcome::Next(bound) => {
                        let names = bindings(env, callee.params, args@, args@.len(), scope);
                        proof {
                            lemma_depth(env, method@);
                        }
                        match eval_block(
                            chain,
                            env.within(method@),
                            callee.block,
                            if callee.output is Some {
                                Tail::Leave
                            } else {
                                Tail::Void
                            },
                            Scope {
                                locals: names.locals,
                                params: Seq::empty(),
                                next_local: names.scope.next_local,
                            },
                            bound,
                            rounds,
                        ) {
                            Outcome::Value(v, after) => if callee.output is None {
                                Outcome::Unfinished
                            } else if want_value {
                                Outcome::Value(v, after)
                            } else {
                                Outcome::Next(after)
                            },
                            Outcome::Next(after) => if callee.output is None && !want_value {
                                Outcome::Next(after)
                            } else {
                                Outcome::Unfinished
                            },
                            other => bail(other),
                        }
                    },
                    other => bail(other),
                }
            },
        },
        _ => Outcome::Unfinished,
    }
}

/// `self.field = value` or `local = value`.
pub open spec fn eval_assignment(
    chain: Chain,
    env: Env,
    e: Expr,
    scope: Scope,
    st: Store,
    rounds: nat,
) -> Outcome
    decreases depth(env), e, 0nat, 8nat,
{
    match e {
        Expr::Assign(left, right) => match eval_expression(chain, env, *right, scope, st, rounds) {
            Outcome::Value(v, after) => match *left {
                Expr::Field(_, member) => match slot_of(env.contract, member) {
                    Err(_) => Outcome::Unfinished,
                    Ok(slot) => Outcome::Next(after.with_slot(slot as nat, v)),
                },
                Expr::Ident(name) => match lookup(scope.locals, name@) {
                    None => Outcome::Unfinished,
                    Some(offset) => Outcome::Next(after.with_cell(offset as nat, v)),
                },
                _ => Outcome::Unfinished,
            },
            other => bail(other),
        },
        _ => Outcome::Unfinished,
    }
}

/// `receiver.insert(key, value)`.
pub open spec fn eval_mapping_insert(
    chain: Chain,
    env: Env,
    e: Expr,
    scope: Scope,
    st: Store,
    rounds: nat,
) -> Outcome
    decreases depth(env), e, 0nat, 8nat,
{
    match e {
        Expr::MethodCall(receiver, _, args) => if args@.len() != 2 {
            Outcome::Unfinished
        } else {
            let inner = place(env, *receiver, scope).scope;
            let innermost = expression(env, args@[1], inner).scope;
            match eval_expression(chain, env, args@[1], inner, st, rounds) {
                Outcome::Value(v, st1) => match eval_place(
                    chain,
                    env,
                    *receiver,
                    scope,
                    st1,
                    rounds,
                ) {
                    Outcome::Value(base, st2) => match eval_expression(
                        chain,
                        env,
                        args@[0],
                        innermost,
                        st2,
                        rounds,
                    ) {
                        Outcome::Value(key, st3) => Outcome::Next(
                            st3.with_slot(mapping_slot(base, key), v),
                        ),
                        other => bail(other),
                    },
                    other => bail(other),
                },
                other => bail(other),
            }
        },
        _ => Outcome::Unfinished,
    }
}

/// `self.array.set(index, value)`.
pub open spec fn eval_array_set(
    chain: Chain,
    env: Env,
    e: Expr,
    scope: Scope,
    st: Store,
    rounds: nat,
) -> Outcome
    decreases depth(env), e, 0nat, 8nat,
{
    match e {
        Expr::MethodCall(receiver, _, args) => match field_of(env.contract, *receiver) {
            Err(_) => Outcome::Unfinished,
            Ok(field) => if args@.len() != 2 {
                Outcome::Unfinished
            } else {
                match eval_expression(chain, env, args@[1], scope, st, rounds) {
                    Outcome::Value(v, st1) => match eval_expression(
                        chain,
                        env,
                        args@[0],
                        expression(env, args@[1], scope).scope,
                        st1,
                        rounds,
                    ) {
                        Outcome::Value(index, st2) => Outcome::Next(
                            st2.with_slot(array_slot(field.slot as nat, index), v),
                        ),
                        other => bail(other),
                    },
                    other => bail(other),
                }
            },
        },
        _ => Outcome::Unfinished,
    }
}

/// The storage after a value was put behind the last element of the array at slot `base`, and one
/// was added to the length.
pub open spec fn array_grown(st: Store, base: nat, v: nat) -> Store {
    let filled = st.with_slot(array_slot(base, slot_value(st.storage, base)), v);
    filled.with_slot(base, word((slot_value(filled.storage, base) + 1) as int))
}

/// `self.array.push(value)`.
pub open spec fn eval_array_push(
    chain: Chain,
    env: Env,
    e: Expr,
    scope: Scope,
    st: Store,
    rounds: nat,
) -> Outcome
    decreases depth(env), e, 0nat, 8nat,
{
    match e {
        Expr::MethodCall(receiver, _, args) => match field_of(env.contract, *receiver) {
            Err(_) => Outcome::Unfinished,
            Ok(field) => if args@.len() != 1 {
                Outcome::Unfinished
            } else {
                match eval_expression(chain, env, args@[0], scope, st, rounds) {
                    Outcome::Value(v, after) => Outcome::Next(
                        array_grown(after, field.slot as nat, v),
                    ),
                    other => bail(other),
                }
            },
        },
        _ => Outcome::Unfinished,
    }
}

/// `require(cond)`.
pub open spec fn eval_requirement(
    chain: Chain,
    env: Env,
    e: Expr,
    scope: Scope,
    st: Store,
    rounds: nat,
) -> Outcome
    decreases depth(env), e, 0nat, 8nat,
{
    match e {
        Expr::Call(_, args) => if args@.len() == 0 {
            Outcome::Unfinished
        } else {
            match eval_expression(chain, env, args@[0], scope, st, rounds) {
                Outcome::Value(v, after) => if v == 0 {
                    Outcome::Reverted
                } else {
                    Outcome::Next(after)
                },
                other => bail(other),
            }
        },
        _ => Outcome::Unfinished,
    }
}

/// The values of the first `k` fields of an event, in the order of their declaration.
pub open spec fn eval_event_values(
    chain: Chain,
    env: Env,
    literal: Seq<FieldValue>,
    fields: Seq<EventParameter>,
    k: nat,
    scope: Scope,
    st: Store,
    rounds: nat,
) -> Outcome
    decreases depth(env), literal, k, 0nat,
{
    if k == 0 {
        Outcome::Values(Seq::empty(), st)
    } else {
        match eval_event_values(
            chain,
            env,
            literal,
            fields,
            (k - 1) as nat,
            scope,
            st,
            rounds,
        ) {
            Outcome::Values(vs, before) => match literal_field(
                literal,
                fields[k - 1].name,
                literal.len(),
            ) {
                None => Outcome::Unfinished,
                Some(i) => {
                    proof {
                        lemma_literal_field(literal, fields[k - 1].name, literal.len());
                    }
                    match eval_expression(
                        chain,
                        env,
                        literal[i as int].value,
                        event_values(env, literal, fields, (k - 1) as nat, scope).scope,
                        before,
                        rounds,
                    ) {
                        Outcome::Value(v, after) => Outcome::Values(vs.push(v), after),
                        other => bail(other),
                    }
                },
            },
            other => bail(other),
        }
    }
}

/// `emit(Event { field: value, .. })`: logs the values of the fields under the digest of the
/// signature. The data is laid out in memory that no variable has.
pub open spec fn eval_emission(
    chain: Chain,
    env: Env,
    e: Expr,
    scope: Scope,
    st: Store,
    rounds: nat,
) -> Outcome
    decreases depth(env), e, 0nat, 8nat,
{
    match e {
        Expr::Call(_, args) => if args@.len() == 0 {
            Outcome::Unfinished
        } else {
            match args@[0] {
                Expr::Struct(name, literal) => match lookup(env.contract.events, name@) {
                    None => Outcome::Unfinished,
                    Some(event) => match eval_event_values(
                        chain,
                        env,
                        literal@,
                        event.fields,
                        event.fields.len(),
                        scope,
                        st,
                        rounds,
                    ) {
                        Outcome::Values(vs, after) => match signature(event.name, event.params()) {
                            Err(_) => Outcome::Unfinished,
                            Ok(sig) => Outcome::Next(
                                after.overlaid(
                                    data_place(
                                        event_values(
                                            env,
                                            literal@,
                                            event.fields,
                                            event.fields.len(),
                                            scope,
                                        ).scope,
                                        event.fields.len(),
                                    ),
                                    vs,
                                ).with_log(
                                    Log {
                                        topics: seq![
                                            be_value(keccak256_digest(encode_utf8(sig))),
                                        ],
                                        data: words_data(vs),
                                    },
                                ),
                            ),
                        },
                        other => bail(other),
                    },
                },
                _ => Outcome::Unfinished,
            }
        },
        _ => Outcome::Unfinished,
    }
}

/// `if cond { .. }`, `if cond { .. } else { .. }` and chains of `else if`.
pub open spec fn eval_conditional(
    chain: Chain,
    env: Env,
    e: Expr,
    scope: Scope,
    st: Store,
    rounds: nat,
) -> Outcome
    decreases depth(env), e, 0nat, 8nat,
{
    match e {
        Expr::If(cond, body, otherwise) => match eval_expression(
            chain,
            env,
            *cond,
            scope,
            st,
            rounds,
        ) {
            Outcome::Value(v, after) => {
                let inner = expression(env, *cond, scope).scope;
                if v != 0 {
                    done(eval_block(chain, env, body@, Tail::Void, inner, after, rounds))
                } else {
                    let skipped = block(env, body@, Tail::Void, inner).scope;
                    match otherwise {
                        None => Outcome::Next(after),
                        Some(other) => match *other {
                            Expr::Block(stmts) => done(
                                eval_block(
                                    chain,
                                    env,
                                    stmts@,
                                    Tail::Void,
                                    skipped,
                                    after,
                                    rounds,
                                ),
                            ),
                            Expr::If(_, _, _) => done(
                                eval_conditional(chain, env, *other, skipped, after, rounds),
                            ),
                            _ => Outcome::Unfinished,
                        },
                    }
                }
            },
            other => bail(other),
        },
        _ => Outcome::Unfinished,
    }
}

/// At most `left` rounds of `while cond { .. }`.
pub open spec fn eval_repetition(
    chain: Chain,
    env: Env,
    e: Expr,
    scope: Scope,
    st: Store,
    rounds: nat,
    left: nat,
) -> Outcome
    decreases depth(env), e, left, 8nat,
{
    match e {
        Expr::While(cond, body) => if left == 0 {
            Outcome::Unfinished
        } else {
            match eval_expression(chain, env, *cond, scope, st, rounds) {
                Outcome::Value(v, after) => if v == 0 {
                    Outcome::Next(after)
                } else {
                    match eval_block(
                        chain,
                        env,
                        body@,
                        Tail::Void,
                        expression(env, *cond, scope).scope,
                        after,
                        rounds,
                    ) {
                        Outcome::Next(again) => eval_repetition(
                            chain,
                            env,
                            e,
                            scope,
                            again,
                            rounds,
                            (left - 1) as nat,
                        ),
                        other => bail(other),
                    }
                },
                other => bail(other),
            }
        },
        _ => Outcome::Unfinished,
    }
}

/// An expression.
pub open spec fn eval_expression(
    chain: Chain,
    env: Env,
    e: Expr,
    scope: Scope,
    st: Store,
    rounds: nat,
) -> Outcome
    decreases depth(env), e, 0nat, 5nat,
{
    match e {
        Expr::Int(value) => match value {
            Some(v) => Outcome::Value(v as nat, st),
            None => Outcome::Unfinished,
        },
        Expr::Bool(b) => Outcome::Value(flag(b), st),
        Expr::Str(text) => Outcome::Value(be_value(packed(encode_utf8(text@))), st),
        Expr::Field(_, member) => match slot_of(env.contract, member) {
            Err(_) => Outcome::Unfinished,
            Ok(slot) => Outcome::Value(slot_value(st.storage, slot as nat), st),
        },
        Expr::MethodCall(receiver, method, args) => if interface_of(
            env.contract,
            *receiver,
        ) is Some {
            eval_interface_call(chain, env, e, true, scope, st, rounds)
        } else if self_path(*receiver) && lookup(
            env.contract.internal_functions,
            method@,
        ) is Some {
            eval_internal_call(chain, env, e, true, scope, st, rounds)
        } else if method@ == "get"@ {
            match eval_place(chain, env, e, scope, st, rounds) {
                Outcome::Value(slot, after) => Outcome::Value(
                    slot_value(after.storage, slot),
                    after,
                ),
                other => bail(other),
            }
        } else if method@ == "len"@ {
            match field_of(env.contract, *receiver) {
                Err(_) => Outcome::Unfinished,
                Ok(field) => Outcome::Value(slot_value(st.storage, field.slot as nat), st),
            }
        } else {
            Outcome::Unfinished
        },
        Expr::Binary(op, left, right) => eval_binary(chain, env, e, scope, st, rounds),
        Expr::Paren(inner) => eval_expression(chain, env, *inner, scope, st, rounds),
        Expr::Call(func, args) => match call_value(chain, *func, args@) {
            Some(v) => Outcome::Value(v, st),
            None => Outcome::Unfinished,
        },
        Expr::Ident(name) => match variable(chain, name@, scope, st) {
            Some(v) => Outcome::Value(v, st),
            None => Outcome::Unfinished,
        },
        _ => Outcome::Unfinished,
    }
}

/// `left op right`.
pub open spec fn eval_binary(
    chain: Chain,
    env: Env,
    e: Expr,
    scope: Scope,
    st: Store,
    rounds: nat,
) -> Outcome
    decreases depth(env), e, 0nat, 4nat,
{
    match e {
        Expr::Binary(op, left, right) => {
            let inner = expression(env, *left, scope).scope;
            if right_first(op) {
                match eval_expression(chain, env, *right, inner, st, rounds) {
                    Outcome::Value(r, st1) => match eval_expression(
                        chain,
                        env,
                        *left,
                        scope,
                        st1,
                        rounds,
                    ) {
                        Outcome::Value(l, st2) => match operate(op, l, r) {
                            Some(v) => Outcome::Value(v, st2),
                            None => Outcome::Unfinished,
                        },
                        other => bail(other),
                    },
                    other => bail(other),
                }
            } else {
                match eval_expression(chain, env, *left, scope, st, rounds) {
                    Outcome::Value(l, st1) => match eval_expression(
                        chain,
                        env,
                        *right,
                        inner,
                        st1,
                        rounds,
                    ) {
                        Outcome::Value(r, st2) => match operate(op, l, r) {
                            Some(v) => Outcome::Value(v, st2),
                            None => Outcome::Unfinished,
                        },
                        other => bail(other),
                    },
                    other => bail(other),
                }
            }
        },
        _ => Outcome::Unfinished,
    }
}

/// The slot of `self.field`, or of a chain of `.get(key)` on top of it.
pub open spec fn eval_place(
    chain: Chain,
    env: Env,
    e: Expr,
    scope: Scope,
    st: Store,
    rounds: nat,
) -> Outcome
    decreases depth(env), e, 0nat, 3nat,
{
    match e {
        Expr::Field(_, member) => match slot_of(env.contract, member) {
            Err(_) => Outcome::Unfinished,
            Ok(slot) => Outcome::Value(slot as nat, st),
        },
        Expr::MethodCall(receiver, _, args) => if args@.len() != 1 {
            Outcome::Unfinished
        } else {
            let base = place(env, *receiver, scope);
            match eval_place(chain, env, *receiver, scope, st, rounds) {
                Outcome::Value(slot, st1) => match eval_expression(
                    chain,
                    env,
                    args@[0],
                    base.scope,
                    st1,
                    rounds,
                ) {
                    Outcome::Value(key, st2) => match base.place {
                        Err(_) => Outcome::Unfinished,
                        Ok((_, ty)) => match type_shape(ty) {
                            TypeShape::Mapping(_) => Outcome::Value(mapping_slot(slot, key), st2),
                            TypeShape::Array(_) => Outcome::Value(array_slot(slot, key), st2),
                            TypeShape::Scalar => Outcome::Unfinished,
                        },
                    },
                    other => bail(other),
                },
                other => bail(other),
            }
        },
        _ => Outcome::Unfinished,
    }
}

/// The first `k` arguments of a call of another contract, each put into a cell behind that of the
/// selector.
pub open spec fn eval_foreign_arguments(
    chain: Chain,
    env: Env,
    args: Seq<Expr>,
    k: nat,
    base: u32,
    scope: Scope,
    st: Store,
    rounds: nat,
) -> Outcome
    decreases depth(env), args, k, 0nat,
{
    if k == 0 || k > args.len() {
        Outcome::Next(st)
    } else {
        match eval_foreign_arguments(chain, env, args, (k - 1) as nat, base, scope, st, rounds) {
            Outcome::Next(before) => match eval_expression(
                chain,
                env,
                args[k - 1],
                foreign_arguments(env, args, (k - 1) as nat, base, scope).scope,
                before,
                rounds,
            ) {
                Outcome::Value(v, after) => Outcome::Next(
                    after.with_cell((base + 32 * k) as nat, v),
                ),
                other => bail(other),
            },
            other => bail(other),
        }
    }
}

/// The words in `n` cells that follow each other.
pub open spec fn cell_words(st: Store, first: nat, n: nat) -> Seq<nat> {
    Seq::new(n, |i: int| st.cell((first + 32 * i) as nat))
}

/// The call data in the cells from `base` on: the last four bytes of the first cell, and the
/// arguments.
pub open spec fn call_data(st: Store, base: nat, nargs: nat) -> Seq<u8> {
    be_bytes(st.cell(base), 32).skip(28) + words_data(cell_words(st, base + 32, nargs))
}

/// A call of another contract with the call data in the cells from `base` on. It reverts if the
/// callee fails. The value is the first word of the reply; a reply that is shorter leaves it open.
pub open spec fn foreign_call(
    chain: Chain,
    target: nat,
    base: nat,
    nargs: nat,
    mutable: bool,
    want_value: bool,
    st: Store,
) -> Outcome {
    let reply = (chain.outside)(
        Request {
            target,
            data: call_data(st, base, nargs),
            mutable,
            storage: st.storage,
            logs: st.logs,
            earlier: st.calls,
        },
    );
    if !reply.success {
        Outcome::Reverted
    } else {
        let after = Store {
            cells: st.cells,
            storage: if mutable {
                reply.storage
            } else {
                st.storage
            },
            logs: if mutable {
                st.logs + reply.logs
            } else {
                st.logs
            },
            calls: st.calls + 1,
        };
        if !want_value {
            Outcome::Next(after)
        } else if reply.data.len() >= 32 {
            Outcome::Value(be_value(reply.data.take(32)), after)
        } else {
            Outcome::Unfinished
        }
    }
}

/// `Interface::at(address).method(args)`.
pub open spec fn eval_interface_call(
    chain: Chain,
    env: Env,
    e: Expr,
    want_value: bool,
    scope: Scope,
    st: Store,
    rounds: nat,
) -> Outcome
    decreases depth(env), e, 0nat, 4nat,
{
    match e {
        Expr::MethodCall(receiver, method, args) => match interface_of(env.contract, *receiver) {
            None => Outcome::Unfinished,
            Some(methods) => match *receiver {
                Expr::Call(_, targets) => match lookup(methods, method@) {
                    None => Outcome::Unfinished,
                    Some(callee) => if targets@.len() != 1 {
                        Outcome::Unfinished
                    } else {
                        match eval_expression(chain, env, targets@[0], scope, st, rounds) {
                            Outcome::Value(target, st1) => {
                                let inner = expression(env, targets@[0], scope).scope;
                                let base = inner.next_local;
                                let selector = keccak256_digest(encode_utf8(callee.sig)).take(4);
                                match eval_foreign_arguments(
                                    chain,
                                    env,
                                    args@,
                                    args@.len(),
                                    base,
                                    inner.reserved_for_call(args@.len()),
                                    st1.with_cell(base as nat, be_value(selector)),
                                    rounds,
                                ) {
                                    Outcome::Next(st2) => foreign_call(
                                        chain,
                                        target,
                                        base as nat,
                                        args@.len(),
                                        callee.mutable,
                                        want_value,
                                        st2,
                                    ),
                                    other => bail(other),
                                }
                            },
                            other => bail(other),
                        }
                    },
                },
                _ => Outcome::Unfinished,
            },
        },
        _ => Outcome::Unfinished,
    }
}

/// A string of fewer than 32 bytes packed into a word: its bytes, and twice its length.
pub open spec fn packed_word(len: nat, data: nat) -> nat {
    (data - data % 256 + 2 * len) as nat
}

/// The first `k` parameters of a function: a string is decoded from the call data into its cell,
/// and has to be shorter than 32 bytes.
pub open spec fn eval_function_params(
    chain: Chain,
    params: Seq<Parameter>,
    k: nat,
    scope: Scope,
    st: Store,
) -> Outcome
    decreases k,
{
    if k == 0 {
        Outcome::Next(st)
    } else {
        match eval_function_params(chain, params, (k - 1) as nat, scope, st) {
            Outcome::Next(before) => if short_string_type(params[k - 1].ty) {
                let at = word((4 + calldata_word(chain, head_offset((k - 1) as nat))) as int);
                let len = calldata_word(chain, at);
                let data = calldata_word(chain, word((0x20 + at) as int));
                if len >= 32 {
                    Outcome::Reverted
                } else {
                    Outcome::Next(
                        before.with_cell(
                            function_params(
                                params,
                                (k - 1) as nat,
                                scope,
                            ).scope.next_local as nat,
                            packed_word(len, data),
                        ),
                    )
                }
            } else {
                Outcome::Next(before)
            },
            other => bail(other),
        }
    }
}

/// What a call that began with a ledger leaves behind: what the function wrote, or all as it was if
/// the function reverts.
pub open spec fn left_by(before: Ledger, outcome: Outcome) -> Ledger {
    match outcome {
        Outcome::Returned(_, st) => Ledger { storage: st.storage, logs: st.logs },
        Outcome::Next(st) => Ledger { storage: st.storage, logs: st.logs },
        _ => before,
    }
}

/// What is there before a call: what earlier calls left in the storage and the log.
pub open spec fn initial_store(storage: Storage, logs: Seq<Log>) -> Store {
    Store { cells: Map::empty(), storage, logs, calls: 0 }
}

/// A call of an external function.
pub open spec fn eval_function(
    chain: Chain,
    contract: Contract,
    params: Seq<Parameter>,
    output: Option<Type>,
    stmts: Seq<Stmt>,
    st: Store,
    rounds: nat,
) -> Outcome {
    match eval_function_params(chain, params, params.len(), Scope::initial(), st) {
        Outcome::Next(ready) => eval_block(
            chain,
            outer_env(contract, string_result(output)),
            stmts,
            if output is Some {
                Tail::Return
            } else {
                Tail::Void
            },
            function_params(params, params.len(), Scope::initial()).scope,
            ready,
            rounds,
        ),
        other => bail(other),
    }
}

/// The word that lies `back` bytes before the end of the code.
pub open spec fn code_word(chain: Chain, back: nat) -> nat {
    be_value(padded(chain.code, word(chain.code.len() - back) as int, 32))
}

/// The first `k` arguments of a constructor, which follow its code.
pub open spec fn eval_constructor_params(
    chain: Chain,
    params: Seq<Parameter>,
    k: nat,
    scope: Scope,
    st: Store,
) -> Outcome
    decreases k,
{
    if k == 0 {
        Outcome::Next(st)
    } else {
        match eval_constructor_params(chain, params, (k - 1) as nat, scope, st) {
            Outcome::Next(before) => {
                let cell = constructor_params(
                    params,
                    (k - 1) as nat,
                    scope,
                ).scope.next_local as nat;
                if short_string_type(params[k - 1].ty) {
                    let left = string_count(params, params.len()) - string_count(
                        params,
                        (k - 1) as nat,
                    );
                    let len = code_word(chain, (64 * left) as nat);
                    let data = code_word(chain, (64 * left - 32) as nat);
                    if len >= 32 {
                        Outcome::Reverted
                    } else {
                        Outcome::Next(before.with_cell(cell, packed_word(len, data)))
                    }
                } else {
                    Outcome::Next(
                        before.with_cell(
                            cell,
                            code_word(chain, (arguments_len(params) - 32 * (k - 1)) as nat),
                        ),
                    )
                }
            },
            other => bail(other),
        }
    }
}

/// The run of a constructor.
pub open spec fn eval_constructor(
    chain: Chain,
    contract: Contract,
    params: Seq<Parameter>,
    stmts: Seq<Stmt>,
    st: Store,
    rounds: nat,
) -> Outcome {
    match eval_constructor_params(chain, params, params.len(), Scope::initial(), st) {
        Outcome::Next(ready) => eval_block(
            chain,
            outer_env(contract, false),
            stmts,
            Tail::Void,
            constructor_params(params, params.len(), Scope::initial()).scope,
            ready,
            rounds,
        ),
        other => bail(other),
    }
}

} // verus!
