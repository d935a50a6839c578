//! What evaluation leaves alone: the variables that were there before it.

use vstd::prelude::*;
use vstd::utf8::encode_utf8;

use crate::abi::{signature, Parameter};
use crate::ast::{Expr, FieldValue, Stmt};
use crate::bytes::be_value;
use crate::correct::lemma_event_values_len;
use crate::effects::{array_slot, mapping_slot};
use crate::keccak::keccak256_digest;
use crate::machine::{Chain, Log};
use crate::meaning::{
    array_grown, bail, done, eval_array_push, eval_array_set, eval_assignment, eval_binary,
    eval_bindings, eval_block, eval_conditional, eval_emission, eval_event_values, eval_expression,
    eval_expression_statement, eval_foreign_arguments, eval_interface_call, eval_internal_call,
    eval_mapping_insert, eval_place, eval_repetition, eval_requirement, eval_statement,
    eval_statements, eval_value, eval_values, foreign_call, is_overlaid, right_first, variable,
    words_data, Outcome, Store,
};
use crate::model::{depth, lemma_depth, Env, EventParameter, Internal, Scope};
use crate::names::{lemma_lookup_found, lookup};
use crate::scheme::{
    array_push, array_set, assignment, binary, bindings, block, conditional, data_place, emission,
    event_values, expression, expression_statement, field_of, foreign_arguments, get_value,
    interface_call, interface_of, internal_call, lemma_literal_field, literal_field, mapping_insert,
    path_is, pattern_name, place, repetition, requirement, self_path, slot_of, statement,
    statements, value_statement, values, Tail,
};
use crate::shape::{
    is_cell, law_block_sound, lemma_local_below, lemma_local_is_cell, lemma_scope_reserved_for_call,
    scope_ok, sound_bindings, sound_event_values, sound_expression, sound_foreign_arguments,
    sound_place, sound_statements, sound_values,
};
use crate::simulate::clean;
use crate::steps::{then_return, then_return_words};

verus! {

/// Whether two stores hold the same words above the scratch space and below `floor`.
#[verifier::opaque]
pub open spec fn same_below(a: Store, b: Store, floor: nat) -> bool {
    forall|at: nat| #![trigger b.cell(at)] is_cell(at) && at < floor ==> b.cell(at) == a.cell(at)
}

/// Whether what a construct comes to has the words below `floor` as they were before it.
pub open spec fn keeps(st: Store, outcome: Outcome, floor: nat) -> bool {
    match outcome {
        Outcome::Next(after) => same_below(st, after, floor),
        Outcome::Value(_, after) => same_below(st, after, floor),
        Outcome::Values(_, after) => same_below(st, after, floor),
        Outcome::Returned(_, after) => same_below(st, after, floor),
        _ => true,
    }
}

/// Whether the same names stand for the same words.
pub open spec fn same_names(a: Scope, b: Scope) -> bool {
    a.locals == b.locals && a.params == b.params
}

/// Whether all local names stand for words from `floor` on.
#[verifier::opaque]
pub open spec fn names_from(locals: Seq<(Seq<char>, u32)>, floor: nat) -> bool {
    forall|i: int| #![trigger locals[i]] 0 <= i < locals.len() ==> locals[i].1 >= floor
}

/// Nothing has changed.
pub proof fn lemma_same_below(st: Store, floor: nat)
    ensures
        same_below(st, st, floor),
{
    reveal(same_below);
}

/// What one construct leaves alone and the next one leaves alone.
proof fn lemma_same_trans(a: Store, b: Store, outcome: Outcome, floor: nat)
    requires
        same_below(a, b, floor),
        keeps(b, outcome, floor),
    ensures
        keeps(a, outcome, floor),
{
    reveal(same_below);
}

/// A word from `floor` on is written.
pub proof fn lemma_same_cell(a: Store, b: Store, at: nat, v: nat, floor: nat)
    requires
        same_below(a, b, floor),
        at >= floor,
    ensures
        same_below(a, b.with_cell(at, v), floor),
{
    reveal(same_below);
    let after = b.with_cell(at, v);
    assert forall|other: nat| #![trigger after.cell(other)] is_cell(other) && other
        < floor implies after.cell(other) == a.cell(other) by {
        assert(after.cell(other) == b.cell(other));
    }
}

/// Only storage, log and calls change.
proof fn lemma_same_cells(a: Store, b: Store, c: Store, floor: nat)
    requires
        same_below(a, b, floor),
        c.cells == b.cells,
    ensures
        same_below(a, c, floor),
{
    reveal(same_below);
    assert forall|other: nat| #![trigger c.cell(other)] is_cell(other) && other
        < floor implies c.cell(other) == a.cell(other) by {
        assert(c.cell(other) == b.cell(other));
    }
}

/// The data of an event is laid out.
proof fn lemma_same_overlaid(a: Store, b: Store, scope: Scope, words: Seq<nat>, floor: nat)
    requires
        same_below(a, b, floor),
        floor <= scope.next_local,
    ensures
        same_below(a, b.overlaid(data_place(scope, words.len()), words), floor),
{
    reveal(same_below);
    let first = data_place(scope, words.len());
    let after = b.overlaid(first, words);
    assert forall|other: nat| #![trigger after.cell(other)] is_cell(other) && other
        < floor implies after.cell(other) == a.cell(other) by {
        assert(!is_overlaid(other, first, words.len()));
        assert(after.cell(other) == b.cell(other));
    }
}

/// An event is logged.
proof fn lemma_same_logged(
    a: Store,
    b: Store,
    scope: Scope,
    words: Seq<nat>,
    sig: Seq<char>,
    floor: nat,
)
    requires
        same_below(a, b, floor),
        floor <= scope.next_local,
    ensures
        same_below(
            a,
            b.overlaid(data_place(scope, words.len()), words).with_log(
                Log {
                    topics: seq![be_value(keccak256_digest(encode_utf8(sig)))],
                    data: words_data(words),
                },
            ),
            floor,
        ),
{
    lemma_same_overlaid(a, b, scope, words, floor);
    let laid = b.overlaid(data_place(scope, words.len()), words);
    let log = Log {
        topics: seq![be_value(keccak256_digest(encode_utf8(sig)))],
        data: words_data(words),
    };
    lemma_same_cells(a, laid, laid.with_log(log), floor);
}

/// One more name.
proof fn lemma_names_push(
    locals: Seq<(Seq<char>, u32)>,
    name: Seq<char>,
    offset: u32,
    floor: nat,
)
    requires
        names_from(locals, floor),
        offset >= floor,
    ensures
        names_from(locals.push((name, offset)), floor),
{
    reveal(names_from);
    let after = locals.push((name, offset));
    assert forall|i: int| #![trigger after[i]] 0 <= i < after.len() implies after[i].1
        >= floor by {
        if i < locals.len() {
            assert(after[i] == locals[i]);
        }
    }
}

/// A name that is found.
proof fn lemma_name_from(locals: Seq<(Seq<char>, u32)>, name: Seq<char>, floor: nat)
    requires
        names_from(locals, floor),
    ensures
        lookup(locals, name) matches Some(offset) ==> offset >= floor,
{
    reveal(names_from);
    if lookup(locals, name) is Some {
        let i = lemma_lookup_found(locals, name);
        assert(locals[i].1 >= floor);
    }
}

/// Expressions add no names.
pub proof fn names_expression(env: Env, e: Expr, scope: Scope)
    ensures
        same_names(scope, expression(env, e, scope).scope),
    decreases depth(env), e, 0nat, 5nat,
{
    match e {
        Expr::MethodCall(receiver, method, args) => {
            if interface_of(env.contract, *receiver) is Some {
                names_interface_call(env, e, true, scope);
            } else if self_path(*receiver) && lookup(
                env.contract.internal_functions,
                method@,
            ) is Some {
                names_internal_call(env, e, true, scope);
            } else if method@ == "get"@ {
                names_get_value(env, e, scope);
            }
        },
        Expr::Binary(op, left, right) => names_binary(env, e, scope),
        Expr::Paren(inner) => names_expression(env, *inner, scope),
        _ => {},
    }
}

/// An operator adds no names.
proof fn names_binary(env: Env, e: Expr, scope: Scope)
    ensures
        same_names(scope, binary(env, e, scope).scope),
    decreases depth(env), e, 0nat, 4nat,
{
    if let Expr::Binary(op, left, right) = e {
        names_expression(env, *left, scope);
        names_expression(env, *right, expression(env, *left, scope).scope);
    }
}

/// A `get` adds no names.
proof fn names_get_value(env: Env, e: Expr, scope: Scope)
    ensures
        same_names(scope, get_value(env, e, scope).scope),
    decreases depth(env), e, 0nat, 4nat,
{
    names_place(env, e, scope);
}

/// A list of expressions adds no names.
proof fn names_values(env: Env, elems: Seq<Expr>, k: nat, scope: Scope)
    ensures
        same_names(scope, values(env, elems, k, scope).scope),
    decreases depth(env), elems, k, 0nat,
{
    if !(k == 0 || k > elems.len()) {
        let j = (k - 1) as nat;
        names_values(env, elems, j, scope);
        names_expression(env, elems[k - 1], values(env, elems, j, scope).scope);
    }
}

/// The arguments of an internal call add no names for the caller.
pub proof fn names_bindings(env: Env, params: Seq<Parameter>, args: Seq<Expr>, k: nat, scope: Scope)
    ensures
        same_names(scope, bindings(env, params, args, k, scope).scope),
    decreases depth(env), args, k, 0nat,
{
    if !(k == 0 || k > args.len()) {
        let j = (k - 1) as nat;
        names_bindings(env, params, args, j, scope);
        names_expression(env, args[k - 1], bindings(env, params, args, j, scope).scope);
    }
}

/// An internal call adds no names for the caller.
pub proof fn names_internal_call(env: Env, e: Expr, want_value: bool, scope: Scope)
    ensures
        same_names(scope, internal_call(env, e, want_value, scope).scope),
    decreases depth(env), e, 0nat, 4nat,
{
    if let Expr::MethodCall(_, method, args) = e {
        if let Some(callee) = lookup(env.contract.internal_functions, method@) {
            names_bindings(env, callee.params, args@, args@.len(), scope);
        }
    }
}

/// A place in storage adds no names.
proof fn names_place(env: Env, e: Expr, scope: Scope)
    ensures
        same_names(scope, place(env, e, scope).scope),
    decreases depth(env), e, 0nat, 3nat,
{
    if let Expr::MethodCall(receiver, method, args) = e {
        if method@ == "get"@ && args@.len() == 1 {
            names_place(env, *receiver, scope);
            names_expression(env, args@[0], place(env, *receiver, scope).scope);
        }
    }
}

/// The arguments of a call of another contract add no names.
proof fn names_foreign_arguments(env: Env, args: Seq<Expr>, k: nat, base: u32, scope: Scope)
    ensures
        same_names(scope, foreign_arguments(env, args, k, base, scope).scope),
    decreases depth(env), args, k, 0nat,
{
    if !(k == 0 || k > args.len()) {
        let j = (k - 1) as nat;
        names_foreign_arguments(env, args, j, base, scope);
        names_expression(env, args[k - 1], foreign_arguments(env, args, j, base, scope).scope);
    }
}

/// A call of another contract adds no names.
proof fn names_interface_call(env: Env, e: Expr, want_value: bool, scope: Scope)
    ensures
        same_names(scope, interface_call(env, e, want_value, scope).scope),
    decreases depth(env), e, 0nat, 4nat,
{
    if let Expr::MethodCall(receiver, method, args) = e {
        if let Expr::Call(_, targets) = *receiver {
            if targets@.len() == 1 {
                names_expression(env, targets@[0], scope);
                let inner = expression(env, targets@[0], scope).scope;
                names_foreign_arguments(
                    env,
                    args@,
                    args@.len(),
                    inner.next_local,
                    inner.reserved_for_call(args@.len()),
                );
            }
        }
    }
}

/// The values of an event add no names.
proof fn names_event_values(
    env: Env,
    literal: Seq<FieldValue>,
    fields: Seq<EventParameter>,
    k: nat,
    scope: Scope,
)
    ensures
        same_names(scope, event_values(env, literal, fields, k, scope).scope),
    decreases depth(env), literal, k, 0nat,
{
    if k > 0 {
        let j = (k - 1) as nat;
        names_event_values(env, literal, fields, j, scope);
        if let Some(i) = literal_field(literal, fields[k - 1].name, literal.len()) {
            lemma_literal_field(literal, fields[k - 1].name, literal.len());
            names_expression(
                env,
                literal[i as int].value,
                event_values(env, literal, fields, j, scope).scope,
            );
        }
    }
}

/// The value of a block adds no names.
proof fn names_value_statement(env: Env, e: Expr, tail: Tail, scope: Scope)
    ensures
        same_names(scope, value_statement(env, e, tail, scope).scope),
    decreases depth(env), e, 0nat, 8nat,
{
    names_expression(env, e, scope);
    if let Expr::Tuple(elems) = e {
        names_values(env, elems@, elems@.len(), scope);
    }
}

/// An assignment adds no names.
pub proof fn names_assignment(env: Env, e: Expr, scope: Scope)
    ensures
        same_names(scope, assignment(env, e, scope).scope),
    decreases depth(env), e, 0nat, 8nat,
{
    if let Expr::Assign(left, right) = e {
        names_expression(env, *right, scope);
    }
}

/// `insert` adds no names.
pub proof fn names_mapping_insert(env: Env, e: Expr, scope: Scope)
    ensures
        same_names(scope, mapping_insert(env, e, scope).scope),
    decreases depth(env), e, 0nat, 8nat,
{
    if let Expr::MethodCall(receiver, _, args) = e {
        if args@.len() == 2 {
            let base = place(env, *receiver, scope).scope;
            names_place(env, *receiver, scope);
            names_expression(env, args@[1], base);
            names_expression(env, args@[0], expression(env, args@[1], base).scope);
        }
    }
}

/// `set` adds no names.
pub proof fn names_array_set(env: Env, e: Expr, scope: Scope)
    ensures
        same_names(scope, array_set(env, e, scope).scope),
    decreases depth(env), e, 0nat, 8nat,
{
    if let Expr::MethodCall(receiver, _, args) = e {
        if args@.len() == 2 {
            names_expression(env, args@[1], scope);
            names_expression(env, args@[0], expression(env, args@[1], scope).scope);
        }
    }
}

/// `push` adds no names.
proof fn names_array_push(env: Env, e: Expr, scope: Scope)
    ensures
        same_names(scope, array_push(env, e, scope).scope),
    decreases depth(env), e, 0nat, 8nat,
{
    if let Expr::MethodCall(receiver, _, args) = e {
        if args@.len() == 1 {
            names_expression(env, args@[0], scope);
        }
    }
}

/// `require` adds no names.
proof fn names_requirement(env: Env, e: Expr, scope: Scope)
    ensures
        same_names(scope, requirement(env, e, scope).scope),
    decreases depth(env), e, 0nat, 8nat,
{
    if let Expr::Call(_, args) = e {
        if args@.len() > 0 {
            names_expression(env, args@[0], scope);
        }
    }
}

/// `emit` adds no names.
proof fn names_emission(env: Env, e: Expr, scope: Scope)
    ensures
        same_names(scope, emission(env, e, scope).scope),
    decreases depth(env), e, 0nat, 8nat,
{
    if let Expr::Call(_, args) = e {
        if args@.len() > 0 {
            if let Expr::Struct(name, literal) = args@[0] {
                if let Some(event) = lookup(env.contract.events, name@) {
                    names_event_values(env, literal@, event.fields, event.fields.len(), scope);
                }
            }
        }
    }
}

/// The names of a list of statements.
proof fn from_statements(env: Env, stmts: Seq<Stmt>, k: nat, tail: Tail, scope: Scope, floor: nat)
    requires
        scope_ok(scope),
        names_from(scope.locals, floor),
        floor <= scope.next_local,
    ensures
        names_from(statements(env, stmts, k, tail, scope).scope.locals, floor),
    decreases depth(env), stmts, k, 0nat,
{
    if !(k == 0 || k > stmts.len()) {
        let j = (k - 1) as nat;
        let before = statements(env, stmts, j, tail, scope).scope;
        from_statements(env, stmts, j, tail, scope, floor);
        sound_statements(env, stmts, j, tail, scope);
        let last = if k == stmts.len() {
            tail
        } else {
            Tail::Void
        };
        from_statement(env, stmts[k - 1], last, before, floor);
    }
}

/// The names of a statement.
proof fn from_statement(env: Env, stmt: Stmt, tail: Tail, scope: Scope, floor: nat)
    requires
        scope_ok(scope),
        names_from(scope.locals, floor),
        floor <= scope.next_local,
    ensures
        names_from(statement(env, stmt, tail, scope).scope.locals, floor),
    decreases depth(env), stmt, 0nat, 1nat,
{
    match stmt {
        Stmt::Expr(e, semi) => {
            let last = if semi {
                Tail::Void
            } else {
                tail
            };
            from_expression_statement(env, e, last, scope, floor);
        },
        Stmt::Local(pat, init) => {
            if let Some(e) = init {
                names_expression(env, e, scope);
                sound_expression(env, e, scope);
                let value = expression(env, e, scope).scope;
                if let Ok(name) = pattern_name(pat) {
                    lemma_names_push(value.locals, name, value.next_local, floor);
                }
            }
        },
        Stmt::Other => {},
    }
}

/// The names of a block.
proof fn from_block(env: Env, stmts: Seq<Stmt>, tail: Tail, scope: Scope, floor: nat)
    requires
        scope_ok(scope),
        names_from(scope.locals, floor),
        floor <= scope.next_local,
    ensures
        names_from(block(env, stmts, tail, scope).scope.locals, floor),
    decreases depth(env), stmts, stmts.len(), 1nat,
{
    from_statements(env, stmts, stmts.len(), tail, scope, floor);
}

/// The names of an expression that stands as a statement.
proof fn from_expression_statement(env: Env, e: Expr, tail: Tail, scope: Scope, floor: nat)
    requires
        scope_ok(scope),
        names_from(scope.locals, floor),
        floor <= scope.next_local,
    ensures
        names_from(expression_statement(env, e, tail, scope).scope.locals, floor),
    decreases depth(env), e, 0nat, 9nat,
{
    match e {
        Expr::Assign(left, right) => names_assignment(env, e, scope),
        Expr::MethodCall(receiver, method, args) => {
            names_interface_call(env, e, false, scope);
            names_mapping_insert(env, e, scope);
            names_array_set(env, e, scope);
            names_array_push(env, e, scope);
            names_internal_call(env, e, false, scope);
            names_value_statement(env, e, tail, scope);
        },
        Expr::Call(func, args) => {
            names_requirement(env, e, scope);
            names_emission(env, e, scope);
            names_value_statement(env, e, tail, scope);
        },
        Expr::If(cond, body, otherwise) => from_conditional(env, e, scope, floor),
        Expr::While(cond, body) => {
            let test = expression(env, *cond, scope).scope;
            names_expression(env, *cond, scope);
            sound_expression(env, *cond, scope);
            from_block(env, body@, Tail::Void, test, floor);
        },
        _ => names_value_statement(env, e, tail, scope),
    }
}

/// The names of an `if`.
proof fn from_conditional(env: Env, e: Expr, scope: Scope, floor: nat)
    requires
        scope_ok(scope),
        names_from(scope.locals, floor),
        floor <= scope.next_local,
    ensures
        names_from(conditional(env, e, scope).scope.locals, floor),
    decreases depth(env), e, 0nat, 8nat,
{
    if let Expr::If(cond, body, otherwise) = e {
        let test = expression(env, *cond, scope).scope;
        names_expression(env, *cond, scope);
        sound_expression(env, *cond, scope);
        from_block(env, body@, Tail::Void, test, floor);
        law_block_sound(env, body@, Tail::Void, test);
        let yes = block(env, body@, Tail::Void, test).scope;
        if let Some(other) = otherwise {
            match *other {
                Expr::Block(stmts) => {
                    from_block(env, stmts@, Tail::Void, yes, floor);
                },
                Expr::If(_, _, _) => from_conditional(env, *other, yes, floor),
                _ => {},
            }
        }
    }
}

/// Expressions leave the words below alone.
proof fn keep_expression(
    chain: Chain,
    env: Env,
    e: Expr,
    scope: Scope,
    st: Store,
    rounds: nat,
    floor: nat,
)
    requires
        scope_ok(scope),
        clean(expression(env, e, scope).code),
        floor <= scope.next_local,
    ensures
        keeps(st, eval_expression(chain, env, e, scope, st, rounds), floor),
    decreases depth(env), e, 0nat, 5nat,
{
    lemma_same_below(st, floor);
    match e {
        Expr::MethodCall(receiver, method, args) => {
            if interface_of(env.contract, *receiver) is Some {
                keep_interface_call(chain, env, e, true, scope, st, rounds, floor);
            } else if self_path(*receiver) && lookup(
                env.contract.internal_functions,
                method@,
            ) is Some {
                keep_internal_call(chain, env, e, true, scope, st, rounds, floor);
            } else if method@ == "get"@ {
                lemma_get_clean(env, e, scope);
                keep_place(chain, env, e, scope, st, rounds, floor);
            }
        },
        Expr::Binary(op, left, right) => {
            keep_binary(chain, env, e, scope, st, rounds, floor);
        },
        Expr::Paren(inner) => keep_expression(chain, env, *inner, scope, st, rounds, floor),
        _ => {},
    }
}

/// Operators leave the words below alone.
proof fn keep_binary(
    chain: Chain,
    env: Env,
    e: Expr,
    scope: Scope,
    st: Store,
    rounds: nat,
    floor: nat,
)
    requires
        scope_ok(scope),
        clean(binary(env, e, scope).code),
        floor <= scope.next_local,
    ensures
        keeps(st, eval_binary(chain, env, e, scope, st, rounds), floor),
    decreases depth(env), e, 0nat, 4nat,
{
    lemma_same_below(st, floor);
    if let Expr::Binary(op, left, right) = e {
        let l = expression(env, *left, scope);
        let r = expression(env, *right, l.scope);
        sound_expression(env, *left, scope);
        assert(clean(l.code) && clean(r.code));
        if right_first(op) {
            keep_expression(chain, env, *right, l.scope, st, rounds, floor);
            if let Outcome::Value(_, st1) = eval_expression(
                chain,
                env,
                *right,
                l.scope,
                st,
                rounds,
            ) {
                keep_expression(chain, env, *left, scope, st1, rounds, floor);
                lemma_same_trans(
                    st,
                    st1,
                    eval_expression(chain, env, *left, scope, st1, rounds),
                    floor,
                );
            }
        } else {
            keep_expression(chain, env, *left, scope, st, rounds, floor);
            if let Outcome::Value(_, st1) = eval_expression(chain, env, *left, scope, st, rounds) {
                keep_expression(chain, env, *right, l.scope, st1, rounds, floor);
                lemma_same_trans(
                    st,
                    st1,
                    eval_expression(chain, env, *right, l.scope, st1, rounds),
                    floor,
                );
            }
        }
    }
}

/// The code of a place in storage.
pub open spec fn place_clean(env: Env, e: Expr, scope: Scope) -> bool {
    place(env, e, scope).place matches Ok((code, _)) && clean(code)
}

/// A `get` without faults has a place without faults.
proof fn lemma_get_clean(env: Env, e: Expr, scope: Scope)
    requires
        clean(get_value(env, e, scope).code),
    ensures
        place_clean(env, e, scope),
{
}

/// The parts of an `insert` without faults.
proof fn lemma_insert_clean(
    env: Env,
    receiver: Box<Expr>,
    method: String,
    args: Vec<Expr>,
    scope: Scope,
)
    requires
        clean(mapping_insert(env, Expr::MethodCall(receiver, method, args), scope).code),
    ensures
        args@.len() == 2,
        place_clean(env, *receiver, scope),
        ({
            let value = expression(env, args@[1], place(env, *receiver, scope).scope);
            &&& clean(value.code)
            &&& clean(expression(env, args@[0], value.scope).code)
        }),
{
}

/// Places in storage leave the words below alone.
proof fn keep_place(
    chain: Chain,
    env: Env,
    e: Expr,
    scope: Scope,
    st: Store,
    rounds: nat,
    floor: nat,
)
    requires
        scope_ok(scope),
        place_clean(env, e, scope),
        floor <= scope.next_local,
    ensures
        keeps(st, eval_place(chain, env, e, scope, st, rounds), floor),
    decreases depth(env), e, 0nat, 3nat,
{
    lemma_same_below(st, floor);
    if let Expr::MethodCall(receiver, method, args) = e {
        let base = place(env, *receiver, scope);
        sound_place(env, *receiver, scope);
        keep_place(chain, env, *receiver, scope, st, rounds, floor);
        if let Outcome::Value(_, st1) = eval_place(chain, env, *receiver, scope, st, rounds) {
            keep_expression(chain, env, args@[0], base.scope, st1, rounds, floor);
            lemma_same_trans(
                st,
                st1,
                eval_expression(chain, env, args@[0], base.scope, st1, rounds),
                floor,
            );
        }
    }
}

/// Lists of expressions leave the words below alone.
proof fn keep_values(
    chain: Chain,
    env: Env,
    elems: Seq<Expr>,
    k: nat,
    scope: Scope,
    st: Store,
    rounds: nat,
    floor: nat,
)
    requires
        scope_ok(scope),
        clean(values(env, elems, k, scope).code),
        floor <= scope.next_local,
    ensures
        keeps(st, eval_values(chain, env, elems, k, scope, st, rounds), floor),
    decreases depth(env), elems, k, 0nat,
{
    lemma_same_below(st, floor);
    if !(k == 0 || k > elems.len()) {
        let j = (k - 1) as nat;
        let before = values(env, elems, j, scope);
        sound_values(env, elems, j, scope);
        keep_values(chain, env, elems, j, scope, st, rounds, floor);
        if let Outcome::Values(_, st1) = eval_values(chain, env, elems, j, scope, st, rounds) {
            keep_expression(chain, env, elems[k - 1], before.scope, st1, rounds, floor);
            lemma_same_trans(
                st,
                st1,
                eval_expression(chain, env, elems[k - 1], before.scope, st1, rounds),
                floor,
            );
        }
    }
}

/// The arguments of an internal call leave the words below alone, and stand for words behind them.
proof fn keep_bindings(
    chain: Chain,
    env: Env,
    params: Seq<Parameter>,
    args: Seq<Expr>,
    k: nat,
    scope: Scope,
    st: Store,
    rounds: nat,
    floor: nat,
)
    requires
        scope_ok(scope),
        clean(bindings(env, params, args, k, scope).code),
        floor <= scope.next_local,
    ensures
        names_from(bindings(env, params, args, k, scope).locals, floor),
        keeps(st, eval_bindings(chain, env, params, args, k, scope, st, rounds), floor),
    decreases depth(env), args, k, 0nat,
{
    lemma_same_below(st, floor);
    reveal(names_from);
    if !(k == 0 || k > args.len()) {
        let j = (k - 1) as nat;
        let before = bindings(env, params, args, j, scope);
        let inner = before.scope;
        let value = expression(env, args[k - 1], inner);
        sound_bindings(env, params, args, j, scope);
        sound_expression(env, args[k - 1], inner);
        let cell = value.scope.next_local;
        keep_bindings(chain, env, params, args, j, scope, st, rounds, floor);
        lemma_names_push(before.locals, params[k - 1].name, cell, floor);
        if let Outcome::Next(st1) = eval_bindings(
            chain,
            env,
            params,
            args,
            j,
            scope,
            st,
            rounds,
        ) {
            keep_expression(chain, env, args[k - 1], inner, st1, rounds, floor);
            let o = eval_expression(chain, env, args[k - 1], inner, st1, rounds);
            lemma_same_trans(st, st1, o, floor);
            if let Outcome::Value(v, st2) = o {
                lemma_same_cell(st, st2, cell as nat, v, floor);
            }
        }
    }
}

/// The meaning of a block, as proofs about the code around it see it.
#[verifier::opaque]
spec fn block_result(
    chain: Chain,
    env: Env,
    stmts: Seq<Stmt>,
    tail: Tail,
    scope: Scope,
    st: Store,
    rounds: nat,
) -> Outcome {
    eval_block(chain, env, stmts, tail, scope, st, rounds)
}

/// Whether a block has no faults, as proofs about the code around it see it.
#[verifier::opaque]
spec fn faultless_block(env: Env, stmts: Seq<Stmt>, tail: Tail, scope: Scope) -> bool {
    clean(block(env, stmts, tail, scope).code)
}

/// The scope behind a block, as proofs about the code around it see it.
#[verifier::opaque]
spec fn scope_behind_block(env: Env, stmts: Seq<Stmt>, tail: Tail, scope: Scope) -> Scope {
    block(env, stmts, tail, scope).scope
}

/// A block behind other code.
proof fn keep_block_result(
    chain: Chain,
    env: Env,
    stmts: Seq<Stmt>,
    tail: Tail,
    scope: Scope,
    before: Store,
    st: Store,
    rounds: nat,
    floor: nat,
)
    requires
        scope_ok(scope),
        faultless_block(env, stmts, tail, scope),
        names_from(scope.locals, floor),
        floor <= scope.next_local,
        same_below(before, st, floor),
    ensures
        keeps(before, block_result(chain, env, stmts, tail, scope, st, rounds), floor),
    decreases depth(env), stmts, stmts.len(), 2nat,
{
    reveal(block_result);
    reveal(faultless_block);
    keep_block(chain, env, stmts, tail, scope, st, rounds, floor);
    lemma_same_trans(before, st, eval_block(chain, env, stmts, tail, scope, st, rounds), floor);
}

/// The meaning of the arguments of an internal call, as proofs about the code around them see it.
#[verifier::opaque]
spec fn bindings_result(
    chain: Chain,
    env: Env,
    params: Seq<Parameter>,
    args: Seq<Expr>,
    scope: Scope,
    st: Store,
    rounds: nat,
) -> Outcome {
    eval_bindings(chain, env, params, args, args.len(), scope, st, rounds)
}

/// Whether the arguments of an internal call have no faults, as proofs about the code around them
/// see it.
#[verifier::opaque]
spec fn faultless_bindings(
    env: Env,
    params: Seq<Parameter>,
    args: Seq<Expr>,
    scope: Scope,
) -> bool {
    clean(bindings(env, params, args, args.len(), scope).code)
}

/// The scope in which the body of an internal function starts.
#[verifier::opaque]
spec fn callee_scope(env: Env, params: Seq<Parameter>, args: Seq<Expr>, scope: Scope) -> Scope {
    let bound = bindings(env, params, args, args.len(), scope);
    Scope { locals: bound.locals, params: Seq::empty(), next_local: bound.scope.next_local }
}

/// The arguments of an internal call leave the words below alone, and stand for words behind them.
proof fn keep_bindings_result(
    chain: Chain,
    env: Env,
    params: Seq<Parameter>,
    args: Seq<Expr>,
    scope: Scope,
    st: Store,
    rounds: nat,
    floor: nat,
)
    requires
        scope_ok(scope),
        faultless_bindings(env, params, args, scope),
        floor <= scope.next_local,
    ensures
        keeps(st, bindings_result(chain, env, params, args, scope, st, rounds), floor),
        scope_ok(callee_scope(env, params, args, scope)),
        names_from(callee_scope(env, params, args, scope).locals, floor),
        floor <= callee_scope(env, params, args, scope).next_local,
    decreases depth(env), args, args.len(), 1nat,
{
    reveal(bindings_result);
    reveal(faultless_bindings);
    reveal(callee_scope);
    sound_bindings(env, params, args, args.len(), scope);
    keep_bindings(chain, env, params, args, args.len(), scope, st, rounds, floor);
}

/// The meaning of an internal call, as proofs about its parts see it.
#[verifier::opaque]
spec fn internal_result(
    chain: Chain,
    env: Env,
    e: Expr,
    want_value: bool,
    scope: Scope,
    st: Store,
    rounds: nat,
) -> Outcome {
    eval_internal_call(chain, env, e, want_value, scope, st, rounds)
}

/// Whether an internal call has no faults, as proofs about its parts see it.
#[verifier::opaque]
spec fn faultless_internal(env: Env, e: Expr, want_value: bool, scope: Scope) -> bool {
    clean(internal_call(env, e, want_value, scope).code)
}

/// What becomes of the body of an internal function.
spec fn then_back(o: Outcome, has_output: bool, want_value: bool) -> Outcome {
    match o {
        Outcome::Value(v, after) => if !has_output {
            Outcome::Unfinished
        } else if want_value {
            Outcome::Value(v, after)
        } else {
            Outcome::Next(after)
        },
        Outcome::Next(after) => if !has_output && !want_value {
            Outcome::Next(after)
        } else {
            Outcome::Unfinished
        },
        other => bail(other),
    }
}

/// What becomes of the last value of the body of an internal function.
spec fn callee_tail(callee: Internal) -> Tail {
    if callee.output is Some {
        Tail::Leave
    } else {
        Tail::Void
    }
}

/// An internal call, over its parts.
proof fn unfold_internal(
    chain: Chain,
    env: Env,
    e: Expr,
    want_value: bool,
    scope: Scope,
    st: Store,
    rounds: nat,
)
    requires
        faultless_internal(env, e, want_value, scope),
    ensures
        (match e {
            Expr::MethodCall(_, method, args) => match lookup(
                env.contract.internal_functions,
                method@,
            ) {
                Some(callee) => {
                    let inner = callee_scope(env, callee.params, args@, scope);
                    let within = env.within(method@);
                    let tail = callee_tail(callee);
                    &&& !env.stack.contains(method@)
                    &&& faultless_bindings(env, callee.params, args@, scope)
                    &&& faultless_block(within, callee.block, tail, inner)
                    &&& internal_result(chain, env, e, want_value, scope, st, rounds)
                        == match bindings_result(
                        chain,
                        env,
                        callee.params,
                        args@,
                        scope,
                        st,
                        rounds,
                    ) {
                        Outcome::Next(bound) => then_back(
                            block_result(
                                chain,
                                within,
                                callee.block,
                                tail,
                                inner,
                                bound,
                                rounds,
                            ),
                            callee.output is Some,
                            want_value,
                        ),
                        other => bail(other),
                    }
                },
                None => false,
            },
            _ => false,
        }),
{
    reveal(internal_result);
    reveal(faultless_internal);
    reveal(bindings_result);
    reveal(faultless_bindings);
    reveal(callee_scope);
    reveal(block_result);
    reveal(faultless_block);
}

/// An internal call, over its parts, leaves the words of its caller alone.
proof fn keep_internal_result(
    chain: Chain,
    env: Env,
    e: Expr,
    want_value: bool,
    scope: Scope,
    st: Store,
    rounds: nat,
    floor: nat,
)
    requires
        scope_ok(scope),
        faultless_internal(env, e, want_value, scope),
        floor <= scope.next_local,
    ensures
        keeps(st, internal_result(chain, env, e, want_value, scope, st, rounds), floor),
    decreases depth(env), e, 0nat, 3nat,
{
    unfold_internal(chain, env, e, want_value, scope, st, rounds);
    if let Expr::MethodCall(_, method, args) = e {
        if let Some(callee) = lookup(env.contract.internal_functions, method@) {
            let inner = callee_scope(env, callee.params, args@, scope);
            keep_bindings_result(chain, env, callee.params, args@, scope, st, rounds, floor);
            lemma_depth(env, method@);
            if let Outcome::Next(st1) = bindings_result(
                chain,
                env,
                callee.params,
                args@,
                scope,
                st,
                rounds,
            ) {
                keep_block_result(
                    chain,
                    env.within(method@),
                    callee.block,
                    callee_tail(callee),
                    inner,
                    st,
                    st1,
                    rounds,
                    floor,
                );
            }
        }
    }
}

/// An internal call leaves the words of its caller alone.
proof fn keep_internal_call(
    chain: Chain,
    env: Env,
    e: Expr,
    want_value: bool,
    scope: Scope,
    st: Store,
    rounds: nat,
    floor: nat,
)
    requires
        scope_ok(scope),
        clean(internal_call(env, e, want_value, scope).code),
        floor <= scope.next_local,
    ensures
        keeps(st, eval_internal_call(chain, env, e, want_value, scope, st, rounds), floor),
    decreases depth(env), e, 0nat, 4nat,
{
    reveal(internal_result);
    reveal(faultless_internal);
    keep_internal_result(chain, env, e, want_value, scope, st, rounds, floor);
}

/// The arguments of a call of another contract leave the words below alone.
proof fn keep_foreign_arguments(
    chain: Chain,
    env: Env,
    args: Seq<Expr>,
    k: nat,
    base: u32,
    scope: Scope,
    st: Store,
    rounds: nat,
    floor: nat,
)
    requires
        scope_ok(scope),
        clean(foreign_arguments(env, args, k, base, scope).code),
        floor <= scope.next_local,
        floor <= base,
    ensures
        keeps(st, eval_foreign_arguments(chain, env, args, k, base, scope, st, rounds), floor),
    decreases depth(env), args, k, 0nat,
{
    lemma_same_below(st, floor);
    if !(k == 0 || k > args.len()) {
        let j = (k - 1) as nat;
        let before = foreign_arguments(env, args, j, base, scope);
        sound_foreign_arguments(env, args, j, base, scope);
        keep_foreign_arguments(chain, env, args, j, base, scope, st, rounds, floor);
        if let Outcome::Next(st1) = eval_foreign_arguments(
            chain,
            env,
            args,
            j,
            base,
            scope,
            st,
            rounds,
        ) {
            keep_expression(chain, env, args[k - 1], before.scope, st1, rounds, floor);
            let o = eval_expression(chain, env, args[k - 1], before.scope, st1, rounds);
            lemma_same_trans(st, st1, o, floor);
            if let Outcome::Value(v, st2) = o {
                lemma_same_cell(st, st2, (base + 32 * k) as nat, v, floor);
            }
        }
    }
}

/// The call itself changes only storage, log and calls.
proof fn lemma_foreign_call_keeps(
    chain: Chain,
    before: Store,
    base: nat,
    nargs: nat,
    mutable: bool,
    want_value: bool,
    st: Store,
    floor: nat,
)
    requires
        same_below(before, st, floor),
    ensures
        forall|target: nat|
            keeps(
                before,
                #[trigger] foreign_call(chain, target, base, nargs, mutable, want_value, st),
                floor,
            ),
{
    assert forall|target: nat|
        keeps(
            before,
            #[trigger] foreign_call(chain, target, base, nargs, mutable, want_value, st),
            floor,
        ) by {
        match foreign_call(chain, target, base, nargs, mutable, want_value, st) {
            Outcome::Next(after) => lemma_same_cells(before, st, after, floor),
            Outcome::Value(_, after) => lemma_same_cells(before, st, after, floor),
            _ => {},
        }
    }
}

/// A call of another contract leaves the words below alone.
proof fn keep_interface_call(
    chain: Chain,
    env: Env,
    e: Expr,
    want_value: bool,
    scope: Scope,
    st: Store,
    rounds: nat,
    floor: nat,
)
    requires
        scope_ok(scope),
        clean(interface_call(env, e, want_value, scope).code),
        floor <= scope.next_local,
    ensures
        keeps(st, eval_interface_call(chain, env, e, want_value, scope, st, rounds), floor),
    decreases depth(env), e, 0nat, 4nat,
{
    lemma_same_below(st, floor);
    if let Expr::MethodCall(receiver, method, args) = e {
        if let Some(methods) = interface_of(env.contract, *receiver) {
            if let Expr::Call(_, targets) = *receiver {
                if let Some(callee) = lookup(methods, method@) {
                    let target = expression(env, targets@[0], scope);
                    let base = target.scope.next_local;
                    let k = args@.len();
                    let reserved = target.scope.reserved_for_call(k);
                    assert(target.scope.has_room_for_call(k));
                    assert(clean(target.code));
                    assert(clean(foreign_arguments(env, args@, k, base, reserved).code));
                    sound_expression(env, targets@[0], scope);
                    lemma_scope_reserved_for_call(target.scope, k);
                    keep_expression(chain, env, targets@[0], scope, st, rounds, floor);
                    if let Outcome::Value(_, st1) = eval_expression(
                        chain,
                        env,
                        targets@[0],
                        scope,
                        st,
                        rounds,
                    ) {
                        let selector = be_value(keccak256_digest(encode_utf8(callee.sig)).take(4));
                        let st2 = st1.with_cell(base as nat, selector);
                        lemma_same_cell(st, st1, base as nat, selector, floor);
                        keep_foreign_arguments(
                            chain,
                            env,
                            args@,
                            k,
                            base,
                            reserved,
                            st2,
                            rounds,
                            floor,
                        );
                        let o = eval_foreign_arguments(
                            chain,
                            env,
                            args@,
                            k,
                            base,
                            reserved,
                            st2,
                            rounds,
                        );
                        lemma_same_trans(st, st2, o, floor);
                        if let Outcome::Next(st3) = o {
                            lemma_foreign_call_keeps(
                                chain, st, base as nat, k, callee.mutable, want_value, st3, floor,
                            );
                        }
                    }
                }
            }
        }
    }
}

/// Statements leave the words below alone.
proof fn keep_statements(
    chain: Chain,
    env: Env,
    stmts: Seq<Stmt>,
    k: nat,
    tail: Tail,
    scope: Scope,
    st: Store,
    rounds: nat,
    floor: nat,
)
    requires
        scope_ok(scope),
        clean(statements(env, stmts, k, tail, scope).code),
        names_from(scope.locals, floor),
        floor <= scope.next_local,
    ensures
        keeps(st, eval_statements(chain, env, stmts, k, tail, scope, st, rounds), floor),
    decreases depth(env), stmts, k, 0nat,
{
    lemma_same_below(st, floor);
    if !(k == 0 || k > stmts.len()) {
        let j = (k - 1) as nat;
        let before = statements(env, stmts, j, tail, scope);
        sound_statements(env, stmts, j, tail, scope);
        from_statements(env, stmts, j, tail, scope, floor);
        keep_statements(chain, env, stmts, j, tail, scope, st, rounds, floor);
        let last = if k == stmts.len() {
            tail
        } else {
            Tail::Void
        };
        if let Outcome::Next(st1) = eval_statements(
            chain,
            env,
            stmts,
            j,
            tail,
            scope,
            st,
            rounds,
        ) {
            keep_statement(chain, env, stmts[k - 1], last, before.scope, st1, rounds, floor);
            lemma_same_trans(
                st,
                st1,
                eval_statement(chain, env, stmts[k - 1], last, before.scope, st1, rounds),
                floor,
            );
        }
    }
}

/// A block leaves the words below alone.
proof fn keep_block(
    chain: Chain,
    env: Env,
    stmts: Seq<Stmt>,
    tail: Tail,
    scope: Scope,
    st: Store,
    rounds: nat,
    floor: nat,
)
    requires
        scope_ok(scope),
        clean(block(env, stmts, tail, scope).code),
        names_from(scope.locals, floor),
        floor <= scope.next_local,
    ensures
        keeps(st, eval_block(chain, env, stmts, tail, scope, st, rounds), floor),
    decreases depth(env), stmts, stmts.len(), 1nat,
{
    lemma_same_below(st, floor);
    keep_statements(chain, env, stmts, stmts.len(), tail, scope, st, rounds, floor);
}

/// A statement leaves the words below alone.
proof fn keep_statement(
    chain: Chain,
    env: Env,
    stmt: Stmt,
    tail: Tail,
    scope: Scope,
    st: Store,
    rounds: nat,
    floor: nat,
)
    requires
        scope_ok(scope),
        clean(statement(env, stmt, tail, scope).code),
        names_from(scope.locals, floor),
        floor <= scope.next_local,
    ensures
        keeps(st, eval_statement(chain, env, stmt, tail, scope, st, rounds), floor),
    decreases depth(env), stmt, 0nat, 1nat,
{
    lemma_same_below(st, floor);
    match stmt {
        Stmt::Expr(e, semi) => {
            let last = if semi {
                Tail::Void
            } else {
                tail
            };
            keep_expression_statement(chain, env, e, last, scope, st, rounds, floor);
        },
        Stmt::Local(pat, init) => {
            if let Some(e) = init {
                sound_expression(env, e, scope);
                keep_expression(chain, env, e, scope, st, rounds, floor);
                if let Outcome::Value(v, st1) = eval_expression(chain, env, e, scope, st, rounds) {
                    let cell = expression(env, e, scope).scope.next_local as nat;
                    lemma_same_cell(st, st1, cell, v, floor);
                }
            }
        },
        Stmt::Other => {},
    }
}

/// An expression that stands as a statement leaves the words below alone.
proof fn keep_expression_statement(
    chain: Chain,
    env: Env,
    e: Expr,
    tail: Tail,
    scope: Scope,
    st: Store,
    rounds: nat,
    floor: nat,
)
    requires
        scope_ok(scope),
        clean(expression_statement(env, e, tail, scope).code),
        names_from(scope.locals, floor),
        floor <= scope.next_local,
    ensures
        keeps(st, eval_expression_statement(chain, env, e, tail, scope, st, rounds), floor),
    decreases depth(env), e, rounds + 1, 9nat,
{
    lemma_same_below(st, floor);
    match e {
        Expr::Assign(left, right) => {
            keep_assignment(chain, env, e, scope, st, rounds, floor);
        },
        Expr::MethodCall(receiver, method, args) => {
            if interface_of(env.contract, *receiver) is Some {
                if tail == Tail::Void {
                    keep_interface_call(chain, env, e, false, scope, st, rounds, floor);
                } else {
                    keep_value(chain, env, e, tail, scope, st, rounds, floor);
                }
            } else if method@ == "insert"@ {
                keep_mapping_insert(chain, env, e, scope, st, rounds, floor);
            } else if method@ == "set"@ {
                keep_array_set(chain, env, e, scope, st, rounds, floor);
            } else if method@ == "push"@ {
                keep_array_push(chain, env, e, scope, st, rounds, floor);
            } else if tail == Tail::Void && self_path(*receiver) && lookup(
                env.contract.internal_functions,
                method@,
            ) is Some {
                keep_internal_call(chain, env, e, false, scope, st, rounds, floor);
            } else {
                keep_value(chain, env, e, tail, scope, st, rounds, floor);
            }
        },
        Expr::Call(func, args) => {
            if path_is(*func, "require"@) {
                keep_requirement(chain, env, e, scope, st, rounds, floor);
            } else if path_is(*func, "emit"@) {
                keep_emission(chain, env, e, scope, st, rounds, floor);
            } else {
                keep_value(chain, env, e, tail, scope, st, rounds, floor);
            }
        },
        Expr::If(cond, body, otherwise) => {
            keep_conditional(chain, env, e, scope, st, rounds, floor);
        },
        Expr::While(cond, body) => {
            keep_repetition(chain, env, e, scope, st, rounds, rounds, floor);
        },
        _ => keep_value(chain, env, e, tail, scope, st, rounds, floor),
    }
}

/// The values of a list, as proofs about the code around them see them.
#[verifier::opaque]
spec fn values_result(
    chain: Chain,
    env: Env,
    elems: Seq<Expr>,
    scope: Scope,
    st: Store,
    rounds: nat,
) -> Outcome {
    eval_values(chain, env, elems, elems.len(), scope, st, rounds)
}

/// Whether a list has no faults, as proofs about the code around it see it.
#[verifier::opaque]
spec fn faultless_values(env: Env, elems: Seq<Expr>, scope: Scope) -> bool {
    clean(values(env, elems, elems.len(), scope).code)
}

/// The meaning of the value of a block, as proofs about its parts see it.
#[verifier::opaque]
spec fn value_result(
    chain: Chain,
    env: Env,
    e: Expr,
    tail: Tail,
    scope: Scope,
    st: Store,
    rounds: nat,
) -> Outcome {
    eval_value(chain, env, e, tail, scope, st, rounds)
}

/// Whether the value of a block has no faults, as proofs about its parts see it.
#[verifier::opaque]
spec fn faultless_value(env: Env, e: Expr, tail: Tail, scope: Scope) -> bool {
    clean(value_statement(env, e, tail, scope).code)
}

/// The value of a block, over its parts.
proof fn unfold_value(
    chain: Chain,
    env: Env,
    e: Expr,
    tail: Tail,
    scope: Scope,
    st: Store,
    rounds: nat,
)
    requires
        faultless_value(env, e, tail, scope),
    ensures
        (match tail {
            Tail::Return => match e {
                Expr::Tuple(elems) => {
                    &&& faultless_values(env, elems@, scope)
                    &&& value_result(chain, env, e, tail, scope, st, rounds) == then_return_words(
                        values_result(chain, env, elems@, scope, st, rounds),
                    )
                },
                _ => {
                    &&& faultless(env, e, scope)
                    &&& value_result(chain, env, e, tail, scope, st, rounds) == then_return(
                        result_of(chain, env, e, scope, st, rounds),
                        env.ret_string,
                    )
                },
            },
            Tail::Leave => {
                &&& faultless(env, e, scope)
                &&& value_result(chain, env, e, tail, scope, st, rounds) == result_of(
                    chain,
                    env,
                    e,
                    scope,
                    st,
                    rounds,
                )
            },
            Tail::Void => false,
        }),
{
    reveal(values_result);
    reveal(faultless_values);
    reveal(value_result);
    reveal(faultless_value);
    reveal(faultless);
    reveal(result_of);
}

/// Lists of expressions leave the words below alone.
proof fn keep_values_result(
    chain: Chain,
    env: Env,
    elems: Seq<Expr>,
    scope: Scope,
    st: Store,
    rounds: nat,
    floor: nat,
)
    requires
        scope_ok(scope),
        faultless_values(env, elems, scope),
        floor <= scope.next_local,
    ensures
        keeps(st, values_result(chain, env, elems, scope, st, rounds), floor),
    decreases depth(env), elems, elems.len(), 1nat,
{
    reveal(values_result);
    reveal(faultless_values);
    keep_values(chain, env, elems, elems.len(), scope, st, rounds, floor);
}

/// The value of a block, over its parts, leaves the words below alone.
proof fn keep_value_result(
    chain: Chain,
    env: Env,
    e: Expr,
    tail: Tail,
    scope: Scope,
    st: Store,
    rounds: nat,
    floor: nat,
)
    requires
        scope_ok(scope),
        faultless_value(env, e, tail, scope),
        floor <= scope.next_local,
    ensures
        keeps(st, value_result(chain, env, e, tail, scope, st, rounds), floor),
    decreases depth(env), e, 0nat, 7nat,
{
    lemma_same_below(st, floor);
    unfold_value(chain, env, e, tail, scope, st, rounds);
    match e {
        Expr::Tuple(elems) => {
            if tail == Tail::Return {
                keep_values_result(chain, env, elems@, scope, st, rounds, floor);
            } else {
                keep_result(chain, env, e, scope, st, st, rounds, floor);
            }
        },
        _ => keep_result(chain, env, e, scope, st, st, rounds, floor),
    }
}

/// The value of a block leaves the words below alone.
proof fn keep_value(
    chain: Chain,
    env: Env,
    e: Expr,
    tail: Tail,
    scope: Scope,
    st: Store,
    rounds: nat,
    floor: nat,
)
    requires
        scope_ok(scope),
        clean(value_statement(env, e, tail, scope).code),
        floor <= scope.next_local,
    ensures
        keeps(st, eval_value(chain, env, e, tail, scope, st, rounds), floor),
    decreases depth(env), e, 0nat, 8nat,
{
    reveal(value_result);
    reveal(faultless_value);
    keep_value_result(chain, env, e, tail, scope, st, rounds, floor);
}

/// An assignment leaves the words below alone.
proof fn keep_assignment(
    chain: Chain,
    env: Env,
    e: Expr,
    scope: Scope,
    st: Store,
    rounds: nat,
    floor: nat,
)
    requires
        scope_ok(scope),
        clean(assignment(env, e, scope).code),
        names_from(scope.locals, floor),
        floor <= scope.next_local,
    ensures
        keeps(st, eval_assignment(chain, env, e, scope, st, rounds), floor),
    decreases depth(env), e, 0nat, 8nat,
{
    lemma_same_below(st, floor);
    if let Expr::Assign(left, right) = e {
        keep_expression(chain, env, *right, scope, st, rounds, floor);
        if let Outcome::Value(v, st1) = eval_expression(chain, env, *right, scope, st, rounds) {
            match *left {
                Expr::Field(_, member) => {
                    if let Ok(slot) = slot_of(env.contract, member) {
                        lemma_same_cells(st, st1, st1.with_slot(slot as nat, v), floor);
                    }
                },
                Expr::Ident(name) => {
                    lemma_name_from(scope.locals, name@, floor);
                    if let Some(offset) = lookup(scope.locals, name@) {
                        lemma_same_cell(st, st1, offset as nat, v, floor);
                    }
                },
                _ => {},
            }
        }
    }
}

/// The scope behind an expression, as proofs about the code around it see it.
#[verifier::opaque]
spec fn scope_behind(env: Env, e: Expr, scope: Scope) -> Scope {
    expression(env, e, scope).scope
}

/// Whether an expression has no faults, as proofs about the code around it see it.
#[verifier::opaque]
spec fn faultless(env: Env, e: Expr, scope: Scope) -> bool {
    clean(expression(env, e, scope).code)
}

/// The meaning of an expression, as proofs about the code around it see it.
#[verifier::opaque]
spec fn result_of(
    chain: Chain,
    env: Env,
    e: Expr,
    scope: Scope,
    st: Store,
    rounds: nat,
) -> Outcome {
    eval_expression(chain, env, e, scope, st, rounds)
}

/// The scope behind a place in storage, as proofs about the code around it see it.
#[verifier::opaque]
spec fn scope_behind_place(env: Env, e: Expr, scope: Scope) -> Scope {
    place(env, e, scope).scope
}

/// The meaning of a place in storage, as proofs about the code around it see it.
#[verifier::opaque]
spec fn place_result(
    chain: Chain,
    env: Env,
    e: Expr,
    scope: Scope,
    st: Store,
    rounds: nat,
) -> Outcome {
    eval_place(chain, env, e, scope, st, rounds)
}

/// Whether a place has no faults, as proofs about the code around it see it.
#[verifier::opaque]
spec fn faultless_place(env: Env, e: Expr, scope: Scope) -> bool {
    place_clean(env, e, scope)
}

/// An expression behind other code.
proof fn keep_result(
    chain: Chain,
    env: Env,
    e: Expr,
    scope: Scope,
    before: Store,
    st: Store,
    rounds: nat,
    floor: nat,
)
    requires
        scope_ok(scope),
        faultless(env, e, scope),
        floor <= scope.next_local,
        same_below(before, st, floor),
    ensures
        keeps(before, result_of(chain, env, e, scope, st, rounds), floor),
    decreases depth(env), e, 0nat, 6nat,
{
    reveal(faultless);
    reveal(result_of);
    keep_expression(chain, env, e, scope, st, rounds, floor);
    lemma_same_trans(before, st, eval_expression(chain, env, e, scope, st, rounds), floor);
}

/// A place in storage behind other code.
proof fn keep_place_result(
    chain: Chain,
    env: Env,
    e: Expr,
    scope: Scope,
    before: Store,
    st: Store,
    rounds: nat,
    floor: nat,
)
    requires
        scope_ok(scope),
        faultless_place(env, e, scope),
        floor <= scope.next_local,
        same_below(before, st, floor),
    ensures
        keeps(before, place_result(chain, env, e, scope, st, rounds), floor),
    decreases depth(env), e, 0nat, 6nat,
{
    reveal(faultless_place);
    reveal(place_result);
    keep_place(chain, env, e, scope, st, rounds, floor);
    lemma_same_trans(before, st, eval_place(chain, env, e, scope, st, rounds), floor);
}

/// The meaning of an `insert`, as proofs about its parts see it.
#[verifier::opaque]
spec fn insert_result(
    chain: Chain,
    env: Env,
    e: Expr,
    scope: Scope,
    st: Store,
    rounds: nat,
) -> Outcome {
    eval_mapping_insert(chain, env, e, scope, st, rounds)
}

/// Whether an `insert` has no faults, as proofs about its parts see it.
#[verifier::opaque]
spec fn faultless_insert(env: Env, e: Expr, scope: Scope) -> bool {
    clean(mapping_insert(env, e, scope).code)
}

/// `insert`, over its parts.
proof fn unfold_insert(
    chain: Chain,
    env: Env,
    receiver: Box<Expr>,
    method: String,
    args: Vec<Expr>,
    scope: Scope,
    st: Store,
    rounds: nat,
)
    requires
        scope_ok(scope),
        faultless_insert(env, Expr::MethodCall(receiver, method, args), scope),
    ensures
        args@.len() == 2,
        ({
            let inner = scope_behind_place(env, *receiver, scope);
            let behind = scope_behind(env, args@[1], inner);
            &&& scope_ok(inner)
            &&& scope.next_local <= inner.next_local
            &&& scope_ok(behind)
            &&& inner.next_local <= behind.next_local
            &&& faultless_place(env, *receiver, scope)
            &&& faultless(env, args@[1], inner)
            &&& faultless(env, args@[0], behind)
            &&& insert_result(
                chain,
                env,
                Expr::MethodCall(receiver, method, args),
                scope,
                st,
                rounds,
            ) == match result_of(chain, env, args@[1], inner, st, rounds) {
                Outcome::Value(v, st1) => match place_result(
                    chain,
                    env,
                    *receiver,
                    scope,
                    st1,
                    rounds,
                ) {
                    Outcome::Value(base, st2) => match result_of(
                        chain,
                        env,
                        args@[0],
                        behind,
                        st2,
                        rounds,
                    ) {
                        Outcome::Value(key, st3) => Outcome::Next(
                            st3.with_slot(mapping_slot(base, key), v),
                        ),
                        other => bail(other),
                    },
                    other => bail(other),
                },
                other => bail(other),
            }
        }),
{
    reveal(faultless_insert);
    reveal(insert_result);
    reveal(scope_behind);
    reveal(faultless);
    reveal(result_of);
    reveal(scope_behind_place);
    reveal(place_result);
    reveal(faultless_place);
    lemma_insert_clean(env, receiver, method, args, scope);
    let inner = place(env, *receiver, scope).scope;
    sound_place(env, *receiver, scope);
    sound_expression(env, args@[1], inner);
}

/// An `insert`, over its parts, leaves the words below alone.
proof fn keep_insert_result(
    chain: Chain,
    env: Env,
    e: Expr,
    scope: Scope,
    st: Store,
    rounds: nat,
    floor: nat,
)
    requires
        scope_ok(scope),
        faultless_insert(env, e, scope),
        floor <= scope.next_local,
    ensures
        keeps(st, insert_result(chain, env, e, scope, st, rounds), floor),
    decreases depth(env), e, 0nat, 7nat,
{
    lemma_same_below(st, floor);
    if let Expr::MethodCall(receiver, method, args) = e {
        unfold_insert(chain, env, receiver, method, args, scope, st, rounds);
        let inner = scope_behind_place(env, *receiver, scope);
        let behind = scope_behind(env, args@[1], inner);
        keep_result(chain, env, args@[1], inner, st, st, rounds, floor);
        if let Outcome::Value(v, st1) = result_of(chain, env, args@[1], inner, st, rounds) {
            keep_place_result(chain, env, *receiver, scope, st, st1, rounds, floor);
            if let Outcome::Value(base, st2) = place_result(
                chain,
                env,
                *receiver,
                scope,
                st1,
                rounds,
            ) {
                keep_result(chain, env, args@[0], behind, st, st2, rounds, floor);
                if let Outcome::Value(key, st3) = result_of(
                    chain,
                    env,
                    args@[0],
                    behind,
                    st2,
                    rounds,
                ) {
                    lemma_same_cells(st, st3, st3.with_slot(mapping_slot(base, key), v), floor);
                }
            }
        }
    } else {
        reveal(faultless_insert);
    }
}

/// `insert` leaves the words below alone.
proof fn keep_mapping_insert(
    chain: Chain,
    env: Env,
    e: Expr,
    scope: Scope,
    st: Store,
    rounds: nat,
    floor: nat,
)
    requires
        scope_ok(scope),
        clean(mapping_insert(env, e, scope).code),
        floor <= scope.next_local,
    ensures
        keeps(st, eval_mapping_insert(chain, env, e, scope, st, rounds), floor),
    decreases depth(env), e, 0nat, 8nat,
{
    reveal(faultless_insert);
    reveal(insert_result);
    keep_insert_result(chain, env, e, scope, st, rounds, floor);
}

/// `set` leaves the words below alone.
proof fn keep_array_set(
    chain: Chain,
    env: Env,
    e: Expr,
    scope: Scope,
    st: Store,
    rounds: nat,
    floor: nat,
)
    requires
        scope_ok(scope),
        clean(array_set(env, e, scope).code),
        floor <= scope.next_local,
    ensures
        keeps(st, eval_array_set(chain, env, e, scope, st, rounds), floor),
    decreases depth(env), e, 0nat, 8nat,
{
    lemma_same_below(st, floor);
    if let Expr::MethodCall(receiver, _, args) = e {
        if let Ok(field) = field_of(env.contract, *receiver) {
            if args@.len() == 2 {
                let value = expression(env, args@[1], scope);
                sound_expression(env, args@[1], scope);
                assert(clean(value.code));
                assert(clean(expression(env, args@[0], value.scope).code));
                keep_expression(chain, env, args@[1], scope, st, rounds, floor);
                if let Outcome::Value(v, st1) = eval_expression(
                    chain,
                    env,
                    args@[1],
                    scope,
                    st,
                    rounds,
                ) {
                    keep_expression(chain, env, args@[0], value.scope, st1, rounds, floor);
                    let o = eval_expression(chain, env, args@[0], value.scope, st1, rounds);
                    lemma_same_trans(st, st1, o, floor);
                    if let Outcome::Value(i, st2) = o {
                        let slot = array_slot(field.slot as nat, i);
                        lemma_same_cells(st, st2, st2.with_slot(slot, v), floor);
                    }
                }
            }
        }
    }
}

/// `push` leaves the words below alone.
proof fn keep_array_push(
    chain: Chain,
    env: Env,
    e: Expr,
    scope: Scope,
    st: Store,
    rounds: nat,
    floor: nat,
)
    requires
        scope_ok(scope),
        clean(array_push(env, e, scope).code),
        floor <= scope.next_local,
    ensures
        keeps(st, eval_array_push(chain, env, e, scope, st, rounds), floor),
    decreases depth(env), e, 0nat, 8nat,
{
    lemma_same_below(st, floor);
    if let Expr::MethodCall(receiver, _, args) = e {
        if let Ok(field) = field_of(env.contract, *receiver) {
            if args@.len() == 1 {
                keep_expression(chain, env, args@[0], scope, st, rounds, floor);
                if let Outcome::Value(v, st1) = eval_expression(
                    chain,
                    env,
                    args@[0],
                    scope,
                    st,
                    rounds,
                ) {
                    lemma_same_cells(st, st1, array_grown(st1, field.slot as nat, v), floor);
                }
            }
        }
    }
}

/// `require` leaves the words below alone.
proof fn keep_requirement(
    chain: Chain,
    env: Env,
    e: Expr,
    scope: Scope,
    st: Store,
    rounds: nat,
    floor: nat,
)
    requires
        scope_ok(scope),
        clean(requirement(env, e, scope).code),
        floor <= scope.next_local,
    ensures
        keeps(st, eval_requirement(chain, env, e, scope, st, rounds), floor),
    decreases depth(env), e, 0nat, 8nat,
{
    lemma_same_below(st, floor);
    if let Expr::Call(_, args) = e {
        if args@.len() > 0 {
            keep_expression(chain, env, args@[0], scope, st, rounds, floor);
        }
    }
}

/// The values of an event leave the words below alone.
proof fn keep_event_values(
    chain: Chain,
    env: Env,
    literal: Seq<FieldValue>,
    fields: Seq<EventParameter>,
    k: nat,
    scope: Scope,
    st: Store,
    rounds: nat,
    floor: nat,
)
    requires
        scope_ok(scope),
        clean(event_values(env, literal, fields, k, scope).code),
        floor <= scope.next_local,
    ensures
        keeps(st, eval_event_values(chain, env, literal, fields, k, scope, st, rounds), floor),
    decreases depth(env), literal, k, 0nat,
{
    lemma_same_below(st, floor);
    if k > 0 {
        let j = (k - 1) as nat;
        let before = event_values(env, literal, fields, j, scope);
        sound_event_values(env, literal, fields, j, scope);
        keep_event_values(chain, env, literal, fields, j, scope, st, rounds, floor);
        if let Some(i) = literal_field(literal, fields[k - 1].name, literal.len()) {
            lemma_literal_field(literal, fields[k - 1].name, literal.len());
            let value = literal[i as int].value;
            if let Outcome::Values(_, st1) = eval_event_values(
                chain,
                env,
                literal,
                fields,
                j,
                scope,
                st,
                rounds,
            ) {
                keep_expression(chain, env, value, before.scope, st1, rounds, floor);
                lemma_same_trans(
                    st,
                    st1,
                    eval_expression(chain, env, value, before.scope, st1, rounds),
                    floor,
                );
            }
        }
    }
}

/// The scope behind the values of an event, as proofs about the code around it see it.
#[verifier::opaque]
spec fn scope_behind_event(
    env: Env,
    literal: Seq<FieldValue>,
    fields: Seq<EventParameter>,
    scope: Scope,
) -> Scope {
    event_values(env, literal, fields, fields.len(), scope).scope
}

/// Whether the values of an event have no faults, as proofs about the code around it see it.
#[verifier::opaque]
spec fn faultless_event(
    env: Env,
    literal: Seq<FieldValue>,
    fields: Seq<EventParameter>,
    scope: Scope,
) -> bool {
    clean(event_values(env, literal, fields, fields.len(), scope).code)
}

/// The values of an event, as proofs about the code around it see them.
#[verifier::opaque]
spec fn event_result(
    chain: Chain,
    env: Env,
    literal: Seq<FieldValue>,
    fields: Seq<EventParameter>,
    scope: Scope,
    st: Store,
    rounds: nat,
) -> Outcome {
    eval_event_values(chain, env, literal, fields, fields.len(), scope, st, rounds)
}

/// The values of an event leave the words below alone.
proof fn keep_event_result(
    chain: Chain,
    env: Env,
    literal: Seq<FieldValue>,
    fields: Seq<EventParameter>,
    scope: Scope,
    st: Store,
    rounds: nat,
    floor: nat,
)
    requires
        scope_ok(scope),
        faultless_event(env, literal, fields, scope),
        floor <= scope.next_local,
    ensures
        keeps(st, event_result(chain, env, literal, fields, scope, st, rounds), floor),
        floor <= scope_behind_event(env, literal, fields, scope).next_local,
        event_result(chain, env, literal, fields, scope, st, rounds) matches Outcome::Values(
            vs,
            _,
        ) ==> vs.len() == fields.len(),
    decreases depth(env), literal, fields.len(), 1nat,
{
    reveal(scope_behind_event);
    reveal(faultless_event);
    reveal(event_result);
    let k = fields.len();
    sound_event_values(env, literal, fields, k, scope);
    keep_event_values(chain, env, literal, fields, k, scope, st, rounds, floor);
    lemma_event_values_len(chain, env, literal, fields, k, scope, st, rounds);
}

/// What becomes of the values of an event.
spec fn then_logged(o: Outcome, name: Seq<char>, params: Seq<Parameter>, first: nat) -> Outcome {
    match o {
        Outcome::Values(vs, after) => match signature(name, params) {
            Err(_) => Outcome::Unfinished,
            Ok(sig) => Outcome::Next(
                after.overlaid(first, vs).with_log(
                    Log {
                        topics: seq![be_value(keccak256_digest(encode_utf8(sig)))],
                        data: words_data(vs),
                    },
                ),
            ),
        },
        other => bail(other),
    }
}

/// The meaning of an `emit`, as proofs about its parts see it.
#[verifier::opaque]
spec fn emission_result(
    chain: Chain,
    env: Env,
    e: Expr,
    scope: Scope,
    st: Store,
    rounds: nat,
) -> Outcome {
    eval_emission(chain, env, e, scope, st, rounds)
}

/// Whether an `emit` has no faults, as proofs about its parts see it.
#[verifier::opaque]
spec fn faultless_emission(env: Env, e: Expr, scope: Scope) -> bool {
    clean(emission(env, e, scope).code)
}

/// The form of an `emit` without faults.
proof fn lemma_emission_form(env: Env, e: Expr, scope: Scope)
    requires
        faultless_emission(env, e, scope),
    ensures
        e matches Expr::Call(_, args) && args@.len() > 0 && (args@[0] matches Expr::Struct(name, _)
            && lookup(env.contract.events, name@) is Some),
{
    reveal(faultless_emission);
}

/// `emit`, over its parts.
proof fn unfold_emission(
    chain: Chain,
    env: Env,
    args: Vec<Expr>,
    func: Box<Expr>,
    name: String,
    literal: Vec<FieldValue>,
    scope: Scope,
    st: Store,
    rounds: nat,
)
    requires
        args@.len() > 0,
        args@[0] == Expr::Struct(name, literal),
        lookup(env.contract.events, name@) is Some,
        faultless_emission(env, Expr::Call(func, args), scope),
    ensures
        ({
            let event = lookup(env.contract.events, name@)->Some_0;
            let behind = scope_behind_event(env, literal@, event.fields, scope);
            &&& faultless_event(env, literal@, event.fields, scope)
            &&& emission_result(chain, env, Expr::Call(func, args), scope, st, rounds)
                == then_logged(
                event_result(chain, env, literal@, event.fields, scope, st, rounds),
                event.name,
                event.params(),
                data_place(behind, event.fields.len()),
            )
        }),
{
    reveal(faultless_emission);
    reveal(emission_result);
    reveal(scope_behind_event);
    reveal(faultless_event);
    reveal(event_result);
}

/// An `emit`, over its parts, leaves the words below alone.
proof fn keep_emission_result(
    chain: Chain,
    env: Env,
    e: Expr,
    scope: Scope,
    st: Store,
    rounds: nat,
    floor: nat,
)
    requires
        scope_ok(scope),
        faultless_emission(env, e, scope),
        floor <= scope.next_local,
    ensures
        keeps(st, emission_result(chain, env, e, scope, st, rounds), floor),
    decreases depth(env), e, 0nat, 7nat,
{
    lemma_emission_form(env, e, scope);
    if let Expr::Call(func, args) = e {
        if args@.len() > 0 {
            if let Expr::Struct(name, literal) = args@[0] {
                if let Some(event) = lookup(env.contract.events, name@) {
                    unfold_emission(
                        chain, env, args, func, name, literal, scope, st, rounds,
                    );
                    keep_event_result(
                        chain,
                        env,
                        literal@,
                        event.fields,
                        scope,
                        st,
                        rounds,
                        floor,
                    );
                    let behind = scope_behind_event(env, literal@, event.fields, scope);
                    if let Outcome::Values(vs, st1) = event_result(
                        chain,
                        env,
                        literal@,
                        event.fields,
                        scope,
                        st,
                        rounds,
                    ) {
                        if let Ok(sig) = signature(event.name, event.params()) {
                            lemma_same_logged(st, st1, behind, vs, sig, floor);
                        }
                    }
                }
            }
        }
    }
}

/// `emit` leaves the words below alone.
proof fn keep_emission(
    chain: Chain,
    env: Env,
    e: Expr,
    scope: Scope,
    st: Store,
    rounds: nat,
    floor: nat,
)
    requires
        scope_ok(scope),
        clean(emission(env, e, scope).code),
        floor <= scope.next_local,
    ensures
        keeps(st, eval_emission(chain, env, e, scope, st, rounds), floor),
    decreases depth(env), e, 0nat, 8nat,
{
    reveal(faultless_emission);
    reveal(emission_result);
    keep_emission_result(chain, env, e, scope, st, rounds, floor);
}

/// The meaning of an `if`, as proofs about its parts see it.
#[verifier::opaque]
spec fn conditional_result(
    chain: Chain,
    env: Env,
    e: Expr,
    scope: Scope,
    st: Store,
    rounds: nat,
) -> Outcome {
    eval_conditional(chain, env, e, scope, st, rounds)
}

/// Whether an `if` has no faults, as proofs about its parts see it.
#[verifier::opaque]
spec fn faultless_conditional(env: Env, e: Expr, scope: Scope) -> bool {
    clean(conditional(env, e, scope).code)
}

/// The scopes in an `if` or a `while`: behind the condition, and behind the body.
proof fn lemma_inner_scopes(env: Env, cond: Expr, body: Seq<Stmt>, scope: Scope, floor: nat)
    requires
        scope_ok(scope),
        names_from(scope.locals, floor),
        floor <= scope.next_local,
    ensures
        ({
            let inner = scope_behind(env, cond, scope);
            let behind = scope_behind_block(env, body, Tail::Void, inner);
            &&& scope_ok(inner)
            &&& names_from(inner.locals, floor)
            &&& floor <= inner.next_local
            &&& scope_ok(behind)
            &&& names_from(behind.locals, floor)
            &&& floor <= behind.next_local
        }),
{
    reveal(scope_behind);
    reveal(scope_behind_block);
    let inner = expression(env, cond, scope).scope;
    sound_expression(env, cond, scope);
    names_expression(env, cond, scope);
    law_block_sound(env, body, Tail::Void, inner);
    from_block(env, body, Tail::Void, inner, floor);
}

/// `if`, over its parts.
proof fn unfold_conditional(
    chain: Chain,
    env: Env,
    e: Expr,
    scope: Scope,
    st: Store,
    rounds: nat,
)
    requires
        faultless_conditional(env, e, scope),
    ensures
        (match e {
            Expr::If(cond, body, otherwise) => {
                let inner = scope_behind(env, *cond, scope);
                let skipped = scope_behind_block(env, body@, Tail::Void, inner);
                &&& faultless(env, *cond, scope)
                &&& faultless_block(env, body@, Tail::Void, inner)
                &&& match otherwise {
                    None => true,
                    Some(other) => match *other {
                        Expr::Block(stmts) => faultless_block(env, stmts@, Tail::Void, skipped),
                        Expr::If(_, _, _) => faultless_conditional(env, *other, skipped),
                        _ => false,
                    },
                }
                &&& conditional_result(chain, env, e, scope, st, rounds) == match result_of(
                    chain,
                    env,
                    *cond,
                    scope,
                    st,
                    rounds,
                ) {
                    Outcome::Value(v, after) => if v != 0 {
                        done(
                            block_result(chain, env, body@, Tail::Void, inner, after, rounds),
                        )
                    } else {
                        match otherwise {
                            None => Outcome::Next(after),
                            Some(other) => match *other {
                                Expr::Block(stmts) => done(
                                    block_result(
                                        chain,
                                        env,
                                        stmts@,
                                        Tail::Void,
                                        skipped,
                                        after,
                                        rounds,
                                    ),
                                ),
                                Expr::If(_, _, _) => done(
                                    conditional_result(
                                        chain,
                                        env,
                                        *other,
                                        skipped,
                                        after,
                                        rounds,
                                    ),
                                ),
                                _ => Outcome::Unfinished,
                            },
                        }
                    },
                    other => bail(other),
                }
            },
            _ => false,
        }),
{
    reveal(conditional_result);
    reveal(faultless_conditional);
    reveal(faultless);
    reveal(result_of);
    reveal(scope_behind);
    reveal(block_result);
    reveal(faultless_block);
    reveal(scope_behind_block);
}

/// An `if`, over its parts, leaves the words below alone.
proof fn keep_conditional_result(
    chain: Chain,
    env: Env,
    e: Expr,
    scope: Scope,
    before: Store,
    st: Store,
    rounds: nat,
    floor: nat,
)
    requires
        scope_ok(scope),
        faultless_conditional(env, e, scope),
        names_from(scope.locals, floor),
        floor <= scope.next_local,
        same_below(before, st, floor),
    ensures
        keeps(before, conditional_result(chain, env, e, scope, st, rounds), floor),
    decreases depth(env), e, 0nat, 7nat,
{
    unfold_conditional(chain, env, e, scope, st, rounds);
    if let Expr::If(cond, body, otherwise) = e {
        let inner = scope_behind(env, *cond, scope);
        let skipped = scope_behind_block(env, body@, Tail::Void, inner);
        lemma_inner_scopes(env, *cond, body@, scope, floor);
        keep_result(chain, env, *cond, scope, before, st, rounds, floor);
        if let Outcome::Value(v, st1) = result_of(chain, env, *cond, scope, st, rounds) {
            let void = Tail::Void;
            if v != 0 {
                keep_block_result(chain, env, body@, void, inner, before, st1, rounds, floor);
            } else if let Some(other) = otherwise {
                match *other {
                    Expr::Block(stmts) => {
                        keep_block_result(
                            chain,
                            env,
                            stmts@,
                            void,
                            skipped,
                            before,
                            st1,
                            rounds,
                            floor,
                        );
                    },
                    Expr::If(_, _, _) => {
                        keep_conditional_result(
                            chain,
                            env,
                            *other,
                            skipped,
                            before,
                            st1,
                            rounds,
                            floor,
                        );
                    },
                    _ => {},
                }
            }
        }
    }
}

/// `if` leaves the words below alone.
proof fn keep_conditional(
    chain: Chain,
    env: Env,
    e: Expr,
    scope: Scope,
    st: Store,
    rounds: nat,
    floor: nat,
)
    requires
        scope_ok(scope),
        clean(conditional(env, e, scope).code),
        names_from(scope.locals, floor),
        floor <= scope.next_local,
    ensures
        keeps(st, eval_conditional(chain, env, e, scope, st, rounds), floor),
    decreases depth(env), e, 0nat, 8nat,
{
    reveal(conditional_result);
    reveal(faultless_conditional);
    lemma_same_below(st, floor);
    keep_conditional_result(chain, env, e, scope, st, st, rounds, floor);
}

/// The meaning of a `while`, as proofs about its parts see it.
#[verifier::opaque]
spec fn loop_result(
    chain: Chain,
    env: Env,
    e: Expr,
    scope: Scope,
    st: Store,
    rounds: nat,
    left: nat,
) -> Outcome {
    eval_repetition(chain, env, e, scope, st, rounds, left)
}

/// Whether a `while` has no faults, as proofs about its parts see it.
#[verifier::opaque]
spec fn faultless_loop(env: Env, e: Expr, scope: Scope) -> bool {
    clean(repetition(env, e, scope).code)
}

/// `while`, over its parts.
proof fn unfold_loop(
    chain: Chain,
    env: Env,
    e: Expr,
    scope: Scope,
    st: Store,
    rounds: nat,
    left: nat,
)
    requires
        faultless_loop(env, e, scope),
    ensures
        (match e {
            Expr::While(cond, body) => {
                let inner = scope_behind(env, *cond, scope);
                &&& faultless(env, *cond, scope)
                &&& faultless_block(env, body@, Tail::Void, inner)
                &&& loop_result(chain, env, e, scope, st, rounds, left) == if left == 0 {
                    Outcome::Unfinished
                } else {
                    match result_of(chain, env, *cond, scope, st, rounds) {
                        Outcome::Value(v, after) => if v == 0 {
                            Outcome::Next(after)
                        } else {
                            match block_result(
                                chain,
                                env,
                                body@,
                                Tail::Void,
                                inner,
                                after,
                                rounds,
                            ) {
                                Outcome::Next(again) => loop_result(
                                    chain,
                                    env,
                                    e,
                                    scope,
                                    again,
                                    rounds,
                                    (left - 1) as nat,
                                ),
                                other => bail(other),
                            }
                        },
                        other => bail(other),
                    }
                }
            },
            _ => false,
        }),
{
    reveal(loop_result);
    reveal(faultless_loop);
    reveal(faultless);
    reveal(result_of);
    reveal(scope_behind);
    reveal(block_result);
    reveal(faultless_block);
}

/// A `while`, over its parts, leaves the words below alone.
proof fn keep_loop_result(
    chain: Chain,
    env: Env,
    e: Expr,
    scope: Scope,
    before: Store,
    st: Store,
    rounds: nat,
    left: nat,
    floor: nat,
)
    requires
        scope_ok(scope),
        faultless_loop(env, e, scope),
        names_from(scope.locals, floor),
        floor <= scope.next_local,
        same_below(before, st, floor),
    ensures
        keeps(before, loop_result(chain, env, e, scope, st, rounds, left), floor),
    decreases depth(env), e, left, 7nat,
{
    unfold_loop(chain, env, e, scope, st, rounds, left);
    if let Expr::While(cond, body) = e {
        let inner = scope_behind(env, *cond, scope);
        lemma_inner_scopes(env, *cond, body@, scope, floor);
        if left > 0 {
            keep_result(chain, env, *cond, scope, before, st, rounds, floor);
            if let Outcome::Value(v, st1) = result_of(chain, env, *cond, scope, st, rounds) {
                let void = Tail::Void;
                keep_block_result(chain, env, body@, void, inner, before, st1, rounds, floor);
                if let Outcome::Next(st2) = block_result(
                    chain,
                    env,
                    body@,
                    void,
                    inner,
                    st1,
                    rounds,
                ) {
                    let less = (left - 1) as nat;
                    keep_loop_result(chain, env, e, scope, before, st2, rounds, less, floor);
                }
            }
        }
    }
}

/// `while` leaves the words below alone.
proof fn keep_repetition(
    chain: Chain,
    env: Env,
    e: Expr,
    scope: Scope,
    st: Store,
    rounds: nat,
    left: nat,
    floor: nat,
)
    requires
        scope_ok(scope),
        clean(repetition(env, e, scope).code),
        names_from(scope.locals, floor),
        floor <= scope.next_local,
    ensures
        keeps(st, eval_repetition(chain, env, e, scope, st, rounds, left), floor),
    decreases depth(env), e, left, 8nat,
{
    reveal(loop_result);
    reveal(faultless_loop);
    lemma_same_below(st, floor);
    keep_loop_result(chain, env, e, scope, st, st, rounds, left, floor);
}

/// A variable is what it was, if the words below the next one are.
pub proof fn lemma_variable_kept(
    chain: Chain,
    name: Seq<char>,
    scope: Scope,
    behind: Scope,
    st: Store,
    after: Store,
)
    requires
        scope_ok(scope),
        same_names(scope, behind),
        same_below(st, after, scope.next_local as nat),
    ensures
        variable(chain, name, behind, after) == variable(chain, name, scope, st),
{
    reveal(same_below);
    lemma_local_is_cell(scope, name);
    lemma_local_below(scope, name);
}

/// The store that an outcome ends with.
pub open spec fn store_of(outcome: Outcome) -> Option<Store> {
    match outcome {
        Outcome::Next(st) => Some(st),
        Outcome::Value(_, st) => Some(st),
        Outcome::Values(_, st) => Some(st),
        Outcome::Returned(_, st) => Some(st),
        _ => None,
    }
}

/// An expression changes no variable and adds none: every name reads behind it as before it,
/// whatever functions it calls.
pub proof fn law_expression_keeps_variables(
    chain: Chain,
    env: Env,
    e: Expr,
    scope: Scope,
    st: Store,
    rounds: nat,
    name: Seq<char>,
)
    requires
        scope_ok(scope),
        clean(expression(env, e, scope).code),
    ensures
        same_names(scope, expression(env, e, scope).scope),
        store_of(eval_expression(chain, env, e, scope, st, rounds)) matches Some(after)
            ==> variable(chain, name, expression(env, e, scope).scope, after) == variable(
            chain,
            name,
            scope,
            st,
        ),
{
    names_expression(env, e, scope);
    keep_expression(chain, env, e, scope, st, rounds, scope.next_local as nat);
    if let Some(after) = store_of(eval_expression(chain, env, e, scope, st, rounds)) {
        lemma_variable_kept(chain, name, scope, expression(env, e, scope).scope, st, after);
    }
}

/// A call of an internal function leaves the variables of its caller alone: the names that are
/// known stay the same, and each reads behind the call as before it. What the callee declares and
/// assigns is its own, though the callee is inlined.
pub proof fn law_internal_call_keeps_variables(
    chain: Chain,
    env: Env,
    e: Expr,
    want_value: bool,
    scope: Scope,
    st: Store,
    rounds: nat,
    name: Seq<char>,
)
    requires
        scope_ok(scope),
        clean(internal_call(env, e, want_value, scope).code),
    ensures
        internal_call(env, e, want_value, scope).scope.locals == scope.locals,
        internal_call(env, e, want_value, scope).scope.params == scope.params,
        store_of(eval_internal_call(chain, env, e, want_value, scope, st, rounds)) matches Some(
            after,
        ) ==> {
            let behind = internal_call(env, e, want_value, scope).scope;
            &&& variable(chain, name, behind, after) == variable(chain, name, scope, st)
            &&& variable(chain, name, scope, after) == variable(chain, name, scope, st)
        },
{
    let behind = internal_call(env, e, want_value, scope).scope;
    names_internal_call(env, e, want_value, scope);
    keep_internal_call(chain, env, e, want_value, scope, st, rounds, scope.next_local as nat);
    let o = eval_internal_call(chain, env, e, want_value, scope, st, rounds);
    if let Some(after) = store_of(o) {
        lemma_variable_kept(chain, name, scope, behind, st, after);
        lemma_variable_kept(chain, name, scope, scope, st, after);
    }
}

/// An `emit` leaves all variables alone, however many fields the event has: its data is laid out in
/// memory that no variable has.
pub proof fn law_emit_keeps_variables(
    chain: Chain,
    env: Env,
    e: Expr,
    scope: Scope,
    st: Store,
    rounds: nat,
    name: Seq<char>,
)
    requires
        scope_ok(scope),
        clean(emission(env, e, scope).code),
    ensures
        same_names(scope, emission(env, e, scope).scope),
        store_of(eval_emission(chain, env, e, scope, st, rounds)) matches Some(after) ==> variable(
            chain,
            name,
            emission(env, e, scope).scope,
            after,
        ) == variable(chain, name, scope, st),
{
    names_emission(env, e, scope);
    keep_emission(chain, env, e, scope, st, rounds, scope.next_local as nat);
    if let Some(after) = store_of(eval_emission(chain, env, e, scope, st, rounds)) {
        lemma_variable_kept(chain, name, scope, emission(env, e, scope).scope, st, after);
    }
}

} // verus!
