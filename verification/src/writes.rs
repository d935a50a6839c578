//! What statements write: which variable or slot takes which value, and that nothing else changes.

use vstd::prelude::*;

use crate::abi::Parameter;
use crate::ast::{Expr, FieldValue, Member, Pat, Stmt};
use crate::bytes::{be_bytes, be_value};
use crate::calls::{first_of_name, law_literal_field};
use crate::errors::Fault;
use crate::keccak::keccak256_digest;
use crate::machine::{modulus, slot_value, Chain, Storage};
use crate::meaning::{
    eval_array_push, eval_array_set, eval_assignment, eval_bindings, eval_conditional,
    eval_event_values, eval_expression, eval_expression_statement, eval_foreign_arguments,
    eval_mapping_insert, eval_place, eval_repetition, eval_requirement, eval_statement, Outcome,
    Store,
};
use crate::model::{Env, EventParameter, Scope, StorageField};
use crate::names::lookup;
use crate::scheme::{
    bindings, event_values, expression, field_of, foreign_arguments, interface_of, place, Tail,
};

verus! {

/// The digest of data, as a word.
pub open spec fn digest_word(data: Seq<u8>) -> nat {
    (be_value(keccak256_digest(data)) as int % modulus() as int) as nat
}

/// `let` puts the value into the word of memory that was free behind it, and writes nothing else.
pub proof fn law_let(
    chain: Chain,
    env: Env,
    pat: Pat,
    e: Expr,
    tail: Tail,
    scope: Scope,
    st: Store,
    rounds: nat,
    v: nat,
    mid: Store,
)
    requires
        eval_expression(chain, env, e, scope, st, rounds) == Outcome::Value(v, mid),
    ensures
        eval_statement(chain, env, Stmt::Local(pat, Some(e)), tail, scope, st, rounds)
            == Outcome::Next(
            Store {
                cells: mid.cells.insert(expression(env, e, scope).scope.next_local as nat, v),
                ..mid
            },
        ),
{
}

/// An assignment to a field writes its slot, one to a local variable its word of memory, and
/// neither writes anything else.
pub proof fn law_assign(
    chain: Chain,
    env: Env,
    base: Box<Expr>,
    name: String,
    right: Box<Expr>,
    semi: bool,
    tail: Tail,
    scope: Scope,
    st: Store,
    rounds: nat,
    v: nat,
    mid: Store,
)
    requires
        eval_expression(chain, env, *right, scope, st, rounds) == Outcome::Value(v, mid),
    ensures
        lookup(env.contract.storage, name@) matches Some(field) ==> eval_statement(
            chain,
            env,
            Stmt::Expr(
                Expr::Assign(Box::new(Expr::Field(base, Member::Named(name))), right),
                semi,
            ),
            tail,
            scope,
            st,
            rounds,
        ) == Outcome::Next(
            Store { storage: mid.storage.insert(field.slot as nat, v), ..mid },
        ),
        lookup(scope.locals, name@) matches Some(offset) ==> eval_statement(
            chain,
            env,
            Stmt::Expr(Expr::Assign(Box::new(Expr::Ident(name)), right), semi),
            tail,
            scope,
            st,
            rounds,
        ) == Outcome::Next(Store { cells: mid.cells.insert(offset as nat, v), ..mid }),
{
    let last = if semi {
        Tail::Void
    } else {
        tail
    };
    let field = Expr::Assign(Box::new(Expr::Field(base, Member::Named(name))), right);
    let local = Expr::Assign(Box::new(Expr::Ident(name)), right);
    assert(eval_expression_statement(chain, env, field, last, scope, st, rounds)
        == eval_assignment(chain, env, field, scope, st, rounds));
    assert(eval_expression_statement(chain, env, local, last, scope, st, rounds)
        == eval_assignment(chain, env, local, scope, st, rounds));
}

/// `insert` writes the slot that the key has in the mapping, and nothing else. The value is
/// computed first, and the key last.
pub proof fn law_insert(
    chain: Chain,
    env: Env,
    receiver: Box<Expr>,
    method: String,
    args: Vec<Expr>,
    semi: bool,
    tail: Tail,
    scope: Scope,
    st: Store,
    rounds: nat,
    v: nat,
    st1: Store,
    base: nat,
    st2: Store,
    key: nat,
    st3: Store,
)
    requires
        method@ == "insert"@,
        args@.len() == 2,
        *receiver is Field || *receiver is MethodCall,
        ({
            let inner = place(env, *receiver, scope).scope;
            let behind = expression(env, args@[1], inner).scope;
            &&& eval_expression(chain, env, args@[1], inner, st, rounds) == Outcome::Value(v, st1)
            &&& eval_place(chain, env, *receiver, scope, st1, rounds) == Outcome::Value(base, st2)
            &&& eval_expression(chain, env, args@[0], behind, st2, rounds) == Outcome::Value(
                key,
                st3,
            )
        }),
    ensures
        eval_statement(
            chain,
            env,
            Stmt::Expr(Expr::MethodCall(receiver, method, args), semi),
            tail,
            scope,
            st,
            rounds,
        ) == Outcome::Next(
            Store {
                storage: st3.storage.insert(
                    digest_word(be_bytes(key, 32) + be_bytes(base, 32)),
                    v,
                ),
                ..st3
            },
        ),
{
    let e = Expr::MethodCall(receiver, method, args);
    let last = if semi {
        Tail::Void
    } else {
        tail
    };
    assert(interface_of(env.contract, *receiver) is None);
    assert(eval_expression_statement(chain, env, e, last, scope, st, rounds)
        == eval_mapping_insert(chain, env, e, scope, st, rounds));
}

/// `set` writes the slot of the element of the array, and nothing else. The value is computed
/// first.
pub proof fn law_set(
    chain: Chain,
    env: Env,
    receiver: Box<Expr>,
    method: String,
    args: Vec<Expr>,
    semi: bool,
    tail: Tail,
    scope: Scope,
    st: Store,
    rounds: nat,
    field: StorageField,
    v: nat,
    st1: Store,
    index: nat,
    st2: Store,
)
    requires
        method@ == "set"@,
        args@.len() == 2,
        field_of(env.contract, *receiver) == Ok::<StorageField, Fault>(field),
        eval_expression(chain, env, args@[1], scope, st, rounds) == Outcome::Value(v, st1),
        eval_expression(
            chain,
            env,
            args@[0],
            expression(env, args@[1], scope).scope,
            st1,
            rounds,
        ) == Outcome::Value(index, st2),
    ensures
        ({
            let first = digest_word(be_bytes(field.slot as nat, 32));
            let slot = ((first + index) as int % modulus() as int) as nat;
            eval_statement(
                chain,
                env,
                Stmt::Expr(Expr::MethodCall(receiver, method, args), semi),
                tail,
                scope,
                st,
                rounds,
            ) == Outcome::Next(Store { storage: st2.storage.insert(slot, v), ..st2 })
        }),
{
    reveal_strlit("insert");
    reveal_strlit("set");
    assert("set"@.len() == 3 && "insert"@.len() == 6);
    let e = Expr::MethodCall(receiver, method, args);
    let last = if semi {
        Tail::Void
    } else {
        tail
    };
    assert(interface_of(env.contract, *receiver) is None);
    assert(eval_expression_statement(chain, env, e, last, scope, st, rounds) == eval_array_set(
        chain,
        env,
        e,
        scope,
        st,
        rounds,
    ));
}

/// `push` writes the slot behind the last element of the array, adds one to the length in the slot
/// of the array, and writes nothing else. (The two slots are different ones unless the digest
/// makes them meet.)
pub proof fn law_push(
    chain: Chain,
    env: Env,
    receiver: Box<Expr>,
    method: String,
    args: Vec<Expr>,
    semi: bool,
    tail: Tail,
    scope: Scope,
    st: Store,
    rounds: nat,
    field: StorageField,
    v: nat,
    mid: Store,
)
    requires
        method@ == "push"@,
        args@.len() == 1,
        field_of(env.contract, *receiver) == Ok::<StorageField, Fault>(field),
        eval_expression(chain, env, args@[0], scope, st, rounds) == Outcome::Value(v, mid),
    ensures
        ({
            let base = field.slot as nat;
            let n = slot_value(mid.storage, base);
            let first = digest_word(be_bytes(base, 32));
            let slot = ((first + n) as int % modulus() as int) as nat;
            slot != base ==> eval_statement(
                chain,
                env,
                Stmt::Expr(Expr::MethodCall(receiver, method, args), semi),
                tail,
                scope,
                st,
                rounds,
            ) == Outcome::Next(
                Store {
                    storage: mid.storage.insert(slot, v).insert(
                        base,
                        ((n + 1) as int % modulus() as int) as nat,
                    ),
                    ..mid
                },
            )
        }),
{
    reveal_strlit("insert");
    reveal_strlit("set");
    reveal_strlit("push");
    assert("set"@.len() == 3 && "insert"@.len() == 6 && "push"@.len() == 4);
    let e = Expr::MethodCall(receiver, method, args);
    let last = if semi {
        Tail::Void
    } else {
        tail
    };
    assert(interface_of(env.contract, *receiver) is None);
    assert(eval_expression_statement(chain, env, e, last, scope, st, rounds) == eval_array_push(
        chain,
        env,
        e,
        scope,
        st,
        rounds,
    ));
}

/// A slot reads as what was written there last, modulo `2^256`, and as zero if nothing was.
pub proof fn law_slot_value(storage: Storage, slot: nat)
    ensures
        storage.dom().contains(slot) ==> slot_value(storage, slot) == (storage[slot] as int
            % modulus() as int) as nat,
        !storage.dom().contains(slot) ==> slot_value(storage, slot) == 0,
{
}

/// The next argument of an internal call goes into a word of memory of its own, under the name of
/// the parameter at its position.
pub proof fn law_bound_argument(
    chain: Chain,
    env: Env,
    params: Seq<Parameter>,
    args: Seq<Expr>,
    k: nat,
    scope: Scope,
    st: Store,
    rounds: nat,
    mid: Store,
    v: nat,
    end: Store,
)
    requires
        k < args.len(),
        eval_bindings(chain, env, params, args, k, scope, st, rounds) == Outcome::Next(mid),
        ({
            let before = bindings(env, params, args, k, scope).scope;
            &&& eval_expression(chain, env, args[k as int], before, mid, rounds)
                == Outcome::Value(v, end)
            &&& expression(env, args[k as int], before).scope.next_local + 0x20 <= u32::MAX
        }),
    ensures
        ({
            let before = bindings(env, params, args, k, scope);
            let now = bindings(env, params, args, k + 1, scope);
            let inner = expression(env, args[k as int], before.scope).scope;
            &&& now.locals == before.locals.push((params[k as int].name, inner.next_local))
            &&& now.scope == (Scope { next_local: (inner.next_local + 0x20) as u32, ..inner })
            &&& eval_bindings(chain, env, params, args, k + 1, scope, st, rounds)
                == Outcome::Next(
                Store { cells: end.cells.insert(inner.next_local as nat, v), ..end },
            )
        }),
        bindings(env, params, args, 0, scope).locals.len() == 0,
        bindings(env, params, args, 0, scope).scope == scope,
        eval_bindings(chain, env, params, args, 0, scope, st, rounds) == Outcome::Next(st),
{
}

/// The next value of an event is that of the field of the literal with the name that comes next in
/// the declaration.
pub proof fn law_event_value(
    chain: Chain,
    env: Env,
    literal: Seq<FieldValue>,
    fields: Seq<EventParameter>,
    k: nat,
    scope: Scope,
    st: Store,
    rounds: nat,
    vs: Seq<nat>,
    mid: Store,
    i: nat,
    v: nat,
    end: Store,
)
    requires
        k < fields.len(),
        first_of_name(literal, fields[k as int].name, i),
        eval_event_values(chain, env, literal, fields, k, scope, st, rounds) == Outcome::Values(
            vs,
            mid,
        ),
        eval_expression(
            chain,
            env,
            literal[i as int].value,
            event_values(env, literal, fields, k, scope).scope,
            mid,
            rounds,
        ) == Outcome::Value(v, end),
    ensures
        eval_event_values(chain, env, literal, fields, 0, scope, st, rounds) == Outcome::Values(
            Seq::empty(),
            st,
        ),
        eval_event_values(chain, env, literal, fields, k + 1, scope, st, rounds)
            == Outcome::Values(vs.push(v), end),
{
    law_literal_field(literal, fields[k as int].name, literal.len(), i);
}

/// The next argument of a call of another contract goes behind those before it, and these behind
/// the selector.
pub proof fn law_foreign_argument(
    chain: Chain,
    env: Env,
    args: Seq<Expr>,
    k: nat,
    base: u32,
    scope: Scope,
    st: Store,
    rounds: nat,
    mid: Store,
    v: nat,
    end: Store,
)
    requires
        k < args.len(),
        eval_foreign_arguments(chain, env, args, k, base, scope, st, rounds) == Outcome::Next(mid),
        eval_expression(
            chain,
            env,
            args[k as int],
            foreign_arguments(env, args, k, base, scope).scope,
            mid,
            rounds,
        ) == Outcome::Value(v, end),
    ensures
        eval_foreign_arguments(chain, env, args, 0, base, scope, st, rounds) == Outcome::Next(st),
        eval_foreign_arguments(chain, env, args, k + 1, base, scope, st, rounds)
            == Outcome::Next(
            Store { cells: end.cells.insert((base + 32 + 32 * k) as nat, v), ..end },
        ),
{
}

/// A revert in any part of a statement reverts the whole.
pub proof fn law_reverts(
    chain: Chain,
    env: Env,
    e: Expr,
    left: Box<Expr>,
    pat: Pat,
    name: String,
    args: Vec<Expr>,
    body: Vec<Stmt>,
    otherwise: Option<Box<Expr>>,
    semi: bool,
    tail: Tail,
    scope: Scope,
    st: Store,
    rounds: nat,
)
    requires
        eval_expression(chain, env, e, scope, st, rounds) == Outcome::Reverted,
    ensures
        eval_statement(chain, env, Stmt::Local(pat, Some(e)), tail, scope, st, rounds)
            == Outcome::Reverted,
        eval_statement(
            chain,
            env,
            Stmt::Expr(Expr::Assign(left, Box::new(e)), semi),
            tail,
            scope,
            st,
            rounds,
        ) == Outcome::Reverted,
        eval_statement(
            chain,
            env,
            Stmt::Expr(Expr::If(Box::new(e), body, otherwise), semi),
            tail,
            scope,
            st,
            rounds,
        ) == Outcome::Reverted,
        rounds > 0 ==> eval_statement(
            chain,
            env,
            Stmt::Expr(Expr::While(Box::new(e), body), semi),
            tail,
            scope,
            st,
            rounds,
        ) == Outcome::Reverted,
        name@ == "require"@ && args@.len() > 0 && args@[0] == e ==> eval_statement(
            chain,
            env,
            Stmt::Expr(Expr::Call(Box::new(Expr::Ident(name)), args), semi),
            tail,
            scope,
            st,
            rounds,
        ) == Outcome::Reverted,
{
    let last = if semi {
        Tail::Void
    } else {
        tail
    };
    let assign = Expr::Assign(left, Box::new(e));
    let branch = Expr::If(Box::new(e), body, otherwise);
    let again = Expr::While(Box::new(e), body);
    let demand = Expr::Call(Box::new(Expr::Ident(name)), args);
    assert(eval_expression_statement(chain, env, assign, last, scope, st, rounds)
        == eval_assignment(chain, env, assign, scope, st, rounds));
    assert(eval_expression_statement(chain, env, branch, last, scope, st, rounds)
        == eval_conditional(chain, env, branch, scope, st, rounds));
    assert(eval_expression_statement(chain, env, again, last, scope, st, rounds)
        == eval_repetition(chain, env, again, scope, st, rounds, rounds));
    if name@ == "require"@ {
        assert(eval_expression_statement(chain, env, demand, last, scope, st, rounds)
            == eval_requirement(chain, env, demand, scope, st, rounds));
    }
}

} // verus!
