//! What was written reads back: slots, fields, elements of mappings and arrays, and variables.

use vstd::prelude::*;

use crate::ast::{BinOp, Expr, Member, Pat, Stmt};
use crate::effects::{array_slot, mapping_slot};
use crate::errors::Fault;
use crate::frame::{
    law_expression_keeps_variables, names_array_set, names_assignment, names_expression,
    names_mapping_insert, same_names,
};
use crate::machine::{modulus, slot_value, Chain};
use crate::meaning::{
    array_grown, eval_array_push, eval_array_set, eval_assignment, eval_binary, eval_expression,
    eval_expression_statement, eval_mapping_insert, eval_place, eval_statement, variable, Outcome,
    Store,
};
use crate::model::{Env, Scope, StorageField};
use crate::names::lookup;
use crate::scheme::{
    array_push, array_set, assignment, binary, expression, expression_statement, field_of,
    interface_of, mapping_insert, pattern_name, place, statement, type_shape, Tail,
};
use crate::shape::{law_expression_sound, law_locals_apart, lemma_local_below, scope_ok};
use crate::simulate::clean;

verus! {

/// A slot gives back what was last written to it, and writing it leaves all other slots as they
/// were.
pub proof fn law_slot_reads_back(st: Store, slot: nat, v: nat, other: nat)
    requires
        v < modulus(),
        other != slot,
    ensures
        slot_value(st.with_slot(slot, v).storage, slot) == v,
        slot_value(st.with_slot(slot, v).storage, other) == slot_value(st.storage, other),
{
    vstd::arithmetic::div_mod::lemma_small_mod(v, modulus());
}

/// After a `push` the array is longer by one, its last element is the value, and all other slots
/// are as they were. The element must not lie in the slot of the length, and the length must not
/// overflow.
pub proof fn law_push_reads_back(st: Store, base: nat, v: nat, other: nat)
    requires
        v < modulus(),
        array_slot(base, slot_value(st.storage, base)) != base,
        slot_value(st.storage, base) + 1 < modulus(),
        other != base,
        other != array_slot(base, slot_value(st.storage, base)),
    ensures
        ({
            let n = slot_value(st.storage, base);
            let after = array_grown(st, base, v);
            &&& slot_value(after.storage, base) == n + 1
            &&& slot_value(after.storage, array_slot(base, n)) == v
            &&& slot_value(after.storage, other) == slot_value(st.storage, other)
        }),
{
    let n = slot_value(st.storage, base);
    let filled = st.with_slot(array_slot(base, n), v);
    law_slot_reads_back(st, array_slot(base, n), v, base);
    law_slot_reads_back(st, array_slot(base, n), v, other);
    vstd::arithmetic::div_mod::lemma_small_mod(n + 1, modulus());
    law_slot_reads_back(filled, base, n + 1, array_slot(base, n));
    law_slot_reads_back(filled, base, n + 1, other);
}

/// A storage field that was assigned reads as the value that was assigned to it.
pub proof fn law_field_reads_back(
    chain: Chain,
    env: Env,
    base: Box<Expr>,
    member: Member,
    right: Box<Expr>,
    semi: bool,
    tail: Tail,
    scope: Scope,
    st: Store,
    rounds: nat,
    v: nat,
    mid: Store,
    after: Store,
    later: Scope,
)
    requires
        v < modulus(),
        eval_expression(chain, env, *right, scope, st, rounds) == Outcome::Value(v, mid),
        eval_statement(
            chain,
            env,
            Stmt::Expr(Expr::Assign(Box::new(Expr::Field(base, member)), right), semi),
            tail,
            scope,
            st,
            rounds,
        ) == Outcome::Next(after),
    ensures
        eval_expression(chain, env, Expr::Field(base, member), later, after, rounds)
            == Outcome::Value(v, after),
{
    let e = Expr::Assign(Box::new(Expr::Field(base, member)), right);
    let last = if semi {
        Tail::Void
    } else {
        tail
    };
    assert(eval_expression_statement(chain, env, e, last, scope, st, rounds) == eval_assignment(
        chain,
        env,
        e,
        scope,
        st,
        rounds,
    ));
    vstd::arithmetic::div_mod::lemma_small_mod(v, modulus());
}

/// A variable that was declared reads as the value that it was declared with, and every other
/// variable reads as before.
pub proof fn law_local_reads_back(
    chain: Chain,
    env: Env,
    pat: Pat,
    name: Seq<char>,
    e: Expr,
    tail: Tail,
    scope: Scope,
    st: Store,
    rounds: nat,
    v: nat,
    mid: Store,
    after: Store,
    other: Seq<char>,
)
    requires
        scope_ok(scope),
        pattern_name(pat) == Ok::<Seq<char>, Fault>(name),
        clean(statement(env, Stmt::Local(pat, Some(e)), tail, scope).code),
        eval_expression(chain, env, e, scope, st, rounds) == Outcome::Value(v, mid),
        eval_statement(
            chain,
            env,
            Stmt::Local(pat, Some(e)),
            tail,
            scope,
            st,
            rounds,
        ) == Outcome::Next(after),
        other != name,
    ensures
        ({
            let stmt = Stmt::Local(pat, Some(e));
            let behind = statement(env, stmt, tail, scope).scope;
            &&& variable(chain, name, behind, after) == Some(v)
            &&& variable(chain, other, behind, after) == variable(chain, other, scope, st)
        }),
{
    let inner = expression(env, e, scope).scope;
    law_expression_sound(env, e, scope);
    law_expression_keeps_variables(chain, env, e, scope, st, rounds, other);
    if inner.has_room() {
        let offset = inner.next_local;
        let behind = inner.reserved().with_local(name, offset);
        assert(behind.locals.drop_last() =~= inner.locals);
        lemma_local_below(inner, other);
    }
}

/// Whether an expression reads nothing but variables, literals and facts about the call itself.
pub open spec fn plain(e: Expr) -> bool
    decreases e,
{
    match e {
        Expr::Int(_) => true,
        Expr::Bool(_) => true,
        Expr::Str(_) => true,
        Expr::Ident(_) => true,
        Expr::Call(_, _) => true,
        Expr::Paren(inner) => plain(*inner),
        Expr::Binary(_, left, right) => plain(*left) && plain(*right),
        _ => false,
    }
}

/// Whether the keys of a place in storage are plain.
pub open spec fn plain_place(e: Expr) -> bool
    decreases e,
{
    match e {
        Expr::Field(_, _) => true,
        Expr::MethodCall(receiver, _, args) => args@.len() == 1 && plain_place(*receiver) && plain(
            args@[0],
        ),
        _ => false,
    }
}

/// A plain expression changes nothing, and has the same value wherever the variables have.
pub proof fn lemma_plain(
    chain: Chain,
    env: Env,
    e: Expr,
    scope: Scope,
    later: Scope,
    st: Store,
    after: Store,
    rounds: nat,
)
    requires
        plain(e),
        same_names(scope, later),
        after.cells == st.cells,
    ensures
        expression(env, e, scope).scope == scope,
        expression(env, e, later).scope == later,
        eval_expression(chain, env, e, scope, st, rounds) matches Outcome::Value(v, end) ==> end
            == st && eval_expression(chain, env, e, later, after, rounds) == Outcome::Value(
            v,
            after,
        ),
    decreases e,
{
    match e {
        Expr::Paren(inner) => lemma_plain(chain, env, *inner, scope, later, st, after, rounds),
        Expr::Binary(op, left, right) => {
            lemma_plain(chain, env, *left, scope, later, st, after, rounds);
            lemma_plain(chain, env, *right, scope, later, st, after, rounds);
            lemma_plain_binary(chain, env, op, left, right, scope, later, st, after, rounds);
        },
        _ => {},
    }
}

/// An operator on plain operands.
proof fn lemma_plain_binary(
    chain: Chain,
    env: Env,
    op: BinOp,
    left: Box<Expr>,
    right: Box<Expr>,
    scope: Scope,
    later: Scope,
    st: Store,
    after: Store,
    rounds: nat,
)
    requires
        expression(env, *left, scope).scope == scope,
        expression(env, *left, later).scope == later,
        expression(env, *right, scope).scope == scope,
        expression(env, *right, later).scope == later,
        eval_expression(chain, env, *left, scope, st, rounds) matches Outcome::Value(v, end) ==> end
            == st && eval_expression(chain, env, *left, later, after, rounds) == Outcome::Value(
            v,
            after,
        ),
        eval_expression(chain, env, *right, scope, st, rounds) matches Outcome::Value(v, end)
            ==> end == st && eval_expression(chain, env, *right, later, after, rounds)
            == Outcome::Value(v, after),
    ensures
        ({
            let e = Expr::Binary(op, left, right);
            &&& binary(env, e, scope).scope == scope
            &&& binary(env, e, later).scope == later
            &&& eval_binary(chain, env, e, scope, st, rounds) matches Outcome::Value(v, end) ==> end
                == st && eval_binary(chain, env, e, later, after, rounds) == Outcome::Value(
                v,
                after,
            )
        }),
{
}

/// The type of a place in storage is the same in every scope.
proof fn lemma_place_type(env: Env, e: Expr, scope: Scope, later: Scope)
    ensures
        (match (place(env, e, scope).place, place(env, e, later).place) {
            (Ok((_, a)), Ok((_, b))) => a == b,
            (Err(_), Err(_)) => true,
            _ => false,
        }),
    decreases e,
{
    if let Expr::MethodCall(receiver, method, args) = e {
        lemma_place_type(env, *receiver, scope, later);
    }
}

/// A place with plain keys changes nothing, and is the same wherever the variables are.
proof fn lemma_plain_place(
    chain: Chain,
    env: Env,
    e: Expr,
    scope: Scope,
    later: Scope,
    st: Store,
    after: Store,
    rounds: nat,
)
    requires
        plain_place(e),
        same_names(scope, later),
        after.cells == st.cells,
    ensures
        place(env, e, scope).scope == scope,
        place(env, e, later).scope == later,
        eval_place(chain, env, e, scope, st, rounds) matches Outcome::Value(slot, end) ==> end == st
            && eval_place(chain, env, e, later, after, rounds) == Outcome::Value(slot, after),
    decreases e,
{
    if let Expr::MethodCall(receiver, method, args) = e {
        lemma_plain_place(chain, env, *receiver, scope, later, st, after, rounds);
        lemma_plain(chain, env, args@[0], scope, later, st, after, rounds);
        lemma_place_type(env, *receiver, scope, later);
    }
}

/// Whether an expression is a `get` that names a slot, and leaves the storage alone while it finds
/// it.
pub open spec fn gets_slot(
    chain: Chain,
    env: Env,
    e: Expr,
    scope: Scope,
    st: Store,
    rounds: nat,
    slot: nat,
    end: Store,
) -> bool {
    &&& e matches Expr::MethodCall(_, method, _) && method@ == "get"@
    &&& eval_place(chain, env, e, scope, st, rounds) == Outcome::Value(slot, end)
    &&& end.storage == st.storage
}

/// A `get` reads the slot that it names.
proof fn lemma_get_reads(
    chain: Chain,
    env: Env,
    e: Expr,
    scope: Scope,
    st: Store,
    rounds: nat,
    slot: nat,
    end: Store,
)
    requires
        gets_slot(chain, env, e, scope, st, rounds, slot, end),
    ensures
        eval_expression(chain, env, e, scope, st, rounds) == Outcome::Value(
            slot_value(st.storage, slot),
            end,
        ),
{
    if let Expr::MethodCall(receiver, method, args) = e {
        assert(eval_place(chain, env, *receiver, scope, st, rounds) is Value);
        assert(*receiver is Field || *receiver is MethodCall);
    }
}

/// After `receiver.insert(key, value)` every `get` that names the same place and key reads the
/// value, and all other slots are as they were when place and key were found.
pub proof fn law_insert_reads_back(
    chain: Chain,
    env: Env,
    receiver: Box<Expr>,
    method: String,
    args: Vec<Expr>,
    semi: bool,
    tail: Tail,
    scope: Scope,
    st: Store,
    rounds: nat,
    v: nat,
    st1: Store,
    base: nat,
    st2: Store,
    key: nat,
    st3: Store,
    after: Store,
    e: Expr,
    later: Scope,
    end: Store,
    other: nat,
)
    requires
        v < modulus(),
        method@ == "insert"@,
        args@.len() == 2,
        interface_of(env.contract, *receiver) is None,
        ({
            let inner = place(env, *receiver, scope).scope;
            let behind = expression(env, args@[1], inner).scope;
            &&& eval_expression(chain, env, args@[1], inner, st, rounds) == Outcome::Value(v, st1)
            &&& eval_place(chain, env, *receiver, scope, st1, rounds) == Outcome::Value(base, st2)
            &&& eval_expression(chain, env, args@[0], behind, st2, rounds) == Outcome::Value(
                key,
                st3,
            )
        }),
        eval_statement(
            chain,
            env,
            Stmt::Expr(Expr::MethodCall(receiver, method, args), semi),
            tail,
            scope,
            st,
            rounds,
        ) == Outcome::Next(after),
        gets_slot(chain, env, e, later, after, rounds, mapping_slot(base, key), end),
        other != mapping_slot(base, key),
    ensures
        eval_expression(chain, env, e, later, after, rounds) == Outcome::Value(v, end),
        slot_value(after.storage, other) == slot_value(st3.storage, other),
{
    let call = Expr::MethodCall(receiver, method, args);
    lemma_insert_statement(chain, env, receiver, method, args, semi, tail, scope, st, rounds);
    assert(eval_mapping_insert(chain, env, call, scope, st, rounds) == Outcome::Next(
        st3.with_slot(mapping_slot(base, key), v),
    ));
    law_slot_reads_back(st3, mapping_slot(base, key), v, other);
    lemma_get_reads(chain, env, e, later, after, rounds, mapping_slot(base, key), end);
}

/// An `insert` as a statement.
proof fn lemma_insert_statement(
    chain: Chain,
    env: Env,
    receiver: Box<Expr>,
    method: String,
    args: Vec<Expr>,
    semi: bool,
    tail: Tail,
    scope: Scope,
    st: Store,
    rounds: nat,
)
    requires
        method@ == "insert"@,
        interface_of(env.contract, *receiver) is None,
    ensures
        ({
            let call = Expr::MethodCall(receiver, method, args);
            let stmt = Stmt::Expr(call, semi);
            &&& eval_statement(chain, env, stmt, tail, scope, st, rounds) == eval_mapping_insert(
                chain,
                env,
                call,
                scope,
                st,
                rounds,
            )
            &&& statement(env, stmt, tail, scope) == mapping_insert(env, call, scope)
        }),
{
    let call = Expr::MethodCall(receiver, method, args);
    let last = if semi {
        Tail::Void
    } else {
        tail
    };
    assert(eval_expression_statement(chain, env, call, last, scope, st, rounds)
        == eval_mapping_insert(chain, env, call, scope, st, rounds));
    assert(expression_statement(env, call, last, scope) == mapping_insert(env, call, scope));
}

/// What `receiver.insert(key, value)` wrote, `receiver.get(key)` reads behind it, where the keys
/// are plain. The value may be any expression.
pub proof fn law_inserted_is_read(
    chain: Chain,
    env: Env,
    receiver: Box<Expr>,
    method: String,
    args: Vec<Expr>,
    get: String,
    keys: Vec<Expr>,
    semi: bool,
    tail: Tail,
    scope: Scope,
    st: Store,
    rounds: nat,
    v: nat,
    mid: Store,
    after: Store,
)
    requires
        v < modulus(),
        method@ == "insert"@,
        get@ == "get"@,
        args@.len() == 2,
        keys@ == seq![args@[0]],
        plain_place(*receiver),
        plain(args@[0]),
        clean(
            statement(
                env,
                Stmt::Expr(Expr::MethodCall(receiver, method, args), semi),
                tail,
                scope,
            ).code,
        ),
        eval_expression(
            chain,
            env,
            args@[1],
            place(env, *receiver, scope).scope,
            st,
            rounds,
        ) == Outcome::Value(v, mid),
        eval_statement(
            chain,
            env,
            Stmt::Expr(Expr::MethodCall(receiver, method, args), semi),
            tail,
            scope,
            st,
            rounds,
        ) == Outcome::Next(after),
    ensures
        eval_expression(
            chain,
            env,
            Expr::MethodCall(receiver, get, keys),
            statement(
                env,
                Stmt::Expr(Expr::MethodCall(receiver, method, args), semi),
                tail,
                scope,
            ).scope,
            after,
            rounds,
        ) == Outcome::Value(v, after),
{
    let call = Expr::MethodCall(receiver, method, args);
    let e = Expr::MethodCall(receiver, get, keys);
    let later = statement(env, Stmt::Expr(call, semi), tail, scope).scope;
    assert(*receiver is Field || *receiver is MethodCall);
    lemma_insert_statement(chain, env, receiver, method, args, semi, tail, scope, st, rounds);
    names_mapping_insert(env, call, scope);
    lemma_insert_parts(chain, env, receiver, method, args, scope, st, rounds, v, mid, after);
    let (base, key) = choose|base: nat, key: nat|
        #![trigger mapping_slot(base, key)]
        {
            let behind = expression(env, args@[1], scope).scope;
            &&& eval_place(chain, env, *receiver, scope, mid, rounds) == Outcome::Value(base, mid)
            &&& eval_expression(chain, env, args@[0], behind, mid, rounds) == Outcome::Value(
                key,
                mid,
            )
            &&& after == mid.with_slot(mapping_slot(base, key), v)
        };
    let behind = expression(env, args@[1], scope).scope;
    names_expression(env, args@[1], scope);
    lemma_plain_place(chain, env, *receiver, scope, later, mid, after, rounds);
    lemma_plain(chain, env, args@[0], behind, later, mid, after, rounds);
    lemma_place_type(env, *receiver, scope, later);
    assert(keys@[0] == args@[0]);
    assert(eval_place(chain, env, e, later, after, rounds) == Outcome::Value(
        mapping_slot(base, key),
        after,
    ));
    law_slot_reads_back(mid, mapping_slot(base, key), v, mapping_slot(base, key) + 1);
    lemma_get_reads(chain, env, e, later, after, rounds, mapping_slot(base, key), after);
}

/// The slot that an `insert` with plain keys writes.
proof fn lemma_insert_parts(
    chain: Chain,
    env: Env,
    receiver: Box<Expr>,
    method: String,
    args: Vec<Expr>,
    scope: Scope,
    st: Store,
    rounds: nat,
    v: nat,
    mid: Store,
    after: Store,
)
    requires
        args@.len() == 2,
        plain_place(*receiver),
        plain(args@[0]),
        clean(mapping_insert(env, Expr::MethodCall(receiver, method, args), scope).code),
        eval_expression(
            chain,
            env,
            args@[1],
            place(env, *receiver, scope).scope,
            st,
            rounds,
        ) == Outcome::Value(v, mid),
        eval_mapping_insert(
            chain,
            env,
            Expr::MethodCall(receiver, method, args),
            scope,
            st,
            rounds,
        ) == Outcome::Next(after),
    ensures
        place(env, *receiver, scope).scope == scope,
        place(env, *receiver, scope).place matches Ok((_, ty)) && type_shape(ty) is Mapping,
        exists|base: nat, key: nat|
            #![trigger mapping_slot(base, key)]
            {
                let behind = expression(env, args@[1], scope).scope;
                &&& eval_place(chain, env, *receiver, scope, mid, rounds) == Outcome::Value(
                    base,
                    mid,
                )
                &&& eval_expression(chain, env, args@[0], behind, mid, rounds) == Outcome::Value(
                    key,
                    mid,
                )
                &&& after == mid.with_slot(mapping_slot(base, key), v)
            },
{
    let behind = expression(env, args@[1], scope).scope;
    lemma_plain_place(chain, env, *receiver, scope, scope, mid, mid, rounds);
    lemma_plain(chain, env, args@[0], behind, behind, mid, mid, rounds);
    if let Outcome::Value(base, _) = eval_place(chain, env, *receiver, scope, mid, rounds) {
        if let Outcome::Value(key, _) = eval_expression(
            chain,
            env,
            args@[0],
            behind,
            mid,
            rounds,
        ) {
            assert(after == mid.with_slot(mapping_slot(base, key), v));
        }
    }
}

/// After `self.array.set(index, value)` every `get` that names the same array and index reads the
/// value, and all other slots are as they were when the index was found.
pub proof fn law_set_reads_back(
    chain: Chain,
    env: Env,
    receiver: Box<Expr>,
    method: String,
    args: Vec<Expr>,
    semi: bool,
    tail: Tail,
    scope: Scope,
    st: Store,
    rounds: nat,
    field: StorageField,
    v: nat,
    st1: Store,
    index: nat,
    st2: Store,
    after: Store,
    e: Expr,
    later: Scope,
    end: Store,
    other: nat,
)
    requires
        v < modulus(),
        method@ == "set"@,
        args@.len() == 2,
        field_of(env.contract, *receiver) == Ok::<StorageField, Fault>(field),
        eval_expression(chain, env, args@[1], scope, st, rounds) == Outcome::Value(v, st1),
        eval_expression(
            chain,
            env,
            args@[0],
            expression(env, args@[1], scope).scope,
            st1,
            rounds,
        ) == Outcome::Value(index, st2),
        eval_statement(
            chain,
            env,
            Stmt::Expr(Expr::MethodCall(receiver, method, args), semi),
            tail,
            scope,
            st,
            rounds,
        ) == Outcome::Next(after),
        gets_slot(chain, env, e, later, after, rounds, array_slot(field.slot as nat, index), end),
        other != array_slot(field.slot as nat, index),
    ensures
        eval_expression(chain, env, e, later, after, rounds) == Outcome::Value(v, end),
        slot_value(after.storage, other) == slot_value(st2.storage, other),
{
    let slot = array_slot(field.slot as nat, index);
    let call = Expr::MethodCall(receiver, method, args);
    lemma_array_statement(chain, env, receiver, method, args, semi, tail, scope, st, rounds);
    assert(eval_array_set(chain, env, call, scope, st, rounds) == Outcome::Next(
        st2.with_slot(slot, v),
    ));
    law_slot_reads_back(st2, slot, v, other);
    lemma_get_reads(chain, env, e, later, after, rounds, slot, end);
}

/// A `set` or a `push` as a statement.
proof fn lemma_array_statement(
    chain: Chain,
    env: Env,
    receiver: Box<Expr>,
    method: String,
    args: Vec<Expr>,
    semi: bool,
    tail: Tail,
    scope: Scope,
    st: Store,
    rounds: nat,
)
    requires
        method@ == "set"@ || method@ == "push"@,
        field_of(env.contract, *receiver) is Ok,
    ensures
        ({
            let call = Expr::MethodCall(receiver, method, args);
            let stmt = Stmt::Expr(call, semi);
            &&& method@ == "set"@ ==> {
                &&& eval_statement(chain, env, stmt, tail, scope, st, rounds) == eval_array_set(
                    chain,
                    env,
                    call,
                    scope,
                    st,
                    rounds,
                )
                &&& statement(env, stmt, tail, scope) == array_set(env, call, scope)
            }
            &&& method@ == "push"@ ==> {
                &&& eval_statement(chain, env, stmt, tail, scope, st, rounds) == eval_array_push(
                    chain,
                    env,
                    call,
                    scope,
                    st,
                    rounds,
                )
                &&& statement(env, stmt, tail, scope) == array_push(env, call, scope)
            }
        }),
{
    reveal_strlit("insert");
    reveal_strlit("set");
    reveal_strlit("push");
    let call = Expr::MethodCall(receiver, method, args);
    let last = if semi {
        Tail::Void
    } else {
        tail
    };
    assert("set"@.len() != "insert"@.len());
    assert("push"@.len() != "insert"@.len());
    assert("push"@.len() != "set"@.len());
    assert(*receiver is Field);
    assert(interface_of(env.contract, *receiver) is None);
    if method@ == "set"@ {
        assert(eval_expression_statement(chain, env, call, last, scope, st, rounds)
            == eval_array_set(chain, env, call, scope, st, rounds));
        assert(expression_statement(env, call, last, scope) == array_set(env, call, scope));
    } else {
        assert(eval_expression_statement(chain, env, call, last, scope, st, rounds)
            == eval_array_push(chain, env, call, scope, st, rounds));
        assert(expression_statement(env, call, last, scope) == array_push(env, call, scope));
    }
}

/// What `self.array.set(index, value)` wrote, `self.array.get(index)` reads behind it, where the
/// index is plain. The value may be any expression.
pub proof fn law_set_is_read(
    chain: Chain,
    env: Env,
    receiver: Box<Expr>,
    method: String,
    args: Vec<Expr>,
    get: String,
    keys: Vec<Expr>,
    semi: bool,
    tail: Tail,
    scope: Scope,
    st: Store,
    rounds: nat,
    v: nat,
    mid: Store,
    after: Store,
)
    requires
        v < modulus(),
        method@ == "set"@,
        get@ == "get"@,
        args@.len() == 2,
        keys@ == seq![args@[0]],
        plain(args@[0]),
        place(env, *receiver, scope).place matches Ok((_, ty)) && type_shape(ty) is Array,
        clean(
            statement(
                env,
                Stmt::Expr(Expr::MethodCall(receiver, method, args), semi),
                tail,
                scope,
            ).code,
        ),
        field_of(env.contract, *receiver) is Ok,
        eval_expression(chain, env, args@[1], scope, st, rounds) == Outcome::Value(v, mid),
        eval_statement(
            chain,
            env,
            Stmt::Expr(Expr::MethodCall(receiver, method, args), semi),
            tail,
            scope,
            st,
            rounds,
        ) == Outcome::Next(after),
    ensures
        eval_expression(
            chain,
            env,
            Expr::MethodCall(receiver, get, keys),
            statement(
                env,
                Stmt::Expr(Expr::MethodCall(receiver, method, args), semi),
                tail,
                scope,
            ).scope,
            after,
            rounds,
        ) == Outcome::Value(v, after),
{
    let call = Expr::MethodCall(receiver, method, args);
    let e = Expr::MethodCall(receiver, get, keys);
    let later = statement(env, Stmt::Expr(call, semi), tail, scope).scope;
    let behind = expression(env, args@[1], scope).scope;
    let field = field_of(env.contract, *receiver)->Ok_0;
    let base = field.slot as nat;
    lemma_array_statement(chain, env, receiver, method, args, semi, tail, scope, st, rounds);
    names_array_set(env, call, scope);
    names_expression(env, args@[1], scope);
    let o = eval_expression(chain, env, args@[0], behind, mid, rounds);
    assert(o is Value);
    let index = o->Value_0;
    let slot = array_slot(base, index);
    lemma_plain(chain, env, args@[0], behind, behind, mid, mid, rounds);
    assert(after == mid.with_slot(slot, v));
    lemma_plain(chain, env, args@[0], behind, later, mid, after, rounds);
    lemma_place_type(env, *receiver, scope, later);
    assert(keys@[0] == args@[0]);
    assert(place(env, *receiver, later).scope == later);
    assert(eval_place(chain, env, *receiver, later, after, rounds) == Outcome::Value(base, after));
    assert(eval_place(chain, env, e, later, after, rounds) == Outcome::Value(slot, after));
    law_slot_reads_back(mid, slot, v, slot + 1);
    lemma_get_reads(chain, env, e, later, after, rounds, slot, after);
}

/// After `self.array.push(value)` the length is one more, and every `get` that names the array at
/// the old length reads the value. The element must not lie in the slot of the length, and the
/// length must not overflow.
pub proof fn law_pushed_is_read(
    chain: Chain,
    env: Env,
    receiver: Box<Expr>,
    method: String,
    args: Vec<Expr>,
    semi: bool,
    tail: Tail,
    scope: Scope,
    st: Store,
    rounds: nat,
    field: StorageField,
    v: nat,
    mid: Store,
    after: Store,
    len: String,
    none: Vec<Expr>,
    e: Expr,
    later: Scope,
    end: Store,
)
    requires
        v < modulus(),
        method@ == "push"@,
        len@ == "len"@,
        args@.len() == 1,
        field_of(env.contract, *receiver) == Ok::<StorageField, Fault>(field),
        eval_expression(chain, env, args@[0], scope, st, rounds) == Outcome::Value(v, mid),
        eval_statement(
            chain,
            env,
            Stmt::Expr(Expr::MethodCall(receiver, method, args), semi),
            tail,
            scope,
            st,
            rounds,
        ) == Outcome::Next(after),
        ({
            let base = field.slot as nat;
            let n = slot_value(mid.storage, base);
            &&& array_slot(base, n) != base
            &&& n + 1 < modulus()
            &&& gets_slot(chain, env, e, later, after, rounds, array_slot(base, n), end)
        }),
    ensures
        eval_expression(
            chain,
            env,
            Expr::MethodCall(receiver, len, none),
            later,
            after,
            rounds,
        ) == Outcome::Value(slot_value(mid.storage, field.slot as nat) + 1, after),
        eval_expression(chain, env, e, later, after, rounds) == Outcome::Value(v, end),
{
    reveal_strlit("get");
    reveal_strlit("len");
    assert("get"@[0] != "len"@[0]);
    let base = field.slot as nat;
    let n = slot_value(mid.storage, base);
    let other = array_slot(base, n) + base + 1;
    let call = Expr::MethodCall(receiver, method, args);
    lemma_array_statement(chain, env, receiver, method, args, semi, tail, scope, st, rounds);
    assert(eval_array_push(chain, env, call, scope, st, rounds) == Outcome::Next(
        array_grown(mid, base, v),
    ));
    law_push_reads_back(mid, base, v, other);
    lemma_get_reads(chain, env, e, later, after, rounds, array_slot(base, n), end);
    assert(*receiver is Field);
}

/// A variable that was assigned reads as the value that was assigned to it, and every other
/// variable reads as before.
pub proof fn law_assigned_is_read(
    chain: Chain,
    env: Env,
    name: String,
    right: Box<Expr>,
    semi: bool,
    tail: Tail,
    scope: Scope,
    st: Store,
    rounds: nat,
    v: nat,
    mid: Store,
    after: Store,
    other: Seq<char>,
)
    requires
        scope_ok(scope),
        clean(
            statement(
                env,
                Stmt::Expr(Expr::Assign(Box::new(Expr::Ident(name)), right), semi),
                tail,
                scope,
            ).code,
        ),
        eval_expression(chain, env, *right, scope, st, rounds) == Outcome::Value(v, mid),
        eval_statement(
            chain,
            env,
            Stmt::Expr(Expr::Assign(Box::new(Expr::Ident(name)), right), semi),
            tail,
            scope,
            st,
            rounds,
        ) == Outcome::Next(after),
        other != name@,
    ensures
        ({
            let stmt = Stmt::Expr(Expr::Assign(Box::new(Expr::Ident(name)), right), semi);
            let behind = statement(env, stmt, tail, scope).scope;
            &&& eval_expression(chain, env, Expr::Ident(name), behind, after, rounds)
                == Outcome::Value(v, after)
            &&& variable(chain, other, behind, after) == variable(chain, other, scope, st)
        }),
{
    let e = Expr::Assign(Box::new(Expr::Ident(name)), right);
    let last = if semi {
        Tail::Void
    } else {
        tail
    };
    assert(eval_expression_statement(chain, env, e, last, scope, st, rounds) == eval_assignment(
        chain,
        env,
        e,
        scope,
        st,
        rounds,
    ));
    assert(expression_statement(env, e, last, scope) == assignment(env, e, scope));
    names_assignment(env, e, scope);
    law_expression_keeps_variables(chain, env, *right, scope, st, rounds, other);
    law_locals_apart(scope, name@, other);
    let offset = lookup(scope.locals, name@)->Some_0;
    assert(after == mid.with_cell(offset as nat, v));
}

} // verus!
