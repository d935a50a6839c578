//! What calls hand over and get back: internal functions, functions of other contracts, and events.
//!
//! The laws speak of arguments that are plain, that is, made of variables, literals and facts about
//! the call itself.

use vstd::arithmetic::power::pow;
use vstd::prelude::*;
use vstd::utf8::encode_utf8;

use crate::abi::{signature, Parameter};
use crate::ast::{Expr, FieldValue, Member, Stmt};
use crate::bytes::{
    be_bytes, be_value, lemma_be_bytes_of_be_value, lemma_be_value_concat, lemma_be_value_zeros,
    zeros,
};
use crate::constructs::{lemma_plain_later, plain_values};
use crate::encoding::{distinct_names, hold, lemma_hold_local, same_ledger, Argument};
use crate::errors::Fault;
use crate::frame::{lemma_same_below, lemma_same_cell, names_bindings, same_below, same_names};
use crate::keccak::keccak256_digest;
use crate::machine::{Chain, Log, Reply, Request};
use crate::meaning::{
    call_data, cell_words, eval_bindings, eval_block, eval_emission, eval_event_values,
    eval_expression, eval_expression_statement, eval_foreign_arguments, eval_interface_call,
    eval_internal_call, eval_statement, foreign_call, variable, words_data, Outcome, Store,
};
use crate::model::{Env, Event, EventParameter, ForeignMethod, Internal, Scope};
use crate::names::lookup;
use crate::reads::{lemma_plain, plain};
use crate::scheme::{
    bindings, event_values, expression, foreign_arguments, interface_call, interface_of,
    internal_call, literal_field, Tail,
};
use crate::shape::{lemma_scope_reserved_for_call, scope_ok, sound_bindings};
use crate::simulate::clean;

verus! {

/// Words as values for parameters.
pub open spec fn as_arguments(vs: Seq<nat>) -> Seq<Argument> {
    vs.map_values(|v: nat| Argument::Word(v))
}

/// The scope in which the body of an internal function starts: its parameters, and nothing else.
pub open spec fn body_scope(
    env: Env,
    params: Seq<Parameter>,
    args: Seq<Expr>,
    k: nat,
    scope: Scope,
) -> Scope {
    let bound = bindings(env, params, args, k, scope);
    Scope { locals: bound.locals, params: Seq::empty(), next_local: bound.scope.next_local }
}

/// The first arguments of an internal call.
proof fn lemma_internal_arguments(
    chain: Chain,
    env: Env,
    params: Seq<Parameter>,
    args: Seq<Expr>,
    k: nat,
    scope: Scope,
    st: Store,
    rounds: nat,
    vs: Seq<nat>,
) -> (bound: Store)
    requires
        k <= args.len(),
        params.len() == args.len(),
        scope_ok(scope),
        distinct_names(params),
        plain_values(chain, env, args, scope, st, rounds, vs),
        clean(bindings(env, params, args, k, scope).code),
    ensures
        eval_bindings(chain, env, params, args, k, scope, st, rounds) == Outcome::Next(bound),
        same_ledger(bound, st),
        same_below(st, bound, scope.next_local as nat),
        hold(
            chain,
            params,
            as_arguments(vs),
            k,
            body_scope(env, params, args, k, scope),
            bound,
        ),
    decreases k,
{
    if k == 0 {
        lemma_same_below(st, scope.next_local as nat);
        st
    } else {
        let j = (k - 1) as nat;
        let before = bindings(env, params, args, j, scope);
        let inner = body_scope(env, params, args, j, scope);
        let e = args[k - 1];
        assert(clean(before.code));
        let mid = lemma_internal_arguments(
            chain,
            env,
            params,
            args,
            j,
            scope,
            st,
            rounds,
            vs,
        );
        names_bindings(env, params, args, j, scope);
        sound_bindings(env, params, args, j, scope);
        assert(plain(e));
        lemma_plain_later(chain, env, e, scope, before.scope, st, mid, rounds, vs[k - 1]);
        let cell = before.scope.next_local;
        lemma_same_cell(st, mid, cell as nat, vs[k - 1], scope.next_local as nat);
        assert(expression(env, e, before.scope).scope == before.scope);
        assert(before.scope.has_room());
        lemma_hold_local(chain, params, as_arguments(vs), j, inner, mid, vs[k - 1]);
        assert(inner.reserved().with_local(params[k - 1].name, cell) == body_scope(
            env,
            params,
            args,
            k,
            scope,
        ));
        mid.with_cell(cell as nat, vs[k - 1])
    }
}

/// An internal function starts with its arguments: each parameter reads as the value of the
/// argument at its position, no variable of the caller is known, and nothing but variables has
/// changed. The call comes to what the body comes to.
pub proof fn law_internal_call(
    chain: Chain,
    env: Env,
    receiver: Box<Expr>,
    method: String,
    args: Vec<Expr>,
    want_value: bool,
    callee: Internal,
    scope: Scope,
    st: Store,
    rounds: nat,
    vs: Seq<nat>,
) -> (bound: Store)
    requires
        scope_ok(scope),
        lookup(env.contract.internal_functions, method@) == Some(callee),
        distinct_names(callee.params),
        plain_values(chain, env, args@, scope, st, rounds, vs),
        clean(
            internal_call(env, Expr::MethodCall(receiver, method, args), want_value, scope).code,
        ),
    ensures
        same_ledger(bound, st),
        ({
            let n = args@.len();
            let inner = body_scope(env, callee.params, args@, n, scope);
            let within = Env {
                contract: env.contract,
                stack: env.stack.push(method@),
                ret_string: env.ret_string,
            };
            let run = eval_block(
                chain,
                within,
                callee.block,
                if callee.output is Some {
                    Tail::Leave
                } else {
                    Tail::Void
                },
                inner,
                bound,
                rounds,
            );
            let result = eval_internal_call(
                chain,
                env,
                Expr::MethodCall(receiver, method, args),
                want_value,
                scope,
                st,
                rounds,
            );
            &&& callee.params.len() == n
            &&& forall|i: int|
                0 <= i < n ==> variable(chain, #[trigger] callee.params[i].name, inner, bound)
                    == Some(vs[i])
            &&& forall|name: Seq<char>|
                (forall|i: int| 0 <= i < n ==> (#[trigger] callee.params[i]).name != name)
                    ==> #[trigger] variable(chain, name, inner, bound) is None
            &&& run == Outcome::Reverted ==> result == Outcome::Reverted
            &&& callee.output is Some ==> (run matches Outcome::Value(v, after) ==> result
                == if want_value {
                Outcome::Value(v, after)
            } else {
                Outcome::Next(after)
            })
            &&& callee.output is None && !want_value ==> (run matches Outcome::Next(after)
                ==> result == Outcome::Next(after))
        }),
{
    let n = args@.len();
    let inner = body_scope(env, callee.params, args@, n, scope);
    lemma_internal_clean(env, receiver, method, args, want_value, callee, scope);
    let bound = lemma_internal_arguments(
        chain,
        env,
        callee.params,
        args@,
        n,
        scope,
        st,
        rounds,
        vs,
    );
    assert forall|i: int| 0 <= i < n implies variable(
        chain,
        #[trigger] callee.params[i].name,
        inner,
        bound,
    ) == Some(vs[i]) by {
        assert(as_arguments(vs)[i] == Argument::Word(vs[i]));
    }
    assert forall|name: Seq<char>|
        (forall|i: int| 0 <= i < n ==> (#[trigger] callee.params[i]).name != name) implies
        #[trigger] variable(chain, name, inner, bound) is None by {
        assert(lookup(inner.params, name) is None);
    }
    bound
}

/// The parts of an internal call without faults.
proof fn lemma_internal_clean(
    env: Env,
    receiver: Box<Expr>,
    method: String,
    args: Vec<Expr>,
    want_value: bool,
    callee: Internal,
    scope: Scope,
)
    requires
        lookup(env.contract.internal_functions, method@) == Some(callee),
        clean(
            internal_call(env, Expr::MethodCall(receiver, method, args), want_value, scope).code,
        ),
    ensures
        !env.stack.contains(method@),
        args@.len() == callee.params.len(),
        clean(bindings(env, callee.params, args@, args@.len(), scope).code),
{
}

/// `self.name(args)` is a call of the internal function of that name, in an expression and as a
/// statement.
pub proof fn law_internal_call_is_called(
    chain: Chain,
    env: Env,
    receiver: String,
    method: String,
    args: Vec<Expr>,
    scope: Scope,
    st: Store,
    rounds: nat,
)
    requires
        receiver@ == "self"@,
        lookup(env.contract.internal_functions, method@) is Some,
    ensures
        ({
            let e = Expr::MethodCall(Box::new(Expr::Ident(receiver)), method, args);
            &&& eval_expression(chain, env, e, scope, st, rounds) == eval_internal_call(
                chain,
                env,
                e,
                true,
                scope,
                st,
                rounds,
            )
            &&& method@ != "insert"@ && method@ != "set"@ && method@ != "push"@ ==> eval_statement(
                chain,
                env,
                Stmt::Expr(e, true),
                Tail::Void,
                scope,
                st,
                rounds,
            ) == eval_internal_call(chain, env, e, false, scope, st, rounds)
        }),
{
    let e = Expr::MethodCall(Box::new(Expr::Ident(receiver)), method, args);
    if method@ != "insert"@ && method@ != "set"@ && method@ != "push"@ {
        assert(eval_expression_statement(chain, env, e, Tail::Void, scope, st, rounds)
            == eval_internal_call(chain, env, e, false, scope, st, rounds));
    }
}

/// Whether the call data of a call of another contract lies in the cells from `base` on, as far as
/// the first `k` arguments go.
spec fn laid_out(st: Store, base: nat, selector: nat, vs: Seq<nat>, k: nat) -> bool {
    &&& st.cell(base) == selector
    &&& forall|i: int| 0 <= i < k ==> #[trigger] st.cell((base + 32 + 32 * i) as nat) == vs[i]
}

/// One more argument.
proof fn lemma_laid_out(st: Store, base: nat, selector: nat, vs: Seq<nat>, k: nat)
    requires
        k < vs.len(),
        laid_out(st, base, selector, vs, k),
    ensures
        laid_out(
            st.with_cell((base + 32 * (k + 1)) as nat, vs[k as int]),
            base,
            selector,
            vs,
            k + 1,
        ),
{
    let at = (base + 32 * (k + 1)) as nat;
    let after = st.with_cell(at, vs[k as int]);
    assert forall|i: int| 0 <= i < k + 1 implies #[trigger] after.cell((base + 32 + 32 * i) as nat)
        == vs[i] by {
        if i < k {
            assert(st.cell((base + 32 + 32 * i) as nat) == vs[i]);
        }
    }
}

/// The first arguments of a call of another contract.
proof fn lemma_foreign_arguments(
    chain: Chain,
    env: Env,
    args: Seq<Expr>,
    k: nat,
    base: u32,
    scope: Scope,
    reserved: Scope,
    st: Store,
    start: Store,
    rounds: nat,
    vs: Seq<nat>,
    selector: nat,
) -> (end: Store)
    requires
        k <= args.len(),
        scope_ok(scope),
        scope_ok(reserved),
        same_names(scope, reserved),
        scope.next_local <= base,
        scope.next_local <= reserved.next_local,
        plain_values(chain, env, args, scope, st, rounds, vs),
        same_below(st, start, scope.next_local as nat),
        start.cell(base as nat) == selector,
    ensures
        eval_foreign_arguments(chain, env, args, k, base, reserved, start, rounds)
            == Outcome::Next(end),
        foreign_arguments(env, args, k, base, reserved).scope == reserved,
        same_ledger(end, start),
        same_below(st, end, scope.next_local as nat),
        laid_out(end, base as nat, selector, vs, k),
    decreases k,
{
    if k == 0 {
        start
    } else {
        let j = (k - 1) as nat;
        let mid = lemma_foreign_arguments(
            chain,
            env,
            args,
            j,
            base,
            scope,
            reserved,
            st,
            start,
            rounds,
            vs,
            selector,
        );
        assert(plain(args[k - 1]));
        lemma_plain_later(
            chain,
            env,
            args[k - 1],
            scope,
            reserved,
            st,
            mid,
            rounds,
            vs[k - 1],
        );
        let at = (base + 32 * k) as nat;
        lemma_same_cell(st, mid, at, vs[k - 1], scope.next_local as nat);
        lemma_laid_out(mid, base as nat, selector, vs, j);
        mid.with_cell(at, vs[k - 1])
    }
}

/// The last four bytes of a word that holds four bytes.
proof fn lemma_selector_bytes(selector: Seq<u8>)
    requires
        selector.len() == 4,
    ensures
        be_bytes(be_value(selector), 32).skip(28) == selector,
{
    let full = zeros(28) + selector;
    lemma_be_value_zeros(28);
    lemma_be_value_concat(zeros(28), selector);
    assert(be_value(full) == be_value(selector)) by {
        assert(0 * pow(256, 4) == 0);
    }
    lemma_be_bytes_of_be_value(full);
    assert(full.skip(28) =~= selector);
}

/// Whether an outcome is what a reply of another contract asks for: a call that fails reverts the
/// caller; one that succeeds gives the first word of the reply, and leaves the storage and the log
/// of the caller alone unless the callee may write.
pub open spec fn answers(
    result: Outcome,
    reply: Reply,
    mutable: bool,
    want_value: bool,
    st: Store,
) -> bool {
    if !reply.success {
        result == Outcome::Reverted
    } else if want_value {
        reply.data.len() >= 32 ==> (result matches Outcome::Value(v, after) && v == be_value(
            reply.data.take(32),
        ) && leaves(after, reply, mutable, st))
    } else {
        result matches Outcome::Next(after) && leaves(after, reply, mutable, st)
    }
}

/// What a call of another contract leaves behind.
pub open spec fn leaves(after: Store, reply: Reply, mutable: bool, st: Store) -> bool {
    &&& after.storage == if mutable {
        reply.storage
    } else {
        st.storage
    }
    &&& after.logs == if mutable {
        st.logs + reply.logs
    } else {
        st.logs
    }
    &&& after.calls == st.calls + 1
}

/// A call of a function of another contract sends the first four bytes of the digest of its
/// signature and the arguments in their order, 32 bytes each, to the address, and may write if and
/// only if the function is declared to.
pub proof fn law_interface_call(
    chain: Chain,
    env: Env,
    func: Box<Expr>,
    targets: Vec<Expr>,
    method: String,
    args: Vec<Expr>,
    want_value: bool,
    methods: Seq<(Seq<char>, ForeignMethod)>,
    callee: ForeignMethod,
    scope: Scope,
    st: Store,
    rounds: nat,
    target: nat,
    vs: Seq<nat>,
)
    requires
        scope_ok(scope),
        interface_of(env.contract, Expr::Call(func, targets)) == Some(methods),
        lookup(methods, method@) == Some(callee),
        targets@.len() == 1,
        plain(targets@[0]),
        eval_expression(chain, env, targets@[0], scope, st, rounds) == Outcome::Value(target, st),
        plain_values(chain, env, args@, scope, st, rounds, vs),
        keccak256_digest(encode_utf8(callee.sig)).take(4).len() == 4,
        clean(
            interface_call(
                env,
                Expr::MethodCall(Box::new(Expr::Call(func, targets)), method, args),
                want_value,
                scope,
            ).code,
        ),
    ensures
        answers(
            eval_interface_call(
                chain,
                env,
                Expr::MethodCall(Box::new(Expr::Call(func, targets)), method, args),
                want_value,
                scope,
                st,
                rounds,
            ),
            (chain.outside)(
                Request {
                    target,
                    data: keccak256_digest(encode_utf8(callee.sig)).take(4) + words_data(vs),
                    mutable: callee.mutable,
                    storage: st.storage,
                    logs: st.logs,
                    earlier: st.calls,
                },
            ),
            callee.mutable,
            want_value,
            st,
        ),
{
    let e = Expr::MethodCall(Box::new(Expr::Call(func, targets)), method, args);
    let selector = keccak256_digest(encode_utf8(callee.sig)).take(4);
    let n = args@.len();
    let base = scope.next_local;
    let floor = scope.next_local as nat;
    let reserved = scope.reserved_for_call(n);
    let start = st.with_cell(base as nat, be_value(selector));
    lemma_plain(chain, env, targets@[0], scope, scope, st, st, rounds);
    assert(scope.has_room_for_call(n));
    lemma_scope_reserved_for_call(scope, n);
    lemma_same_below(st, floor);
    lemma_same_cell(st, st, base as nat, be_value(selector), floor);
    let end = lemma_foreign_arguments(
        chain,
        env,
        args@,
        n,
        base,
        scope,
        reserved,
        st,
        start,
        rounds,
        vs,
        be_value(selector),
    );
    lemma_selector_bytes(selector);
    assert forall|i: int| 0 <= i < n implies #[trigger] cell_words(end, (base + 32) as nat, n)[i]
        == vs[i] by {
        assert(end.cell((base + 32 + 32 * i) as nat) == vs[i]);
    }
    assert(cell_words(end, (base + 32) as nat, n) =~= vs);
    assert(call_data(end, base as nat, n) == selector + words_data(vs));
    assert(eval_interface_call(chain, env, e, want_value, scope, st, rounds) == foreign_call(
        chain,
        target,
        base as nat,
        n,
        callee.mutable,
        want_value,
        end,
    ));
}

/// `Interface::at(address).name(args)` is a call of another contract, in an expression and as a
/// statement, if the interface was declared.
pub proof fn law_interface_call_is_called(
    chain: Chain,
    env: Env,
    segments: Vec<String>,
    targets: Vec<Expr>,
    method: String,
    args: Vec<Expr>,
    scope: Scope,
    st: Store,
    rounds: nat,
)
    requires
        segments@.len() == 2,
        segments@[1]@ == "at"@,
        lookup(env.contract.interfaces, segments@[0]@) is Some,
    ensures
        ({
            let receiver = Expr::Call(Box::new(Expr::Path(segments)), targets);
            let e = Expr::MethodCall(Box::new(receiver), method, args);
            &&& interface_of(env.contract, receiver) == lookup(
                env.contract.interfaces,
                segments@[0]@,
            )
            &&& eval_expression(chain, env, e, scope, st, rounds) == eval_interface_call(
                chain,
                env,
                e,
                true,
                scope,
                st,
                rounds,
            )
            &&& eval_statement(chain, env, Stmt::Expr(e, true), Tail::Void, scope, st, rounds)
                == eval_interface_call(chain, env, e, false, scope, st, rounds)
        }),
{
    let receiver = Expr::Call(Box::new(Expr::Path(segments)), targets);
    let e = Expr::MethodCall(Box::new(receiver), method, args);
    assert(eval_expression_statement(chain, env, e, Tail::Void, scope, st, rounds)
        == eval_interface_call(chain, env, e, false, scope, st, rounds));
}

/// Whether a field of a literal is the first one of its name.
pub open spec fn first_of_name(literal: Seq<FieldValue>, name: Seq<char>, i: nat) -> bool {
    &&& i < literal.len()
    &&& literal[i as int].member matches Member::Named(n) && n@ == name
    &&& forall|j: int|
        0 <= j < i ==> !(#[trigger] literal[j].member matches Member::Named(n) && n@ == name)
}

/// The field that a literal has for a name is the first one of that name.
pub proof fn law_literal_field(literal: Seq<FieldValue>, name: Seq<char>, k: nat, i: nat)
    requires
        first_of_name(literal, name, i),
        i < k <= literal.len(),
    ensures
        literal_field(literal, name, k) == Some(i),
    decreases k,
{
    let j = (k - 1) as nat;
    if i < j {
        law_literal_field(literal, name, j, i);
    } else {
        lemma_no_literal_field(literal, name, j);
    }
}

/// A name that none of the first fields has.
proof fn lemma_no_literal_field(literal: Seq<FieldValue>, name: Seq<char>, k: nat)
    requires
        k <= literal.len(),
        forall|j: int|
            0 <= j < k ==> !(#[trigger] literal[j].member matches Member::Named(n) && n@ == name),
    ensures
        literal_field(literal, name, k) is None,
    decreases k,
{
    if k > 0 {
        lemma_no_literal_field(literal, name, (k - 1) as nat);
        assert(!(literal[k - 1].member matches Member::Named(n) && n@ == name));
    }
}

/// Whether a literal has plain values for all fields of an event, and which.
pub open spec fn plain_fields(
    chain: Chain,
    env: Env,
    literal: Seq<FieldValue>,
    fields: Seq<EventParameter>,
    scope: Scope,
    st: Store,
    rounds: nat,
    picks: Seq<nat>,
    vs: Seq<nat>,
) -> bool {
    &&& vs.len() == fields.len()
    &&& picks.len() == fields.len()
    &&& forall|i: int|
        0 <= i < fields.len() ==> {
            let e = literal[picks[i] as int].value;
            &&& first_of_name(literal, (#[trigger] fields[i]).name, picks[i])
            &&& plain(e)
            &&& eval_expression(chain, env, e, scope, st, rounds) == Outcome::Value(vs[i], st)
        }
}

/// The values of the first fields of an event.
proof fn lemma_event_values(
    chain: Chain,
    env: Env,
    literal: Seq<FieldValue>,
    fields: Seq<EventParameter>,
    k: nat,
    scope: Scope,
    st: Store,
    rounds: nat,
    picks: Seq<nat>,
    vs: Seq<nat>,
)
    requires
        k <= fields.len(),
        plain_fields(chain, env, literal, fields, scope, st, rounds, picks, vs),
    ensures
        event_values(env, literal, fields, k, scope).scope == scope,
        eval_event_values(chain, env, literal, fields, k, scope, st, rounds) == Outcome::Values(
            vs.take(k as int),
            st,
        ),
    decreases k,
{
    if k == 0 {
        assert(vs.take(0) =~= Seq::empty());
    } else {
        let j = (k - 1) as nat;
        lemma_event_values(chain, env, literal, fields, j, scope, st, rounds, picks, vs);
        assert(first_of_name(literal, fields[k - 1].name, picks[k - 1]));
        law_literal_field(literal, fields[k - 1].name, literal.len(), picks[k - 1]);
        let e = literal[picks[k - 1] as int].value;
        lemma_plain(chain, env, e, scope, scope, st, st, rounds);
        assert(vs.take(k as int) =~= vs.take(j as int).push(vs[k - 1]));
    }
}

/// `emit` logs one entry: its topic is the digest of the signature of the event, and its data are
/// the values of all fields in the order in which the event declares them, 32 bytes each, in
/// whatever order the literal has them. Nothing else is written.
pub proof fn law_emit(
    chain: Chain,
    env: Env,
    func: String,
    args: Vec<Expr>,
    name: String,
    literal: Vec<FieldValue>,
    event: Event,
    sig: Seq<char>,
    semi: bool,
    tail: Tail,
    scope: Scope,
    st: Store,
    rounds: nat,
    picks: Seq<nat>,
    vs: Seq<nat>,
) -> (after: Store)
    requires
        func@ == "emit"@,
        args@.len() > 0,
        args@[0] == Expr::Struct(name, literal),
        lookup(env.contract.events, name@) == Some(event),
        plain_fields(chain, env, literal@, event.fields, scope, st, rounds, picks, vs),
        signature(
            event.name,
            event.fields.map_values(
                |f: EventParameter| Parameter { name: f.name, ty: f.ty },
            ),
        ) == Ok::<Seq<char>, Fault>(sig),
    ensures
        eval_statement(
            chain,
            env,
            Stmt::Expr(Expr::Call(Box::new(Expr::Ident(func)), args), semi),
            tail,
            scope,
            st,
            rounds,
        ) == Outcome::Next(after),
        after.storage == st.storage,
        after.calls == st.calls,
        after.logs == st.logs.push(
            Log {
                topics: seq![be_value(keccak256_digest(encode_utf8(sig)))],
                data: words_data(vs),
            },
        ),
{
    reveal_strlit("emit");
    reveal_strlit("require");
    assert("emit"@.len() != "require"@.len());
    let e = Expr::Call(Box::new(Expr::Ident(func)), args);
    let n = event.fields.len();
    let last = if semi {
        Tail::Void
    } else {
        tail
    };
    lemma_event_values(
        chain,
        env,
        literal@,
        event.fields,
        n,
        scope,
        st,
        rounds,
        picks,
        vs,
    );
    assert(vs.take(n as int) =~= vs);
    assert(eval_expression_statement(chain, env, e, last, scope, st, rounds) == eval_emission(
        chain,
        env,
        e,
        scope,
        st,
        rounds,
    ));
    let result = eval_emission(chain, env, e, scope, st, rounds);
    assert(event.params() == event.fields.map_values(
        |f: EventParameter| Parameter { name: f.name, ty: f.ty },
    ));
    assert(result is Next);
    result->Next_0
}

} // verus!
