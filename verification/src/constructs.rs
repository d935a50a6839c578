//! What each construct of a function body computes, in terms of what its parts compute.

use vstd::arithmetic::power2::pow2;
use vstd::prelude::*;
use vstd::utf8::encode_utf8;

use crate::ast::{BinOp, Expr, Member, Stmt, Type};
use crate::bytes::{be_bytes, be_value, zeros};
use crate::code::Fragment;
use crate::errors::{ErrorKind, Fault};
use crate::frame::{lemma_variable_kept, same_below, same_names};
use crate::keccak::keccak256_digest;
use crate::machine::{modulus, padded, slot_value, Chain};
use crate::meaning::{
    eval_binary, eval_block, eval_conditional, eval_expression, eval_expression_statement,
    eval_place, eval_repetition, eval_requirement, eval_statement, eval_statements, eval_value,
    eval_values, operate, words_data, Outcome, Store,
};
use crate::model::{Contract, Env, Scope, StorageField};
use crate::names::lookup;
use crate::reads::{lemma_plain, plain};
use crate::scheme::{
    binary, block, expression, field_of, interface_of, place, statement, statements, values, Tail,
};
use crate::shape::scope_ok;

verus! {

/// What an arithmetic operator or a comparison makes of two words.
pub open spec fn result_of_operator(op: BinOp, l: nat, r: nat, v: nat) -> bool {
    match op {
        BinOp::Add => v == (l + r) % modulus(),
        BinOp::Sub => v == (l - r) % modulus() as int,
        BinOp::Mul => v == (l * r) % modulus(),
        BinOp::Div => (r != 0 ==> v == l / r) && (r == 0 ==> v == 0),
        BinOp::Rem => (r != 0 ==> v == l % r) && (r == 0 ==> v == 0),
        BinOp::Shl => (r < 256 ==> v == (l * pow2(r)) % modulus()) && (r >= 256 ==> v == 0),
        BinOp::Lt => v == 1 && l < r || v == 0 && l >= r,
        BinOp::Gt => v == 1 && l > r || v == 0 && l <= r,
        BinOp::Eq => v == 1 && l == r || v == 0 && l != r,
        BinOp::Ne => v == 1 && l != r || v == 0 && l == r,
        BinOp::Le => v == 1 && l <= r || v == 0 && l > r,
        BinOp::Ge => v == 1 && l >= r || v == 0 && l < r,
        BinOp::Other => false,
    }
}

/// The operands of an operator are computed one after the other, the left one first but for
/// subtraction, division and remainder, and the result is what the operator makes of them.
pub proof fn law_operator(
    chain: Chain,
    env: Env,
    op: BinOp,
    left: Box<Expr>,
    right: Box<Expr>,
    scope: Scope,
    st: Store,
    rounds: nat,
    l: nat,
    r: nat,
    mid: Store,
    end: Store,
) -> (v: nat)
    requires
        op != BinOp::Other,
        ({
            let inner = expression(env, *left, scope).scope;
            if op == BinOp::Sub || op == BinOp::Div || op == BinOp::Rem {
                &&& eval_expression(chain, env, *right, inner, st, rounds) == Outcome::Value(r, mid)
                &&& eval_expression(chain, env, *left, scope, mid, rounds) == Outcome::Value(l, end)
            } else {
                &&& eval_expression(chain, env, *left, scope, st, rounds) == Outcome::Value(l, mid)
                &&& eval_expression(chain, env, *right, inner, mid, rounds) == Outcome::Value(
                    r,
                    end,
                )
            }
        }),
    ensures
        result_of_operator(op, l, r, v),
        eval_expression(chain, env, Expr::Binary(op, left, right), scope, st, rounds)
            == Outcome::Value(v, end),
{
    let e = Expr::Binary(op, left, right);
    let v = operate(op, l, r)->Some_0;
    assert(eval_binary(chain, env, e, scope, st, rounds) == Outcome::Value(v, end));
    v
}

/// Literals stand for themselves: numbers, truth values as one and zero, and strings of fewer than
/// 32 bytes packed with twice their length in the last byte.
pub proof fn law_literals(
    chain: Chain,
    env: Env,
    n: u64,
    b: bool,
    text: String,
    scope: Scope,
    st: Store,
    rounds: nat,
)
    ensures
        eval_expression(chain, env, Expr::Int(Some(n)), scope, st, rounds) == Outcome::Value(
            n as nat,
            st,
        ),
        eval_expression(chain, env, Expr::Bool(b), scope, st, rounds) == Outcome::Value(
            if b {
                1
            } else {
                0
            },
            st,
        ),
        ({
            let bytes = encode_utf8(text@);
            bytes.len() < 32 ==> eval_expression(chain, env, Expr::Str(text), scope, st, rounds)
                == Outcome::Value(
                be_value((bytes + zeros((31 - bytes.len()) as nat)).push((2 * bytes.len()) as u8)),
                st,
            )
        }),
{
}

/// What a call can ask about itself: who made it, which contract it is in, and when. A literal in
/// `U256::from(..)` stands for itself.
pub proof fn law_call_facts(
    chain: Chain,
    env: Env,
    name: String,
    func: Expr,
    args: Vec<Expr>,
    n: u64,
    scope: Scope,
    st: Store,
    rounds: nat,
)
    ensures
        ({
            let asked = eval_expression(
                chain,
                env,
                Expr::Call(Box::new(Expr::Ident(name)), args),
                scope,
                st,
                rounds,
            );
            &&& name@ == "msg_sender"@ ==> asked == Outcome::Value(
                (chain.caller as int % modulus() as int) as nat,
                st,
            )
            &&& name@ == "address_this"@ ==> asked == Outcome::Value(
                (chain.address as int % modulus() as int) as nat,
                st,
            )
            &&& name@ == "block_timestamp"@ ==> asked == Outcome::Value(
                (chain.timestamp as int % modulus() as int) as nat,
                st,
            )
        }),
        (func matches Expr::Path(segments) && segments@.len() > 0 && segments@.last()@ == "from"@
            && args@.len() == 1 && args@[0] == Expr::Int(Some(n))) ==> eval_expression(
            chain,
            env,
            Expr::Call(Box::new(func), args),
            scope,
            st,
            rounds,
        ) == Outcome::Value(n as nat, st),
{
    reveal_strlit("msg_sender");
    reveal_strlit("address_this");
    reveal_strlit("block_timestamp");
    assert("msg_sender"@.len() == 10);
    assert("address_this"@.len() == 12);
    assert("block_timestamp"@.len() == 15);
}

/// A name reads as the local variable, or else as the parameter in the call data, and brackets
/// change nothing.
pub proof fn law_names_and_brackets(
    chain: Chain,
    env: Env,
    name: String,
    inner: Box<Expr>,
    scope: Scope,
    st: Store,
    rounds: nat,
)
    ensures
        lookup(scope.locals, name@) matches Some(offset) ==> eval_expression(
            chain,
            env,
            Expr::Ident(name),
            scope,
            st,
            rounds,
        ) == Outcome::Value(st.cell(offset as nat), st),
        lookup(scope.locals, name@) is None ==> (lookup(scope.params, name@) matches Some(offset)
            ==> eval_expression(chain, env, Expr::Ident(name), scope, st, rounds)
            == Outcome::Value(be_value(padded(chain.calldata, offset as int, 32)), st)),
        eval_expression(chain, env, Expr::Paren(inner), scope, st, rounds) == eval_expression(
            chain,
            env,
            *inner,
            scope,
            st,
            rounds,
        ),
{
}

/// A storage field reads as the word in its slot.
pub proof fn law_field_value(
    chain: Chain,
    env: Env,
    base: Box<Expr>,
    name: String,
    field: StorageField,
    scope: Scope,
    st: Store,
    rounds: nat,
)
    requires
        lookup(env.contract.storage, name@) == Some(field),
    ensures
        eval_expression(
            chain,
            env,
            Expr::Field(base, Member::Named(name)),
            scope,
            st,
            rounds,
        ) == Outcome::Value(slot_value(st.storage, field.slot as nat), st),
        eval_place(chain, env, Expr::Field(base, Member::Named(name)), scope, st, rounds)
            == Outcome::Value(field.slot as nat, st),
{
}

/// What a place in storage holds below it: the last type between the brackets of a mapping, and the
/// only one of an array.
pub open spec fn holds_below(outer: Type, inner: Type) -> bool {
    outer matches Type::Path(name, args) && (name@ == "Mapping"@ && args@.len() > 1 && inner
        == args@[1] || name@ == "Array"@ && args@.len() > 0 && inner == args@[0])
}

/// The slot of a key in a mapping is the digest of the key and the slot of the mapping, and that of
/// an element of an array is the digest of the slot of the array plus the index.
pub proof fn law_place(
    chain: Chain,
    env: Env,
    receiver: Box<Expr>,
    get: String,
    args: Vec<Expr>,
    scope: Scope,
    st: Store,
    rounds: nat,
    code: Fragment,
    ty: Type,
    base: nat,
    mid: Store,
    key: nat,
    end: Store,
)
    requires
        get@ == "get"@,
        args@.len() == 1,
        place(env, *receiver, scope).place == Ok::<(Fragment, Type), Fault>((code, ty)),
        eval_place(chain, env, *receiver, scope, st, rounds) == Outcome::Value(base, mid),
        eval_expression(
            chain,
            env,
            args@[0],
            place(env, *receiver, scope).scope,
            mid,
            rounds,
        ) == Outcome::Value(key, end),
    ensures
        ({
            let e = Expr::MethodCall(receiver, get, args);
            let slot = eval_place(chain, env, e, scope, st, rounds);
            let digest = |data: Seq<u8>|
                (be_value(keccak256_digest(data)) as int % modulus() as int) as nat;
            &&& ty matches Type::Path(name, parts) ==> {
                &&& name@ == "Mapping"@ && parts@.len() > 1 ==> slot == Outcome::Value(
                    digest(be_bytes(key, 32) + be_bytes(base, 32)),
                    end,
                )
                &&& name@ == "Array"@ && parts@.len() > 0 ==> slot == Outcome::Value(
                    ((digest(be_bytes(base, 32)) + key) as int % modulus() as int) as nat,
                    end,
                )
            }
            &&& place(env, e, scope).place matches Ok((_, inner)) ==> holds_below(ty, inner)
        }),
{
    reveal_strlit("Mapping");
    reveal_strlit("Array");
    assert("Mapping"@.len() == 7);
    assert("Array"@.len() == 5);
}

/// A `get` reads the slot of its place, and `len` the slot of the array.
pub proof fn law_get_and_len(
    chain: Chain,
    env: Env,
    receiver: Box<Expr>,
    method: String,
    args: Vec<Expr>,
    scope: Scope,
    st: Store,
    rounds: nat,
)
    requires
        *receiver is Field || *receiver is MethodCall,
    ensures
        ({
            let e = Expr::MethodCall(receiver, method, args);
            &&& method@ == "get"@ ==> (eval_place(chain, env, e, scope, st, rounds) matches
                Outcome::Value(slot, end) ==> eval_expression(chain, env, e, scope, st, rounds)
                == Outcome::Value(slot_value(end.storage, slot), end))
            &&& method@ == "len"@ ==> (field_of(env.contract, *receiver) matches Ok(field)
                ==> eval_expression(chain, env, e, scope, st, rounds) == Outcome::Value(
                slot_value(st.storage, field.slot as nat),
                st,
            ))
        }),
{
    reveal_strlit("get");
    reveal_strlit("len");
    assert("get"@[0] != "len"@[0]);
}

/// Which field `self.name` is: the one that was declared last under the name.
pub proof fn law_self_field(contract: Contract, receiver: String, name: String)
    requires
        receiver@ == "self"@,
    ensures
        field_of(
            contract,
            Expr::Field(Box::new(Expr::Ident(receiver)), Member::Named(name)),
        ) == match lookup(contract.storage, name@) {
            Some(field) => Ok(field),
            None => Err(Fault { kind: ErrorKind::UnknownField, subject: Seq::empty() }),
        },
{
}

/// `require` goes on if the condition is not zero, and reverts if it is.
pub proof fn law_require(
    chain: Chain,
    env: Env,
    name: String,
    args: Vec<Expr>,
    semi: bool,
    tail: Tail,
    scope: Scope,
    st: Store,
    rounds: nat,
    v: nat,
    after: Store,
)
    requires
        name@ == "require"@,
        args@.len() > 0,
        eval_expression(chain, env, args@[0], scope, st, rounds) == Outcome::Value(v, after),
    ensures
        eval_statement(
            chain,
            env,
            Stmt::Expr(Expr::Call(Box::new(Expr::Ident(name)), args), semi),
            tail,
            scope,
            st,
            rounds,
        ) == if v == 0 {
            Outcome::Reverted
        } else {
            Outcome::Next(after)
        },
{
    let e = Expr::Call(Box::new(Expr::Ident(name)), args);
    let last = if semi {
        Tail::Void
    } else {
        tail
    };
    assert(eval_expression_statement(chain, env, e, last, scope, st, rounds) == eval_requirement(
        chain,
        env,
        e,
        scope,
        st,
        rounds,
    ));
}

/// `if` runs its block if the condition is not zero, and what comes after `else` otherwise, where
/// there is something.
pub proof fn law_if(
    chain: Chain,
    env: Env,
    cond: Box<Expr>,
    body: Vec<Stmt>,
    otherwise: Option<Box<Expr>>,
    semi: bool,
    tail: Tail,
    scope: Scope,
    st: Store,
    rounds: nat,
    v: nat,
    mid: Store,
    end: Store,
)
    requires
        eval_expression(chain, env, *cond, scope, st, rounds) == Outcome::Value(v, mid),
    ensures
        ({
            let e = Expr::If(cond, body, otherwise);
            let result = eval_statement(
                chain,
                env,
                Stmt::Expr(e, semi),
                tail,
                scope,
                st,
                rounds,
            );
            let inner = expression(env, *cond, scope).scope;
            let skipped = block(env, body@, Tail::Void, inner).scope;
            let run = eval_block(chain, env, body@, Tail::Void, inner, mid, rounds);
            &&& v != 0 && run == Outcome::Next(end) ==> result == Outcome::Next(end)
            &&& v != 0 && run == Outcome::Reverted ==> result == Outcome::Reverted
            &&& v == 0 && otherwise is None ==> result == Outcome::Next(mid)
            &&& v == 0 ==> (otherwise matches Some(other) ==> {
                &&& *other matches Expr::Block(stmts) ==> {
                    let run = eval_block(chain, env, stmts@, Tail::Void, skipped, mid, rounds);
                    &&& run == Outcome::Next(end) ==> result == Outcome::Next(end)
                    &&& run == Outcome::Reverted ==> result == Outcome::Reverted
                }
                &&& *other is If ==> {
                    let run = eval_statement(
                        chain,
                        env,
                        Stmt::Expr(*other, semi),
                        tail,
                        skipped,
                        mid,
                        rounds,
                    );
                    &&& run == Outcome::Next(end) ==> result == Outcome::Next(end)
                    &&& run == Outcome::Reverted ==> result == Outcome::Reverted
                }
            })
        }),
{
    let e = Expr::If(cond, body, otherwise);
    let inner = expression(env, *cond, scope).scope;
    let skipped = block(env, body@, Tail::Void, inner).scope;
    lemma_if_statement(chain, env, e, semi, tail, scope, st, rounds);
    if let Some(other) = otherwise {
        if *other is If {
            lemma_if_statement(chain, env, *other, semi, tail, skipped, mid, rounds);
        }
    }
}

/// An `if` as a statement.
proof fn lemma_if_statement(
    chain: Chain,
    env: Env,
    e: Expr,
    semi: bool,
    tail: Tail,
    scope: Scope,
    st: Store,
    rounds: nat,
)
    requires
        e is If,
    ensures
        eval_statement(chain, env, Stmt::Expr(e, semi), tail, scope, st, rounds)
            == eval_conditional(chain, env, e, scope, st, rounds),
{
    let last = if semi {
        Tail::Void
    } else {
        tail
    };
    assert(eval_expression_statement(chain, env, e, last, scope, st, rounds) == eval_conditional(
        chain,
        env,
        e,
        scope,
        st,
        rounds,
    ));
}

/// `while` ends if the condition is zero. Otherwise it runs its block, and starts again.
pub proof fn law_while(
    chain: Chain,
    env: Env,
    cond: Box<Expr>,
    body: Vec<Stmt>,
    scope: Scope,
    st: Store,
    rounds: nat,
    left: nat,
    v: nat,
    mid: Store,
    end: Store,
)
    requires
        left > 0,
        eval_expression(chain, env, *cond, scope, st, rounds) == Outcome::Value(v, mid),
    ensures
        ({
            let e = Expr::While(cond, body);
            let result = eval_repetition(chain, env, e, scope, st, rounds, left);
            let inner = expression(env, *cond, scope).scope;
            let run = eval_block(chain, env, body@, Tail::Void, inner, mid, rounds);
            &&& v == 0 ==> result == Outcome::Next(mid)
            &&& v != 0 && run == Outcome::Next(end) ==> result == eval_repetition(
                chain,
                env,
                e,
                scope,
                end,
                rounds,
                (left - 1) as nat,
            )
            &&& v != 0 && run == Outcome::Reverted ==> result == Outcome::Reverted
        }),
{
}

/// A `while` as a statement may take as many rounds as are allowed.
pub proof fn law_while_statement(
    chain: Chain,
    env: Env,
    cond: Box<Expr>,
    body: Vec<Stmt>,
    semi: bool,
    tail: Tail,
    scope: Scope,
    st: Store,
    rounds: nat,
)
    ensures
        ({
            let e = Expr::While(cond, body);
            eval_statement(chain, env, Stmt::Expr(e, semi), tail, scope, st, rounds)
                == eval_repetition(chain, env, e, scope, st, rounds, rounds)
        }),
{
    let e = Expr::While(cond, body);
    let last = if semi {
        Tail::Void
    } else {
        tail
    };
    assert(eval_expression_statement(chain, env, e, last, scope, st, rounds) == eval_repetition(
        chain,
        env,
        e,
        scope,
        st,
        rounds,
        rounds,
    ));
}

/// The statements of a block run one after the other, each in the scope that those before it leave.
/// Only the last one has the tail of the block. A revert ends the block.
pub proof fn law_statements(
    chain: Chain,
    env: Env,
    stmts: Seq<Stmt>,
    k: nat,
    tail: Tail,
    scope: Scope,
    st: Store,
    rounds: nat,
    mid: Store,
)
    requires
        k < stmts.len(),
    ensures
        eval_statements(chain, env, stmts, 0, tail, scope, st, rounds) == Outcome::Next(st),
        eval_block(chain, env, stmts, tail, scope, st, rounds) == eval_statements(
            chain,
            env,
            stmts,
            stmts.len(),
            tail,
            scope,
            st,
            rounds,
        ),
        ({
            let before = eval_statements(chain, env, stmts, k, tail, scope, st, rounds);
            let now = eval_statements(chain, env, stmts, k + 1, tail, scope, st, rounds);
            &&& before == Outcome::Next(mid) ==> now == eval_statement(
                chain,
                env,
                stmts[k as int],
                if k + 1 == stmts.len() {
                    tail
                } else {
                    Tail::Void
                },
                statements(env, stmts, k, tail, scope).scope,
                mid,
                rounds,
            )
            &&& before == Outcome::Reverted ==> now == Outcome::Reverted
        }),
{
}

/// The scope behind the statements of a block is that behind the last one.
pub proof fn law_scope_of_statements(
    env: Env,
    stmts: Seq<Stmt>,
    k: nat,
    tail: Tail,
    scope: Scope,
)
    requires
        k < stmts.len(),
    ensures
        statements(env, stmts, 0, tail, scope).scope == scope,
        statements(env, stmts, k + 1, tail, scope).scope == statement(
            env,
            stmts[k as int],
            if k + 1 == stmts.len() {
                tail
            } else {
                Tail::Void
            },
            statements(env, stmts, k, tail, scope).scope,
        ).scope,
        block(env, stmts, tail, scope).scope == statements(
            env,
            stmts,
            stmts.len(),
            tail,
            scope,
        ).scope,
{
}

/// The last expression of a function is what a call returns: a word in 32 bytes, or a string in the
/// form of the contract ABI. The last expression of an internal function is its value.
pub proof fn law_result(
    chain: Chain,
    env: Env,
    e: Expr,
    scope: Scope,
    st: Store,
    rounds: nat,
    v: nat,
    after: Store,
)
    requires
        e is Int || e is Bool || e is Str || e is Field || e is Binary || e is Paren || e is Ident,
        eval_expression(chain, env, e, scope, st, rounds) == Outcome::Value(v, after),
    ensures
        ({
            let stmt = Stmt::Expr(e, false);
            &&& eval_statement(chain, env, stmt, Tail::Return, scope, st, rounds)
                == Outcome::Returned(
                if env.ret_string {
                    be_bytes(0x20, 32) + be_bytes((v % 256) / 2, 32) + be_bytes(
                        (v - v % 256) as nat,
                        32,
                    )
                } else {
                    be_bytes(v, 32)
                },
                after,
            )
            &&& eval_statement(chain, env, stmt, Tail::Leave, scope, st, rounds) == Outcome::Value(
                v,
                after,
            )
        }),
{
    lemma_value_statement(chain, env, e, Tail::Return, scope, st, rounds);
    lemma_value_statement(chain, env, e, Tail::Leave, scope, st, rounds);
}

/// An expression that is the last one of a block.
proof fn lemma_value_statement(
    chain: Chain,
    env: Env,
    e: Expr,
    tail: Tail,
    scope: Scope,
    st: Store,
    rounds: nat,
)
    requires
        e is Int || e is Bool || e is Str || e is Field || e is Binary || e is Paren || e is Ident
            || e is Tuple,
    ensures
        eval_statement(chain, env, Stmt::Expr(e, false), tail, scope, st, rounds) == eval_value(
            chain,
            env,
            e,
            tail,
            scope,
            st,
            rounds,
        ),
{
    assert(eval_expression_statement(chain, env, e, tail, scope, st, rounds) == eval_value(
        chain,
        env,
        e,
        tail,
        scope,
        st,
        rounds,
    ));
}

/// Whether a call is made for its value: one of another contract, a method that does not write, or
/// a function other than `require` and `emit`.
pub open spec fn is_value_call(contract: Contract, e: Expr) -> bool {
    match e {
        Expr::MethodCall(receiver, method, _) => interface_of(contract, *receiver) is Some || (
        method@ != "insert"@ && method@ != "set"@ && method@ != "push"@),
        Expr::Call(func, _) => !(*func matches Expr::Ident(name) && (name@ == "require"@ || name@
            == "emit"@)),
        _ => false,
    }
}

/// A call that stands last is what the function returns, or the value of an internal function.
pub proof fn law_result_of_call(
    chain: Chain,
    env: Env,
    e: Expr,
    scope: Scope,
    st: Store,
    rounds: nat,
)
    requires
        is_value_call(env.contract, e),
    ensures
        ({
            let stmt = Stmt::Expr(e, false);
            let value = eval_expression(chain, env, e, scope, st, rounds);
            let result = eval_statement(chain, env, stmt, Tail::Return, scope, st, rounds);
            &&& value matches Outcome::Value(v, after) ==> result == Outcome::Returned(
                if env.ret_string {
                    be_bytes(0x20, 32) + be_bytes((v % 256) / 2, 32) + be_bytes(
                        (v - v % 256) as nat,
                        32,
                    )
                } else {
                    be_bytes(v, 32)
                },
                after,
            )
            &&& value == Outcome::Reverted ==> result == Outcome::Reverted
            &&& eval_statement(chain, env, stmt, Tail::Leave, scope, st, rounds) == value
        }),
{
    assert(eval_expression_statement(chain, env, e, Tail::Return, scope, st, rounds)
        == eval_value(chain, env, e, Tail::Return, scope, st, rounds));
    assert(eval_expression_statement(chain, env, e, Tail::Leave, scope, st, rounds) == eval_value(
        chain,
        env,
        e,
        Tail::Leave,
        scope,
        st,
        rounds,
    ));
}

/// The words of a list, one after the other, 32 bytes each.
pub proof fn law_words_data(words: Seq<nat>, v: nat)
    ensures
        words_data(Seq::empty()) == Seq::<u8>::empty(),
        words_data(words.push(v)) == words_data(words) + be_bytes(v, 32),
{
    assert(words.push(v).drop_last() =~= words);
}

/// A tuple returns its components, computed one after the other, in their order.
pub proof fn law_tuple_result(
    chain: Chain,
    env: Env,
    elems: Vec<Expr>,
    scope: Scope,
    st: Store,
    rounds: nat,
    vs: Seq<nat>,
    after: Store,
)
    requires
        eval_values(chain, env, elems@, elems@.len(), scope, st, rounds) == Outcome::Values(
            vs,
            after,
        ),
    ensures
        eval_statement(
            chain,
            env,
            Stmt::Expr(Expr::Tuple(elems), false),
            Tail::Return,
            scope,
            st,
            rounds,
        ) == Outcome::Returned(words_data(vs), after),
{
    let e = Expr::Tuple(elems);
    lemma_value_statement(chain, env, e, Tail::Return, scope, st, rounds);
}

/// The values of a list are those of its expressions, in their order.
pub proof fn law_values(
    chain: Chain,
    env: Env,
    elems: Seq<Expr>,
    k: nat,
    scope: Scope,
    st: Store,
    rounds: nat,
    vs: Seq<nat>,
    mid: Store,
    v: nat,
    end: Store,
)
    requires
        k < elems.len(),
        eval_values(chain, env, elems, k, scope, st, rounds) == Outcome::Values(vs, mid),
        eval_expression(
            chain,
            env,
            elems[k as int],
            values(env, elems, k, scope).scope,
            mid,
            rounds,
        ) == Outcome::Value(v, end),
    ensures
        eval_values(chain, env, elems, 0, scope, st, rounds) == Outcome::Values(Seq::empty(), st),
        eval_values(chain, env, elems, k + 1, scope, st, rounds) == Outcome::Values(
            vs.push(v),
            end,
        ),
{
}

/// Whether expressions are plain, and have the given values.
pub open spec fn plain_values(
    chain: Chain,
    env: Env,
    args: Seq<Expr>,
    scope: Scope,
    st: Store,
    rounds: nat,
    vs: Seq<nat>,
) -> bool {
    &&& vs.len() == args.len()
    &&& forall|i: int|
        0 <= i < args.len() ==> {
            &&& plain(#[trigger] args[i])
            &&& eval_expression(chain, env, args[i], scope, st, rounds) == Outcome::Value(vs[i], st)
        }
}

/// A plain expression reads the same in a store whose variables are the same.
pub proof fn lemma_plain_later(
    chain: Chain,
    env: Env,
    e: Expr,
    scope: Scope,
    later: Scope,
    st: Store,
    after: Store,
    rounds: nat,
    v: nat,
)
    requires
        plain(e),
        scope_ok(scope),
        same_names(scope, later),
        same_below(st, after, scope.next_local as nat),
        eval_expression(chain, env, e, scope, st, rounds) == Outcome::Value(v, st),
    ensures
        expression(env, e, later).scope == later,
        eval_expression(chain, env, e, later, after, rounds) == Outcome::Value(v, after),
    decreases e,
{
    match e {
        Expr::Paren(inner) => lemma_plain_later(
            chain,
            env,
            *inner,
            scope,
            later,
            st,
            after,
            rounds,
            v,
        ),
        Expr::Ident(name) => {
            lemma_variable_kept(chain, name@, scope, later, st, after);
        },
        Expr::Binary(op, left, right) => {
            lemma_plain(chain, env, *left, scope, scope, st, st, rounds);
            lemma_plain(chain, env, *right, scope, scope, st, st, rounds);
            let (l, r) = lemma_plain_operands(chain, env, op, left, right, scope, st, rounds);
            lemma_plain_later(chain, env, *left, scope, later, st, after, rounds, l);
            lemma_plain_later(chain, env, *right, scope, later, st, after, rounds, r);
            let a = law_operator(
                chain,
                env,
                op,
                left,
                right,
                scope,
                st,
                rounds,
                l,
                r,
                st,
                st,
            );
            let b = law_operator(
                chain,
                env,
                op,
                left,
                right,
                later,
                after,
                rounds,
                l,
                r,
                after,
                after,
            );
            lemma_binary_scope(env, op, left, right, later);
        },
        _ => {},
    }
}

/// The scope behind an operator whose operands are plain.
proof fn lemma_binary_scope(env: Env, op: BinOp, left: Box<Expr>, right: Box<Expr>, scope: Scope)
    requires
        expression(env, *left, scope).scope == scope,
        expression(env, *right, scope).scope == scope,
    ensures
        expression(env, Expr::Binary(op, left, right), scope).scope == scope,
{
    assert(binary(env, Expr::Binary(op, left, right), scope).scope == scope);
}

/// The operands of an operator that has a value have values.
proof fn lemma_plain_operands(
    chain: Chain,
    env: Env,
    op: BinOp,
    left: Box<Expr>,
    right: Box<Expr>,
    scope: Scope,
    st: Store,
    rounds: nat,
) -> (r: (nat, nat))
    requires
        plain(*left),
        plain(*right),
        eval_expression(chain, env, Expr::Binary(op, left, right), scope, st, rounds) is Value,
    ensures
        op != BinOp::Other,
        expression(env, *left, scope).scope == scope,
        eval_expression(chain, env, *left, scope, st, rounds) == Outcome::Value(r.0, st),
        eval_expression(chain, env, *right, scope, st, rounds) == Outcome::Value(r.1, st),
{
    let e = Expr::Binary(op, left, right);
    lemma_plain(chain, env, *left, scope, scope, st, st, rounds);
    lemma_plain(chain, env, *right, scope, scope, st, st, rounds);
    assert(eval_binary(chain, env, e, scope, st, rounds) is Value);
    let l = eval_expression(chain, env, *left, scope, st, rounds);
    let r = eval_expression(chain, env, *right, scope, st, rounds);
    assert(l is Value && r is Value);
    (l->Value_0, r->Value_0)
}

} // verus!
