//! Which constructs compile: each one does if and only if its parts do and it is used as it is
//! meant to be. Where it does not, the fault says why.

use vstd::prelude::*;
use vstd::utf8::encode_utf8;

use crate::abi::{signature, Parameter};
use crate::ast::{BinOp, Expr, FieldValue, Member, Pat, Stmt, Type};
use crate::code::Fragment;
use crate::constructs::is_value_call;
use crate::encoding::is_string;
use crate::errors::{ErrorKind, Fault};
use crate::model::{Contract, Env, EventParameter, FieldKind, ForeignMethod, Internal, Scope};
use crate::names::lookup;
use crate::scheme::{
    all_words, array_push, array_set, assignment, binary, bindings, block, conditional,
    constructor_code, constructor_params, data_place, emission, event_values, expression,
    expression_statement, field_of, foreign_arguments, function_code, function_params, get_value,
    interface_call, interface_of, internal_call, literal_field, mapping_insert, pattern_name, place,
    repetition, requirement, statement, statements, value_statement, values, word_types, Tail,
};
use crate::simulate::clean;
use crate::text::decimal_digits;

verus! {

/// Whether there are enough labels to put one fragment behind another.
pub open spec fn joinable(a: Fragment, b: Fragment) -> bool {
    a.program.labels + b.program.labels <= u32::MAX
}

/// A list with one fault that is about nothing in particular.
pub open spec fn only(kind: ErrorKind) -> Seq<Fault> {
    seq![Fault { kind, subject: Seq::empty() }]
}

/// Two fragments, one behind the other, have no faults if neither has, and there are enough labels.
/// The faults of the first come first.
pub proof fn law_joined_fragments(a: Fragment, b: Fragment)
    ensures
        clean(a) <==> a.errors.len() == 0,
        clean(a.followed_by(b)) <==> clean(a) && clean(b) && joinable(a, b),
        joinable(a, b) ==> a.followed_by(b).errors == a.errors + b.errors,
        !joinable(a, b) ==> a.followed_by(b).errors == a.errors + b.errors + only(
            ErrorKind::TooManyLabels,
        ),
{
    assert((a.errors + b.errors).push(only(ErrorKind::TooManyLabels)[0]) =~= a.errors + b.errors
        + only(ErrorKind::TooManyLabels));
}

/// Numbers of up to 64 bits compile, truth values do, and strings of up to 31 bytes.
pub proof fn law_literals_accepted(env: Env, n: Option<u64>, b: bool, text: String, scope: Scope)
    ensures
        n is Some ==> clean(expression(env, Expr::Int(n), scope).code),
        n is None ==> expression(env, Expr::Int(n), scope).code.errors == only(
            ErrorKind::LiteralTooLarge,
        ),
        clean(expression(env, Expr::Bool(b), scope).code),
        encode_utf8(text@).len() <= 31 ==> clean(expression(env, Expr::Str(text), scope).code),
        encode_utf8(text@).len() > 31 ==> expression(env, Expr::Str(text), scope).code.errors
            == seq![
            Fault {
                kind: ErrorKind::ShortStringTooLong,
                subject: decimal_digits(encode_utf8(text@).len()),
            },
        ],
{
}

/// A name compiles if it is that of a local variable or of a parameter.
pub proof fn law_name_accepted(env: Env, name: String, inner: Box<Expr>, scope: Scope)
    ensures
        lookup(scope.locals, name@) is Some || lookup(scope.params, name@) is Some ==> clean(
            expression(env, Expr::Ident(name), scope).code,
        ),
        lookup(scope.locals, name@) is None && lookup(scope.params, name@) is None ==> expression(
            env,
            Expr::Ident(name),
            scope,
        ).code.errors == seq![Fault { kind: ErrorKind::UnknownIdentifier, subject: name@ }],
        expression(env, Expr::Paren(inner), scope) == expression(env, *inner, scope),
{
}

/// A storage field compiles if it was declared and belongs to `self`.
pub proof fn law_field_accepted(env: Env, base: Box<Expr>, member: Member, scope: Scope)
    ensures
        ({
            let code = expression(env, Expr::Field(base, member), scope).code;
            let own = *base matches Expr::Ident(n) && n@ == "self"@;
            &&& !own ==> code.errors == only(ErrorKind::UnsupportedExpression)
            &&& own ==> match member {
                Member::Unnamed => code.errors == only(ErrorKind::TupleField),
                Member::Named(name) => if lookup(env.contract.storage, name@) is Some {
                    clean(code)
                } else {
                    code.errors == only(ErrorKind::UnknownField)
                },
            }
        }),
{
}

/// The calls that an expression can make are the questions about the call itself, and `from` with a
/// number.
pub proof fn law_call_accepted(env: Env, func: Box<Expr>, args: Vec<Expr>, scope: Scope)
    ensures
        ({
            let code = expression(env, Expr::Call(func, args), scope).code;
            let question = *func matches Expr::Ident(n) && (n@ == "msg_sender"@ || n@
                == "address_this"@ || n@ == "block_timestamp"@);
            let from = match *func {
                Expr::Ident(n) => n@ == "from"@,
                Expr::Path(segments) => segments@.len() > 0 && segments@.last()@ == "from"@,
                _ => false,
            };
            let number = args@.len() == 1 && args@[0] is Int;
            &&& question ==> clean(code)
            &&& !question && from && number ==> (if args@[0]->Int_0 is Some {
                clean(code)
            } else {
                code.errors == only(ErrorKind::LiteralTooLarge)
            })
            &&& !question && !(from && number) ==> code.errors == only(ErrorKind::UnsupportedCall)
        }),
{
}

/// An operator compiles if its operands do.
pub proof fn law_operator_accepted(
    env: Env,
    op: BinOp,
    left: Box<Expr>,
    right: Box<Expr>,
    scope: Scope,
)
    ensures
        ({
            let code = expression(env, Expr::Binary(op, left, right), scope).code;
            let l = expression(env, *left, scope);
            let r = expression(env, *right, l.scope);
            &&& op != BinOp::Other ==> (clean(code) <==> clean(l.code) && clean(r.code)
                && joinable(l.code, r.code))
            &&& op == BinOp::Other ==> code.errors == only(ErrorKind::UnsupportedOperator)
        }),
{
    assert(expression(env, Expr::Binary(op, left, right), scope) == binary(
        env,
        Expr::Binary(op, left, right),
        scope,
    ));
}

/// Whether a type is a mapping.
pub open spec fn is_mapping(ty: Type) -> bool {
    ty matches Type::Path(name, args) && name@ == "Mapping"@ && args@.len() > 1
}

/// Whether a type is an array.
pub open spec fn is_array(ty: Type) -> bool {
    ty matches Type::Path(name, args) && name@ == "Array"@ && args@.len() > 0
}

/// The place of a storage field has the type that was declared for it.
pub proof fn law_field_place_accepted(env: Env, base: Box<Expr>, member: Member, scope: Scope)
    ensures
        ({
            let found = place(env, Expr::Field(base, member), scope);
            let own = *base matches Expr::Ident(n) && n@ == "self"@;
            &&& found.scope == scope
            &&& own ==> (member matches Member::Named(name) ==> {
                &&& lookup(env.contract.storage, name@) is Some ==> (lookup(
                    env.contract.field_types,
                    name@,
                ) matches Some(ty) ==> (found.place matches Ok((code, t)) && t == ty && clean(
                    code,
                )))
                &&& lookup(env.contract.storage, name@) is None ==> found.place == Err::<
                    (Fragment, Type),
                    Fault,
                >(Fault { kind: ErrorKind::UnknownField, subject: Seq::empty() })
            })
            &&& !own ==> found.place == Err::<(Fragment, Type), Fault>(
                Fault { kind: ErrorKind::StorageAccess, subject: Seq::empty() },
            )
        }),
{
}

/// A `get` on top of a place compiles if the place is a mapping or an array and the key compiles.
/// It stands for what the mapping or the array holds.
pub proof fn law_place_accepted(
    env: Env,
    receiver: Box<Expr>,
    method: String,
    args: Vec<Expr>,
    scope: Scope,
    code: Fragment,
    ty: Type,
)
    requires
        method@ == "get"@,
        args@.len() == 1,
        place(env, *receiver, scope).place == Ok::<(Fragment, Type), Fault>((code, ty)),
    ensures
        ({
            let found = place(env, Expr::MethodCall(receiver, method, args), scope);
            let key = expression(env, args@[0], place(env, *receiver, scope).scope);
            &&& found.scope == key.scope
            &&& is_mapping(ty) ==> (found.place matches Ok((all, t)) && t == (ty->Path_1)@[1] && (
            clean(all) <==> clean(code) && clean(key.code) && joinable(code, key.code)))
            &&& is_array(ty) ==> (found.place matches Ok((all, t)) && t == (ty->Path_1)@[0] && (
            clean(all) <==> clean(code) && clean(key.code) && joinable(code, key.code)))
            &&& !is_mapping(ty) && !is_array(ty) ==> found.place == Err::<(Fragment, Type), Fault>(
                Fault { kind: ErrorKind::GetReceiver, subject: Seq::empty() },
            )
        }),
{
    reveal_strlit("Mapping");
    reveal_strlit("Array");
    assert("Mapping"@.len() == 7);
    assert("Array"@.len() == 5);
}

/// Reading a place compiles if there is a single word in it.
pub proof fn law_get_accepted(
    env: Env,
    receiver: Box<Expr>,
    method: String,
    args: Vec<Expr>,
    scope: Scope,
)
    requires
        method@ == "get"@,
        *receiver is Field || *receiver is MethodCall,
    ensures
        ({
            let e = Expr::MethodCall(receiver, method, args);
            let code = expression(env, e, scope).code;
            match place(env, e, scope).place {
                Err(fault) => code.errors == seq![fault],
                Ok((found, ty)) => if is_mapping(ty) || is_array(ty) {
                    code.errors == only(ErrorKind::GetNotScalar)
                } else {
                    clean(code) <==> clean(found)
                },
            }
        }),
{
    let e = Expr::MethodCall(receiver, method, args);
    assert(expression(env, e, scope) == get_value(env, e, scope));
}

/// `len` compiles on array fields.
pub proof fn law_len_accepted(
    env: Env,
    receiver: Box<Expr>,
    method: String,
    args: Vec<Expr>,
    scope: Scope,
)
    requires
        method@ == "len"@,
        *receiver is Field,
    ensures
        ({
            let code = expression(env, Expr::MethodCall(receiver, method, args), scope).code;
            match field_of(env.contract, *receiver) {
                Err(fault) => code.errors == seq![fault],
                Ok(field) => if field.kind == FieldKind::Array {
                    clean(code)
                } else {
                    code.errors == only(ErrorKind::LenReceiver)
                },
            }
        }),
{
    reveal_strlit("get");
    reveal_strlit("len");
    assert("get"@[0] != "len"@[0]);
}

/// `let` compiles if its value does and there is memory for one more word. The name stands for a
/// word of its own from there on.
pub proof fn law_let_accepted(env: Env, pat: Pat, e: Expr, tail: Tail, scope: Scope)
    ensures
        ({
            let all = statement(env, Stmt::Local(pat, Some(e)), tail, scope);
            let value = expression(env, e, scope);
            let next = value.scope.next_local;
            &&& pattern_name(pat) matches Ok(name) ==> {
                &&& clean(all.code) <==> clean(value.code) && next + 0x20 <= u32::MAX
                &&& next + 0x20 <= u32::MAX ==> {
                    &&& lookup(all.scope.locals, name) == Some(next)
                    &&& all.scope.next_local == next + 0x20
                    &&& all.scope.params == value.scope.params
                }
            }
            &&& pattern_name(pat) is Err ==> all.code.errors == only(ErrorKind::LetPattern)
            &&& statement(env, Stmt::Local(Pat::Ident(arbitrary()), None), tail, scope).code.errors
                == only(ErrorKind::LocalWithoutValue)
        }),
{
    lemma_pattern(pat);
}

/// A name, with a type or without, can be declared, and no other pattern.
pub proof fn law_pattern(pat: Box<Pat>, name: String)
    ensures
        pattern_name(Pat::Ident(name)) == Ok::<Seq<char>, Fault>(name@),
        pattern_name(Pat::Typed(pat)) == pattern_name(*pat),
        pattern_name(Pat::Other) == Err::<Seq<char>, Fault>(
            Fault { kind: ErrorKind::LetPattern, subject: Seq::empty() },
        ),
{
}

/// The fault of a pattern.
proof fn lemma_pattern(pat: Pat)
    ensures
        pattern_name(pat) matches Err(fault) ==> fault == (Fault {
            kind: ErrorKind::LetPattern,
            subject: Seq::empty(),
        }),
    decreases pat,
{
    if let Pat::Typed(inner) = pat {
        lemma_pattern(*inner);
    }
}

/// An assignment compiles if its value does, and its target is a declared field of `self` or a
/// local variable.
pub proof fn law_assignment_accepted(
    env: Env,
    left: Box<Expr>,
    right: Box<Expr>,
    semi: bool,
    tail: Tail,
    scope: Scope,
)
    ensures
        ({
            let e = Expr::Assign(left, right);
            let code = statement(env, Stmt::Expr(e, semi), tail, scope).code;
            let value = expression(env, *right, scope).code;
            match *left {
                Expr::Field(base, Member::Named(name)) => if *base matches Expr::Ident(n) && n@
                    == "self"@ {
                    if lookup(env.contract.storage, name@) is Some {
                        clean(code) <==> clean(value)
                    } else {
                        code.errors == only(ErrorKind::UnknownField)
                    }
                } else {
                    code.errors == only(ErrorKind::AssignmentTarget)
                },
                Expr::Field(_, Member::Unnamed) => !clean(code),
                Expr::Ident(name) => if lookup(scope.locals, name@) is Some {
                    clean(code) <==> clean(value)
                } else {
                    code.errors == only(ErrorKind::AssignmentTarget)
                },
                _ => code.errors == only(ErrorKind::AssignmentTarget),
            }
        }),
{
    let e = Expr::Assign(left, right);
    let last = if semi {
        Tail::Void
    } else {
        tail
    };
    assert(expression_statement(env, e, last, scope) == assignment(env, e, scope));
}

/// `insert` compiles on a mapping, with a key and a value that compile.
pub proof fn law_insert_accepted(
    env: Env,
    receiver: Box<Expr>,
    method: String,
    args: Vec<Expr>,
    semi: bool,
    tail: Tail,
    scope: Scope,
)
    requires
        method@ == "insert"@,
        *receiver is Field || *receiver is MethodCall,
    ensures
        ({
            let e = Expr::MethodCall(receiver, method, args);
            let code = statement(env, Stmt::Expr(e, semi), tail, scope).code;
            let base = place(env, *receiver, scope);
            if args@.len() != 2 {
                code.errors == only(ErrorKind::InsertArguments)
            } else {
                match base.place {
                    Err(fault) => code.errors == seq![fault],
                    Ok((found, ty)) => if !is_mapping(ty) {
                        code.errors == only(ErrorKind::InsertReceiver)
                    } else {
                        let value = expression(env, args@[1], base.scope);
                        let key = expression(env, args@[0], value.scope);
                        clean(code) <==> clean(found) && clean(value.code) && clean(key.code)
                            && joinable(value.code, found) && joinable(
                            value.code.followed_by(found),
                            key.code,
                        )
                    },
                }
            }
        }),
{
    let e = Expr::MethodCall(receiver, method, args);
    let last = if semi {
        Tail::Void
    } else {
        tail
    };
    assert(interface_of(env.contract, *receiver) is None);
    assert(expression_statement(env, e, last, scope) == mapping_insert(env, e, scope));
    reveal_strlit("Mapping");
    reveal_strlit("Array");
    assert("Mapping"@.len() == 7);
    assert("Array"@.len() == 5);
}

/// `set` compiles on an array field with an index and a value that compile, and `push` with a value
/// that compiles.
pub proof fn law_array_accepted(
    env: Env,
    receiver: Box<Expr>,
    method: String,
    args: Vec<Expr>,
    semi: bool,
    tail: Tail,
    scope: Scope,
)
    requires
        method@ == "set"@ || method@ == "push"@,
        *receiver is Field,
    ensures
        ({
            let e = Expr::MethodCall(receiver, method, args);
            let code = statement(env, Stmt::Expr(e, semi), tail, scope).code;
            let set = method@ == "set"@;
            match field_of(env.contract, *receiver) {
                Err(fault) => code.errors == seq![fault],
                Ok(field) => if field.kind != FieldKind::Array {
                    code.errors == only(
                        if set {
                            ErrorKind::SetReceiver
                        } else {
                            ErrorKind::PushReceiver
                        },
                    )
                } else if set && args@.len() != 2 {
                    code.errors == only(ErrorKind::SetArguments)
                } else if !set && args@.len() != 1 {
                    code.errors == only(ErrorKind::PushArguments)
                } else if set {
                    let value = expression(env, args@[1], scope);
                    let index = expression(env, args@[0], value.scope);
                    clean(code) <==> clean(value.code) && clean(index.code) && joinable(
                        value.code,
                        index.code,
                    )
                } else {
                    clean(code) <==> clean(expression(env, args@[0], scope).code)
                },
            }
        }),
{
    reveal_strlit("insert");
    reveal_strlit("set");
    reveal_strlit("push");
    let e = Expr::MethodCall(receiver, method, args);
    let last = if semi {
        Tail::Void
    } else {
        tail
    };
    assert("set"@.len() == 3 && "insert"@.len() == 6 && "push"@.len() == 4);
    assert(interface_of(env.contract, *receiver) is None);
    if method@ == "set"@ {
        assert(expression_statement(env, e, last, scope) == array_set(env, e, scope));
    } else {
        assert(expression_statement(env, e, last, scope) == array_push(env, e, scope));
    }
}

/// `require` compiles if its condition does.
pub proof fn law_require_accepted(
    env: Env,
    name: String,
    args: Vec<Expr>,
    semi: bool,
    tail: Tail,
    scope: Scope,
)
    requires
        name@ == "require"@,
    ensures
        ({
            let e = Expr::Call(Box::new(Expr::Ident(name)), args);
            let code = statement(env, Stmt::Expr(e, semi), tail, scope).code;
            if args@.len() == 0 {
                code.errors == only(ErrorKind::MissingArgument)
            } else {
                let cond = expression(env, args@[0], scope).code;
                clean(code) <==> clean(cond) && cond.program.labels < u32::MAX
            }
        }),
{
    let e = Expr::Call(Box::new(Expr::Ident(name)), args);
    let last = if semi {
        Tail::Void
    } else {
        tail
    };
    assert(expression_statement(env, e, last, scope) == requirement(env, e, scope));
}

/// `emit` compiles with a literal of a declared event whose values compile, if the event has types
/// that the contract ABI knows. The data of an event of more than four fields needs memory.
pub proof fn law_emit_accepted(
    env: Env,
    func: String,
    args: Vec<Expr>,
    name: String,
    literal: Vec<FieldValue>,
    semi: bool,
    tail: Tail,
    scope: Scope,
)
    requires
        func@ == "emit"@,
        args@.len() > 0,
        args@[0] == Expr::Struct(name, literal),
    ensures
        ({
            let e = Expr::Call(Box::new(Expr::Ident(func)), args);
            let code = statement(env, Stmt::Expr(e, semi), tail, scope).code;
            match lookup(env.contract.events, name@) {
                None => code.errors == only(ErrorKind::UnknownEvent),
                Some(event) => {
                    let n = event.fields.len();
                    let data = event_values(env, literal@, event.fields, n, scope);
                    let params = event.fields.map_values(
                        |f: EventParameter| Parameter { name: f.name, ty: f.ty },
                    );
                    clean(code) <==> clean(data.code) && signature(event.name, params) is Ok && (n
                        <= 4 || data.scope.next_local + 32 * n <= u32::MAX)
                },
            }
        }),
{
    reveal_strlit("emit");
    reveal_strlit("require");
    assert("emit"@.len() != "require"@.len());
    let e = Expr::Call(Box::new(Expr::Ident(func)), args);
    let last = if semi {
        Tail::Void
    } else {
        tail
    };
    assert(expression_statement(env, e, last, scope) == emission(env, e, scope));
    if let Some(event) = lookup(env.contract.events, name@) {
        assert(event.params() == event.fields.map_values(
            |f: EventParameter| Parameter { name: f.name, ty: f.ty },
        ));
    }
}

/// The values of an event compile if the literal has one for every field, and they compile.
pub proof fn law_event_values_accepted(
    env: Env,
    literal: Seq<FieldValue>,
    fields: Seq<EventParameter>,
    k: nat,
    scope: Scope,
)
    requires
        k < fields.len(),
    ensures
        clean(event_values(env, literal, fields, 0, scope).code),
        ({
            let before = event_values(env, literal, fields, k, scope);
            let now = event_values(env, literal, fields, k + 1, scope);
            match literal_field(literal, fields[k as int].name, literal.len()) {
                None => joinable(before.code, Fragment::empty()) ==> now.code.errors
                    == before.code.errors.push(
                    Fault {
                        kind: ErrorKind::MissingEventField,
                        subject: fields[k as int].name,
                    },
                ),
                Some(i) => {
                    let last = expression(env, literal[i as int].value, before.scope);
                    &&& now.scope == last.scope
                    &&& clean(now.code) <==> clean(before.code) && clean(last.code) && joinable(
                        before.code,
                        last.code,
                    )
                },
            }
        }),
{
    let before = event_values(env, literal, fields, k, scope);
    let fault = Fault { kind: ErrorKind::MissingEventField, subject: fields[k as int].name };
    assert(before.code.errors + seq![fault] =~= before.code.errors.push(fault));
}

/// An `if` compiles if its condition and its blocks do.
pub proof fn law_if_accepted(
    env: Env,
    cond: Box<Expr>,
    body: Vec<Stmt>,
    otherwise: Option<Box<Expr>>,
    semi: bool,
    tail: Tail,
    scope: Scope,
)
    ensures
        ({
            let e = Expr::If(cond, body, otherwise);
            let all = statement(env, Stmt::Expr(e, semi), tail, scope);
            let test = expression(env, *cond, scope);
            let yes = block(env, body@, Tail::Void, test.scope);
            let labels = test.code.program.labels + yes.code.program.labels;
            match otherwise {
                None => {
                    &&& all.scope == yes.scope
                    &&& clean(all.code) <==> clean(test.code) && clean(yes.code) && labels + 1
                        <= u32::MAX
                },
                Some(other) => match *other {
                    Expr::Block(stmts) => {
                        let no = block(env, stmts@, Tail::Void, yes.scope);
                        &&& all.scope == no.scope
                        &&& clean(all.code) <==> clean(test.code) && clean(yes.code) && clean(
                            no.code,
                        ) && labels + no.code.program.labels + 2 <= u32::MAX
                    },
                    Expr::If(_, _, _) => {
                        let no = statement(env, Stmt::Expr(*other, semi), tail, yes.scope);
                        &&& all.scope == no.scope
                        &&& clean(all.code) <==> clean(test.code) && clean(yes.code) && clean(
                            no.code,
                        ) && labels + no.code.program.labels + 2 <= u32::MAX
                    },
                    _ => !clean(all.code),
                },
            }
        }),
{
    let e = Expr::If(cond, body, otherwise);
    let test = expression(env, *cond, scope);
    let yes = block(env, body@, Tail::Void, test.scope);
    lemma_if_is_statement(env, e, semi, tail, scope);
    if let Some(other) = otherwise {
        if *other is If {
            lemma_if_is_statement(env, *other, semi, tail, yes.scope);
        }
    }
}

/// An `if` as a statement.
proof fn lemma_if_is_statement(env: Env, e: Expr, semi: bool, tail: Tail, scope: Scope)
    requires
        e is If,
    ensures
        statement(env, Stmt::Expr(e, semi), tail, scope) == conditional(env, e, scope),
{
    let last = if semi {
        Tail::Void
    } else {
        tail
    };
    assert(expression_statement(env, e, last, scope) == conditional(env, e, scope));
}

/// A `while` compiles if its condition and its block do.
pub proof fn law_while_accepted(
    env: Env,
    cond: Box<Expr>,
    body: Vec<Stmt>,
    semi: bool,
    tail: Tail,
    scope: Scope,
)
    ensures
        ({
            let e = Expr::While(cond, body);
            let all = statement(env, Stmt::Expr(e, semi), tail, scope);
            let test = expression(env, *cond, scope);
            let inner = block(env, body@, Tail::Void, test.scope);
            &&& all.scope == inner.scope
            &&& clean(all.code) <==> clean(test.code) && clean(inner.code)
                && test.code.program.labels + inner.code.program.labels + 2 <= u32::MAX
        }),
{
    let e = Expr::While(cond, body);
    let last = if semi {
        Tail::Void
    } else {
        tail
    };
    assert(expression_statement(env, e, last, scope) == repetition(env, e, scope));
}

/// A block compiles if its statements do.
pub proof fn law_statements_accepted(
    env: Env,
    stmts: Seq<Stmt>,
    k: nat,
    tail: Tail,
    scope: Scope,
)
    requires
        k < stmts.len(),
    ensures
        clean(statements(env, stmts, 0, tail, scope).code),
        ({
            let before = statements(env, stmts, k, tail, scope);
            let last = statement(
                env,
                stmts[k as int],
                if k + 1 == stmts.len() {
                    tail
                } else {
                    Tail::Void
                },
                before.scope,
            );
            clean(statements(env, stmts, k + 1, tail, scope).code) <==> clean(before.code) && clean(
                last.code,
            ) && joinable(before.code, last.code)
        }),
        block(env, stmts, tail, scope) == statements(env, stmts, stmts.len(), tail, scope),
{
}

/// An expression that stands last in a block with a result compiles as the result. One that stands
/// anywhere else is refused, unless it does something.
pub proof fn law_result_accepted(env: Env, e: Expr, semi: bool, scope: Scope)
    requires
        e is Int || e is Bool || e is Str || e is Field || e is Binary || e is Paren || e is Ident,
    ensures
        ({
            let value = expression(env, e, scope).code;
            let stmt = Stmt::Expr(e, false);
            &&& clean(statement(env, stmt, Tail::Return, scope).code) <==> clean(value)
            &&& clean(statement(env, stmt, Tail::Leave, scope).code) <==> clean(value)
            &&& statement(env, stmt, Tail::Void, scope).code.errors == only(
                ErrorKind::ValueAsStatement,
            )
            &&& statement(env, Stmt::Expr(e, true), Tail::Return, scope).code.errors == only(
                ErrorKind::ValueAsStatement,
            )
        }),
{
    assert(expression_statement(env, e, Tail::Return, scope) == value_statement(
        env,
        e,
        Tail::Return,
        scope,
    ));
    assert(expression_statement(env, e, Tail::Leave, scope) == value_statement(
        env,
        e,
        Tail::Leave,
        scope,
    ));
    assert(expression_statement(env, e, Tail::Void, scope) == value_statement(
        env,
        e,
        Tail::Void,
        scope,
    ));
}

/// A call that stands last in a block with a result compiles as the result.
pub proof fn law_result_of_call_accepted(env: Env, e: Expr, scope: Scope)
    requires
        is_value_call(env.contract, e),
    ensures
        ({
            let value = expression(env, e, scope);
            let stmt = Stmt::Expr(e, false);
            &&& clean(statement(env, stmt, Tail::Return, scope).code) <==> clean(value.code)
            &&& statement(env, stmt, Tail::Return, scope).scope == value.scope
            &&& statement(env, stmt, Tail::Leave, scope) == value
        }),
{
    assert(expression_statement(env, e, Tail::Return, scope) == value_statement(
        env,
        e,
        Tail::Return,
        scope,
    ));
    assert(expression_statement(env, e, Tail::Leave, scope) == value_statement(
        env,
        e,
        Tail::Leave,
        scope,
    ));
}

/// A call as a statement compiles if it does something: it is one of another contract or of an
/// internal function, and any value is dropped.
pub proof fn law_call_statement_accepted(env: Env, e: Expr, semi: bool, scope: Scope)
    requires
        is_value_call(env.contract, e),
    ensures
        ({
            let all = statement(env, Stmt::Expr(e, semi), Tail::Void, scope);
            match e {
                Expr::MethodCall(receiver, method, _) => if interface_of(
                    env.contract,
                    *receiver,
                ) is Some {
                    all == interface_call(env, e, false, scope)
                } else if (*receiver matches Expr::Ident(n) && n@ == "self"@) && lookup(
                    env.contract.internal_functions,
                    method@,
                ) is Some {
                    all == internal_call(env, e, false, scope)
                } else {
                    all.code.errors == only(ErrorKind::ValueAsStatement)
                },
                _ => all.code.errors == only(ErrorKind::ValueAsStatement),
            }
        }),
{
    if let Expr::MethodCall(receiver, method, _) = e {
        if interface_of(env.contract, *receiver) is Some {
            assert(expression_statement(env, e, Tail::Void, scope) == interface_call(
                env,
                e,
                false,
                scope,
            ));
        } else if (*receiver matches Expr::Ident(n) && n@ == "self"@) && lookup(
            env.contract.internal_functions,
            method@,
        ) is Some {
            assert(expression_statement(env, e, Tail::Void, scope) == internal_call(
                env,
                e,
                false,
                scope,
            ));
        } else {
            assert(expression_statement(env, e, Tail::Void, scope) == value_statement(
                env,
                e,
                Tail::Void,
                scope,
            ));
        }
    }
}

/// Statements and expressions of other forms are refused.
pub proof fn law_other_forms_refused(env: Env, e: Expr, tail: Tail, scope: Scope)
    ensures
        statement(env, Stmt::Other, tail, scope).code.errors == only(
            ErrorKind::UnsupportedStatement,
        ),
        (e is Path || e is Block || e is Struct || e is Tuple || e is If || e is While
            || e is Assign || e is Other) ==> expression(env, e, scope).code.errors == only(
            ErrorKind::UnsupportedExpression,
        ),
{
}

/// A tuple compiles as the result of a function if its components do.
pub proof fn law_tuple_accepted(env: Env, elems: Vec<Expr>, scope: Scope)
    ensures
        elems@.len() <= 0x7FF_FFFF ==> (clean(
            statement(env, Stmt::Expr(Expr::Tuple(elems), false), Tail::Return, scope).code,
        ) <==> clean(values(env, elems@, elems@.len(), scope).code)),
{
    let e = Expr::Tuple(elems);
    assert(expression_statement(env, e, Tail::Return, scope) == value_statement(
        env,
        e,
        Tail::Return,
        scope,
    ));
}

/// A list of expressions compiles if they all do.
pub proof fn law_values_accepted(env: Env, elems: Seq<Expr>, k: nat, scope: Scope)
    requires
        k < elems.len(),
    ensures
        clean(values(env, elems, 0, scope).code),
        ({
            let before = values(env, elems, k, scope);
            let last = expression(env, elems[k as int], before.scope);
            &&& values(env, elems, k + 1, scope).scope == last.scope
            &&& clean(values(env, elems, k + 1, scope).code) <==> clean(before.code) && clean(
                last.code,
            ) && joinable(before.code, last.code)
        }),
{
}

/// The arguments of an internal call compile if they all do and there is memory for each.
pub proof fn law_bindings_accepted(
    env: Env,
    params: Seq<Parameter>,
    args: Seq<Expr>,
    k: nat,
    scope: Scope,
)
    requires
        k < args.len(),
    ensures
        clean(bindings(env, params, args, 0, scope).code),
        ({
            let before = bindings(env, params, args, k, scope);
            let value = expression(env, args[k as int], before.scope);
            clean(bindings(env, params, args, k + 1, scope).code) <==> clean(before.code) && clean(
                value.code,
            ) && joinable(before.code, value.code) && value.scope.next_local + 0x20 <= u32::MAX
        }),
{
}

/// A call of an internal function compiles if the function is not being inlined already, there is
/// an argument for every parameter, and arguments and body compile.
pub proof fn law_internal_call_accepted(
    env: Env,
    receiver: Box<Expr>,
    method: String,
    args: Vec<Expr>,
    want_value: bool,
    callee: Internal,
    scope: Scope,
)
    requires
        lookup(env.contract.internal_functions, method@) == Some(callee),
    ensures
        ({
            let e = Expr::MethodCall(receiver, method, args);
            let all = internal_call(env, e, want_value, scope);
            let code = all.code;
            let n = args@.len();
            let bound = bindings(env, callee.params, args@, n, scope);
            let body = block(
                env.within(method@),
                callee.block,
                if callee.output is Some {
                    Tail::Leave
                } else {
                    Tail::Void
                },
                Scope {
                    locals: bound.locals,
                    params: Seq::empty(),
                    next_local: bound.scope.next_local,
                },
            );
            if env.stack.contains(method@) {
                code.errors == only(ErrorKind::RecursiveCall)
            } else if n != callee.params.len() {
                code.errors == only(ErrorKind::WrongArgumentCount)
            } else {
                &&& all.scope == (Scope { next_local: body.scope.next_local, ..bound.scope })
                &&& clean(code) <==> clean(bound.code) && clean(body.code) && joinable(
                    bound.code,
                    body.code,
                )
            }
        }),
{
}

/// `Interface::at(..)` stands for the functions of a declared interface, and nothing else does.
pub proof fn law_interface_named(contract: Contract, func: Expr, targets: Vec<Expr>, e: Expr)
    ensures
        interface_of(contract, Expr::Call(Box::new(func), targets)) == match func {
            Expr::Path(segments) => if segments@.len() == 2 && segments@[1]@ == "at"@ {
                lookup(contract.interfaces, segments@[0]@)
            } else {
                None
            },
            _ => None,
        },
        e !is Call ==> interface_of(contract, e) is None,
{
}

/// Up to four words of an event are laid out in the scratch space, and more of them behind the
/// variables.
pub proof fn law_event_place(scope: Scope, n: nat)
    ensures
        n <= 4 ==> data_place(scope, n) == 0,
        n > 4 ==> data_place(scope, n) == scope.next_local,
{
}

/// A call of a function of another contract compiles if the interface has the function, there is
/// one address and an argument for every parameter, all of them words, and these compile; and if
/// the function has a result where one is wanted.
pub proof fn law_interface_call_accepted(
    env: Env,
    func: Box<Expr>,
    targets: Vec<Expr>,
    method: String,
    args: Vec<Expr>,
    want_value: bool,
    methods: Seq<(Seq<char>, ForeignMethod)>,
    scope: Scope,
)
    requires
        interface_of(env.contract, Expr::Call(func, targets)) == Some(methods),
    ensures
        ({
            let e = Expr::MethodCall(Box::new(Expr::Call(func, targets)), method, args);
            let code = interface_call(env, e, want_value, scope).code;
            let n = args@.len();
            match lookup(methods, method@) {
                None => code.errors == seq![
                    Fault { kind: ErrorKind::UnknownInterfaceMethod, subject: method@ },
                ],
                Some(callee) => {
                    let words = forall|i: int|
                        0 <= i < callee.params.len() ==> !is_string(
                            (#[trigger] callee.params[i]).ty,
                        );
                    let result = match callee.output {
                        None => true,
                        Some(ty) => ty is Path && !is_string(ty),
                    };
                    if targets@.len() != 1 || n != callee.params.len() {
                        code.errors == only(ErrorKind::WrongArgumentCount)
                    } else if !words || !result {
                        code.errors == only(ErrorKind::InterfaceWords)
                    } else if want_value && callee.output is None {
                        code.errors == only(ErrorKind::InterfaceVoid)
                    } else {
                        let target = expression(env, targets@[0], scope);
                        let base = target.scope.next_local;
                        let bound = foreign_arguments(
                            env,
                            args@,
                            n,
                            base,
                            target.scope.reserved_for_call(n),
                        );
                        clean(code) <==> base + 0x20 * (1 + n) <= u32::MAX && clean(target.code)
                            && clean(bound.code) && target.code.program.labels
                            + bound.code.program.labels < u32::MAX
                    }
                },
            }
        }),
{
    if let Some(callee) = lookup(methods, method@) {
        assert(all_words(callee.params) <==> forall|i: int|
            0 <= i < callee.params.len() ==> !is_string((#[trigger] callee.params[i]).ty));
    }
}

/// The arguments of a call of another contract compile if they all do.
pub proof fn law_foreign_arguments_accepted(
    env: Env,
    args: Seq<Expr>,
    k: nat,
    base: u32,
    scope: Scope,
)
    requires
        k < args.len(),
    ensures
        clean(foreign_arguments(env, args, 0, base, scope).code),
        ({
            let before = foreign_arguments(env, args, k, base, scope);
            let last = expression(env, args[k as int], before.scope);
            &&& foreign_arguments(env, args, k + 1, base, scope).scope == last.scope
            &&& clean(foreign_arguments(env, args, k + 1, base, scope).code) <==> clean(before.code)
                && clean(last.code) && joinable(before.code, last.code)
        }),
{
}

/// The parameters of a function compile as long as their heads and the words for the strings have
/// offsets of 32 bits.
pub proof fn law_function_params_accepted(params: Seq<Parameter>, k: nat, scope: Scope)
    requires
        k < params.len(),
    ensures
        clean(function_params(params, 0, scope).code),
        ({
            let before = function_params(params, k, scope);
            let now = function_params(params, k + 1, scope);
            &&& is_string(params[k as int].ty) ==> (clean(now.code) <==> clean(before.code) && 4
                + 32 * k <= u32::MAX && before.scope.next_local + 0x20 <= u32::MAX
                && before.code.program.labels < u32::MAX)
            &&& !is_string(params[k as int].ty) ==> (clean(now.code) <==> clean(before.code) && 4
                + 32 * k <= u32::MAX)
        }),
{
}

/// The parameters of a constructor compile as long as the words for them have offsets of 32 bits.
pub proof fn law_constructor_params_accepted(params: Seq<Parameter>, k: nat, scope: Scope)
    requires
        k < params.len(),
    ensures
        clean(constructor_params(params, 0, scope).code),
        ({
            let before = constructor_params(params, k, scope);
            let now = constructor_params(params, k + 1, scope);
            clean(now.code) <==> clean(before.code) && before.scope.next_local + 0x20 <= u32::MAX
                && (is_string(params[k as int].ty) ==> before.code.program.labels < u32::MAX)
        }),
{
}

/// An external function compiles if its parameters and its block do, and a constructor too. A tuple
/// that is returned holds words only.
pub proof fn law_function_accepted(
    contract: Contract,
    params: Seq<Parameter>,
    output: Option<Type>,
    stmts: Seq<Stmt>,
)
    ensures
        ({
            let code = function_code(contract, params, output, stmts);
            let start = function_params(params, params.len(), Scope::initial());
            let env = Env {
                contract,
                stack: Seq::empty(),
                ret_string: output matches Some(ty) && is_string(ty),
            };
            let body = block(
                env,
                stmts,
                if output is Some {
                    Tail::Return
                } else {
                    Tail::Void
                },
                start.scope,
            ).code;
            let words = output matches Some(Type::Tuple(types)) ==> forall|i: int|
                0 <= i < types@.len() ==> !is_string(#[trigger] types@[i]);
            if words {
                clean(code) <==> clean(start.code) && clean(body) && joinable(start.code, body)
            } else {
                code.errors == only(ErrorKind::TupleWords)
            }
        }),
        params.len() <= 0x3FF_FFFF ==> ({
            let code = constructor_code(contract, params, stmts);
            let start = constructor_params(params, params.len(), Scope::initial());
            let env = Env { contract, stack: Seq::empty(), ret_string: false };
            let body = block(env, stmts, Tail::Void, start.scope).code;
            clean(code) <==> clean(start.code) && clean(body) && joinable(start.code, body)
        }),
        params.len() > 0x3FF_FFFF ==> constructor_code(contract, params, stmts).errors == only(
            ErrorKind::TooManyLocals,
        ),
{
    if let Some(Type::Tuple(types)) = output {
        assert(word_types(types@) <==> forall|i: int|
            0 <= i < types@.len() ==> !is_string(#[trigger] types@[i]));
    }
}

/// A place in storage is a field of `self`, or a `get` with one key on top of a place.
pub proof fn law_place_refused(env: Env, e: Expr, scope: Scope)
    ensures
        ({
            let found = place(env, e, scope).place;
            match e {
                Expr::Field(base, Member::Unnamed) => if *base matches Expr::Ident(n) && n@
                    == "self"@ {
                    found matches Err(fault) && fault.kind == ErrorKind::TupleField
                } else {
                    found matches Err(fault) && fault.kind == ErrorKind::StorageAccess
                },
                Expr::Field(_, Member::Named(_)) => true,
                Expr::MethodCall(receiver, method, args) => {
                    &&& method@ != "get"@ ==> (found matches Err(fault) && fault.kind
                        == ErrorKind::StorageAccess)
                    &&& method@ == "get"@ && args@.len() != 1 ==> (found matches Err(fault)
                        && fault.kind == ErrorKind::GetArguments)
                    &&& method@ == "get"@ && args@.len() == 1 ==> (place(
                        env,
                        *receiver,
                        scope,
                    ).place matches Err(fault) ==> found == Err::<(Fragment, Type), Fault>(fault))
                },
                _ => found matches Err(fault) && fault.kind == ErrorKind::StorageAccess,
            }
        }),
{
}

/// The array that `set`, `push` and `len` work on is a field of `self` that has a name.
pub proof fn law_array_refused(contract: Contract, e: Expr)
    ensures
        match e {
            Expr::Field(base, member) => if *base matches Expr::Ident(n) && n@ == "self"@ {
                member is Unnamed ==> (field_of(contract, e) matches Err(fault) && fault.kind
                    == ErrorKind::TupleField)
            } else {
                field_of(contract, e) matches Err(fault) && fault.kind == ErrorKind::NotSelfField
            },
            _ => field_of(contract, e) matches Err(fault) && fault.kind == ErrorKind::NotSelfField,
        },
{
}

/// There are no methods with a value but those of interfaces, internal functions, `get` and `len`.
pub proof fn law_method_refused(
    env: Env,
    receiver: Box<Expr>,
    method: String,
    args: Vec<Expr>,
    scope: Scope,
)
    requires
        interface_of(env.contract, *receiver) is None,
        !(*receiver matches Expr::Ident(n) && n@ == "self"@) || lookup(
            env.contract.internal_functions,
            method@,
        ) is None,
        method@ != "get"@,
        method@ != "len"@,
    ensures
        expression(env, Expr::MethodCall(receiver, method, args), scope).code.errors == only(
            ErrorKind::UnsupportedExpression,
        ),
{
}

/// `emit` takes a struct literal.
pub proof fn law_emit_refused(
    env: Env,
    func: String,
    args: Vec<Expr>,
    semi: bool,
    tail: Tail,
    scope: Scope,
)
    requires
        func@ == "emit"@,
    ensures
        ({
            let e = Expr::Call(Box::new(Expr::Ident(func)), args);
            let code = statement(env, Stmt::Expr(e, semi), tail, scope).code;
            &&& args@.len() == 0 ==> code.errors == only(ErrorKind::MissingArgument)
            &&& args@.len() > 0 && args@[0] !is Struct ==> code.errors == only(
                ErrorKind::EmitArgument,
            )
        }),
{
    reveal_strlit("emit");
    reveal_strlit("require");
    assert("emit"@.len() != "require"@.len());
    let e = Expr::Call(Box::new(Expr::Ident(func)), args);
    let last = if semi {
        Tail::Void
    } else {
        tail
    };
    assert(expression_statement(env, e, last, scope) == emission(env, e, scope));
}

/// Local variables start above the scratch space, and take a word each.
pub proof fn law_memory(scope: Scope, n: nat)
    ensures
        Scope::initial().next_local == 0x80,
        Scope::initial().locals.len() == 0,
        Scope::initial().params.len() == 0,
        scope.has_room() <==> scope.next_local + 0x20 <= u32::MAX,
        scope.has_room() ==> scope.reserved() == (Scope {
            next_local: (scope.next_local + 0x20) as u32,
            ..scope
        }),
        scope.has_room_for_words(n) <==> scope.next_local + 32 * n <= u32::MAX,
        scope.has_room_for_call(n) <==> scope.next_local + 32 * n + 32 <= u32::MAX,
        scope.has_room_for_call(n) ==> scope.reserved_for_call(n) == (Scope {
            next_local: (scope.next_local + 32 * n + 32) as u32,
            ..scope
        }),
{
}

} // verus!
