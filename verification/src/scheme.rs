//! The compilation scheme: the code that each construct of a function body stands for.
//!
//! Every specification here takes what is known of the contract (an [`Env`]) and the variables in
//! scope (a [`Scope`]), and gives the code together with the scope that follows it.

use vstd::prelude::*;
use vstd::utf8::encode_utf8;

use crate::abi::{signature, Parameter};
use crate::assembler::{Instr, Op};
use crate::ast::{BinOp, Expr, FieldValue, Member, Pat, Stmt, Type};
use crate::builder::{
    array_elem_slot_code, array_elem_slot_from_stack_code, decode_short_string_constructor_arg_code,
    decode_short_string_param_code, mapping_slot_from_stack_code, push_number,
    return_short_string_code, return_word_code, revert_empty_code,
};
use crate::bytes::{be_value, zeros};
use crate::code::Fragment;
use crate::errors::{plain_fault, ErrorKind, Fault};
use crate::keccak::keccak256_digest;
use crate::model::{
    depth, lemma_depth, Contract, Env, EventParameter, FieldKind, ForeignMethod, Scope,
    StorageField,
};
use crate::names::lookup;
use crate::text::decimal_digits;

verus! {

/// What becomes of the value of the last expression of a block.
#[derive(Debug, Clone, Copy, PartialEq, Eq, Structural)]
pub enum Tail {
    /// It is what the contract returns.
    Return,
    /// It is left on the stack.
    Leave,
    /// There is none.
    Void,
}

/// Code, and the scope that follows it.
#[verifier::ext_equal]
pub struct Lowered {
    pub code: Fragment,
    pub scope: Scope,
}

impl Lowered {
    /// A fault in place of code.
    pub open spec fn fault(kind: ErrorKind, scope: Scope) -> Lowered {
        Lowered { code: Fragment::fault(plain_fault(kind)), scope }
    }

    /// Code without labels.
    pub open spec fn of(instrs: Seq<Instr>, scope: Scope) -> Lowered {
        Lowered { code: Fragment::of(instrs, 0), scope }
    }

    /// Code that is followed by further instructions.
    pub open spec fn with_code(self, instrs: Seq<Instr>) -> Lowered {
        Lowered { code: self.code.with_code(instrs), scope: self.scope }
    }
}

/// Whether an expression is the given plain name.
pub open spec fn path_is(e: Expr, name: Seq<char>) -> bool {
    e matches Expr::Ident(n) && n@ == name
}

/// Whether an expression is `self`.
pub open spec fn self_path(e: Expr) -> bool {
    path_is(e, "self"@)
}

/// Whether a type is a short string.
pub open spec fn short_string_type(ty: Type) -> bool {
    ty matches Type::Path(name, _) && name@ == "ShortString"@
}

/// Whether a result is a short string.
pub open spec fn string_result(output: Option<Type>) -> bool {
    output matches Some(ty) && short_string_type(ty)
}

/// The outer type of a storage value, and the type of what it holds.
pub enum TypeShape {
    Scalar,
    Mapping(Type),
    Array(Type),
}

/// The outer type of a storage value.
pub open spec fn type_shape(ty: Type) -> TypeShape {
    match ty {
        Type::Path(name, args) => if name@ == "Mapping"@ && args@.len() > 1 {
            TypeShape::Mapping(args@[1])
        } else if name@ == "Array"@ && args@.len() > 0 {
            TypeShape::Array(args@[0])
        } else {
            TypeShape::Scalar
        },
        _ => TypeShape::Scalar,
    }
}

/// The 32 bytes of a packed short string: its bytes, zeros, and twice its length.
pub open spec fn packed(text: Seq<u8>) -> Seq<u8> {
    (text + zeros((31 - text.len()) as nat)).push((2 * text.len()) as u8)
}

/// The slot of a storage field.
pub open spec fn slot_of(contract: Contract, member: Member) -> Result<u64, Fault> {
    match member {
        Member::Unnamed => Err(plain_fault(ErrorKind::TupleField)),
        Member::Named(name) => match lookup(contract.storage, name@) {
            None => Err(plain_fault(ErrorKind::UnknownField)),
            Some(field) => Ok(field.slot),
        },
    }
}

/// The storage field that an expression of the form `self.field` names.
pub open spec fn field_of(contract: Contract, e: Expr) -> Result<StorageField, Fault> {
    match e {
        Expr::Field(base, member) => if self_path(*base) {
            match member {
                Member::Unnamed => Err(plain_fault(ErrorKind::TupleField)),
                Member::Named(name) => match lookup(contract.storage, name@) {
                    None => Err(plain_fault(ErrorKind::UnknownField)),
                    Some(field) => Ok(field),
                },
            }
        } else {
            Err(plain_fault(ErrorKind::NotSelfField))
        },
        _ => Err(plain_fault(ErrorKind::NotSelfField)),
    }
}

/// The name that a pattern binds.
pub open spec fn pattern_name(pat: Pat) -> Result<Seq<char>, Fault>
    decreases pat,
{
    match pat {
        Pat::Ident(name) => Ok(name@),
        Pat::Typed(inner) => pattern_name(*inner),
        Pat::Other => Err(plain_fault(ErrorKind::LetPattern)),
    }
}

/// The push of an integer literal.
pub open spec fn literal_code(value: Option<u64>) -> Fragment {
    match value {
        Some(v) => Fragment::of(seq![push_number(v as nat)], 0),
        None => Fragment::fault(plain_fault(ErrorKind::LiteralTooLarge)),
    }
}

/// The push of a string literal.
pub open spec fn string_code(text: Seq<char>) -> Fragment {
    let bytes = encode_utf8(text);
    if bytes.len() <= 31 {
        Fragment::of(seq![push_number(be_value(packed(bytes)))], 0)
    } else {
        Fragment::fault(
            Fault { kind: ErrorKind::ShortStringTooLong, subject: decimal_digits(bytes.len()) },
        )
    }
}

/// Whether a path ends in the given name.
pub open spec fn path_ends_in(e: Expr, name: Seq<char>) -> bool {
    match e {
        Expr::Ident(n) => n@ == name,
        Expr::Path(segments) => segments@.len() > 0 && segments@.last()@ == name,
        _ => false,
    }
}

/// A call in an expression: a fact about the call itself, or the conversion of a literal.
pub open spec fn call_code(func: Expr, args: Seq<Expr>) -> Fragment {
    if path_is(func, "msg_sender"@) {
        Fragment::of(seq![Op::Caller@], 0)
    } else if path_is(func, "address_this"@) {
        Fragment::of(seq![Op::Address@], 0)
    } else if path_is(func, "block_timestamp"@) {
        Fragment::of(seq![Op::Timestamp@], 0)
    } else if path_ends_in(func, "from"@) && args.len() == 1 && args[0] is Int {
        literal_code(args[0]->Int_0)
    } else {
        Fragment::fault(plain_fault(ErrorKind::UnsupportedCall))
    }
}

/// The read of a variable: a local variable hides a parameter.
pub open spec fn identifier_code(name: Seq<char>, scope: Scope) -> Fragment {
    match lookup(scope.locals, name) {
        Some(offset) => Fragment::of(seq![push_number(offset as nat), Op::MLoad@], 0),
        None => match lookup(scope.params, name) {
            Some(offset) => Fragment::of(
                seq![push_number(offset as nat), Op::CallDataLoad@],
                0,
            ),
            None => Fragment::fault(
                Fault { kind: ErrorKind::UnknownIdentifier, subject: name },
            ),
        },
    }
}

/// An operator, applied to the code of its two operands. Comparisons use the mirrored opcode, as
/// the right operand is on top of the stack. Subtraction and division take the left operand from
/// the top, so the right one goes first.
pub open spec fn operator_code(op: BinOp, l: Fragment, r: Fragment) -> Fragment {
    let both = l.followed_by(r);
    let swapped = r.followed_by(l);
    match op {
        BinOp::Add => both.with_code(seq![Op::Add@]),
        BinOp::Mul => both.with_code(seq![Op::Mul@]),
        BinOp::Sub => swapped.with_code(seq![Op::Sub@]),
        BinOp::Div => swapped.with_code(seq![Op::Div@]),
        BinOp::Rem => swapped.with_code(seq![Op::Mod@]),
        BinOp::Shl => both.with_code(seq![Op::Shl@]),
        BinOp::Lt => both.with_code(seq![Op::Gt@]),
        BinOp::Gt => both.with_code(seq![Op::Lt@]),
        BinOp::Eq => both.with_code(seq![Op::Eq@]),
        BinOp::Ne => both.with_code(seq![Op::Eq@, Op::IsZero@]),
        BinOp::Le => both.with_code(seq![Op::Lt@, Op::IsZero@]),
        BinOp::Ge => both.with_code(seq![Op::Gt@, Op::IsZero@]),
        BinOp::Other => Fragment::fault(plain_fault(ErrorKind::UnsupportedOperator)),
    }
}

/// Goes on only if the value on the stack is not zero, and reverts otherwise.
pub open spec fn guard_code() -> Fragment {
    Fragment::of(
        seq![Instr::JumpI(0)] + revert_empty_code() + seq![Instr::JumpDest(0)],
        1,
    )
}

/// Stores `k` words from the stack at the memory offsets `first + 32 * (k - 1)` down to `first`.
pub open spec fn stores_code(first: nat, k: nat) -> Seq<Instr>
    decreases k,
{
    if k == 0 {
        Seq::empty()
    } else {
        seq![push_number((first + 32 * (k - 1)) as nat), Op::MStore@] + stores_code(
            first,
            (k - 1) as nat,
        )
    }
}

/// The largest number of words that memory holds below offset `2^32`.
pub open spec fn max_words() -> nat {
    0x7FF_FFFF
}

/// Where in memory the `k` words of an event are laid out: in the scratch space if they fit there,
/// and behind the variables otherwise.
pub open spec fn data_place(scope: Scope, k: nat) -> nat {
    if k <= 4 {
        0
    } else {
        scope.next_local as nat
    }
}

/// Logs `k` words from the stack under the topic of an event signature. The words are laid out in
/// memory from `first` on.
pub open spec fn log_code(sig: Seq<char>, first: nat, k: nat) -> Seq<Instr> {
    stores_code(first, k) + seq![
        Instr::Push(keccak256_digest(encode_utf8(sig))),
        push_number(32 * k),
        push_number(first),
        Instr::Log(1),
    ]
}

/// Returns `k` words from the stack.
pub open spec fn return_words_code(k: nat) -> Seq<Instr> {
    stores_code(0, k) + seq![push_number(32 * k), push_number(0), Op::Return@]
}

/// The position of the first of the first `k` fields of a struct literal with the given name.
pub open spec fn literal_field(literal: Seq<FieldValue>, name: Seq<char>, k: nat) -> Option<nat>
    decreases k,
{
    if k == 0 {
        None
    } else {
        match literal_field(literal, name, (k - 1) as nat) {
            Some(i) => Some(i),
            None => match literal[k - 1].member {
                Member::Named(n) => if n@ == name {
                    Some((k - 1) as nat)
                } else {
                    None
                },
                Member::Unnamed => None,
            },
        }
    }
}

/// The position is below the number of fields.
pub proof fn lemma_literal_field(literal: Seq<FieldValue>, name: Seq<char>, k: nat)
    ensures
        literal_field(literal, name, k) matches Some(i) ==> i < k,
    decreases k,
{
    if k > 0 {
        lemma_literal_field(literal, name, (k - 1) as nat);
    }
}

/// The functions of the interface, where an expression has the form `Interface::at(..)`.
pub open spec fn interface_of(contract: Contract, e: Expr) -> Option<
    Seq<(Seq<char>, ForeignMethod)>,
> {
    match e {
        Expr::Call(func, _) => match *func {
            Expr::Path(segments) => if segments@.len() == 2 && segments@[1]@ == "at"@ {
                lookup(contract.interfaces, segments@[0]@)
            } else {
                None
            },
            _ => None,
        },
        _ => None,
    }
}

/// Whether the parameters are single words.
pub open spec fn all_words(params: Seq<Parameter>) -> bool {
    forall|i: int|
        #![trigger params[i]]
        0 <= i < params.len() ==> !short_string_type(params[i].ty)
}

/// Whether a result is at most a single word.
pub open spec fn word_result(output: Option<Type>) -> bool {
    match output {
        None => true,
        Some(ty) => ty is Path && !short_string_type(ty),
    }
}

/// Stores the selector of a call as a word at memory `base`, so that its four bytes come right
/// before the arguments.
pub open spec fn selector_code(sig: Seq<char>, base: u32) -> Seq<Instr> {
    seq![
        Instr::Push(keccak256_digest(encode_utf8(sig)).take(4)),
        push_number(base as nat),
        Op::MStore@,
    ]
}

/// Calls the contract whose address is on the stack with the call data at memory `base + 28`, and
/// leaves on the stack, in place of the address, whether it succeeded.
pub open spec fn foreign_call_code(
    base: u32,
    nargs: nat,
    mutable: bool,
    want_value: bool,
) -> Seq<Instr> {
    seq![
        push_number(if want_value { 0x20 } else { 0 }),
        push_number(0),
        push_number(4 + 32 * nargs),
        push_number((base + 28) as nat),
    ] + (if mutable {
        seq![push_number(0), Instr::Dup(6), Op::Gas@, Op::Call@]
    } else {
        seq![Instr::Dup(5), Op::Gas@, Op::StaticCall@]
    }) + seq![Instr::Swap(1), Op::Pop@]
}

/// The first `k` statements of a block. The last statement of the block has the given tail.
pub open spec fn statements(
    env: Env,
    stmts: Seq<Stmt>,
    k: nat,
    tail: Tail,
    scope: Scope,
) -> Lowered
    decreases depth(env), stmts, k, 0nat,
{
    if k == 0 || k > stmts.len() {
        Lowered { code: Fragment::empty(), scope }
    } else {
        let before = statements(env, stmts, (k - 1) as nat, tail, scope);
        let stmt_tail = if k == stmts.len() {
            tail
        } else {
            Tail::Void
        };
        let last = statement(env, stmts[k - 1], stmt_tail, before.scope);
        Lowered { code: before.code.followed_by(last.code), scope: last.scope }
    }
}

/// A block.
pub open spec fn block(env: Env, stmts: Seq<Stmt>, tail: Tail, scope: Scope) -> Lowered
    decreases depth(env), stmts, stmts.len(), 1nat,
{
    statements(env, stmts, stmts.len(), tail, scope)
}

/// A statement.
pub open spec fn statement(env: Env, stmt: Stmt, tail: Tail, scope: Scope) -> Lowered
    decreases depth(env), stmt, 0nat, 1nat,
{
    match stmt {
        Stmt::Expr(e, semi) => expression_statement(
            env,
            e,
            if semi {
                Tail::Void
            } else {
                tail
            },
            scope,
        ),
        Stmt::Local(pat, init) => match pattern_name(pat) {
            Err(fault) => Lowered { code: Fragment::fault(fault), scope },
            Ok(name) => match init {
                None => Lowered::fault(ErrorKind::LocalWithoutValue, scope),
                Some(e) => {
                    let value = expression(env, e, scope);
                    if value.scope.has_room() {
                        let offset = value.scope.next_local;
                        Lowered {
                            code: value.code.with_code(
                                seq![push_number(offset as nat), Op::MStore@],
                            ),
                            scope: value.scope.reserved().with_local(name, offset),
                        }
                    } else {
                        Lowered {
                            code: value.code.followed_by(
                                Fragment::fault(plain_fault(ErrorKind::TooManyLocals)),
                            ),
                            scope: value.scope,
                        }
                    }
                },
            },
        },
        Stmt::Other => Lowered::fault(ErrorKind::UnsupportedStatement, scope),
    }
}

/// An expression that stands as a statement. One with a value is what the block results in.
pub open spec fn expression_statement(env: Env, e: Expr, tail: Tail, scope: Scope) -> Lowered
    decreases depth(env), e, 0nat, 9nat,
{
    match e {
        Expr::Assign(left, right) => assignment(env, e, scope),
        Expr::MethodCall(receiver, method, args) => {
            if interface_of(env.contract, *receiver) is Some {
                if tail == Tail::Void {
                    interface_call(env, e, false, scope)
                } else {
                    value_statement(env, e, tail, scope)
                }
            } else if method@ == "insert"@ {
                mapping_insert(env, e, scope)
            } else if method@ == "set"@ {
                array_set(env, e, scope)
            } else if method@ == "push"@ {
                array_push(env, e, scope)
            } else if tail == Tail::Void && self_path(*receiver) && lookup(
                env.contract.internal_functions,
                method@,
            ) is Some {
                internal_call(env, e, false, scope)
            } else {
                value_statement(env, e, tail, scope)
            }
        },
        Expr::Call(func, args) => if path_is(*func, "require"@) {
            requirement(env, e, scope)
        } else if path_is(*func, "emit"@) {
            emission(env, e, scope)
        } else {
            value_statement(env, e, tail, scope)
        },
        Expr::If(cond, body, otherwise) => conditional(env, e, scope),
        Expr::While(cond, body) => repetition(env, e, scope),
        _ => value_statement(env, e, tail, scope),
    }
}

/// The value that a block results in.
pub open spec fn value_statement(env: Env, e: Expr, tail: Tail, scope: Scope) -> Lowered
    decreases depth(env), e, 0nat, 8nat,
{
    match tail {
        Tail::Return => match e {
            Expr::Tuple(elems) => if elems@.len() <= max_words() {
                values(env, elems@, elems@.len(), scope).with_code(
                    return_words_code(elems@.len()),
                )
            } else {
                Lowered::fault(ErrorKind::TooManyLocals, scope)
            },
            _ => expression(env, e, scope).with_code(
                if env.ret_string {
                    return_short_string_code()
                } else {
                    return_word_code()
                },
            ),
        },
        Tail::Leave => expression(env, e, scope),
        Tail::Void => Lowered::fault(ErrorKind::ValueAsStatement, scope),
    }
}

/// The first `k` of a list of expressions, each left on the stack.
pub open spec fn values(env: Env, elems: Seq<Expr>, k: nat, scope: Scope) -> Lowered
    decreases depth(env), elems, k, 0nat,
{
    if k == 0 || k > elems.len() {
        Lowered { code: Fragment::empty(), scope }
    } else {
        let before = values(env, elems, (k - 1) as nat, scope);
        let last = expression(env, elems[k - 1], before.scope);
        Lowered { code: before.code.followed_by(last.code), scope: last.scope }
    }
}

/// What the arguments of an internal call are bound to.
#[verifier::ext_equal]
pub struct Bound {
    pub code: Fragment,
    pub scope: Scope,
    pub locals: Seq<(Seq<char>, u32)>,
}

/// Evaluates the first `k` arguments of an internal call, and stores each in a fresh local
/// variable that stands for its parameter.
pub open spec fn bindings(
    env: Env,
    params: Seq<Parameter>,
    args: Seq<Expr>,
    k: nat,
    scope: Scope,
) -> Bound
    decreases depth(env), args, k, 0nat,
{
    if k == 0 || k > args.len() {
        Bound { code: Fragment::empty(), scope, locals: Seq::empty() }
    } else {
        let before = bindings(env, params, args, (k - 1) as nat, scope);
        let value = expression(env, args[k - 1], before.scope);
        if value.scope.has_room() {
            let offset = value.scope.next_local;
            Bound {
                code: before.code.followed_by(
                    value.code.with_code(seq![push_number(offset as nat), Op::MStore@]),
                ),
                scope: value.scope.reserved(),
                locals: before.locals.push((params[k - 1].name, offset)),
            }
        } else {
            Bound {
                code: before.code.followed_by(value.code).followed_by(
                    Fragment::fault(plain_fault(ErrorKind::TooManyLocals)),
                ),
                scope: value.scope,
                locals: before.locals,
            }
        }
    }
}

/// A call `self.name(args)` of an internal function, which is inlined.
pub open spec fn internal_call(env: Env, e: Expr, want_value: bool, scope: Scope) -> Lowered
    decreases depth(env), e, 0nat, 4nat,
{
    match e {
        Expr::MethodCall(_, method, args) => match lookup(
            env.contract.internal_functions,
            method@,
        ) {
            None => Lowered::fault(ErrorKind::UnsupportedCall, scope),
            Some(callee) => if env.stack.contains(method@) {
                Lowered::fault(ErrorKind::RecursiveCall, scope)
            } else if args@.len() != callee.params.len() {
                Lowered::fault(ErrorKind::WrongArgumentCount, scope)
            } else {
                let bound = bindings(env, callee.params, args@, args@.len(), scope);
                let inner = Scope {
                    locals: bound.locals,
                    params: Seq::empty(),
                    next_local: bound.scope.next_local,
                };
                proof {
                    lemma_depth(env, method@);
                }
                let body = block(
                    env.within(method@),
                    callee.block,
                    if callee.output is Some {
                        Tail::Leave
                    } else {
                        Tail::Void
                    },
                    inner,
                );
                Lowered {
                    code: bound.code.followed_by(body.code).with_code(
                        if !want_value && callee.output is Some {
                            seq![Op::Pop@]
                        } else {
                            Seq::empty()
                        },
                    ),
                    scope: Scope {
                        locals: bound.scope.locals,
                        params: bound.scope.params,
                        next_local: body.scope.next_local,
                    },
                }
            },
        },
        _ => Lowered::fault(ErrorKind::UnsupportedCall, scope),
    }
}

/// `self.field = value` or `local = value`.
pub open spec fn assignment(env: Env, e: Expr, scope: Scope) -> Lowered
    decreases depth(env), e, 0nat, 8nat,
{
    match e {
        Expr::Assign(left, right) => match *left {
            Expr::Field(base, member) => if self_path(*base) {
                match slot_of(env.contract, member) {
                    Err(fault) => Lowered { code: Fragment::fault(fault), scope },
                    Ok(slot) => expression(env, *right, scope).with_code(
                        seq![push_number(slot as nat), Op::SStore@],
                    ),
                }
            } else {
                Lowered::fault(ErrorKind::AssignmentTarget, scope)
            },
            Expr::Ident(name) => match lookup(scope.locals, name@) {
                None => Lowered::fault(ErrorKind::AssignmentTarget, scope),
                Some(offset) => expression(env, *right, scope).with_code(
                    seq![push_number(offset as nat), Op::MStore@],
                ),
            },
            _ => Lowered::fault(ErrorKind::AssignmentTarget, scope),
        },
        _ => Lowered::fault(ErrorKind::AssignmentTarget, scope),
    }
}

/// `receiver.insert(key, value)`.
pub open spec fn mapping_insert(env: Env, e: Expr, scope: Scope) -> Lowered
    decreases depth(env), e, 0nat, 8nat,
{
    match e {
        Expr::MethodCall(receiver, _, args) => if args@.len() != 2 {
            Lowered::fault(ErrorKind::InsertArguments, scope)
        } else {
            let base = place(env, *receiver, scope);
            match base.place {
                Err(fault) => Lowered { code: Fragment::fault(fault), scope: base.scope },
                Ok((base_code, ty)) => if type_shape(ty) is Mapping {
                    let value = expression(env, args@[1], base.scope);
                    let key = expression(env, args@[0], value.scope);
                    Lowered {
                        code: value.code.followed_by(base_code).followed_by(key.code).with_code(
                            mapping_slot_from_stack_code().push(Op::SStore@),
                        ),
                        scope: key.scope,
                    }
                } else {
                    Lowered::fault(ErrorKind::InsertReceiver, base.scope)
                },
            }
        },
        _ => Lowered::fault(ErrorKind::UnsupportedStatement, scope),
    }
}

/// `self.array.set(index, value)`.
pub open spec fn array_set(env: Env, e: Expr, scope: Scope) -> Lowered
    decreases depth(env), e, 0nat, 8nat,
{
    match e {
        Expr::MethodCall(receiver, _, args) => match field_of(env.contract, *receiver) {
            Err(fault) => Lowered { code: Fragment::fault(fault), scope },
            Ok(field) => if field.kind != FieldKind::Array {
                Lowered::fault(ErrorKind::SetReceiver, scope)
            } else if args@.len() != 2 {
                Lowered::fault(ErrorKind::SetArguments, scope)
            } else {
                let value = expression(env, args@[1], scope);
                let index = expression(env, args@[0], value.scope);
                Lowered {
                    code: value.code.followed_by(index.code).with_code(
                        array_elem_slot_code(field.slot as nat).push(Op::SStore@),
                    ),
                    scope: index.scope,
                }
            },
        },
        _ => Lowered::fault(ErrorKind::UnsupportedStatement, scope),
    }
}

/// What `push` does with the value on the stack: it stores it behind the last element of the array
/// at slot `base`, and adds one to the length.
pub open spec fn array_push_code(base: nat) -> Seq<Instr> {
    seq![push_number(base), Op::SLoad@] + array_elem_slot_code(base) + seq![
        Op::SStore@,
        push_number(base),
        Op::SLoad@,
        push_number(1),
        Op::Add@,
        push_number(base),
        Op::SStore@,
    ]
}

/// `self.array.push(value)`.
pub open spec fn array_push(env: Env, e: Expr, scope: Scope) -> Lowered
    decreases depth(env), e, 0nat, 8nat,
{
    match e {
        Expr::MethodCall(receiver, _, args) => match field_of(env.contract, *receiver) {
            Err(fault) => Lowered { code: Fragment::fault(fault), scope },
            Ok(field) => if field.kind != FieldKind::Array {
                Lowered::fault(ErrorKind::PushReceiver, scope)
            } else if args@.len() != 1 {
                Lowered::fault(ErrorKind::PushArguments, scope)
            } else {
                expression(env, args@[0], scope).with_code(array_push_code(field.slot as nat))
            },
        },
        _ => Lowered::fault(ErrorKind::UnsupportedStatement, scope),
    }
}

/// `require(cond)`: reverts unless the condition holds.
pub open spec fn requirement(env: Env, e: Expr, scope: Scope) -> Lowered
    decreases depth(env), e, 0nat, 8nat,
{
    match e {
        Expr::Call(_, args) => if args@.len() == 0 {
            Lowered::fault(ErrorKind::MissingArgument, scope)
        } else {
            let cond = expression(env, args@[0], scope);
            Lowered { code: cond.code.followed_by(guard_code()), scope: cond.scope }
        },
        _ => Lowered::fault(ErrorKind::UnsupportedStatement, scope),
    }
}

/// The values of the first `k` fields of an event, in the order of their declaration.
pub open spec fn event_values(
    env: Env,
    literal: Seq<FieldValue>,
    fields: Seq<EventParameter>,
    k: nat,
    scope: Scope,
) -> Lowered
    decreases depth(env), literal, k, 0nat,
{
    if k == 0 {
        Lowered { code: Fragment::empty(), scope }
    } else {
        let before = event_values(env, literal, fields, (k - 1) as nat, scope);
        let name = fields[k - 1].name;
        match literal_field(literal, name, literal.len()) {
            None => Lowered {
                code: before.code.followed_by(
                    Fragment::fault(
                        Fault { kind: ErrorKind::MissingEventField, subject: name },
                    ),
                ),
                scope: before.scope,
            },
            Some(i) => {
                proof {
                    lemma_literal_field(literal, name, literal.len());
                }
                let last = expression(env, literal[i as int].value, before.scope);
                Lowered { code: before.code.followed_by(last.code), scope: last.scope }
            },
        }
    }
}

/// `emit(Event { field: value, .. })`: all fields go to the data of a `LOG1`.
pub open spec fn emission(env: Env, e: Expr, scope: Scope) -> Lowered
    decreases depth(env), e, 0nat, 8nat,
{
    match e {
        Expr::Call(_, args) => if args@.len() == 0 {
            Lowered::fault(ErrorKind::MissingArgument, scope)
        } else {
            match args@[0] {
                Expr::Struct(name, literal) => match lookup(env.contract.events, name@) {
                    None => Lowered::fault(ErrorKind::UnknownEvent, scope),
                    Some(event) => {
                        let k = event.fields.len();
                        let fields = event_values(env, literal@, event.fields, k, scope);
                        match signature(event.name, event.params()) {
                            Err(fault) => Lowered {
                                code: fields.code.followed_by(Fragment::fault(fault)),
                                scope: fields.scope,
                            },
                            Ok(sig) => if k > 4 && !fields.scope.has_room_for_words(k) {
                                Lowered {
                                    code: fields.code.followed_by(
                                        Fragment::fault(plain_fault(ErrorKind::TooManyLocals)),
                                    ),
                                    scope: fields.scope,
                                }
                            } else {
                                fields.with_code(log_code(sig, data_place(fields.scope, k), k))
                            },
                        }
                    },
                },
                _ => Lowered::fault(ErrorKind::EmitArgument, scope),
            }
        },
        _ => Lowered::fault(ErrorKind::UnsupportedStatement, scope),
    }
}

/// What comes after the condition of an `if`: label 0 is the place after the body. With an `else`,
/// label 1 is the end.
pub open spec fn branches_code(body: Fragment, otherwise: Option<Fragment>) -> Fragment {
    match otherwise {
        None => Fragment::of(seq![Op::IsZero@, Instr::JumpI(0)], 1).followed_by(body).with_code(
            seq![Instr::JumpDest(0)],
        ),
        Some(other) => Fragment::of(seq![Op::IsZero@, Instr::JumpI(0)], 2).followed_by(
            body,
        ).with_code(seq![Instr::Jump(1), Instr::JumpDest(0)]).followed_by(other).with_code(
            seq![Instr::JumpDest(1)],
        ),
    }
}

/// `if cond { .. }`, `if cond { .. } else { .. }` and chains of `else if`.
pub open spec fn conditional(env: Env, e: Expr, scope: Scope) -> Lowered
    decreases depth(env), e, 0nat, 8nat,
{
    match e {
        Expr::If(cond, body, otherwise) => {
            let test = expression(env, *cond, scope);
            let yes = block(env, body@, Tail::Void, test.scope);
            match otherwise {
                None => Lowered {
                    code: test.code.followed_by(branches_code(yes.code, None)),
                    scope: yes.scope,
                },
                Some(other) => {
                    let no = match *other {
                        Expr::Block(stmts) => block(env, stmts@, Tail::Void, yes.scope),
                        Expr::If(_, _, _) => conditional(env, *other, yes.scope),
                        _ => Lowered::fault(ErrorKind::UnsupportedStatement, yes.scope),
                    };
                    Lowered {
                        code: test.code.followed_by(branches_code(yes.code, Some(no.code))),
                        scope: no.scope,
                    }
                },
            }
        },
        _ => Lowered::fault(ErrorKind::UnsupportedStatement, scope),
    }
}

/// A loop: label 0 is its start, label 1 its end.
pub open spec fn loop_code(cond: Fragment, body: Fragment) -> Fragment {
    Fragment::of(seq![Instr::JumpDest(0)], 2).followed_by(cond).with_code(
        seq![Op::IsZero@, Instr::JumpI(1)],
    ).followed_by(body).with_code(seq![Instr::Jump(0), Instr::JumpDest(1)])
}

/// `while cond { .. }`.
pub open spec fn repetition(env: Env, e: Expr, scope: Scope) -> Lowered
    decreases depth(env), e, 0nat, 8nat,
{
    match e {
        Expr::While(cond, body) => {
            let test = expression(env, *cond, scope);
            let inner = block(env, body@, Tail::Void, test.scope);
            Lowered { code: loop_code(test.code, inner.code), scope: inner.scope }
        },
        _ => Lowered::fault(ErrorKind::UnsupportedStatement, scope),
    }
}

/// `self.array.len()`.
pub open spec fn length_code(contract: Contract, receiver: Expr) -> Fragment {
    match field_of(contract, receiver) {
        Err(fault) => Fragment::fault(fault),
        Ok(field) => if field.kind != FieldKind::Array {
            Fragment::fault(plain_fault(ErrorKind::LenReceiver))
        } else {
            Fragment::of(seq![push_number(field.slot as nat), Op::SLoad@], 0)
        },
    }
}

/// `receiver.get(key)`: reads the slot, which must hold a scalar.
pub open spec fn get_value(env: Env, e: Expr, scope: Scope) -> Lowered
    decreases depth(env), e, 0nat, 4nat,
{
    let target = place(env, e, scope);
    match target.place {
        Err(fault) => Lowered { code: Fragment::fault(fault), scope: target.scope },
        Ok((code, ty)) => if type_shape(ty) is Scalar {
            Lowered { code: code.with_code(seq![Op::SLoad@]), scope: target.scope }
        } else {
            Lowered::fault(ErrorKind::GetNotScalar, target.scope)
        },
    }
}

/// `left op right`.
pub open spec fn binary(env: Env, e: Expr, scope: Scope) -> Lowered
    decreases depth(env), e, 0nat, 4nat,
{
    match e {
        Expr::Binary(op, left, right) => {
            let l = expression(env, *left, scope);
            let r = expression(env, *right, l.scope);
            Lowered { code: operator_code(op, l.code, r.code), scope: r.scope }
        },
        _ => Lowered::fault(ErrorKind::UnsupportedExpression, scope),
    }
}

/// An expression, whose value is left on the stack.
pub open spec fn expression(env: Env, e: Expr, scope: Scope) -> Lowered
    decreases depth(env), e, 0nat, 5nat,
{
    match e {
        Expr::Int(value) => Lowered { code: literal_code(value), scope },
        Expr::Bool(b) => Lowered::of(
            seq![
                push_number(
                    if b {
                        1
                    } else {
                        0
                    },
                ),
            ],
            scope,
        ),
        Expr::Str(text) => Lowered { code: string_code(text@), scope },
        Expr::Field(base, member) => if self_path(*base) {
            match slot_of(env.contract, member) {
                Err(fault) => Lowered { code: Fragment::fault(fault), scope },
                Ok(slot) => Lowered::of(seq![push_number(slot as nat), Op::SLoad@], scope),
            }
        } else {
            Lowered::fault(ErrorKind::UnsupportedExpression, scope)
        },
        Expr::MethodCall(receiver, method, args) => if interface_of(
            env.contract,
            *receiver,
        ) is Some {
            interface_call(env, e, true, scope)
        } else if self_path(*receiver) && lookup(
            env.contract.internal_functions,
            method@,
        ) is Some {
            internal_call(env, e, true, scope)
        } else if method@ == "get"@ {
            get_value(env, e, scope)
        } else if method@ == "len"@ {
            Lowered { code: length_code(env.contract, *receiver), scope }
        } else {
            Lowered::fault(ErrorKind::UnsupportedExpression, scope)
        },
        Expr::Binary(op, left, right) => binary(env, e, scope),
        Expr::Paren(inner) => expression(env, *inner, scope),
        Expr::Call(func, args) => Lowered { code: call_code(*func, args@), scope },
        Expr::Ident(name) => Lowered { code: identifier_code(name@, scope), scope },
        _ => Lowered::fault(ErrorKind::UnsupportedExpression, scope),
    }
}

/// A place in storage: code that leaves its slot on the stack, and the type of what it holds.
#[verifier::ext_equal]
pub struct Placed {
    pub place: Result<(Fragment, Type), Fault>,
    pub scope: Scope,
}

/// `self.field`, and any chain of `.get(key)` on top of it.
pub open spec fn place(env: Env, e: Expr, scope: Scope) -> Placed
    decreases depth(env), e, 0nat, 3nat,
{
    match e {
        Expr::Field(base, member) => if self_path(*base) {
            match slot_of(env.contract, member) {
                Err(fault) => Placed { place: Err(fault), scope },
                Ok(slot) => match lookup(env.contract.field_types, member->Named_0@) {
                    None => Placed { place: Err(plain_fault(ErrorKind::UnknownField)), scope },
                    Some(ty) => Placed {
                        place: Ok((Fragment::of(seq![push_number(slot as nat)], 0), ty)),
                        scope,
                    },
                },
            }
        } else {
            Placed { place: Err(plain_fault(ErrorKind::StorageAccess)), scope }
        },
        Expr::MethodCall(receiver, method, args) => if method@ != "get"@ {
            Placed { place: Err(plain_fault(ErrorKind::StorageAccess)), scope }
        } else if args@.len() != 1 {
            Placed { place: Err(plain_fault(ErrorKind::GetArguments)), scope }
        } else {
            let base = place(env, *receiver, scope);
            match base.place {
                Err(fault) => base,
                Ok((base_code, ty)) => {
                    let key = expression(env, args@[0], base.scope);
                    let both = base_code.followed_by(key.code);
                    Placed {
                        place: match type_shape(ty) {
                            TypeShape::Mapping(value) => Ok(
                                (both.with_code(mapping_slot_from_stack_code()), value),
                            ),
                            TypeShape::Array(element) => Ok(
                                (both.with_code(array_elem_slot_from_stack_code()), element),
                            ),
                            TypeShape::Scalar => Err(plain_fault(ErrorKind::GetReceiver)),
                        },
                        scope: key.scope,
                    }
                },
            }
        },
        _ => Placed { place: Err(plain_fault(ErrorKind::StorageAccess)), scope },
    }
}

/// Evaluates the first `k` arguments of a call of another contract, and stores each behind the
/// selector at memory `base`.
pub open spec fn foreign_arguments(
    env: Env,
    args: Seq<Expr>,
    k: nat,
    base: u32,
    scope: Scope,
) -> Lowered
    decreases depth(env), args, k, 0nat,
{
    if k == 0 || k > args.len() {
        Lowered { code: Fragment::empty(), scope }
    } else {
        let before = foreign_arguments(env, args, (k - 1) as nat, base, scope);
        let last = expression(env, args[k - 1], before.scope);
        Lowered {
            code: before.code.followed_by(
                last.code.with_code(seq![push_number((base + 32 * k) as nat), Op::MStore@]),
            ),
            scope: last.scope,
        }
    }
}

/// `Interface::at(address).method(args)`: reverts if the call fails.
pub open spec fn interface_call(env: Env, e: Expr, want_value: bool, scope: Scope) -> Lowered
    decreases depth(env), e, 0nat, 4nat,
{
    match e {
        Expr::MethodCall(receiver, method, args) => match interface_of(env.contract, *receiver) {
            None => Lowered::fault(ErrorKind::UnsupportedCall, scope),
            Some(methods) => match *receiver {
                Expr::Call(_, targets) => match lookup(methods, method@) {
                    None => Lowered {
                        code: Fragment::fault(
                            Fault { kind: ErrorKind::UnknownInterfaceMethod, subject: method@ },
                        ),
                        scope,
                    },
                    Some(callee) => if targets@.len() != 1 || args@.len()
                        != callee.params.len() {
                        Lowered::fault(ErrorKind::WrongArgumentCount, scope)
                    } else if !all_words(callee.params) || !word_result(callee.output) {
                        Lowered::fault(ErrorKind::InterfaceWords, scope)
                    } else if want_value && callee.output is None {
                        Lowered::fault(ErrorKind::InterfaceVoid, scope)
                    } else {
                        let target = expression(env, targets@[0], scope);
                        if target.scope.has_room_for_call(args@.len()) {
                            let base = target.scope.next_local;
                            let bound = foreign_arguments(
                                env,
                                args@,
                                args@.len(),
                                base,
                                target.scope.reserved_for_call(args@.len()),
                            );
                            Lowered {
                                code: target.code.with_code(
                                    selector_code(callee.sig, base),
                                ).followed_by(bound.code).with_code(
                                    foreign_call_code(
                                        base,
                                        args@.len(),
                                        callee.mutable,
                                        want_value,
                                    ),
                                ).followed_by(guard_code()).with_code(
                                    if want_value {
                                        seq![push_number(0), Op::MLoad@]
                                    } else {
                                        Seq::empty()
                                    },
                                ),
                                scope: bound.scope,
                            }
                        } else {
                            Lowered::fault(ErrorKind::TooManyLocals, target.scope)
                        }
                    },
                },
                _ => Lowered::fault(ErrorKind::UnsupportedCall, scope),
            },
        },
        _ => Lowered::fault(ErrorKind::UnsupportedCall, scope),
    }
}

/// The environment in the body of a function that nobody called from within.
pub open spec fn outer_env(contract: Contract, ret_string: bool) -> Env {
    Env { contract, stack: Seq::empty(), ret_string }
}

/// The call data offset of the parameter at position `i`.
pub open spec fn head_offset(i: nat) -> nat {
    4 + 32 * i
}

/// Makes the first `k` parameters of a function known. A word is read from the call data where it
/// is used. A string is decoded at once, into a local variable.
pub open spec fn function_params(params: Seq<Parameter>, k: nat, scope: Scope) -> Lowered
    decreases k,
{
    if k == 0 {
        Lowered { code: Fragment::empty(), scope }
    } else {
        let before = function_params(params, (k - 1) as nat, scope);
        let param = params[k - 1];
        let head = head_offset((k - 1) as nat);
        if head > u32::MAX || (short_string_type(param.ty) && !before.scope.has_room()) {
            Lowered {
                code: before.code.followed_by(
                    Fragment::fault(plain_fault(ErrorKind::TooManyLocals)),
                ),
                scope: before.scope,
            }
        } else if short_string_type(param.ty) {
            let slot = before.scope.next_local;
            Lowered {
                code: before.code.followed_by(
                    Fragment::of(decode_short_string_param_code(head, slot as nat, 0), 1),
                ),
                scope: before.scope.reserved().with_local(param.name, slot),
            }
        } else {
            Lowered {
                code: before.code,
                scope: before.scope.with_param(param.name, head as u32),
            }
        }
    }
}

/// Whether the types are those of single words.
pub open spec fn word_types(types: Seq<Type>) -> bool {
    forall|i: int| #![trigger types[i]] 0 <= i < types.len() ==> !short_string_type(types[i])
}

/// Whether a result that is a tuple has words as its components.
pub open spec fn tuple_of_words(output: Option<Type>) -> bool {
    match output {
        Some(Type::Tuple(types)) => word_types(types@),
        _ => true,
    }
}

/// The body of an external function. One without a result must halt at its end.
pub open spec fn function_code(
    contract: Contract,
    params: Seq<Parameter>,
    output: Option<Type>,
    stmts: Seq<Stmt>,
) -> Fragment {
    if !tuple_of_words(output) {
        Fragment::fault(plain_fault(ErrorKind::TupleWords))
    } else {
        let env = outer_env(contract, string_result(output));
        let start = function_params(params, params.len(), Scope::initial());
        match output {
            Some(_) => start.code.followed_by(
                block(env, stmts, Tail::Return, start.scope).code,
            ),
            None => start.code.followed_by(
                block(env, stmts, Tail::Void, start.scope).code,
            ).with_code(seq![Op::Stop@]),
        }
    }
}

/// The number of strings among the first `k` parameters.
pub open spec fn string_count(params: Seq<Parameter>, k: nat) -> nat
    decreases k,
{
    if k == 0 {
        0
    } else {
        string_count(params, (k - 1) as nat) + if short_string_type(params[k - 1].ty) {
            1nat
        } else {
            0
        }
    }
}

/// The number of bytes of the arguments of a constructor: a head word for each, and the length
/// and the data of each string.
pub open spec fn arguments_len(params: Seq<Parameter>) -> nat {
    32 * params.len() + 64 * string_count(params, params.len())
}

/// Copies the word that lies `back` bytes before the end of the code to memory `slot`.
pub open spec fn copy_argument_code(back: nat, slot: nat) -> Seq<Instr> {
    seq![
        push_number(32),
        push_number(back),
        Op::CodeSize@,
        Op::Sub@,
        push_number(slot),
        Op::CodeCopy@,
    ]
}

/// Copies the first `k` arguments of a constructor, which follow its code, into local variables.
pub open spec fn constructor_params(params: Seq<Parameter>, k: nat, scope: Scope) -> Lowered
    decreases k,
{
    if k == 0 {
        Lowered { code: Fragment::empty(), scope }
    } else {
        let before = constructor_params(params, (k - 1) as nat, scope);
        let param = params[k - 1];
        if !before.scope.has_room() {
            Lowered {
                code: before.code.followed_by(
                    Fragment::fault(plain_fault(ErrorKind::TooManyLocals)),
                ),
                scope: before.scope,
            }
        } else {
            let slot = before.scope.next_local;
            let strings_left = string_count(params, params.len()) - string_count(
                params,
                (k - 1) as nat,
            );
            Lowered {
                code: if short_string_type(param.ty) {
                    before.code.followed_by(
                        Fragment::of(
                            decode_short_string_constructor_arg_code(
                                (64 * strings_left) as nat,
                                (64 * strings_left - 32) as nat,
                                slot as nat,
                                0,
                            ),
                            1,
                        ),
                    )
                } else {
                    before.code.with_code(
                        copy_argument_code(
                            (arguments_len(params) - 32 * (k - 1)) as nat,
                            slot as nat,
                        ),
                    )
                },
                scope: before.scope.reserved().with_local(param.name, slot),
            }
        }
    }
}

/// The largest number of parameters of a constructor.
pub open spec fn max_constructor_params() -> nat {
    0x3FF_FFFF
}

/// The body of a constructor. It does not halt: the code that deploys the contract follows it.
pub open spec fn constructor_code(
    contract: Contract,
    params: Seq<Parameter>,
    stmts: Seq<Stmt>,
) -> Fragment {
    if params.len() > max_constructor_params() {
        Fragment::fault(plain_fault(ErrorKind::TooManyLocals))
    } else {
        let start = constructor_params(params, params.len(), Scope::initial());
        start.code.followed_by(
            block(outer_env(contract, false), stmts, Tail::Void, start.scope).code,
        )
    }
}

} // verus!
