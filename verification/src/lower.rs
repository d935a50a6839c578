//! The compiler of function bodies.

use vstd::prelude::*;
use vstd::utf8::encode_utf8;

use crate::abi::{parameters, signature_string, Param, Parameter};
use crate::assembler::{Instr, Op};
use crate::ast::{BinOp, Expr, FieldValue, Member, Pat, Stmt, Type};
use crate::builder::{
    array_elem_slot_code, decode_short_string_constructor_arg_code, decode_short_string_param_code,
    mapping_slot_from_stack_code, push_number,
};
use crate::code::{Code, Fragment};
use crate::contract::Builder;
use crate::errors::{CompileError, ErrorKind, Fault};
use crate::model::{
    depth, lemma_depth, Ctx, EventField, FieldKind, InterfaceDef, Lower, StorageField,
};
use crate::names::NameMap;
use crate::scheme::{
    all_words, arguments_len, array_push, array_push_code, array_set, assignment, binary, bindings,
    block, branches_code, call_code, conditional, constructor_code, constructor_params,
    copy_argument_code, emission, event_values, expression, expression_statement, field_of,
    foreign_arguments, foreign_call_code, function_code, function_params, get_value, guard_code,
    identifier_code, interface_call, interface_of, internal_call, length_code, literal_code,
    literal_field, log_code, loop_code, mapping_insert, max_constructor_params, max_words,
    operator_code, packed, path_ends_in, path_is, pattern_name, place, repetition, requirement,
    return_words_code, selector_code, self_path, short_string_type, slot_of, statement, statements,
    stores_code, string_code, string_count, string_result, tuple_of_words, type_shape,
    value_statement, values, word_result, word_types, Bound, Lowered, Placed, Tail, TypeShape,
};
use crate::text::{contains_text, decimal, is_text, texts};
use crate::word::Word;

verus! {

/// Whether an expression is the given plain name.
pub fn is_path(e: &Expr, name: &str) -> (r: bool)
    ensures
        r == path_is(*e, name@),
{
    match e {
        Expr::Ident(n) => is_text(n, name),
        _ => false,
    }
}

/// Whether an expression is `self`.
pub fn is_self(e: &Expr) -> (r: bool)
    ensures
        r == self_path(*e),
{
    is_path(e, "self")
}

/// Whether a type is a short string.
pub fn is_short_string_ty(ty: &Type) -> (r: bool)
    ensures
        r == short_string_type(*ty),
{
    match ty {
        Type::Path(name, _) => is_text(name, "ShortString"),
        _ => false,
    }
}

/// Whether a result is a short string.
pub fn returns_string(output: &Option<Type>) -> (r: bool)
    ensures
        r == string_result(*output),
{
    match output {
        Some(ty) => is_short_string_ty(ty),
        None => false,
    }
}

/// Whether a function has a result.
pub fn has_result(output: &Option<Type>) -> (r: bool)
    ensures
        r == output is Some,
{
    output.is_some()
}

/// The outer type of a storage value, and the type of what it holds.
#[derive(Debug, Clone, Copy)]
pub enum TyKind<'a> {
    Scalar,
    Mapping(&'a Type),
    Array(&'a Type),
}

impl<'a> View for TyKind<'a> {
    type V = TypeShape;

    open spec fn view(&self) -> TypeShape {
        match *self {
            TyKind::Scalar => TypeShape::Scalar,
            TyKind::Mapping(ty) => TypeShape::Mapping(*ty),
            TyKind::Array(ty) => TypeShape::Array(*ty),
        }
    }
}

/// The type argument at position `n`.
pub fn nth_generic_arg(args: &Vec<Type>, n: usize) -> (r: Option<&Type>)
    ensures
        match r {
            Some(ty) => n < args@.len() && *ty == args@[n as int],
            None => n >= args@.len(),
        },
{
    if n < args.len() {
        Some(&args[n])
    } else {
        None
    }
}

/// The outer type of a storage value.
pub fn ty_kind<'a>(ty: &'a Type) -> (r: TyKind<'a>)
    ensures
        r@ == type_shape(*ty),
{
    match ty {
        Type::Path(name, args) => {
            if is_text(name, "Mapping") {
                proof {
                    reveal_strlit("Mapping");
                    reveal_strlit("Array");
                    assert("Mapping"@.len() != "Array"@.len());
                }
                match nth_generic_arg(args, 1) {
                    Some(value) => TyKind::Mapping(value),
                    None => TyKind::Scalar,
                }
            } else if is_text(name, "Array") {
                match nth_generic_arg(args, 0) {
                    Some(element) => TyKind::Array(element),
                    None => TyKind::Scalar,
                }
            } else {
                TyKind::Scalar
            }
        },
        _ => TyKind::Scalar,
    }
}

/// Packs a short string into a word: its bytes, zeros, and twice its length.
pub fn pack_short_string(s: &str) -> (r: [u8; 32])
    requires
        encode_utf8(s@).len() <= 31,
    ensures
        r@ == packed(encode_utf8(s@)),
{
    let bytes = s.as_bytes();
    let ghost text = encode_utf8(s@);
    let mut w = [0u8; 32];
    let mut i: usize = 0;
    while i < bytes.len()
        invariant
            i <= bytes@.len() <= 31,
            bytes@ == text,
            forall|j: int|
                #![trigger w@[j]]
                0 <= j < 32 ==> w@[j] == if j < i {
                    text[j]
                } else {
                    0
                },
        decreases bytes@.len() - i,
    {
        w[i] = bytes[i];
        i += 1;
    }
    w[31] = 2 * bytes.len() as u8;
    assert(w@ =~= packed(text));
    w
}

/// The slot of a storage field.
pub fn member_slot<'a>(member: &Member, ctx: &Ctx<'a>) -> (r: Result<u64, CompileError>)
    ensures
        match r {
            Ok(slot) => slot_of(ctx@, *member) == Ok::<u64, Fault>(slot),
            Err(e) => slot_of(ctx@, *member) == Err::<u64, Fault>(e@),
        },
{
    match member {
        Member::Unnamed => Err(CompileError::plain(ErrorKind::TupleField)),
        Member::Named(name) => match ctx.storage.get(name) {
            Some(field) => Ok(field.slot),
            None => Err(CompileError::plain(ErrorKind::UnknownField)),
        },
    }
}

/// The storage field that an expression of the form `self.field` names.
pub fn self_field<'a>(receiver: &Expr, ctx: &Ctx<'a>) -> (r: Result<StorageField, CompileError>)
    ensures
        match r {
            Ok(field) => field_of(ctx@, *receiver) == Ok::<StorageField, Fault>(field),
            Err(e) => field_of(ctx@, *receiver) == Err::<StorageField, Fault>(e@),
        },
{
    match receiver {
        Expr::Field(base, member) => {
            if is_self(base) {
                match member {
                    Member::Unnamed => Err(CompileError::plain(ErrorKind::TupleField)),
                    Member::Named(name) => match ctx.storage.get(name) {
                        Some(field) => Ok(*field),
                        None => Err(CompileError::plain(ErrorKind::UnknownField)),
                    },
                }
            } else {
                Err(CompileError::plain(ErrorKind::NotSelfField))
            }
        },
        _ => Err(CompileError::plain(ErrorKind::NotSelfField)),
    }
}

/// The name that a pattern binds.
pub fn ident_of_pat<'p>(pat: &'p Pat) -> (r: Result<&'p String, CompileError>)
    ensures
        match r {
            Ok(name) => pattern_name(*pat) == Ok::<Seq<char>, Fault>(name@),
            Err(e) => pattern_name(*pat) == Err::<Seq<char>, Fault>(e@),
        },
    decreases pat,
{
    match pat {
        Pat::Ident(name) => Ok(name),
        Pat::Typed(inner) => ident_of_pat(inner),
        Pat::Other => Err(CompileError::plain(ErrorKind::LetPattern)),
    }
}

/// The push of an integer literal.
pub fn lower_int(value: Option<u64>) -> (r: Code)
    ensures
        r@ == literal_code(value),
{
    match value {
        Some(v) => {
            let mut code = Code::new();
            code.push(v);
            assert(code@ =~= literal_code(value));
            code
        },
        None => Code::fault(ErrorKind::LiteralTooLarge),
    }
}

/// The push of a string literal.
pub fn lower_str(text: &String) -> (r: Code)
    ensures
        r@ == string_code(text@),
{
    let len = text.as_str().as_bytes().len();
    if len <= 31 {
        let word = pack_short_string(text.as_str());
        let mut code = Code::new();
        code.program.push_word(Word::from_be_slice(word.as_slice()));
        assert(code@ =~= string_code(text@));
        code
    } else {
        Code::error(
            CompileError { kind: ErrorKind::ShortStringTooLong, subject: decimal(len) },
        )
    }
}

/// Whether a path ends in the given name.
fn ends_in(e: &Expr, name: &str) -> (r: bool)
    ensures
        r == path_ends_in(*e, name@),
{
    match e {
        Expr::Ident(n) => is_text(n, name),
        Expr::Path(segments) => {
            segments.len() > 0 && is_text(&segments[segments.len() - 1], name)
        },
        _ => false,
    }
}

/// A call in an expression: `msg_sender()`, `address_this()`, `block_timestamp()`, or
/// `U256::from(literal)`.
pub fn lower_from_call(func: &Expr, args: &Vec<Expr>) -> (r: Code)
    ensures
        r@ == call_code(*func, args@),
{
    let mut code = Code::new();
    if is_path(func, "msg_sender") {
        code.program.msg_sender();
        assert(code@ =~= call_code(*func, args@));
        return code;
    }
    if is_path(func, "address_this") {
        code.add_op(Op::Address);
        assert(code@ =~= call_code(*func, args@));
        return code;
    }
    if is_path(func, "block_timestamp") {
        code.add_op(Op::Timestamp);
        assert(code@ =~= call_code(*func, args@));
        return code;
    }
    if ends_in(func, "from") && args.len() == 1 {
        if let Expr::Int(value) = &args[0] {
            return lower_int(*value);
        }
    }
    Code::fault(ErrorKind::UnsupportedCall)
}

/// The read of a variable: a local variable hides a parameter.
pub fn lower_ident<'a>(name: &String, state: &Lower<'a>) -> (r: Code)
    ensures
        r@ == identifier_code(name@, state.scope()),
{
    let mut code = Code::new();
    if let Some(offset) = state.locals.get(name) {
        code.push(*offset as u64);
        code.add_op(Op::MLoad);
        assert(code@ =~= identifier_code(name@, state.scope()));
        return code;
    }
    if let Some(offset) = state.param_offsets.get(name) {
        code.push(*offset as u64);
        code.add_op(Op::CallDataLoad);
        assert(code@ =~= identifier_code(name@, state.scope()));
        return code;
    }
    Code::error(CompileError { kind: ErrorKind::UnknownIdentifier, subject: name.clone() })
}

/// An operator, applied to the code of its two operands.
pub fn lower_operator(op: BinOp, l: Code, r: Code) -> (code: Code)
    ensures
        code@ == operator_code(op, l@, r@),
{
    let mut l = l;
    let mut r = r;
    let ghost left = l@;
    let ghost right = r@;
    match op {
        BinOp::Sub | BinOp::Div | BinOp::Rem => {
            r.append(l);
            match op {
                BinOp::Sub => r.add_op(Op::Sub),
                BinOp::Div => r.add_op(Op::Div),
                _ => r.add_op(Op::Mod),
            }
            r
        },
        BinOp::Other => Code::fault(ErrorKind::UnsupportedOperator),
        _ => {
            l.append(r);
            match op {
                BinOp::Add => l.add_op(Op::Add),
                BinOp::Mul => l.add_op(Op::Mul),
                BinOp::Shl => l.add_op(Op::Shl),
                BinOp::Lt => l.add_op(Op::Gt),
                BinOp::Gt => l.add_op(Op::Lt),
                BinOp::Eq => l.add_op(Op::Eq),
                BinOp::Ne => {
                    l.add_op(Op::Eq);
                    l.add_op(Op::IsZero);
                },
                BinOp::Le => {
                    l.add_op(Op::Lt);
                    l.add_op(Op::IsZero);
                },
                _ => {
                    l.add_op(Op::Gt);
                    l.add_op(Op::IsZero);
                },
            }
            assert(l@ =~= operator_code(op, left, right));
            l
        },
    }
}

/// Goes on only if the value on the stack is not zero, and reverts otherwise.
fn guard() -> (r: Code)
    ensures
        r@ == guard_code(),
{
    let mut code = Code::new();
    let label = code.program.fresh_label();
    code.program.add_op(Op::JumpI(label));
    code.program.revert_empty();
    code.program.add_op(Op::JumpDest(label));
    assert(code@ =~= guard_code());
    code
}

/// Appends the stores of `k` words from the stack, from memory offset `first` on.
fn push_stores(code: &mut Code, first: u32, k: usize)
    requires
        k <= max_words(),
    ensures
        final(code)@ == old(code)@.with_code(stores_code(first as nat, k as nat)),
{
    let mut j: usize = k;
    let ghost start = code@;
    let ghost mut done: Seq<Instr> = Seq::empty();
    assert(start.with_code(done) =~= start);
    assert(done + stores_code(first as nat, j as nat) =~= stores_code(first as nat, k as nat));
    while j > 0
        invariant
            j <= k,
            k <= max_words(),
            code@ == start.with_code(done),
            done + stores_code(first as nat, j as nat) == stores_code(first as nat, k as nat),
        decreases j,
    {
        j -= 1;
        code.push(first as u64 + 32 * j as u64);
        code.add_op(Op::MStore);
        proof {
            let step = seq![push_number((first + 32 * j) as nat), Op::MStore@];
            assert(code@ =~= start.with_code(done + step));
            let rest = stores_code(first as nat, j as nat);
            assert((done + step) + rest =~= done + (step + rest));
            done = done + step;
        }
    }
    assert(done =~= stores_code(first as nat, k as nat));
}

/// The position of the first field of a struct literal with the given name.
fn find_field(literal: &Vec<FieldValue>, name: &String) -> (r: Option<usize>)
    ensures
        match r {
            Some(i) => i < literal@.len() && literal_field(literal@, name@, literal@.len())
                == Some(i as nat),
            None => literal_field(literal@, name@, literal@.len()) is None,
        },
{
    let mut i: usize = 0;
    while i < literal.len()
        invariant
            i <= literal@.len(),
            literal_field(literal@, name@, i as nat) is None,
        decreases literal@.len() - i,
    {
        if let Member::Named(n) = &literal[i].member {
            if *n == *name {
                assert(literal_field(literal@, name@, (i + 1) as nat) == Some(i as nat));
                proof {
                    lemma_literal_field_stable(
                        literal@,
                        name@,
                        (i + 1) as nat,
                        literal@.len(),
                        i as nat,
                    );
                }
                return Some(i);
            }
        }
        i += 1;
    }
    None
}

proof fn lemma_literal_field_stable(
    literal: Seq<FieldValue>,
    name: Seq<char>,
    k: nat,
    n: nat,
    i: nat,
)
    requires
        k <= n,
        literal_field(literal, name, k) == Some(i),
    ensures
        literal_field(literal, name, n) == Some(i),
    decreases n,
{
    if k < n {
        lemma_literal_field_stable(literal, name, k, (n - 1) as nat, i);
    }
}

/// The functions of the interface, where an expression has the form `Interface::at(..)`.
fn interface_target<'a>(e: &Expr, ctx: &'a Ctx<'a>) -> (r: Option<&'a InterfaceDef<'a>>)
    ensures
        match r {
            Some(def) => interface_of(ctx@, *e) == Some(def@),
            None => interface_of(ctx@, *e) is None,
        },
{
    match e {
        Expr::Call(func, _) => match &**func {
            Expr::Path(segments) => {
                if segments.len() == 2 && is_text(&segments[1], "at") {
                    ctx.interfaces.get(&segments[0])
                } else {
                    None
                }
            },
            _ => None,
        },
        _ => None,
    }
}

/// Whether the parameters are single words.
fn are_words<'a>(params: &Vec<Param<'a>>) -> (r: bool)
    ensures
        r == all_words(parameters(params@)),
{
    let ghost ps = parameters(params@);
    let mut i: usize = 0;
    while i < params.len()
        invariant
            i <= params@.len(),
            ps == parameters(params@),
            forall|j: int| #![trigger ps[j]] 0 <= j < i ==> !short_string_type(ps[j].ty),
        decreases params@.len() - i,
    {
        assert(ps[i as int] == params@[i as int]@);
        if is_short_string_ty(params[i].ty) {
            return false;
        }
        i += 1;
    }
    true
}

/// Whether a result is at most a single word.
fn is_word_result(output: &Option<Type>) -> (r: bool)
    ensures
        r == word_result(*output),
{
    match output {
        None => true,
        Some(ty) => match ty {
            Type::Path(_, _) => !is_short_string_ty(ty),
            _ => false,
        },
    }
}

/// The operands and the opcode of a call of another contract.
fn push_foreign_call(code: &mut Code, base: u32, nargs: usize, mutable: bool, want_value: bool)
    requires
        base + 0x20 * (1 + nargs) <= u32::MAX,
    ensures
        final(code)@ == old(code)@.with_code(
            foreign_call_code(base, nargs as nat, mutable, want_value),
        ),
{
    code.push(if want_value { 0x20 } else { 0 });
    code.push(0);
    code.push(4 + 32 * nargs as u64);
    code.push(base as u64 + 28);
    if mutable {
        code.push(0);
        code.add_op(Op::Dup(6));
        code.add_op(Op::Gas);
        code.add_op(Op::Call);
    } else {
        code.add_op(Op::Dup(5));
        code.add_op(Op::Gas);
        code.add_op(Op::StaticCall);
    }
    code.add_op(Op::Swap(1));
    code.add_op(Op::Pop);
    assert(code@ =~= old(code)@.with_code(
        foreign_call_code(base, nargs as nat, mutable, want_value),
    ));
}

/// The code around the body and the `else` of an `if`.
fn branches(body: Code, otherwise: Option<Code>) -> (r: Code)
    ensures
        r@ == branches_code(
            body@,
            match otherwise {
                Some(other) => Some(other@),
                None => None,
            },
        ),
{
    let mut code = Code::new();
    match otherwise {
        None => {
            let end = code.program.fresh_label();
            code.program.add_op(Op::IsZero).add_op(Op::JumpI(end));
            assert(code@ =~= Fragment::of(seq![Op::IsZero@, Instr::JumpI(0)], 1));
            code.append(body);
            code.add_op(Op::JumpDest(end));
            code
        },
        Some(other) => {
            let else_l = code.program.fresh_label();
            let end = code.program.fresh_label();
            code.program.add_op(Op::IsZero).add_op(Op::JumpI(else_l));
            assert(code@ =~= Fragment::of(seq![Op::IsZero@, Instr::JumpI(0)], 2));
            code.append(body);
            let ghost before = code@;
            code.add_op(Op::Jump(end));
            code.add_op(Op::JumpDest(else_l));
            assert(code@ =~= before.with_code(seq![Instr::Jump(1), Instr::JumpDest(0)]));
            code.append(other);
            code.add_op(Op::JumpDest(end));
            code
        },
    }
}

/// The code of a loop around its condition and its body.
fn loop_around(cond: Code, body: Code) -> (r: Code)
    ensures
        r@ == loop_code(cond@, body@),
{
    let mut code = Code::new();
    let top = code.program.fresh_label();
    let end = code.program.fresh_label();
    code.program.add_op(Op::JumpDest(top));
    assert(code@ =~= Fragment::of(seq![Instr::JumpDest(0)], 2));
    code.append(cond);
    let ghost tested = code@;
    code.add_op(Op::IsZero);
    code.add_op(Op::JumpI(end));
    assert(code@ =~= tested.with_code(seq![Op::IsZero@, Instr::JumpI(1)]));
    code.append(body);
    let ghost run = code@;
    code.add_op(Op::Jump(top));
    code.add_op(Op::JumpDest(end));
    assert(code@ =~= run.with_code(seq![Instr::Jump(0), Instr::JumpDest(1)]));
    code
}

/// A block of statements. The locals of nested blocks get fresh memory, and stay visible. The code
/// does not halt.
pub fn lower_stmts<'a>(stmts: &Vec<Stmt>, state: &mut Lower<'a>, tail: Tail) -> (r: Code)
    ensures
        final(state).env() == old(state).env(),
        (Lowered { code: r@, scope: final(state).scope() }) == block(
            old(state).env(),
            stmts@,
            tail,
            old(state).scope(),
        ),
    decreases depth(old(state).env()), stmts@, stmts@.len(), 1nat,
{
    let ghost env = state.env();
    let ghost scope = state.scope();
    let mut code = Code::new();
    let mut i: usize = 0;
    while i < stmts.len()
        invariant
            i <= stmts@.len(),
            state.env() == env,
            env == old(state).env(),
            (Lowered { code: code@, scope: state.scope() }) == statements(
                env,
                stmts@,
                i as nat,
                tail,
                scope,
            ),
        decreases stmts@.len() - i,
    {
        let stmt_tail = if i + 1 == stmts.len() {
            tail
        } else {
            Tail::Void
        };
        let part = lower_stmt(&stmts[i], stmt_tail, state);
        code.append(part);
        i += 1;
    }
    code
}

/// A statement.
fn lower_stmt<'a>(stmt: &Stmt, tail: Tail, state: &mut Lower<'a>) -> (r: Code)
    ensures
        final(state).env() == old(state).env(),
        (Lowered { code: r@, scope: final(state).scope() }) == statement(
            old(state).env(),
            *stmt,
            tail,
            old(state).scope(),
        ),
    decreases depth(old(state).env()), stmt, 0nat, 1nat,
{
    match stmt {
        Stmt::Expr(e, semi) => {
            let stmt_tail = if *semi {
                Tail::Void
            } else {
                tail
            };
            lower_expr_stmt(e, stmt_tail, state)
        },
        Stmt::Local(pat, init) => lower_local(stmt, state),
        Stmt::Other => Code::fault(ErrorKind::UnsupportedStatement),
    }
}

/// `let name = value;`: stores the value in a fresh word of memory.
pub fn lower_local<'a>(stmt: &Stmt, state: &mut Lower<'a>) -> (r: Code)
    requires
        stmt is Local,
    ensures
        final(state).env() == old(state).env(),
        (Lowered { code: r@, scope: final(state).scope() }) == statement(
            old(state).env(),
            *stmt,
            Tail::Void,
            old(state).scope(),
        ),
    decreases depth(old(state).env()), stmt, 0nat, 0nat,
{
    match stmt {
        Stmt::Local(pat, init) => {
            let name = match ident_of_pat(pat) {
                Ok(name) => name,
                Err(e) => return Code::error(e),
            };
            match init {
                None => Code::fault(ErrorKind::LocalWithoutValue),
                Some(e) => {
                    let mut code = lower_expression(e, state);
                    let ghost value = code@;
                    match state.alloc_local() {
                        Some(offset) => {
                            state.locals.insert(name.clone(), offset);
                            code.push(offset as u64);
                            code.add_op(Op::MStore);
                            assert(code@ =~= value.with_code(
                                seq![push_number(offset as nat), Op::MStore@],
                            ));
                        },
                        None => {
                            code.append(Code::fault(ErrorKind::TooManyLocals));
                        },
                    }
                    code
                },
            }
        },
        _ => Code::fault(ErrorKind::UnsupportedStatement),
    }
}

/// An expression that stands as a statement. One with a value is what the block results in.
pub fn lower_expr_stmt<'a>(e: &Expr, tail: Tail, state: &mut Lower<'a>) -> (r: Code)
    ensures
        final(state).env() == old(state).env(),
        (Lowered { code: r@, scope: final(state).scope() }) == expression_statement(
            old(state).env(),
            *e,
            tail,
            old(state).scope(),
        ),
    decreases depth(old(state).env()), e, 0nat, 9nat,
{
    let ctx = state.ctx;
    match e {
        Expr::Assign(_, _) => lower_assign(e, state),
        Expr::MethodCall(receiver, method, _) => {
            if interface_target(receiver, ctx).is_some() {
                if tail == Tail::Void {
                    lower_interface_call(e, false, state)
                } else {
                    lower_value(e, tail, state)
                }
            } else if is_text(method, "insert") {
                lower_mapping_insert(e, state)
            } else if is_text(method, "set") {
                lower_array_set(e, state)
            } else if is_text(method, "push") {
                lower_array_push(e, state)
            } else if tail == Tail::Void && is_self(receiver) && ctx.internal_functions.contains(
                method,
            ) {
                lower_internal_call(e, false, state)
            } else {
                lower_value(e, tail, state)
            }
        },
        Expr::Call(func, _) => {
            if is_path(func, "require") {
                lower_require(e, state)
            } else if is_path(func, "emit") {
                lower_emit(e, state)
            } else {
                lower_value(e, tail, state)
            }
        },
        Expr::If(_, _, _) => lower_if(e, state),
        Expr::While(_, _) => lower_while(e, state),
        _ => lower_value(e, tail, state),
    }
}

/// The value that a block results in.
fn lower_value<'a>(e: &Expr, tail: Tail, state: &mut Lower<'a>) -> (r: Code)
    ensures
        final(state).env() == old(state).env(),
        (Lowered { code: r@, scope: final(state).scope() }) == value_statement(
            old(state).env(),
            *e,
            tail,
            old(state).scope(),
        ),
    decreases depth(old(state).env()), e, 0nat, 8nat,
{
    match tail {
        Tail::Return => match e {
            Expr::Tuple(elems) => {
                if elems.len() > 0x7FF_FFFF {
                    return Code::fault(ErrorKind::TooManyLocals);
                }
                let mut code = lower_values(elems, state);
                let ghost before = code@;
                let k = elems.len();
                push_stores(&mut code, 0, k);
                code.push(32 * k as u64);
                code.push(0);
                code.add_op(Op::Return);
                assert(code@ =~= before.with_code(return_words_code(k as nat)));
                code
            },
            _ => {
                let mut code = lower_expression(e, state);
                if state.ret_string {
                    code.program.return_short_string();
                } else {
                    code.program.return_word();
                }
                code
            },
        },
        Tail::Leave => lower_expression(e, state),
        Tail::Void => Code::fault(ErrorKind::ValueAsStatement),
    }
}

/// A list of expressions, each left on the stack.
fn lower_values<'a>(elems: &Vec<Expr>, state: &mut Lower<'a>) -> (r: Code)
    ensures
        final(state).env() == old(state).env(),
        (Lowered { code: r@, scope: final(state).scope() }) == values(
            old(state).env(),
            elems@,
            elems@.len(),
            old(state).scope(),
        ),
    decreases depth(old(state).env()), elems@, elems@.len(), 0nat,
{
    let ghost env = state.env();
    let ghost scope = state.scope();
    let mut code = Code::new();
    let mut i: usize = 0;
    while i < elems.len()
        invariant
            i <= elems@.len(),
            state.env() == env,
            env == old(state).env(),
            (Lowered { code: code@, scope: state.scope() }) == values(
                env,
                elems@,
                i as nat,
                scope,
            ),
        decreases elems@.len() - i,
    {
        let part = lower_expression(&elems[i], state);
        code.append(part);
        i += 1;
    }
    code
}

/// Evaluates the arguments of an internal call, and stores each in a fresh local variable that
/// stands for its parameter.
fn lower_bindings<'a>(params: &Vec<Param<'a>>, args: &Vec<Expr>, state: &mut Lower<'a>) -> (r: (
    Code,
    NameMap<u32>,
))
    requires
        params@.len() == args@.len(),
    ensures
        final(state).env() == old(state).env(),
        (Bound { code: r.0@, scope: final(state).scope(), locals: r.1@ }) == bindings(
            old(state).env(),
            parameters(params@),
            args@,
            args@.len(),
            old(state).scope(),
        ),
    decreases depth(old(state).env()), args@, args@.len(), 0nat,
{
    let ghost env = state.env();
    let ghost scope = state.scope();
    let ghost ps = parameters(params@);
    let mut code = Code::new();
    let mut locals: NameMap<u32> = NameMap::new();
    let mut i: usize = 0;
    while i < args.len()
        invariant
            i <= args@.len(),
            params@.len() == args@.len(),
            ps == parameters(params@),
            state.env() == env,
            env == old(state).env(),
            (Bound { code: code@, scope: state.scope(), locals: locals@ }) == bindings(
                env,
                ps,
                args@,
                i as nat,
                scope,
            ),
        decreases args@.len() - i,
    {
        assert(ps[i as int] == params@[i as int]@);
        let mut part = lower_expression(&args[i], state);
        let ghost value = part@;
        match state.alloc_local() {
            Some(offset) => {
                locals.insert(params[i].name.clone(), offset);
                part.push(offset as u64);
                part.add_op(Op::MStore);
                assert(part@ =~= value.with_code(
                    seq![push_number(offset as nat), Op::MStore@],
                ));
                code.append(part);
            },
            None => {
                code.append(part);
                code.append(Code::fault(ErrorKind::TooManyLocals));
            },
        }
        i += 1;
    }
    (code, locals)
}

/// A call `self.name(args)` of an internal function, which is inlined.
pub fn lower_internal_call<'a>(e: &Expr, want_value: bool, state: &mut Lower<'a>) -> (r: Code)
    ensures
        final(state).env() == old(state).env(),
        (Lowered { code: r@, scope: final(state).scope() }) == internal_call(
            old(state).env(),
            *e,
            want_value,
            old(state).scope(),
        ),
    decreases depth(old(state).env()), e, 0nat, 4nat,
{
    let ctx = state.ctx;
    match e {
        Expr::MethodCall(_, method, args) => {
            let callee = match ctx.internal_functions.get(method) {
                Some(callee) => callee,
                None => return Code::fault(ErrorKind::UnsupportedCall),
            };
            if contains_text(&state.call_stack, method) {
                return Code::fault(ErrorKind::RecursiveCall);
            }
            if args.len() != callee.params.len() {
                return Code::fault(ErrorKind::WrongArgumentCount);
            }
            let (mut code, mut locals) = lower_bindings(&callee.params, args, state);

            // the body has a scope of its own: the parameters as locals, and no call data
            let ghost env = state.env();
            let ghost outer = state.scope();
            let mut offsets: NameMap<u32> = NameMap::new();
            core::mem::swap(&mut state.locals, &mut locals);
            core::mem::swap(&mut state.param_offsets, &mut offsets);
            let ghost stack = state.call_stack@;
            state.call_stack.push(method.clone());
            proof {
                assert(texts(state.call_stack@) =~= texts(stack).push(method@));
                lemma_depth(env, method@);
            }
            let returning = has_result(callee.output);
            let tail = if returning {
                Tail::Leave
            } else {
                Tail::Void
            };
            let body = lower_stmts(callee.block, state, tail);
            let ghost deeper = state.call_stack@;
            assert(texts(deeper) == texts(stack).push(method@));
            state.call_stack.pop();
            core::mem::swap(&mut state.locals, &mut locals);
            core::mem::swap(&mut state.param_offsets, &mut offsets);
            proof {
                assert(texts(deeper).len() == deeper.len());
                assert(texts(state.call_stack@) =~= texts(deeper).drop_last());
                assert(texts(deeper).drop_last() =~= texts(stack));
            }

            code.append(body);
            let ghost before = code@;
            if !want_value && returning {
                code.add_op(Op::Pop);
            } else {
                assert(before =~= before.with_code(Seq::empty()));
            }
            code
        },
        _ => Code::fault(ErrorKind::UnsupportedCall),
    }
}

/// The read of a storage slot.
fn load(slot: u64) -> (r: Code)
    ensures
        r@ == Fragment::of(seq![push_number(slot as nat), Op::SLoad@], 0),
{
    let mut code = Code::new();
    code.program.load_slot(Word::from_u64(slot));
    assert(code@ =~= Fragment::of(seq![push_number(slot as nat), Op::SLoad@], 0));
    code
}

/// `self.field = value` or `local = value`.
pub fn lower_assign<'a>(e: &Expr, state: &mut Lower<'a>) -> (r: Code)
    ensures
        final(state).env() == old(state).env(),
        (Lowered { code: r@, scope: final(state).scope() }) == assignment(
            old(state).env(),
            *e,
            old(state).scope(),
        ),
    decreases depth(old(state).env()), e, 0nat, 8nat,
{
    match e {
        Expr::Assign(left, right) => match &**left {
            Expr::Field(base, member) => {
                if is_self(base) {
                    match member_slot(member, state.ctx) {
                        Err(error) => Code::error(error),
                        Ok(slot) => {
                            let mut code = lower_expression(right, state);
                            code.program.store_slot(Word::from_u64(slot));
                            code
                        },
                    }
                } else {
                    Code::fault(ErrorKind::AssignmentTarget)
                }
            },
            Expr::Ident(name) => match state.locals.get(name) {
                None => Code::fault(ErrorKind::AssignmentTarget),
                Some(offset) => {
                    let offset: u32 = *offset;
                    let mut code = lower_expression(right, state);
                    let ghost value = code@;
                    code.push(offset as u64);
                    code.add_op(Op::MStore);
                    assert(code@ =~= value.with_code(
                        seq![push_number(offset as nat), Op::MStore@],
                    ));
                    code
                },
            },
            _ => Code::fault(ErrorKind::AssignmentTarget),
        },
        _ => Code::fault(ErrorKind::AssignmentTarget),
    }
}

/// `receiver.insert(key, value)`, where the receiver can be a nested mapping.
pub fn lower_mapping_insert<'a>(e: &Expr, state: &mut Lower<'a>) -> (r: Code)
    ensures
        final(state).env() == old(state).env(),
        (Lowered { code: r@, scope: final(state).scope() }) == mapping_insert(
            old(state).env(),
            *e,
            old(state).scope(),
        ),
    decreases depth(old(state).env()), e, 0nat, 8nat,
{
    match e {
        Expr::MethodCall(receiver, _, args) => {
            if args.len() != 2 {
                return Code::fault(ErrorKind::InsertArguments);
            }
            match lower_place(receiver, state) {
                Err(error) => Code::error(error),
                Ok((base, ty)) => match ty_kind(ty) {
                    TyKind::Mapping(_) => {
                        let mut code = lower_expression(&args[1], state);
                        let key = lower_expression(&args[0], state);
                        code.append(base);
                        code.append(key);
                        let ghost before = code@;
                        code.program.mapping_slot_from_stack();
                        code.program.sstore();
                        assert(code@ =~= before.with_code(
                            mapping_slot_from_stack_code().push(Op::SStore@),
                        ));
                        code
                    },
                    _ => Code::fault(ErrorKind::InsertReceiver),
                },
            }
        },
        _ => Code::fault(ErrorKind::UnsupportedStatement),
    }
}

/// `self.array.set(index, value)`.
pub fn lower_array_set<'a>(e: &Expr, state: &mut Lower<'a>) -> (r: Code)
    ensures
        final(state).env() == old(state).env(),
        (Lowered { code: r@, scope: final(state).scope() }) == array_set(
            old(state).env(),
            *e,
            old(state).scope(),
        ),
    decreases depth(old(state).env()), e, 0nat, 8nat,
{
    match e {
        Expr::MethodCall(receiver, _, args) => match self_field(receiver, state.ctx) {
            Err(error) => Code::error(error),
            Ok(field) => {
                if field.kind != FieldKind::Array {
                    return Code::fault(ErrorKind::SetReceiver);
                }
                if args.len() != 2 {
                    return Code::fault(ErrorKind::SetArguments);
                }
                let mut code = lower_expression(&args[1], state);
                let index = lower_expression(&args[0], state);
                code.append(index);
                let ghost before = code@;
                code.program.array_elem_slot(Word::from_u64(field.slot));
                code.program.sstore();
                assert(code@ =~= before.with_code(
                    array_elem_slot_code(field.slot as nat).push(Op::SStore@),
                ));
                code
            },
        },
        _ => Code::fault(ErrorKind::UnsupportedStatement),
    }
}

/// `self.array.push(value)`.
pub fn lower_array_push<'a>(e: &Expr, state: &mut Lower<'a>) -> (r: Code)
    ensures
        final(state).env() == old(state).env(),
        (Lowered { code: r@, scope: final(state).scope() }) == array_push(
            old(state).env(),
            *e,
            old(state).scope(),
        ),
    decreases depth(old(state).env()), e, 0nat, 8nat,
{
    match e {
        Expr::MethodCall(receiver, _, args) => match self_field(receiver, state.ctx) {
            Err(error) => Code::error(error),
            Ok(field) => {
                if field.kind != FieldKind::Array {
                    return Code::fault(ErrorKind::PushReceiver);
                }
                if args.len() != 1 {
                    return Code::fault(ErrorKind::PushArguments);
                }
                let mut code = lower_expression(&args[0], state);
                let ghost before = code@;
                let base = Word::from_u64(field.slot);
                code.program.load_slot(base);
                code.program.array_elem_slot(base);
                code.program.sstore();
                code.program.load_slot(base);
                code.program.push_word(Word::from_u64(1));
                code.program.add_op(Op::Add);
                code.program.store_slot(base);
                assert(code@ =~= before.with_code(array_push_code(field.slot as nat)));
                code
            },
        },
        _ => Code::fault(ErrorKind::UnsupportedStatement),
    }
}

/// `require(cond)`: reverts unless the condition holds.
pub fn lower_require<'a>(e: &Expr, state: &mut Lower<'a>) -> (r: Code)
    ensures
        final(state).env() == old(state).env(),
        (Lowered { code: r@, scope: final(state).scope() }) == requirement(
            old(state).env(),
            *e,
            old(state).scope(),
        ),
    decreases depth(old(state).env()), e, 0nat, 8nat,
{
    match e {
        Expr::Call(_, args) => {
            if args.len() == 0 {
                return Code::fault(ErrorKind::MissingArgument);
            }
            let mut code = lower_expression(&args[0], state);
            code.append(guard());
            code
        },
        _ => Code::fault(ErrorKind::UnsupportedStatement),
    }
}

/// The values of the fields of an event, in the order of their declaration.
fn lower_event_values<'a>(
    literal: &Vec<FieldValue>,
    fields: &Vec<EventField<'a>>,
    state: &mut Lower<'a>,
) -> (r: Code)
    ensures
        final(state).env() == old(state).env(),
        (Lowered { code: r@, scope: final(state).scope() }) == event_values(
            old(state).env(),
            literal@,
            fields@.map_values(|f: EventField<'a>| f@),
            fields@.len(),
            old(state).scope(),
        ),
    decreases depth(old(state).env()), literal@, fields@.len(), 0nat,
{
    let ghost env = state.env();
    let ghost scope = state.scope();
    let ghost fs = fields@.map_values(|f: EventField<'a>| f@);
    let mut code = Code::new();
    let mut i: usize = 0;
    while i < fields.len()
        invariant
            i <= fields@.len(),
            fs == fields@.map_values(|f: EventField<'a>| f@),
            state.env() == env,
            env == old(state).env(),
            (Lowered { code: code@, scope: state.scope() }) == event_values(
                env,
                literal@,
                fs,
                i as nat,
                scope,
            ),
        decreases fields@.len() - i,
    {
        assert(fs[i as int] == fields@[i as int]@);
        match find_field(literal, fields[i].name) {
            Some(j) => {
                let part = lower_expression(&literal[j].value, state);
                code.append(part);
            },
            None => {
                code.append(
                    Code::error(
                        CompileError {
                            kind: ErrorKind::MissingEventField,
                            subject: fields[i].name.clone(),
                        },
                    ),
                );
            },
        }
        i += 1;
    }
    code
}

/// The fields of an event as parameters.
fn event_params<'a>(fields: &Vec<EventField<'a>>) -> (r: Vec<Param<'a>>)
    ensures
        parameters(r@) == fields@.map_values(
            |f: EventField<'a>| Parameter { name: f.name@, ty: *f.ty },
        ),
{
    let mut params: Vec<Param<'a>> = Vec::new();
    let mut i: usize = 0;
    while i < fields.len()
        invariant
            i <= fields@.len(),
            params@.len() == i,
            forall|j: int|
                #![trigger params@[j]]
                0 <= j < i ==> params@[j]@ == (Parameter {
                    name: fields@[j].name@,
                    ty: *fields@[j].ty,
                }),
        decreases fields@.len() - i,
    {
        params.push(Param { name: fields[i].name, ty: fields[i].ty });
        i += 1;
    }
    assert(parameters(params@) =~= fields@.map_values(
        |f: EventField<'a>| Parameter { name: f.name@, ty: *f.ty },
    ));
    params
}

/// Appends the log of `k` words from the stack under the topic of an event signature. The words are
/// laid out in memory from `first` on.
fn push_log(code: &mut Code, sig: &str, first: u32, k: usize)
    requires
        k <= max_words(),
    ensures
        final(code)@ == old(code)@.with_code(log_code(sig@, first as nat, k as nat)),
{
    let ghost before = code@;
    push_stores(code, first, k);
    code.program.push_topic(sig);
    code.push(32 * k as u64);
    code.push(first as u64);
    code.add_op(Op::Log(1));
    assert(code@ =~= before.with_code(log_code(sig@, first as nat, k as nat)));
}

/// `emit(Event { field: value, .. })`: all fields go to the data of a `LOG1`.
pub fn lower_emit<'a>(e: &Expr, state: &mut Lower<'a>) -> (r: Code)
    ensures
        final(state).env() == old(state).env(),
        (Lowered { code: r@, scope: final(state).scope() }) == emission(
            old(state).env(),
            *e,
            old(state).scope(),
        ),
    decreases depth(old(state).env()), e, 0nat, 8nat,
{
    let ctx = state.ctx;
    match e {
        Expr::Call(_, args) => {
            if args.len() == 0 {
                return Code::fault(ErrorKind::MissingArgument);
            }
            match &args[0] {
                Expr::Struct(name, literal) => {
                    let def = match ctx.events.get(name) {
                        Some(def) => def,
                        None => return Code::fault(ErrorKind::UnknownEvent),
                    };
                    let mut code = lower_event_values(literal, &def.fields, state);
                    let params = event_params(&def.fields);
                    assert(parameters(params@) =~= def@.params());
                    match signature_string(def.name, &params) {
                        Err(error) => {
                            code.append(Code::error(error));
                        },
                        Ok(sig) => {
                            let k = def.fields.len();
                            if k > 4 && !state.has_room_for_words(k) {
                                code.append(Code::fault(ErrorKind::TooManyLocals));
                                return code;
                            }
                            let first: u32 = if k <= 4 {
                                0
                            } else {
                                state.next_local
                            };
                            push_log(&mut code, sig.as_str(), first, k);
                        },
                    }
                    code
                },
                _ => Code::fault(ErrorKind::EmitArgument),
            }
        },
        _ => Code::fault(ErrorKind::UnsupportedStatement),
    }
}

/// `if cond { .. }`, `if cond { .. } else { .. }` and chains of `else if`.
pub fn lower_if<'a>(e: &Expr, state: &mut Lower<'a>) -> (r: Code)
    ensures
        final(state).env() == old(state).env(),
        (Lowered { code: r@, scope: final(state).scope() }) == conditional(
            old(state).env(),
            *e,
            old(state).scope(),
        ),
    decreases depth(old(state).env()), e, 0nat, 8nat,
{
    match e {
        Expr::If(cond, body, otherwise) => {
            let mut code = lower_expression(cond, state);
            let yes = lower_stmts(body, state, Tail::Void);
            let rest = match otherwise {
                None => branches(yes, None),
                Some(other) => {
                    let no = match &**other {
                        Expr::Block(stmts) => lower_stmts(stmts, state, Tail::Void),
                        Expr::If(_, _, _) => lower_if(other, state),
                        _ => Code::fault(ErrorKind::UnsupportedStatement),
                    };
                    branches(yes, Some(no))
                },
            };
            code.append(rest);
            code
        },
        _ => Code::fault(ErrorKind::UnsupportedStatement),
    }
}

/// `while cond { .. }`.
pub fn lower_while<'a>(e: &Expr, state: &mut Lower<'a>) -> (r: Code)
    ensures
        final(state).env() == old(state).env(),
        (Lowered { code: r@, scope: final(state).scope() }) == repetition(
            old(state).env(),
            *e,
            old(state).scope(),
        ),
    decreases depth(old(state).env()), e, 0nat, 8nat,
{
    match e {
        Expr::While(cond, body) => {
            let test = lower_expression(cond, state);
            let inner = lower_stmts(body, state, Tail::Void);
            loop_around(test, inner)
        },
        _ => Code::fault(ErrorKind::UnsupportedStatement),
    }
}

/// An expression, whose value is left on the stack.
pub fn lower_expression<'a>(e: &Expr, state: &mut Lower<'a>) -> (r: Code)
    ensures
        final(state).env() == old(state).env(),
        (Lowered { code: r@, scope: final(state).scope() }) == expression(
            old(state).env(),
            *e,
            old(state).scope(),
        ),
    decreases depth(old(state).env()), e, 0nat, 5nat,
{
    let ctx = state.ctx;
    match e {
        Expr::Int(value) => lower_int(*value),
        Expr::Bool(b) => {
            let mut code = Code::new();
            code.push(if *b { 1 } else { 0 });
            assert(code@ =~= expression(state.env(), *e, state.scope()).code);
            code
        },
        Expr::Str(text) => lower_str(text),
        Expr::Field(base, member) => {
            if is_self(base) {
                match member_slot(member, ctx) {
                    Err(error) => Code::error(error),
                    Ok(slot) => load(slot),
                }
            } else {
                Code::fault(ErrorKind::UnsupportedExpression)
            }
        },
        Expr::MethodCall(receiver, method, _) => {
            if interface_target(receiver, ctx).is_some() {
                lower_interface_call(e, true, state)
            } else if is_self(receiver) && ctx.internal_functions.contains(method) {
                lower_internal_call(e, true, state)
            } else if is_text(method, "get") {
                lower_get(e, state)
            } else if is_text(method, "len") {
                lower_len(receiver, ctx)
            } else {
                Code::fault(ErrorKind::UnsupportedExpression)
            }
        },
        Expr::Binary(_, _, _) => lower_binary(e, state),
        Expr::Paren(inner) => lower_expression(inner, state),
        Expr::Call(func, args) => lower_from_call(func, args),
        Expr::Ident(name) => lower_ident(name, state),
        _ => Code::fault(ErrorKind::UnsupportedExpression),
    }
}

/// `receiver.get(key)` on mappings and arrays, where the receiver can itself be a `get`: reads the
/// slot, which must hold a scalar.
pub fn lower_get<'a>(e: &Expr, state: &mut Lower<'a>) -> (r: Code)
    ensures
        final(state).env() == old(state).env(),
        (Lowered { code: r@, scope: final(state).scope() }) == get_value(
            old(state).env(),
            *e,
            old(state).scope(),
        ),
    decreases depth(old(state).env()), e, 0nat, 4nat,
{
    match lower_place(e, state) {
        Err(error) => Code::error(error),
        Ok((slot, ty)) => match ty_kind(ty) {
            TyKind::Scalar => {
                let mut code = slot;
                code.add_op(Op::SLoad);
                code
            },
            _ => Code::fault(ErrorKind::GetNotScalar),
        },
    }
}

/// Code that leaves a storage slot on the stack, and the type of what the slot holds:
/// `self.field`, and any chain of `.get(key)` on top of it.
pub fn lower_place<'a>(e: &Expr, state: &mut Lower<'a>) -> (r: Result<
    (Code, &'a Type),
    CompileError,
>)
    ensures
        final(state).env() == old(state).env(),
        (Placed {
            place: match r {
                Ok((code, ty)) => Ok((code@, *ty)),
                Err(error) => Err(error@),
            },
            scope: final(state).scope(),
        }) == place(old(state).env(), *e, old(state).scope()),
    decreases depth(old(state).env()), e, 0nat, 3nat,
{
    let ctx = state.ctx;
    match e {
        Expr::Field(base, member) => {
            if is_self(base) {
                match member_slot(member, ctx) {
                    Err(error) => Err(error),
                    Ok(slot) => match member {
                        Member::Unnamed => Err(CompileError::plain(ErrorKind::TupleField)),
                        Member::Named(name) => match ctx.field_types.get(name) {
                            None => Err(CompileError::plain(ErrorKind::UnknownField)),
                            Some(ty) => {
                                let mut code = Code::new();
                                code.push(slot);
                                assert(code@ =~= Fragment::of(
                                    seq![push_number(slot as nat)],
                                    0,
                                ));
                                Ok((code, *ty))
                            },
                        },
                    },
                }
            } else {
                Err(CompileError::plain(ErrorKind::StorageAccess))
            }
        },
        Expr::MethodCall(receiver, method, args) => {
            if !is_text(method, "get") {
                return Err(CompileError::plain(ErrorKind::StorageAccess));
            }
            if args.len() != 1 {
                return Err(CompileError::plain(ErrorKind::GetArguments));
            }
            match lower_place(receiver, state) {
                Err(error) => Err(error),
                Ok((base, ty)) => {
                    let key = lower_expression(&args[0], state);
                    let mut code = base;
                    code.append(key);
                    match ty_kind(ty) {
                        TyKind::Mapping(value) => {
                            code.program.mapping_slot_from_stack();
                            Ok((code, value))
                        },
                        TyKind::Array(element) => {
                            code.program.array_elem_slot_from_stack();
                            Ok((code, element))
                        },
                        TyKind::Scalar => Err(CompileError::plain(ErrorKind::GetReceiver)),
                    }
                },
            }
        },
        _ => Err(CompileError::plain(ErrorKind::StorageAccess)),
    }
}

/// `self.array.len()`.
pub fn lower_len<'a>(receiver: &Expr, ctx: &Ctx<'a>) -> (r: Code)
    ensures
        r@ == length_code(ctx@, *receiver),
{
    match self_field(receiver, ctx) {
        Err(error) => Code::error(error),
        Ok(field) => {
            if field.kind != FieldKind::Array {
                Code::fault(ErrorKind::LenReceiver)
            } else {
                load(field.slot)
            }
        },
    }
}

/// Arithmetic and comparison operators.
pub fn lower_binary<'a>(e: &Expr, state: &mut Lower<'a>) -> (r: Code)
    ensures
        final(state).env() == old(state).env(),
        (Lowered { code: r@, scope: final(state).scope() }) == binary(
            old(state).env(),
            *e,
            old(state).scope(),
        ),
    decreases depth(old(state).env()), e, 0nat, 4nat,
{
    match e {
        Expr::Binary(op, left, right) => {
            let l = lower_expression(left, state);
            let r = lower_expression(right, state);
            lower_operator(*op, l, r)
        },
        _ => Code::fault(ErrorKind::UnsupportedExpression),
    }
}

/// Evaluates the arguments of a call of another contract, and stores each behind the selector at
/// memory `base`.
fn lower_foreign_arguments<'a>(args: &Vec<Expr>, base: u32, state: &mut Lower<'a>) -> (r: Code)
    requires
        base + 0x20 * (1 + args@.len()) <= u32::MAX,
    ensures
        final(state).env() == old(state).env(),
        (Lowered { code: r@, scope: final(state).scope() }) == foreign_arguments(
            old(state).env(),
            args@,
            args@.len(),
            base,
            old(state).scope(),
        ),
    decreases depth(old(state).env()), args@, args@.len(), 0nat,
{
    let ghost env = state.env();
    let ghost scope = state.scope();
    let mut code = Code::new();
    let mut i: usize = 0;
    while i < args.len()
        invariant
            i <= args@.len(),
            base + 0x20 * (1 + args@.len()) <= u32::MAX,
            state.env() == env,
            env == old(state).env(),
            (Lowered { code: code@, scope: state.scope() }) == foreign_arguments(
                env,
                args@,
                i as nat,
                base,
                scope,
            ),
        decreases args@.len() - i,
    {
        let mut part = lower_expression(&args[i], state);
        let ghost value = part@;
        i += 1;
        part.push(base as u64 + 32 * i as u64);
        part.add_op(Op::MStore);
        assert(part@ =~= value.with_code(
            seq![push_number((base + 32 * i) as nat), Op::MStore@],
        ));
        code.append(part);
    }
    code
}

/// `Interface::at(address).method(args)`: reverts if the call fails.
pub fn lower_interface_call<'a>(e: &Expr, want_value: bool, state: &mut Lower<'a>) -> (r: Code)
    ensures
        final(state).env() == old(state).env(),
        (Lowered { code: r@, scope: final(state).scope() }) == interface_call(
            old(state).env(),
            *e,
            want_value,
            old(state).scope(),
        ),
    decreases depth(old(state).env()), e, 0nat, 4nat,
{
    let ctx = state.ctx;
    match e {
        Expr::MethodCall(receiver, method, args) => {
            let def = match interface_target(receiver, ctx) {
                Some(def) => def,
                None => return Code::fault(ErrorKind::UnsupportedCall),
            };
            match &**receiver {
                Expr::Call(_, targets) => {
                    let callee = match def.methods.get(method) {
                        Some(callee) => callee,
                        None => return Code::error(
                            CompileError {
                                kind: ErrorKind::UnknownInterfaceMethod,
                                subject: method.clone(),
                            },
                        ),
                    };
                    if targets.len() != 1 || args.len() != callee.params.len() {
                        return Code::fault(ErrorKind::WrongArgumentCount);
                    }
                    if !are_words(&callee.params) || !is_word_result(callee.output) {
                        return Code::fault(ErrorKind::InterfaceWords);
                    }
                    if want_value && callee.output.is_none() {
                        return Code::fault(ErrorKind::InterfaceVoid);
                    }
                    let mut code = lower_expression(&targets[0], state);
                    let base = match state.alloc_calldata(args.len()) {
                        Some(base) => base,
                        None => return Code::fault(ErrorKind::TooManyLocals),
                    };
                    let ghost target = code@;
                    let selector = Builder.selector(callee.sig.as_str());
                    code.program.push_bytes(selector.as_slice());
                    code.push(base as u64);
                    code.add_op(Op::MStore);
                    assert(code@ =~= target.with_code(selector_code(callee.sig@, base)));
                    let bound = lower_foreign_arguments(args, base, state);
                    code.append(bound);
                    push_foreign_call(&mut code, base, args.len(), callee.mutable, want_value);
                    code.append(guard());
                    let ghost guarded = code@;
                    if want_value {
                        code.push(0);
                        code.add_op(Op::MLoad);
                        assert(code@ =~= guarded.with_code(seq![push_number(0), Op::MLoad@]));
                    } else {
                        assert(code@ =~= guarded.with_code(Seq::empty()));
                    }
                    code
                },
                _ => Code::fault(ErrorKind::UnsupportedCall),
            }
        },
        _ => Code::fault(ErrorKind::UnsupportedCall),
    }
}

/// Makes the parameters of a function known to the state. A word is read from the call data where
/// it is used. A string is decoded at once, into a local variable.
fn lower_function_params<'a>(params: &Vec<Param<'a>>, state: &mut Lower<'a>) -> (r: Code)
    ensures
        final(state).env() == old(state).env(),
        (Lowered { code: r@, scope: final(state).scope() }) == function_params(
            parameters(params@),
            params@.len(),
            old(state).scope(),
        ),
{
    let ghost env = state.env();
    let ghost scope = state.scope();
    let ghost ps = parameters(params@);
    let mut code = Code::new();
    let mut i: usize = 0;
    while i < params.len()
        invariant
            i <= params@.len(),
            ps == parameters(params@),
            state.env() == env,
            (Lowered { code: code@, scope: state.scope() }) == function_params(
                ps,
                i as nat,
                scope,
            ),
        decreases params@.len() - i,
    {
        assert(ps[i as int] == params@[i as int]@);
        let name = params[i].name;
        if i > 0x7FF_FFFF {
            code.append(Code::fault(ErrorKind::TooManyLocals));
        } else {
            let head: u32 = 4 + 32 * i as u32;
            if is_short_string_ty(params[i].ty) {
                match state.alloc_local() {
                    Some(slot) => {
                        state.locals.insert(name.clone(), slot);
                        let mut part = Code::new();
                        part.program.decode_short_string_param(head, slot);
                        assert(part@ =~= Fragment::of(
                            decode_short_string_param_code(head as nat, slot as nat, 0),
                            1,
                        ));
                        code.append(part);
                    },
                    None => code.append(Code::fault(ErrorKind::TooManyLocals)),
                }
            } else {
                state.param_offsets.insert(name.clone(), head);
            }
        }
        i += 1;
    }
    code
}

/// Whether the types are those of single words.
fn are_word_types(types: &Vec<Type>) -> (r: bool)
    ensures
        r == word_types(types@),
{
    let mut i: usize = 0;
    while i < types.len()
        invariant
            i <= types@.len(),
            forall|j: int| #![trigger types@[j]] 0 <= j < i ==> !short_string_type(types@[j]),
        decreases types@.len() - i,
    {
        if is_short_string_ty(&types[i]) {
            return false;
        }
        i += 1;
    }
    true
}

/// Whether a result that is a tuple has words as its components.
fn is_tuple_of_words(output: &Option<Type>) -> (r: bool)
    ensures
        r == tuple_of_words(*output),
{
    match output {
        Some(Type::Tuple(types)) => are_word_types(types),
        _ => true,
    }
}

/// Compiles the body of an external function.
pub fn lower_block<'a>(
    stmts: &Vec<Stmt>,
    output: &Option<Type>,
    ctx: &'a Ctx<'a>,
    params: &Vec<Param<'a>>,
) -> (r: Code)
    ensures
        r@ == function_code(ctx@, parameters(params@), *output, stmts@),
{
    if !is_tuple_of_words(output) {
        return Code::fault(ErrorKind::TupleWords);
    }
    let mut state = Lower::new(ctx, returns_string(output));
    let mut code = lower_function_params(params, &mut state);
    let returning = has_result(output);
    let tail = if returning {
        Tail::Return
    } else {
        Tail::Void
    };
    let body = lower_stmts(stmts, &mut state, tail);
    code.append(body);
    if !returning {
        code.add_op(Op::Stop);
    }
    code
}

/// The number of strings among the parameters.
fn count_strings<'a>(params: &Vec<Param<'a>>) -> (r: usize)
    ensures
        r == string_count(parameters(params@), params@.len()),
        r <= params@.len(),
{
    let ghost ps = parameters(params@);
    let mut count: usize = 0;
    let mut i: usize = 0;
    while i < params.len()
        invariant
            i <= params@.len(),
            ps == parameters(params@),
            count == string_count(ps, i as nat),
            count <= i,
        decreases params@.len() - i,
    {
        assert(ps[i as int] == params@[i as int]@);
        if is_short_string_ty(params[i].ty) {
            count += 1;
        }
        i += 1;
    }
    count
}

proof fn lemma_string_count_monotone(params: Seq<Parameter>, k: nat, n: nat)
    requires
        k <= n,
    ensures
        string_count(params, k) <= string_count(params, n),
    decreases n,
{
    if k < n {
        lemma_string_count_monotone(params, k, (n - 1) as nat);
    }
}

/// Copies the arguments of a constructor, which follow its code, into local variables.
fn lower_constructor_params<'a>(params: &Vec<Param<'a>>, state: &mut Lower<'a>) -> (r: Code)
    requires
        params@.len() <= max_constructor_params(),
    ensures
        final(state).env() == old(state).env(),
        (Lowered { code: r@, scope: final(state).scope() }) == constructor_params(
            parameters(params@),
            params@.len(),
            old(state).scope(),
        ),
{
    let ghost env = state.env();
    let ghost scope = state.scope();
    let ghost ps = parameters(params@);
    let strings = count_strings(params);
    let total_len: u64 = 32 * params.len() as u64 + 64 * strings as u64;
    let mut seen: usize = 0;
    let mut code = Code::new();
    let mut i: usize = 0;
    while i < params.len()
        invariant
            i <= params@.len() <= max_constructor_params(),
            ps == parameters(params@),
            strings == string_count(ps, ps.len()),
            strings <= params@.len(),
            total_len == arguments_len(ps),
            seen == string_count(ps, i as nat),
            seen <= i,
            state.env() == env,
            (Lowered { code: code@, scope: state.scope() }) == constructor_params(
                ps,
                i as nat,
                scope,
            ),
        decreases params@.len() - i,
    {
        assert(ps[i as int] == params@[i as int]@);
        proof {
            lemma_string_count_monotone(ps, (i + 1) as nat, ps.len());
        }
        let name = params[i].name;
        let is_string = is_short_string_ty(params[i].ty);
        match state.alloc_local() {
            Some(slot) => {
                state.locals.insert(name.clone(), slot);
                if is_string {
                    let len_back: u32 = 64 * (strings - seen) as u32;
                    let data_back: u32 = len_back - 32;
                    let mut part = Code::new();
                    part.program.decode_short_string_constructor_arg(len_back, data_back, slot);
                    assert(part@ =~= Fragment::of(
                        decode_short_string_constructor_arg_code(
                            len_back as nat,
                            data_back as nat,
                            slot as nat,
                            0,
                        ),
                        1,
                    ));
                    code.append(part);
                } else {
                    let back: u64 = total_len - 32 * i as u64;
                    let ghost before = code@;
                    code.program.push_word(Word::from_u64(32));
                    code.program.push_word(Word::from_u64(back));
                    code.program.code_size();
                    code.program.sub();
                    code.program.push_word(Word::from_u64(slot as u64));
                    code.program.code_copy();
                    assert(code@ =~= before.with_code(
                        copy_argument_code(back as nat, slot as nat),
                    ));
                }
            },
            None => code.append(Code::fault(ErrorKind::TooManyLocals)),
        }
        if is_string {
            seen += 1;
        }
        i += 1;
    }
    code
}

/// Compiles the body of a constructor. The arguments are appended to the creation code when the
/// contract is deployed. The code runs in place at offset zero, and does not halt.
pub fn lower_constructor<'a>(
    stmts: &Vec<Stmt>,
    params: &Vec<Param<'a>>,
    ctx: &'a Ctx<'a>,
) -> (r: Code)
    ensures
        r@ == constructor_code(ctx@, parameters(params@), stmts@),
{
    if params.len() > 0x3FF_FFFF {
        return Code::fault(ErrorKind::TooManyLocals);
    }
    let mut state = Lower::new(ctx, false);
    let mut code = lower_constructor_params(params, &mut state);
    let body = lower_stmts(stmts, &mut state, Tail::Void);
    code.append(body);
    code
}

} // verus!
