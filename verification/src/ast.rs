//! The syntax of a contract module, as far as the compiler reads it.

use vstd::prelude::*;

verus! {

/// A type.
#[derive(Debug)]
pub enum Type {
    /// A path: the name of its last segment, and the types between its angle brackets.
    Path(String, Vec<Type>),
    /// A tuple of types.
    Tuple(Vec<Type>),
    /// Any other type.
    Other,
}

/// A binary operator.
#[derive(Debug, Clone, Copy, PartialEq, Eq, Structural)]
pub enum BinOp {
    Add,
    Sub,
    Mul,
    Div,
    Rem,
    Shl,
    Lt,
    Gt,
    Eq,
    Ne,
    Le,
    Ge,
    Other,
}

/// The field that a field access or a struct literal names.
#[derive(Debug)]
pub enum Member {
    Named(String),
    Unnamed,
}

/// A pattern.
#[derive(Debug)]
pub enum Pat {
    /// A name.
    Ident(String),
    /// A pattern with a type.
    Typed(Box<Pat>),
    /// Any other pattern.
    Other,
}

/// An expression.
#[derive(Debug)]
pub enum Expr {
    /// An integer literal. `None` if it needs more than 64 bits.
    Int(Option<u64>),
    /// A boolean literal.
    Bool(bool),
    /// A string literal.
    Str(String),
    /// A path that is a single plain name.
    Ident(String),
    /// Any other path: the names of its segments.
    Path(Vec<String>),
    /// `base.member`.
    Field(Box<Expr>, Member),
    /// `receiver.method(args)`.
    MethodCall(Box<Expr>, String, Vec<Expr>),
    /// `func(args)`.
    Call(Box<Expr>, Vec<Expr>),
    /// `left op right`.
    Binary(BinOp, Box<Expr>, Box<Expr>),
    /// `(inner)`.
    Paren(Box<Expr>),
    /// `(a, b, ..)`.
    Tuple(Vec<Expr>),
    /// `left = right`.
    Assign(Box<Expr>, Box<Expr>),
    /// `if cond { .. }`, with what comes after `else`, where there is one.
    If(Box<Expr>, Vec<Stmt>, Option<Box<Expr>>),
    /// `while cond { .. }`.
    While(Box<Expr>, Vec<Stmt>),
    /// `{ .. }`.
    Block(Vec<Stmt>),
    /// `Name { member: value, .. }`: the last segment of the path, and the fields.
    Struct(String, Vec<FieldValue>),
    /// Any other expression.
    Other,
}

/// A field of a struct literal.
#[derive(Debug)]
pub struct FieldValue {
    pub member: Member,
    pub value: Expr,
}

/// A statement.
#[derive(Debug)]
pub enum Stmt {
    /// An expression, and whether a semicolon follows.
    Expr(Expr, bool),
    /// `let pat = init;`.
    Local(Pat, Option<Expr>),
    /// Any other statement.
    Other,
}

/// A parameter of a function.
#[derive(Debug)]
pub enum FnArg {
    /// `self`, `&self` or `&mut self`, and whether it is mutable.
    Receiver(bool),
    /// `pat: type`.
    Typed(Pat, Type),
}

/// A function with a body.
#[derive(Debug)]
pub struct Method {
    /// The attributes whose path is a single name.
    pub attrs: Vec<String>,
    pub name: String,
    pub inputs: Vec<FnArg>,
    /// The return type, `None` if there is none.
    pub output: Option<Type>,
    pub block: Vec<Stmt>,
}

/// A function of a trait.
#[derive(Debug)]
pub struct Signature {
    pub name: String,
    pub inputs: Vec<FnArg>,
    pub output: Option<Type>,
}

/// A field of a struct.
#[derive(Debug)]
pub struct StructField {
    pub attrs: Vec<String>,
    /// `None` for a field of a tuple struct.
    pub name: Option<String>,
    pub ty: Type,
}

/// An item of a module.
#[derive(Debug)]
pub enum Item {
    /// A struct: its attributes, name and fields.
    Struct(Vec<String>, String, Vec<StructField>),
    /// An impl block: its functions.
    Impl(Vec<Method>),
    /// A trait: its attributes, name and functions.
    Trait(Vec<String>, String, Vec<Signature>),
    /// Any other item.
    Other,
}

} // verus!
