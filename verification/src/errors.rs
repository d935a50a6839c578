//! The faults that the compiler reports.

use vstd::prelude::*;

verus! {

/// What is wrong.
#[derive(Debug, Clone, Copy, PartialEq, Eq, Structural)]
pub enum ErrorKind {
    /// A statement that the compiler has no code for.
    UnsupportedStatement,
    /// An expression whose value nobody takes.
    ValueAsStatement,
    /// An internal function that calls itself, directly or through others.
    RecursiveCall,
    /// A call with more or fewer arguments than the function has parameters.
    WrongArgumentCount,
    /// An assignment to something other than a storage field or a local variable.
    AssignmentTarget,
    /// An `insert` without exactly a key and a value.
    InsertArguments,
    /// An `insert` into something other than a mapping.
    InsertReceiver,
    /// A `set` on something other than an array field.
    SetReceiver,
    /// A `set` without exactly an index and a value.
    SetArguments,
    /// A `push` on something other than an array field.
    PushReceiver,
    /// A `push` without exactly one value.
    PushArguments,
    /// An `emit` of something other than a struct literal.
    EmitArgument,
    /// An `emit` of a struct that is no event.
    UnknownEvent,
    /// An event literal that lacks the field that the subject names.
    MissingEventField,
    /// A `let` without a value.
    LocalWithoutValue,
    /// An expression that the compiler has no code for.
    UnsupportedExpression,
    /// A `get` whose value is itself a mapping or an array.
    GetNotScalar,
    /// A `get` without exactly one argument.
    GetArguments,
    /// A `get` on a scalar.
    GetReceiver,
    /// A storage access that is no field and no `get`.
    StorageAccess,
    /// A field without a name.
    TupleField,
    /// A field that the storage does not have.
    UnknownField,
    /// An array operation on something other than a field of `self`.
    NotSelfField,
    /// A `len` of something other than an array field.
    LenReceiver,
    /// An operator that the compiler has no code for.
    UnsupportedOperator,
    /// A name, the subject, that is neither a local variable nor a parameter.
    UnknownIdentifier,
    /// A call that the compiler has no code for.
    UnsupportedCall,
    /// A `require` or an `emit` without an argument.
    MissingArgument,
    /// An integer literal that needs more than 64 bits.
    LiteralTooLarge,
    /// A string literal of more than 31 bytes. The subject is its number of bytes.
    ShortStringTooLong,
    /// A `let` with a pattern that is no name.
    LetPattern,
    /// A parameter with a pattern that is no name.
    ArgumentPattern,
    /// A type that is no path, where the contract ABI needs one.
    UnsupportedType,
    /// A type, the subject, that the contract ABI has no name for.
    UnsupportedParameterType,
    /// A storage field whose type is no path.
    FieldKindType,
    /// A second constructor.
    SecondConstructor,
    /// A method, the subject, that the interface does not have.
    UnknownInterfaceMethod,
    /// An interface method with a parameter or a result that is no single word.
    InterfaceWords,
    /// The value of an interface method that returns none.
    InterfaceVoid,
    /// A tuple return with a component that is no single word.
    TupleWords,
    /// More local variables than memory addresses of 32 bits.
    TooManyLocals,
    /// More jump targets than labels.
    TooManyLabels,
    /// Code of more than 65535 bytes.
    CodeTooLarge,
}

/// A fault in a contract: what is wrong, and what it is about, where the message says so.
#[derive(Debug)]
pub struct CompileError {
    pub kind: ErrorKind,
    pub subject: String,
}

/// The mathematical form of a fault.
pub struct Fault {
    pub kind: ErrorKind,
    pub subject: Seq<char>,
}

impl View for CompileError {
    type V = Fault;

    open spec fn view(&self) -> Fault {
        Fault { kind: self.kind, subject: self.subject@ }
    }
}

/// A fault that is about nothing in particular.
pub open spec fn plain_fault(kind: ErrorKind) -> Fault {
    Fault { kind, subject: Seq::empty() }
}

/// The part of a message before the subject.
pub open spec fn message_head(kind: ErrorKind) -> Seq<char> {
    match kind {
        ErrorKind::UnsupportedStatement => "rulidity: unsupported statement"@,
        ErrorKind::ValueAsStatement => "Rulidity: unsupported statement"@,
        ErrorKind::RecursiveCall => "Rulidity: recursive internal calls are not supported"@,
        ErrorKind::WrongArgumentCount => "Rulidity: wrong number of arguments"@,
        ErrorKind::AssignmentTarget => "rulidity: unsupported assignment target"@,
        ErrorKind::InsertArguments => "rulidity: insert takes (key, value)"@,
        ErrorKind::InsertReceiver => "rulidity: .insert() is only valid on a Mapping"@,
        ErrorKind::SetReceiver => "rulidity: .set() is only valid on an Array field"@,
        ErrorKind::SetArguments => "rulidity: set takes (index, value)"@,
        ErrorKind::PushReceiver => "rulidity: .push() is only valid on an Array field"@,
        ErrorKind::PushArguments => "rulidity: push takes (value)"@,
        ErrorKind::EmitArgument => "Invalid emit argument"@,
        ErrorKind::UnknownEvent => "Unknown event"@,
        ErrorKind::MissingEventField => "rulidity: missing event field `"@,
        ErrorKind::LocalWithoutValue => "Unsupported local expression"@,
        ErrorKind::UnsupportedExpression => "rulidity: unsupported expression"@,
        ErrorKind::GetNotScalar => "rulidity: .get() must resolve to a scalar value to read"@,
        ErrorKind::GetArguments => "rulidity: get takes one argument"@,
        ErrorKind::GetReceiver => "rulidity: .get() is only valid on a Mapping or Array"@,
        ErrorKind::StorageAccess => "rulidity: unsupported storage access"@,
        ErrorKind::TupleField => "tuple fields not supported"@,
        ErrorKind::UnknownField => "unknown storage field"@,
        ErrorKind::NotSelfField => "expected self.<field>"@,
        ErrorKind::LenReceiver => "rulidity: .len() is only valid on an Array field"@,
        ErrorKind::UnsupportedOperator => "rulidity: unsupported operator"@,
        ErrorKind::UnknownIdentifier => "unknown identifier "@,
        ErrorKind::UnsupportedCall => "rulidity: unsupported call"@,
        ErrorKind::MissingArgument => "rulidity: missing argument"@,
        ErrorKind::LiteralTooLarge => "number too large to fit in target type"@,
        ErrorKind::ShortStringTooLong => "Short-string literals are max 31 bytes, got "@,
        ErrorKind::LetPattern => "Unsupported let pattern"@,
        ErrorKind::ArgumentPattern => "invalid arg identifier"@,
        ErrorKind::UnsupportedType => "Unsupported type"@,
        ErrorKind::UnsupportedParameterType => "Unsupported parameter type "@,
        ErrorKind::FieldKindType => "This type cannot be converted to FieldKind"@,
        ErrorKind::SecondConstructor => "Only one constructor is allowed"@,
        ErrorKind::UnknownInterfaceMethod => "rulidity: unknown interface method "@,
        ErrorKind::InterfaceWords => "rulidity: interface methods take and return words only"@,
        ErrorKind::InterfaceVoid => "rulidity: interface method returns no value"@,
        ErrorKind::TupleWords => "rulidity: tuple returns hold words only"@,
        ErrorKind::TooManyLocals => "rulidity: too many local variables"@,
        ErrorKind::TooManyLabels => "rulidity: too many jump targets"@,
        ErrorKind::CodeTooLarge => "rulidity: code is larger than 65535 bytes"@,
    }
}

/// The message of a fault.
pub open spec fn message(fault: Fault) -> Seq<char> {
    match fault.kind {
        ErrorKind::MissingEventField => message_head(fault.kind) + fault.subject + "`"@,
        ErrorKind::UnknownIdentifier => message_head(fault.kind) + fault.subject,
        ErrorKind::ShortStringTooLong => message_head(fault.kind) + fault.subject,
        ErrorKind::UnsupportedParameterType => message_head(fault.kind) + fault.subject,
        ErrorKind::UnknownInterfaceMethod => message_head(fault.kind) + fault.subject,
        _ => message_head(fault.kind),
    }
}

impl CompileError {
    /// A fault that is about nothing in particular.
    pub fn plain(kind: ErrorKind) -> (r: CompileError)
        ensures
            r@ == plain_fault(kind),
    {
        CompileError { kind, subject: String::new() }
    }

    /// The part of the message before the subject.
    fn head(&self) -> (r: String)
        ensures
            r@ == message_head(self.kind),
    {
        let text = match self.kind {
            ErrorKind::UnsupportedStatement => "rulidity: unsupported statement",
            ErrorKind::ValueAsStatement => "Rulidity: unsupported statement",
            ErrorKind::RecursiveCall => "Rulidity: recursive internal calls are not supported",
            ErrorKind::WrongArgumentCount => "Rulidity: wrong number of arguments",
            ErrorKind::AssignmentTarget => "rulidity: unsupported assignment target",
            ErrorKind::InsertArguments => "rulidity: insert takes (key, value)",
            ErrorKind::InsertReceiver => "rulidity: .insert() is only valid on a Mapping",
            ErrorKind::SetReceiver => "rulidity: .set() is only valid on an Array field",
            ErrorKind::SetArguments => "rulidity: set takes (index, value)",
            ErrorKind::PushReceiver => "rulidity: .push() is only valid on an Array field",
            ErrorKind::PushArguments => "rulidity: push takes (value)",
            ErrorKind::EmitArgument => "Invalid emit argument",
            ErrorKind::UnknownEvent => "Unknown event",
            ErrorKind::MissingEventField => "rulidity: missing event field `",
            ErrorKind::LocalWithoutValue => "Unsupported local expression",
            ErrorKind::UnsupportedExpression => "rulidity: unsupported expression",
            ErrorKind::GetNotScalar => "rulidity: .get() must resolve to a scalar value to read",
            ErrorKind::GetArguments => "rulidity: get takes one argument",
            ErrorKind::GetReceiver => "rulidity: .get() is only valid on a Mapping or Array",
            ErrorKind::StorageAccess => "rulidity: unsupported storage access",
            ErrorKind::TupleField => "tuple fields not supported",
            ErrorKind::UnknownField => "unknown storage field",
            ErrorKind::NotSelfField => "expected self.<field>",
            ErrorKind::LenReceiver => "rulidity: .len() is only valid on an Array field",
            ErrorKind::UnsupportedOperator => "rulidity: unsupported operator",
            ErrorKind::UnknownIdentifier => "unknown identifier ",
            ErrorKind::UnsupportedCall => "rulidity: unsupported call",
            ErrorKind::MissingArgument => "rulidity: missing argument",
            ErrorKind::LiteralTooLarge => "number too large to fit in target type",
            ErrorKind::ShortStringTooLong => "Short-string literals are max 31 bytes, got ",
            ErrorKind::LetPattern => "Unsupported let pattern",
            ErrorKind::ArgumentPattern => "invalid arg identifier",
            ErrorKind::UnsupportedType => "Unsupported type",
            ErrorKind::UnsupportedParameterType => "Unsupported parameter type ",
            ErrorKind::FieldKindType => "This type cannot be converted to FieldKind",
            ErrorKind::SecondConstructor => "Only one constructor is allowed",
            ErrorKind::UnknownInterfaceMethod => "rulidity: unknown interface method ",
            ErrorKind::InterfaceWords => "rulidity: interface methods take and return words only",
            ErrorKind::InterfaceVoid => "rulidity: interface method returns no value",
            ErrorKind::TupleWords => "rulidity: tuple returns hold words only",
            ErrorKind::TooManyLocals => "rulidity: too many local variables",
            ErrorKind::TooManyLabels => "rulidity: too many jump targets",
            ErrorKind::CodeTooLarge => "rulidity: code is larger than 65535 bytes",
        };
        text.to_owned()
    }

    /// The message of the fault.
    pub fn message(&self) -> (r: String)
        ensures
            r@ == message(self@),
    {
        let mut text = self.head();
        match self.kind {
            ErrorKind::MissingEventField => {
                text.append(self.subject.as_str());
                text.append("`");
            },
            ErrorKind::UnknownIdentifier => text.append(self.subject.as_str()),
            ErrorKind::ShortStringTooLong => text.append(self.subject.as_str()),
            ErrorKind::UnsupportedParameterType => text.append(self.subject.as_str()),
            ErrorKind::UnknownInterfaceMethod => text.append(self.subject.as_str()),
            _ => {},
        }
        text
    }
}

} // verus!
