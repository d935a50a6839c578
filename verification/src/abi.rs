//! The contract ABI: the names of types, signatures, and the description in JSON.

use vstd::prelude::*;

use crate::ast::{FnArg, Pat, Type};
use crate::errors::{plain_fault, CompileError, ErrorKind, Fault};
use crate::model::FieldKind;
use crate::text::{is_text, join, joined, texts};

verus! {

/// A parameter of a function, or a field of an event: its name and its type.
#[derive(Debug, Clone, Copy)]
pub struct Param<'a> {
    pub name: &'a String,
    pub ty: &'a Type,
}

/// The mathematical form of a parameter.
pub struct Parameter {
    pub name: Seq<char>,
    pub ty: Type,
}

impl<'a> View for Param<'a> {
    type V = Parameter;

    open spec fn view(&self) -> Parameter {
        Parameter { name: self.name@, ty: *self.ty }
    }
}

/// The mathematical form of a list of parameters.
pub open spec fn parameters<'a>(params: Seq<Param<'a>>) -> Seq<Parameter> {
    params.map_values(|p: Param<'a>| p@)
}

/// The result of a computation that may meet a fault.
pub open spec fn viewed_error<T>(r: Result<T, CompileError>) -> Result<T, Fault> {
    match r {
        Ok(t) => Ok(t),
        Err(e) => Err(e@),
    }
}

/// What the first `k` arguments of a function give: a parameter for each that has a type. The
/// receiver is left out. An argument whose pattern is no name is a fault.
pub open spec fn params_prefix(inputs: Seq<FnArg>, k: nat) -> Result<Seq<Parameter>, Fault>
    decreases k,
{
    if k == 0 {
        Ok(Seq::empty())
    } else {
        match params_prefix(inputs, (k - 1) as nat) {
            Err(fault) => Err(fault),
            Ok(params) => match inputs[k - 1] {
                FnArg::Receiver(_) => Ok(params),
                FnArg::Typed(Pat::Ident(name), ty) => Ok(
                    params.push(Parameter { name: name@, ty }),
                ),
                FnArg::Typed(_, _) => Err(plain_fault(ErrorKind::ArgumentPattern)),
            },
        }
    }
}

/// The parameters of a function.
pub open spec fn params_spec(inputs: Seq<FnArg>) -> Result<Seq<Parameter>, Fault> {
    params_prefix(inputs, inputs.len())
}

/// The parameters of a function.
pub fn params_of<'a>(inputs: &'a Vec<FnArg>) -> (r: Result<Vec<Param<'a>>, CompileError>)
    ensures
        match r {
            Ok(params) => params_spec(inputs@) == Ok::<_, Fault>(parameters(params@)),
            Err(e) => params_spec(inputs@) == Err::<Seq<Parameter>, Fault>(e@),
        },
{
    let mut params: Vec<Param<'a>> = Vec::new();
    let mut i: usize = 0;
    assert(parameters(params@) =~= Seq::empty());
    while i < inputs.len()
        invariant
            i <= inputs@.len(),
            params_prefix(inputs@, i as nat) == Ok::<_, Fault>(parameters(params@)),
        decreases inputs@.len() - i,
    {
        let ghost before = params@;
        match &inputs[i] {
            FnArg::Receiver(_) => {},
            FnArg::Typed(pat, ty) => match pat {
                Pat::Ident(name) => {
                    params.push(Param { name, ty });
                    assert(parameters(params@) =~= parameters(before).push(
                        Parameter { name: name@, ty: *ty },
                    ));
                },
                _ => {
                    let e = CompileError::plain(ErrorKind::ArgumentPattern);
                    proof {
                        lemma_params_prefix_err(inputs@, (i + 1) as nat, inputs@.len(), e@);
                    }
                    return Err(e);
                },
            },
        }
        i += 1;
    }
    Ok(params)
}

/// A fault in a prefix is a fault of the whole.
proof fn lemma_params_prefix_err(inputs: Seq<FnArg>, k: nat, n: nat, fault: Fault)
    requires
        k <= n,
        params_prefix(inputs, k) == Err::<Seq<Parameter>, Fault>(fault),
    ensures
        params_prefix(inputs, n) == Err::<Seq<Parameter>, Fault>(fault),
    decreases n,
{
    if k < n {
        lemma_params_prefix_err(inputs, k, (n - 1) as nat, fault);
    }
}

/// The name that the contract ABI has for a type.
pub open spec fn abi_type(ty: Type) -> Result<Seq<char>, Fault> {
    match ty {
        Type::Path(name, _) => if name@ == "U256"@ {
            Ok("uint256"@)
        } else if name@ == "Address"@ {
            Ok("address"@)
        } else if name@ == "bool"@ {
            Ok("bool"@)
        } else if name@ == "ShortString"@ {
            Ok("string"@)
        } else {
            Err(Fault { kind: ErrorKind::UnsupportedParameterType, subject: name@ })
        },
        _ => Err(plain_fault(ErrorKind::UnsupportedType)),
    }
}

/// Converts a type of the source language into one of the contract ABI.
pub fn abi_type_of(ty: &Type) -> (r: Result<String, CompileError>)
    ensures
        match r {
            Ok(text) => abi_type(*ty) == Ok::<_, Fault>(text@),
            Err(e) => abi_type(*ty) == Err::<Seq<char>, Fault>(e@),
        },
{
    match ty {
        Type::Path(name, _) => {
            if is_text(name, "U256") {
                Ok("uint256".to_owned())
            } else if is_text(name, "Address") {
                Ok("address".to_owned())
            } else if is_text(name, "bool") {
                Ok("bool".to_owned())
            } else if is_text(name, "ShortString") {
                Ok("string".to_owned())
            } else {
                Err(
                    CompileError {
                        kind: ErrorKind::UnsupportedParameterType,
                        subject: name.clone(),
                    },
                )
            }
        },
        _ => Err(CompileError::plain(ErrorKind::UnsupportedType)),
    }
}

/// The ABI names of the types of the first `k` parameters.
pub open spec fn abi_types(params: Seq<Parameter>, k: nat) -> Result<Seq<Seq<char>>, Fault>
    decreases k,
{
    if k == 0 {
        Ok(Seq::empty())
    } else {
        match abi_types(params, (k - 1) as nat) {
            Err(fault) => Err(fault),
            Ok(types) => match abi_type(params[k - 1].ty) {
                Err(fault) => Err(fault),
                Ok(text) => Ok(types.push(text)),
            },
        }
    }
}

/// The signature of a function or an event: its name, and the types of its parameters.
pub open spec fn signature(name: Seq<char>, params: Seq<Parameter>) -> Result<Seq<char>, Fault> {
    match abi_types(params, params.len()) {
        Err(fault) => Err(fault),
        Ok(types) => Ok(name + "("@ + joined(types, ","@) + ")"@),
    }
}

proof fn lemma_abi_types_err(params: Seq<Parameter>, k: nat, n: nat, fault: Fault)
    requires
        k <= n,
        abi_types(params, k) == Err::<Seq<Seq<char>>, Fault>(fault),
    ensures
        abi_types(params, n) == Err::<Seq<Seq<char>>, Fault>(fault),
    decreases n,
{
    if k < n {
        lemma_abi_types_err(params, k, (n - 1) as nat, fault);
    }
}

/// The signature of a function or an event. `fn transfer(&mut self, to: Address, value: U256)`
/// has the signature `transfer(address,uint256)`.
pub fn signature_string<'a>(name: &String, params: &Vec<Param<'a>>) -> (r: Result<
    String,
    CompileError,
>)
    ensures
        match r {
            Ok(text) => signature(name@, parameters(params@)) == Ok::<_, Fault>(text@),
            Err(e) => signature(name@, parameters(params@)) == Err::<Seq<char>, Fault>(e@),
        },
{
    let ghost ps = parameters(params@);
    let mut types: Vec<String> = Vec::new();
    let mut i: usize = 0;
    assert(texts(types@) =~= Seq::empty());
    while i < params.len()
        invariant
            i <= params@.len(),
            ps == parameters(params@),
            abi_types(ps, i as nat) == Ok::<_, Fault>(texts(types@)),
        decreases params@.len() - i,
    {
        let ghost before = types@;
        assert(ps[i as int] == params@[i as int]@);
        match abi_type_of(params[i].ty) {
            Ok(text) => {
                types.push(text);
                assert(texts(types@) =~= texts(before).push(text@));
            },
            Err(e) => {
                proof {
                    lemma_abi_types_err(ps, (i + 1) as nat, ps.len(), e@);
                }
                return Err(e);
            },
        }
        i += 1;
    }
    let args = join(&types, ",");
    let mut text = name.clone();
    text.append("(");
    text.append(args.as_str());
    text.append(")");
    Ok(text)
}

/// What a storage field of the given type holds.
pub open spec fn field_kind(ty: Type) -> Result<FieldKind, Fault> {
    match ty {
        Type::Path(name, _) => Ok(
            if name@ == "Mapping"@ {
                FieldKind::Mapping
            } else if name@ == "Array"@ {
                FieldKind::Array
            } else {
                FieldKind::Scalar
            },
        ),
        _ => Err(plain_fault(ErrorKind::FieldKindType)),
    }
}

/// What a storage field of the given type holds.
pub fn field_kind_of(ty: &Type) -> (r: Result<FieldKind, CompileError>)
    ensures
        viewed_error(r) == field_kind(*ty),
{
    match ty {
        Type::Path(name, _) => {
            if is_text(name, "Mapping") {
                Ok(FieldKind::Mapping)
            } else if is_text(name, "Array") {
                Ok(FieldKind::Array)
            } else {
                Ok(FieldKind::Scalar)
            }
        },
        _ => Err(CompileError::plain(ErrorKind::FieldKindType)),
    }
}

/// Whether a function can write: its first argument is `&mut self`.
pub open spec fn mut_receiver(inputs: Seq<FnArg>) -> bool {
    inputs.len() > 0 && inputs[0] == FnArg::Receiver(true)
}

/// Whether a function can write: its first argument is `&mut self`.
pub fn is_mut_receiver(inputs: &Vec<FnArg>) -> (r: bool)
    ensures
        r == mut_receiver(inputs@),
{
    if inputs.len() == 0 {
        return false;
    }
    match &inputs[0] {
        FnArg::Receiver(mutable) => *mutable,
        _ => false,
    }
}

/// A truth value in JSON.
pub open spec fn bool_text(b: bool) -> Seq<char> {
    if b {
        "true"@
    } else {
        "false"@
    }
}

/// A parameter in JSON, given the ABI name of its type. Parameters of events say whether they are
/// indexed.
pub open spec fn param_object(name: Seq<char>, abi_name: Seq<char>, indexed: Option<bool>) -> Seq<
    char,
> {
    "{\"name\":\""@ + name + "\",\"type\":\""@ + abi_name + "\","@ + (match indexed {
        Some(b) => "\"indexed\":"@ + bool_text(b) + ","@,
        None => Seq::empty(),
    }) + "\"internalType\":\""@ + abi_name + "\"}"@
}

/// A parameter in JSON.
pub open spec fn param_json(name: Seq<char>, ty: Type, indexed: Option<bool>) -> Result<
    Seq<char>,
    Fault,
> {
    match abi_type(ty) {
        Err(fault) => Err(fault),
        Ok(abi_name) => Ok(param_object(name, abi_name, indexed)),
    }
}

/// A parameter in JSON.
pub fn abi_param_json(name: &str, ty: &Type, indexed: Option<bool>) -> (r: Result<
    String,
    CompileError,
>)
    ensures
        match r {
            Ok(text) => param_json(name@, *ty, indexed) == Ok::<_, Fault>(text@),
            Err(e) => param_json(name@, *ty, indexed) == Err::<Seq<char>, Fault>(e@),
        },
{
    let abi_name = match abi_type_of(ty) {
        Ok(t) => t,
        Err(e) => return Err(e),
    };
    let mut text = "{\"name\":\"".to_owned();
    text.append(name);
    text.append("\",\"type\":\"");
    text.append(abi_name.as_str());
    text.append("\",");
    let ghost so_far = text@;
    match indexed {
        Some(b) => {
            text.append("\"indexed\":");
            text.append(if b { "true" } else { "false" });
            text.append(",");
            assert(text@ =~= so_far + ("\"indexed\":"@ + bool_text(b) + ","@));
        },
        None => {
            assert(text@ =~= so_far + Seq::empty());
        },
    }
    text.append("\"internalType\":\"");
    text.append(abi_name.as_str());
    text.append("\"}");
    Ok(text)
}

/// The first `k` parameters in JSON.
pub open spec fn param_objects(params: Seq<Parameter>, k: nat) -> Result<Seq<Seq<char>>, Fault>
    decreases k,
{
    if k == 0 {
        Ok(Seq::empty())
    } else {
        match param_objects(params, (k - 1) as nat) {
            Err(fault) => Err(fault),
            Ok(parts) => match param_json(params[k - 1].name, params[k - 1].ty, None) {
                Err(fault) => Err(fault),
                Ok(text) => Ok(parts.push(text)),
            },
        }
    }
}

/// The parameters of a function in JSON.
pub open spec fn inputs_text(params: Seq<Parameter>) -> Result<Seq<char>, Fault> {
    match param_objects(params, params.len()) {
        Err(fault) => Err(fault),
        Ok(parts) => Ok(joined(parts, ","@)),
    }
}

proof fn lemma_param_objects_err(params: Seq<Parameter>, k: nat, n: nat, fault: Fault)
    requires
        k <= n,
        param_objects(params, k) == Err::<Seq<Seq<char>>, Fault>(fault),
    ensures
        param_objects(params, n) == Err::<Seq<Seq<char>>, Fault>(fault),
    decreases n,
{
    if k < n {
        lemma_param_objects_err(params, k, (n - 1) as nat, fault);
    }
}

/// The parameters of a function in JSON.
pub fn inputs_json<'a>(params: &Vec<Param<'a>>) -> (r: Result<String, CompileError>)
    ensures
        match r {
            Ok(text) => inputs_text(parameters(params@)) == Ok::<_, Fault>(text@),
            Err(e) => inputs_text(parameters(params@)) == Err::<Seq<char>, Fault>(e@),
        },
{
    let ghost ps = parameters(params@);
    let mut parts: Vec<String> = Vec::new();
    let mut i: usize = 0;
    assert(texts(parts@) =~= Seq::empty());
    while i < params.len()
        invariant
            i <= params@.len(),
            ps == parameters(params@),
            param_objects(ps, i as nat) == Ok::<_, Fault>(texts(parts@)),
        decreases params@.len() - i,
    {
        let ghost before = parts@;
        assert(ps[i as int] == params@[i as int]@);
        match abi_param_json(params[i].name.as_str(), params[i].ty, None) {
            Ok(text) => {
                parts.push(text);
                assert(texts(parts@) =~= texts(before).push(text@));
            },
            Err(e) => {
                proof {
                    lemma_param_objects_err(ps, (i + 1) as nat, ps.len(), e@);
                }
                return Err(e);
            },
        }
        i += 1;
    }
    Ok(join(&parts, ","))
}

/// Nameless values of the first `k` types in JSON.
pub open spec fn value_objects(types: Seq<Type>, k: nat) -> Result<Seq<Seq<char>>, Fault>
    decreases k,
{
    if k == 0 {
        Ok(Seq::empty())
    } else {
        match value_objects(types, (k - 1) as nat) {
            Err(fault) => Err(fault),
            Ok(parts) => match param_json(Seq::empty(), types[k - 1], None) {
                Err(fault) => Err(fault),
                Ok(text) => Ok(parts.push(text)),
            },
        }
    }
}

/// The results of a function in JSON: none, one, or those of a tuple, which may not be empty.
pub open spec fn outputs_text(output: Option<Type>) -> Result<Seq<char>, Fault> {
    match output {
        None => Ok(Seq::empty()),
        Some(Type::Tuple(types)) => if types@.len() == 0 {
            Err(plain_fault(ErrorKind::UnsupportedType))
        } else {
            match value_objects(types@, types@.len()) {
                Err(fault) => Err(fault),
                Ok(parts) => Ok(joined(parts, ","@)),
            }
        },
        Some(ty) => param_json(Seq::empty(), ty, None),
    }
}

proof fn lemma_value_objects_err(types: Seq<Type>, k: nat, n: nat, fault: Fault)
    requires
        k <= n,
        value_objects(types, k) == Err::<Seq<Seq<char>>, Fault>(fault),
    ensures
        value_objects(types, n) == Err::<Seq<Seq<char>>, Fault>(fault),
    decreases n,
{
    if k < n {
        lemma_value_objects_err(types, k, (n - 1) as nat, fault);
    }
}

/// The results of a function in JSON: none, one, or those of a tuple, which may not be empty.
pub fn outputs_json(output: &Option<Type>) -> (r: Result<String, CompileError>)
    ensures
        match r {
            Ok(text) => outputs_text(*output) == Ok::<_, Fault>(text@),
            Err(e) => outputs_text(*output) == Err::<Seq<char>, Fault>(e@),
        },
{
    proof {
        reveal_strlit("");
        assert(""@ =~= Seq::<char>::empty());
    }
    match output {
        None => Ok(String::new()),
        Some(Type::Tuple(types)) => {
            if types.len() == 0 {
                return Err(CompileError::plain(ErrorKind::UnsupportedType));
            }
            let mut parts: Vec<String> = Vec::new();
            let mut i: usize = 0;
            assert(texts(parts@) =~= Seq::empty());
            while i < types.len()
                invariant
                    i <= types@.len(),
                    ""@ == Seq::<char>::empty(),
                    output == Some(Type::Tuple(*types)),
                    value_objects(types@, i as nat) == Ok::<_, Fault>(texts(parts@)),
                decreases types@.len() - i,
            {
                let ghost before = parts@;
                match abi_param_json("", &types[i], None) {
                    Ok(text) => {
                        parts.push(text);
                        assert(texts(parts@) =~= texts(before).push(text@));
                    },
                    Err(e) => {
                        proof {
                            lemma_value_objects_err(types@, (i + 1) as nat, types@.len(), e@);
                        }
                        return Err(e);
                    },
                }
                i += 1;
            }
            Ok(join(&parts, ","))
        },
        Some(ty) => abi_param_json("", ty, None),
    }
}

/// A function in JSON.
pub open spec fn function_object(
    name: Seq<char>,
    inputs: Seq<char>,
    outputs: Seq<char>,
    mutable: bool,
) -> Seq<char> {
    "{\"type\":\"function\",\"name\":\""@ + name + "\",\"inputs\":["@ + inputs
        + "],\"outputs\":["@ + outputs + "],\"stateMutability\":\""@ + (if mutable {
        "nonpayable"@
    } else {
        "view"@
    }) + "\"}"@
}

/// A function in JSON.
pub fn function_json(name: &String, inputs: &String, outputs: &String, mutable: bool) -> (r: String)
    ensures
        r@ == function_object(name@, inputs@, outputs@, mutable),
{
    let mut text = "{\"type\":\"function\",\"name\":\"".to_owned();
    text.append(name.as_str());
    text.append("\",\"inputs\":[");
    text.append(inputs.as_str());
    text.append("],\"outputs\":[");
    text.append(outputs.as_str());
    text.append("],\"stateMutability\":\"");
    text.append(if mutable { "nonpayable" } else { "view" });
    text.append("\"}");
    text
}

/// An event in JSON.
pub open spec fn event_object(name: Seq<char>, inputs: Seq<char>) -> Seq<char> {
    "{\"type\":\"event\",\"name\":\""@ + name + "\",\"inputs\":["@ + inputs
        + "],\"anonymous\":false}"@
}

/// An event in JSON.
pub fn event_json(name: &String, inputs: &String) -> (r: String)
    ensures
        r@ == event_object(name@, inputs@),
{
    let mut text = "{\"type\":\"event\",\"name\":\"".to_owned();
    text.append(name.as_str());
    text.append("\",\"inputs\":[");
    text.append(inputs.as_str());
    text.append("],\"anonymous\":false}");
    text
}

/// A constructor in JSON.
pub open spec fn constructor_object(inputs: Seq<char>) -> Seq<char> {
    "{\"type\":\"constructor\",\"inputs\":["@ + inputs + "],\"stateMutability\":\"nonpayable\"}"@
}

/// A constructor in JSON.
pub fn constructor_json(inputs: &String) -> (r: String)
    ensures
        r@ == constructor_object(inputs@),
{
    let mut text = "{\"type\":\"constructor\",\"inputs\":[".to_owned();
    text.append(inputs.as_str());
    text.append("],\"stateMutability\":\"nonpayable\"}");
    text
}

} // verus!
