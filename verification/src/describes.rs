//! What signatures, the description of a contract in JSON, and messages say.

use vstd::prelude::*;

use crate::abi::{
    abi_type, abi_types, event_object, inputs_text, outputs_text, param_object, param_objects,
    signature, value_objects, Parameter,
};
use crate::ast::Type;
use crate::errors::{message, ErrorKind, Fault};
use crate::model::{Event, EventParameter};
use crate::module::{
    abi_text, constructor_entries, event_entries, event_entry, event_objects, external_entries,
    external_entry, sorted_events, Declared, External,
};
use crate::names::lookup;
use crate::text::{bytes_before, decimal_digits, joined};

verus! {

/// Parts with a separator between them: a part behind the others is the last one, and nothing comes
/// before the first one.
pub proof fn law_joined(parts: Seq<Seq<char>>, part: Seq<char>, sep: Seq<char>)
    ensures
        joined(Seq::empty(), sep) == Seq::<char>::empty(),
        joined(parts.push(part), sep) == if parts.len() == 0 {
            part
        } else {
            joined(parts, sep) + sep + part
        },
{
    assert(parts.push(part).drop_last() =~= parts);
    assert(parts.push(part).last() == part);
}

/// The names of the contract ABI for the types of parameters and results. No other type has one.
pub proof fn law_abi_type(ty: Type)
    ensures
        match ty {
            Type::Path(name, _) => {
                &&& name@ == "U256"@ ==> abi_type(ty) == Ok::<Seq<char>, Fault>("uint256"@)
                &&& name@ == "Address"@ ==> abi_type(ty) == Ok::<Seq<char>, Fault>("address"@)
                &&& name@ == "bool"@ ==> abi_type(ty) == Ok::<Seq<char>, Fault>("bool"@)
                &&& name@ == "ShortString"@ ==> abi_type(ty) == Ok::<Seq<char>, Fault>("string"@)
                &&& name@ != "U256"@ && name@ != "Address"@ && name@ != "bool"@ && name@
                    != "ShortString"@ ==> abi_type(ty) == Err::<Seq<char>, Fault>(
                    Fault { kind: ErrorKind::UnsupportedParameterType, subject: name@ },
                )
            },
            _ => abi_type(ty) == Err::<Seq<char>, Fault>(
                Fault { kind: ErrorKind::UnsupportedType, subject: Seq::empty() },
            ),
        },
{
    reveal_strlit("U256");
    reveal_strlit("Address");
    reveal_strlit("bool");
    reveal_strlit("ShortString");
    assert("U256"@.len() == 4 && "bool"@.len() == 4);
    assert("Address"@.len() == 7);
    assert("ShortString"@.len() == 11);
    assert("U256"@[0] != "bool"@[0]);
}

/// The types of parameters with one more.
proof fn lemma_abi_types_push(params: Seq<Parameter>, p: Parameter, k: nat)
    requires
        k <= params.len(),
    ensures
        abi_types(params.push(p), k) == abi_types(params, k),
    decreases k,
{
    if k > 0 {
        lemma_abi_types_push(params, p, (k - 1) as nat);
        assert(params.push(p)[k - 1] == params[k - 1]);
    }
}

/// There is a type for each parameter.
proof fn lemma_abi_types_len(params: Seq<Parameter>, k: nat)
    requires
        k <= params.len(),
    ensures
        abi_types(params, k) matches Ok(types) ==> types.len() == k,
    decreases k,
{
    if k > 0 {
        lemma_abi_types_len(params, (k - 1) as nat);
    }
}

/// The signature of a function without parameters is its name and a pair of brackets.
pub proof fn law_signature_without_parameters(name: Seq<char>)
    ensures
        signature(name, Seq::empty()) == Ok::<Seq<char>, Fault>(name + "()"@),
{
    reveal_strlit("(");
    reveal_strlit(")");
    reveal_strlit("()");
    let types = Seq::<Seq<char>>::empty();
    assert(joined(types, ","@) =~= Seq::empty());
    assert(name + "("@ + joined(types, ","@) + ")"@ =~= name + "()"@);
}

/// A signature names every parameter: one more parameter puts its type before the closing bracket,
/// behind a comma unless it is the first, however many there are.
pub proof fn law_signature_with_parameter(name: Seq<char>, params: Seq<Parameter>, p: Parameter)
    ensures
        signature(name, params.push(p)) == match signature(name, params) {
            Err(fault) => Err(fault),
            Ok(before) => match abi_type(p.ty) {
                Err(fault) => Err(fault),
                Ok(ty) => Ok(
                    before.drop_last() + (if params.len() == 0 {
                        Seq::empty()
                    } else {
                        seq![',']
                    }) + ty + seq![')'],
                ),
            },
        },
        signature(name, params) matches Ok(text) ==> text.len() > 0 && text.last() == ')',
{
    reveal_strlit(",");
    reveal_strlit(")");
    let k = params.len();
    lemma_abi_types_push(params, p, k);
    lemma_abi_types_len(params, k);
    assert(params.push(p)[k as int] == p);
    assert(","@ =~= seq![',']);
    assert(")"@ =~= seq![')']);
    if let Ok(types) = abi_types(params, k) {
        let inner = joined(types, ","@);
        let before = name + "("@ + inner + ")"@;
        assert(before.drop_last() =~= name + "("@ + inner);
        if let Ok(ty) = abi_type(p.ty) {
            law_joined(types, ty, ","@);
            let after = name + "("@ + joined(types.push(ty), ","@) + ")"@;
            if k == 0 {
                assert(inner =~= Seq::empty());
                assert(after =~= before.drop_last() + Seq::empty() + ty + seq![')']);
            } else {
                assert(after =~= before.drop_last() + seq![','] + ty + seq![')']);
            }
        }
    }
}

/// A parameter of a function in JSON.
pub open spec fn input_object(name: Seq<char>, ty: Seq<char>) -> Seq<char> {
    "{\"name\":\""@ + name + "\",\"type\":\""@ + ty + "\",\"internalType\":\""@ + ty + "\"}"@
}

/// A field of an event in JSON.
pub open spec fn indexed_object(name: Seq<char>, ty: Seq<char>, indexed: bool) -> Seq<char> {
    "{\"name\":\""@ + name + "\",\"type\":\""@ + ty + "\",\"indexed\":"@ + (if indexed {
        "true"@
    } else {
        "false"@
    }) + ",\"internalType\":\""@ + ty + "\"}"@
}

/// The text of one parameter.
proof fn lemma_param_object(name: Seq<char>, ty: Seq<char>, indexed: Option<bool>)
    ensures
        param_object(name, ty, indexed) == match indexed {
            None => input_object(name, ty),
            Some(b) => indexed_object(name, ty, b),
        },
{
    reveal_strlit("\",\"internalType\":\"");
    reveal_strlit("\",");
    reveal_strlit("\"internalType\":\"");
    reveal_strlit("\",\"indexed\":");
    reveal_strlit("\"indexed\":");
    reveal_strlit(",\"internalType\":\"");
    reveal_strlit(",");
    let head = "{\"name\":\""@ + name + "\",\"type\":\""@ + ty;
    match indexed {
        None => {
            assert("\",\"internalType\":\""@ =~= "\","@ + "\"internalType\":\""@);
            assert(param_object(name, ty, indexed) =~= input_object(name, ty));
        },
        Some(b) => {
            assert("\",\"indexed\":"@ =~= "\","@ + "\"indexed\":"@);
            assert(",\"internalType\":\""@ =~= ","@ + "\"internalType\":\""@);
            assert(param_object(name, ty, indexed) =~= indexed_object(name, ty, b));
        },
    }
}

/// The parameters of a function in JSON with one more.
proof fn lemma_param_objects_push(params: Seq<Parameter>, p: Parameter, k: nat)
    requires
        k <= params.len(),
    ensures
        param_objects(params.push(p), k) == param_objects(params, k),
        param_objects(params, k) matches Ok(parts) ==> parts.len() == k,
    decreases k,
{
    if k > 0 {
        lemma_param_objects_push(params, p, (k - 1) as nat);
        assert(params.push(p)[k - 1] == params[k - 1]);
    }
}

/// The description of a function lists every parameter, each with its name and the name of its
/// type, with commas between them.
pub proof fn law_inputs_described(params: Seq<Parameter>, p: Parameter)
    ensures
        inputs_text(Seq::empty()) == Ok::<Seq<char>, Fault>(Seq::empty()),
        inputs_text(params.push(p)) == match inputs_text(params) {
            Err(fault) => Err(fault),
            Ok(before) => match abi_type(p.ty) {
                Err(fault) => Err(fault),
                Ok(ty) => Ok(
                    if params.len() == 0 {
                        input_object(p.name, ty)
                    } else {
                        before + ","@ + input_object(p.name, ty)
                    },
                ),
            },
        },
{
    let k = params.len();
    lemma_param_objects_push(params, p, k);
    assert(params.push(p)[k as int] == p);
    assert(joined(Seq::empty(), ","@) =~= Seq::<char>::empty());
    if let Ok(ty) = abi_type(p.ty) {
        lemma_param_object(p.name, ty, None);
        if let Ok(parts) = param_objects(params, k) {
            law_joined(parts, input_object(p.name, ty), ","@);
        }
    }
}

/// The components of a result in JSON with one more.
proof fn lemma_value_objects_prefix(a: Seq<Type>, b: Seq<Type>, k: nat)
    requires
        k <= a.len(),
        k <= b.len(),
        a.take(k as int) == b.take(k as int),
    ensures
        value_objects(a, k) == value_objects(b, k),
        value_objects(a, k) matches Ok(parts) ==> parts.len() == k,
    decreases k,
{
    if k > 0 {
        let j = (k - 1) as nat;
        assert(a[k - 1] == a.take(k as int)[k - 1]);
        assert(b[k - 1] == b.take(k as int)[k - 1]);
        assert(a.take(j as int) =~= a.take(k as int).take(j as int));
        assert(b.take(j as int) =~= b.take(k as int).take(j as int));
        lemma_value_objects_prefix(a, b, j);
    }
}

/// The description of a function says what it results in: nothing, a nameless value of the type, or
/// a nameless value for every component of a tuple.
pub proof fn law_outputs_described(ty: Type)
    ensures
        outputs_text(None) == Ok::<Seq<char>, Fault>(Seq::empty()),
        ty !is Tuple ==> outputs_text(Some(ty)) == match abi_type(ty) {
            Err(fault) => Err::<Seq<char>, Fault>(fault),
            Ok(name) => Ok(input_object(Seq::empty(), name)),
        },
{
    if let Ok(name) = abi_type(ty) {
        lemma_param_object(Seq::empty(), name, None);
    }
}

/// A result of no components has no description.
pub proof fn law_empty_tuple_refused(types: Vec<Type>)
    requires
        types@.len() == 0,
    ensures
        outputs_text(Some(Type::Tuple(types))) == Err::<Seq<char>, Fault>(
            Fault { kind: ErrorKind::UnsupportedType, subject: Seq::empty() },
        ),
{
}

/// A tuple with one more component is described with one more value.
pub proof fn law_tuple_described(short: Vec<Type>, long: Vec<Type>, ty: Type)
    requires
        long@ == short@.push(ty),
    ensures
        outputs_text(Some(Type::Tuple(long))) == match abi_type(ty) {
            Ok(name) => if short@.len() == 0 {
                Ok(input_object(Seq::empty(), name))
            } else {
                match outputs_text(Some(Type::Tuple(short))) {
                    Ok(before) => Ok(before + ","@ + input_object(Seq::empty(), name)),
                    Err(fault) => Err(fault),
                }
            },
            Err(fault) => if short@.len() == 0 {
                Err(fault)
            } else {
                match outputs_text(Some(Type::Tuple(short))) {
                    Ok(_) => Err(fault),
                    Err(first) => Err(first),
                }
            },
        },
{
    let k = short@.len();
    assert(long@.take(k as int) =~= short@.take(k as int));
    lemma_value_objects_prefix(long@, short@, k);
    assert(long@[k as int] == ty);
    if let Ok(name) = abi_type(ty) {
        lemma_param_object(Seq::empty(), name, None);
        if let Ok(parts) = value_objects(short@, k) {
            law_joined(parts, input_object(Seq::empty(), name), ","@);
        }
    }
}

/// A function is described by its name, its parameters, its results, and `nonpayable` if it can
/// write and `view` if it cannot.
pub proof fn law_function_described(x: External, inputs: Seq<char>, outputs: Seq<char>)
    requires
        inputs_text(x.params) == Ok::<Seq<char>, Fault>(inputs),
        outputs_text(x.output) == Ok::<Seq<char>, Fault>(outputs),
    ensures
        external_entry(x) == Ok::<Seq<char>, Fault>(
            if x.mutable {
                "{\"type\":\"function\",\"name\":\""@ + x.name + "\",\"inputs\":["@ + inputs
                    + "],\"outputs\":["@ + outputs + "],\"stateMutability\":\"nonpayable\"}"@
            } else {
                "{\"type\":\"function\",\"name\":\""@ + x.name + "\",\"inputs\":["@ + inputs
                    + "],\"outputs\":["@ + outputs + "],\"stateMutability\":\"view\"}"@
            },
        ),
{
    reveal_strlit("],\"stateMutability\":\"");
    reveal_strlit("nonpayable");
    reveal_strlit("view");
    reveal_strlit("\"}");
    reveal_strlit("],\"stateMutability\":\"nonpayable\"}");
    reveal_strlit("],\"stateMutability\":\"view\"}");
    assert("],\"stateMutability\":\"nonpayable\"}"@ =~= "],\"stateMutability\":\""@ + "nonpayable"@
        + "\"}"@);
    assert("],\"stateMutability\":\"view\"}"@ =~= "],\"stateMutability\":\""@ + "view"@ + "\"}"@);
    let head = "{\"type\":\"function\",\"name\":\""@ + x.name + "\",\"inputs\":["@ + inputs
        + "],\"outputs\":["@ + outputs;
    if x.mutable {
        assert(head + "],\"stateMutability\":\""@ + "nonpayable"@ + "\"}"@ =~= head
            + "],\"stateMutability\":\"nonpayable\"}"@);
    } else {
        assert(head + "],\"stateMutability\":\""@ + "view"@ + "\"}"@ =~= head
            + "],\"stateMutability\":\"view\"}"@);
    }
}

/// The fields of an event in JSON with one more.
proof fn lemma_event_objects_push(fields: Seq<EventParameter>, f: EventParameter, k: nat)
    requires
        k <= fields.len(),
    ensures
        event_objects(fields.push(f), k) == event_objects(fields, k),
        event_objects(fields, k) matches Ok(parts) ==> parts.len() == k,
    decreases k,
{
    if k > 0 {
        lemma_event_objects_push(fields, f, (k - 1) as nat);
        assert(fields.push(f)[k - 1] == fields[k - 1]);
    }
}

/// What stands before the fields of an event in JSON.
pub open spec fn event_head(name: Seq<char>) -> Seq<char> {
    "{\"type\":\"event\",\"name\":\""@ + name + "\",\"inputs\":["@
}

/// What stands behind the fields of an event in JSON.
pub open spec fn event_tail() -> Seq<char> {
    "],\"anonymous\":false}"@
}

/// The description of an event is that of its fields between two fixed texts.
proof fn lemma_event_text(name: Seq<char>, inner: Seq<char>)
    ensures
        event_object(name, inner) == event_head(name) + inner + event_tail(),
{
    assert(event_object(name, inner) =~= event_head(name) + inner + event_tail());
}

/// An event is described by its name and every field, each with its name, the name of its type and
/// whether it is indexed, with commas between them.
pub proof fn law_event_described(name: Seq<char>, fields: Seq<EventParameter>, f: EventParameter)
    ensures
        event_entry((Event { name, fields: Seq::empty() })) == Ok::<Seq<char>, Fault>(
            event_head(name) + event_tail(),
        ),
        event_entry((Event { name, fields: fields.push(f) })) == match event_entry(
            (Event { name, fields }),
        ) {
            Err(fault) => Err(fault),
            Ok(before) => match abi_type(f.ty) {
                Err(fault) => Err(fault),
                Ok(ty) => Ok(
                    before.take(before.len() - event_tail().len()) + (if fields.len() == 0 {
                        Seq::empty()
                    } else {
                        ","@
                    }) + indexed_object(f.name, ty, f.indexed) + event_tail(),
                ),
            },
        },
{
    let k = fields.len();
    lemma_event_objects_push(fields, f, k);
    assert(fields.push(f)[k as int] == f);
    let none = Seq::<Seq<char>>::empty();
    assert(joined(none, ","@) =~= Seq::empty());
    lemma_event_text(name, Seq::empty());
    assert(event_head(name) + Seq::empty() =~= event_head(name));
    if let Ok(parts) = event_objects(fields, k) {
        let inner = joined(parts, ","@);
        let before = event_object(name, inner);
        lemma_event_text(name, inner);
        assert(before.take(before.len() - event_tail().len()) =~= event_head(name) + inner);
        if let Ok(ty) = abi_type(f.ty) {
            let part = indexed_object(f.name, ty, f.indexed);
            lemma_param_object(f.name, ty, Some(f.indexed));
            law_joined(parts, part, ","@);
            lemma_event_text(name, joined(parts.push(part), ","@));
            if k == 0 {
                assert(inner =~= Seq::empty());
                assert(event_head(name) + part =~= event_head(name) + inner + Seq::empty() + part);
            } else {
                assert(event_head(name) + (inner + ","@ + part) =~= event_head(name) + inner + ","@
                    + part);
            }
        }
    }
}

/// The entries of the first external functions.
proof fn lemma_external_entries(externals: Seq<External>, k: nat)
    requires
        k <= externals.len(),
    ensures
        external_entries(externals, k) matches Ok(parts) ==> parts.len() == k && forall|i: int|
            0 <= i < k ==> external_entry(externals[i]) == Ok::<Seq<char>, Fault>(
                #[trigger] parts[i],
            ),
        external_entries(externals, k) is Ok <==> (forall|i: int|
            0 <= i < k ==> external_entry(#[trigger] externals[i]) is Ok),
    decreases k,
{
    if k > 0 {
        lemma_external_entries(externals, (k - 1) as nat);
    }
}

/// The entries of the first events.
proof fn lemma_event_entries(events: Seq<Event>, k: nat)
    requires
        k <= events.len(),
    ensures
        event_entries(events, k) matches Ok(parts) ==> parts.len() == k && forall|i: int|
            0 <= i < k ==> event_entry(events[i]) == Ok::<Seq<char>, Fault>(#[trigger] parts[i]),
        event_entries(events, k) is Ok <==> (forall|i: int|
            0 <= i < k ==> event_entry(#[trigger] events[i]) is Ok),
    decreases k,
{
    if k > 0 {
        lemma_event_entries(events, (k - 1) as nat);
    }
}

/// Whether a list holds the description of every function, in the order of declaration, then that
/// of every event, in the order of their names, then that of the constructor, where there is one.
pub open spec fn describes(parts: Seq<Seq<char>>, d: Declared) -> bool {
    let n = d.externals.len();
    let events = sorted_events(d.contract.events, d.contract.events.len());
    let m = events.len();
    &&& parts.len() == n + m + (if d.constructor is Some {
        1nat
    } else {
        0
    })
    &&& forall|i: int|
        0 <= i < n ==> external_entry(d.externals[i]) == Ok::<Seq<char>, Fault>(#[trigger] parts[i])
    &&& forall|i: int|
        n <= i < n + m ==> event_entry(events[i - n]) == Ok::<Seq<char>, Fault>(
            #[trigger] parts[i],
        )
    &&& d.constructor matches Some(c) ==> (inputs_text(c.params) matches Ok(inputs) && parts[(n
        + m) as int] == "{\"type\":\"constructor\",\"inputs\":["@ + inputs
        + "],\"stateMutability\":\"nonpayable\"}"@)
}

/// The description of a contract is a list in brackets, with commas between its parts.
pub proof fn law_contract_described(d: Declared) -> (parts: Seq<Seq<char>>)
    ensures
        abi_text(d) matches Ok(text) ==> describes(parts, d) && text == "["@ + joined(parts, ","@)
            + "]"@,
{
    let n = d.externals.len();
    let events = sorted_events(d.contract.events, d.contract.events.len());
    lemma_external_entries(d.externals, n);
    lemma_event_entries(events, events.len());
    if abi_text(d) is Ok {
        let fs = external_entries(d.externals, n)->Ok_0;
        let es = event_entries(events, events.len())->Ok_0;
        let cs = constructor_entries(d.constructor)->Ok_0;
        let parts = fs + es + cs;
        assert forall|i: int| 0 <= i < n implies external_entry(d.externals[i]) == Ok::<
            Seq<char>,
            Fault,
        >(#[trigger] parts[i]) by {
            assert(parts[i] == fs[i]);
        }
        assert forall|i: int| n <= i < n + events.len() implies event_entry(events[i - n]) == Ok::<
            Seq<char>,
            Fault,
        >(#[trigger] parts[i]) by {
            assert(parts[i] == es[i - n]);
        }
        parts
    } else {
        Seq::empty()
    }
}

/// A contract whose functions, events and constructor have types that the contract ABI knows has a
/// description.
pub proof fn law_describable(d: Declared)
    ensures
        ({
            let events = sorted_events(d.contract.events, d.contract.events.len());
            abi_text(d) is Ok <==> {
                &&& forall|i: int|
                    0 <= i < d.externals.len() ==> external_entry(#[trigger] d.externals[i]) is Ok
                &&& forall|i: int|
                    0 <= i < events.len() ==> event_entry(#[trigger] events[i]) is Ok
                &&& d.constructor matches Some(c) ==> inputs_text(c.params) is Ok
            }
        }),
{
    let events = sorted_events(d.contract.events, d.contract.events.len());
    lemma_external_entries(d.externals, d.externals.len());
    lemma_event_entries(events, events.len());
}

/// A function is refused with the fault of its parameters, or else with that of its result. The
/// first fault among the functions counts.
pub proof fn law_undescribed_function(externals: Seq<External>, k: nat)
    requires
        k < externals.len(),
    ensures
        ({
            let x = externals[k as int];
            let now = external_entries(externals, k + 1);
            match external_entries(externals, k) {
                Err(fault) => now == Err::<Seq<Seq<char>>, Fault>(fault),
                Ok(_) => match inputs_text(x.params) {
                    Err(fault) => now == Err::<Seq<Seq<char>>, Fault>(fault),
                    Ok(_) => match outputs_text(x.output) {
                        Err(fault) => now == Err::<Seq<Seq<char>>, Fault>(fault),
                        Ok(_) => now is Ok,
                    },
                },
            }
        }),
{
}

/// A contract is refused with the first fault of its functions, or else of its events, or else of
/// the parameters of its constructor.
pub proof fn law_undescribed_contract(d: Declared)
    ensures
        ({
            let events = sorted_events(d.contract.events, d.contract.events.len());
            match external_entries(d.externals, d.externals.len()) {
                Err(fault) => abi_text(d) == Err::<Seq<char>, Fault>(fault),
                Ok(_) => match event_entries(events, events.len()) {
                    Err(fault) => abi_text(d) == Err::<Seq<char>, Fault>(fault),
                    Ok(_) => d.constructor matches Some(c) ==> (inputs_text(
                        c.params,
                    ) matches Err(fault) ==> abi_text(d) == Err::<Seq<char>, Fault>(fault)),
                },
            }
        }),
{
}

/// The number that decimal digits stand for.
pub open spec fn decimal_value(digits: Seq<char>) -> int
    decreases digits.len(),
{
    if digits.len() == 0 {
        0
    } else {
        decimal_value(digits.drop_last()) * 10 + (digits.last() as int - '0' as int)
    }
}

/// A number is read back from its decimal digits, which are digits and do not start with a zero.
pub proof fn law_decimal_reads_back(n: nat)
    ensures
        decimal_value(decimal_digits(n)) == n,
        forall|i: int|
            0 <= i < decimal_digits(n).len() ==> '0' <= #[trigger] decimal_digits(n)[i] <= '9',
        decimal_digits(n).len() > 0,
        n > 0 ==> decimal_digits(n)[0] != '0',
    decreases n,
{
    let s = decimal_digits(n);
    if n < 10 {
        assert(s.drop_last() =~= Seq::empty());
        assert(decimal_value(s.drop_last()) == 0);
    } else {
        law_decimal_reads_back(n / 10);
        assert(s.drop_last() =~= decimal_digits(n / 10));
    }
}

/// The last entry of a name counts, and entries of other names do not matter.
pub proof fn law_lookup<V>(table: Seq<(Seq<char>, V)>, name: Seq<char>, value: V, other: Seq<char>)
    ensures
        lookup(Seq::<(Seq<char>, V)>::empty(), name) is None,
        lookup(table.push((name, value)), name) == Some(value),
        other != name ==> lookup(table.push((name, value)), other) == lookup(table, other),
{
    assert(table.push((name, value)).drop_last() =~= table);
}

/// One byte string comes before another if it is a proper start of it, or has the smaller byte
/// where they first differ.
pub proof fn law_byte_order(a: Seq<u8>, b: Seq<u8>, i: int)
    requires
        0 <= i <= a.len(),
        i <= b.len(),
        forall|j: int| 0 <= j < i ==> a[j] == b[j],
        i < a.len() && i < b.len() ==> a[i] != b[i],
    ensures
        i == b.len() ==> !bytes_before(a, b),
        i == a.len() && i < b.len() ==> bytes_before(a, b),
        i < a.len() && i < b.len() ==> (bytes_before(a, b) <==> a[i] < b[i]),
    decreases i,
{
    if i > 0 {
        let x = a.drop_first();
        let y = b.drop_first();
        assert forall|j: int| 0 <= j < i - 1 implies x[j] == y[j] by {
            assert(a[j + 1] == b[j + 1]);
        }
        law_byte_order(x, y, i - 1);
    }
}

/// What a fault is reported as. Where it is about something in particular, the message says what.
pub proof fn law_message(kind: ErrorKind, subject: Seq<char>)
    ensures
        message(Fault { kind, subject }) == match kind {
            ErrorKind::UnsupportedStatement => "rulidity: unsupported statement"@,
            ErrorKind::ValueAsStatement => "Rulidity: unsupported statement"@,
            ErrorKind::RecursiveCall => "Rulidity: recursive internal calls are not supported"@,
            ErrorKind::WrongArgumentCount => "Rulidity: wrong number of arguments"@,
            ErrorKind::AssignmentTarget => "rulidity: unsupported assignment target"@,
            ErrorKind::InsertArguments => "rulidity: insert takes (key, value)"@,
            ErrorKind::InsertReceiver => "rulidity: .insert() is only valid on a Mapping"@,
            ErrorKind::SetReceiver => "rulidity: .set() is only valid on an Array field"@,
            ErrorKind::SetArguments => "rulidity: set takes (index, value)"@,
            ErrorKind::PushReceiver => "rulidity: .push() is only valid on an Array field"@,
            ErrorKind::PushArguments => "rulidity: push takes (value)"@,
            ErrorKind::EmitArgument => "Invalid emit argument"@,
            ErrorKind::UnknownEvent => "Unknown event"@,
            ErrorKind::MissingEventField => "rulidity: missing event field `"@ + subject + "`"@,
            ErrorKind::LocalWithoutValue => "Unsupported local expression"@,
            ErrorKind::UnsupportedExpression => "rulidity: unsupported expression"@,
            ErrorKind::GetNotScalar => "rulidity: .get() must resolve to a scalar value to read"@,
            ErrorKind::GetArguments => "rulidity: get takes one argument"@,
            ErrorKind::GetReceiver => "rulidity: .get() is only valid on a Mapping or Array"@,
            ErrorKind::StorageAccess => "rulidity: unsupported storage access"@,
            ErrorKind::TupleField => "tuple fields not supported"@,
            ErrorKind::UnknownField => "unknown storage field"@,
            ErrorKind::NotSelfField => "expected self.<field>"@,
            ErrorKind::LenReceiver => "rulidity: .len() is only valid on an Array field"@,
            ErrorKind::UnsupportedOperator => "rulidity: unsupported operator"@,
            ErrorKind::UnknownIdentifier => "unknown identifier "@ + subject,
            ErrorKind::UnsupportedCall => "rulidity: unsupported call"@,
            ErrorKind::MissingArgument => "rulidity: missing argument"@,
            ErrorKind::LiteralTooLarge => "number too large to fit in target type"@,
            ErrorKind::ShortStringTooLong => "Short-string literals are max 31 bytes, got "@
                + subject,
            ErrorKind::LetPattern => "Unsupported let pattern"@,
            ErrorKind::ArgumentPattern => "invalid arg identifier"@,
            ErrorKind::UnsupportedType => "Unsupported type"@,
            ErrorKind::UnsupportedParameterType => "Unsupported parameter type "@ + subject,
            ErrorKind::FieldKindType => "This type cannot be converted to FieldKind"@,
            ErrorKind::SecondConstructor => "Only one constructor is allowed"@,
            ErrorKind::UnknownInterfaceMethod => "rulidity: unknown interface method "@ + subject,
            ErrorKind::InterfaceWords => "rulidity: interface methods take and return words only"@,
            ErrorKind::InterfaceVoid => "rulidity: interface method returns no value"@,
            ErrorKind::TupleWords => "rulidity: tuple returns hold words only"@,
            ErrorKind::TooManyLocals => "rulidity: too many local variables"@,
            ErrorKind::TooManyLabels => "rulidity: too many jump targets"@,
            ErrorKind::CodeTooLarge => "rulidity: code is larger than 65535 bytes"@,
        },
{
}

} // verus!
