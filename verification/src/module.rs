//! What a contract module declares, and what it compiles to.

use vstd::prelude::*;
use vstd::utf8::encode_utf8;

use crate::abi::{
    constructor_object, event_object, field_kind, function_object, inputs_text, mut_receiver,
    outputs_text, param_json, params_spec, signature, Parameter,
};
use crate::assembler::{assembled, encodable, Program};
use crate::ast::{Item, Method, Signature, Stmt, StructField, Type};
use crate::code::Fragment;
use crate::contract::{combinable, creation_code, deployable, runtime, Entry};
use crate::errors::{plain_fault, ErrorKind, Fault};
use crate::keccak::keccak256_digest;
use crate::model::{Contract, Event, EventParameter, ForeignMethod, Internal, StorageField};
use crate::scheme::{constructor_code, function_code};
use crate::text::{joined, text_before, texts};

verus! {

/// A function that transactions call.
#[verifier::ext_equal]
pub struct External {
    pub name: Seq<char>,
    pub params: Seq<Parameter>,
    pub output: Option<Type>,
    pub block: Seq<Stmt>,
    pub mutable: bool,
}

/// The function that runs when a contract is deployed.
#[verifier::ext_equal]
pub struct Constructor {
    pub params: Seq<Parameter>,
    pub block: Seq<Stmt>,
}

/// What a contract module declares.
#[verifier::ext_equal]
pub struct Declared {
    pub contract: Contract,
    pub externals: Seq<External>,
    pub constructor: Option<Constructor>,
}

impl Declared {
    /// A module that declares nothing.
    pub open spec fn nothing() -> Declared {
        Declared {
            contract: Contract {
                storage: Seq::empty(),
                events: Seq::empty(),
                internal_functions: Seq::empty(),
                field_types: Seq::empty(),
                interfaces: Seq::empty(),
            },
            externals: Seq::empty(),
            constructor: None,
        }
    }
}

/// The contract with the first `k` fields added to its storage. Slots are handed out in the order
/// of declaration.
pub open spec fn with_storage(contract: Contract, fields: Seq<StructField>, k: nat) -> Result<
    Contract,
    Fault,
>
    decreases k,
{
    if k == 0 {
        Ok(contract)
    } else {
        match with_storage(contract, fields, (k - 1) as nat) {
            Err(fault) => Err(fault),
            Ok(before) => match fields[k - 1].name {
                None => Err(plain_fault(ErrorKind::TupleField)),
                Some(name) => match field_kind(fields[k - 1].ty) {
                    Err(fault) => Err(fault),
                    Ok(kind) => Ok(
                        Contract {
                            storage: before.storage.push(
                                (name@, StorageField { slot: before.storage.len() as u64, kind }),
                            ),
                            events: before.events,
                            internal_functions: before.internal_functions,
                            field_types: before.field_types.push((name@, fields[k - 1].ty)),
                            interfaces: before.interfaces,
                        },
                    ),
                },
            },
        }
    }
}

/// Whether there is an attribute with the given name.
pub open spec fn has_attribute(attrs: Seq<String>, name: Seq<char>) -> bool {
    texts(attrs).contains(name)
}

/// The first `k` fields of an event.
pub open spec fn event_parameters(fields: Seq<StructField>, k: nat) -> Result<
    Seq<EventParameter>,
    Fault,
>
    decreases k,
{
    if k == 0 {
        Ok(Seq::empty())
    } else {
        match event_parameters(fields, (k - 1) as nat) {
            Err(fault) => Err(fault),
            Ok(before) => match fields[k - 1].name {
                None => Err(plain_fault(ErrorKind::TupleField)),
                Some(name) => Ok(
                    before.push(
                        EventParameter {
                            name: name@,
                            ty: fields[k - 1].ty,
                            indexed: has_attribute(fields[k - 1].attrs@, "indexed"@),
                        },
                    ),
                ),
            },
        }
    }
}

/// The first `k` functions of an interface.
pub open spec fn foreign_methods(sigs: Seq<Signature>, k: nat) -> Result<
    Seq<(Seq<char>, ForeignMethod)>,
    Fault,
>
    decreases k,
{
    if k == 0 {
        Ok(Seq::empty())
    } else {
        let sig = sigs[k - 1];
        match foreign_methods(sigs, (k - 1) as nat) {
            Err(fault) => Err(fault),
            Ok(before) => match params_spec(sig.inputs@) {
                Err(fault) => Err(fault),
                Ok(params) => match signature(sig.name@, params) {
                    Err(fault) => Err(fault),
                    Ok(text) => Ok(
                        before.push(
                            (
                                sig.name@,
                                ForeignMethod {
                                    sig: text,
                                    params,
                                    output: sig.output,
                                    mutable: mut_receiver(sig.inputs@),
                                },
                            ),
                        ),
                    ),
                },
            },
        }
    }
}

/// The declarations with one more function. It is external, the constructor, or internal.
pub open spec fn with_method(d: Declared, method: Method) -> Result<Declared, Fault> {
    match params_spec(method.inputs@) {
        Err(fault) => Err(fault),
        Ok(params) => if has_attribute(method.attrs@, "external"@) {
            Ok(
                Declared {
                    contract: d.contract,
                    externals: d.externals.push(
                        External {
                            name: method.name@,
                            params,
                            output: method.output,
                            block: method.block@,
                            mutable: mut_receiver(method.inputs@),
                        },
                    ),
                    constructor: d.constructor,
                },
            )
        } else if has_attribute(method.attrs@, "constructor"@) {
            if d.constructor is Some {
                Err(plain_fault(ErrorKind::SecondConstructor))
            } else {
                Ok(
                    Declared {
                        contract: d.contract,
                        externals: d.externals,
                        constructor: Some(Constructor { params, block: method.block@ }),
                    },
                )
            }
        } else {
            Ok(
                Declared {
                    contract: Contract {
                        storage: d.contract.storage,
                        events: d.contract.events,
                        internal_functions: d.contract.internal_functions.push(
                            (
                                method.name@,
                                Internal { params, output: method.output, block: method.block@ },
                            ),
                        ),
                        field_types: d.contract.field_types,
                        interfaces: d.contract.interfaces,
                    },
                    externals: d.externals,
                    constructor: d.constructor,
                },
            )
        },
    }
}

/// The declarations with the first `k` functions of an impl block.
pub open spec fn with_methods(d: Declared, methods: Seq<Method>, k: nat) -> Result<Declared, Fault>
    decreases k,
{
    if k == 0 {
        Ok(d)
    } else {
        match with_methods(d, methods, (k - 1) as nat) {
            Err(fault) => Err(fault),
            Ok(before) => with_method(before, methods[k - 1]),
        }
    }
}

/// The declarations with one more item.
pub open spec fn with_item(d: Declared, item: Item) -> Result<Declared, Fault> {
    match item {
        Item::Struct(attrs, name, fields) => if has_attribute(attrs@, "storage"@) {
            match with_storage(d.contract, fields@, fields@.len()) {
                Err(fault) => Err(fault),
                Ok(contract) => Ok(
                    Declared { contract, externals: d.externals, constructor: d.constructor },
                ),
            }
        } else if has_attribute(attrs@, "event"@) {
            match event_parameters(fields@, fields@.len()) {
                Err(fault) => Err(fault),
                Ok(params) => Ok(
                    Declared {
                        contract: Contract {
                            storage: d.contract.storage,
                            events: d.contract.events.push(
                                (name@, Event { name: name@, fields: params }),
                            ),
                            internal_functions: d.contract.internal_functions,
                            field_types: d.contract.field_types,
                            interfaces: d.contract.interfaces,
                        },
                        externals: d.externals,
                        constructor: d.constructor,
                    },
                ),
            }
        } else {
            Ok(d)
        },
        Item::Impl(methods) => with_methods(d, methods@, methods@.len()),
        Item::Trait(attrs, name, sigs) => if has_attribute(attrs@, "interface"@) {
            match foreign_methods(sigs@, sigs@.len()) {
                Err(fault) => Err(fault),
                Ok(methods) => Ok(
                    Declared {
                        contract: Contract {
                            storage: d.contract.storage,
                            events: d.contract.events,
                            internal_functions: d.contract.internal_functions,
                            field_types: d.contract.field_types,
                            interfaces: d.contract.interfaces.push((name@, methods)),
                        },
                        externals: d.externals,
                        constructor: d.constructor,
                    },
                ),
            }
        } else {
            Ok(d)
        },
        Item::Other => Ok(d),
    }
}

/// What the first `k` items of a module declare.
pub open spec fn declared(items: Seq<Item>, k: nat) -> Result<Declared, Fault>
    decreases k,
{
    if k == 0 {
        Ok(Declared::nothing())
    } else {
        match declared(items, (k - 1) as nat) {
            Err(fault) => Err(fault),
            Ok(before) => with_item(before, items[k - 1]),
        }
    }
}

/// The signatures of the first `k` external functions.
pub open spec fn signatures(externals: Seq<External>, k: nat) -> Result<Seq<Seq<char>>, Fault>
    decreases k,
{
    if k == 0 {
        Ok(Seq::empty())
    } else {
        match signatures(externals, (k - 1) as nat) {
            Err(fault) => Err(fault),
            Ok(before) => match signature(externals[k - 1].name, externals[k - 1].params) {
                Err(fault) => Err(fault),
                Ok(sig) => Ok(before.push(sig)),
            },
        }
    }
}

/// There is a signature for each external function.
pub proof fn lemma_signatures_len(externals: Seq<External>, k: nat)
    requires
        k <= externals.len(),
    ensures
        signatures(externals, k) matches Ok(sigs) ==> sigs.len() == k,
    decreases k,
{
    if k > 0 {
        lemma_signatures_len(externals, (k - 1) as nat);
    }
}

/// An external function in JSON.
pub open spec fn external_entry(external: External) -> Result<Seq<char>, Fault> {
    match inputs_text(external.params) {
        Err(fault) => Err(fault),
        Ok(inputs) => match outputs_text(external.output) {
            Err(fault) => Err(fault),
            Ok(outputs) => Ok(function_object(external.name, inputs, outputs, external.mutable)),
        },
    }
}

/// The first `k` external functions in JSON.
pub open spec fn external_entries(externals: Seq<External>, k: nat) -> Result<
    Seq<Seq<char>>,
    Fault,
>
    decreases k,
{
    if k == 0 {
        Ok(Seq::empty())
    } else {
        match external_entries(externals, (k - 1) as nat) {
            Err(fault) => Err(fault),
            Ok(before) => match external_entry(externals[k - 1]) {
                Err(fault) => Err(fault),
                Ok(entry) => Ok(before.push(entry)),
            },
        }
    }
}

/// A list of events in the order of their names, with one more event. It takes the place of one
/// with the same name.
pub open spec fn event_inserted(list: Seq<Event>, event: Event) -> Seq<Event>
    decreases list.len(),
{
    if list.len() == 0 {
        seq![event]
    } else if event.name == list[0].name {
        seq![event] + list.drop_first()
    } else if text_before(event.name, list[0].name) {
        seq![event] + list
    } else {
        seq![list[0]] + event_inserted(list.drop_first(), event)
    }
}

/// The first `k` declared events, in the order of their names.
pub open spec fn sorted_events(events: Seq<(Seq<char>, Event)>, k: nat) -> Seq<Event>
    decreases k,
{
    if k == 0 {
        Seq::empty()
    } else {
        event_inserted(sorted_events(events, (k - 1) as nat), events[k - 1].1)
    }
}

/// The first `k` fields of an event in JSON.
pub open spec fn event_objects(fields: Seq<EventParameter>, k: nat) -> Result<
    Seq<Seq<char>>,
    Fault,
>
    decreases k,
{
    if k == 0 {
        Ok(Seq::empty())
    } else {
        match event_objects(fields, (k - 1) as nat) {
            Err(fault) => Err(fault),
            Ok(before) => match param_json(
                fields[k - 1].name,
                fields[k - 1].ty,
                Some(fields[k - 1].indexed),
            ) {
                Err(fault) => Err(fault),
                Ok(text) => Ok(before.push(text)),
            },
        }
    }
}

/// An event in JSON.
pub open spec fn event_entry(event: Event) -> Result<Seq<char>, Fault> {
    match event_objects(event.fields, event.fields.len()) {
        Err(fault) => Err(fault),
        Ok(parts) => Ok(event_object(event.name, joined(parts, ","@))),
    }
}

/// The first `k` events in JSON.
pub open spec fn event_entries(events: Seq<Event>, k: nat) -> Result<Seq<Seq<char>>, Fault>
    decreases k,
{
    if k == 0 {
        Ok(Seq::empty())
    } else {
        match event_entries(events, (k - 1) as nat) {
            Err(fault) => Err(fault),
            Ok(before) => match event_entry(events[k - 1]) {
                Err(fault) => Err(fault),
                Ok(entry) => Ok(before.push(entry)),
            },
        }
    }
}

/// The constructor in JSON, where there is one.
pub open spec fn constructor_entries(constructor: Option<Constructor>) -> Result<
    Seq<Seq<char>>,
    Fault,
> {
    match constructor {
        None => Ok(Seq::empty()),
        Some(c) => match inputs_text(c.params) {
            Err(fault) => Err(fault),
            Ok(inputs) => Ok(seq![constructor_object(inputs)]),
        },
    }
}

/// The interface of a contract in JSON: the external functions in the order of declaration, the
/// events in the order of their names, and the constructor.
pub open spec fn abi_text(d: Declared) -> Result<Seq<char>, Fault> {
    let events = sorted_events(d.contract.events, d.contract.events.len());
    match external_entries(d.externals, d.externals.len()) {
        Err(fault) => Err(fault),
        Ok(functions) => match event_entries(events, events.len()) {
            Err(fault) => Err(fault),
            Ok(logs) => match constructor_entries(d.constructor) {
                Err(fault) => Err(fault),
                Ok(creation) => Ok("["@ + joined(functions + logs + creation, ","@) + "]"@),
            },
        },
    }
}

/// The compiled bodies of the external functions.
pub open spec fn bodies(d: Declared) -> Seq<Fragment> {
    d.externals.map_values(
        |x: External| function_code(d.contract, x.params, x.output, x.block),
    )
}

/// The faults of the first `k` fragments.
pub open spec fn all_errors(fragments: Seq<Fragment>, k: nat) -> Seq<Fault>
    decreases k,
{
    if k == 0 {
        Seq::empty()
    } else {
        all_errors(fragments, (k - 1) as nat) + fragments[k - 1].errors
    }
}

/// The compiled constructor: no code where there is none.
pub open spec fn creation_fragment(d: Declared) -> Fragment {
    match d.constructor {
        None => Fragment::empty(),
        Some(c) => constructor_code(d.contract, c.params, c.block),
    }
}

/// The entry points of a contract: each body under the selector of its signature.
pub open spec fn entry_points(sigs: Seq<Seq<char>>, programs: Seq<Program>) -> Seq<Entry> {
    Seq::new(
        sigs.len(),
        |i: int|
            Entry {
                selector: keccak256_digest(encode_utf8(sigs[i])).take(4),
                body: programs[i],
            },
    )
}

/// The programs of a list of fragments.
pub open spec fn programs_of(fragments: Seq<Fragment>) -> Seq<Program> {
    fragments.map_values(|f: Fragment| f.program)
}

/// Whether the selector of each signature has four bytes.
pub open spec fn full_selectors(sigs: Seq<Seq<char>>) -> bool {
    forall|i: int|
        #![trigger sigs[i]]
        0 <= i < sigs.len() ==> keccak256_digest(encode_utf8(sigs[i])).take(4).len() == 4
}

/// Whether the selector of each external function of a contract has four bytes.
pub open spec fn has_full_selectors(items: Seq<Item>) -> bool {
    declared(items, items.len()) matches Ok(d) ==> (signatures(
        d.externals,
        d.externals.len(),
    ) matches Ok(sigs) ==> full_selectors(sigs))
}

/// The result of compiling a contract: the code that deploys it, and its interface in JSON.
#[verifier::ext_equal]
pub struct Compiled {
    pub deploy_code: Seq<u8>,
    pub abi_json: Seq<char>,
}

/// The creation code of a contract, or what is too large about it.
pub open spec fn linked(sigs: Seq<Seq<char>>, programs: Seq<Program>, creation: Program) -> Result<
    Seq<u8>,
    Fault,
> {
    let points = entry_points(sigs, programs);
    let creation_bytes = assembled(creation.instrs);
    let runtime_bytes = assembled(runtime(points).instrs);
    if !combinable(points) {
        Err(plain_fault(ErrorKind::TooManyLabels))
    } else if !encodable(runtime(points).instrs) || !encodable(creation.instrs) || !deployable(
        creation_bytes,
        runtime_bytes,
    ) {
        Err(plain_fault(ErrorKind::CodeTooLarge))
    } else {
        Ok(creation_code(creation_bytes, runtime_bytes))
    }
}

/// What a contract module compiles to, or the faults in it.
pub open spec fn compiled(items: Seq<Item>) -> Result<Compiled, Seq<Fault>> {
    match declared(items, items.len()) {
        Err(fault) => Err(seq![fault]),
        Ok(d) => match signatures(d.externals, d.externals.len()) {
            Err(fault) => Err(seq![fault]),
            Ok(sigs) => match abi_text(d) {
                Err(fault) => Err(seq![fault]),
                Ok(abi) => {
                    let fragments = bodies(d);
                    let creation = creation_fragment(d);
                    let errors = creation.errors + all_errors(fragments, fragments.len());
                    if errors.len() > 0 {
                        Err(errors)
                    } else {
                        match linked(sigs, programs_of(fragments), creation.program) {
                            Err(fault) => Err(seq![fault]),
                            Ok(code) => Ok(Compiled { deploy_code: code, abi_json: abi }),
                        }
                    }
                },
            },
        },
    }
}

} // verus!
