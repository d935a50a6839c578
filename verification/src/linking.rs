//! Which modules compile, what they compile to, and which faults are reported otherwise.

use vstd::prelude::*;
use vstd::utf8::encode_utf8;

use crate::abi::{params_prefix, params_spec, signature, Parameter};
use crate::assembler::{assembled, operands_valid};
use crate::ast::{FnArg, Item, Method, Signature, StructField};
use crate::bytecode::{law_bytes_in_order, law_combinable, law_creation_code};
use crate::code::Fragment;
use crate::contract::runtime;
use crate::declares::{lemma_marked, marked};
use crate::errors::{ErrorKind, Fault};
use crate::keccak::keccak256_digest;
use crate::model::{Contract, EventParameter, ForeignMethod};
use crate::module::{
    abi_text, all_errors, bodies, compiled, creation_fragment, declared, event_parameters,
    foreign_methods, signatures, with_methods, with_storage, Compiled, Declared, External,
};
use crate::scheme::{constructor_code, function_code};
use crate::simulate::clean;
use crate::whole::{contract_entries, runtime_code};

verus! {

/// Whether every external function has a signature.
pub open spec fn all_signed(externals: Seq<External>) -> bool {
    forall|i: int|
        #![trigger externals[i]]
        0 <= i < externals.len() ==> signature(externals[i].name, externals[i].params) is Ok
}

/// There is a signature for every external function, in the order of declaration, if each of them
/// has one.
pub proof fn law_signatures(externals: Seq<External>)
    ensures
        match signatures(externals, externals.len()) {
            Ok(sigs) => all_signed(externals) && sigs.len() == externals.len() && forall|i: int|
                #![trigger externals[i]]
                0 <= i < externals.len() ==> signature(externals[i].name, externals[i].params)
                    == Ok::<Seq<char>, Fault>(sigs[i]),
            Err(fault) => exists|i: int|
                {
                    &&& 0 <= i < externals.len()
                    &&& all_signed(externals.take(i))
                    &&& signature(
                        (#[trigger] externals[i]).name,
                        externals[i].params,
                    ) == Err::<Seq<char>, Fault>(fault)
                },
        },
{
    lemma_signatures(externals, externals.len());
}

/// The signatures of the first external functions.
proof fn lemma_signatures(externals: Seq<External>, k: nat)
    requires
        k <= externals.len(),
    ensures
        match signatures(externals, k) {
            Ok(sigs) => sigs.len() == k && forall|i: int|
                #![trigger externals[i]]
                0 <= i < k ==> signature(externals[i].name, externals[i].params) == Ok::<
                    Seq<char>,
                    Fault,
                >(sigs[i]),
            Err(fault) => exists|i: int|
                {
                    &&& 0 <= i < k
                    &&& all_signed(externals.take(i))
                    &&& signature(
                        (#[trigger] externals[i]).name,
                        externals[i].params,
                    ) == Err::<Seq<char>, Fault>(fault)
                },
        },
    decreases k,
{
    if k > 0 {
        lemma_signatures(externals, (k - 1) as nat);
        if let Ok(sigs) = signatures(externals, (k - 1) as nat) {
            let x = externals[k - 1];
            assert forall|i: int| #![trigger externals.take(k - 1)[i]] 0 <= i < k - 1 implies
                signature(
                externals.take(k - 1)[i].name,
                externals.take(k - 1)[i].params,
            ) is Ok by {
                assert(externals.take(k - 1)[i] == externals[i]);
            }
            assert(all_signed(externals.take(k - 1)));
            assert(signature(x.name, x.params) is Err ==> signatures(externals, k) is Err);
        }
    }
}

/// The code of the constructor: none where there is no constructor.
pub open spec fn constructor_part(d: Declared) -> Fragment {
    match d.constructor {
        None => Fragment::of(Seq::empty(), 0),
        Some(c) => constructor_code(d.contract, c.params, c.block),
    }
}

/// The code of an external function.
pub open spec fn function_part(d: Declared, i: int) -> Fragment {
    let x = d.externals[i];
    function_code(d.contract, x.params, x.output, x.block)
}

/// The faults in the code of a contract: those of the constructor, and those of the external
/// functions in the order of declaration.
pub open spec fn code_faults(d: Declared) -> Seq<Fault> {
    constructor_part(d).errors + Seq::new(
        d.externals.len(),
        |i: int| function_part(d, i).errors,
    ).flatten()
}

/// The faults of the first fragments.
proof fn lemma_all_errors(fragments: Seq<Fragment>, k: nat)
    requires
        k <= fragments.len(),
    ensures
        all_errors(fragments, k) == Seq::new(k, |i: int| fragments[i].errors).flatten_alt(),
    decreases k,
{
    if k > 0 {
        lemma_all_errors(fragments, (k - 1) as nat);
        assert(Seq::new(k, |i: int| fragments[i].errors).drop_last() =~= Seq::new(
            (k - 1) as nat,
            |i: int| fragments[i].errors,
        ));
    }
}

/// The faults in the code, as the compiler gathers them.
proof fn lemma_code_faults(d: Declared)
    ensures
        creation_fragment(d) == constructor_part(d),
        creation_fragment(d).errors + all_errors(bodies(d), bodies(d).len()) == code_faults(d),
{
    let n = d.externals.len();
    let parts = Seq::new(n, |i: int| function_part(d, i).errors);
    lemma_all_errors(bodies(d), n);
    assert(Seq::new(n, |i: int| bodies(d)[i].errors) =~= parts);
    parts.lemma_flatten_and_flatten_alt_are_equivalent();
    assert(creation_fragment(d) =~= constructor_part(d));
}

/// A contract has no faults in its code if the constructor has none, and no function.
pub proof fn law_code_faults(d: Declared)
    ensures
        code_faults(d).len() == 0 <==> clean(constructor_part(d)) && forall|i: int|
            0 <= i < d.externals.len() ==> clean(#[trigger] function_part(d, i)),
{
    let n = d.externals.len();
    let parts = Seq::new(n, |i: int| function_part(d, i).errors);
    parts.lemma_flatten_and_flatten_alt_are_equivalent();
    lemma_empty_parts(parts);
    if code_faults(d).len() == 0 {
        assert forall|i: int| 0 <= i < n implies clean(#[trigger] function_part(d, i)) by {
            assert(parts[i].len() == 0);
        }
    } else if clean(constructor_part(d)) && forall|i: int|
        0 <= i < n ==> clean(#[trigger] function_part(d, i)) {
        assert forall|i: int| 0 <= i < n implies (#[trigger] parts[i]).len() == 0 by {
            assert(clean(function_part(d, i)));
        }
    }
}

/// Lists that are empty together are empty each.
proof fn lemma_empty_parts(parts: Seq<Seq<Fault>>)
    ensures
        parts.flatten_alt().len() == 0 <==> forall|i: int|
            0 <= i < parts.len() ==> (#[trigger] parts[i]).len() == 0,
    decreases parts.len(),
{
    if parts.len() > 0 {
        let init = parts.drop_last();
        lemma_empty_parts(init);
        if parts.flatten_alt().len() == 0 {
            assert forall|i: int| 0 <= i < parts.len() implies (#[trigger] parts[i]).len() == 0 by {
                if i < init.len() {
                    assert(init[i].len() == 0);
                }
            }
        }
        if forall|i: int| 0 <= i < parts.len() ==> (#[trigger] parts[i]).len() == 0 {
            assert forall|i: int| 0 <= i < init.len() implies (#[trigger] init[i]).len() == 0 by {
                assert(parts[i].len() == 0);
            }
        }
    }
}

/// The bytes of the constructor of a contract.
pub open spec fn constructor_bytes(d: Declared) -> Seq<u8> {
    assembled(constructor_part(d).program.instrs)
}

/// A module that cannot be read, whose functions have no signatures, or whose interface cannot be
/// written down, is refused with the one fault that says so.
pub proof fn law_unreadable(items: Seq<Item>)
    ensures
        match declared(items, items.len()) {
            Err(fault) => compiled(items) == Err::<Compiled, Seq<Fault>>(seq![fault]),
            Ok(d) => match signatures(d.externals, d.externals.len()) {
                Err(fault) => compiled(items) == Err::<Compiled, Seq<Fault>>(seq![fault]),
                Ok(_) => abi_text(d) matches Err(fault) ==> compiled(items) == Err::<
                    Compiled,
                    Seq<Fault>,
                >(seq![fault]),
            },
        },
{
}

/// A module with faults in its code is refused with all of them. One without compiles, as long as
/// it is not too large, to code that deploys it and to its interface in JSON.
pub proof fn law_compiled(items: Seq<Item>, d: Declared, sigs: Seq<Seq<char>>, abi: Seq<char>)
    requires
        declared(items, items.len()) == Ok::<Declared, Fault>(d),
        signatures(d.externals, d.externals.len()) == Ok::<Seq<Seq<char>>, Fault>(sigs),
        abi_text(d) == Ok::<Seq<char>, Fault>(abi),
    ensures
        ({
            let whole = runtime(contract_entries(d, sigs));
            let code = runtime_code(d, sigs);
            let first = constructor_bytes(d);
            if code_faults(d).len() > 0 {
                compiled(items) == Err::<Compiled, Seq<Fault>>(code_faults(d))
            } else if whole.labels > u32::MAX {
                compiled(items) == Err::<Compiled, Seq<Fault>>(
                    seq![Fault { kind: ErrorKind::TooManyLabels, subject: Seq::empty() }],
                )
            } else if code.len() > 0xFFFF || first.len() + 15 > 0xFFFF || !operands_valid(
                whole.instrs,
            ) || !operands_valid(constructor_part(d).program.instrs) {
                compiled(items) == Err::<Compiled, Seq<Fault>>(
                    seq![Fault { kind: ErrorKind::CodeTooLarge, subject: Seq::empty() }],
                )
            } else {
                &&& compiled(items) matches Ok(both)
                &&& both.abi_json == abi
                &&& both.deploy_code.len() == first.len() + 15 + code.len()
                &&& both.deploy_code.take(first.len() as int) == first
                &&& both.deploy_code.skip((first.len() + 15) as int) == code
            }
        }),
{
    let whole = runtime(contract_entries(d, sigs));
    lemma_code_faults(d);
    law_bytes_in_order(whole.instrs);
    law_bytes_in_order(constructor_part(d).program.instrs);
    law_combinable(contract_entries(d, sigs));
    law_creation_code(constructor_bytes(d), runtime_code(d, sigs));
}

/// The entry points of a contract are its external functions, in the order of declaration.
pub proof fn law_entry_points(d: Declared, sigs: Seq<Seq<char>>, i: int)
    requires
        signatures(d.externals, d.externals.len()) == Ok::<Seq<Seq<char>>, Fault>(sigs),
        0 <= i < d.externals.len(),
    ensures
        contract_entries(d, sigs).len() == d.externals.len(),
        contract_entries(d, sigs)[i].body == function_part(d, i).program,
        signature(d.externals[i].name, d.externals[i].params) matches Ok(sig) && contract_entries(
            d,
            sigs,
        )[i].selector == keccak256_digest(encode_utf8(sig)).take(4),
{
    law_signatures(d.externals);
}

/// A fault that is about nothing in particular, in place of what was asked for.
pub open spec fn refused<T>(kind: ErrorKind) -> Result<T, Fault> {
    Err(Fault { kind, subject: Seq::empty() })
}

/// An argument whose pattern is no name is the only fault that parameters can have.
pub proof fn law_refused_parameters(inputs: Seq<FnArg>, k: nat)
    ensures
        params_prefix(inputs, k) is Err ==> params_prefix(inputs, k) == refused::<Seq<Parameter>>(
            ErrorKind::ArgumentPattern,
        ),
        params_spec(inputs) == params_prefix(inputs, inputs.len()),
    decreases k,
{
    if k > 0 {
        law_refused_parameters(inputs, (k - 1) as nat);
    }
}

/// A storage field without a name is refused, and one whose type is no path. The first fault
/// counts.
pub proof fn law_refused_field(contract: Contract, fields: Seq<StructField>, k: nat)
    requires
        k < fields.len(),
    ensures
        with_storage(contract, fields, 0) is Ok,
        ({
            let now = with_storage(contract, fields, k + 1);
            match with_storage(contract, fields, k) {
                Err(fault) => now == Err::<Contract, Fault>(fault),
                Ok(_) => if fields[k as int].name is None {
                    now == refused::<Contract>(ErrorKind::TupleField)
                } else if fields[k as int].ty !is Path {
                    now == refused::<Contract>(ErrorKind::FieldKindType)
                } else {
                    now is Ok
                },
            }
        }),
{
}

/// A field of an event without a name is refused. The first fault counts.
pub proof fn law_refused_event_field(fields: Seq<StructField>, k: nat)
    requires
        k < fields.len(),
    ensures
        event_parameters(fields, 0) is Ok,
        ({
            let now = event_parameters(fields, k + 1);
            match event_parameters(fields, k) {
                Err(fault) => now == Err::<Seq<EventParameter>, Fault>(fault),
                Ok(_) => if fields[k as int].name is None {
                    now == refused::<Seq<EventParameter>>(ErrorKind::TupleField)
                } else {
                    now is Ok
                },
            }
        }),
{
}

/// A function of an interface is refused with the fault of its parameters or of its signature. The
/// first fault counts.
pub proof fn law_refused_interface(sigs: Seq<Signature>, k: nat)
    requires
        k < sigs.len(),
    ensures
        foreign_methods(sigs, 0) is Ok,
        ({
            let now = foreign_methods(sigs, k + 1);
            match foreign_methods(sigs, k) {
                Err(fault) => now == Err::<Seq<(Seq<char>, ForeignMethod)>, Fault>(fault),
                Ok(_) => match params_spec(sigs[k as int].inputs@) {
                    Err(fault) => now == Err::<Seq<(Seq<char>, ForeignMethod)>, Fault>(fault),
                    Ok(params) => match signature(sigs[k as int].name@, params) {
                        Err(fault) => now == Err::<Seq<(Seq<char>, ForeignMethod)>, Fault>(fault),
                        Ok(_) => now is Ok,
                    },
                },
            }
        }),
{
}

/// A function is refused with the fault of its parameters, and a constructor if there was one
/// before. The first fault of an impl block counts.
pub proof fn law_refused_function(d: Declared, methods: Seq<Method>, k: nat)
    requires
        k < methods.len(),
    ensures
        with_methods(d, methods, 0) == Ok::<Declared, Fault>(d),
        ({
            let now = with_methods(d, methods, k + 1);
            let method = methods[k as int];
            match with_methods(d, methods, k) {
                Err(fault) => now == Err::<Declared, Fault>(fault),
                Ok(before) => match params_spec(method.inputs@) {
                    Err(fault) => now == Err::<Declared, Fault>(fault),
                    Ok(_) => if !marked(method.attrs@, "external"@) && marked(
                        method.attrs@,
                        "constructor"@,
                    ) && before.constructor is Some {
                        now == refused::<Declared>(ErrorKind::SecondConstructor)
                    } else {
                        now is Ok
                    },
                },
            }
        }),
{
    let attrs = methods[k as int].attrs@;
    lemma_marked(attrs, "external"@);
    lemma_marked(attrs, "constructor"@);
}

/// An item is refused with the fault of what it declares. The first fault of a module counts.
pub proof fn law_refused_item(items: Seq<Item>, k: nat)
    requires
        k < items.len(),
    ensures
        declared(items, 0) is Ok,
        ({
            let now = declared(items, k + 1);
            match declared(items, k) {
                Err(fault) => now == Err::<Declared, Fault>(fault),
                Ok(d) => match items[k as int] {
                    Item::Struct(attrs, _, fields) => if marked(attrs@, "storage"@) {
                        match with_storage(d.contract, fields@, fields@.len()) {
                            Err(fault) => now == Err::<Declared, Fault>(fault),
                            Ok(_) => now is Ok,
                        }
                    } else if marked(attrs@, "event"@) {
                        match event_parameters(fields@, fields@.len()) {
                            Err(fault) => now == Err::<Declared, Fault>(fault),
                            Ok(_) => now is Ok,
                        }
                    } else {
                        now == Ok::<Declared, Fault>(d)
                    },
                    Item::Impl(methods) => now == with_methods(d, methods@, methods@.len()),
                    Item::Trait(attrs, _, sigs) => if marked(attrs@, "interface"@) {
                        match foreign_methods(sigs@, sigs@.len()) {
                            Err(fault) => now == Err::<Declared, Fault>(fault),
                            Ok(_) => now is Ok,
                        }
                    } else {
                        now == Ok::<Declared, Fault>(d)
                    },
                    Item::Other => now == Ok::<Declared, Fault>(d),
                },
            }
        }),
{
    match items[k as int] {
        Item::Struct(attrs, _, _) => {
            lemma_marked(attrs@, "storage"@);
            lemma_marked(attrs@, "event"@);
        },
        Item::Trait(attrs, _, _) => {
            lemma_marked(attrs@, "interface"@);
        },
        _ => {},
    }
}

} // verus!
