//! What a contract module declares, read off its items: which functions, fields, events and
//! interfaces there are, and what is known of each.

use vstd::prelude::*;

use crate::abi::{params_prefix, params_spec, signature, Parameter};
use crate::ast::{FnArg, Item, Method, Signature, StructField, Type};
use crate::errors::{ErrorKind, Fault};
use crate::model::{Contract, Event, EventParameter, FieldKind, ForeignMethod, Internal};
use crate::module::{
    declared, event_parameters, foreign_methods, has_attribute, with_item, with_method,
    with_methods, with_storage, Constructor, Declared, External,
};
use crate::names::lookup;
use crate::text::texts;

verus! {

/// Whether an attribute with the given name stands above an item.
pub open spec fn marked(attrs: Seq<String>, name: Seq<char>) -> bool {
    exists|i: int| 0 <= i < attrs.len() && (#[trigger] attrs[i])@ == name
}

/// Whether the first argument is `&mut self`.
pub open spec fn takes_mut_self(inputs: Seq<FnArg>) -> bool {
    inputs.len() > 0 && inputs[0] == FnArg::Receiver(true)
}

/// Whether every argument but the receiver is a plain name with a type.
pub open spec fn plainly_named(inputs: Seq<FnArg>) -> bool {
    forall|i: int|
        0 <= i < inputs.len() ==> ((#[trigger] inputs[i]) matches FnArg::Typed(pat, _) ==> pat
            is Ident)
}

/// Whether an argument is no receiver.
pub open spec fn is_typed(arg: FnArg) -> bool {
    arg is Typed
}

/// The parameter that an argument with a plain name is.
pub open spec fn as_parameter(arg: FnArg) -> Parameter {
    Parameter { name: (arg->Typed_0)->Ident_0@, ty: arg->Typed_1 }
}

/// The arguments that are no receivers, each with its name and its type, in their order.
pub open spec fn named_arguments(inputs: Seq<FnArg>) -> Seq<Parameter> {
    inputs.filter(|a: FnArg| is_typed(a)).map_values(|a: FnArg| as_parameter(a))
}

/// One more element at the end of a list of which some are kept.
proof fn lemma_filter_push<A>(s: Seq<A>, x: A, p: spec_fn(A) -> bool)
    ensures
        s.push(x).filter(p) == if p(x) {
            s.filter(p).push(x)
        } else {
            s.filter(p)
        },
{
    reveal(Seq::filter);
    assert(s.push(x).drop_last() =~= s);
}

/// One more element at the end of a list of which some are kept and changed.
proof fn lemma_kept_push<A, B>(s: Seq<A>, x: A, p: spec_fn(A) -> bool, f: spec_fn(A) -> B)
    ensures
        s.push(x).filter(p).map_values(f) == if p(x) {
            s.filter(p).map_values(f).push(f(x))
        } else {
            s.filter(p).map_values(f)
        },
{
    lemma_filter_push(s, x, p);
    assert(s.filter(p).push(x).map_values(f) =~= s.filter(p).map_values(f).push(f(x)));
}

/// The parameters of the first arguments.
proof fn lemma_params_prefix(inputs: Seq<FnArg>, k: nat)
    requires
        k <= inputs.len(),
    ensures
        params_prefix(inputs, k) == if plainly_named(inputs.take(k as int)) {
            Ok(named_arguments(inputs.take(k as int)))
        } else {
            Err(Fault { kind: ErrorKind::ArgumentPattern, subject: Seq::empty() })
        },
    decreases k,
{
    let now = inputs.take(k as int);
    reveal(Seq::filter);
    if k == 0 {
        assert(named_arguments(now) =~= Seq::empty());
    } else {
        let j = (k - 1) as nat;
        let before = inputs.take(j as int);
        lemma_params_prefix(inputs, j);
        assert(now =~= before.push(inputs[k - 1]));
        lemma_kept_push(
            before,
            inputs[k - 1],
            |a: FnArg| is_typed(a),
            |a: FnArg| as_parameter(a),
        );
        assert(now[k - 1] == inputs[k - 1]);
        assert forall|i: int| 0 <= i < j implies before[i] == now[i] by {}
    }
}

/// The parameters of a function are its arguments but for the receiver, in their order, each with
/// its name and its type. A function with another pattern than a name is refused.
pub proof fn law_parameters(inputs: Seq<FnArg>)
    ensures
        params_spec(inputs) == if plainly_named(inputs) {
            Ok(named_arguments(inputs))
        } else {
            Err(Fault { kind: ErrorKind::ArgumentPattern, subject: Seq::empty() })
        },
{
    lemma_params_prefix(inputs, inputs.len());
    assert(inputs.take(inputs.len() as int) =~= inputs);
}

/// A parameter behind the others is the last one, and a receiver is none.
pub proof fn law_named_arguments(inputs: Seq<FnArg>, arg: FnArg)
    ensures
        named_arguments(Seq::empty()) == Seq::<Parameter>::empty(),
        named_arguments(inputs.push(arg)) == match arg {
            FnArg::Receiver(_) => named_arguments(inputs),
            FnArg::Typed(pat, ty) => named_arguments(inputs).push(
                Parameter { name: pat->Ident_0@, ty },
            ),
        },
{
    reveal(Seq::filter);
    assert(named_arguments(Seq::empty()) =~= Seq::<Parameter>::empty());
    lemma_kept_push(inputs, arg, |a: FnArg| is_typed(a), |a: FnArg| as_parameter(a));
}

/// The functions of all impl blocks, in their order.
pub open spec fn functions(items: Seq<Item>) -> Seq<Method>
    decreases items.len(),
{
    if items.len() == 0 {
        Seq::empty()
    } else {
        functions(items.drop_last()) + match items.last() {
            Item::Impl(methods) => methods@,
            _ => Seq::empty(),
        }
    }
}

/// Whether transactions can call a function.
pub open spec fn is_external(m: Method) -> bool {
    marked(m.attrs@, "external"@)
}

/// Whether a function runs when the contract is deployed.
pub open spec fn is_constructor(m: Method) -> bool {
    !marked(m.attrs@, "external"@) && marked(m.attrs@, "constructor"@)
}

/// Whether only the contract itself calls a function.
pub open spec fn is_internal(m: Method) -> bool {
    !marked(m.attrs@, "external"@) && !marked(m.attrs@, "constructor"@)
}

/// An external function: it can write if its first argument is `&mut self`, whatever else it has.
pub open spec fn as_external(m: Method) -> External {
    External {
        name: m.name@,
        params: named_arguments(m.inputs@),
        output: m.output,
        block: m.block@,
        mutable: takes_mut_self(m.inputs@),
    }
}

/// The constructor.
pub open spec fn as_constructor(m: Method) -> Constructor {
    Constructor { params: named_arguments(m.inputs@), block: m.block@ }
}

/// An internal function under its name.
pub open spec fn as_internal(m: Method) -> (Seq<char>, Internal) {
    (
        m.name@,
        Internal { params: named_arguments(m.inputs@), output: m.output, block: m.block@ },
    )
}

/// Whether a list of functions is what has been declared.
pub open spec fn declares_functions(d: Declared, fs: Seq<Method>) -> bool {
    &&& d.externals == fs.filter(|m: Method| is_external(m)).map_values(
        |m: Method| as_external(m),
    )
    &&& d.contract.internal_functions == fs.filter(|m: Method| is_internal(m)).map_values(
        |m: Method| as_internal(m),
    )
    &&& fs.filter(|m: Method| is_constructor(m)).len() <= 1
    &&& d.constructor == if fs.filter(|m: Method| is_constructor(m)).len() == 0 {
        None
    } else {
        Some(as_constructor(fs.filter(|m: Method| is_constructor(m))[0]))
    }
}

/// The attributes that the declarations look for.
pub proof fn lemma_marked(attrs: Seq<String>, name: Seq<char>)
    ensures
        has_attribute(attrs, name) == marked(attrs, name),
{
    if has_attribute(attrs, name) {
        let i = choose|i: int| 0 <= i < texts(attrs).len() && texts(attrs)[i] == name;
        assert(attrs[i]@ == name);
    }
    if marked(attrs, name) {
        let i = choose|i: int| 0 <= i < attrs.len() && (#[trigger] attrs[i])@ == name;
        assert(texts(attrs)[i] == name);
    }
}

/// One more function.
proof fn lemma_declares_function(d: Declared, m: Method, fs: Seq<Method>)
    requires
        declares_functions(d, fs),
    ensures
        with_method(d, m) matches Ok(after) ==> {
            &&& plainly_named(m.inputs@)
            &&& declares_functions(after, fs.push(m))
            &&& after.contract.storage == d.contract.storage
            &&& after.contract.field_types == d.contract.field_types
            &&& after.contract.events == d.contract.events
            &&& after.contract.interfaces == d.contract.interfaces
        },
        with_method(d, m) is Ok <==> plainly_named(m.inputs@) && (is_constructor(m)
            ==> d.constructor is None),
{
    law_parameters(m.inputs@);
    lemma_marked(m.attrs@, "external"@);
    lemma_marked(m.attrs@, "constructor"@);
    lemma_kept_push(fs, m, |m: Method| is_external(m), |m: Method| as_external(m));
    lemma_kept_push(fs, m, |m: Method| is_internal(m), |m: Method| as_internal(m));
    lemma_filter_push(fs, m, |m: Method| is_constructor(m));
}

/// The functions of an impl block.
proof fn lemma_declares_methods(d: Declared, methods: Seq<Method>, k: nat, fs: Seq<Method>)
    requires
        k <= methods.len(),
        declares_functions(d, fs),
    ensures
        with_methods(d, methods, k) matches Ok(after) ==> {
            &&& declares_functions(after, fs + methods.take(k as int))
            &&& after.contract.storage == d.contract.storage
            &&& after.contract.field_types == d.contract.field_types
            &&& after.contract.events == d.contract.events
            &&& after.contract.interfaces == d.contract.interfaces
        },
    decreases k,
{
    if k == 0 {
        assert(fs + methods.take(0) =~= fs);
    } else {
        let j = (k - 1) as nat;
        lemma_declares_methods(d, methods, j, fs);
        if let Ok(before) = with_methods(d, methods, j) {
            lemma_declares_function(before, methods[k - 1], fs + methods.take(j as int));
            assert((fs + methods.take(j as int)).push(methods[k - 1]) =~= fs + methods.take(
                k as int,
            ));
        }
    }
}

/// The fields of all structs that are marked as storage, in their order.
pub open spec fn storage_fields(items: Seq<Item>) -> Seq<StructField>
    decreases items.len(),
{
    if items.len() == 0 {
        Seq::empty()
    } else {
        storage_fields(items.drop_last()) + match items.last() {
            Item::Struct(attrs, _, fields) => if marked(attrs@, "storage"@) {
                fields@
            } else {
                Seq::empty()
            },
            _ => Seq::empty(),
        }
    }
}

/// What a storage field holds, by the outer name of its type.
pub open spec fn holds_kind(ty: Type, kind: FieldKind) -> bool {
    match ty {
        Type::Path(name, _) => match kind {
            FieldKind::Mapping => name@ == "Mapping"@,
            FieldKind::Array => name@ == "Array"@,
            FieldKind::Scalar => name@ != "Mapping"@ && name@ != "Array"@,
        },
        _ => false,
    }
}

/// Whether a list of fields is what has been declared: each has the slot of its position, and its
/// type.
pub open spec fn declares_fields(contract: Contract, fields: Seq<StructField>) -> bool {
    &&& contract.storage.len() == fields.len()
    &&& contract.field_types.len() == fields.len()
    &&& forall|i: int|
        #![trigger contract.storage[i]]
        #![trigger contract.field_types[i]]
        0 <= i < fields.len() ==> {
            &&& fields[i].name is Some
            &&& contract.storage[i].0 == fields[i].name->Some_0@
            &&& contract.storage[i].1.slot == i as u64
            &&& holds_kind(fields[i].ty, contract.storage[i].1.kind)
            &&& contract.field_types[i] == (fields[i].name->Some_0@, fields[i].ty)
        }
}

/// Fields that are added to the storage.
proof fn lemma_declares_storage(
    contract: Contract,
    fields: Seq<StructField>,
    k: nat,
    before: Seq<StructField>,
)
    requires
        k <= fields.len(),
        declares_fields(contract, before),
    ensures
        with_storage(contract, fields, k) matches Ok(after) ==> {
            &&& declares_fields(after, before + fields.take(k as int))
            &&& after.events == contract.events
            &&& after.internal_functions == contract.internal_functions
            &&& after.interfaces == contract.interfaces
        },
    decreases k,
{
    if k == 0 {
        assert(before + fields.take(0) =~= before);
    } else {
        let j = (k - 1) as nat;
        lemma_declares_storage(contract, fields, j, before);
        let old_fields = before + fields.take(j as int);
        let new_fields = before + fields.take(k as int);
        assert(new_fields =~= old_fields.push(fields[k - 1]));
        if let Ok(mid) = with_storage(contract, fields, j) {
            if let Ok(after) = with_storage(contract, fields, k) {
                assert forall|i: int|
                    #![trigger after.storage[i]]
                    #![trigger after.field_types[i]]
                    0 <= i < new_fields.len() implies {
                    &&& new_fields[i].name is Some
                    &&& after.storage[i].0 == new_fields[i].name->Some_0@
                    &&& after.storage[i].1.slot == i as u64
                    &&& holds_kind(new_fields[i].ty, after.storage[i].1.kind)
                    &&& after.field_types[i] == (new_fields[i].name->Some_0@, new_fields[i].ty)
                } by {
                    if i < old_fields.len() {
                        assert(after.storage[i] == mid.storage[i]);
                        assert(after.field_types[i] == mid.field_types[i]);
                        assert(new_fields[i] == old_fields[i]);
                    } else {
                        assert(new_fields[i] == fields[k - 1]);
                    }
                }
            }
        }
    }
}

/// Whether an item is an event.
pub open spec fn is_event(item: Item) -> bool {
    item matches Item::Struct(attrs, _, _) && marked(attrs@, "event"@) && !marked(
        attrs@,
        "storage"@,
    )
}

/// A field of an event.
pub open spec fn as_event_field(field: StructField) -> EventParameter {
    EventParameter {
        name: field.name->Some_0@,
        ty: field.ty,
        indexed: marked(field.attrs@, "indexed"@),
    }
}

/// An event under its name: all of its fields, in their order.
pub open spec fn as_event(item: Item) -> (Seq<char>, Event) {
    let name = item->Struct_1@;
    let fields = item->Struct_2@;
    (name, Event { name, fields: fields.map_values(|f: StructField| as_event_field(f)) })
}

/// The fields of an event.
proof fn lemma_event_fields(fields: Seq<StructField>, k: nat)
    requires
        k <= fields.len(),
    ensures
        event_parameters(fields, k) matches Ok(params) ==> params == fields.take(
            k as int,
        ).map_values(|f: StructField| as_event_field(f)),
        event_parameters(fields, k) is Ok <==> (forall|i: int|
            0 <= i < k ==> (#[trigger] fields[i]).name is Some),
    decreases k,
{
    let f = |f: StructField| as_event_field(f);
    if k == 0 {
        assert(fields.take(0).map_values(f) =~= Seq::empty());
    } else {
        let j = (k - 1) as nat;
        lemma_event_fields(fields, j);
        lemma_marked(fields[k - 1].attrs@, "indexed"@);
        assert(fields.take(k as int).map_values(f) =~= fields.take(j as int).map_values(f).push(
            f(fields[k - 1]),
        ));
    }
}

/// Whether an item is the interface of another contract.
pub open spec fn is_interface(item: Item) -> bool {
    item matches Item::Trait(attrs, _, _) && marked(attrs@, "interface"@)
}

/// A function of another contract under its name: it is called so that it can write if its first
/// argument is `&mut self`, whatever parameters and result it has.
pub open spec fn as_foreign(sig: Signature) -> (Seq<char>, ForeignMethod) {
    (
        sig.name@,
        ForeignMethod {
            sig: signature(sig.name@, named_arguments(sig.inputs@))->Ok_0,
            params: named_arguments(sig.inputs@),
            output: sig.output,
            mutable: takes_mut_self(sig.inputs@),
        },
    )
}

/// The interface of another contract under its name: all of its functions.
pub open spec fn as_interface(item: Item) -> (Seq<char>, Seq<(Seq<char>, ForeignMethod)>) {
    (item->Trait_1@, item->Trait_2@.map_values(|s: Signature| as_foreign(s)))
}

/// The functions of an interface.
proof fn lemma_foreign(sigs: Seq<Signature>, k: nat)
    requires
        k <= sigs.len(),
    ensures
        foreign_methods(sigs, k) matches Ok(methods) ==> methods == sigs.take(k as int).map_values(
            |s: Signature| as_foreign(s),
        ),
        foreign_methods(sigs, k) is Ok <==> (forall|i: int|
            0 <= i < k ==> {
                &&& plainly_named((#[trigger] sigs[i]).inputs@)
                &&& signature(sigs[i].name@, named_arguments(sigs[i].inputs@)) is Ok
            }),
    decreases k,
{
    let f = |s: Signature| as_foreign(s);
    if k == 0 {
        assert(sigs.take(0).map_values(f) =~= Seq::empty());
    } else {
        let j = (k - 1) as nat;
        lemma_foreign(sigs, j);
        law_parameters(sigs[k - 1].inputs@);
        assert(sigs.take(k as int).map_values(f) =~= sigs.take(j as int).map_values(f).push(
            f(sigs[k - 1]),
        ));
    }
}

/// What a module declares, read off its items: every function with its attribute, name, parameters,
/// result and body; every storage field with the slot of its position and its type; every event
/// with all of its fields; and every interface with all of its functions.
pub open spec fn declares(d: Declared, items: Seq<Item>) -> bool {
    &&& declares_functions(d, functions(items))
    &&& declares_fields(d.contract, storage_fields(items))
    &&& d.contract.events == items.filter(|i: Item| is_event(i)).map_values(
        |i: Item| as_event(i),
    )
    &&& d.contract.interfaces == items.filter(|i: Item| is_interface(i)).map_values(
        |i: Item| as_interface(i),
    )
}

/// A module declares what stands in it.
pub proof fn law_declared(items: Seq<Item>, k: nat)
    requires
        k <= items.len(),
    ensures
        declared(items, k) matches Ok(d) ==> declares(d, items.take(k as int)),
    decreases k,
{
    let now = items.take(k as int);
    reveal(Seq::filter);
    if k == 0 {
        let d = Declared::nothing();
        let none = Seq::<Method>::empty();
        assert(functions(now) =~= none);
        assert(storage_fields(now) =~= Seq::empty());
        assert(none.filter(|m: Method| is_external(m)).map_values(|m: Method| as_external(m))
            =~= Seq::empty());
        assert(none.filter(|m: Method| is_internal(m)).map_values(|m: Method| as_internal(m))
            =~= Seq::empty());
        assert(now.filter(|i: Item| is_event(i)).map_values(|i: Item| as_event(i))
            =~= Seq::empty());
        assert(now.filter(|i: Item| is_interface(i)).map_values(|i: Item| as_interface(i))
            =~= Seq::empty());
    } else {
        let j = (k - 1) as nat;
        law_declared(items, j);
        if let Ok(before) = declared(items, j) {
            lemma_declares_item(before, items.take(j as int), items[k - 1]);
            assert(now =~= items.take(j as int).push(items[k - 1]));
        }
    }
}

/// One more item.
proof fn lemma_declares_item(before: Declared, items: Seq<Item>, item: Item)
    requires
        declares(before, items),
    ensures
        with_item(before, item) matches Ok(d) ==> declares(d, items.push(item)),
{
    let now = items.push(item);
    assert(now.drop_last() =~= items);
    assert(now.last() == item);
    lemma_kept_push(items, item, |i: Item| is_event(i), |i: Item| as_event(i));
    lemma_kept_push(items, item, |i: Item| is_interface(i), |i: Item| as_interface(i));
    if with_item(before, item) is Ok {
        match item {
            Item::Struct(attrs, name, fields) => {
                lemma_marked(attrs@, "storage"@);
                lemma_marked(attrs@, "event"@);
                assert(functions(now) =~= functions(items));
                if marked(attrs@, "storage"@) {
                    let n = fields@.len();
                    lemma_declares_storage(
                        before.contract,
                        fields@,
                        n,
                        storage_fields(items),
                    );
                    assert(fields@.take(n as int) =~= fields@);
                } else {
                    assert(storage_fields(now) =~= storage_fields(items));
                    lemma_event_fields(fields@, fields@.len());
                    assert(fields@.take(fields@.len() as int) =~= fields@);
                }
            },
            Item::Impl(methods) => {
                let n = methods@.len();
                assert(storage_fields(now) =~= storage_fields(items));
                lemma_declares_methods(before, methods@, n, functions(items));
                assert(methods@.take(n as int) =~= methods@);
            },
            Item::Trait(attrs, name, sigs) => {
                lemma_marked(attrs@, "interface"@);
                assert(functions(now) =~= functions(items));
                assert(storage_fields(now) =~= storage_fields(items));
                lemma_foreign(sigs@, sigs@.len());
                assert(sigs@.take(sigs@.len() as int) =~= sigs@);
            },
            Item::Other => {
                assert(functions(now) =~= functions(items));
                assert(storage_fields(now) =~= storage_fields(items));
            },
        }
    }
}

/// The last entry of a name among those that are kept.
proof fn lemma_lookup_kept<A, V>(
    s: Seq<A>,
    p: spec_fn(A) -> bool,
    f: spec_fn(A) -> (Seq<char>, V),
    i: int,
)
    requires
        0 <= i < s.len(),
        p(s[i]),
        forall|j: int| i < j < s.len() && p(#[trigger] s[j]) ==> f(s[j]).0 != f(s[i]).0,
    ensures
        lookup(s.filter(p).map_values(f), f(s[i]).0) == Some(f(s[i]).1),
    decreases s.len(),
{
    let rest = s.drop_last();
    let kept = s.filter(p).map_values(f);
    assert(s =~= rest.push(s.last()));
    lemma_kept_push(rest, s.last(), p, f);
    if i == s.len() - 1 {
        assert(kept.last() == f(s[i]));
    } else {
        assert(rest[i] == s[i]);
        assert forall|j: int| i < j < rest.len() && p(#[trigger] rest[j]) implies f(rest[j]).0
            != f(rest[i]).0 by {
            assert(rest[j] == s[j]);
        }
        lemma_lookup_kept(rest, p, f, i);
        let before = rest.filter(p).map_values(f);
        if p(s.last()) {
            assert(kept.drop_last() =~= before);
            assert(kept.last() == f(s[s.len() - 1]));
        }
    }
}

/// A name that no entry among those that are kept has.
proof fn lemma_lookup_none<A, V>(
    s: Seq<A>,
    p: spec_fn(A) -> bool,
    f: spec_fn(A) -> (Seq<char>, V),
    name: Seq<char>,
)
    requires
        forall|j: int| 0 <= j < s.len() && p(#[trigger] s[j]) ==> f(s[j]).0 != name,
    ensures
        lookup(s.filter(p).map_values(f), name) is None,
    decreases s.len(),
{
    reveal(Seq::filter);
    if s.len() > 0 {
        let rest = s.drop_last();
        assert(s =~= rest.push(s.last()));
        lemma_kept_push(rest, s.last(), p, f);
        assert forall|j: int| 0 <= j < rest.len() && p(#[trigger] rest[j]) implies f(rest[j]).0
            != name by {
            assert(rest[j] == s[j]);
        }
        lemma_lookup_none(rest, p, f, name);
        let kept = s.filter(p).map_values(f);
        if p(s.last()) {
            assert(p(s[s.len() - 1]));
            assert(kept.drop_last() =~= rest.filter(p).map_values(f));
        }
    }
}

/// The last entry of a name in a list of which all are kept.
proof fn lemma_lookup_mapped<A, V>(s: Seq<A>, f: spec_fn(A) -> (Seq<char>, V), i: int)
    requires
        0 <= i < s.len(),
        forall|j: int| i < j < s.len() ==> f(#[trigger] s[j]).0 != f(s[i]).0,
    ensures
        lookup(s.map_values(f), f(s[i]).0) == Some(f(s[i]).1),
    decreases s.len(),
{
    let all = s.map_values(f);
    let rest = s.drop_last();
    assert(all.drop_last() =~= rest.map_values(f));
    if i == s.len() - 1 {
        assert(all.last() == f(s[i]));
    } else {
        assert(rest[i] == s[i]);
        assert forall|j: int| i < j < rest.len() implies f(#[trigger] rest[j]).0
            != f(rest[i]).0 by {
            assert(rest[j] == s[j]);
        }
        lemma_lookup_mapped(rest, f, i);
        assert(f(s[s.len() - 1]).0 != f(s[i]).0);
    }
}

/// A function of an interface is known under the name of the interface and its own name. It may
/// write if and only if its first argument is `&mut self`, whatever its parameters and its result,
/// and its parameters and its result are those that were declared.
pub proof fn law_interface_method(items: Seq<Item>, d: Declared, p: int, q: int)
    requires
        declared(items, items.len()) == Ok::<Declared, Fault>(d),
        0 <= p < items.len(),
        is_interface(items[p]),
        forall|j: int|
            p < j < items.len() && is_interface(#[trigger] items[j]) ==> items[j]->Trait_1@
                != items[p]->Trait_1@,
        0 <= q < items[p]->Trait_2@.len(),
        forall|j: int|
            q < j < items[p]->Trait_2@.len() ==> (#[trigger] items[p]->Trait_2@[j]).name@
                != items[p]->Trait_2@[q].name@,
    ensures
        ({
            let sig = items[p]->Trait_2@[q];
            &&& lookup(d.contract.interfaces, items[p]->Trait_1@) matches Some(methods)
            &&& lookup(methods, sig.name@) matches Some(m)
            &&& m.mutable == (sig.inputs@.len() > 0 && sig.inputs@[0] == FnArg::Receiver(true))
            &&& m.params == named_arguments(sig.inputs@)
            &&& m.output == sig.output
            &&& signature(sig.name@, m.params) == Ok::<Seq<char>, Fault>(m.sig)
        }),
{
    law_declared(items, items.len());
    assert(items.take(items.len() as int) =~= items);
    let f = |i: Item| as_interface(i);
    lemma_lookup_kept(items, |i: Item| is_interface(i), f, p);
    let sigs = items[p]->Trait_2@;
    lemma_lookup_mapped(sigs, |s: Signature| as_foreign(s), q);
    lemma_declared_interface(items, items.len(), p);
    lemma_foreign(sigs, sigs.len());
}

/// An interface that was declared was accepted.
proof fn lemma_declared_interface(items: Seq<Item>, k: nat, p: int)
    requires
        0 <= p < k <= items.len(),
        declared(items, k) is Ok,
        is_interface(items[p]),
    ensures
        foreign_methods(items[p]->Trait_2@, items[p]->Trait_2@.len()) is Ok,
    decreases k,
{
    if p < k - 1 {
        lemma_declared_interface(items, (k - 1) as nat, p);
    } else {
        lemma_marked(items[p]->Trait_0@, "interface"@);
    }
}

/// An internal function is known under its name, with its parameters, its result and its body.
pub proof fn law_internal_function(items: Seq<Item>, d: Declared, i: int)
    requires
        declared(items, items.len()) == Ok::<Declared, Fault>(d),
        0 <= i < functions(items).len(),
        is_internal(functions(items)[i]),
        forall|j: int|
            i < j < functions(items).len() && is_internal(#[trigger] functions(items)[j])
                ==> functions(items)[j].name@ != functions(items)[i].name@,
    ensures
        ({
            let m = functions(items)[i];
            lookup(d.contract.internal_functions, m.name@) == Some(
                Internal { params: named_arguments(m.inputs@), output: m.output, block: m.block@ },
            )
        }),
{
    law_declared(items, items.len());
    assert(items.take(items.len() as int) =~= items);
    lemma_lookup_kept(
        functions(items),
        |m: Method| is_internal(m),
        |m: Method| as_internal(m),
        i,
    );
}

/// A name that no internal function has is not known as one.
pub proof fn law_no_internal_function(items: Seq<Item>, d: Declared, name: Seq<char>)
    requires
        declared(items, items.len()) == Ok::<Declared, Fault>(d),
        forall|j: int|
            0 <= j < functions(items).len() && is_internal(#[trigger] functions(items)[j])
                ==> functions(items)[j].name@ != name,
    ensures
        lookup(d.contract.internal_functions, name) is None,
{
    law_declared(items, items.len());
    assert(items.take(items.len() as int) =~= items);
    lemma_lookup_none(
        functions(items),
        |m: Method| is_internal(m),
        |m: Method| as_internal(m),
        name,
    );
}

/// An event is known under its name, with all of its fields in their order, each with its name, its
/// type and whether it is indexed.
pub proof fn law_event(items: Seq<Item>, d: Declared, p: int)
    requires
        declared(items, items.len()) == Ok::<Declared, Fault>(d),
        0 <= p < items.len(),
        is_event(items[p]),
        forall|j: int|
            p < j < items.len() && is_event(#[trigger] items[j]) ==> items[j]->Struct_1@
                != items[p]->Struct_1@,
    ensures
        lookup(d.contract.events, items[p]->Struct_1@) matches Some(event) && {
            let fields = items[p]->Struct_2@;
            &&& event.name == items[p]->Struct_1@
            &&& event.fields.len() == fields.len()
            &&& forall|i: int|
                #![trigger event.fields[i]]
                0 <= i < fields.len() ==> {
                    &&& event.fields[i].name == fields[i].name->Some_0@
                    &&& event.fields[i].ty == fields[i].ty
                    &&& event.fields[i].indexed == marked(fields[i].attrs@, "indexed"@)
                }
        },
{
    law_declared(items, items.len());
    assert(items.take(items.len() as int) =~= items);
    lemma_lookup_kept(items, |i: Item| is_event(i), |i: Item| as_event(i), p);
}

/// An external function is one of the functions that are marked so, with its name, its parameters,
/// its result and its body, and it is said to write if and only if its first argument is
/// `&mut self`. There are as many as are marked, in their order.
pub proof fn law_external_function(items: Seq<Item>, d: Declared, i: int)
    requires
        declared(items, items.len()) == Ok::<Declared, Fault>(d),
    ensures
        ({
            let fs = functions(items).filter(|m: Method| is_external(m));
            &&& d.externals.len() == fs.len()
            &&& 0 <= i < fs.len() ==> {
                &&& d.externals[i].name == fs[i].name@
                &&& d.externals[i].params == named_arguments(fs[i].inputs@)
                &&& d.externals[i].output == fs[i].output
                &&& d.externals[i].block == fs[i].block@
                &&& d.externals[i].mutable == (fs[i].inputs@.len() > 0 && fs[i].inputs@[0]
                    == FnArg::Receiver(true))
            }
        }),
{
    law_declared(items, items.len());
    assert(items.take(items.len() as int) =~= items);
}

/// Whether a module can be read: arguments are plain names, fields have names, storage fields have
/// types with a name, the functions of interfaces have types that the contract ABI knows, and there
/// is at most one constructor.
pub open spec fn readable(items: Seq<Item>) -> bool {
    &&& forall|i: int|
        0 <= i < functions(items).len() ==> plainly_named(
            (#[trigger] functions(items)[i]).inputs@,
        )
    &&& functions(items).filter(|m: Method| is_constructor(m)).len() <= 1
    &&& forall|i: int|
        0 <= i < storage_fields(items).len() ==> (#[trigger] storage_fields(items)[i]).name is Some
            && storage_fields(items)[i].ty is Path
    &&& forall|i: int| 0 <= i < items.len() ==> readable_item(#[trigger] items[i])
}

/// Whether an event or an interface can be read.
pub open spec fn readable_item(item: Item) -> bool {
    &&& is_event(item) ==> forall|j: int|
        0 <= j < item->Struct_2@.len() ==> (#[trigger] item->Struct_2@[j]).name is Some
    &&& is_interface(item) ==> forall|j: int|
        0 <= j < item->Trait_2@.len() ==> {
            &&& plainly_named((#[trigger] item->Trait_2@[j]).inputs@)
            &&& signature(item->Trait_2@[j].name@, named_arguments(item->Trait_2@[j].inputs@)) is Ok
        }
}

/// The functions of an impl block are accepted if they can be read.
proof fn lemma_methods_accepted(d: Declared, methods: Seq<Method>, k: nat, fs: Seq<Method>)
    requires
        k <= methods.len(),
        declares_functions(d, fs),
    ensures
        with_methods(d, methods, k) is Ok <==> {
            &&& forall|i: int| 0 <= i < k ==> plainly_named((#[trigger] methods[i]).inputs@)
            &&& (fs + methods.take(k as int)).filter(|m: Method| is_constructor(m)).len() <= 1
        },
    decreases k,
{
    if k == 0 {
        assert(fs + methods.take(0) =~= fs);
    } else {
        let j = (k - 1) as nat;
        let before = fs + methods.take(j as int);
        let now = fs + methods.take(k as int);
        assert(now =~= before.push(methods[k - 1]));
        lemma_methods_accepted(d, methods, j, fs);
        lemma_filter_push(before, methods[k - 1], |m: Method| is_constructor(m));
        if let Ok(mid) = with_methods(d, methods, j) {
            lemma_declares_methods(d, methods, j, fs);
            lemma_declares_function(mid, methods[k - 1], before);
        }
    }
}

/// Fields are accepted if they can be read.
proof fn lemma_storage_accepted(contract: Contract, fields: Seq<StructField>, k: nat)
    requires
        k <= fields.len(),
    ensures
        with_storage(contract, fields, k) is Ok <==> (forall|i: int|
            0 <= i < k ==> (#[trigger] fields[i]).name is Some && fields[i].ty is Path),
    decreases k,
{
    if k > 0 {
        lemma_storage_accepted(contract, fields, (k - 1) as nat);
    }
}

/// A module is accepted if and only if it can be read.
pub proof fn law_accepted(items: Seq<Item>, k: nat)
    requires
        k <= items.len(),
    ensures
        declared(items, k) is Ok <==> readable(items.take(k as int)),
    decreases k,
{
    let now = items.take(k as int);
    if k == 0 {
        reveal(Seq::filter);
        assert(functions(now).len() == 0);
        assert(storage_fields(now).len() == 0);
    } else {
        let j = (k - 1) as nat;
        let before = items.take(j as int);
        let item = items[k - 1];
        law_accepted(items, j);
        assert(now =~= before.push(item));
        assert(now.drop_last() =~= before);
        assert(now.last() == item);
        lemma_readable_push(before, item);
        if let Ok(d) = declared(items, j) {
            law_declared(items, j);
            lemma_item_accepted(d, before, item);
        }
    }
}

/// A module that can be read with one more item can be read without it.
proof fn lemma_readable_push(items: Seq<Item>, item: Item)
    ensures
        readable(items.push(item)) ==> readable(items),
        readable(items.push(item)) ==> readable_item(item),
{
    let now = items.push(item);
    assert(now.drop_last() =~= items);
    assert(now.last() == item);
    if readable(now) {
        let a = functions(items);
        let b = functions(now);
        assert forall|i: int| 0 <= i < a.len() implies plainly_named(
            (#[trigger] a[i]).inputs@,
        ) by {
            assert(b[i] == a[i]);
        }
        let more = match item {
            Item::Impl(methods) => methods@,
            _ => Seq::empty(),
        };
        assert(b == a + more);
        Seq::filter_distributes_over_add(a, more, |m: Method| is_constructor(m));
        let x = storage_fields(items);
        let y = storage_fields(now);
        assert forall|i: int| 0 <= i < x.len() implies (#[trigger] x[i]).name is Some
            && x[i].ty is Path by {
            assert(y[i] == x[i]);
        }
        assert forall|i: int| 0 <= i < items.len() implies readable_item(#[trigger] items[i]) by {
            assert(now[i] == items[i]);
        }
        assert(now[items.len() as int] == item);
    }
}

/// One more item is accepted if it can be read.
proof fn lemma_item_accepted(d: Declared, items: Seq<Item>, item: Item)
    requires
        declares(d, items),
        readable(items),
    ensures
        with_item(d, item) is Ok <==> readable(items.push(item)),
{
    let now = items.push(item);
    let a = functions(items);
    let b = functions(now);
    let x = storage_fields(items);
    let y = storage_fields(now);
    assert(now.drop_last() =~= items);
    assert(now.last() == item);
    lemma_readable_push(items, item);
    match item {
        Item::Struct(attrs, name, fields) => {
            lemma_marked(attrs@, "storage"@);
            lemma_marked(attrs@, "event"@);
            assert(b =~= a);
            lemma_storage_accepted(d.contract, fields@, fields@.len());
            lemma_event_fields(fields@, fields@.len());
            if marked(attrs@, "storage"@) {
                assert(y == x + fields@);
                if with_item(d, item) is Ok {
                    assert forall|i: int| 0 <= i < y.len() implies (#[trigger] y[i]).name is Some
                        && y[i].ty is Path by {
                        if i < x.len() {
                            assert(y[i] == x[i]);
                        } else {
                            assert(y[i] == fields@[i - x.len()]);
                        }
                    }
                }
                if readable(now) {
                    assert forall|i: int| 0 <= i < fields@.len() implies (
                    #[trigger] fields@[i]).name is Some && fields@[i].ty is Path by {
                        assert(y[x.len() + i] == fields@[i]);
                    }
                }
            } else {
                assert(y =~= x);
            }
        },
        Item::Impl(methods) => {
            let n = methods@.len();
            assert(y =~= x);
            assert(methods@.take(n as int) =~= methods@);
            assert(b == a + methods@);
            lemma_methods_accepted(d, methods@, n, a);
            if with_item(d, item) is Ok {
                assert forall|i: int| 0 <= i < b.len() implies plainly_named(
                    (#[trigger] b[i]).inputs@,
                ) by {
                    if i < a.len() {
                        assert(b[i] == a[i]);
                    } else {
                        assert(b[i] == methods@[i - a.len()]);
                    }
                }
            }
            if readable(now) {
                assert forall|i: int| 0 <= i < n implies plainly_named(
                    (#[trigger] methods@[i]).inputs@,
                ) by {
                    assert(b[a.len() + i] == methods@[i]);
                }
            }
        },
        Item::Trait(attrs, name, sigs) => {
            lemma_marked(attrs@, "interface"@);
            assert(b =~= a);
            assert(y =~= x);
            lemma_foreign(sigs@, sigs@.len());
        },
        Item::Other => {
            assert(b =~= a);
            assert(y =~= x);
        },
    }
    assert(forall|i: int| 0 <= i < items.len() ==> now[i] == items[i]);
}

} // verus!
