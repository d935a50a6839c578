//! The compiler of a contract module.

use vstd::prelude::*;

use crate::abi::{
    abi_param_json, constructor_json, event_json, field_kind_of, function_json, inputs_json,
    is_mut_receiver, outputs_json, parameters, params_of, signature_string, Param,
};
use crate::assembler::{Asm, Program};
use crate::ast::{Item, Method, Signature, Stmt, StructField, Type};
use crate::code::{faults, Code, Fragment};
use crate::contract::{
    body_labels, combinable, entries, lemma_body_labels_monotone, Builder, Function,
};
use crate::errors::{CompileError, ErrorKind, Fault};
use crate::lower::{lower_block, lower_constructor};
use crate::model::{
    Contract, Ctx, Event, EventDef, EventField, EventParameter, ForeignMethod, InterfaceDef,
    InterfaceMethod, InternalFn, StorageField,
};
use crate::module::{
    abi_text, all_errors, bodies, compiled, declared, entry_points, event_entries, event_entry,
    event_inserted, event_objects, event_parameters, external_entries, external_entry,
    foreign_methods, full_selectors, has_attribute, has_full_selectors, lemma_signatures_len,
    linked, programs_of, signatures, sorted_events, with_item, with_method, with_methods,
    with_storage, Compiled, Constructor, Declared, External,
};
use crate::names::NameMap;
use crate::text::{contains_text, is_before, join, texts};

verus! {

/// A function that transactions call.
#[derive(Debug)]
pub struct ExternalFn<'a> {
    pub name: &'a String,
    pub params: Vec<Param<'a>>,
    pub output: &'a Option<Type>,
    pub block: &'a Vec<Stmt>,
    pub mutable: bool,
}

impl<'a> View for ExternalFn<'a> {
    type V = External;

    open spec fn view(&self) -> External {
        External {
            name: self.name@,
            params: parameters(self.params@),
            output: *self.output,
            block: self.block@,
            mutable: self.mutable,
        }
    }
}

/// The function that runs when a contract is deployed.
#[derive(Debug)]
pub struct ConstructorFn<'a> {
    pub params: Vec<Param<'a>>,
    pub block: &'a Vec<Stmt>,
}

impl<'a> View for ConstructorFn<'a> {
    type V = Constructor;

    open spec fn view(&self) -> Constructor {
        Constructor { params: parameters(self.params@), block: self.block@ }
    }
}

/// The mathematical form of a list of external functions.
pub open spec fn externals_view<'a>(externals: Seq<ExternalFn<'a>>) -> Seq<External> {
    externals.map_values(|x: ExternalFn<'a>| x@)
}

/// What a contract module declares.
pub struct Declarations<'a> {
    pub ctx: Ctx<'a>,
    pub externals: Vec<ExternalFn<'a>>,
    pub constructor: Option<ConstructorFn<'a>>,
}

impl<'a> View for Declarations<'a> {
    type V = Declared;

    open spec fn view(&self) -> Declared {
        Declared {
            contract: self.ctx@,
            externals: externals_view(self.externals@),
            constructor: match self.constructor {
                Some(c) => Some(c@),
                None => None,
            },
        }
    }
}

/// Whether there is an attribute with the given name.
pub fn has_attr(attrs: &Vec<String>, name: &str) -> (r: bool)
    ensures
        r == has_attribute(attrs@, name@),
{
    contains_text(attrs, &name.to_owned())
}

/// The fields of an event.
fn event_fields<'a>(fields: &'a Vec<StructField>) -> (r: Result<Vec<EventField<'a>>, CompileError>)
    ensures
        match r {
            Ok(v) => event_parameters(fields@, fields@.len()) == Ok::<_, Fault>(
                v@.map_values(|f: EventField<'a>| f@),
            ),
            Err(e) => event_parameters(fields@, fields@.len()) == Err::<
                Seq<EventParameter>,
                Fault,
            >(e@),
        },
{
    let mut out: Vec<EventField<'a>> = Vec::new();
    let mut i: usize = 0;
    assert(out@.map_values(|f: EventField<'a>| f@) =~= Seq::empty());
    while i < fields.len()
        invariant
            i <= fields@.len(),
            event_parameters(fields@, i as nat) == Ok::<_, Fault>(
                out@.map_values(|f: EventField<'a>| f@),
            ),
        decreases fields@.len() - i,
    {
        let ghost before = out@;
        let field = &fields[i];
        match &field.name {
            None => {
                let e = CompileError::plain(ErrorKind::TupleField);
                proof {
                    lemma_event_parameters_err(fields@, (i + 1) as nat, fields@.len(), e@);
                }
                return Err(e);
            },
            Some(name) => {
                out.push(
                    EventField { name, ty: &field.ty, indexed: has_attr(&field.attrs, "indexed") },
                );
                assert(out@.map_values(|f: EventField<'a>| f@) =~= before.map_values(
                    |f: EventField<'a>| f@,
                ).push(out@.last()@));
            },
        }
        i += 1;
    }
    Ok(out)
}

proof fn lemma_event_parameters_err(fields: Seq<StructField>, k: nat, n: nat, fault: Fault)
    requires
        k <= n,
        event_parameters(fields, k) == Err::<Seq<EventParameter>, Fault>(fault),
    ensures
        event_parameters(fields, n) == Err::<Seq<EventParameter>, Fault>(fault),
    decreases n,
{
    if k < n {
        lemma_event_parameters_err(fields, k, (n - 1) as nat, fault);
    }
}

/// The functions of an interface.
fn interface_methods<'a>(sigs: &'a Vec<Signature>) -> (r: Result<InterfaceDef<'a>, CompileError>)
    ensures
        match r {
            Ok(def) => foreign_methods(sigs@, sigs@.len()) == Ok::<_, Fault>(def@),
            Err(e) => foreign_methods(sigs@, sigs@.len()) == Err::<
                Seq<(Seq<char>, ForeignMethod)>,
                Fault,
            >(e@),
        },
{
    let mut methods: NameMap<InterfaceMethod<'a>> = NameMap::new();
    let mut i: usize = 0;
    while i < sigs.len()
        invariant
            i <= sigs@.len(),
            foreign_methods(sigs@, i as nat) == Ok::<_, Fault>(methods@),
        decreases sigs@.len() - i,
    {
        let sig = &sigs[i];
        let params = match params_of(&sig.inputs) {
            Ok(params) => params,
            Err(e) => {
                proof {
                    lemma_foreign_methods_err(sigs@, (i + 1) as nat, sigs@.len(), e@);
                }
                return Err(e);
            },
        };
        let text = match signature_string(&sig.name, &params) {
            Ok(text) => text,
            Err(e) => {
                proof {
                    lemma_foreign_methods_err(sigs@, (i + 1) as nat, sigs@.len(), e@);
                }
                return Err(e);
            },
        };
        methods.insert(
            sig.name.clone(),
            InterfaceMethod {
                sig: text,
                params,
                output: &sig.output,
                mutable: is_mut_receiver(&sig.inputs),
            },
        );
        i += 1;
    }
    Ok(InterfaceDef { methods })
}

proof fn lemma_foreign_methods_err(sigs: Seq<Signature>, k: nat, n: nat, fault: Fault)
    requires
        k <= n,
        foreign_methods(sigs, k) == Err::<Seq<(Seq<char>, ForeignMethod)>, Fault>(fault),
    ensures
        foreign_methods(sigs, n) == Err::<Seq<(Seq<char>, ForeignMethod)>, Fault>(fault),
    decreases n,
{
    if k < n {
        lemma_foreign_methods_err(sigs, k, (n - 1) as nat, fault);
    }
}

proof fn lemma_with_storage_err(
    contract: Contract,
    fields: Seq<StructField>,
    k: nat,
    n: nat,
    fault: Fault,
)
    requires
        k <= n,
        with_storage(contract, fields, k) == Err::<Contract, Fault>(fault),
    ensures
        with_storage(contract, fields, n) == Err::<Contract, Fault>(fault),
    decreases n,
{
    if k < n {
        lemma_with_storage_err(contract, fields, k, (n - 1) as nat, fault);
    }
}

proof fn lemma_with_methods_err(d: Declared, methods: Seq<Method>, k: nat, n: nat, fault: Fault)
    requires
        k <= n,
        with_methods(d, methods, k) == Err::<Declared, Fault>(fault),
    ensures
        with_methods(d, methods, n) == Err::<Declared, Fault>(fault),
    decreases n,
{
    if k < n {
        lemma_with_methods_err(d, methods, k, (n - 1) as nat, fault);
    }
}

proof fn lemma_declared_err(items: Seq<Item>, k: nat, n: nat, fault: Fault)
    requires
        k <= n,
        declared(items, k) == Err::<Declared, Fault>(fault),
    ensures
        declared(items, n) == Err::<Declared, Fault>(fault),
    decreases n,
{
    if k < n {
        lemma_declared_err(items, k, (n - 1) as nat, fault);
    }
}

/// What a step that may fail makes of the declarations.
pub open spec fn outcome(r: Result<(), CompileError>, after: Declared) -> Result<Declared, Fault> {
    match r {
        Ok(_) => Ok(after),
        Err(e) => Err(e@),
    }
}

impl<'a> Declarations<'a> {
    /// A module that declares nothing.
    pub fn new() -> (r: Declarations<'a>)
        ensures
            r@ == Declared::nothing(),
    {
        let r = Declarations {
            ctx: Ctx {
                storage: NameMap::new(),
                events: NameMap::new(),
                internal_functions: NameMap::new(),
                field_types: NameMap::new(),
                interfaces: NameMap::new(),
            },
            externals: Vec::new(),
            constructor: None,
        };
        assert(r@ =~= Declared::nothing());
        r
    }

    /// Adds fields to the storage. Slots are handed out in the order of declaration.
    fn add_storage(&mut self, fields: &'a Vec<StructField>) -> (r: Result<(), CompileError>)
        ensures
            match r {
                Ok(_) => with_storage(old(self)@.contract, fields@, fields@.len()) == Ok::<
                    _,
                    Fault,
                >(final(self)@.contract) && final(self)@.externals == old(self)@.externals
                    && final(self)@.constructor == old(self)@.constructor,
                Err(e) => with_storage(old(self)@.contract, fields@, fields@.len()) == Err::<
                    Contract,
                    Fault,
                >(e@),
            },
    {
        let ghost start = self@.contract;
        let mut i: usize = 0;
        while i < fields.len()
            invariant
                i <= fields@.len(),
                start == old(self)@.contract,
                with_storage(start, fields@, i as nat) == Ok::<_, Fault>(self@.contract),
                self@.externals == old(self)@.externals,
                self@.constructor == old(self)@.constructor,
            decreases fields@.len() - i,
        {
            let field = &fields[i];
            match &field.name {
                None => {
                    let e = CompileError::plain(ErrorKind::TupleField);
                    proof {
                        lemma_with_storage_err(start, fields@, (i + 1) as nat, fields@.len(), e@);
                    }
                    return Err(e);
                },
                Some(name) => match field_kind_of(&field.ty) {
                    Err(e) => {
                        proof {
                            lemma_with_storage_err(
                                start,
                                fields@,
                                (i + 1) as nat,
                                fields@.len(),
                                e@,
                            );
                        }
                        return Err(e);
                    },
                    Ok(kind) => {
                        let slot = self.ctx.storage.len() as u64;
                        self.ctx.storage.insert(name.clone(), StorageField { slot, kind });
                        self.ctx.field_types.insert(name.clone(), &field.ty);
                    },
                },
            }
            i += 1;
        }
        Ok(())
    }

    /// Adds a function: it is external, the constructor, or internal.
    fn add_method(&mut self, method: &'a Method) -> (r: Result<(), CompileError>)
        ensures
            outcome(r, final(self)@) == with_method(old(self)@, *method),
    {
        let params = match params_of(&method.inputs) {
            Ok(params) => params,
            Err(e) => return Err(e),
        };
        if has_attr(&method.attrs, "external") {
            let ghost before = self.externals@;
            self.externals.push(
                ExternalFn {
                    name: &method.name,
                    params,
                    output: &method.output,
                    block: &method.block,
                    mutable: is_mut_receiver(&method.inputs),
                },
            );
            assert(externals_view(self.externals@) =~= externals_view(before).push(
                self.externals@.last()@,
            ));
        } else if has_attr(&method.attrs, "constructor") {
            if self.constructor.is_some() {
                return Err(CompileError::plain(ErrorKind::SecondConstructor));
            }
            self.constructor = Some(ConstructorFn { params, block: &method.block });
        } else {
            self.ctx.internal_functions.insert(
                method.name.clone(),
                InternalFn { params, output: &method.output, block: &method.block },
            );
        }
        Ok(())
    }

    /// Adds the functions of an impl block.
    fn add_methods(&mut self, methods: &'a Vec<Method>) -> (r: Result<(), CompileError>)
        ensures
            outcome(r, final(self)@) == with_methods(old(self)@, methods@, methods@.len()),
    {
        let mut i: usize = 0;
        while i < methods.len()
            invariant
                i <= methods@.len(),
                with_methods(old(self)@, methods@, i as nat) == Ok::<_, Fault>(self@),
            decreases methods@.len() - i,
        {
            match self.add_method(&methods[i]) {
                Ok(_) => {},
                Err(e) => {
                    proof {
                        lemma_with_methods_err(
                            old(self)@,
                            methods@,
                            (i + 1) as nat,
                            methods@.len(),
                            e@,
                        );
                    }
                    return Err(e);
                },
            }
            i += 1;
        }
        Ok(())
    }

    /// Adds an item.
    fn add_item(&mut self, item: &'a Item) -> (r: Result<(), CompileError>)
        ensures
            outcome(r, final(self)@) == with_item(old(self)@, *item),
    {
        match item {
            Item::Struct(attrs, name, fields) => {
                if has_attr(attrs, "storage") {
                    self.add_storage(fields)
                } else if has_attr(attrs, "event") {
                    match event_fields(fields) {
                        Err(e) => Err(e),
                        Ok(fields) => {
                            self.ctx.events.insert(name.clone(), EventDef { name, fields });
                            Ok(())
                        },
                    }
                } else {
                    Ok(())
                }
            },
            Item::Impl(methods) => self.add_methods(methods),
            Item::Trait(attrs, name, sigs) => {
                if has_attr(attrs, "interface") {
                    match interface_methods(sigs) {
                        Err(e) => Err(e),
                        Ok(def) => {
                            self.ctx.interfaces.insert(name.clone(), def);
                            Ok(())
                        },
                    }
                } else {
                    Ok(())
                }
            },
            Item::Other => Ok(()),
        }
    }
}

/// What a contract module declares.
pub fn collect<'a>(items: &'a Vec<Item>) -> (r: Result<Declarations<'a>, CompileError>)
    ensures
        match r {
            Ok(d) => declared(items@, items@.len()) == Ok::<_, Fault>(d@),
            Err(e) => declared(items@, items@.len()) == Err::<Declared, Fault>(e@),
        },
{
    let mut d = Declarations::new();
    let mut i: usize = 0;
    while i < items.len()
        invariant
            i <= items@.len(),
            declared(items@, i as nat) == Ok::<_, Fault>(d@),
        decreases items@.len() - i,
    {
        match d.add_item(&items[i]) {
            Ok(_) => {},
            Err(e) => {
                proof {
                    lemma_declared_err(items@, (i + 1) as nat, items@.len(), e@);
                }
                return Err(e);
            },
        }
        i += 1;
    }
    Ok(d)
}

proof fn lemma_signatures_err(externals: Seq<External>, k: nat, n: nat, fault: Fault)
    requires
        k <= n,
        signatures(externals, k) == Err::<Seq<Seq<char>>, Fault>(fault),
    ensures
        signatures(externals, n) == Err::<Seq<Seq<char>>, Fault>(fault),
    decreases n,
{
    if k < n {
        lemma_signatures_err(externals, k, (n - 1) as nat, fault);
    }
}

/// The signatures of the external functions.
fn function_signatures<'a>(externals: &Vec<ExternalFn<'a>>) -> (r: Result<
    Vec<String>,
    CompileError,
>)
    ensures
        match r {
            Ok(sigs) => signatures(externals_view(externals@), externals@.len()) == Ok::<_, Fault>(
                texts(sigs@),
            ),
            Err(e) => signatures(externals_view(externals@), externals@.len()) == Err::<
                Seq<Seq<char>>,
                Fault,
            >(e@),
        },
{
    let ghost xs = externals_view(externals@);
    let mut sigs: Vec<String> = Vec::new();
    let mut i: usize = 0;
    assert(texts(sigs@) =~= Seq::empty());
    while i < externals.len()
        invariant
            i <= externals@.len(),
            xs == externals_view(externals@),
            signatures(xs, i as nat) == Ok::<_, Fault>(texts(sigs@)),
        decreases externals@.len() - i,
    {
        let ghost before = sigs@;
        assert(xs[i as int] == externals@[i as int]@);
        match signature_string(externals[i].name, &externals[i].params) {
            Ok(sig) => {
                sigs.push(sig);
                assert(texts(sigs@) =~= texts(before).push(sig@));
            },
            Err(e) => {
                proof {
                    lemma_signatures_err(xs, (i + 1) as nat, xs.len(), e@);
                }
                return Err(e);
            },
        }
        i += 1;
    }
    Ok(sigs)
}

/// An external function in JSON.
fn external_json<'a>(external: &ExternalFn<'a>) -> (r: Result<String, CompileError>)
    ensures
        match r {
            Ok(text) => external_entry(external@) == Ok::<_, Fault>(text@),
            Err(e) => external_entry(external@) == Err::<Seq<char>, Fault>(e@),
        },
{
    match inputs_json(&external.params) {
        Err(e) => Err(e),
        Ok(inputs) => match outputs_json(external.output) {
            Err(e) => Err(e),
            Ok(outputs) => Ok(function_json(external.name, &inputs, &outputs, external.mutable)),
        },
    }
}

proof fn lemma_external_entries_err(externals: Seq<External>, k: nat, n: nat, fault: Fault)
    requires
        k <= n,
        external_entries(externals, k) == Err::<Seq<Seq<char>>, Fault>(fault),
    ensures
        external_entries(externals, n) == Err::<Seq<Seq<char>>, Fault>(fault),
    decreases n,
{
    if k < n {
        lemma_external_entries_err(externals, k, (n - 1) as nat, fault);
    }
}

/// The external functions in JSON.
fn externals_json<'a>(externals: &Vec<ExternalFn<'a>>) -> (r: Result<Vec<String>, CompileError>)
    ensures
        match r {
            Ok(parts) => external_entries(externals_view(externals@), externals@.len()) == Ok::<
                _,
                Fault,
            >(texts(parts@)),
            Err(e) => external_entries(externals_view(externals@), externals@.len()) == Err::<
                Seq<Seq<char>>,
                Fault,
            >(e@),
        },
{
    let ghost xs = externals_view(externals@);
    let mut parts: Vec<String> = Vec::new();
    let mut i: usize = 0;
    assert(texts(parts@) =~= Seq::empty());
    while i < externals.len()
        invariant
            i <= externals@.len(),
            xs == externals_view(externals@),
            external_entries(xs, i as nat) == Ok::<_, Fault>(texts(parts@)),
        decreases externals@.len() - i,
    {
        let ghost before = parts@;
        assert(xs[i as int] == externals@[i as int]@);
        match external_json(&externals[i]) {
            Ok(text) => {
                parts.push(text);
                assert(texts(parts@) =~= texts(before).push(text@));
            },
            Err(e) => {
                proof {
                    lemma_external_entries_err(xs, (i + 1) as nat, xs.len(), e@);
                }
                return Err(e);
            },
        }
        i += 1;
    }
    Ok(parts)
}

/// The mathematical form of a list of events.
pub open spec fn events_view<'b, 'a>(list: Seq<&'b EventDef<'a>>) -> Seq<Event> {
    list.map_values(|d: &'b EventDef<'a>| d@)
}

/// Puts an event into a list that is in the order of names. It takes the place of one with the
/// same name.
fn insert_event<'b, 'a>(list: &mut Vec<&'b EventDef<'a>>, event: &'b EventDef<'a>)
    ensures
        events_view(final(list)@) == event_inserted(events_view(old(list)@), event@),
{
    let ghost start = list@;
    let ghost all = events_view(start);
    let mut i: usize = 0;
    assert(all.skip(0) =~= all);
    assert(all.take(0) + event_inserted(all, event@) =~= event_inserted(all, event@));
    while i < list.len() && *list[i].name != *event.name && !is_before(event.name, list[i].name)
        invariant
            i <= list@.len(),
            list@ == start,
            all == events_view(start),
            event_inserted(all, event@) == all.take(i as int) + event_inserted(
                all.skip(i as int),
                event@,
            ),
        decreases list@.len() - i,
    {
        proof {
            let rest = all.skip(i as int);
            assert(rest[0] == list@[i as int]@);
            assert(rest.drop_first() =~= all.skip(i + 1));
            assert(all.take(i as int) + (seq![rest[0]] + event_inserted(all.skip(i + 1), event@))
                =~= all.take(i + 1) + event_inserted(all.skip(i + 1), event@));
        }
        i += 1;
    }
    let ghost rest = all.skip(i as int);
    if i < list.len() {
        assert(rest[0] == list@[i as int]@);
        if *list[i].name == *event.name {
            list[i] = event;
            assert(events_view(list@) =~= all.take(i as int) + (seq![event@]
                + rest.drop_first()));
        } else {
            list.insert(i, event);
            assert(events_view(list@) =~= all.take(i as int) + (seq![event@] + rest));
        }
    } else {
        list.push(event);
        assert(events_view(list@) =~= all.take(i as int) + seq![event@]);
    }
}

/// The declared events, in the order of their names.
fn events_by_name<'b, 'a>(events: &'b NameMap<EventDef<'a>>) -> (r: Vec<&'b EventDef<'a>>)
    ensures
        events_view(r@) == sorted_events(events@, events@.len()),
{
    let mut list: Vec<&'b EventDef<'a>> = Vec::new();
    let mut i: usize = 0;
    assert(events_view(list@) =~= Seq::empty());
    while i < events.len()
        invariant
            i <= events@.len(),
            events_view(list@) == sorted_events(events@, i as nat),
        decreases events@.len() - i,
    {
        insert_event(&mut list, events.value_at(i));
        i += 1;
    }
    list
}

proof fn lemma_event_objects_err(fields: Seq<EventParameter>, k: nat, n: nat, fault: Fault)
    requires
        k <= n,
        event_objects(fields, k) == Err::<Seq<Seq<char>>, Fault>(fault),
    ensures
        event_objects(fields, n) == Err::<Seq<Seq<char>>, Fault>(fault),
    decreases n,
{
    if k < n {
        lemma_event_objects_err(fields, k, (n - 1) as nat, fault);
    }
}

/// An event in JSON.
fn event_def_json<'a>(def: &EventDef<'a>) -> (r: Result<String, CompileError>)
    ensures
        match r {
            Ok(text) => event_entry(def@) == Ok::<_, Fault>(text@),
            Err(e) => event_entry(def@) == Err::<Seq<char>, Fault>(e@),
        },
{
    let ghost fields = def@.fields;
    let mut parts: Vec<String> = Vec::new();
    let mut i: usize = 0;
    assert(texts(parts@) =~= Seq::empty());
    while i < def.fields.len()
        invariant
            i <= def.fields@.len(),
            fields == def@.fields,
            event_objects(fields, i as nat) == Ok::<_, Fault>(texts(parts@)),
        decreases def.fields@.len() - i,
    {
        let ghost before = parts@;
        let field = &def.fields[i];
        assert(fields[i as int] == def.fields@[i as int]@);
        match abi_param_json(field.name.as_str(), field.ty, Some(field.indexed)) {
            Ok(text) => {
                parts.push(text);
                assert(texts(parts@) =~= texts(before).push(text@));
            },
            Err(e) => {
                proof {
                    lemma_event_objects_err(fields, (i + 1) as nat, fields.len(), e@);
                }
                return Err(e);
            },
        }
        i += 1;
    }
    let inputs = join(&parts, ",");
    Ok(event_json(def.name, &inputs))
}

proof fn lemma_event_entries_err(events: Seq<Event>, k: nat, n: nat, fault: Fault)
    requires
        k <= n,
        event_entries(events, k) == Err::<Seq<Seq<char>>, Fault>(fault),
    ensures
        event_entries(events, n) == Err::<Seq<Seq<char>>, Fault>(fault),
    decreases n,
{
    if k < n {
        lemma_event_entries_err(events, k, (n - 1) as nat, fault);
    }
}

/// A list of events in JSON.
fn events_json<'b, 'a>(events: &Vec<&'b EventDef<'a>>) -> (r: Result<Vec<String>, CompileError>)
    ensures
        match r {
            Ok(parts) => event_entries(events_view(events@), events@.len()) == Ok::<_, Fault>(
                texts(parts@),
            ),
            Err(e) => event_entries(events_view(events@), events@.len()) == Err::<
                Seq<Seq<char>>,
                Fault,
            >(e@),
        },
{
    let ghost list = events_view(events@);
    let mut parts: Vec<String> = Vec::new();
    let mut i: usize = 0;
    assert(texts(parts@) =~= Seq::empty());
    while i < events.len()
        invariant
            i <= events@.len(),
            list == events_view(events@),
            event_entries(list, i as nat) == Ok::<_, Fault>(texts(parts@)),
        decreases events@.len() - i,
    {
        let ghost before = parts@;
        assert(list[i as int] == events@[i as int]@);
        match event_def_json(events[i]) {
            Ok(text) => {
                parts.push(text);
                assert(texts(parts@) =~= texts(before).push(text@));
            },
            Err(e) => {
                proof {
                    lemma_event_entries_err(list, (i + 1) as nat, list.len(), e@);
                }
                return Err(e);
            },
        }
        i += 1;
    }
    Ok(parts)
}

/// The interface of a contract in JSON: the external functions in the order of declaration, the
/// events in the order of their names, and the constructor.
pub fn abi_json<'a>(d: &Declarations<'a>) -> (r: Result<String, CompileError>)
    ensures
        match r {
            Ok(text) => abi_text(d@) == Ok::<_, Fault>(text@),
            Err(e) => abi_text(d@) == Err::<Seq<char>, Fault>(e@),
        },
{
    let mut parts = match externals_json(&d.externals) {
        Ok(parts) => parts,
        Err(e) => return Err(e),
    };
    let ghost functions = parts@;
    let events = events_by_name(&d.ctx.events);
    let mut logs = match events_json(&events) {
        Ok(logs) => logs,
        Err(e) => return Err(e),
    };
    let ghost logged = logs@;
    parts.append(&mut logs);
    assert(texts(parts@) =~= texts(functions) + texts(logged));
    match &d.constructor {
        None => {
            assert(texts(parts@) =~= texts(functions) + texts(logged) + Seq::empty());
        },
        Some(c) => match inputs_json(&c.params) {
            Err(e) => return Err(e),
            Ok(inputs) => {
                let entry = constructor_json(&inputs);
                parts.push(entry);
                assert(texts(parts@) =~= texts(functions) + texts(logged) + seq![entry@]);
            },
        },
    }
    let mut text = "[".to_owned();
    text.append(join(&parts, ",").as_str());
    text.append("]");
    Ok(text)
}

/// Whether there are enough labels to put the functions into one program.
fn labels_fit(functions: &Vec<Function>) -> (r: bool)
    ensures
        r == combinable(entries(functions@)),
{
    let ghost fns = entries(functions@);
    if functions.len() > 0xFFFF_FFFF {
        return false;
    }
    let mut sum: u64 = functions.len() as u64;
    let mut i: usize = 0;
    while i < functions.len()
        invariant
            i <= functions@.len(),
            fns == entries(functions@),
            sum == fns.len() + body_labels(fns, i as nat),
            sum <= 0xFFFF_FFFF,
        decreases functions@.len() - i,
    {
        assert(fns[i as int] == functions@[i as int]@);
        sum += functions[i].label_count() as u64;
        i += 1;
        if sum > 0xFFFF_FFFF {
            proof {
                lemma_body_labels_monotone(fns, i as nat, fns.len());
            }
            return false;
        }
    }
    true
}

/// The mathematical form of a list of programs.
pub open spec fn programs_view(programs: Seq<Asm>) -> Seq<Program> {
    programs.map_values(|p: Asm| p@)
}

/// The creation code of a contract, or what is too large about it.
fn link(sigs: &Vec<String>, programs: Vec<Asm>, creation: Asm) -> (r: Result<
    Vec<u8>,
    CompileError,
>)
    requires
        sigs@.len() == programs@.len(),
    ensures
        match r {
            Ok(code) => linked(texts(sigs@), programs_view(programs@), creation@) == Ok::<
                _,
                Fault,
            >(code@),
            Err(e) => linked(texts(sigs@), programs_view(programs@), creation@) == Err::<
                Seq<u8>,
                Fault,
            >(e@),
        },
        full_selectors(texts(sigs@)),
{
    let ghost bodies = programs_view(programs@);
    let ghost points = entry_points(texts(sigs@), bodies);
    let mut rest = programs;
    let mut functions: Vec<Function> = Vec::new();
    let mut i: usize = 0;
    assert(entries(functions@) =~= points.take(0));
    while i < sigs.len()
        invariant
            i <= sigs@.len(),
            sigs@.len() == bodies.len(),
            points == entry_points(texts(sigs@), bodies),
            rest@.len() == sigs@.len() - i,
            forall|j: int| #![trigger rest@[j]] 0 <= j < rest@.len() ==> rest@[j]@ == bodies[i + j],
            entries(functions@) == points.take(i as int),
            full_selectors(texts(sigs@).take(i as int)),
        decreases sigs@.len() - i,
    {
        let body = rest.remove(0);
        let ghost before = functions@;
        assert(body@ == bodies[i as int]);
        let selector = Builder.selector(sigs[i].as_str());
        functions.push(Function::new(selector, body));
        assert(functions@.last()@ == points[i as int]);
        i += 1;
        assert(entries(functions@) =~= entries(before).push(functions@.last()@));
        assert(entries(functions@) =~= points.take(i as int));
        assert(texts(sigs@).take(i as int) =~= texts(sigs@).take(i - 1).push(sigs@[i - 1]@));
    }
    assert(texts(sigs@).take(i as int) =~= texts(sigs@));
    assert(points.take(i as int) =~= points);
    if !labels_fit(&functions) {
        return Err(CompileError::plain(ErrorKind::TooManyLabels));
    }
    let runtime_code = match Builder.build_runtime(functions).try_finish() {
        Some(code) => code,
        None => return Err(CompileError::plain(ErrorKind::CodeTooLarge)),
    };
    let constructor = match creation.try_finish() {
        Some(code) => code,
        None => return Err(CompileError::plain(ErrorKind::CodeTooLarge)),
    };
    if runtime_code.len() > 0xFFFF || constructor.len() > 0xFFFF - 15 {
        return Err(CompileError::plain(ErrorKind::CodeTooLarge));
    }
    Ok(Builder.wrap_with_constructor(constructor, runtime_code))
}

/// The faults of two lists, one behind the other.
proof fn lemma_faults_concat(a: Seq<CompileError>, b: Seq<CompileError>)
    ensures
        faults(a + b) == faults(a) + faults(b),
{
    assert(faults(a + b) =~= faults(a) + faults(b));
}

/// The faults of one more function.
proof fn lemma_errors_step(first: Seq<Fault>, frags: Seq<Fragment>, k: nat)
    ensures
        first + all_errors(frags, k + 1) == first + all_errors(frags, k) + frags[k as int].errors,
{
    assert(first + all_errors(frags, k + 1) =~= first + all_errors(frags, k)
        + frags[k as int].errors);
}

/// The program of one more function.
proof fn lemma_programs_step(programs: Seq<Asm>, program: Asm, frags: Seq<Fragment>, k: nat)
    requires
        k < frags.len(),
        programs_view(programs) == programs_of(frags).take(k as int),
        program@ == frags[k as int].program,
    ensures
        programs_view(programs.push(program)) == programs_of(frags).take((k + 1) as int),
{
    assert(programs_view(programs.push(program)) =~= programs_view(programs).push(program@));
    assert(programs_of(frags).take((k + 1) as int) =~= programs_of(frags).take(k as int).push(
        program@,
    ));
}

/// Compiles the external functions: their programs, and the faults in them.
fn lower_externals<'a>(d: &Declarations<'a>, errors: Vec<CompileError>) -> (r: (
    Vec<Asm>,
    Vec<CompileError>,
))
    ensures
        programs_view(r.0@) == programs_of(bodies(d@)),
        faults(r.1@) == faults(errors@) + all_errors(bodies(d@), bodies(d@).len()),
{
    let ghost frags = bodies(d@);
    let ghost first = faults(errors@);
    let mut errors = errors;
    let mut programs: Vec<Asm> = Vec::new();
    let mut i: usize = 0;
    assert(programs_view(programs@) =~= programs_of(frags).take(0));
    assert(first + all_errors(frags, 0) =~= first);
    while i < d.externals.len()
        invariant
            i <= d.externals@.len(),
            frags == bodies(d@),
            programs_view(programs@) == programs_of(frags).take(i as int),
            faults(errors@) == first + all_errors(frags, i as nat),
        decreases d.externals@.len() - i,
    {
        let external = &d.externals[i];
        assert(d@.externals[i as int] == d.externals@[i as int]@);
        let code = lower_block(external.block, external.output, &d.ctx, &external.params);
        assert(frags[i as int] == code@);
        let ghost before = (programs@, errors@);
        let mut theirs = code.errors;
        proof {
            lemma_faults_concat(before.1, theirs@);
            lemma_errors_step(first, frags, i as nat);
            lemma_programs_step(before.0, code.program, frags, i as nat);
        }
        errors.append(&mut theirs);
        programs.push(code.program);
        i += 1;
    }
    assert(programs_of(frags).take(i as int) =~= programs_of(frags));
    (programs, errors)
}

/// The result of compiling a contract: the code that deploys it, and its interface in JSON.
#[derive(Debug)]
pub struct Expansion {
    pub deploy_code: Vec<u8>,
    pub abi_json: String,
}

impl View for Expansion {
    type V = Compiled;

    open spec fn view(&self) -> Compiled {
        Compiled { deploy_code: self.deploy_code@, abi_json: self.abi_json@ }
    }
}

/// A list with one fault.
fn single(error: CompileError) -> (r: Vec<CompileError>)
    ensures
        faults(r@) == seq![error@],
{
    let mut errors: Vec<CompileError> = Vec::new();
    errors.push(error);
    assert(faults(errors@) =~= seq![error@]);
    errors
}

/// Compiles a contract module: the code that deploys it and its interface in JSON, or the faults
/// in it. The selectors of a contract that compiles have four bytes each.
pub fn contract(items: &Vec<Item>) -> (r: Result<Expansion, Vec<CompileError>>)
    ensures
        match r {
            Ok(expansion) => compiled(items@) == Ok::<_, Seq<Fault>>(expansion@),
            Err(errors) => compiled(items@) == Err::<Compiled, _>(faults(errors@)),
        },
        r is Ok ==> has_full_selectors(items@),
{
    let d = match collect(items) {
        Ok(d) => d,
        Err(e) => return Err(single(e)),
    };
    let sigs = match function_signatures(&d.externals) {
        Ok(sigs) => sigs,
        Err(e) => return Err(single(e)),
    };
    let abi = match abi_json(&d) {
        Ok(abi) => abi,
        Err(e) => return Err(single(e)),
    };
    let creation = match &d.constructor {
        None => Code::new(),
        Some(c) => lower_constructor(c.block, &c.params, &d.ctx),
    };
    let (programs, errors) = lower_externals(&d, creation.errors);
    if errors.len() > 0 {
        return Err(errors);
    }
    proof {
        lemma_signatures_len(d@.externals, d@.externals.len());
        assert(texts(sigs@).len() == sigs@.len());
        assert(programs_view(programs@).len() == programs@.len());
    }
    match link(&sigs, programs, creation.program) {
        Ok(deploy_code) => Ok(Expansion { deploy_code, abi_json: abi }),
        Err(e) => Err(single(e)),
    }
}

} // verus!
