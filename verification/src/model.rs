//! What the compiler knows: of the contract as a whole, and of the function that it compiles.

use vstd::prelude::*;

use crate::abi::{parameters, Param, Parameter};
use crate::ast::{Stmt, Type};
use crate::names::{lookup, NameMap};
use crate::text::texts;

verus! {

/// A field of an event.
#[derive(Debug, Clone, Copy)]
pub struct EventField<'a> {
    pub name: &'a String,
    pub ty: &'a Type,
    pub indexed: bool,
}

/// The mathematical form of a field of an event.
pub struct EventParameter {
    pub name: Seq<char>,
    pub ty: Type,
    pub indexed: bool,
}

impl<'a> View for EventField<'a> {
    type V = EventParameter;

    open spec fn view(&self) -> EventParameter {
        EventParameter { name: self.name@, ty: *self.ty, indexed: self.indexed }
    }
}

/// An event.
#[derive(Debug)]
pub struct EventDef<'a> {
    pub name: &'a String,
    pub fields: Vec<EventField<'a>>,
}

/// The mathematical form of an event.
#[verifier::ext_equal]
pub struct Event {
    pub name: Seq<char>,
    pub fields: Seq<EventParameter>,
}

impl<'a> View for EventDef<'a> {
    type V = Event;

    open spec fn view(&self) -> Event {
        Event {
            name: self.name@,
            fields: self.fields@.map_values(|f: EventField<'a>| f@),
        }
    }
}

impl Event {
    /// The fields as parameters.
    pub open spec fn params(self) -> Seq<Parameter> {
        self.fields.map_values(|f: EventParameter| Parameter { name: f.name, ty: f.ty })
    }
}

/// What a storage field holds.
#[derive(Debug, Clone, Copy, PartialEq, Eq, Structural)]
pub enum FieldKind {
    Scalar,
    Mapping,
    Array,
}

/// A field of the storage: its slot, and what it holds.
#[derive(Debug, Clone, Copy, PartialEq, Eq, Structural)]
pub struct StorageField {
    pub slot: u64,
    pub kind: FieldKind,
}

impl View for StorageField {
    type V = StorageField;

    open spec fn view(&self) -> StorageField {
        *self
    }
}

impl View for Type {
    type V = Type;

    open spec fn view(&self) -> Type {
        *self
    }
}

/// A function of the contract that only the contract itself calls.
#[derive(Debug)]
pub struct InternalFn<'a> {
    pub params: Vec<Param<'a>>,
    pub output: &'a Option<Type>,
    pub block: &'a Vec<Stmt>,
}

/// The mathematical form of an internal function.
#[verifier::ext_equal]
pub struct Internal {
    pub params: Seq<Parameter>,
    pub output: Option<Type>,
    pub block: Seq<Stmt>,
}

impl<'a> View for InternalFn<'a> {
    type V = Internal;

    open spec fn view(&self) -> Internal {
        Internal { params: parameters(self.params@), output: *self.output, block: self.block@ }
    }
}

/// A function of another contract. One with `&self` is called by `STATICCALL`, one with
/// `&mut self` by `CALL`.
#[derive(Debug)]
pub struct InterfaceMethod<'a> {
    pub sig: String,
    pub params: Vec<Param<'a>>,
    pub output: &'a Option<Type>,
    pub mutable: bool,
}

/// The mathematical form of a function of another contract.
#[verifier::ext_equal]
pub struct ForeignMethod {
    pub sig: Seq<char>,
    pub params: Seq<Parameter>,
    pub output: Option<Type>,
    pub mutable: bool,
}

impl<'a> View for InterfaceMethod<'a> {
    type V = ForeignMethod;

    open spec fn view(&self) -> ForeignMethod {
        ForeignMethod {
            sig: self.sig@,
            params: parameters(self.params@),
            output: *self.output,
            mutable: self.mutable,
        }
    }
}

/// The functions of another contract, by name.
pub struct InterfaceDef<'a> {
    pub methods: NameMap<InterfaceMethod<'a>>,
}

impl<'a> View for InterfaceDef<'a> {
    type V = Seq<(Seq<char>, ForeignMethod)>;

    open spec fn view(&self) -> Seq<(Seq<char>, ForeignMethod)> {
        self.methods@
    }
}

/// What stays the same while a whole contract is compiled.
pub struct Ctx<'a> {
    pub storage: NameMap<StorageField>,
    pub events: NameMap<EventDef<'a>>,
    pub internal_functions: NameMap<InternalFn<'a>>,
    /// The declared type of each storage field, so that chains of mappings and arrays can be
    /// followed a level at a time.
    pub field_types: NameMap<&'a Type>,
    pub interfaces: NameMap<InterfaceDef<'a>>,
}

/// The mathematical form of what is known of a contract.
#[verifier::ext_equal]
pub struct Contract {
    pub storage: Seq<(Seq<char>, StorageField)>,
    pub events: Seq<(Seq<char>, Event)>,
    pub internal_functions: Seq<(Seq<char>, Internal)>,
    pub field_types: Seq<(Seq<char>, Type)>,
    pub interfaces: Seq<(Seq<char>, Seq<(Seq<char>, ForeignMethod)>)>,
}

impl<'a> View for Ctx<'a> {
    type V = Contract;

    open spec fn view(&self) -> Contract {
        Contract {
            storage: self.storage@,
            events: self.events@,
            internal_functions: self.internal_functions@,
            field_types: self.field_types@,
            interfaces: self.interfaces@,
        }
    }
}

/// What stays the same while the statements of one function are compiled: the contract, the
/// internal functions that are being inlined, and whether the result is a string.
#[verifier::ext_equal]
pub struct Env {
    pub contract: Contract,
    pub stack: Seq<Seq<char>>,
    pub ret_string: bool,
}

impl Env {
    /// The environment in the body of an internal function.
    pub open spec fn within(self, name: Seq<char>) -> Env {
        Env { contract: self.contract, stack: self.stack.push(name), ret_string: self.ret_string }
    }
}

/// The variables that are known at a place of the code: the memory offset of each local variable,
/// the call data offset of each parameter, and the first memory offset that is free.
#[verifier::ext_equal]
pub struct Scope {
    pub locals: Seq<(Seq<char>, u32)>,
    pub params: Seq<(Seq<char>, u32)>,
    pub next_local: u32,
}

impl Scope {
    /// The scope at the start of a function: the memory below 0x80 is scratch space.
    pub open spec fn initial() -> Scope {
        Scope { locals: Seq::empty(), params: Seq::empty(), next_local: 0x80 }
    }

    /// Whether one more word of memory has a 32-bit offset.
    pub open spec fn has_room(self) -> bool {
        self.next_local + 0x20 <= u32::MAX
    }

    /// Whether `n` more words of memory have 32-bit offsets.
    pub open spec fn has_room_for_words(self, n: nat) -> bool {
        self.next_local + 0x20 * n <= u32::MAX
    }

    /// The scope after one word of memory was reserved.
    pub open spec fn reserved(self) -> Scope {
        Scope {
            locals: self.locals,
            params: self.params,
            next_local: (self.next_local + 0x20) as u32,
        }
    }

    /// The scope in which a name stands for a word of memory.
    pub open spec fn with_local(self, name: Seq<char>, offset: u32) -> Scope {
        Scope {
            locals: self.locals.push((name, offset)),
            params: self.params,
            next_local: self.next_local,
        }
    }

    /// The scope in which a name stands for a word of call data.
    pub open spec fn with_param(self, name: Seq<char>, offset: u32) -> Scope {
        Scope {
            locals: self.locals,
            params: self.params.push((name, offset)),
            next_local: self.next_local,
        }
    }

    /// Whether the memory for a call with `nargs` arguments has 32-bit offsets: one word for the
    /// selector, and one for each argument.
    pub open spec fn has_room_for_call(self, nargs: nat) -> bool {
        self.next_local + 0x20 * (1 + nargs) <= u32::MAX
    }

    /// The scope after the memory for a call was reserved.
    pub open spec fn reserved_for_call(self, nargs: nat) -> Scope {
        Scope {
            locals: self.locals,
            params: self.params,
            next_local: (self.next_local + 0x20 * (1 + nargs)) as u32,
        }
    }
}

/// The state of the compiler in a function body.
pub struct Lower<'a> {
    pub ctx: &'a Ctx<'a>,
    pub locals: NameMap<u32>,
    pub param_offsets: NameMap<u32>,
    pub next_local: u32,
    /// The internal functions that are being inlined: none of them may be called again.
    pub call_stack: Vec<String>,
    pub ret_string: bool,
}

impl<'a> Lower<'a> {
    /// What stays the same while the function is compiled.
    pub open spec fn env(&self) -> Env {
        Env {
            contract: self.ctx@,
            stack: texts(self.call_stack@),
            ret_string: self.ret_string,
        }
    }

    /// The variables that are known.
    pub open spec fn scope(&self) -> Scope {
        Scope {
            locals: self.locals@,
            params: self.param_offsets@,
            next_local: self.next_local,
        }
    }

    /// The state at the start of a function.
    pub fn new(ctx: &'a Ctx<'a>, ret_string: bool) -> (r: Lower<'a>)
        ensures
            r.env() == (Env { contract: ctx@, stack: Seq::empty(), ret_string }),
            r.scope() == Scope::initial(),
    {
        let r = Lower {
            ctx,
            locals: NameMap::new(),
            param_offsets: NameMap::new(),
            next_local: 0x80,
            call_stack: Vec::new(),
            ret_string,
        };
        assert(texts(r.call_stack@) =~= Seq::empty());
        r
    }

    /// Reserves a word of memory, above the scratch space. `None` if its offset needs more than 32
    /// bits.
    pub fn alloc_local(&mut self) -> (r: Option<u32>)
        ensures
            final(self).env() == old(self).env(),
            r == if old(self).scope().has_room() {
                Some(old(self).next_local)
            } else {
                None
            },
            final(self).scope() == if old(self).scope().has_room() {
                old(self).scope().reserved()
            } else {
                old(self).scope()
            },
    {
        let offset = self.next_local;
        match offset.checked_add(0x20) {
            Some(next) => {
                self.next_local = next;
                Some(offset)
            },
            None => None,
        }
    }

    /// Whether there are `n` words of memory behind those that are reserved, with offsets of 32
    /// bits.
    pub fn has_room_for_words(&self, n: usize) -> (r: bool)
        ensures
            r == self.scope().has_room_for_words(n as nat),
    {
        n as u64 <= (0xFFFF_FFFF - self.next_local as u64) / 0x20
    }

    /// Reserves the memory for a call: one word for the selector, and one for each argument.
    /// `None` if it needs offsets of more than 32 bits.
    pub fn alloc_calldata(&mut self, nargs: usize) -> (r: Option<u32>)
        ensures
            final(self).env() == old(self).env(),
            r == if old(self).scope().has_room_for_call(nargs as nat) {
                Some(old(self).next_local)
            } else {
                None
            },
            final(self).scope() == if old(self).scope().has_room_for_call(nargs as nat) {
                old(self).scope().reserved_for_call(nargs as nat)
            } else {
                old(self).scope()
            },
    {
        let base = self.next_local;
        if nargs > 0xFFF_FFFF {
            return None;
        }
        let next: u64 = base as u64 + 0x20 * (1 + nargs as u64);
        if next <= 0xFFFF_FFFF {
            self.next_local = next as u32;
            Some(base)
        } else {
            None
        }
    }
}

/// The number of entries of internal functions that are not being inlined.
pub open spec fn uncalled(table: Seq<(Seq<char>, Internal)>, stack: Seq<Seq<char>>) -> nat
    decreases table.len(),
{
    if table.len() == 0 {
        0
    } else {
        uncalled(table.drop_last(), stack) + if stack.contains(table.last().0) {
            0nat
        } else {
            1
        }
    }
}

/// How many internal functions can still be inlined.
pub open spec fn depth(env: Env) -> nat {
    uncalled(env.contract.internal_functions, env.stack)
}

proof fn lemma_uncalled_monotone(
    table: Seq<(Seq<char>, Internal)>,
    stack: Seq<Seq<char>>,
    name: Seq<char>,
)
    ensures
        uncalled(table, stack.push(name)) <= uncalled(table, stack),
    decreases table.len(),
{
    if table.len() > 0 {
        lemma_uncalled_monotone(table.drop_last(), stack, name);
        let last = table.last().0;
        if stack.contains(last) {
            let i = choose|i: int| 0 <= i < stack.len() && stack[i] == last;
            assert(stack.push(name)[i] == last);
        }
    }
}

proof fn lemma_uncalled_less(
    table: Seq<(Seq<char>, Internal)>,
    stack: Seq<Seq<char>>,
    name: Seq<char>,
)
    requires
        lookup(table, name) is Some,
        !stack.contains(name),
    ensures
        uncalled(table, stack.push(name)) < uncalled(table, stack),
    decreases table.len(),
{
    let rest = table.drop_last();
    if table.last().0 == name {
        lemma_uncalled_monotone(rest, stack, name);
        assert(stack.push(name)[stack.len() as int] == name);
    } else {
        lemma_uncalled_less(rest, stack, name);
        let last = table.last().0;
        if stack.contains(last) {
            let i = choose|i: int| 0 <= i < stack.len() && stack[i] == last;
            assert(stack.push(name)[i] == last);
        }
    }
}

/// Inlining a function that is not being inlined leaves fewer to inline.
pub proof fn lemma_depth(env: Env, name: Seq<char>)
    requires
        lookup(env.contract.internal_functions, name) is Some,
        !env.stack.contains(name),
    ensures
        depth(env.within(name)) < depth(env),
{
    lemma_uncalled_less(env.contract.internal_functions, env.stack, name);
}

} // verus!
