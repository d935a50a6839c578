//! Further laws: what strings give back, and what a module declares.

use vstd::prelude::*;
use vstd::utf8::encode_utf8;

use crate::ast::{Expr, Item, Method, StructField};
use crate::bytes::{be_bytes, be_value, lemma_be_bytes_of_be_value, minimal_be, zeros};
use crate::effects::string_data;
use crate::errors::{plain_fault, ErrorKind};
use crate::meaning::packed_word;
use crate::model::{Contract, Env, Event, Scope};
use crate::module::{
    declared, event_inserted, has_attribute, sorted_events, with_methods, with_storage, Declared,
};
use crate::names::lookup;
use crate::scheme::{internal_call, packed};
use crate::text::{bytes_before, text_before};

verus! {

/// The form that the contract ABI has for a string of at most 32 bytes: the offset of the string,
/// its length, and its bytes, filled up with zeros.
pub open spec fn string_encoding(text: Seq<u8>) -> Seq<u8> {
    be_bytes(0x20, 32) + be_bytes(text.len(), 32) + (text + zeros((32 - text.len()) as nat))
}

/// A byte behind a byte string.
proof fn lemma_be_value_push(s: Seq<u8>, b: u8)
    ensures
        be_value(s.push(b)) == be_value(s) * 256 + b,
{
    assert(s.push(b).drop_last() =~= s);
}

/// A short string that is packed into a word is returned as the contract ABI has it: packing loses
/// nothing.
pub proof fn law_packed_string_returned(text: Seq<u8>)
    requires
        text.len() < 32,
    ensures
        string_data(be_value(packed(text))) == string_encoding(text),
{
    let upper = text + zeros((31 - text.len()) as nat);
    let last = (2 * text.len()) as u8;
    let v = be_value(packed(text));
    lemma_be_value_push(upper, last);
    lemma_be_value_push(upper, 0);
    assert(v % 256 == 2 * text.len());
    assert(upper.push(0) =~= text + zeros((32 - text.len()) as nat));
    lemma_be_bytes_of_be_value(upper.push(0));
}

/// A short string that comes in the call data or behind the code of a constructor, filled up with
/// zeros, is packed as the literal is.
pub proof fn law_argument_packed_as_literal(text: Seq<u8>)
    requires
        text.len() < 32,
    ensures
        packed_word(text.len(), be_value(text + zeros((32 - text.len()) as nat))) == be_value(
            packed(text),
        ),
{
    let upper = text + zeros((31 - text.len()) as nat);
    lemma_be_value_push(upper, (2 * text.len()) as u8);
    lemma_be_value_push(upper, 0);
    assert(upper.push(0) =~= text + zeros((32 - text.len()) as nat));
}

/// Whether the slots of storage fields are their positions.
pub open spec fn slots_in_order(contract: Contract) -> bool {
    forall|i: int|
        #![trigger contract.storage[i]]
        0 <= i < contract.storage.len() ==> contract.storage[i].1.slot == i
}

/// Fields that are added to the storage.
proof fn lemma_with_storage(contract: Contract, fields: Seq<StructField>, k: nat)
    requires
        slots_in_order(contract),
        contract.storage.len() + k <= u64::MAX,
    ensures
        with_storage(contract, fields, k) matches Ok(after) ==> slots_in_order(after)
            && after.storage.len() == contract.storage.len() + k,
    decreases k,
{
    if k > 0 {
        lemma_with_storage(contract, fields, (k - 1) as nat);
    }
}

/// Functions add nothing to the storage.
proof fn lemma_with_methods_storage(d: Declared, methods: Seq<Method>, k: nat)
    ensures
        with_methods(d, methods, k) matches Ok(after) ==> after.contract.storage
            == d.contract.storage,
    decreases k,
{
    if k > 0 {
        lemma_with_methods_storage(d, methods, (k - 1) as nat);
    }
}

/// The number of storage fields that the first `k` items declare.
pub open spec fn field_count(items: Seq<Item>, k: nat) -> nat
    decreases k,
{
    if k == 0 {
        0
    } else {
        field_count(items, (k - 1) as nat) + match items[k - 1] {
            Item::Struct(attrs, _, fields) => if has_attribute(attrs@, "storage"@) {
                fields@.len()
            } else {
                0
            },
            _ => 0,
        }
    }
}

/// Storage slots are handed out in the order of declaration, starting with zero: no two fields
/// share a slot.
pub proof fn law_slots_in_order(items: Seq<Item>, k: nat)
    requires
        k <= items.len(),
        field_count(items, k) <= u64::MAX,
    ensures
        declared(items, k) matches Ok(d) ==> slots_in_order(d.contract) && d.contract.storage.len()
            == field_count(items, k),
    decreases k,
{
    if k > 0 {
        let j = (k - 1) as nat;
        law_slots_in_order(items, j);
        if let Ok(before) = declared(items, j) {
            match items[k - 1] {
                Item::Struct(attrs, name, fields) => {
                    if has_attribute(attrs@, "storage"@) {
                        lemma_with_storage(before.contract, fields@, fields@.len());
                    }
                },
                Item::Impl(methods) => {
                    lemma_with_methods_storage(before, methods@, methods@.len());
                },
                _ => {},
            }
        }
    }
}

/// An internal function that is being inlined cannot be called again: recursion does not compile.
pub proof fn law_recursion_refused(
    env: Env,
    receiver: Box<Expr>,
    method: String,
    args: Vec<Expr>,
    want_value: bool,
    scope: Scope,
)
    requires
        env.stack.contains(method@),
        lookup(env.contract.internal_functions, method@) is Some,
    ensures
        internal_call(env, Expr::MethodCall(receiver, method, args), want_value, scope).code.errors
            == seq![plain_fault(ErrorKind::RecursiveCall)],
{
}

/// Whether events are in the order of their names, each name once.
pub open spec fn strictly_sorted(events: Seq<Event>) -> bool {
    forall|i: int, j: int|
        #![trigger events[i], events[j]]
        0 <= i < j < events.len() ==> text_before(events[i].name, events[j].name)
}

/// The order of byte strings is transitive.
proof fn lemma_before_trans(a: Seq<u8>, b: Seq<u8>, c: Seq<u8>)
    requires
        bytes_before(a, b),
        bytes_before(b, c),
    ensures
        bytes_before(a, c),
    decreases c.len(),
{
    if a.len() > 0 && a[0] == b[0] && b[0] == c[0] {
        lemma_before_trans(a.drop_first(), b.drop_first(), c.drop_first());
    }
}

/// Of two different byte strings one comes before the other.
proof fn lemma_before_total(a: Seq<u8>, b: Seq<u8>)
    requires
        a != b,
    ensures
        bytes_before(a, b) || bytes_before(b, a),
    decreases a.len(),
{
    if a.len() == 0 || b.len() == 0 {
        if a.len() == b.len() {
            assert(a =~= b);
        }
    } else if a[0] == b[0] {
        if a.drop_first() == b.drop_first() {
            assert(a =~= seq![a[0]] + a.drop_first());
            assert(b =~= seq![b[0]] + b.drop_first());
        }
        lemma_before_total(a.drop_first(), b.drop_first());
    }
}

/// Of two different texts one comes before the other.
proof fn lemma_text_total(a: Seq<char>, b: Seq<char>)
    requires
        a != b,
    ensures
        text_before(a, b) || text_before(b, a),
{
    if encode_utf8(a) == encode_utf8(b) {
        vstd::utf8::encode_utf8_decode_utf8(a);
        vstd::utf8::encode_utf8_decode_utf8(b);
    }
    lemma_before_total(encode_utf8(a), encode_utf8(b));
}

/// One more event in a sorted list.
proof fn lemma_event_inserted(list: Seq<Event>, event: Event)
    requires
        strictly_sorted(list),
    ensures
        strictly_sorted(event_inserted(list, event)),
        forall|x: Event|
            #[trigger]
            event_inserted(list, event).contains(x) <==> x == event || (list.contains(x) && x.name
                != event.name),
    decreases list.len(),
{
    let result = event_inserted(list, event);
    if list.len() == 0 {
        assert(result[0] == event);
    } else {
        let rest = list.drop_first();
        assert forall|i: int, j: int|
            #![trigger rest[i], rest[j]]
            0 <= i < j < rest.len() implies text_before(rest[i].name, rest[j].name) by {
            assert(rest[i] == list[i + 1] && rest[j] == list[j + 1]);
        }
        assert forall|j: int| #![trigger list[j]] 0 < j < list.len() implies text_before(
            list[0].name,
            list[j].name,
        ) && list[0].name != list[j].name by {
            lemma_before_irreflexive(encode_utf8(list[0].name));
        }
        if event.name == list[0].name {
            assert(result =~= list.update(0, event));
            assert forall|x: Event| #[trigger] result.contains(x) <==> x == event || (
            list.contains(x) && x.name != event.name) by {
                if result.contains(x) {
                    let i = choose|i: int| 0 <= i < result.len() && result[i] == x;
                    if i > 0 {
                        assert(list[i] == x);
                    }
                }
                if x == event {
                    assert(result[0] == x);
                }
                if list.contains(x) && x.name != event.name {
                    let i = choose|i: int| 0 <= i < list.len() && list[i] == x;
                    assert(result[i] == x);
                }
            }
        } else if text_before(event.name, list[0].name) {
            assert(result =~= list.insert(0, event));
            assert forall|j: int| #![trigger list[j]] 0 <= j < list.len() implies text_before(
                event.name,
                list[j].name,
            ) by {
                if j > 0 {
                    lemma_before_trans(
                        encode_utf8(event.name),
                        encode_utf8(list[0].name),
                        encode_utf8(list[j].name),
                    );
                }
            }
            assert forall|i: int, j: int|
                #![trigger result[i], result[j]]
                0 <= i < j < result.len() implies text_before(result[i].name, result[j].name) by {
                assert(result[j] == list[j - 1]);
                if i > 0 {
                    assert(result[i] == list[i - 1]);
                }
            }
            assert forall|x: Event| #[trigger] result.contains(x) <==> x == event || (
            list.contains(x) && x.name != event.name) by {
                lemma_before_irreflexive(encode_utf8(event.name));
                if result.contains(x) {
                    let i = choose|i: int| 0 <= i < result.len() && result[i] == x;
                    if i > 0 {
                        assert(list[i - 1] == x);
                    }
                }
                if x == event {
                    assert(result[0] == x);
                }
                if list.contains(x) && x.name != event.name {
                    let i = choose|i: int| 0 <= i < list.len() && list[i] == x;
                    assert(result[i + 1] == x);
                }
            }
        } else {
            lemma_text_total(event.name, list[0].name);
            lemma_event_inserted(rest, event);
            let behind = event_inserted(rest, event);
            assert(result == seq![list[0]] + behind);
            assert forall|j: int| #![trigger behind[j]] 0 <= j < behind.len() implies text_before(
                list[0].name,
                behind[j].name,
            ) by {
                assert(behind.contains(behind[j]));
                if behind[j] != event {
                    let i = choose|i: int| 0 <= i < rest.len() && rest[i] == behind[j];
                    assert(list[i + 1] == behind[j]);
                }
            }
            assert forall|i: int, j: int|
                #![trigger result[i], result[j]]
                0 <= i < j < result.len() implies text_before(result[i].name, result[j].name) by {
                assert(result[j] == behind[j - 1]);
                if i > 0 {
                    assert(result[i] == behind[i - 1]);
                }
            }
            assert forall|x: Event| #[trigger] result.contains(x) <==> x == event || (
            list.contains(x) && x.name != event.name) by {
                if result.contains(x) {
                    let i = choose|i: int| 0 <= i < result.len() && result[i] == x;
                    if i > 0 {
                        assert(behind[i - 1] == x);
                        assert(behind.contains(x));
                        if rest.contains(x) {
                            let j = choose|j: int| 0 <= j < rest.len() && rest[j] == x;
                            assert(list[j + 1] == x);
                        }
                    } else {
                        assert(list[0] == x);
                    }
                }
                if x == event || (list.contains(x) && x.name != event.name) {
                    if x == list[0] {
                        assert(result[0] == x);
                    } else {
                        if x != event {
                            let i = choose|i: int| 0 <= i < list.len() && list[i] == x;
                            assert(rest[i - 1] == x);
                        }
                        assert(behind.contains(x));
                        let i = choose|i: int| 0 <= i < behind.len() && behind[i] == x;
                        assert(result[i + 1] == x);
                    }
                }
            }
        }
    }
}

/// No byte string comes before itself.
proof fn lemma_before_irreflexive(a: Seq<u8>)
    ensures
        !bytes_before(a, a),
    decreases a.len(),
{
    if a.len() > 0 {
        lemma_before_irreflexive(a.drop_first());
    }
}

/// The interface lists the events in the order of their names, each name once, and for each name
/// the event that was declared last.
pub proof fn law_events_sorted(events: Seq<(Seq<char>, Event)>, k: nat)
    requires
        k <= events.len(),
        events_named(events),
    ensures
        strictly_sorted(sorted_events(events, k)),
        forall|x: Event|
            #[trigger]
            sorted_events(events, k).contains(x) <==> lookup(events.take(k as int), x.name) == Some(
                x,
            ),
    decreases k,
{
    let now = events.take(k as int);
    if k > 0 {
        let j = (k - 1) as nat;
        let before = events.take(j as int);
        law_events_sorted(events, j);
        assert(now.drop_last() =~= before);
        assert(now.last() == events[k - 1]);
        lemma_event_inserted(sorted_events(events, j), events[k - 1].1);
        assert forall|x: Event| #[trigger] sorted_events(events, k).contains(x) <==> lookup(
            now,
            x.name,
        ) == Some(x) by {
            assert(sorted_events(events, j).contains(x) <==> lookup(before, x.name) == Some(x));
        }
    } else {
        assert forall|x: Event| #[trigger] sorted_events(events, k).contains(x) <==> lookup(
            now,
            x.name,
        ) == Some(x) by {
            assert(now.len() == 0);
        }
    }
}

/// Whether events are declared under their own names.
pub open spec fn events_named(events: Seq<(Seq<char>, Event)>) -> bool {
    forall|i: int|
        #![trigger events[i]]
        0 <= i < events.len() ==> events[i].0 == events[i].1.name
}

/// Functions add no events.
proof fn lemma_with_methods_events(d: Declared, methods: Seq<Method>, k: nat)
    ensures
        with_methods(d, methods, k) matches Ok(after) ==> after.contract.events
            == d.contract.events,
    decreases k,
{
    if k > 0 {
        lemma_with_methods_events(d, methods, (k - 1) as nat);
    }
}

/// Storage fields add no events.
proof fn lemma_with_storage_events(contract: Contract, fields: Seq<StructField>, k: nat)
    ensures
        with_storage(contract, fields, k) matches Ok(after) ==> after.events == contract.events,
    decreases k,
{
    if k > 0 {
        lemma_with_storage_events(contract, fields, (k - 1) as nat);
    }
}

/// The events of a module are declared under their own names, as the order of the interface asks.
pub proof fn law_events_named(items: Seq<Item>, k: nat)
    requires
        k <= items.len(),
    ensures
        declared(items, k) matches Ok(d) ==> events_named(d.contract.events),
    decreases k,
{
    if k > 0 {
        let j = (k - 1) as nat;
        law_events_named(items, j);
        if let Ok(before) = declared(items, j) {
            match items[k - 1] {
                Item::Struct(attrs, name, fields) => {
                    if has_attribute(attrs@, "storage"@) {
                        lemma_with_storage_events(before.contract, fields@, fields@.len());
                    }
                },
                Item::Impl(methods) => {
                    lemma_with_methods_events(before, methods@, methods@.len());
                },
                _ => {},
            }
        }
    }
}

/// The push of a number has as few bytes as the number needs: its operand has the value of the
/// number, does not start with a zero, and is empty for zero.
pub proof fn law_shortest_push(n: nat)
    ensures
        be_value(minimal_be(n)) == n,
        minimal_be(n).len() > 0 ==> minimal_be(n)[0] != 0,
        minimal_be(n).len() == 0 <==> n == 0,
    decreases n,
{
    if n > 0 {
        law_shortest_push(n / 256);
        lemma_be_value_push(minimal_be(n / 256), (n % 256) as u8);
    }
}

} // verus!
