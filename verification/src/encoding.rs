//! Arguments as the contract ABI encodes them, and what functions and constructors make of them:
//! every parameter holds the value that was encoded for it.

use vstd::arithmetic::div_mod::lemma_small_mod;
use vstd::prelude::*;

use crate::abi::Parameter;
use crate::ast::{Stmt, Type};
use crate::bytes::{
    be_bytes, be_value, lemma_be_bytes_len, lemma_be_value_of_be_bytes, lemma_be_value_zeros, zeros,
};
use crate::effects::lemma_modulus;
use crate::machine::{calldata_word, modulus, padded, word, Chain};
use crate::meaning::{
    code_word, eval_block, eval_constructor, eval_constructor_params, eval_function,
    eval_function_params, packed_word, variable, Outcome, Store,
};
use crate::model::{Contract, Env, Scope};
use crate::names::lookup;
use crate::scheme::{
    arguments_len, constructor_code, constructor_params, function_code, function_params,
    head_offset, short_string_type, string_count, Tail,
};
use crate::shape::{
    lemma_initial_scope, lemma_local_below, scope_ok, sound_constructor_params,
    sound_function_params,
};
use crate::simulate::clean;
use crate::word::Word;

verus! {

/// A value for a parameter.
pub enum Argument {
    /// A word.
    Word(nat),
    /// The bytes of a string.
    Text(Seq<u8>),
}

/// Whether a type is that of strings.
pub open spec fn is_string(ty: Type) -> bool {
    ty matches Type::Path(name, _) && name@ == "ShortString"@
}

/// Whether there is a value for every parameter: a string where the parameter is one, and a word
/// otherwise.
pub open spec fn fit(params: Seq<Parameter>, args: Seq<Argument>) -> bool {
    &&& args.len() == params.len()
    &&& forall|i: int|
        0 <= i < args.len() ==> match #[trigger] args[i] {
            Argument::Text(_) => is_string(params[i].ty),
            Argument::Word(w) => !is_string(params[i].ty) && w < modulus(),
        }
}

/// Whether all strings are shorter than 32 bytes.
pub open spec fn short_texts(args: Seq<Argument>) -> bool {
    forall|i: int|
        0 <= i < args.len() ==> (#[trigger] args[i] matches Argument::Text(t) ==> t.len() < 32)
}

/// Whether no string is empty.
pub open spec fn full_texts(args: Seq<Argument>) -> bool {
    forall|i: int|
        0 <= i < args.len() ==> (#[trigger] args[i] matches Argument::Text(t) ==> t.len() > 0)
}

/// Whether no two parameters have the same name.
pub open spec fn distinct_names(params: Seq<Parameter>) -> bool {
    forall|i: int, j: int|
        #![trigger params[i], params[j]]
        0 <= i < j < params.len() ==> params[i].name != params[j].name
}

/// The part of a value behind the heads: the length of a string, its bytes, and zeros up to a whole
/// number of words.
pub open spec fn tail_of(arg: Argument) -> Seq<u8> {
    match arg {
        Argument::Word(_) => Seq::empty(),
        Argument::Text(t) => be_bytes(t.len(), 32) + t + zeros(((32 - t.len() % 32) % 32) as nat),
    }
}

/// The parts of the first `k` values behind the heads.
pub open spec fn tails(args: Seq<Argument>, k: nat) -> Seq<u8>
    decreases k,
{
    if k == 0 {
        Seq::empty()
    } else {
        tails(args, (k - 1) as nat) + tail_of(args[k - 1])
    }
}

/// The head of a value: the word itself, or how far from the first head the string lies.
pub open spec fn head_of(args: Seq<Argument>, i: nat) -> nat {
    match args[i as int] {
        Argument::Word(w) => w,
        Argument::Text(_) => 32 * args.len() + tails(args, i).len(),
    }
}

/// The heads of the first `k` values.
pub open spec fn heads(args: Seq<Argument>, k: nat) -> Seq<u8>
    decreases k,
{
    if k == 0 {
        Seq::empty()
    } else {
        heads(args, (k - 1) as nat) + be_bytes(head_of(args, (k - 1) as nat), 32)
    }
}

/// Values as the contract ABI encodes them: the heads, then the strings.
pub open spec fn encoded(args: Seq<Argument>) -> Seq<u8> {
    heads(args, args.len()) + tails(args, args.len())
}

/// What a variable holds for a value: the word, or the string packed with twice its length in the
/// last byte.
pub open spec fn held(arg: Argument) -> nat {
    match arg {
        Argument::Word(w) => w,
        Argument::Text(t) => be_value(
            (t + zeros((31 - t.len()) as nat)).push((2 * t.len()) as u8),
        ),
    }
}

/// Every head is a word.
proof fn lemma_heads(args: Seq<Argument>, k: nat)
    ensures
        heads(args, k).len() == 32 * k,
    decreases k,
{
    if k > 0 {
        lemma_heads(args, (k - 1) as nat);
        lemma_be_bytes_len(head_of(args, (k - 1) as nat), 32);
    }
}

/// Where the head of a value lies.
proof fn lemma_head_at(args: Seq<Argument>, k: nat, i: nat, b: int)
    requires
        i < k,
        0 <= b < 32,
    ensures
        heads(args, k).len() == 32 * k,
        heads(args, k)[32 * i + b] == be_bytes(head_of(args, i), 32)[b],
    decreases k,
{
    let j = (k - 1) as nat;
    lemma_heads(args, j);
    lemma_heads(args, k);
    lemma_be_bytes_len(head_of(args, j), 32);
    if i < j {
        lemma_head_at(args, j, i, b);
    }
}

/// The strings of the first values come first.
proof fn lemma_tails(args: Seq<Argument>, i: nat, n: nat)
    requires
        i <= n,
    ensures
        tails(args, i).len() <= tails(args, n).len(),
        tails(args, n).take(tails(args, i).len() as int) == tails(args, i),
    decreases n - i,
{
    if i < n {
        let j = (n - 1) as nat;
        lemma_tails(args, i, j);
        assert(tails(args, n).take(tails(args, i).len() as int) =~= tails(args, j).take(
            tails(args, i).len() as int,
        ));
    } else {
        assert(tails(args, n).take(tails(args, i).len() as int) =~= tails(args, i));
    }
}

/// The bytes of a value among the strings.
proof fn lemma_tail_at(args: Seq<Argument>, i: nat, n: nat, j: int)
    requires
        i < n,
        0 <= j < tail_of(args[i as int]).len(),
    ensures
        tails(args, i).len() + j < tails(args, n).len(),
        tails(args, n)[tails(args, i).len() + j] == tail_of(args[i as int])[j],
{
    let next = tails(args, i + 1);
    lemma_tails(args, i + 1, n);
    assert(next == tails(args, i) + tail_of(args[i as int]));
    let at = tails(args, i).len() + j;
    assert(tails(args, n).take(next.len() as int)[at] == tails(args, n)[at]);
}

/// The head of a value, read behind other bytes.
proof fn lemma_read_head(front: Seq<u8>, args: Seq<Argument>, i: nat)
    requires
        i < args.len(),
        head_of(args, i) < modulus(),
    ensures
        be_value(padded(front + encoded(args), (front.len() + 32 * i) as int, 32)) == head_of(
            args,
            i,
        ),
{
    let n = args.len();
    let bytes = be_bytes(head_of(args, i), 32);
    let all = front + encoded(args);
    let at = (front.len() + 32 * i) as int;
    lemma_heads(args, n);
    lemma_be_bytes_len(head_of(args, i), 32);
    assert forall|j: int| 0 <= j < 32 implies #[trigger] padded(all, at, 32)[j] == bytes[j] by {
        lemma_head_at(args, n, i, j);
        assert(all[at + j] == heads(args, n)[32 * i + j]);
    }
    assert(padded(all, at, 32) =~= bytes);
    lemma_modulus();
    lemma_be_value_of_be_bytes(head_of(args, i), 32);
}

/// The length of a string, read behind other bytes.
proof fn lemma_read_length(front: Seq<u8>, args: Seq<Argument>, i: nat, t: Seq<u8>)
    requires
        i < args.len(),
        args[i as int] == Argument::Text(t),
        t.len() < modulus(),
    ensures
        ({
            let at = front.len() + 32 * args.len() + tails(args, i).len();
            be_value(padded(front + encoded(args), at as int, 32)) == t.len()
        }),
{
    let n = args.len();
    let at = (front.len() + 32 * n + tails(args, i).len()) as int;
    let all = front + encoded(args);
    let bytes = be_bytes(t.len(), 32);
    lemma_heads(args, n);
    lemma_be_bytes_len(t.len(), 32);
    assert forall|j: int| 0 <= j < 32 implies #[trigger] padded(all, at, 32)[j] == bytes[j] by {
        lemma_tail_at(args, i, n, j);
        assert(all[at + j] == tails(args, n)[tails(args, i).len() + j]);
    }
    assert(padded(all, at, 32) =~= bytes);
    lemma_modulus();
    lemma_be_value_of_be_bytes(t.len(), 32);
}

/// The bytes of a string that is not empty, read behind other bytes.
proof fn lemma_read_text(front: Seq<u8>, args: Seq<Argument>, i: nat, t: Seq<u8>)
    requires
        i < args.len(),
        args[i as int] == Argument::Text(t),
        0 < t.len() < 32,
    ensures
        ({
            let at = front.len() + 32 * args.len() + tails(args, i).len() + 32;
            padded(front + encoded(args), at as int, 32) == t + zeros((32 - t.len()) as nat)
        }),
{
    let n = args.len();
    let at = (front.len() + 32 * n + tails(args, i).len() + 32) as int;
    let all = front + encoded(args);
    let bytes = t + zeros((32 - t.len()) as nat);
    let part = tail_of(args[i as int]);
    lemma_heads(args, n);
    lemma_be_bytes_len(t.len(), 32);
    assert((32 - t.len() % 32) % 32 == 32 - t.len());
    assert(part =~= be_bytes(t.len(), 32) + bytes);
    assert forall|j: int| 0 <= j < 32 implies #[trigger] padded(all, at, 32)[j] == bytes[j] by {
        lemma_tail_at(args, i, n, 32 + j);
        assert(part[32 + j] == bytes[j]);
        assert(all[at + j] == tails(args, n)[tails(args, i).len() + 32 + j]);
    }
    assert(padded(all, at, 32) =~= bytes);
}

/// What lies behind the first strings: the length of the next one, or nothing.
proof fn lemma_next_length(args: Seq<Argument>, k: nat)
    requires
        k <= args.len(),
        short_texts(args),
    ensures
        be_value(padded(tails(args, args.len()), tails(args, k).len() as int, 32)) < 32,
    decreases args.len() - k,
{
    let n = args.len();
    let at = tails(args, k).len() as int;
    let word = padded(tails(args, n), at, 32);
    if k == n {
        assert(word =~= zeros(32));
        lemma_be_value_zeros(32);
    } else {
        match args[k as int] {
            Argument::Word(_) => {
                assert(tails(args, k + 1) =~= tails(args, k));
                lemma_next_length(args, k + 1);
            },
            Argument::Text(t) => {
                let bytes = be_bytes(t.len(), 32);
                lemma_be_bytes_len(t.len(), 32);
                assert forall|j: int| 0 <= j < 32 implies #[trigger] word[j] == bytes[j] by {
                    lemma_tail_at(args, k, n, j);
                }
                assert(word =~= bytes);
                lemma_modulus();
                lemma_be_value_of_be_bytes(t.len(), 32);
            },
        }
    }
}

/// The word behind the length of an empty string, read behind other bytes.
proof fn lemma_read_nothing(front: Seq<u8>, args: Seq<Argument>, i: nat, t: Seq<u8>)
    requires
        i < args.len(),
        args[i as int] == Argument::Text(t),
        t.len() == 0,
        short_texts(args),
    ensures
        ({
            let at = front.len() + 32 * args.len() + tails(args, i).len() + 32;
            be_value(padded(front + encoded(args), at as int, 32)) < 32
        }),
{
    let n = args.len();
    let at = (front.len() + 32 * n + tails(args, i).len() + 32) as int;
    let all = front + encoded(args);
    let behind = tails(args, i + 1).len() as int;
    lemma_heads(args, n);
    lemma_be_bytes_len(0, 32);
    assert(tail_of(args[i as int]).len() == 32);
    assert(behind == tails(args, i).len() + 32);
    lemma_tails(args, i + 1, n);
    lemma_next_length(args, i + 1);
    assert(padded(all, at, 32) =~= padded(tails(args, n), behind, 32));
}

/// A byte behind a byte string.
proof fn lemma_value_push(s: Seq<u8>, b: u8)
    ensures
        be_value(s.push(b)) == be_value(s) * 256 + b,
{
    assert(s.push(b).drop_last() =~= s);
}

/// Packing gives what a variable holds for a string.
proof fn lemma_held_text(t: Seq<u8>, data: nat)
    requires
        t.len() < 32,
        t.len() > 0 ==> data == be_value(t + zeros((32 - t.len()) as nat)),
        t.len() == 0 ==> data < 256,
    ensures
        packed_word(t.len(), data) == held(Argument::Text(t)),
{
    let upper = t + zeros((31 - t.len()) as nat);
    lemma_value_push(upper, (2 * t.len()) as u8);
    lemma_value_push(upper, 0);
    if t.len() > 0 {
        assert(upper.push(0) =~= t + zeros((32 - t.len()) as nat));
    } else {
        assert(upper =~= zeros(31));
        lemma_be_value_zeros(31);
    }
}

/// How long the strings of the first values are, if none is empty.
proof fn lemma_tails_len(params: Seq<Parameter>, args: Seq<Argument>, k: nat)
    requires
        k <= args.len(),
        fit(params, args),
        short_texts(args),
        full_texts(args),
    ensures
        tails(args, k).len() == 64 * string_count(params, k),
    decreases k,
{
    if k > 0 {
        lemma_tails_len(params, args, (k - 1) as nat);
        if let Argument::Text(t) = args[k - 1] {
            lemma_be_bytes_len(t.len(), 32);
        }
    }
}

/// Whether the first `k` parameters hold their values, and no other name is known.
pub open spec fn hold(
    chain: Chain,
    params: Seq<Parameter>,
    args: Seq<Argument>,
    k: nat,
    scope: Scope,
    st: Store,
) -> bool {
    &&& forall|i: int|
        0 <= i < k ==> variable(chain, #[trigger] params[i].name, scope, st) == Some(held(args[i]))
    &&& forall|name: Seq<char>|
        (forall|i: int| 0 <= i < k ==> (#[trigger] params[i]).name != name)
            ==> lookup(scope.locals, name) is None && #[trigger] lookup(scope.params, name) is None
}

/// Whether two stores differ in variables only.
pub open spec fn same_ledger(a: Store, b: Store) -> bool {
    a.storage == b.storage && a.logs == b.logs && a.calls == b.calls
}

/// One more parameter that is a local variable.
pub proof fn lemma_hold_local(
    chain: Chain,
    params: Seq<Parameter>,
    args: Seq<Argument>,
    k: nat,
    scope: Scope,
    st: Store,
    v: nat,
)
    requires
        k < params.len(),
        distinct_names(params),
        scope_ok(scope),
        hold(chain, params, args, k, scope, st),
        v == held(args[k as int]),
    ensures
        hold(
            chain,
            params,
            args,
            k + 1,
            scope.reserved().with_local(params[k as int].name, scope.next_local),
            st.with_cell(scope.next_local as nat, v),
        ),
{
    let name = params[k as int].name;
    let after = scope.reserved().with_local(name, scope.next_local);
    let now = st.with_cell(scope.next_local as nat, v);
    assert(after.locals.drop_last() =~= scope.locals);
    assert forall|i: int| 0 <= i < k + 1 implies variable(
        chain,
        #[trigger] params[i].name,
        after,
        now,
    ) == Some(held(args[i])) by {
        if i < k {
            assert(params[i].name != params[k as int].name);
            lemma_local_below(scope, params[i].name);
            assert(variable(chain, params[i].name, scope, st) == Some(held(args[i])));
        }
    }
    assert forall|other: Seq<char>|
        (forall|i: int| 0 <= i < k + 1 ==> (#[trigger] params[i]).name != other) implies lookup(
        after.locals,
        other,
    ) is None && #[trigger] lookup(after.params, other) is None by {
        assert(params[k as int].name != other);
        assert(lookup(scope.params, other) is None);
    }
}

/// One more parameter that is read from the call data.
proof fn lemma_hold_param(
    chain: Chain,
    params: Seq<Parameter>,
    args: Seq<Argument>,
    k: nat,
    scope: Scope,
    st: Store,
    offset: u32,
)
    requires
        k < params.len(),
        distinct_names(params),
        hold(chain, params, args, k, scope, st),
        calldata_word(chain, offset as nat) == held(args[k as int]),
    ensures
        hold(chain, params, args, k + 1, scope.with_param(params[k as int].name, offset), st),
{
    let name = params[k as int].name;
    let after = scope.with_param(name, offset);
    assert(after.params.drop_last() =~= scope.params);
    assert forall|i: int| 0 <= i < k implies (#[trigger] params[i]).name != name by {
        assert(params[i].name != params[k as int].name);
    }
    assert(lookup(scope.params, name) is None);
    assert(lookup(scope.locals, name) is None);
    assert forall|i: int| 0 <= i < k + 1 implies variable(
        chain,
        #[trigger] params[i].name,
        after,
        st,
    ) == Some(held(args[i])) by {
        if i < k {
            assert(variable(chain, params[i].name, scope, st) == Some(held(args[i])));
        }
    }
    assert forall|other: Seq<char>|
        (forall|i: int| 0 <= i < k + 1 ==> (#[trigger] params[i]).name != other) implies lookup(
        after.locals,
        other,
    ) is None && #[trigger] lookup(after.params, other) is None by {
        assert(params[k as int].name != other);
        assert(lookup(scope.params, other) is None);
    }
}

/// What a string in the call data is decoded to.
proof fn lemma_decoded_text(
    chain: Chain,
    selector: Seq<u8>,
    args: Seq<Argument>,
    k: nat,
    t: Seq<u8>,
)
    requires
        selector.len() == 4,
        chain.calldata == selector + encoded(args),
        chain.calldata.len() < modulus(),
        k < args.len(),
        args[k as int] == Argument::Text(t),
        t.len() < modulus(),
    ensures
        ({
            let at = word((4 + calldata_word(chain, 4 + 32 * k)) as int);
            let data = calldata_word(chain, word((0x20 + at) as int));
            &&& calldata_word(chain, at) == t.len()
            &&& t.len() < 32 && short_texts(args) ==> packed_word(t.len(), data) == held(
                Argument::Text(t),
            )
        }),
{
    let n = args.len();
    let place = 4 + 32 * n + tails(args, k).len();
    lemma_heads(args, n);
    lemma_tails(args, k + 1, n);
    lemma_be_bytes_len(t.len(), 32);
    assert(place + 32 <= chain.calldata.len());
    lemma_read_head(selector, args, k);
    lemma_small_mod(place, modulus());
    lemma_small_mod(place + 32, modulus());
    lemma_read_length(selector, args, k, t);
    if t.len() < 32 && short_texts(args) {
        let data = calldata_word(chain, place + 32);
        if t.len() > 0 {
            lemma_read_text(selector, args, k, t);
        } else {
            lemma_read_nothing(selector, args, k, t);
        }
        lemma_held_text(t, data);
    }
}

/// The first parameters of a function hold their values.
proof fn lemma_function_arguments(
    chain: Chain,
    selector: Seq<u8>,
    params: Seq<Parameter>,
    args: Seq<Argument>,
    k: nat,
    st: Store,
) -> (ready: Store)
    requires
        k <= params.len(),
        fit(params, args),
        short_texts(args),
        distinct_names(params),
        selector.len() == 4,
        chain.calldata == selector + encoded(args),
        chain.calldata.len() < modulus(),
        clean(function_params(params, k, Scope::initial()).code),
    ensures
        eval_function_params(chain, params, k, Scope::initial(), st) == Outcome::Next(ready),
        same_ledger(ready, st),
        hold(
            chain,
            params,
            args,
            k,
            function_params(params, k, Scope::initial()).scope,
            ready,
        ),
    decreases k,
{
    if k == 0 {
        st
    } else {
        let j = (k - 1) as nat;
        let before = function_params(params, j, Scope::initial());
        let head = head_offset(j);
        assert(clean(before.code));
        let mid = lemma_function_arguments(chain, selector, params, args, j, st);
        lemma_initial_scope();
        sound_function_params(params, j, Scope::initial());
        match args[j as int] {
            Argument::Text(t) => {
                assert(short_string_type(params[j as int].ty));
                lemma_decoded_text(chain, selector, args, j, t);
                let v = held(args[j as int]);
                lemma_hold_local(chain, params, args, j, before.scope, mid, v);
                mid.with_cell(before.scope.next_local as nat, v)
            },
            Argument::Word(w) => {
                assert(!short_string_type(params[j as int].ty));
                assert(head <= u32::MAX);
                lemma_read_head(selector, args, j);
                lemma_hold_param(chain, params, args, j, before.scope, mid, head as u32);
                mid
            },
        }
    }
}

/// A function that is called with encoded arguments starts with them: the variable of every
/// parameter reads as the value that was encoded for it, whatever words and strings come before and
/// behind it. Nothing but variables has changed by then.
pub proof fn law_function_arguments(
    chain: Chain,
    selector: Seq<u8>,
    contract: Contract,
    params: Seq<Parameter>,
    output: Option<Type>,
    stmts: Seq<Stmt>,
    args: Seq<Argument>,
    st: Store,
    rounds: nat,
) -> (ready: Store)
    requires
        fit(params, args),
        short_texts(args),
        distinct_names(params),
        selector.len() == 4,
        chain.calldata == selector + encoded(args),
        chain.calldata.len() < modulus(),
        clean(function_code(contract, params, output, stmts)),
    ensures
        same_ledger(ready, st),
        ({
            let scope = function_params(params, params.len(), Scope::initial()).scope;
            let env = Env {
                contract,
                stack: Seq::empty(),
                ret_string: output matches Some(ty) && is_string(ty),
            };
            let tail = if output is Some {
                Tail::Return
            } else {
                Tail::Void
            };
            &&& forall|i: int|
                0 <= i < params.len() ==> variable(chain, #[trigger] params[i].name, scope, ready)
                    == Some(held(args[i]))
            &&& eval_function(chain, contract, params, output, stmts, st, rounds) == eval_block(
                chain,
                env,
                stmts,
                tail,
                scope,
                ready,
                rounds,
            )
        }),
{
    assert(clean(function_params(params, params.len(), Scope::initial()).code));
    lemma_function_arguments(chain, selector, params, args, params.len(), st)
}

/// A word among the parameters is read from the call data at its position, whatever the types of
/// the others are.
pub proof fn law_word_parameter(
    chain: Chain,
    params: Seq<Parameter>,
    k: nat,
    i: nat,
    st: Store,
)
    requires
        i < k <= params.len(),
        distinct_names(params),
        !is_string(params[i as int].ty),
        clean(function_params(params, k, Scope::initial()).code),
    ensures
        variable(
            chain,
            params[i as int].name,
            function_params(params, k, Scope::initial()).scope,
            st,
        ) == Some(calldata_word(chain, 4 + 32 * i)),
    decreases k,
{
    let j = (k - 1) as nat;
    let name = params[i as int].name;
    let before = function_params(params, j, Scope::initial());
    let now = function_params(params, k, Scope::initial());
    assert(clean(before.code));
    if i < j {
        law_word_parameter(chain, params, j, i, st);
        lemma_unknown_local(params, j, name);
        assert(params[j as int].name != name);
        if short_string_type(params[j as int].ty) {
            assert(now.scope.locals.drop_last() =~= before.scope.locals);
            lemma_word_is_no_local(params, j, i);
        } else {
            assert(now.scope.params.drop_last() =~= before.scope.params);
        }
    } else {
        lemma_unknown_local(params, j, name);
        assert(now.scope.params.last() == (name, head_offset(i) as u32));
        assert forall|n: int| 0 <= n < j implies (#[trigger] params[n]).name != name by {
            assert(params[n].name != params[i as int].name);
        }
    }
}

/// A name that no parameter has is no local variable.
proof fn lemma_unknown_local(params: Seq<Parameter>, k: nat, name: Seq<char>)
    requires
        k <= params.len(),
    ensures
        (forall|n: int| 0 <= n < k ==> (#[trigger] params[n]).name != name) ==> lookup(
            function_params(params, k, Scope::initial()).scope.locals,
            name,
        ) is None,
    decreases k,
{
    if k > 0 {
        let j = (k - 1) as nat;
        lemma_unknown_local(params, j, name);
        let before = function_params(params, j, Scope::initial());
        let now = function_params(params, k, Scope::initial());
        if forall|n: int| 0 <= n < k ==> (#[trigger] params[n]).name != name {
            assert(params[j as int].name != name);
            if now.scope.locals.len() > before.scope.locals.len() {
                assert(now.scope.locals.drop_last() =~= before.scope.locals);
            }
        }
    }
}

/// A word among the parameters is no local variable.
proof fn lemma_word_is_no_local(params: Seq<Parameter>, k: nat, i: nat)
    requires
        i < k <= params.len(),
        distinct_names(params),
        !is_string(params[i as int].ty),
    ensures
        lookup(
            function_params(params, k, Scope::initial()).scope.locals,
            params[i as int].name,
        ) is None,
    decreases k,
{
    let j = (k - 1) as nat;
    let name = params[i as int].name;
    let before = function_params(params, j, Scope::initial());
    let now = function_params(params, k, Scope::initial());
    if i < j {
        lemma_word_is_no_local(params, j, i);
        assert(params[j as int].name != name);
        if now.scope.locals.len() > before.scope.locals.len() {
            assert(now.scope.locals.drop_last() =~= before.scope.locals);
        }
    } else {
        assert forall|n: int| 0 <= n < j implies (#[trigger] params[n]).name != name by {
            assert(params[n].name != params[i as int].name);
        }
        lemma_unknown_local(params, j, name);
    }
}

/// The parameters before a string that is too long.
proof fn lemma_before_long_text(
    chain: Chain,
    selector: Seq<u8>,
    params: Seq<Parameter>,
    args: Seq<Argument>,
    k: nat,
    st: Store,
)
    requires
        k <= params.len(),
        fit(params, args),
        forall|i: int|
            0 <= i < k ==> (#[trigger] args[i] matches Argument::Text(t) ==> t.len() < 32),
        selector.len() == 4,
        chain.calldata == selector + encoded(args),
        chain.calldata.len() < modulus(),
    ensures
        eval_function_params(chain, params, k, Scope::initial(), st) is Next,
    decreases k,
{
    if k > 0 {
        let j = (k - 1) as nat;
        lemma_before_long_text(chain, selector, params, args, j, st);
        if let Argument::Text(t) = args[j as int] {
            lemma_decoded_text(chain, selector, args, j, t);
        }
    }
}

/// A function that is called with a string of 32 bytes or more reverts.
pub proof fn law_long_string_refused(
    chain: Chain,
    selector: Seq<u8>,
    contract: Contract,
    params: Seq<Parameter>,
    output: Option<Type>,
    stmts: Seq<Stmt>,
    args: Seq<Argument>,
    i: nat,
    t: Seq<u8>,
    st: Store,
    rounds: nat,
)
    requires
        fit(params, args),
        i < args.len(),
        args[i as int] == Argument::Text(t),
        32 <= t.len() < modulus(),
        forall|j: int|
            0 <= j < i ==> (#[trigger] args[j] matches Argument::Text(s) ==> s.len() < 32),
        selector.len() == 4,
        chain.calldata == selector + encoded(args),
        chain.calldata.len() < modulus(),
    ensures
        eval_function(chain, contract, params, output, stmts, st, rounds) == Outcome::Reverted,
{
    lemma_before_long_text(chain, selector, params, args, i, st);
    lemma_decoded_text(chain, selector, args, i, t);
    assert(short_string_type(params[i as int].ty));
    assert(eval_function_params(chain, params, i + 1, Scope::initial(), st) == Outcome::Reverted);
    lemma_stays_reverted(chain, params, i + 1, params.len(), st);
}

/// Once a parameter was refused, the call reverts.
proof fn lemma_stays_reverted(chain: Chain, params: Seq<Parameter>, k: nat, n: nat, st: Store)
    requires
        k <= n,
        eval_function_params(chain, params, k, Scope::initial(), st) == Outcome::Reverted,
    ensures
        eval_function_params(chain, params, n, Scope::initial(), st) == Outcome::Reverted,
    decreases n,
{
    if k < n {
        lemma_stays_reverted(chain, params, k, (n - 1) as nat, st);
    }
}

/// A word of the code, counted from its end.
proof fn lemma_code_word(chain: Chain, back: nat, at: nat)
    requires
        chain.code.len() < modulus(),
        0 < back,
        at + back == chain.code.len(),
    ensures
        code_word(chain, back) == be_value(padded(chain.code, at as int, 32)),
{
    lemma_small_mod(at, modulus());
}

/// The number of bytes of the code of a constructor and its arguments.
proof fn lemma_creation_size(code: Seq<u8>, params: Seq<Parameter>, args: Seq<Argument>)
    requires
        fit(params, args),
        short_texts(args),
        full_texts(args),
    ensures
        (code + encoded(args)).len() == code.len() + 32 * params.len() + 64 * string_count(
            params,
            params.len(),
        ),
{
    lemma_tails_len(params, args, params.len());
    lemma_heads(args, params.len());
}

/// The word that a constructor reads behind its code.
proof fn lemma_creation_word(
    chain: Chain,
    code: Seq<u8>,
    params: Seq<Parameter>,
    args: Seq<Argument>,
    k: nat,
    w: nat,
)
    requires
        k < params.len(),
        fit(params, args),
        short_texts(args),
        full_texts(args),
        args[k as int] == Argument::Word(w),
        chain.code == code + encoded(args),
        chain.code.len() < modulus(),
    ensures
        code_word(chain, (arguments_len(params) - 32 * k) as nat) == w,
{
    lemma_creation_size(code, params, args);
    lemma_code_word(chain, (arguments_len(params) - 32 * k) as nat, code.len() + 32 * k);
    lemma_read_head(code, args, k);
}

/// The string that a constructor reads behind its code.
proof fn lemma_creation_text(
    chain: Chain,
    code: Seq<u8>,
    params: Seq<Parameter>,
    args: Seq<Argument>,
    k: nat,
    t: Seq<u8>,
)
    requires
        k < params.len(),
        fit(params, args),
        short_texts(args),
        full_texts(args),
        args[k as int] == Argument::Text(t),
        chain.code == code + encoded(args),
        chain.code.len() < modulus(),
    ensures
        ({
            let left = string_count(params, params.len()) - string_count(params, k);
            let len = code_word(chain, (64 * left) as nat);
            let data = code_word(chain, (64 * left - 32) as nat);
            len == t.len() && packed_word(len, data) == held(Argument::Text(t))
        }),
{
    let n = params.len();
    let at = code.len() + 32 * n + tails(args, k).len();
    let left = string_count(params, n) - string_count(params, k);
    lemma_creation_size(code, params, args);
    lemma_tails_len(params, args, n);
    lemma_tails_len(params, args, k);
    lemma_tails_len(params, args, k + 1);
    lemma_tails(args, k + 1, n);
    assert(string_count(params, k + 1) == string_count(params, k) + 1);
    assert(left >= 1);
    lemma_code_word(chain, (64 * left) as nat, at);
    lemma_code_word(chain, (64 * left - 32) as nat, at + 32);
    lemma_modulus();
    lemma_read_length(code, args, k, t);
    lemma_read_text(code, args, k, t);
    lemma_held_text(t, be_value(t + zeros((32 - t.len()) as nat)));
}

/// What a constructor reads behind its code.
proof fn lemma_creation_value(
    chain: Chain,
    code: Seq<u8>,
    params: Seq<Parameter>,
    args: Seq<Argument>,
    k: nat,
)
    requires
        k < params.len(),
        fit(params, args),
        short_texts(args),
        full_texts(args),
        chain.code == code + encoded(args),
        chain.code.len() < modulus(),
    ensures
        match args[k as int] {
            Argument::Word(w) => code_word(
                chain,
                (arguments_len(params) - 32 * k) as nat,
            ) == w,
            Argument::Text(t) => {
                let left = string_count(params, params.len()) - string_count(params, k);
                let len = code_word(chain, (64 * left) as nat);
                let data = code_word(chain, (64 * left - 32) as nat);
                len == t.len() && packed_word(len, data) == held(args[k as int])
            },
        },
{
    match args[k as int] {
        Argument::Word(w) => lemma_creation_word(chain, code, params, args, k, w),
        Argument::Text(t) => lemma_creation_text(chain, code, params, args, k, t),
    }
}

/// The first parameters of a constructor hold their values.
proof fn lemma_constructor_arguments(
    chain: Chain,
    code: Seq<u8>,
    params: Seq<Parameter>,
    args: Seq<Argument>,
    k: nat,
    st: Store,
) -> (ready: Store)
    requires
        k <= params.len(),
        fit(params, args),
        short_texts(args),
        full_texts(args),
        distinct_names(params),
        chain.code == code + encoded(args),
        chain.code.len() < modulus(),
        clean(constructor_params(params, k, Scope::initial()).code),
    ensures
        eval_constructor_params(chain, params, k, Scope::initial(), st) == Outcome::Next(ready),
        same_ledger(ready, st),
        hold(
            chain,
            params,
            args,
            k,
            constructor_params(params, k, Scope::initial()).scope,
            ready,
        ),
    decreases k,
{
    if k == 0 {
        st
    } else {
        let j = (k - 1) as nat;
        let before = constructor_params(params, j, Scope::initial());
        assert(clean(before.code));
        let mid = lemma_constructor_arguments(chain, code, params, args, j, st);
        lemma_initial_scope();
        sound_constructor_params(params, j, Scope::initial());
        lemma_creation_value(chain, code, params, args, j);
        assert(short_string_type(params[j as int].ty) <==> args[j as int] is Text);
        let v = held(args[j as int]);
        lemma_hold_local(chain, params, args, j, before.scope, mid, v);
        mid.with_cell(before.scope.next_local as nat, v)
    }
}

/// A constructor that is run with encoded arguments behind the code starts with them: the variable
/// of every parameter reads as the value that was encoded for it, in whatever order words and
/// strings come. An empty string has no place for its bytes, and is left out here.
pub proof fn law_constructor_arguments(
    chain: Chain,
    code: Seq<u8>,
    contract: Contract,
    params: Seq<Parameter>,
    stmts: Seq<Stmt>,
    args: Seq<Argument>,
    st: Store,
    rounds: nat,
) -> (ready: Store)
    requires
        fit(params, args),
        short_texts(args),
        full_texts(args),
        distinct_names(params),
        chain.code == code + encoded(args),
        chain.code.len() < modulus(),
        clean(constructor_code(contract, params, stmts)),
    ensures
        same_ledger(ready, st),
        ({
            let scope = constructor_params(params, params.len(), Scope::initial()).scope;
            let env = Env { contract, stack: Seq::empty(), ret_string: false };
            &&& forall|i: int|
                0 <= i < params.len() ==> variable(chain, #[trigger] params[i].name, scope, ready)
                    == Some(held(args[i]))
            &&& eval_constructor(chain, contract, params, stmts, st, rounds) == eval_block(
                chain,
                env,
                stmts,
                Tail::Void,
                scope,
                ready,
                rounds,
            )
        }),
{
    assert(clean(constructor_params(params, params.len(), Scope::initial()).code));
    lemma_constructor_arguments(chain, code, params, args, params.len(), st)
}

} // verus!
