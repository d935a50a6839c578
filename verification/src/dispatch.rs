//! Laws of contracts: a call runs the function that its selector names, and creation code deploys
//! the contract.

use vstd::prelude::*;

use vstd::arithmetic::power2::{lemma2_to64, pow2};

use crate::assembler::{relocate_all, Instr, Label, Op, Program};
use crate::builder::revert_empty_code;
use crate::bytes::{
    be_value, lemma_be_bytes_of_be_value, lemma_be_value_bound, lemma_be_value_concat,
};
use crate::contract::{
    body_labels, combinable, compare_code, dispatch_code, dispatcher, lemma_body_labels_monotone,
    prologue_code, runtime, with_bodies, Entry,
};
use crate::effects::{
    advance, holds, law_revert_empty, lemma_line, lemma_opcodes, lemma_push1, line, op_calldataload,
    op_dup1, op_eq, op_pop, op_push, op_shr,
};
use crate::layout::genuine;
use crate::machine::{
    calldata_word, flag, lemma_reaches_trans, padded, reaches, running, shifted_right, Chain,
    Effect, Machine, State, Status,
};
use crate::shape::{lemma_tidy_code, lemma_tidy_dest, lemma_tidy_program, tidy, unique_dests};
use crate::simulate::{
    lemma_holds_concat, lemma_holds_index, run_jump_not_taken, run_jump_taken, run_line, run_one,
    sits,
};

verus! {

/// The first four bytes of the call data, as a number. Bytes that are missing count as zeros.
pub open spec fn call_selector(chain: Chain) -> nat {
    be_value(padded(chain.calldata, 0, 4))
}

/// Whether a call names an entry.
pub open spec fn selects(chain: Chain, entry: Entry) -> bool {
    be_value(entry.selector) == call_selector(chain)
}

/// Whether the entry at position `k` is the first one that a call names.
pub open spec fn selects_first(chain: Chain, fns: Seq<Entry>, k: int) -> bool {
    &&& 0 <= k < fns.len()
    &&& selects(chain, fns[k])
    &&& forall|j: int| #![trigger fns[j]] 0 <= j < k ==> !selects(chain, fns[j])
}

/// Whether a call names no entry.
pub open spec fn selects_none(chain: Chain, fns: Seq<Entry>) -> bool {
    forall|j: int| #![trigger fns[j]] 0 <= j < fns.len() ==> !selects(chain, fns[j])
}

/// A call names an entry with a selector of four bytes if its data starts with these bytes.
pub proof fn law_selects(chain: Chain, entry: Entry)
    requires
        entry.selector.len() == 4,
    ensures
        selects(chain, entry) <==> padded(chain.calldata, 0, 4) == entry.selector,
{
    lemma_be_bytes_of_be_value(entry.selector);
    lemma_be_bytes_of_be_value(padded(chain.calldata, 0, 4));
}

/// Whether the bodies of all entries are tidy.
pub open spec fn tidy_bodies(fns: Seq<Entry>) -> bool {
    forall|i: int| #![trigger fns[i]] 0 <= i < fns.len() ==> tidy(fns[i].body)
}

/// The position of the first instruction of the body at position `k`.
pub open spec fn body_place(fns: Seq<Entry>, k: nat) -> nat {
    with_bodies(fns, k).instrs.len() + 2
}

/// The first label of the body at position `k`.
pub open spec fn body_base(fns: Seq<Entry>, k: nat) -> nat {
    with_bodies(fns, k).labels
}

/// The comparison with the selector of each entry.
proof fn lemma_dispatch_code(fns: Seq<Entry>, i: int)
    requires
        0 <= i < fns.len(),
        fns.len() <= u32::MAX,
    ensures
        dispatch_code(fns).len() == 4 * fns.len(),
        dispatch_code(fns).subrange(4 * i, 4 * i + 4) == compare_code(fns[i].selector, i as Label),
    decreases fns.len(),
{
    let init = fns.drop_last();
    let n = fns.len() - 1;
    let last = compare_code(fns.last().selector, n as Label);
    if n > 0 {
        lemma_dispatch_code(init, if i < n {
            i
        } else {
            0
        });
    }
    assert(dispatch_code(fns) == dispatch_code(init) + last);
    if i == n {
        assert(dispatch_code(fns).subrange(4 * i, 4 * i + 4) =~= last);
    } else {
        assert(init[i] == fns[i]);
        assert(dispatch_code(fns).subrange(4 * i, 4 * i + 4) =~= dispatch_code(init).subrange(
            4 * i,
            4 * i + 4,
        ));
    }
}

/// The dispatcher places no label, and its instructions are genuine.
proof fn lemma_dispatch_plain(fns: Seq<Entry>)
    requires
        fns.len() <= u32::MAX,
    ensures
        dispatch_code(fns).len() == 4 * fns.len(),
        forall|i: int|
            #![trigger dispatch_code(fns)[i]]
            0 <= i < dispatch_code(fns).len() ==> dispatch_code(fns)[i] !is JumpDest && genuine(
                dispatch_code(fns)[i],
            ),
    decreases fns.len(),
{
    lemma_opcodes();
    if fns.len() > 0 {
        let init = fns.drop_last();
        lemma_dispatch_plain(init);
        let last = compare_code(fns.last().selector, (fns.len() - 1) as Label);
        let whole = dispatch_code(fns);
        assert(whole == dispatch_code(init) + last);
        assert forall|i: int| #![trigger whole[i]] 0 <= i < whole.len() implies whole[i]
            !is JumpDest && genuine(whole[i]) by {
            if i < dispatch_code(init).len() {
                assert(whole[i] == dispatch_code(init)[i]);
            } else {
                assert(whole[i] == last[i - dispatch_code(init).len()]);
            }
        }
    }
}

/// Whether the only labels of entries that have a place are those of the first `k`.
spec fn placed(p: Program, k: nat, n: nat) -> bool {
    forall|i: int|
        #![trigger p.instrs[i]]
        0 <= i < p.instrs.len() ==> (p.instrs[i] matches Instr::JumpDest(label) ==> label < k
            || label >= n)
}

/// The dispatcher and the first bodies are tidy.
proof fn lemma_with_bodies_tidy(fns: Seq<Entry>, k: nat)
    requires
        tidy_bodies(fns),
        combinable(fns),
        k <= fns.len(),
    ensures
        tidy(with_bodies(fns, k)),
        placed(with_bodies(fns, k), k, fns.len()),
        with_bodies(fns, k).labels == fns.len() + body_labels(fns, k),
    decreases k,
{
    let n = fns.len();
    lemma_opcodes();
    lemma_body_labels_monotone(fns, k, n);
    if k == 0 {
        reveal(unique_dests);
        lemma_dispatch_plain(fns);
        let p = dispatcher(fns);
        let front = prologue_code().len() as int;
        let mid = front + dispatch_code(fns).len();
        assert forall|i: int| #![trigger p.instrs[i]] 0 <= i < p.instrs.len() implies p.instrs[i]
            !is JumpDest && genuine(p.instrs[i]) by {
            if i < front {
                assert(p.instrs[i] == prologue_code()[i]);
            } else if i < mid {
                assert(p.instrs[i] == dispatch_code(fns)[i - front]);
            } else {
                assert(p.instrs[i] == revert_empty_code()[i - mid]);
            }
        }
    } else {
        let j = (k - 1) as nat;
        lemma_with_bodies_tidy(fns, j);
        let before = with_bodies(fns, j);
        let label = j as Label;
        let a = before.with_code(seq![Instr::JumpDest(label)]);
        lemma_tidy_dest(before, label);
        let b = a.with_code(seq![Op::Pop@]);
        lemma_tidy_code(a, seq![Op::Pop@]);
        let start = before.with_code(seq![Instr::JumpDest(label), Op::Pop@]);
        assert(b.instrs =~= start.instrs);
        assert(tidy(fns[k - 1].body));
        lemma_tidy_program(start, fns[k - 1].body);
        let whole = with_bodies(fns, k);
        let moved = relocate_all(fns[k - 1].body.instrs, start.labels);
        assert forall|i: int| #![trigger whole.instrs[i]] 0 <= i < whole.instrs.len() implies (
        whole.instrs[i] matches Instr::JumpDest(l) ==> l < k || l >= n) by {
            if i < before.instrs.len() {
                assert(whole.instrs[i] == before.instrs[i]);
            } else if i < start.instrs.len() {
                assert(whole.instrs[i] == start.instrs[i]);
            } else {
                assert(whole.instrs[i] == moved[i - start.instrs.len()]);
            }
        }
    }
}

/// Code that a program holds is held by the longer program.
proof fn lemma_holds_longer(short: Seq<Instr>, long: Seq<Instr>, at: nat, code: Seq<Instr>)
    requires
        holds(short, at, code),
        short.len() <= long.len(),
        long.take(short.len() as int) == short,
    ensures
        holds(long, at, code),
{
    reveal(holds);
    assert(long.subrange(at as int, (at + code.len()) as int) =~= short.subrange(
        at as int,
        (at + code.len()) as int,
    )) by {
        assert forall|i: int| at <= i < at + code.len() implies long[i] == short[i] by {
            assert(long.take(short.len() as int)[i] == short[i]);
        }
    }
}

/// Further bodies come behind the earlier ones.
proof fn lemma_with_bodies_prefix(fns: Seq<Entry>, k: nat, n: nat)
    requires
        k <= n,
    ensures
        with_bodies(fns, k).instrs.len() <= with_bodies(fns, n).instrs.len(),
        with_bodies(fns, n).instrs.take(with_bodies(fns, k).instrs.len() as int) == with_bodies(
            fns,
            k,
        ).instrs,
    decreases n,
{
    let short = with_bodies(fns, k).instrs;
    let long = with_bodies(fns, n).instrs;
    if k < n {
        let mid = with_bodies(fns, (n - 1) as nat).instrs;
        lemma_with_bodies_prefix(fns, k, (n - 1) as nat);
        assert forall|i: int| 0 <= i < short.len() implies long[i] == short[i] by {
            assert(mid.take(short.len() as int)[i] == short[i]);
        }
    }
    assert(long.take(short.len() as int) =~= short);
}

/// Where things are in the program that answers calls.
proof fn lemma_runtime_places(fns: Seq<Entry>, k: nat)
    requires
        combinable(fns),
        k < fns.len(),
    ensures
        holds(
            runtime(fns).instrs,
            with_bodies(fns, k).instrs.len(),
            seq![Instr::JumpDest(k as Label), Op::Pop@],
        ),
        sits(runtime(fns).instrs, body_place(fns, k), body_base(fns, k), fns[k as int].body),
        holds(runtime(fns).instrs, 4 + 4 * k, compare_code(fns[k as int].selector, k as Label)),
{
    let program = runtime(fns).instrs;
    let before = with_bodies(fns, k);
    let start = seq![Instr::JumpDest(k as Label), Op::Pop@];
    let moved = relocate_all(fns[k as int].body.instrs, before.labels);
    let next = with_bodies(fns, k + 1).instrs;
    reveal(holds);
    assert(next =~= before.instrs + start + moved);
    let n = before.instrs.len();
    assert(next.subrange(n as int, (n + 2) as int) =~= start);
    assert(next.subrange((n + 2) as int, (n + 2 + moved.len()) as int) =~= moved);
    lemma_with_bodies_prefix(fns, k + 1, fns.len());
    lemma_holds_longer(next, program, n, start);
    lemma_holds_longer(next, program, n + 2, moved);
    lemma_dispatch_code(fns, k as int);
    let first = dispatcher(fns).instrs;
    let compare = compare_code(fns[k as int].selector, k as Label);
    assert(first.subrange((4 + 4 * k) as int, (8 + 4 * k) as int) =~= dispatch_code(fns).subrange(
        (4 * k) as int,
        (4 * k + 4) as int,
    ));
    lemma_with_bodies_prefix(fns, 0, fns.len());
    lemma_holds_longer(first, program, 4 + 4 * k, compare);
}

/// The program that answers calls is tidy.
pub proof fn law_runtime_tidy(fns: Seq<Entry>)
    requires
        tidy_bodies(fns),
        combinable(fns),
    ensures
        tidy(runtime(fns)),
{
    lemma_with_bodies_tidy(fns, fns.len());
}

/// The prologue puts the selector of the call on the stack.
proof fn run_prologue(chain: Chain, fns: Seq<Entry>, m: Machine)
    ensures
        reaches(
            chain,
            runtime(fns).instrs,
            running(0, m),
            running(4, m.pushed(call_selector(chain))),
        ),
{
    let program = runtime(fns).instrs;
    let code = prologue_code();
    let first = dispatcher(fns).instrs;
    let call = calldata_word(chain, 0);
    lemma_opcodes();
    lemma_with_bodies_prefix(fns, 0, fns.len());
    assert(holds(first, 0, code)) by {
        reveal(holds);
        assert(first.subrange(0, 4) =~= code);
    }
    lemma_holds_longer(first, program, 0, code);
    lemma_push1(chain, 0x00, m);
    let x1 = m.pushed(0);
    advance(chain, code, 0, m, x1);
    op_calldataload(chain, m, 0);
    let x2 = m.pushed(call);
    advance(chain, code, 1, x1, x2);
    lemma_push1(chain, 0xE0, x2);
    let x3 = x2.pushed(0xE0);
    advance(chain, code, 2, x2, x3);
    op_shr(chain, m, call, 0xE0);
    lemma_selector_of_word(chain);
    let x4 = m.pushed(call_selector(chain));
    advance(chain, code, 3, x3, x4);
    assert(line(chain, code, 4, x4) == Effect::Next(x4));
    run_line(chain, program, 0, code, m, x4);
}

/// The upper four bytes of a word.
proof fn lemma_selector_of_word(chain: Chain)
    ensures
        shifted_right(calldata_word(chain, 0), 0xE0) == call_selector(chain),
{
    let whole = padded(chain.calldata, 0, 32);
    let high = padded(chain.calldata, 0, 4);
    let low = padded(chain.calldata, 4, 28);
    assert(whole =~= high + low);
    lemma_be_value_concat(high, low);
    lemma_be_value_bound(low);
    vstd::arithmetic::power2::lemma_pow2_pos(0xE0);
    assert(pow2(0xE0) == vstd::arithmetic::power::pow(256, 28)) by {
        lemma2_to64();
        vstd::arithmetic::power2::lemma_pow2(8);
        vstd::arithmetic::power2::lemma_pow2(0xE0);
        vstd::arithmetic::power::lemma_pow_multiplies(2, 8, 28);
    }
    let p = pow2(0xE0) as int;
    vstd::arithmetic::div_mod::lemma_fundamental_div_mod_converse(
        be_value(whole) as int,
        p,
        be_value(high) as int,
        be_value(low) as int,
    );
}

/// A comparison that fails goes on to the next one, and one that succeeds enters the body.
proof fn run_compare(chain: Chain, fns: Seq<Entry>, k: nat, m: Machine)
    requires
        tidy_bodies(fns),
        combinable(fns),
        k < fns.len(),
    ensures
        reaches(
            chain,
            runtime(fns).instrs,
            running(4 + 4 * k, m.pushed(call_selector(chain))),
            if selects(chain, fns[k as int]) {
                running(body_place(fns, k), m)
            } else {
                running(8 + 4 * k, m.pushed(call_selector(chain)))
            },
        ),
{
    let program = runtime(fns).instrs;
    let label = k as Label;
    let entry = fns[k as int];
    let want = call_selector(chain);
    let at = 4 + 4 * k;
    let m1 = m.pushed(want);
    let code = seq![Instr::Dup(1), Instr::Push(entry.selector), Op::Eq@];
    let s = running(at, m1);
    lemma_opcodes();
    law_runtime_tidy(fns);
    lemma_runtime_places(fns, k);
    assert(compare_code(entry.selector, label) =~= code + seq![Instr::JumpI(label)]);
    lemma_holds_concat(program, at, code, seq![Instr::JumpI(label)]);
    lemma_holds_index(program, at + 3, seq![Instr::JumpI(label)], 0);
    let value = be_value(entry.selector);
    op_dup1(chain, m, want);
    let x1 = m1.pushed(want);
    advance(chain, code, 0, m1, x1);
    op_push(chain, x1, entry.selector);
    let x2 = x1.pushed(value);
    advance(chain, code, 1, x1, x2);
    op_eq(chain, m1, want, value);
    let x3 = m1.pushed(flag(value == want));
    advance(chain, code, 2, x2, x3);
    assert(line(chain, code, 3, x3) == Effect::Next(x3));
    run_line(chain, program, at, code, m1, x3);
    let t = running(at + 3, x3);
    if selects(chain, entry) {
        let place = with_bodies(fns, k).instrs.len();
        let start = seq![Instr::JumpDest(label), Op::Pop@];
        lemma_holds_index(program, place, start, 0);
        lemma_holds_index(program, place, start, 1);
        run_jump_taken(chain, program, at + 3, label, place, m1, 1);
        lemma_reaches_trans(chain, program, s, t, running(place + 1, m1));
        op_pop(chain, m, want);
        run_one(chain, program, place + 1, Op::Pop@, m1, m);
        lemma_reaches_trans(chain, program, s, running(place + 1, m1), running(place + 2, m));
    } else {
        run_jump_not_taken(chain, program, at + 3, label, m1);
        lemma_reaches_trans(chain, program, s, t, running(at + 4, m1));
    }
}

/// The comparisons before the first one that succeeds.
proof fn run_compares(chain: Chain, fns: Seq<Entry>, k: nat, m: Machine)
    requires
        tidy_bodies(fns),
        combinable(fns),
        k <= fns.len(),
        forall|j: int| #![trigger fns[j]] 0 <= j < k ==> !selects(chain, fns[j]),
    ensures
        reaches(
            chain,
            runtime(fns).instrs,
            running(0, m),
            running(4 + 4 * k, m.pushed(call_selector(chain))),
        ),
    decreases k,
{
    let program = runtime(fns).instrs;
    if k == 0 {
        run_prologue(chain, fns, m);
    } else {
        let j = (k - 1) as nat;
        let m1 = m.pushed(call_selector(chain));
        run_compares(chain, fns, j, m);
        run_compare(chain, fns, j, m);
        assert(!selects(chain, fns[j as int]));
        lemma_reaches_trans(
            chain,
            program,
            running(0, m),
            running(4 + 4 * j, m1),
            running(4 + 4 * k, m1),
        );
    }
}

/// A call enters the body of the first function whose selector it names, with the stack that it
/// started with. The body is in place there, with its labels moved out of the way of all others.
pub proof fn law_dispatch(chain: Chain, fns: Seq<Entry>, k: nat, m: Machine)
    requires
        tidy_bodies(fns),
        combinable(fns),
        selects_first(chain, fns, k as int),
    ensures
        reaches(chain, runtime(fns).instrs, running(0, m), running(body_place(fns, k), m)),
        sits(runtime(fns).instrs, body_place(fns, k), body_base(fns, k), fns[k as int].body),
{
    run_compares(chain, fns, k, m);
    run_compare(chain, fns, k, m);
    lemma_runtime_places(fns, k);
    lemma_reaches_trans(
        chain,
        runtime(fns).instrs,
        running(0, m),
        running(4 + 4 * k, m.pushed(call_selector(chain))),
        running(body_place(fns, k), m),
    );
}

/// A call that names no function reverts without data, and has written nothing.
pub proof fn law_unknown_selector(chain: Chain, fns: Seq<Entry>, m: Machine) -> (t: State)
    requires
        tidy_bodies(fns),
        combinable(fns),
        selects_none(chain, fns),
    ensures
        reaches(chain, runtime(fns).instrs, running(0, m), t),
        t.status == Status::Reverted(Seq::empty()),
        t.machine.storage == m.storage,
        t.machine.logs == m.logs,
{
    let program = runtime(fns).instrs;
    let n = fns.len();
    let m1 = m.pushed(call_selector(chain));
    let first = dispatcher(fns).instrs;
    run_compares(chain, fns, n, m);
    lemma_dispatch_plain(fns);
    lemma_with_bodies_prefix(fns, 0, n);
    let at = 4 + 4 * n;
    assert(holds(first, at, revert_empty_code())) by {
        reveal(holds);
        assert(first.subrange(at as int, (at + 3) as int) =~= revert_empty_code());
    }
    lemma_holds_longer(first, program, at, revert_empty_code());
    law_revert_empty(chain, m1);
    let t = lemma_line(chain, program, at, revert_empty_code(), m1);
    lemma_reaches_trans(chain, program, running(0, m), running(at, m1), t);
    t
}

} // verus!
