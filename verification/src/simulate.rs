//! How machines that run compiled code stand for the meaning of the source, and what pieces of code
//! do in a program.

use vstd::prelude::*;

use crate::assembler::{
    moved_label, operand_valid, operands_valid, relocate_all, Instr, Label, Op, Program,
};
use crate::builder::{push_number, revert_empty_code};
use crate::bytes::{be_bytes, be_value, lemma_be_bytes_len, lemma_be_value_bound};
use crate::code::Fragment;
use crate::effects::{
    advance, holds, jump_free, law_load_stored, law_revert_empty, law_stored_elsewhere, lemma_line,
    lemma_modulus, lemma_one_on_top, lemma_opcodes, lemma_push_number, line, op_jumpdest, op_mstore,
};
use crate::machine::{
    bytes_at, effect, lemma_reaches_step, lemma_reaches_trans, load, modulus, place_of, reaches,
    running, step, stored, Chain, Effect, Machine, Memory, State, Status,
};
use crate::meaning::{words_data, Outcome, Store};
use crate::scheme::{guard_code, stores_code};
use crate::shape::{is_cell, label_free, unique_dests, unlabelled};

verus! {

/// Whether a machine stands for a store: its storage, log and calls are those of the store, and its
/// memory above the scratch space holds the cells.
#[verifier::opaque]
pub open spec fn related(st: Store, m: Machine) -> bool {
    &&& m.storage == st.storage
    &&& m.logs == st.logs
    &&& m.calls == st.calls
    &&& forall|at: nat|
        #![trigger st.cell(at)]
        is_cell(at) ==> load(m.memory, at as int) == st.cell(at)
}

/// Whether all values are words.
pub open spec fn all_values(vs: Seq<nat>) -> bool {
    forall|i: int| #![trigger vs[i]] 0 <= i < vs.len() ==> vs[i] < modulus()
}

/// Whether a state is what an outcome asks for: code that is done is at position `pc`, with its
/// values on top of `stack`.
pub open spec fn delivers(t: State, outcome: Outcome, pc: nat, stack: Seq<nat>) -> bool {
    match outcome {
        Outcome::Next(st) => {
            &&& t == running(pc, t.machine)
            &&& t.machine.stack == stack
            &&& related(st, t.machine)
        },
        Outcome::Value(v, st) => {
            &&& v < modulus()
            &&& t == running(pc, t.machine)
            &&& t.machine.stack == stack.push(v)
            &&& related(st, t.machine)
        },
        Outcome::Values(vs, st) => {
            &&& all_values(vs)
            &&& t == running(pc, t.machine)
            &&& t.machine.stack == stack + vs
            &&& related(st, t.machine)
        },
        Outcome::Returned(data, st) => {
            &&& t.status == Status::Returned(data)
            &&& t.machine.storage == st.storage
            &&& t.machine.logs == st.logs
        },
        Outcome::Reverted => t.status == Status::Reverted(Seq::empty()),
        Outcome::Unfinished => true,
    }
}

/// Whether a program holds the code of another one at position `at`, with its labels moved up by
/// `base`.
pub open spec fn sits(program: Seq<Instr>, at: nat, base: nat, p: Program) -> bool {
    holds(program, at, relocate_all(p.instrs, base))
}

/// Whether a fragment has no faults.
pub open spec fn clean(f: Fragment) -> bool {
    f.errors.len() == 0
}

/// Whether no instruction of a program pushes more than a word.
#[verifier::opaque]
pub open spec fn narrow(program: Seq<Instr>) -> bool {
    forall|i: int|
        0 <= i < program.len() ==> (#[trigger] program[i] matches Instr::Push(bytes)
            ==> bytes.len() <= 32)
}

/// The operands of a program that has a bytecode are narrow.
pub proof fn lemma_operands_narrow(program: Seq<Instr>)
    requires
        operands_valid(program),
    ensures
        narrow(program),
{
    reveal(narrow);
    assert forall|i: int| 0 <= i < program.len() implies (#[trigger] program[i] matches Instr::Push(
        bytes,
    ) ==> bytes.len() <= 32) by {
        assert(operand_valid(program[i]));
    }
}

/// What a narrow program pushes is a word.
pub proof fn lemma_narrow(program: Seq<Instr>, at: nat, bytes: Seq<u8>)
    requires
        narrow(program),
        at < program.len(),
        program[at as int] == Instr::Push(bytes),
    ensures
        be_value(bytes) < modulus(),
{
    reveal(narrow);
    lemma_modulus();
    lemma_be_value_bound(bytes);
    vstd::arithmetic::power::lemma_pow_increases(256, bytes.len(), 32);
}

/// Moving labels twice.
proof fn lemma_relocate_twice(instrs: Seq<Instr>, a: nat, b: nat)
    ensures
        relocate_all(relocate_all(instrs, a), b) == relocate_all(instrs, a + b),
{
    let m = 0x1_0000_0000int;
    assert forall|i: int| 0 <= i < instrs.len() implies #[trigger] relocate_all(
        relocate_all(instrs, a),
        b,
    )[i] == relocate_all(instrs, a + b)[i] by {
        match instrs[i] {
            Instr::Jump(l) => lemma_moved_twice(l, a, b),
            Instr::JumpI(l) => lemma_moved_twice(l, a, b),
            Instr::JumpDest(l) => lemma_moved_twice(l, a, b),
            _ => {},
        }
    }
    assert(relocate_all(relocate_all(instrs, a), b) =~= relocate_all(instrs, a + b));
}

proof fn lemma_moved_twice(l: Label, a: nat, b: nat)
    ensures
        moved_label(moved_label(l, a), b) == moved_label(l, a + b),
{
    let m = 0x1_0000_0000int;
    vstd::arithmetic::div_mod::lemma_add_mod_noop_right(b as int, (l + a) as int, m);
    assert((b + (l + a) % m) % m == (b + (l + a)) % m);
}

/// Code without labels stays as it is.
pub proof fn lemma_relocate_label_free(code: Seq<Instr>, base: nat)
    requires
        label_free(code),
    ensures
        relocate_all(code, base) == code,
{
    assert forall|i: int| 0 <= i < code.len() implies #[trigger] relocate_all(code, base)[i]
        == code[i] by {
        assert(unlabelled(code[i]));
    }
    assert(relocate_all(code, base) =~= code);
}

/// The parts of code that a program holds.
pub proof fn lemma_holds_concat(program: Seq<Instr>, at: nat, a: Seq<Instr>, b: Seq<Instr>)
    requires
        holds(program, at, a + b),
    ensures
        holds(program, at, a),
        holds(program, at + a.len(), b),
{
    reveal(holds);
    let whole = program.subrange(at as int, (at + (a + b).len()) as int);
    assert forall|i: int| 0 <= i < a.len() implies program[at + i] == a[i] by {
        assert(whole[i] == (a + b)[i]);
    }
    assert forall|i: int| 0 <= i < b.len() implies program[at + a.len() + i] == b[i] by {
        assert(whole[a.len() + i] == (a + b)[a.len() + i]);
    }
    assert(program.subrange(at as int, (at + a.len()) as int) =~= a);
    assert(program.subrange((at + a.len()) as int, (at + a.len() + b.len()) as int) =~= b);
}

/// One instruction of code that a program holds.
pub proof fn lemma_holds_index(program: Seq<Instr>, at: nat, code: Seq<Instr>, i: int)
    requires
        holds(program, at, code),
        0 <= i < code.len(),
    ensures
        at + i < program.len(),
        program[at + i] == code[i],
{
    reveal(holds);
    assert(program.subrange(at as int, (at + code.len()) as int)[i] == program[at + i]);
}

/// A program and the code that follows it.
pub proof fn lemma_sits_code(
    program: Seq<Instr>,
    at: nat,
    base: nat,
    p: Program,
    code: Seq<Instr>,
)
    requires
        sits(program, at, base, p.with_code(code)),
    ensures
        sits(program, at, base, p),
        holds(program, at + p.instrs.len(), relocate_all(code, base)),
        label_free(code) ==> holds(program, at + p.instrs.len(), code),
        p.with_code(code).instrs.len() == p.instrs.len() + code.len(),
{
    assert(relocate_all(p.instrs + code, base) =~= relocate_all(p.instrs, base) + relocate_all(
        code,
        base,
    ));
    lemma_holds_concat(program, at, relocate_all(p.instrs, base), relocate_all(code, base));
    if label_free(code) {
        lemma_relocate_label_free(code, base);
    }
}

/// A fragment without faults and the fragment that follows it.
pub proof fn lemma_sits_followed(program: Seq<Instr>, at: nat, base: nat, f: Fragment, g: Fragment)
    requires
        sits(program, at, base, f.followed_by(g).program),
        clean(f.followed_by(g)),
    ensures
        clean(f),
        clean(g),
        sits(program, at, base, f.program),
        sits(program, at + f.program.instrs.len(), base + f.program.labels, g.program),
        f.followed_by(g).program.instrs.len() == f.program.instrs.len() + g.program.instrs.len(),
        f.followed_by(g).program.labels == f.program.labels + g.program.labels,
{
    let moved = relocate_all(g.program.instrs, f.program.labels);
    assert(relocate_all(f.program.instrs + moved, base) =~= relocate_all(f.program.instrs, base)
        + relocate_all(moved, base));
    lemma_relocate_twice(g.program.instrs, f.program.labels, base);
    lemma_holds_concat(
        program,
        at,
        relocate_all(f.program.instrs, base),
        relocate_all(moved, base),
    );
}

/// The place of a label that is placed once.
pub proof fn lemma_place(program: Seq<Instr>, j: int, label: Label)
    requires
        unique_dests(program),
        0 <= j < program.len(),
        program[j] == Instr::JumpDest(label),
    ensures
        place_of(program, label) == Some(j as nat),
    decreases program.len(),
{
    reveal(unique_dests);
    let init = program.drop_last();
    if j == program.len() - 1 {
    } else {
        assert(init[j] == program[j]);
        assert(program[program.len() - 1] != Instr::JumpDest(label));
        assert forall|a: int, b: int|
            #![trigger init[a], init[b]]
            0 <= a < b < init.len() && init[a] is JumpDest implies init[a] != init[b] by {
            assert(init[a] == program[a] && init[b] == program[b]);
        }
        lemma_place(init, j, label);
    }
}

/// A jump.
pub proof fn run_jump(
    chain: Chain,
    program: Seq<Instr>,
    at: nat,
    label: Label,
    j: nat,
    m: Machine,
)
    requires
        unique_dests(program),
        at < program.len(),
        program[at as int] == Instr::Jump(label),
        j < program.len(),
        program[j as int] == Instr::JumpDest(label),
    ensures
        reaches(chain, program, running(at, m), running(j + 1, m)),
{
    lemma_place(program, j as int, label);
    lemma_reaches_step(chain, program, running(at, m));
    op_jumpdest(chain, m, label);
    lemma_reaches_step(chain, program, running(j, m));
    lemma_reaches_trans(chain, program, running(at, m), running(j, m), running(j + 1, m));
}

/// A conditional jump that is taken.
pub proof fn run_jump_taken(
    chain: Chain,
    program: Seq<Instr>,
    at: nat,
    label: Label,
    j: nat,
    m: Machine,
    v: nat,
)
    requires
        unique_dests(program),
        at < program.len(),
        program[at as int] == Instr::JumpI(label),
        j < program.len(),
        program[j as int] == Instr::JumpDest(label),
        v != 0,
    ensures
        reaches(chain, program, running(at, m.pushed(v)), running(j + 1, m)),
{
    lemma_one_on_top(m, v);
    lemma_place(program, j as int, label);
    let s = running(at, m.pushed(v));
    lemma_reaches_step(chain, program, s);
    op_jumpdest(chain, m, label);
    lemma_reaches_step(chain, program, running(j, m));
    lemma_reaches_trans(chain, program, s, running(j, m), running(j + 1, m));
}

/// A conditional jump that is not taken.
pub proof fn run_jump_not_taken(
    chain: Chain,
    program: Seq<Instr>,
    at: nat,
    label: Label,
    m: Machine,
)
    requires
        at < program.len(),
        program[at as int] == Instr::JumpI(label),
    ensures
        reaches(chain, program, running(at, m.pushed(0)), running(at + 1, m)),
{
    lemma_one_on_top(m, 0);
    lemma_reaches_step(chain, program, running(at, m.pushed(0)));
}

/// The place of a label is passed.
pub proof fn run_dest(chain: Chain, program: Seq<Instr>, at: nat, label: Label, m: Machine)
    requires
        at < program.len(),
        program[at as int] == Instr::JumpDest(label),
    ensures
        reaches(chain, program, running(at, m), running(at + 1, m)),
{
    op_jumpdest(chain, m, label);
    lemma_reaches_step(chain, program, running(at, m));
}

/// Code without jumps that is run to its end.
pub proof fn run_line(
    chain: Chain,
    program: Seq<Instr>,
    at: nat,
    code: Seq<Instr>,
    m: Machine,
    next: Machine,
)
    requires
        holds(program, at, code),
        jump_free(code),
        line(chain, code, 0, m) == Effect::Next(next),
    ensures
        reaches(chain, program, running(at, m), running(at + code.len(), next)),
{
    let t = lemma_line(chain, program, at, code, m);
}

/// A single instruction that is no jump.
pub proof fn run_one(
    chain: Chain,
    program: Seq<Instr>,
    at: nat,
    instr: Instr,
    m: Machine,
    next: Machine,
)
    requires
        at < program.len(),
        program[at as int] == instr,
        instr !is Jump,
        instr !is JumpI,
        effect(chain, instr, m) == Effect::Next(next),
    ensures
        reaches(chain, program, running(at, m), running(at + 1, next)),
{
    lemma_reaches_step(chain, program, running(at, m));
}

/// The guard goes on if the value on the stack is not zero, and reverts otherwise.
pub proof fn run_guard(
    chain: Chain,
    program: Seq<Instr>,
    at: nat,
    base: nat,
    m: Machine,
    v: nat,
) -> (t: State)
    requires
        unique_dests(program),
        sits(program, at, base, guard_code().program),
    ensures
        reaches(chain, program, running(at, m.pushed(v)), t),
        v != 0 ==> t == running(at + 5, m),
        v == 0 ==> t.status == Status::Reverted(Seq::empty()) && t.machine == m,
{
    let code = relocate_all(guard_code().program.instrs, base);
    let label = moved_label(0, base);
    lemma_opcodes();
    assert(guard_code().program.instrs =~= seq![Instr::JumpI(0)] + revert_empty_code() + seq![
        Instr::JumpDest(0),
    ]);
    lemma_holds_index(program, at, code, 0);
    lemma_holds_index(program, at, code, 4);
    let s = running(at, m.pushed(v));
    if v != 0 {
        run_jump_taken(chain, program, at, label, at + 4, m, v);
        running(at + 5, m)
    } else {
        run_jump_not_taken(chain, program, at, label, m);
        assert(code =~= seq![Instr::JumpI(label)] + (revert_empty_code() + seq![
            Instr::JumpDest(label),
        ]));
        lemma_holds_concat(
            program,
            at,
            seq![Instr::JumpI(label)],
            revert_empty_code() + seq![Instr::JumpDest(label)],
        );
        lemma_holds_concat(
            program,
            at + 1,
            revert_empty_code(),
            seq![Instr::JumpDest(label)],
        );
        law_revert_empty(chain, m);
        let t = lemma_line(chain, program, at + 1, revert_empty_code(), m);
        lemma_reaches_trans(chain, program, s, running(at + 1, m), t);
        t
    }
}

/// What a store and a machine that stands for it have in common.
pub proof fn lemma_related_parts(st: Store, m: Machine)
    requires
        related(st, m),
    ensures
        m.storage == st.storage,
        m.logs == st.logs,
        m.calls == st.calls,
{
    reveal(related);
}

/// A cell is where memory has it.
pub proof fn lemma_related_load(st: Store, m: Machine, at: nat)
    requires
        related(st, m),
        is_cell(at),
    ensures
        load(m.memory, at as int) == st.cell(at),
{
    reveal(related);
}

/// A machine whose memory has the cells stands for the store.
pub proof fn lemma_related_intro(st: Store, m: Machine)
    requires
        m.storage == st.storage,
        m.logs == st.logs,
        m.calls == st.calls,
        forall|at: nat|
            #![trigger st.cell(at)]
            is_cell(at) ==> load(m.memory, at as int) == st.cell(at),
    ensures
        related(st, m),
{
    reveal(related);
}

/// A cell that is written.
pub proof fn lemma_related_cell(st: Store, m: Machine, at: nat, value: nat)
    requires
        related(st, m),
        is_cell(at),
        value < modulus(),
    ensures
        related(st.with_cell(at, value), m.with_memory(stored(m.memory, at as int, value))),
{
    reveal(related);
    let after = st.with_cell(at, value);
    let memory = stored(m.memory, at as int, value);
    assert forall|other: nat| #![trigger after.cell(other)] is_cell(other) implies load(
        memory,
        other as int,
    ) == after.cell(other) by {
        if other == at {
            law_load_stored(m.memory, at as int, value);
        } else {
            law_stored_elsewhere(m.memory, at as int, value, other as int, 32);
            assert(after.cell(other) == st.cell(other));
        }
    }
}

/// Scratch space that is written.
pub proof fn lemma_related_scratch(st: Store, m: Machine, at: int, value: nat)
    requires
        related(st, m),
        at + 32 <= 0x80,
    ensures
        related(st, m.with_memory(stored(m.memory, at, value))),
{
    reveal(related);
    let memory = stored(m.memory, at, value);
    assert forall|other: nat| #![trigger st.cell(other)] is_cell(other) implies load(
        memory,
        other as int,
    ) == st.cell(other) by {
        law_stored_elsewhere(m.memory, at, value, other as int, 32);
    }
}

/// A stack of another height stands for the same store.
pub proof fn lemma_related_stack(st: Store, m: Machine, other: Machine)
    requires
        related(st, m),
        other.memory == m.memory,
        other.storage == m.storage,
        other.logs == m.logs,
        other.calls == m.calls,
    ensures
        related(st, other),
{
    reveal(related);
}

/// A slot that is written.
pub proof fn lemma_related_slot(st: Store, m: Machine, slot: nat, value: nat)
    requires
        related(st, m),
    ensures
        related(st.with_slot(slot, value), m.with_storage(m.storage.insert(slot, value))),
{
    reveal(related);
    let after = st.with_slot(slot, value);
    assert forall|other: nat| #![trigger after.cell(other)] is_cell(other) implies load(
        m.memory,
        other as int,
    ) == after.cell(other) by {
        assert(after.cell(other) == st.cell(other));
    }
}

/// A machine with other elements on its stack.
pub open spec fn with_stack(m: Machine, stack: Seq<nat>) -> Machine {
    Machine { stack, memory: m.memory, storage: m.storage, logs: m.logs, calls: m.calls }
}

/// The effect of code that follows other code.
pub proof fn lemma_line_concat(chain: Chain, a: Seq<Instr>, b: Seq<Instr>, i: int, m: Machine)
    requires
        0 <= i <= a.len(),
    ensures
        line(chain, a + b, i, m) == match line(chain, a, i, m) {
            Effect::Next(next) => line(chain, b, 0, next),
            Effect::Halt(status, last) => Effect::Halt(status, last),
        },
    decreases a.len() - i,
{
    if i == a.len() {
        lemma_line_shift(chain, a, b, 0, m);
    } else {
        assert((a + b)[i] == a[i]);
        match effect(chain, a[i], m) {
            Effect::Next(next) => lemma_line_concat(chain, a, b, i + 1, next),
            Effect::Halt(status, last) => {},
        }
    }
}

proof fn lemma_line_shift(chain: Chain, a: Seq<Instr>, b: Seq<Instr>, i: int, m: Machine)
    requires
        0 <= i <= b.len(),
    ensures
        line(chain, a + b, a.len() + i, m) == line(chain, b, i, m),
    decreases b.len() - i,
{
    if i < b.len() {
        assert((a + b)[a.len() + i] == b[i]);
        match effect(chain, b[i], m) {
            Effect::Next(next) => lemma_line_shift(chain, a, b, i + 1, next),
            Effect::Halt(status, last) => {},
        }
    }
}

/// The memory after words were stored from offset `at` on.
pub open spec fn words_stored(memory: Memory, at: int, words: Seq<nat>) -> Memory
    decreases words.len(),
{
    if words.len() == 0 {
        memory
    } else {
        words_stored(
            stored(memory, at + 32 * (words.len() - 1), words.last()),
            at,
            words.drop_last(),
        )
    }
}

/// Stores leave alone what lies before and behind them.
pub proof fn lemma_words_stored_elsewhere(memory: Memory, at: int, words: Seq<nat>, other: int)
    requires
        other + 32 <= at || other >= at + 32 * words.len(),
    ensures
        bytes_at(words_stored(memory, at, words), other, 32) == bytes_at(memory, other, 32),
        load(words_stored(memory, at, words), other) == load(memory, other),
    decreases words.len(),
{
    if words.len() > 0 {
        let place = at + 32 * (words.len() - 1);
        let first = stored(memory, place, words.last());
        law_stored_elsewhere(memory, place, words.last(), other, 32);
        lemma_words_stored_elsewhere(first, at, words.drop_last(), other);
    }
}

/// What words that were stored look like in memory.
pub proof fn lemma_words_stored(memory: Memory, at: int, words: Seq<nat>)
    requires
        all_values(words),
    ensures
        bytes_at(words_stored(memory, at, words), at, 32 * words.len()) == words_data(words),
        words_data(words).len() == 32 * words.len(),
    decreases words.len(),
{
    if words.len() == 0 {
        assert(bytes_at(memory, at, 0) =~= Seq::empty());
    } else {
        let k = (words.len() - 1) as nat;
        let init = words.drop_last();
        let v = words.last();
        let place = at + 32 * k;
        assert(v == words[k as int]);
        let first = stored(memory, place, v);
        assert(all_values(init)) by {
            assert forall|i: int| #![trigger init[i]] 0 <= i < init.len() implies init[i]
                < modulus() by {
                assert(init[i] == words[i]);
            }
        }
        lemma_words_stored(first, at, init);
        law_load_stored(memory, place, v);
        lemma_words_stored_elsewhere(first, at, init, place);
        lemma_be_bytes_len(v, 32);
        let last = words_stored(memory, at, words);
        let all = bytes_at(last, at, 32 * words.len());
        assert forall|i: int| 0 <= i < 32 * words.len() implies #[trigger] all[i] == words_data(
            words,
        )[i] by {
            if i < 32 * k {
                assert(bytes_at(last, at, 32 * k)[i] == words_data(init)[i]);
            } else {
                assert(bytes_at(last, place, 32)[i - 32 * k] == be_bytes(v, 32)[i - 32 * k]);
            }
        }
        assert(all =~= words_data(words));
    }
}

/// A word that was stored.
pub proof fn lemma_word_stored(memory: Memory, at: int, words: Seq<nat>, j: int)
    requires
        all_values(words),
        0 <= j < words.len(),
    ensures
        load(words_stored(memory, at, words), at + 32 * j) == words[j],
    decreases words.len(),
{
    let k = words.len() - 1;
    let init = words.drop_last();
    let first = stored(memory, at + 32 * k, words.last());
    assert(words.last() == words[k]);
    if j == k {
        law_load_stored(memory, at + 32 * k, words.last());
        lemma_words_stored_elsewhere(first, at, init, at + 32 * k);
    } else {
        assert forall|i: int| #![trigger init[i]] 0 <= i < init.len() implies init[i]
            < modulus() by {
            assert(init[i] == words[i]);
        }
        lemma_word_stored(first, at, init, j);
        assert(init[j] == words[j]);
    }
}

/// The stores take the words from the stack.
pub proof fn lemma_stores(chain: Chain, m: Machine, at: nat, words: Seq<nat>)
    ensures
        line(chain, stores_code(at, words.len()), 0, with_stack(m, m.stack + words))
            == Effect::Next(m.with_memory(words_stored(m.memory, at as int, words))),
        jump_free(stores_code(at, words.len())),
    decreases words.len(),
{
    let k = words.len();
    if k == 0 {
        assert(m.stack + words =~= m.stack);
    } else {
        let init = words.drop_last();
        let v = words.last();
        let offset = (at + 32 * (k - 1)) as nat;
        let step = seq![push_number(offset), Op::MStore@];
        let rest = stores_code(at, (k - 1) as nat);
        let code = stores_code(at, k);
        let full = with_stack(m, m.stack + words);
        let short = with_stack(m, m.stack + init);
        lemma_opcodes();
        assert(short.pushed(v).stack =~= full.stack);
        lemma_push_number(chain, offset, full);
        advance(chain, step, 0, full, full.pushed(offset));
        op_mstore(chain, short, v, offset);
        let after = short.with_memory(stored(m.memory, offset as int, v));
        advance(chain, step, 1, full.pushed(offset), after);
        assert(line(chain, step, 2, after) == Effect::Next(after));
        lemma_line_concat(chain, step, rest, 0, full);
        let lower = m.with_memory(stored(m.memory, offset as int, v));
        lemma_stores(chain, lower, at, init);
        assert(with_stack(lower, lower.stack + init) == after);
        assert forall|i: int| #![trigger code[i]] 0 <= i < code.len() implies code[i] !is Jump
            && code[i] !is JumpI by {
            if i >= 2 {
                assert(code[i] == rest[i - 2]);
            }
        }
    }
}

} // verus!
