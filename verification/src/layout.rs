//! Laws of assembly: where the instructions of a program lie in its bytecode, where its jumps
//! land, and that the bytecode runs as the instructions do.

use vstd::prelude::*;

use crate::assembler::{
    assembled, code_len, encodable, encode, encode_all, jump_bytes, label_table,
    lemma_code_len_take, lemma_encode_all_len, lemma_encode_len, operand_valid, operands_valid,
    simple_opcode, target, width, Instr, Label, Op,
};
use crate::bytes::be_value;
use crate::machine::{
    code_reaches, effect, lemma_code_reaches_step, lemma_code_reaches_trans, on_boundary,
    opcode_len, padded, place_of, reaches, run, run_code, running, step, step_code, valid_dest,
    Chain, State,
};

verus! {

/// The address of the instruction at position `i`.
pub open spec fn address(instrs: Seq<Instr>, i: int) -> nat {
    code_len(instrs.take(i))
}

/// Whether a byte is an opcode of its own: no push, no jump, no `DUP`, `SWAP` or `LOG`.
pub open spec fn plain_byte(b: u8) -> bool {
    b != 0x56 && b != 0x57 && b != 0x5b && !(0x5f <= b <= 0xa4)
}

/// Whether an instruction without operands is one.
pub open spec fn genuine(instr: Instr) -> bool {
    instr matches Instr::Simple(b) ==> plain_byte(b)
}

/// Whether all instructions are genuine.
pub open spec fn all_genuine(instrs: Seq<Instr>) -> bool {
    forall|i: int| #![trigger instrs[i]] 0 <= i < instrs.len() ==> genuine(instrs[i])
}

/// Whether code starts with the bytecode of a program.
pub open spec fn starts_with(code: Seq<u8>, instrs: Seq<Instr>) -> bool {
    code.len() >= code_len(instrs) && code.take(code_len(instrs) as int) == assembled(instrs)
}

/// Every instruction of the assembler is genuine.
pub proof fn law_ops_are_genuine(op: Op)
    ensures
        genuine(op@),
{
    reveal(simple_opcode);
}

/// The bytes of a concatenation.
pub proof fn lemma_encode_all_concat(a: Seq<Instr>, b: Seq<Instr>, table: Map<Label, u32>)
    ensures
        encode_all(a + b, table) == encode_all(a, table) + encode_all(b, table),
    decreases b.len(),
{
    if b.len() == 0 {
        assert(a + b =~= a);
        assert(encode_all(a, table) + encode_all(b, table) =~= encode_all(a, table));
    } else {
        assert((a + b).drop_last() =~= a + b.drop_last());
        lemma_encode_all_concat(a, b.drop_last(), table);
        assert(encode_all(a + b, table) =~= encode_all(a, table) + encode_all(b, table));
    }
}

/// The address of the next instruction.
pub proof fn lemma_next_address(instrs: Seq<Instr>, i: int)
    requires
        0 <= i < instrs.len(),
    ensures
        address(instrs, i + 1) == address(instrs, i) + width(instrs[i]),
        address(instrs, i + 1) <= code_len(instrs),
{
    assert(instrs.take(i + 1).drop_last() =~= instrs.take(i));
    lemma_code_len_take(instrs, i + 1);
}

/// Every instruction lies at its address: the bytes there are those of the instruction, with the
/// final places of the labels.
pub proof fn law_instruction_bytes(instrs: Seq<Instr>, i: int)
    requires
        0 <= i < instrs.len(),
    ensures
        address(instrs, i) + width(instrs[i]) <= assembled(instrs).len(),
        assembled(instrs).subrange(
            address(instrs, i) as int,
            (address(instrs, i) + width(instrs[i])) as int,
        ) == encode(instrs[i], label_table(instrs)),
{
    let table = label_table(instrs);
    let before = instrs.take(i);
    let rest = instrs.skip(i + 1);
    lemma_next_address(instrs, i);
    lemma_encode_all_len(instrs, table);
    lemma_encode_all_len(before, table);
    lemma_encode_len(instrs[i], table);
    assert(instrs =~= instrs.take(i + 1) + rest);
    lemma_encode_all_concat(instrs.take(i + 1), rest, table);
    assert(instrs.take(i + 1).drop_last() =~= before);
    let head = encode_all(before, table);
    let own = encode(instrs[i], table);
    assert(assembled(instrs) =~= head + own + encode_all(rest, table));
    assert(assembled(instrs).subrange(head.len() as int, (head.len() + own.len()) as int) =~= own);
}

/// The assembler puts a label where its last `JUMPDEST` is: its place in the table is the address
/// of that instruction, and a label without a `JUMPDEST` has no place.
pub proof fn law_label_place(instrs: Seq<Instr>, label: Label)
    requires
        code_len(instrs) <= u32::MAX,
    ensures
        match place_of(instrs, label) {
            Some(i) => {
                &&& i < instrs.len()
                &&& instrs[i as int] == Instr::JumpDest(label)
                &&& label_table(instrs).dom().contains(label)
                &&& label_table(instrs)[label] == address(instrs, i as int)
            },
            None => !label_table(instrs).dom().contains(label),
        },
    decreases instrs.len(),
{
    if instrs.len() > 0 {
        let init = instrs.drop_last();
        law_label_place(init, label);
        assert(instrs.take(instrs.len() - 1) =~= init);
        if let Some(i) = place_of(init, label) {
            assert(init.take(i as int) =~= instrs.take(i as int));
        }
    }
}

/// The bytes of code at the address of an instruction.
proof fn lemma_code_bytes(code: Seq<u8>, instrs: Seq<Instr>, i: int, j: int)
    requires
        starts_with(code, instrs),
        0 <= i < instrs.len(),
        0 <= j < width(instrs[i]),
    ensures
        address(instrs, i) + j < code.len(),
        code[address(instrs, i) + j] == encode(instrs[i], label_table(instrs))[j],
{
    law_instruction_bytes(instrs, i);
    lemma_encode_all_len(instrs, label_table(instrs));
    let a = address(instrs, i) as int;
    let w = width(instrs[i]) as int;
    let whole = assembled(instrs);
    assert(whole.subrange(a, a + w)[j] == whole[a + j]);
    assert(code.take(code_len(instrs) as int)[a + j] == code[a + j]);
}

/// The opcode after one on a boundary is on a boundary.
proof fn lemma_boundary_next(code: Seq<u8>, from: nat, pc: nat)
    requires
        on_boundary(code, from, pc),
        pc + opcode_len(code[pc as int]) < code.len(),
    ensures
        on_boundary(code, from, pc + opcode_len(code[pc as int])),
    decreases pc - from,
{
    let next = pc + opcode_len(code[pc as int]);
    if from == pc {
        assert(on_boundary(code, next, next));
    } else {
        let mid = from + opcode_len(code[from as int]);
        lemma_boundary_next(code, mid, pc);
    }
}

/// Every instruction starts on a boundary: none lies in the operand of a push.
pub proof fn law_instruction_boundary(code: Seq<u8>, instrs: Seq<Instr>, i: int)
    requires
        operands_valid(instrs),
        all_genuine(instrs),
        starts_with(code, instrs),
        0 <= i < instrs.len(),
    ensures
        on_boundary(code, 0, address(instrs, i)),
    decreases i,
{
    let table = label_table(instrs);
    lemma_code_bytes(code, instrs, i, 0);
    if i == 0 {
        assert(instrs.take(0).len() == 0);
    } else {
        let k = i - 1;
        law_instruction_boundary(code, instrs, k);
        lemma_next_address(instrs, k);
        lemma_code_bytes(code, instrs, k, 0);
        let a = address(instrs, k);
        assert(operand_valid(instrs[k]));
        assert(genuine(instrs[k]));
        match instrs[k] {
            Instr::Jump(label) => {
                lemma_code_bytes(code, instrs, k, 3);
                assert(jump_bytes(target(table, label), 0x56)[3] == 0x56u8);
                lemma_boundary_next(code, 0, a);
                lemma_boundary_next(code, 0, a + 3);
            },
            Instr::JumpI(label) => {
                lemma_code_bytes(code, instrs, k, 3);
                assert(jump_bytes(target(table, label), 0x57)[3] == 0x57u8);
                lemma_boundary_next(code, 0, a);
                lemma_boundary_next(code, 0, a + 3);
            },
            Instr::Push(bytes) => {
                lemma_boundary_next(code, 0, a);
            },
            _ => {
                lemma_boundary_next(code, 0, a);
            },
        }
    }
}

/// Jumps are safe: the place of a label can be jumped into. The byte there is a `JUMPDEST`, and it
/// is an opcode, not part of the operand of a push.
pub proof fn law_label_is_valid_dest(code: Seq<u8>, instrs: Seq<Instr>, label: Label)
    requires
        encodable(instrs),
        all_genuine(instrs),
        starts_with(code, instrs),
        place_of(instrs, label) is Some,
    ensures
        valid_dest(code, label_table(instrs)[label] as nat),
{
    law_label_place(instrs, label);
    let i = place_of(instrs, label)->Some_0 as int;
    law_instruction_boundary(code, instrs, i);
    lemma_code_bytes(code, instrs, i, 0);
}

/// The state of bytecode that stands for a state of its program.
pub open spec fn in_code(instrs: Seq<Instr>, s: State) -> State {
    State { pc: address(instrs, s.pc as int), machine: s.machine, status: s.status }
}

/// The value of two bytes.
proof fn lemma_two_bytes(hi: u8, lo: u8)
    ensures
        be_value(seq![hi, lo]) == hi * 256 + lo,
{
    let s = seq![hi, lo];
    assert(s.drop_last() =~= seq![hi]);
    assert(seq![hi].drop_last() =~= Seq::<u8>::empty());
    reveal_with_fuel(be_value, 3);
}

/// `PUSH2` with the place of a label.
proof fn lemma_push_target(chain: Chain, code: Seq<u8>, instrs: Seq<Instr>, s: State, label: Label)
    requires
        encodable(instrs),
        starts_with(code, instrs),
        s.status is Running,
        s.pc < instrs.len(),
        instrs[s.pc as int] == Instr::Jump(label) || instrs[s.pc as int] == Instr::JumpI(label),
        place_of(instrs, label) is Some,
    ensures
        step_code(chain, code, in_code(instrs, s)) == running(
            address(instrs, s.pc as int) + 3,
            s.machine.pushed(label_table(instrs)[label] as nat),
        ),
{
    let i = s.pc as int;
    let a = address(instrs, i) as int;
    let table = label_table(instrs);
    let pc = target(table, label);
    law_label_place(instrs, label);
    lemma_next_address(instrs, i);
    let place = place_of(instrs, label)->Some_0 as int;
    lemma_code_len_take(instrs, place);
    assert(pc <= 0xFFFF);
    lemma_code_bytes(code, instrs, i, 0);
    lemma_code_bytes(code, instrs, i, 1);
    lemma_code_bytes(code, instrs, i, 2);
    let hi = (pc / 0x100) as u8;
    let lo = (pc % 0x100) as u8;
    assert(padded(code, a + 1, 2) =~= seq![hi, lo]);
    lemma_two_bytes(hi, lo);
    assert(be_value(padded(code, (in_code(instrs, s).pc + 1) as int, 2)) == pc);
}

/// The bytes of a jump do what the jump does.
proof fn lemma_jump_in_code(chain: Chain, code: Seq<u8>, instrs: Seq<Instr>, s: State, label: Label)
    requires
        encodable(instrs),
        all_genuine(instrs),
        starts_with(code, instrs),
        s.status is Running,
        s.pc < instrs.len(),
        instrs[s.pc as int] == Instr::Jump(label),
        place_of(instrs, label) is Some,
    ensures
        code_reaches(chain, code, in_code(instrs, s), in_code(instrs, step(chain, instrs, s))),
{
    let i = s.pc as int;
    let t = in_code(instrs, s);
    lemma_next_address(instrs, i);
    lemma_code_bytes(code, instrs, i, 3);
    assert(jump_bytes(target(label_table(instrs), label), 0x56)[3] == 0x56u8);
    lemma_push_target(chain, code, instrs, s, label);
    law_label_place(instrs, label);
    law_label_is_valid_dest(code, instrs, label);
    lemma_code_reaches_step(chain, code, t);
    let u = step_code(chain, code, t);
    lemma_code_reaches_step(chain, code, u);
    assert(u.machine.dropped(1).stack =~= s.machine.stack);
    lemma_code_reaches_trans(chain, code, t, u, step_code(chain, code, u));
}

/// The bytes of a conditional jump that is taken do what the jump does.
proof fn lemma_taken_in_code(
    chain: Chain,
    code: Seq<u8>,
    instrs: Seq<Instr>,
    s: State,
    label: Label,
)
    requires
        encodable(instrs),
        all_genuine(instrs),
        starts_with(code, instrs),
        s.status is Running,
        s.pc < instrs.len(),
        instrs[s.pc as int] == Instr::JumpI(label),
        s.machine.stack.len() >= 1,
        s.machine.top(0) != 0,
        place_of(instrs, label) is Some,
    ensures
        code_reaches(chain, code, in_code(instrs, s), in_code(instrs, step(chain, instrs, s))),
{
    let i = s.pc as int;
    let t = in_code(instrs, s);
    lemma_next_address(instrs, i);
    lemma_code_bytes(code, instrs, i, 3);
    assert(jump_bytes(target(label_table(instrs), label), 0x57)[3] == 0x57u8);
    lemma_push_target(chain, code, instrs, s, label);
    law_label_place(instrs, label);
    law_label_is_valid_dest(code, instrs, label);
    lemma_code_reaches_step(chain, code, t);
    let u = step_code(chain, code, t);
    lemma_code_reaches_step(chain, code, u);
    assert(u.machine.dropped(2).stack =~= s.machine.dropped(1).stack);
    lemma_code_reaches_trans(chain, code, t, u, step_code(chain, code, u));
}

/// The bytes of a conditional jump that is not taken do what the jump does.
proof fn lemma_not_taken_in_code(
    chain: Chain,
    code: Seq<u8>,
    instrs: Seq<Instr>,
    s: State,
    label: Label,
)
    requires
        starts_with(code, instrs),
        s.status is Running,
        s.pc < instrs.len(),
        instrs[s.pc as int] == Instr::JumpI(label),
        s.machine.stack.len() >= 1,
        s.machine.top(0) == 0,
    ensures
        code_reaches(chain, code, in_code(instrs, s), in_code(instrs, step(chain, instrs, s))),
{
    let i = s.pc as int;
    let t = in_code(instrs, s);
    lemma_next_address(instrs, i);
    lemma_code_bytes(code, instrs, i, 0);
    lemma_code_bytes(code, instrs, i, 3);
    assert(jump_bytes(target(label_table(instrs), label), 0x57)[3] == 0x57u8);
    lemma_code_reaches_step(chain, code, t);
    let u = step_code(chain, code, t);
    assert(u.machine.top(1) == s.machine.top(0));
    lemma_code_reaches_step(chain, code, u);
    assert(u.machine.dropped(2).stack =~= s.machine.dropped(1).stack);
    lemma_code_reaches_trans(chain, code, t, u, step_code(chain, code, u));
}

/// The bytes of a push do what the push does.
proof fn lemma_push_in_code(
    chain: Chain,
    code: Seq<u8>,
    instrs: Seq<Instr>,
    s: State,
    bytes: Seq<u8>,
)
    requires
        starts_with(code, instrs),
        s.status is Running,
        s.pc < instrs.len(),
        instrs[s.pc as int] == Instr::Push(bytes),
        bytes.len() <= 32,
    ensures
        code_reaches(chain, code, in_code(instrs, s), in_code(instrs, step(chain, instrs, s))),
{
    let i = s.pc as int;
    let a = address(instrs, i);
    reveal(effect);
    lemma_next_address(instrs, i);
    lemma_code_bytes(code, instrs, i, 0);
    assert forall|j: int| 0 <= j < bytes.len() implies #[trigger] padded(
        code,
        (a + 1) as int,
        bytes.len(),
    )[j] == bytes[j] by {
        lemma_code_bytes(code, instrs, i, j + 1);
        assert((seq![(0x5F + bytes.len()) as u8] + bytes)[j + 1] == bytes[j]);
    }
    assert(padded(code, (a + 1) as int, bytes.len()) =~= bytes);
    lemma_code_reaches_step(chain, code, in_code(instrs, s));
}

/// The byte of an instruction of one byte does what the instruction does.
proof fn lemma_byte_in_code(chain: Chain, code: Seq<u8>, instrs: Seq<Instr>, s: State)
    requires
        starts_with(code, instrs),
        s.status is Running,
        s.pc < instrs.len(),
        instrs[s.pc as int] !is Jump,
        instrs[s.pc as int] !is JumpI,
        instrs[s.pc as int] !is Push,
        operand_valid(instrs[s.pc as int]),
        genuine(instrs[s.pc as int]),
    ensures
        code_reaches(chain, code, in_code(instrs, s), in_code(instrs, step(chain, instrs, s))),
{
    let i = s.pc as int;
    reveal(effect);
    lemma_next_address(instrs, i);
    lemma_code_bytes(code, instrs, i, 0);
    lemma_code_reaches_step(chain, code, in_code(instrs, s));
}

/// The bytecode of a program runs as the program does: what an instruction does, its bytes do.
pub proof fn lemma_step_in_code(chain: Chain, code: Seq<u8>, instrs: Seq<Instr>, s: State)
    requires
        encodable(instrs),
        all_genuine(instrs),
        starts_with(code, instrs),
        s.status is Running,
        s.pc < instrs.len(),
        step(chain, instrs, s).status !is Faulted,
    ensures
        code_reaches(chain, code, in_code(instrs, s), in_code(instrs, step(chain, instrs, s))),
{
    let i = s.pc as int;
    assert(operand_valid(instrs[i]));
    assert(genuine(instrs[i]));
    match instrs[i] {
        Instr::Jump(label) => lemma_jump_in_code(chain, code, instrs, s, label),
        Instr::JumpI(label) => if s.machine.top(0) != 0 {
            lemma_taken_in_code(chain, code, instrs, s, label);
        } else {
            lemma_not_taken_in_code(chain, code, instrs, s, label);
        },
        Instr::Push(bytes) => lemma_push_in_code(chain, code, instrs, s, bytes),
        _ => lemma_byte_in_code(chain, code, instrs, s),
    }
}

/// A program that has halted stays halted.
proof fn lemma_halted_stays(chain: Chain, instrs: Seq<Instr>, s: State, n: nat)
    requires
        s.status !is Running,
    ensures
        run(chain, instrs, s, n) == s,
    decreases n,
{
    if n > 0 {
        lemma_halted_stays(chain, instrs, s, (n - 1) as nat);
    }
}

proof fn lemma_run_in_code(chain: Chain, code: Seq<u8>, instrs: Seq<Instr>, s: State, n: nat)
    requires
        encodable(instrs),
        all_genuine(instrs),
        starts_with(code, instrs),
        s.pc <= instrs.len(),
        run(chain, instrs, s, n).status !is Faulted,
        code == assembled(instrs) || run(chain, instrs, s, n).status !is Stopped,
    ensures
        code_reaches(chain, code, in_code(instrs, s), in_code(instrs, run(chain, instrs, s, n))),
        run(chain, instrs, s, n).pc <= instrs.len(),
    decreases n,
{
    let s0 = in_code(instrs, s);
    if n == 0 {
        assert(run_code(chain, code, s0, 0) == s0);
    } else {
        let t = run(chain, instrs, s, (n - 1) as nat);
        let u = run(chain, instrs, s, n);
        assert(u == step(chain, instrs, t));
        if t.status !is Running {
            lemma_run_in_code(chain, code, instrs, s, (n - 1) as nat);
        } else {
            lemma_run_in_code(chain, code, instrs, s, (n - 1) as nat);
            if t.pc < instrs.len() {
                lemma_step_in_code(chain, code, instrs, t);
                match instrs[t.pc as int] {
                    Instr::Jump(label) => law_label_place(instrs, label),
                    Instr::JumpI(label) => law_label_place(instrs, label),
                    _ => {},
                }
            } else {
                assert(instrs.take(instrs.len() as int) =~= instrs);
                lemma_encode_all_len(instrs, label_table(instrs));
                lemma_code_reaches_step(chain, code, in_code(instrs, t));
            }
            lemma_code_reaches_trans(chain, code, s0, in_code(instrs, t), in_code(instrs, u));
        }
    }
}

/// The bytecode of a program runs as the program does: whatever state a program gets to without a
/// fault, its bytecode gets to, whether it stands alone or, as long as the program does not stop,
/// is followed by other code.
pub proof fn law_bytecode_runs_program(
    chain: Chain,
    code: Seq<u8>,
    instrs: Seq<Instr>,
    s: State,
    t: State,
)
    requires
        encodable(instrs),
        all_genuine(instrs),
        starts_with(code, instrs),
        s.pc <= instrs.len(),
        reaches(chain, instrs, s, t),
        t.status !is Faulted,
        code == assembled(instrs) || t.status !is Stopped,
    ensures
        code_reaches(chain, code, in_code(instrs, s), in_code(instrs, t)),
{
    reveal(reaches);
    let n = choose|n: nat| #[trigger] run(chain, instrs, s, n) == t;
    lemma_run_in_code(chain, code, instrs, s, n);
}

} // verus!
