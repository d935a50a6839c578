//! A model of the machine that runs the code: its words, its memory, its storage, and the effect
//! of the opcodes that contracts are compiled to.
//!
//! Gas, and the limits on stack and memory that it stands for, are not part of the model.

use vstd::arithmetic::power2::pow2;
use vstd::prelude::*;

use crate::assembler::{Instr, Label};
use crate::bytes::{be_bytes, be_value};
use crate::keccak::keccak256_digest;

verus! {

/// The number of words: `2^256`.
pub open spec fn modulus() -> nat {
    0x1_0000_0000_0000_0000_0000_0000_0000_0000_0000_0000_0000_0000_0000_0000_0000_0000nat
}

/// A number as a word.
pub open spec fn word(n: int) -> nat {
    (n % modulus() as int) as nat
}

/// A truth value as a word.
pub open spec fn flag(b: bool) -> nat {
    if b {
        1
    } else {
        0
    }
}

/// Bitwise and.
pub open spec fn bit_and(a: nat, b: nat) -> nat
    decreases a,
{
    if a == 0 {
        0
    } else {
        2 * bit_and(a / 2, b / 2) + (if a % 2 == 1 && b % 2 == 1 {
            1nat
        } else {
            0
        })
    }
}

/// Bitwise or.
pub open spec fn bit_or(a: nat, b: nat) -> nat
    decreases a,
{
    if a == 0 {
        b
    } else {
        2 * bit_or(a / 2, b / 2) + (if a % 2 == 1 || b % 2 == 1 {
            1nat
        } else {
            0
        })
    }
}

/// The value of a word that is shifted to the left.
pub open spec fn shifted_left(value: nat, shift: nat) -> nat {
    if shift < 256 {
        word((value * pow2(shift)) as int)
    } else {
        0
    }
}

/// The value of a word that is shifted to the right.
pub open spec fn shifted_right(value: nat, shift: nat) -> nat {
    if shift < 256 {
        value / pow2(shift)
    } else {
        0
    }
}

/// The Keccak-256 digest of a byte string as a word.
pub open spec fn hash(data: Seq<u8>) -> nat {
    word(be_value(keccak256_digest(data)) as int)
}

/// The memory: a byte at every address.
pub type Memory = spec_fn(int) -> u8;

/// `len` bytes of memory.
pub open spec fn bytes_at(memory: Memory, offset: int, len: nat) -> Seq<u8> {
    Seq::new(len, |i: int| memory(offset + i))
}

/// The word at an offset.
pub open spec fn load(memory: Memory, offset: int) -> nat {
    be_value(bytes_at(memory, offset, 32))
}

/// The memory after bytes were written to it.
pub open spec fn written(memory: Memory, offset: int, data: Seq<u8>) -> Memory {
    |i: int|
        if offset <= i < offset + data.len() {
            data[i - offset]
        } else {
            memory(i)
        }
}

/// The memory after a word was written to it.
pub open spec fn stored(memory: Memory, offset: int, value: nat) -> Memory {
    written(memory, offset, be_bytes(value, 32))
}

/// The byte at a position of a byte string that is followed by zeros.
pub open spec fn byte_or_zero(data: Seq<u8>, i: int) -> u8 {
    if 0 <= i < data.len() {
        data[i]
    } else {
        0
    }
}

/// Bytes of a byte string that is followed by zeros.
pub open spec fn padded(data: Seq<u8>, offset: int, len: nat) -> Seq<u8> {
    Seq::new(len, |i: int| byte_or_zero(data, offset + i))
}

/// The storage: a word in every slot, zero in those that were never written.
pub type Storage = Map<nat, nat>;

/// The word in a slot.
pub open spec fn slot_value(storage: Storage, slot: nat) -> nat {
    if storage.dom().contains(slot) {
        word(storage[slot] as int)
    } else {
        0
    }
}

/// An entry of the log.
#[verifier::ext_equal]
pub struct Log {
    pub topics: Seq<nat>,
    pub data: Seq<u8>,
}

/// A call of another contract, as the outside world sees it.
pub struct Request {
    pub target: nat,
    pub data: Seq<u8>,
    /// Whether the callee can write.
    pub mutable: bool,
    pub storage: Storage,
    pub logs: Seq<Log>,
    /// The number of calls before this one.
    pub earlier: nat,
}

/// What a call of another contract comes to. The callee can call back, so a successful call can
/// leave other storage and further logs.
pub struct Reply {
    pub success: bool,
    pub data: Seq<u8>,
    pub storage: Storage,
    pub logs: Seq<Log>,
}

/// What code can ask about its surroundings.
pub struct Chain {
    pub caller: nat,
    pub address: nat,
    pub timestamp: nat,
    pub gas: nat,
    pub calldata: Seq<u8>,
    /// The code that runs, with whatever follows it.
    pub code: Seq<u8>,
    pub outside: spec_fn(Request) -> Reply,
}

/// The word of the call data at an offset.
pub open spec fn calldata_word(chain: Chain, offset: nat) -> nat {
    be_value(padded(chain.calldata, offset as int, 32))
}

/// What code works on. The top of the stack is the last element.
pub struct Machine {
    pub stack: Seq<nat>,
    pub memory: Memory,
    pub storage: Storage,
    pub logs: Seq<Log>,
    /// The number of calls of other contracts so far.
    pub calls: nat,
}

impl Machine {
    /// The element at a distance from the top of the stack.
    pub open spec fn top(self, i: int) -> nat {
        self.stack[self.stack.len() - 1 - i]
    }

    /// With `k` elements taken from the stack.
    pub open spec fn dropped(self, k: int) -> Machine {
        Machine {
            stack: self.stack.take(self.stack.len() - k),
            memory: self.memory,
            storage: self.storage,
            logs: self.logs,
            calls: self.calls,
        }
    }

    /// With a value put on the stack.
    pub open spec fn pushed(self, value: nat) -> Machine {
        Machine {
            stack: self.stack.push(value),
            memory: self.memory,
            storage: self.storage,
            logs: self.logs,
            calls: self.calls,
        }
    }

    /// With other memory.
    pub open spec fn with_memory(self, memory: Memory) -> Machine {
        Machine {
            stack: self.stack,
            memory,
            storage: self.storage,
            logs: self.logs,
            calls: self.calls,
        }
    }

    /// With other storage.
    pub open spec fn with_storage(self, storage: Storage) -> Machine {
        Machine {
            stack: self.stack,
            memory: self.memory,
            storage,
            logs: self.logs,
            calls: self.calls,
        }
    }

    /// With a further log.
    pub open spec fn with_log(self, log: Log) -> Machine {
        Machine {
            stack: self.stack,
            memory: self.memory,
            storage: self.storage,
            logs: self.logs.push(log),
            calls: self.calls,
        }
    }
}

/// How code that runs is doing.
pub enum Status {
    Running,
    Stopped,
    Returned(Seq<u8>),
    Reverted(Seq<u8>),
    /// An opcode that is not part of the model, a bad jump, or an empty stack.
    Faulted,
}

/// What an instruction does.
pub enum Effect {
    Next(Machine),
    Halt(Status, Machine),
}

/// An instruction that cannot run.
pub open spec fn fault(m: Machine) -> Effect {
    Effect::Halt(Status::Faulted, m)
}

/// An operation on the top two elements: the first argument is the top.
pub open spec fn two_to_one(m: Machine, value: nat) -> Effect {
    if m.stack.len() >= 2 {
        Effect::Next(m.dropped(2).pushed(value))
    } else {
        fault(m)
    }
}

/// An operation on the top element.
pub open spec fn one_to_one(m: Machine, value: nat) -> Effect {
    if m.stack.len() >= 1 {
        Effect::Next(m.dropped(1).pushed(value))
    } else {
        fault(m)
    }
}

/// The call of another contract: memory `args` of length `args_len` is the call data, and what
/// comes back goes to memory `out`, as far as `out_len` bytes reach.
pub open spec fn call_effect(
    chain: Chain,
    m: Machine,
    used: int,
    target: nat,
    args: nat,
    args_len: nat,
    out: nat,
    out_len: nat,
    mutable: bool,
) -> Machine {
    let reply = (chain.outside)(
        Request {
            target,
            data: bytes_at(m.memory, args as int, args_len),
            mutable,
            storage: m.storage,
            logs: m.logs,
            earlier: m.calls,
        },
    );
    let copied = if out_len <= reply.data.len() {
        reply.data.take(out_len as int)
    } else {
        reply.data
    };
    Machine {
        stack: m.dropped(used).stack.push(flag(reply.success)),
        memory: written(m.memory, out as int, copied),
        storage: if mutable && reply.success {
            reply.storage
        } else {
            m.storage
        },
        logs: if mutable && reply.success {
            m.logs + reply.logs
        } else {
            m.logs
        },
        calls: m.calls + 1,
    }
}

/// The effect of an opcode without operands.
#[verifier::opaque]
pub open spec fn simple_effect(chain: Chain, op: u8, m: Machine) -> Effect {
    let n = m.stack.len();
    let a = m.top(0);
    let b = m.top(1);
    if op == 0x00 {
        Effect::Halt(Status::Stopped, m)
    } else if op == 0x01 {
        two_to_one(m, word((a + b) as int))
    } else if op == 0x02 {
        two_to_one(m, word((a * b) as int))
    } else if op == 0x03 {
        two_to_one(m, word(a - b))
    } else if op == 0x04 {
        two_to_one(
            m,
            if b == 0 {
                0
            } else {
                a / b
            },
        )
    } else if op == 0x06 {
        two_to_one(
            m,
            if b == 0 {
                0
            } else {
                a % b
            },
        )
    } else if op == 0x10 {
        two_to_one(m, flag(a < b))
    } else if op == 0x11 {
        two_to_one(m, flag(a > b))
    } else if op == 0x14 {
        two_to_one(m, flag(a == b))
    } else if op == 0x15 {
        one_to_one(m, flag(a == 0))
    } else if op == 0x16 {
        two_to_one(m, bit_and(a, b))
    } else if op == 0x17 {
        two_to_one(m, bit_or(a, b))
    } else if op == 0x19 {
        one_to_one(m, (modulus() - 1 - a) as nat)
    } else if op == 0x1b {
        two_to_one(m, shifted_left(b, a))
    } else if op == 0x1c {
        two_to_one(m, shifted_right(b, a))
    } else if op == 0x20 {
        two_to_one(m, hash(bytes_at(m.memory, a as int, b)))
    } else if op == 0x30 {
        Effect::Next(m.pushed(word(chain.address as int)))
    } else if op == 0x33 {
        Effect::Next(m.pushed(word(chain.caller as int)))
    } else if op == 0x35 {
        one_to_one(m, calldata_word(chain, a))
    } else if op == 0x38 {
        Effect::Next(m.pushed(chain.code.len()))
    } else if op == 0x39 {
        if n >= 3 {
            Effect::Next(
                m.dropped(3).with_memory(
                    written(m.memory, a as int, padded(chain.code, b as int, m.top(2))),
                ),
            )
        } else {
            fault(m)
        }
    } else if op == 0x42 {
        Effect::Next(m.pushed(word(chain.timestamp as int)))
    } else if op == 0x50 {
        if n >= 1 {
            Effect::Next(m.dropped(1))
        } else {
            fault(m)
        }
    } else if op == 0x51 {
        one_to_one(m, load(m.memory, a as int))
    } else if op == 0x52 {
        if n >= 2 {
            Effect::Next(m.dropped(2).with_memory(stored(m.memory, a as int, b)))
        } else {
            fault(m)
        }
    } else if op == 0x54 {
        one_to_one(m, slot_value(m.storage, a))
    } else if op == 0x55 {
        if n >= 2 {
            Effect::Next(m.dropped(2).with_storage(m.storage.insert(a, b)))
        } else {
            fault(m)
        }
    } else if op == 0x5a {
        Effect::Next(m.pushed(word(chain.gas as int)))
    } else if op == 0xf1 {
        if n >= 7 {
            Effect::Next(
                call_effect(chain, m, 7, b, m.top(3), m.top(4), m.top(5), m.top(6), true),
            )
        } else {
            fault(m)
        }
    } else if op == 0xf3 {
        if n >= 2 {
            Effect::Halt(Status::Returned(bytes_at(m.memory, a as int, b)), m.dropped(2))
        } else {
            fault(m)
        }
    } else if op == 0xfa {
        if n >= 6 {
            Effect::Next(
                call_effect(chain, m, 6, b, m.top(2), m.top(3), m.top(4), m.top(5), false),
            )
        } else {
            fault(m)
        }
    } else if op == 0xfd {
        if n >= 2 {
            Effect::Halt(Status::Reverted(bytes_at(m.memory, a as int, b)), m.dropped(2))
        } else {
            fault(m)
        }
    } else {
        fault(m)
    }
}

/// The effect of a `DUP`.
pub open spec fn dup_effect(m: Machine, n: nat) -> Effect {
    if 1 <= n <= m.stack.len() {
        Effect::Next(m.pushed(m.top(n - 1)))
    } else {
        fault(m)
    }
}

/// The effect of a `SWAP`.
pub open spec fn swap_effect(m: Machine, n: nat) -> Effect {
    if 1 <= n < m.stack.len() {
        let k = m.stack.len() - 1;
        Effect::Next(
            Machine {
                stack: m.stack.update(k, m.stack[k - n]).update(k - n, m.stack[k]),
                memory: m.memory,
                storage: m.storage,
                logs: m.logs,
                calls: m.calls,
            },
        )
    } else {
        fault(m)
    }
}

/// The effect of a `LOG` with `n` topics.
pub open spec fn log_effect(m: Machine, n: nat) -> Effect {
    if m.stack.len() >= n + 2 {
        Effect::Next(
            m.dropped((n + 2) as int).with_log(
                Log {
                    topics: Seq::new(n, |i: int| m.top(2 + i)),
                    data: bytes_at(m.memory, m.top(0) as int, m.top(1)),
                },
            ),
        )
    } else {
        fault(m)
    }
}

/// The effect of an instruction that is no jump.
#[verifier::opaque]
pub open spec fn effect(chain: Chain, instr: Instr, m: Machine) -> Effect {
    match instr {
        Instr::Push(bytes) => Effect::Next(m.pushed(be_value(bytes))),
        Instr::Dup(n) => dup_effect(m, n as nat),
        Instr::Swap(n) => swap_effect(m, n as nat),
        Instr::Log(n) => log_effect(m, n as nat),
        Instr::JumpDest(_) => Effect::Next(m),
        Instr::Simple(op) => simple_effect(chain, op, m),
        _ => fault(m),
    }
}

/// A machine, where it is in the code, and how it is doing.
pub struct State {
    pub pc: nat,
    pub machine: Machine,
    pub status: Status,
}

/// A machine that runs.
pub open spec fn running(pc: nat, machine: Machine) -> State {
    State { pc, machine, status: Status::Running }
}

/// A machine that has halted.
pub open spec fn halted(pc: nat, machine: Machine, status: Status) -> State {
    State { pc, machine, status }
}

/// What lasts beyond a call: the storage and the log.
#[verifier::ext_equal]
pub struct Ledger {
    pub storage: Storage,
    pub logs: Seq<Log>,
}

/// What a call that began with a ledger and came to a state leaves behind. A call that returned or
/// stopped leaves what it wrote. One that reverted or failed leaves what was there before, whatever
/// it wrote.
pub open spec fn after_call(before: Ledger, t: State) -> Ledger {
    match t.status {
        Status::Returned(_) => Ledger { storage: t.machine.storage, logs: t.machine.logs },
        Status::Stopped => Ledger { storage: t.machine.storage, logs: t.machine.logs },
        _ => before,
    }
}

/// The position of the last `JUMPDEST` of a label.
pub open spec fn place_of(instrs: Seq<Instr>, label: Label) -> Option<nat>
    decreases instrs.len(),
{
    if instrs.len() == 0 {
        None
    } else if instrs.last() == Instr::JumpDest(label) {
        Some((instrs.len() - 1) as nat)
    } else {
        place_of(instrs.drop_last(), label)
    }
}

/// A jump to a label.
pub open spec fn jump(instrs: Seq<Instr>, label: Label, machine: Machine, pc: nat) -> State {
    match place_of(instrs, label) {
        Some(target) => running(target, machine),
        None => halted(pc, machine, Status::Faulted),
    }
}

/// One step of a program, whose position is counted in instructions. A program that has run to its
/// end stops.
pub open spec fn step(chain: Chain, instrs: Seq<Instr>, s: State) -> State {
    if s.status !is Running {
        s
    } else if s.pc >= instrs.len() {
        halted(s.pc, s.machine, Status::Stopped)
    } else {
        match instrs[s.pc as int] {
            Instr::Jump(label) => jump(instrs, label, s.machine, s.pc),
            Instr::JumpI(label) => if s.machine.stack.len() >= 1 {
                if s.machine.top(0) != 0 {
                    jump(instrs, label, s.machine.dropped(1), s.pc)
                } else {
                    running(s.pc + 1, s.machine.dropped(1))
                }
            } else {
                halted(s.pc, s.machine, Status::Faulted)
            },
            instr => match effect(chain, instr, s.machine) {
                Effect::Next(machine) => running(s.pc + 1, machine),
                Effect::Halt(status, machine) => halted(s.pc, machine, status),
            },
        }
    }
}

/// `n` steps of a program.
pub open spec fn run(chain: Chain, instrs: Seq<Instr>, s: State, n: nat) -> State
    decreases n,
{
    if n == 0 {
        s
    } else {
        step(chain, instrs, run(chain, instrs, s, (n - 1) as nat))
    }
}

/// Whether a program gets from one state to another.
#[verifier::opaque]
pub open spec fn reaches(chain: Chain, instrs: Seq<Instr>, s: State, t: State) -> bool {
    exists|n: nat| #[trigger] run(chain, instrs, s, n) == t
}

/// The number of bytes of an opcode together with its operand.
pub open spec fn opcode_len(op: u8) -> nat {
    if 0x60 <= op <= 0x7f {
        (1 + (op - 0x5f)) as nat
    } else {
        1
    }
}

/// Whether the opcodes that start at `from` put the start of one at `pc`: what lies in the operand
/// of a push is no opcode.
pub open spec fn on_boundary(code: Seq<u8>, from: nat, pc: nat) -> bool
    decreases pc - from,
{
    if pc >= code.len() || from > pc {
        false
    } else if from == pc {
        true
    } else {
        let next = from + opcode_len(code[from as int]);
        if next > pc {
            false
        } else {
            on_boundary(code, next, pc)
        }
    }
}

/// Whether code can be jumped into at `pc`.
pub open spec fn valid_dest(code: Seq<u8>, pc: nat) -> bool {
    on_boundary(code, 0, pc) && code[pc as int] == 0x5b
}

/// A jump to an address.
pub open spec fn jump_to(code: Seq<u8>, target: nat, machine: Machine, pc: nat) -> State {
    if valid_dest(code, target) {
        running(target, machine)
    } else {
        halted(pc, machine, Status::Faulted)
    }
}

/// One step of bytecode, whose position is counted in bytes.
pub open spec fn step_code(chain: Chain, code: Seq<u8>, s: State) -> State {
    if s.status !is Running {
        s
    } else if s.pc >= code.len() {
        halted(s.pc, s.machine, Status::Stopped)
    } else {
        let op = code[s.pc as int];
        let m = s.machine;
        if op == 0x56 {
            if m.stack.len() >= 1 {
                jump_to(code, m.top(0), m.dropped(1), s.pc)
            } else {
                halted(s.pc, m, Status::Faulted)
            }
        } else if op == 0x57 {
            if m.stack.len() >= 2 {
                if m.top(1) != 0 {
                    jump_to(code, m.top(0), m.dropped(2), s.pc)
                } else {
                    running(s.pc + 1, m.dropped(2))
                }
            } else {
                halted(s.pc, m, Status::Faulted)
            }
        } else {
            let done = if 0x5f <= op <= 0x7f {
                Effect::Next(
                    m.pushed(be_value(padded(code, (s.pc + 1) as int, (op - 0x5f) as nat))),
                )
            } else if 0x80 <= op <= 0x8f {
                dup_effect(m, (op - 0x80 + 1) as nat)
            } else if 0x90 <= op <= 0x9f {
                swap_effect(m, (op - 0x90 + 1) as nat)
            } else if 0xa0 <= op <= 0xa4 {
                log_effect(m, (op - 0xa0) as nat)
            } else if op == 0x5b {
                Effect::Next(m)
            } else {
                simple_effect(chain, op, m)
            };
            match done {
                Effect::Next(machine) => running(s.pc + opcode_len(op), machine),
                Effect::Halt(status, machine) => halted(s.pc, machine, status),
            }
        }
    }
}

/// `n` steps of bytecode.
pub open spec fn run_code(chain: Chain, code: Seq<u8>, s: State, n: nat) -> State
    decreases n,
{
    if n == 0 {
        s
    } else {
        step_code(chain, code, run_code(chain, code, s, (n - 1) as nat))
    }
}

/// Whether bytecode gets from one state to another.
pub open spec fn code_reaches(chain: Chain, code: Seq<u8>, s: State, t: State) -> bool {
    exists|n: nat| #[trigger] run_code(chain, code, s, n) == t
}

/// A program gets from a state to itself.
pub proof fn lemma_reaches_self(chain: Chain, instrs: Seq<Instr>, s: State)
    ensures
        reaches(chain, instrs, s, s),
{
    reveal(reaches);
    assert(run(chain, instrs, s, 0) == s);
}

/// Steps add up.
pub proof fn lemma_run_add(chain: Chain, instrs: Seq<Instr>, s: State, n: nat, k: nat)
    ensures
        run(chain, instrs, s, n + k) == run(chain, instrs, run(chain, instrs, s, n), k),
    decreases k,
{
    if k > 0 {
        lemma_run_add(chain, instrs, s, n, (k - 1) as nat);
        assert((n + k - 1) as nat == n + (k - 1) as nat);
    }
}

/// What is reached from a state that is reached is reached.
pub proof fn lemma_reaches_trans(chain: Chain, instrs: Seq<Instr>, s: State, t: State, u: State)
    requires
        reaches(chain, instrs, s, t),
        reaches(chain, instrs, t, u),
    ensures
        reaches(chain, instrs, s, u),
{
    reveal(reaches);
    let n = choose|n: nat| #[trigger] run(chain, instrs, s, n) == t;
    let k = choose|k: nat| #[trigger] run(chain, instrs, t, k) == u;
    lemma_run_add(chain, instrs, s, n, k);
}

/// A single step.
pub proof fn lemma_reaches_step(chain: Chain, instrs: Seq<Instr>, s: State)
    ensures
        reaches(chain, instrs, s, step(chain, instrs, s)),
{
    reveal(reaches);
    reveal_with_fuel(run, 2);
    assert(run(chain, instrs, s, 1) == step(chain, instrs, s));
}

/// Steps of bytecode add up.
pub proof fn lemma_run_code_add(chain: Chain, code: Seq<u8>, s: State, n: nat, k: nat)
    ensures
        run_code(chain, code, s, n + k) == run_code(chain, code, run_code(chain, code, s, n), k),
    decreases k,
{
    if k > 0 {
        lemma_run_code_add(chain, code, s, n, (k - 1) as nat);
        assert((n + k - 1) as nat == n + (k - 1) as nat);
    }
}

/// What bytecode reaches from a state that it reaches, it reaches.
pub proof fn lemma_code_reaches_trans(chain: Chain, code: Seq<u8>, s: State, t: State, u: State)
    requires
        code_reaches(chain, code, s, t),
        code_reaches(chain, code, t, u),
    ensures
        code_reaches(chain, code, s, u),
{
    let n = choose|n: nat| #[trigger] run_code(chain, code, s, n) == t;
    let k = choose|k: nat| #[trigger] run_code(chain, code, t, k) == u;
    lemma_run_code_add(chain, code, s, n, k);
}

/// A single step of bytecode.
pub proof fn lemma_code_reaches_step(chain: Chain, code: Seq<u8>, s: State)
    ensures
        code_reaches(chain, code, s, step_code(chain, code, s)),
{
    reveal_with_fuel(run_code, 2);
    assert(run_code(chain, code, s, 1) == step_code(chain, code, s));
}

} // verus!
