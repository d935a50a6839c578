//! Contracts: a dispatcher over functions, and the code that deploys it.

use vstd::prelude::*;
use vstd::utf8::encode_utf8;

use crate::assembler::{assembled, assembles, Asm, Instr, Label, Op, Program};
use crate::builder::{push1, revert_empty_code};
use crate::keccak::{keccak256_bytes, keccak256_digest};

verus! {

/// An entry point of a contract: the selector that calls it, and the program that it runs, which
/// must end in a return, a stop or a revert.
pub struct Function {
    selector: [u8; 4],
    body: Asm,
}

/// The mathematical form of an entry point.
pub struct Entry {
    pub selector: Seq<u8>,
    pub body: Program,
}

impl View for Function {
    type V = Entry;

    closed spec fn view(&self) -> Entry {
        Entry { selector: self.selector@, body: self.body@ }
    }
}

impl Function {
    /// An entry point with the given selector and program.
    pub fn new(selector: [u8; 4], body: Asm) -> (r: Self)
        ensures
            r@ == (Entry { selector: selector@, body: body@ }),
    {
        Self { selector, body }
    }

    /// The number of labels of the program.
    pub fn label_count(&self) -> (r: u32)
        ensures
            r == self@.body.labels,
    {
        self.body.label_count()
    }
}

/// The entry points of a list of functions.
pub open spec fn entries(functions: Seq<Function>) -> Seq<Entry> {
    functions.map_values(|f: Function| f@)
}

/// Puts the selector of the call on the stack.
pub open spec fn prologue_code() -> Seq<Instr> {
    seq![push1(0x00), Op::CallDataLoad@, push1(0xE0), Op::Shr@]
}

/// Jumps to `label` if the selector on the stack is `selector`.
pub open spec fn compare_code(selector: Seq<u8>, label: Label) -> Seq<Instr> {
    seq![Instr::Dup(1), Instr::Push(selector), Op::Eq@, Instr::JumpI(label)]
}

/// Compares the selector with that of each entry in turn. The label of an entry is its position.
pub open spec fn dispatch_code(fns: Seq<Entry>) -> Seq<Instr>
    decreases fns.len(),
{
    if fns.len() == 0 {
        Seq::empty()
    } else {
        dispatch_code(fns.drop_last()) + compare_code(
            fns.last().selector,
            (fns.len() - 1) as Label,
        )
    }
}

/// What comes before the bodies: no selector matched means revert.
pub open spec fn dispatcher(fns: Seq<Entry>) -> Program {
    Program {
        instrs: prologue_code() + dispatch_code(fns) + revert_empty_code(),
        labels: fns.len(),
    }
}

/// The dispatcher and the first `k` bodies, each at the label of its entry, the selector popped.
pub open spec fn with_bodies(fns: Seq<Entry>, k: nat) -> Program
    decreases k,
{
    if k == 0 {
        dispatcher(fns)
    } else {
        with_bodies(fns, (k - 1) as nat).with_code(
            seq![Instr::JumpDest((k - 1) as Label), Op::Pop@],
        ).with_program(fns[k - 1].body)
    }
}

/// The program that answers calls.
pub open spec fn runtime(fns: Seq<Entry>) -> Program {
    with_bodies(fns, fns.len())
}

/// The number of labels that the bodies of the first `k` entries hand out.
pub open spec fn body_labels(fns: Seq<Entry>, k: nat) -> nat
    decreases k,
{
    if k == 0 {
        0
    } else {
        body_labels(fns, (k - 1) as nat) + fns[k - 1].body.labels
    }
}

/// Whether there are enough labels to put the entries into one program.
pub open spec fn combinable(fns: Seq<Entry>) -> bool {
    fns.len() + body_labels(fns, fns.len()) <= u32::MAX
}

/// The number of bytes of [`init_code`].
pub open spec fn init_len() -> nat {
    15
}

/// Copies `size` bytes of the code from `offset` to memory, and returns them.
pub open spec fn init_code(size: nat, offset: nat) -> Seq<u8> {
    seq![
        0x61u8,
        (size / 0x100) as u8,
        (size % 0x100) as u8,
        0x61u8,
        (offset / 0x100) as u8,
        (offset % 0x100) as u8,
        0x60u8,
        0x00u8,
        0x39u8,
        0x61u8,
        (size / 0x100) as u8,
        (size % 0x100) as u8,
        0x60u8,
        0x00u8,
        0xF3u8,
    ]
}

/// The code that deploys a contract: the constructor, then the code that returns the runtime
/// code, then the runtime code itself.
pub open spec fn creation_code(constructor: Seq<u8>, runtime_code: Seq<u8>) -> Seq<u8> {
    constructor + init_code(runtime_code.len(), constructor.len() + init_len()) + runtime_code
}

/// Whether runtime code and constructor are short enough for two-byte sizes and offsets.
pub open spec fn deployable(constructor: Seq<u8>, runtime_code: Seq<u8>) -> bool {
    &&& runtime_code.len() <= 0xFFFF
    &&& constructor.len() + init_len() <= 0xFFFF
}

/// The labels that are left after the first bodies are taken in.
pub proof fn lemma_with_bodies_labels(fns: Seq<Entry>, k: nat)
    requires
        k <= fns.len(),
    ensures
        with_bodies(fns, k).labels == fns.len() + body_labels(fns, k),
    decreases k,
{
    if k > 0 {
        lemma_with_bodies_labels(fns, (k - 1) as nat);
    }
}

/// More bodies hand out no fewer labels.
pub proof fn lemma_body_labels_monotone(fns: Seq<Entry>, k: nat, n: nat)
    requires
        k <= n,
    ensures
        body_labels(fns, k) <= body_labels(fns, n),
    decreases n,
{
    if k < n {
        lemma_body_labels_monotone(fns, k, (n - 1) as nat);
    }
}

/// The first four bytes of a digest.
pub fn selector_of_digest(digest: &[u8; 32]) -> (r: [u8; 4])
    ensures
        r@ == digest@.take(4),
{
    let r = [digest[0], digest[1], digest[2], digest[3]];
    assert(r@ =~= digest@.take(4));
    r
}

/// Builds contracts from functions.
pub struct Builder;

impl Builder {
    /// The selector of a function signature: the first four bytes of its Keccak-256 digest.
    pub fn selector(&self, sig: &str) -> (r: [u8; 4])
        ensures
            r@ == keccak256_digest(encode_utf8(sig@)).take(4),
    {
        let digest = keccak256_bytes(sig.as_bytes());
        selector_of_digest(&digest)
    }

    /// The program that answers calls: it compares the selector of the call with that of each
    /// function in turn, and reverts if none matches.
    pub fn build_runtime(&self, functions: Vec<Function>) -> (r: Asm)
        requires
            combinable(entries(functions@)),
        ensures
            r@ == runtime(entries(functions@)),
    {
        let mut program = Asm::new();
        program.push_u8(0x00).add_op(Op::CallDataLoad).push_u8(0xE0).add_op(Op::Shr);
        let ghost fns = entries(functions@);
        let n = functions.len();
        let mut i: usize = 0;
        assert(program@.instrs =~= prologue_code() + dispatch_code(fns.take(0)));
        while i < n
            invariant
                i <= n,
                n == functions@.len(),
                fns == entries(functions@),
                combinable(fns),
                program@.instrs == prologue_code() + dispatch_code(fns.take(i as int)),
                program@.labels == i,
            decreases n - i,
        {
            let label = program.fresh_label();
            program.add_op(Op::Dup(1))
                .push_bytes(functions[i].selector.as_slice())
                .add_op(Op::Eq)
                .add_op(Op::JumpI(label));
            i += 1;
            proof {
                let now = fns.take(i as int);
                assert(now.drop_last() =~= fns.take(i - 1));
                assert(now.last() == functions@[i - 1]@);
                assert(program@.instrs =~= prologue_code() + dispatch_code(now));
            }
        }
        assert(fns.take(n as int) =~= fns);
        program.revert_empty();
        assert(program@.instrs =~= dispatcher(fns).instrs);

        let mut rest = functions;
        let mut k: usize = 0;
        while k < n
            invariant
                k <= n,
                n == fns.len(),
                combinable(fns),
                rest@.len() == n - k,
                forall|j: int| #![trigger rest@[j]] 0 <= j < n - k ==> rest@[j]@ == fns[k + j],
                program@ == with_bodies(fns, k as nat),
            decreases n - k,
        {
            let function = rest.remove(0);
            proof {
                lemma_with_bodies_labels(fns, k as nat);
                lemma_body_labels_monotone(fns, (k + 1) as nat, n as nat);
                assert(function@ == fns[k as int]);
            }
            program.add_op(Op::JumpDest(k as Label)).add_op(Op::Pop);
            assert(program@ =~= with_bodies(fns, k as nat).with_code(
                seq![Instr::JumpDest(k as Label), Op::Pop@],
            ));
            program.append(function.body);
            k += 1;
        }
        program
    }

    /// The code that deploys `runtime_bytecode`, after it has run the constructor.
    pub fn wrap_with_constructor(&self, constructor: Vec<u8>, runtime_bytecode: Vec<u8>) -> (r: Vec<
        u8,
    >)
        requires
            deployable(constructor@, runtime_bytecode@),
        ensures
            r@ == creation_code(constructor@, runtime_bytecode@),
    {
        let size = runtime_bytecode.len();
        let offset = constructor.len() + 15;
        let size_hi = (size / 0x100) as u8;
        let size_lo = (size % 0x100) as u8;
        let off_hi = (offset / 0x100) as u8;
        let off_lo = (offset % 0x100) as u8;
        let mut init: Vec<u8> = vec![
            0x61, size_hi, size_lo,
            0x61, off_hi, off_lo,
            0x60, 0x00,
            0x39,
            0x61, size_hi, size_lo,
            0x60, 0x00,
            0xF3,
        ];
        assert(init@ =~= init_code(size as nat, offset as nat));
        let mut code = constructor;
        let mut runtime_bytecode = runtime_bytecode;
        code.append(&mut init);
        code.append(&mut runtime_bytecode);
        code
    }

    /// The code that deploys a contract without a constructor.
    pub fn assemble_contract(&self, functions: Vec<Function>) -> (r: Vec<u8>)
        requires
            combinable(entries(functions@)),
            assembles(runtime(entries(functions@)).instrs),
            deployable(Seq::empty(), assembled(runtime(entries(functions@)).instrs)),
        ensures
            r@ == creation_code(Seq::empty(), assembled(runtime(entries(functions@)).instrs)),
    {
        let runtime_bytecode = self.build_runtime(functions).finish();
        self.wrap_with_constructor(Vec::new(), runtime_bytecode)
    }

    /// The code that deploys a contract whose constructor runs first, in place, at the start of
    /// the code. A constructor that returns normally runs into the code that deploys the runtime.
    pub fn assemble_contract_with_constructor(
        &self,
        functions: Vec<Function>,
        constructor: Asm,
    ) -> (r: Vec<u8>)
        requires
            combinable(entries(functions@)),
            assembles(constructor@.instrs),
            assembles(runtime(entries(functions@)).instrs),
            deployable(
                assembled(constructor@.instrs),
                assembled(runtime(entries(functions@)).instrs),
            ),
        ensures
            r@ == creation_code(
                assembled(constructor@.instrs),
                assembled(runtime(entries(functions@)).instrs),
            ),
    {
        let runtime_bytecode = self.build_runtime(functions).finish();
        self.wrap_with_constructor(constructor.finish(), runtime_bytecode)
    }
}

} // verus!
