//! Fragments of compiled code, and the faults met on the way.

use vstd::prelude::*;

use crate::assembler::{Asm, Instr, Op, Program};
use crate::builder::push_number;
use crate::errors::{plain_fault, CompileError, ErrorKind, Fault};
use crate::word::Word;

verus! {

/// The mathematical form of a fragment: its program, and the faults in the order of the code.
#[verifier::ext_equal]
pub struct Fragment {
    pub program: Program,
    pub errors: Seq<Fault>,
}

impl Fragment {
    /// No code and no faults.
    pub open spec fn empty() -> Fragment {
        Fragment { program: Program { instrs: Seq::empty(), labels: 0 }, errors: Seq::empty() }
    }

    /// Code that hands out `labels` labels.
    pub open spec fn of(instrs: Seq<Instr>, labels: nat) -> Fragment {
        Fragment { program: Program { instrs, labels }, errors: Seq::empty() }
    }

    /// A fault in place of code.
    pub open spec fn fault(fault: Fault) -> Fragment {
        Fragment {
            program: Program { instrs: Seq::empty(), labels: 0 },
            errors: seq![fault],
        }
    }

    /// The fragment followed by further instructions.
    pub open spec fn with_code(self, instrs: Seq<Instr>) -> Fragment {
        Fragment { program: self.program.with_code(instrs), errors: self.errors }
    }

    /// The fragment followed by another one, whose labels are renumbered to follow those of the
    /// first. It is a fault if there are not enough labels.
    pub open spec fn followed_by(self, other: Fragment) -> Fragment {
        if self.program.labels + other.program.labels <= u32::MAX {
            Fragment {
                program: self.program.with_program(other.program),
                errors: self.errors + other.errors,
            }
        } else {
            Fragment {
                program: self.program,
                errors: (self.errors + other.errors).push(plain_fault(ErrorKind::TooManyLabels)),
            }
        }
    }
}

/// The mathematical form of a list of faults.
pub open spec fn faults(errors: Seq<CompileError>) -> Seq<Fault> {
    errors.map_values(|e: CompileError| e@)
}

/// A fragment of compiled code, and the faults met on the way.
pub struct Code {
    pub program: Asm,
    pub errors: Vec<CompileError>,
}

impl View for Code {
    type V = Fragment;

    open spec fn view(&self) -> Fragment {
        Fragment { program: self.program@, errors: faults(self.errors@) }
    }
}

impl Code {
    /// No code and no faults.
    pub fn new() -> (r: Code)
        ensures
            r@ == Fragment::empty(),
    {
        let r = Code { program: Asm::new(), errors: Vec::new() };
        assert(r@ =~= Fragment::empty());
        r
    }

    /// A fault in place of code.
    pub fn error(error: CompileError) -> (r: Code)
        ensures
            r@ == Fragment::fault(error@),
    {
        let mut errors: Vec<CompileError> = Vec::new();
        errors.push(error);
        let r = Code { program: Asm::new(), errors };
        assert(r@ =~= Fragment::fault(error@));
        r
    }

    /// A fault that is about nothing in particular, in place of code.
    pub fn fault(kind: ErrorKind) -> (r: Code)
        ensures
            r@ == Fragment::fault(plain_fault(kind)),
    {
        Code::error(CompileError::plain(kind))
    }

    /// Appends an instruction.
    pub fn add_op(&mut self, op: Op)
        ensures
            final(self)@ == old(self)@.with_code(seq![op@]),
    {
        self.program.add_op(op);
        assert(self@ =~= old(self)@.with_code(seq![op@]));
    }

    /// Appends the push of a number.
    pub fn push(&mut self, value: u64)
        ensures
            final(self)@ == old(self)@.with_code(seq![push_number(value as nat)]),
    {
        self.program.push_word(Word::from_u64(value));
        assert(self@ =~= old(self)@.with_code(seq![push_number(value as nat)]));
    }

    /// Appends a fragment. Its labels are renumbered to follow those of this one. It is a fault if
    /// there are not enough labels.
    pub fn append(&mut self, other: Code)
        ensures
            final(self)@ == old(self)@.followed_by(other@),
    {
        let fits = self.program.label_count() as u64 + other.program.label_count() as u64
            <= 0xFFFF_FFFF;
        let mut theirs = other.errors;
        self.errors.append(&mut theirs);
        if fits {
            self.program.append(other.program);
        } else {
            self.errors.push(CompileError::plain(ErrorKind::TooManyLabels));
        }
        assert(self@ =~= old(self)@.followed_by(other@));
    }
}

} // verus!
