//! Laws of compiled code: labels have at most one place each, and local variables are words above
//! the scratch space.

use vstd::prelude::*;
use vstd::utf8::encode_utf8;

use crate::abi::{signature, Parameter};
use crate::assembler::{moved_label, relocate_all, Instr, Op, Program};
use crate::ast::{BinOp, Expr, FieldValue, Stmt, Type};
use crate::builder::{
    array_elem_slot_code, array_elem_slot_from_stack_code, decode_short_string_constructor_arg_code,
    decode_short_string_param_code, mapping_slot_from_stack_code, push_number,
    return_short_string_code, return_word_code, revert_empty_code,
};
use crate::bytes::be_value;
use crate::code::Fragment;
use crate::effects::lemma_opcodes;
use crate::errors::{plain_fault, ErrorKind, Fault};
use crate::keccak::keccak256_digest;
use crate::layout::{all_genuine, genuine};
use crate::model::{depth, lemma_depth, Contract, Env, EventParameter, Scope};
use crate::names::{lemma_lookup_found, lookup};
use crate::scheme::{
    arguments_len, array_push, array_push_code, array_set, assignment, binary, bindings, block,
    branches_code, conditional, constructor_code, constructor_params, copy_argument_code,
    data_place, emission, event_values, expression, expression_statement, field_of,
    foreign_arguments, foreign_call_code, function_code, function_params, get_value, guard_code,
    head_offset, interface_call, interface_of, internal_call, lemma_literal_field, literal_field,
    log_code, loop_code, mapping_insert, operator_code, outer_env, packed, path_is, pattern_name,
    place, repetition, requirement, return_words_code, selector_code, self_path, slot_of, statement,
    statements, stores_code, string_count, string_result, value_statement, values, Lowered, Tail,
};

verus! {

/// Whether no label has two places.
#[verifier::opaque]
pub open spec fn unique_dests(instrs: Seq<Instr>) -> bool {
    forall|i: int, j: int|
        #![trigger instrs[i], instrs[j]]
        0 <= i < j < instrs.len() && instrs[i] is JumpDest ==> instrs[i] != instrs[j]
}

/// Whether the labels below `k` have no place.
pub open spec fn dests_from(instrs: Seq<Instr>, k: nat) -> bool {
    forall|i: int|
        #![trigger instrs[i]]
        0 <= i < instrs.len() ==> (instrs[i] matches Instr::JumpDest(label) ==> label >= k)
}

/// Whether the labels from `k` on have no place.
pub open spec fn dests_below(instrs: Seq<Instr>, k: nat) -> bool {
    forall|i: int|
        #![trigger instrs[i]]
        0 <= i < instrs.len() ==> (instrs[i] matches Instr::JumpDest(label) ==> label < k)
}

/// Whether every label with a place was handed out, and has a single place.
pub open spec fn tidy(p: Program) -> bool {
    &&& p.labels <= u32::MAX
    &&& dests_below(p.instrs, p.labels)
    &&& unique_dests(p.instrs)
    &&& all_genuine(p.instrs)
}

/// Whether an instruction names no label.
pub open spec fn unlabelled(instr: Instr) -> bool {
    instr !is Jump && instr !is JumpI && instr !is JumpDest && genuine(instr)
}

/// Whether code names no labels.
pub open spec fn label_free(code: Seq<Instr>) -> bool {
    forall|i: int| #![trigger code[i]] 0 <= i < code.len() ==> unlabelled(code[i])
}

/// Whether an offset is that of a word above the scratch space.
pub open spec fn is_cell(offset: nat) -> bool {
    offset >= 0x80 && offset % 0x20 == 0
}

/// Whether every local variable has a word of its own above the scratch space, and the next one
/// will have one.
pub open spec fn scope_ok(scope: Scope) -> bool {
    &&& is_cell(scope.next_local as nat)
    &&& cells_ok(scope.locals, scope.next_local)
}

/// Whether the names stand for words above the scratch space and below `end`, each behind those of
/// the names before it.
#[verifier::opaque]
pub open spec fn cells_ok(locals: Seq<(Seq<char>, u32)>, end: u32) -> bool {
    &&& forall|i: int|
        #![trigger locals[i]]
        0 <= i < locals.len() ==> is_cell(locals[i].1 as nat) && locals[i].1 + 0x20 <= end
    &&& forall|i: int, j: int|
        #![trigger locals[i], locals[j]]
        0 <= i < j < locals.len() ==> locals[i].1 + 0x20 <= locals[j].1
}

/// Whether code is tidy, and the scope that follows it is in order and takes up where the one
/// before it ended.
pub open spec fn sound(before: Scope, l: Lowered) -> bool {
    &&& tidy(l.code.program)
    &&& scope_ok(l.scope)
    &&& before.next_local <= l.scope.next_local
}

/// No names stand for anything.
proof fn lemma_no_cells(end: u32)
    ensures
        cells_ok(Seq::empty(), end),
{
    reveal(cells_ok);
}

/// Words below one that is reserved later.
proof fn lemma_cells_below(locals: Seq<(Seq<char>, u32)>, end: u32, later: u32)
    requires
        cells_ok(locals, end),
        end <= later,
    ensures
        cells_ok(locals, later),
{
    reveal(cells_ok);
}

/// One more name.
proof fn lemma_cells_push(locals: Seq<(Seq<char>, u32)>, end: u32, name: Seq<char>, cell: u32)
    requires
        cells_ok(locals, end),
        end <= cell,
        is_cell(cell as nat),
        cell + 0x20 <= u32::MAX,
    ensures
        cells_ok(locals.push((name, cell)), (cell + 0x20) as u32),
{
    reveal(cells_ok);
    let after = locals.push((name, cell));
    assert forall|i: int| #![trigger after[i]] 0 <= i < after.len() implies is_cell(
        after[i].1 as nat,
    ) && after[i].1 + 0x20 <= cell + 0x20 by {
        if i < locals.len() {
            assert(after[i] == locals[i]);
        }
    }
    assert forall|i: int, j: int|
        #![trigger after[i], after[j]]
        0 <= i < j < after.len() implies after[i].1 + 0x20 <= after[j].1 by {
        assert(after[i] == locals[i]);
        if j < locals.len() {
            assert(after[j] == locals[j]);
        }
    }
}

/// Names that are different stand for different words.
pub proof fn law_locals_apart(scope: Scope, a: Seq<char>, b: Seq<char>)
    requires
        scope_ok(scope),
        a != b,
    ensures
        lookup(scope.locals, a) is Some && lookup(scope.locals, b) is Some ==> lookup(
            scope.locals,
            a,
        ) != lookup(scope.locals, b),
{
    reveal(cells_ok);
    if lookup(scope.locals, a) is Some && lookup(scope.locals, b) is Some {
        let i = lemma_lookup_found(scope.locals, a);
        let j = lemma_lookup_found(scope.locals, b);
        if i < j {
            assert(scope.locals[i].1 + 0x20 <= scope.locals[j].1);
        } else {
            assert(scope.locals[j].1 + 0x20 <= scope.locals[i].1);
        }
    }
}

/// A name that is found is a word above the scratch space.
pub proof fn lemma_local_is_cell(scope: Scope, name: Seq<char>)
    requires
        scope_ok(scope),
    ensures
        lookup(scope.locals, name) matches Some(offset) ==> is_cell(offset as nat),
{
    if lookup(scope.locals, name) is Some {
        reveal(cells_ok);
        let i = lemma_lookup_found(scope.locals, name);
        assert(is_cell(scope.locals[i].1 as nat));
    }
}

/// The word of a name that is found lies below the next one.
pub proof fn lemma_local_below(scope: Scope, name: Seq<char>)
    requires
        scope_ok(scope),
    ensures
        lookup(scope.locals, name) matches Some(offset) ==> offset + 0x20 <= scope.next_local,
{
    if lookup(scope.locals, name) is Some {
        reveal(cells_ok);
        let i = lemma_lookup_found(scope.locals, name);
        assert(is_cell(scope.locals[i].1 as nat));
    }
}

/// Moving labels up by their own number keeps them apart from the old ones.
proof fn lemma_moved(label: u32, base: nat, labels: nat)
    requires
        label < labels,
        base + labels <= u32::MAX,
    ensures
        moved_label(label, base) == label + base,
{
}

/// A tidy program that is followed by a tidy program is tidy.
pub proof fn lemma_tidy_program(p: Program, q: Program)
    requires
        tidy(p),
        tidy(q),
        p.labels + q.labels <= u32::MAX,
    ensures
        tidy(p.with_program(q)),
        dests_from(relocate_all(q.instrs, p.labels), p.labels),
{
    reveal(unique_dests);
    let r = p.with_program(q);
    let moved = relocate_all(q.instrs, p.labels);
    let n = p.instrs.len();
    assert forall|i: int| #![trigger moved[i]] 0 <= i < moved.len() implies {
        &&& genuine(moved[i])
        &&& moved[i] matches Instr::JumpDest(label) ==> q.instrs[i] is JumpDest && label
            == q.instrs[i]->JumpDest_0 + p.labels && p.labels <= label < p.labels + q.labels
    } by {
        assert(genuine(q.instrs[i]));
        if let Instr::JumpDest(l) = q.instrs[i] {
            lemma_moved(l, p.labels, q.labels);
        }
    }
    assert forall|i: int| #![trigger r.instrs[i]] 0 <= i < r.instrs.len() implies genuine(
        r.instrs[i],
    ) && (r.instrs[i] matches Instr::JumpDest(label) ==> label < r.labels) by {
        if i < n {
            assert(r.instrs[i] == p.instrs[i]);
        } else {
            assert(r.instrs[i] == moved[i - n]);
        }
    }
    assert forall|i: int, j: int|
        #![trigger r.instrs[i], r.instrs[j]]
        0 <= i < j < r.instrs.len() && r.instrs[i] is JumpDest implies r.instrs[i]
        != r.instrs[j] by {
        if j < n {
            assert(r.instrs[i] == p.instrs[i] && r.instrs[j] == p.instrs[j]);
        } else if i < n {
            assert(r.instrs[i] == p.instrs[i] && r.instrs[j] == moved[j - n]);
        } else {
            assert(r.instrs[i] == moved[i - n] && r.instrs[j] == moved[j - n]);
            assert(q.instrs[i - n] is JumpDest);
            if r.instrs[i] == r.instrs[j] {
                assert(q.instrs[i - n] == q.instrs[j - n]);
            }
        }
    }
}

/// A tidy program that is followed by code without labels is tidy.
pub proof fn lemma_tidy_code(p: Program, code: Seq<Instr>)
    requires
        tidy(p),
        label_free(code),
    ensures
        tidy(p.with_code(code)),
{
    reveal(unique_dests);
    let r = p.with_code(code);
    let n = p.instrs.len();
    assert forall|i: int| #![trigger r.instrs[i]] 0 <= i < r.instrs.len() implies genuine(
        r.instrs[i],
    ) && (r.instrs[i] matches Instr::JumpDest(label) ==> label < r.labels) by {
        if i < n {
            assert(r.instrs[i] == p.instrs[i]);
        } else {
            assert(unlabelled(code[i - n]));
        }
    }
    assert forall|i: int, j: int|
        #![trigger r.instrs[i], r.instrs[j]]
        0 <= i < j < r.instrs.len() && r.instrs[i] is JumpDest implies r.instrs[i]
        != r.instrs[j] by {
        if i >= n {
            assert(unlabelled(code[i - n]));
        } else if j >= n {
            assert(unlabelled(code[j - n]));
        } else {
            assert(r.instrs[i] == p.instrs[i] && r.instrs[j] == p.instrs[j]);
        }
    }
}

/// A tidy program in which a label that was handed out is given its place is tidy.
pub proof fn lemma_tidy_dest(p: Program, label: u32)
    requires
        tidy(p),
        label < p.labels,
        forall|i: int|
            #![trigger p.instrs[i]]
            0 <= i < p.instrs.len() ==> p.instrs[i] != Instr::JumpDest(label),
    ensures
        tidy(p.with_code(seq![Instr::JumpDest(label)])),
{
    reveal(unique_dests);
    let code = seq![Instr::JumpDest(label)];
    let r = p.with_code(code);
    let n = p.instrs.len();
    assert forall|i: int| #![trigger r.instrs[i]] 0 <= i < r.instrs.len() implies genuine(
        r.instrs[i],
    ) && (r.instrs[i] matches Instr::JumpDest(l) ==> l < r.labels) by {
        if i < n {
            assert(r.instrs[i] == p.instrs[i]);
        }
    }
    assert forall|i: int, j: int|
        #![trigger r.instrs[i], r.instrs[j]]
        0 <= i < j < r.instrs.len() && r.instrs[i] is JumpDest implies r.instrs[i]
        != r.instrs[j] by {
        assert(r.instrs[i] == p.instrs[i]);
        if j < n {
            assert(r.instrs[j] == p.instrs[j]);
        }
    }
}

/// Two programs can be put together whether or not there are enough labels.
pub proof fn lemma_tidy_followed(f: Fragment, g: Fragment)
    requires
        tidy(f.program),
        tidy(g.program),
    ensures
        tidy(f.followed_by(g).program),
{
    if f.program.labels + g.program.labels <= u32::MAX {
        lemma_tidy_program(f.program, g.program);
    }
}

/// Code without labels is tidy.
pub proof fn lemma_tidy_of(code: Seq<Instr>)
    requires
        label_free(code),
    ensures
        tidy(Fragment::of(code, 0).program),
        tidy(Fragment::empty().program),
{
    reveal(unique_dests);
    let p = Fragment::empty().program;
    lemma_tidy_code(p, code);
    assert(p.with_code(code).instrs =~= code);
}

/// Code whose labels are given no place is tidy.
proof fn lemma_tidy_undefined(code: Seq<Instr>, labels: nat)
    requires
        labels <= u32::MAX,
        forall|i: int|
            #![trigger code[i]]
            0 <= i < code.len() ==> code[i] !is JumpDest && genuine(code[i]),
    ensures
        tidy(Fragment::of(code, labels).program),
        dests_from(code, labels),
{
    reveal(unique_dests);
}

/// The labels below `k` stay without a place.
proof fn lemma_dests_from(p: Program, q: Program, k: nat)
    requires
        tidy(p),
        tidy(q),
        p.labels + q.labels <= u32::MAX,
        k <= p.labels,
    ensures
        dests_from(p.instrs, k) ==> dests_from(p.with_program(q).instrs, k),
{
    lemma_tidy_program(p, q);
    let r = p.with_program(q);
    let moved = relocate_all(q.instrs, p.labels);
    let n = p.instrs.len();
    if dests_from(p.instrs, k) {
        assert forall|i: int| #![trigger r.instrs[i]] 0 <= i < r.instrs.len() implies (
        r.instrs[i] matches Instr::JumpDest(label) ==> label >= k) by {
            if i < n {
                assert(r.instrs[i] == p.instrs[i]);
            } else {
                assert(r.instrs[i] == moved[i - n]);
            }
        }
    }
}

/// The code around an `if` is tidy.
pub proof fn lemma_tidy_branches(body: Fragment, otherwise: Option<Fragment>)
    requires
        tidy(body.program),
        otherwise matches Some(other) ==> tidy(other.program),
    ensures
        tidy(branches_code(body, otherwise).program),
{
    lemma_opcodes();
    let test = seq![Op::IsZero@, Instr::JumpI(0)];
    match otherwise {
        None => {
            let start = Fragment::of(test, 1);
            lemma_tidy_undefined(test, 1);
            lemma_tidy_followed(start, body);
            let f = start.followed_by(body);
            if start.program.labels + body.program.labels <= u32::MAX {
                lemma_dests_from(start.program, body.program, 1);
            }
            lemma_tidy_dest(f.program, 0);
        },
        Some(other) => {
            let start = Fragment::of(test, 2);
            lemma_tidy_undefined(test, 2);
            lemma_tidy_followed(start, body);
            let f = start.followed_by(body);
            if start.program.labels + body.program.labels <= u32::MAX {
                lemma_dests_from(start.program, body.program, 2);
            }
            let skip = seq![Instr::Jump(1), Instr::JumpDest(0)];
            let g = f.with_code(skip);
            assert forall|i: int| #![trigger g.program.instrs[i]] 0 <= i
                < g.program.instrs.len() implies g.program.instrs[i] != Instr::JumpDest(1) by {
                if i < f.program.instrs.len() {
                    assert(g.program.instrs[i] == f.program.instrs[i]);
                }
            }
            let mid = f.program.with_code(seq![Instr::Jump(1)]);
            lemma_tidy_jump(f.program, Instr::Jump(1));
            assert forall|i: int| #![trigger mid.instrs[i]] 0 <= i < mid.instrs.len() implies
                mid.instrs[i] != Instr::JumpDest(0) by {
                if i < f.program.instrs.len() {
                    assert(mid.instrs[i] == f.program.instrs[i]);
                }
            }
            lemma_tidy_dest(mid, 0);
            assert(mid.with_code(seq![Instr::JumpDest(0)]).instrs =~= g.program.instrs);
            lemma_tidy_followed(g, other);
            let h = g.followed_by(other);
            assert forall|i: int| #![trigger h.program.instrs[i]] 0 <= i
                < h.program.instrs.len() implies h.program.instrs[i] != Instr::JumpDest(1) by {
                let n = g.program.instrs.len();
                if i < n {
                    assert(h.program.instrs[i] == g.program.instrs[i]);
                } else {
                    lemma_tidy_program(g.program, other.program);
                    let moved = relocate_all(other.program.instrs, g.program.labels);
                    assert(h.program.instrs[i] == moved[i - n]);
                }
            }
            lemma_tidy_dest(h.program, 1);
        },
    }
}

/// A jump does not place a label.
proof fn lemma_tidy_jump(p: Program, instr: Instr)
    requires
        tidy(p),
        instr is Jump || instr is JumpI,
    ensures
        tidy(p.with_code(seq![instr])),
{
    reveal(unique_dests);
    let r = p.with_code(seq![instr]);
    let n = p.instrs.len();
    assert forall|i: int| #![trigger r.instrs[i]] 0 <= i < r.instrs.len() implies genuine(
        r.instrs[i],
    ) && (r.instrs[i] matches Instr::JumpDest(label) ==> label < r.labels) by {
        if i < n {
            assert(r.instrs[i] == p.instrs[i]);
        }
    }
    assert forall|i: int, j: int|
        #![trigger r.instrs[i], r.instrs[j]]
        0 <= i < j < r.instrs.len() && r.instrs[i] is JumpDest implies r.instrs[i]
        != r.instrs[j] by {
        if j < n {
            assert(r.instrs[i] == p.instrs[i] && r.instrs[j] == p.instrs[j]);
        }
    }
}

/// The code of a loop is tidy.
pub proof fn lemma_tidy_loop(cond: Fragment, body: Fragment)
    requires
        tidy(cond.program),
        tidy(body.program),
    ensures
        tidy(loop_code(cond, body).program),
{
    lemma_opcodes();
    let blank = Fragment::of(Seq::empty(), 2);
    lemma_tidy_undefined(Seq::empty(), 2);
    lemma_tidy_dest(blank.program, 0);
    let start = Fragment::of(seq![Instr::JumpDest(0)], 2);
    assert(blank.program.with_code(seq![Instr::JumpDest(0)]).instrs =~= start.program.instrs);
    lemma_tidy_followed(start, cond);
    let f = start.followed_by(cond);
    let first = f.program.with_code(seq![Op::IsZero@]);
    lemma_tidy_code(f.program, seq![Op::IsZero@]);
    lemma_tidy_jump(first, Instr::JumpI(1));
    let g = f.with_code(seq![Op::IsZero@, Instr::JumpI(1)]);
    assert(first.with_code(seq![Instr::JumpI(1)]).instrs =~= g.program.instrs);
    lemma_tidy_followed(g, body);
    let h = g.followed_by(body);
    lemma_tidy_jump(h.program, Instr::Jump(0));
    let last = h.program.with_code(seq![Instr::Jump(0)]);
    let n = start.program.instrs.len();
    assert forall|i: int| #![trigger f.program.instrs[i]] 0 <= i
        < f.program.instrs.len() implies f.program.instrs[i] != Instr::JumpDest(1) by {
        if i < n {
            assert(f.program.instrs[i] == start.program.instrs[i]);
        } else {
            lemma_tidy_program(start.program, cond.program);
            let moved = relocate_all(cond.program.instrs, 2);
            assert(f.program.instrs[i] == moved[i - n]);
        }
    }
    assert forall|i: int| #![trigger h.program.instrs[i]] 0 <= i
        < h.program.instrs.len() implies h.program.instrs[i] != Instr::JumpDest(1) by {
        let k = g.program.instrs.len();
        if i < f.program.instrs.len() {
            assert(h.program.instrs[i] == f.program.instrs[i]);
        } else if i < k {
            assert(h.program.instrs[i] == g.program.instrs[i]);
        } else {
            lemma_tidy_program(g.program, body.program);
            let moved = relocate_all(body.program.instrs, g.program.labels);
            assert(h.program.instrs[i] == moved[i - k]);
        }
    }
    assert forall|i: int| #![trigger last.instrs[i]] 0 <= i < last.instrs.len() implies
        last.instrs[i] != Instr::JumpDest(1) by {
        if i < h.program.instrs.len() {
            assert(last.instrs[i] == h.program.instrs[i]);
        }
    }
    lemma_tidy_dest(last, 1);
    assert(last.with_code(seq![Instr::JumpDest(1)]).instrs =~= h.program.with_code(
        seq![Instr::Jump(0), Instr::JumpDest(1)],
    ).instrs);
}

/// Code with one label, jumped to and then placed, is tidy.
proof fn lemma_tidy_skip(before: Seq<Instr>, jump: Instr, between: Seq<Instr>, after: Seq<Instr>)
    requires
        label_free(before),
        jump is Jump || jump is JumpI,
        label_free(between),
        label_free(after),
    ensures
        tidy(
            Fragment::of(
                before + seq![jump] + between + seq![Instr::JumpDest(0)] + after,
                1,
            ).program,
        ),
{
    let p = Fragment::of(Seq::empty(), 1).program;
    lemma_tidy_undefined(Seq::empty(), 1);
    lemma_tidy_code(p, before);
    let a = p.with_code(before);
    lemma_tidy_jump(a, jump);
    let b = a.with_code(seq![jump]);
    lemma_tidy_code(b, between);
    let c = b.with_code(between);
    assert forall|i: int| #![trigger c.instrs[i]] 0 <= i < c.instrs.len() implies c.instrs[i]
        != Instr::JumpDest(0) by {
        let n = before.len();
        if i < n {
            assert(c.instrs[i] == before[i]);
        } else if i == n {
            assert(c.instrs[i] == jump);
        } else {
            assert(c.instrs[i] == between[i - n - 1]);
        }
    }
    lemma_tidy_dest(c, 0);
    let d = c.with_code(seq![Instr::JumpDest(0)]);
    lemma_tidy_code(d, after);
    assert(d.with_code(after).instrs =~= before + seq![jump] + between + seq![
        Instr::JumpDest(0),
    ] + after);
}

/// The guard is tidy.
pub proof fn lemma_tidy_guard()
    ensures
        tidy(guard_code().program),
{
    lemma_opcodes();
    lemma_tidy_skip(Seq::empty(), Instr::JumpI(0), revert_empty_code(), Seq::empty());
    assert(Seq::<Instr>::empty() + seq![Instr::JumpI(0)] + revert_empty_code() + seq![
        Instr::JumpDest(0),
    ] + Seq::<Instr>::empty() =~= guard_code().program.instrs);
}

/// The decoding of a string parameter is tidy.
pub proof fn lemma_tidy_decode_param(head: nat, slot: nat)
    ensures
        tidy(Fragment::of(decode_short_string_param_code(head, slot, 0), 1).program),
{
    lemma_opcodes();
    let code = decode_short_string_param_code(head, slot, 0);
    let before = code.subrange(0, 9);
    let between = code.subrange(10, 13);
    let after = code.subrange(14, 27);
    lemma_tidy_skip(before, Instr::JumpI(0), between, after);
    assert(before + seq![Instr::JumpI(0)] + between + seq![Instr::JumpDest(0)] + after =~= code);
}

/// The decoding of a string argument of a constructor is tidy.
pub proof fn lemma_tidy_decode_argument(len_back: nat, data_back: nat, slot: nat)
    ensures
        tidy(
            Fragment::of(
                decode_short_string_constructor_arg_code(len_back, data_back, slot, 0),
                1,
            ).program,
        ),
{
    lemma_opcodes();
    let code = decode_short_string_constructor_arg_code(len_back, data_back, slot, 0);
    let before = code.subrange(0, 17);
    let between = code.subrange(18, 21);
    let after = code.subrange(22, 32);
    lemma_tidy_skip(before, Instr::JumpI(0), between, after);
    assert(before + seq![Instr::JumpI(0)] + between + seq![Instr::JumpDest(0)] + after =~= code);
}

/// Stores name no labels.
pub proof fn lemma_stores_label_free(first: nat, k: nat)
    ensures
        label_free(stores_code(first, k)),
    decreases k,
{
    lemma_opcodes();
    if k > 0 {
        lemma_stores_label_free(first, (k - 1) as nat);
        let rest = stores_code(first, (k - 1) as nat);
        let code = stores_code(first, k);
        assert forall|i: int| #![trigger code[i]] 0 <= i < code.len() implies unlabelled(
            code[i],
        ) by {
            if i >= 2 {
                assert(code[i] == rest[i - 2]);
            }
        }
    }
}

/// Two pieces of code without labels.
pub proof fn lemma_label_free_concat(a: Seq<Instr>, b: Seq<Instr>)
    requires
        label_free(a),
        label_free(b),
    ensures
        label_free(a + b),
{
    assert forall|i: int| #![trigger (a + b)[i]] 0 <= i < (a + b).len() implies unlabelled(
        (a + b)[i],
    ) by {
        if i < a.len() {
            assert((a + b)[i] == a[i]);
        } else {
            assert((a + b)[i] == b[i - a.len()]);
        }
    }
}

/// The fixed pieces of code name no labels.
pub proof fn lemma_pieces_label_free()
    ensures
        label_free(mapping_slot_from_stack_code()),
        label_free(array_elem_slot_from_stack_code()),
        label_free(mapping_slot_from_stack_code().push(Op::SStore@)),
        label_free(return_word_code()),
        label_free(return_short_string_code()),
        label_free(seq![Op::SLoad@]),
        label_free(seq![Op::Pop@]),
        label_free(seq![Op::Stop@]),
        label_free(Seq::<Instr>::empty()),
{
    lemma_opcodes();
}

/// Pieces of code with a number name no labels.
pub proof fn lemma_number_pieces_label_free(n: nat)
    ensures
        label_free(seq![push_number(n)]),
        label_free(seq![push_number(n), Op::MStore@]),
        label_free(seq![push_number(n), Op::MLoad@]),
        label_free(seq![push_number(n), Op::SLoad@]),
        label_free(seq![push_number(n), Op::SStore@]),
        label_free(seq![push_number(n), Op::CallDataLoad@]),
        label_free(array_elem_slot_code(n).push(Op::SStore@)),
        label_free(array_push_code(n)),
{
    lemma_opcodes();
    lemma_label_free_concat(seq![push_number(n), Op::SLoad@], array_elem_slot_code(n));
    lemma_label_free_concat(
        seq![push_number(n), Op::SLoad@] + array_elem_slot_code(n),
        seq![
            Op::SStore@,
            push_number(n),
            Op::SLoad@,
            push_number(1),
            Op::Add@,
            push_number(n),
            Op::SStore@,
        ],
    );
}

/// The pieces of a call of another contract name no labels.
pub proof fn lemma_call_pieces_label_free(
    sig: Seq<char>,
    base: u32,
    nargs: nat,
    mutable: bool,
    want_value: bool,
)
    ensures
        label_free(selector_code(sig, base)),
        label_free(foreign_call_code(base, nargs, mutable, want_value)),
        label_free(seq![push_number(0), Op::MLoad@]),
{
    lemma_opcodes();
    let first = seq![
        push_number(if want_value { 0x20 } else { 0 }),
        push_number(0),
        push_number(4 + 32 * nargs),
        push_number((base + 28) as nat),
    ];
    let second = if mutable {
        seq![push_number(0), Instr::Dup(6), Op::Gas@, Op::Call@]
    } else {
        seq![Instr::Dup(5), Op::Gas@, Op::StaticCall@]
    };
    lemma_label_free_concat(first, second);
    lemma_label_free_concat(first + second, seq![Instr::Swap(1), Op::Pop@]);
}

/// A list of statements.
pub proof fn sound_statements(env: Env, stmts: Seq<Stmt>, k: nat, tail: Tail, scope: Scope)
    requires
        scope_ok(scope),
    ensures
        sound(scope, statements(env, stmts, k, tail, scope)),
    decreases depth(env), stmts, k, 0nat,
{
    lemma_tidy_of(Seq::empty());
    if !(k == 0 || k > stmts.len()) {
        sound_statements(env, stmts, (k - 1) as nat, tail, scope);
        let before = statements(env, stmts, (k - 1) as nat, tail, scope);
        let stmt_tail = if k == stmts.len() {
            tail
        } else {
            Tail::Void
        };
        sound_statement(env, stmts[k - 1], stmt_tail, before.scope);
        lemma_tidy_followed(
            before.code,
            statement(env, stmts[k - 1], stmt_tail, before.scope).code,
        );
    }
}

/// Compiled blocks are tidy: every label that has a place was handed out, and has a single place.
/// Local variables stay words above the scratch space.
pub proof fn law_block_sound(env: Env, stmts: Seq<Stmt>, tail: Tail, scope: Scope)
    requires
        scope_ok(scope),
    ensures
        sound(scope, block(env, stmts, tail, scope)),
    decreases depth(env), stmts, stmts.len(), 1nat,
{
    sound_statements(env, stmts, stmts.len(), tail, scope);
}

/// The scope after a word was reserved for a name.
pub proof fn lemma_scope_reserved(scope: Scope, name: Seq<char>)
    requires
        scope_ok(scope),
        scope.has_room(),
    ensures
        scope_ok(scope.reserved()),
        scope_ok(scope.reserved().with_local(name, scope.next_local)),
{
    let end = scope.next_local;
    lemma_cells_below(scope.locals, end, (end + 0x20) as u32);
    lemma_cells_push(scope.locals, end, name, end);
}

/// The scope after the memory for a call was reserved.
pub proof fn lemma_scope_reserved_for_call(scope: Scope, nargs: nat)
    requires
        scope_ok(scope),
        scope.has_room_for_call(nargs),
    ensures
        scope_ok(scope.reserved_for_call(nargs)),
{
    lemma_cells_below(
        scope.locals,
        scope.next_local,
        scope.reserved_for_call(nargs).next_local,
    );
}

/// A statement.
pub proof fn sound_statement(env: Env, stmt: Stmt, tail: Tail, scope: Scope)
    requires
        scope_ok(scope),
    ensures
        sound(scope, statement(env, stmt, tail, scope)),
    decreases depth(env), stmt, 0nat, 1nat,
{
    lemma_tidy_of(Seq::empty());
    match stmt {
        Stmt::Expr(e, semi) => {
            let t = if semi {
                Tail::Void
            } else {
                tail
            };
            sound_expression_statement(env, e, t, scope);
        },
        Stmt::Local(pat, init) => {
            if let Some(e) = init {
                sound_expression(env, e, scope);
                let value = expression(env, e, scope);
                let offset = value.scope.next_local;
                lemma_number_pieces_label_free(offset as nat);
                lemma_tidy_code(value.code.program, seq![push_number(offset as nat), Op::MStore@]);
                lemma_tidy_followed(
                    value.code,
                    Fragment::fault(
                        plain_fault(ErrorKind::TooManyLocals),
                    ),
                );
                if let Ok(name) = pattern_name(pat) {
                    if value.scope.has_room() {
                        lemma_scope_reserved(value.scope, name);
                    }
                }
            }
        },
        Stmt::Other => {},
    }
}

/// An expression that stands as a statement.
pub proof fn sound_expression_statement(env: Env, e: Expr, tail: Tail, scope: Scope)
    requires
        scope_ok(scope),
    ensures
        sound(scope, expression_statement(env, e, tail, scope)),
    decreases depth(env), e, 0nat, 9nat,
{
    match e {
        Expr::Assign(left, right) => sound_assignment(env, e, scope),
        Expr::MethodCall(receiver, method, args) => {
            if interface_of(env.contract, *receiver) is Some {
                if tail == Tail::Void {
                    sound_interface_call(env, e, false, scope);
                } else {
                    sound_value_statement(env, e, tail, scope);
                }
            } else if method@ == "insert"@ {
                sound_mapping_insert(env, e, scope);
            } else if method@ == "set"@ {
                sound_array_set(env, e, scope);
            } else if method@ == "push"@ {
                sound_array_push(env, e, scope);
            } else if tail == Tail::Void && self_path(*receiver) && lookup(
                env.contract.internal_functions,
                method@,
            ) is Some {
                sound_internal_call(env, e, false, scope);
            } else {
                sound_value_statement(env, e, tail, scope);
            }
        },
        Expr::Call(func, args) => {
            if path_is(*func, "require"@) {
                sound_requirement(env, e, scope);
            } else if path_is(*func, "emit"@) {
                sound_emission(env, e, scope);
            } else {
                sound_value_statement(env, e, tail, scope);
            }
        },
        Expr::If(cond, body, otherwise) => sound_conditional(env, e, scope),
        Expr::While(cond, body) => sound_repetition(env, e, scope),
        _ => sound_value_statement(env, e, tail, scope),
    }
}

/// The value that a block results in.
pub proof fn sound_value_statement(env: Env, e: Expr, tail: Tail, scope: Scope)
    requires
        scope_ok(scope),
    ensures
        sound(scope, value_statement(env, e, tail, scope)),
    decreases depth(env), e, 0nat, 8nat,
{
    lemma_tidy_of(Seq::empty());
    lemma_pieces_label_free();
    lemma_opcodes();
    match tail {
        Tail::Return => match e {
            Expr::Tuple(elems) => {
                let k = elems@.len();
                sound_values(env, elems@, k, scope);
                lemma_stores_label_free(0, k);
                lemma_label_free_concat(
                    stores_code(0, k),
                    seq![push_number(32 * k), push_number(0), Op::Return@],
                );
                lemma_tidy_code(
                    values(env, elems@, k, scope).code.program,
                    return_words_code(k),
                );
            },
            _ => {
                sound_expression(env, e, scope);
                let p = expression(env, e, scope).code.program;
                lemma_tidy_code(p, return_short_string_code());
                lemma_tidy_code(p, return_word_code());
            },
        },
        Tail::Leave => sound_expression(env, e, scope),
        Tail::Void => {},
    }
}

/// A list of expressions.
pub proof fn sound_values(env: Env, elems: Seq<Expr>, k: nat, scope: Scope)
    requires
        scope_ok(scope),
    ensures
        sound(scope, values(env, elems, k, scope)),
    decreases depth(env), elems, k, 0nat,
{
    lemma_tidy_of(Seq::empty());
    if !(k == 0 || k > elems.len()) {
        sound_values(env, elems, (k - 1) as nat, scope);
        let before = values(env, elems, (k - 1) as nat, scope);
        sound_expression(env, elems[k - 1], before.scope);
        lemma_tidy_followed(before.code, expression(env, elems[k - 1], before.scope).code);
    }
}

/// The arguments of an internal call.
pub proof fn sound_bindings(env: Env, params: Seq<Parameter>, args: Seq<Expr>, k: nat, scope: Scope)
    requires
        scope_ok(scope),
    ensures
        tidy(bindings(env, params, args, k, scope).code.program),
        scope_ok(bindings(env, params, args, k, scope).scope),
        cells_ok(
            bindings(env, params, args, k, scope).locals,
            bindings(env, params, args, k, scope).scope.next_local,
        ),
        scope.next_local <= bindings(env, params, args, k, scope).scope.next_local,
    decreases depth(env), args, k, 0nat,
{
    lemma_no_cells(scope.next_local);
    lemma_tidy_of(Seq::empty());
    if !(k == 0 || k > args.len()) {
        sound_bindings(env, params, args, (k - 1) as nat, scope);
        let before = bindings(env, params, args, (k - 1) as nat, scope);
        sound_expression(env, args[k - 1], before.scope);
        let value = expression(env, args[k - 1], before.scope);
        let offset = value.scope.next_local;
        let store = seq![push_number(offset as nat), Op::MStore@];
        lemma_number_pieces_label_free(offset as nat);
        lemma_tidy_code(value.code.program, store);
        lemma_tidy_followed(before.code, value.code.with_code(store));
        lemma_tidy_followed(before.code, value.code);
        lemma_tidy_followed(
            before.code.followed_by(value.code),
            Fragment::fault(plain_fault(ErrorKind::TooManyLocals)),
        );
        let end = before.scope.next_local;
        lemma_cells_below(before.locals, end, offset);
        if value.scope.has_room() {
            lemma_scope_reserved(value.scope, params[k - 1].name);
            lemma_cells_push(before.locals, end, params[k - 1].name, offset);
        }
    }
}

/// A call of an internal function.
pub proof fn sound_internal_call(env: Env, e: Expr, want_value: bool, scope: Scope)
    requires
        scope_ok(scope),
    ensures
        sound(scope, internal_call(env, e, want_value, scope)),
    decreases depth(env), e, 0nat, 4nat,
{
    lemma_tidy_of(Seq::empty());
    lemma_pieces_label_free();
    if let Expr::MethodCall(_, method, args) = e {
        if let Some(callee) = lookup(env.contract.internal_functions, method@) {
            if !env.stack.contains(method@) && args@.len() == callee.params.len() {
                sound_bindings(env, callee.params, args@, args@.len(), scope);
                let bound = bindings(env, callee.params, args@, args@.len(), scope);
                let inner = Scope {
                    locals: bound.locals,
                    params: Seq::empty(),
                    next_local: bound.scope.next_local,
                };
                let tail = if callee.output is Some {
                    Tail::Leave
                } else {
                    Tail::Void
                };
                lemma_depth(env, method@);
                law_block_sound(env.within(method@), callee.block, tail, inner);
                let body = block(env.within(method@), callee.block, tail, inner);
                lemma_cells_below(
                    bound.scope.locals,
                    bound.scope.next_local,
                    body.scope.next_local,
                );
                lemma_tidy_followed(bound.code, body.code);
                let p = bound.code.followed_by(body.code).program;
                lemma_tidy_code(p, seq![Op::Pop@]);
                lemma_tidy_code(p, Seq::empty());
            }
        }
    }
}

/// An assignment.
pub proof fn sound_assignment(env: Env, e: Expr, scope: Scope)
    requires
        scope_ok(scope),
    ensures
        sound(scope, assignment(env, e, scope)),
    decreases depth(env), e, 0nat, 8nat,
{
    lemma_tidy_of(Seq::empty());
    if let Expr::Assign(left, right) = e {
        sound_expression(env, *right, scope);
        let p = expression(env, *right, scope).code.program;
        match *left {
            Expr::Field(base, member) => {
                if let Ok(slot) = slot_of(env.contract, member) {
                    lemma_number_pieces_label_free(slot as nat);
                    lemma_tidy_code(p, seq![push_number(slot as nat), Op::SStore@]);
                }
            },
            Expr::Ident(name) => {
                if let Some(offset) = lookup(scope.locals, name@) {
                    lemma_number_pieces_label_free(offset as nat);
                    lemma_tidy_code(p, seq![push_number(offset as nat), Op::MStore@]);
                }
            },
            _ => {},
        }
    }
}

/// `insert`.
pub proof fn sound_mapping_insert(env: Env, e: Expr, scope: Scope)
    requires
        scope_ok(scope),
    ensures
        sound(scope, mapping_insert(env, e, scope)),
    decreases depth(env), e, 0nat, 8nat,
{
    lemma_tidy_of(Seq::empty());
    lemma_pieces_label_free();
    if let Expr::MethodCall(receiver, _, args) = e {
        if args@.len() == 2 {
            sound_place(env, *receiver, scope);
            let base = place(env, *receiver, scope);
            if let Ok((base_code, ty)) = base.place {
                sound_expression(env, args@[1], base.scope);
                let value = expression(env, args@[1], base.scope);
                sound_expression(env, args@[0], value.scope);
                let key = expression(env, args@[0], value.scope);
                lemma_tidy_followed(value.code, base_code);
                lemma_tidy_followed(value.code.followed_by(base_code), key.code);
                lemma_tidy_code(
                    value.code.followed_by(base_code).followed_by(key.code).program,
                    mapping_slot_from_stack_code().push(Op::SStore@),
                );
            }
        }
    }
}

/// `set`.
pub proof fn sound_array_set(env: Env, e: Expr, scope: Scope)
    requires
        scope_ok(scope),
    ensures
        sound(scope, array_set(env, e, scope)),
    decreases depth(env), e, 0nat, 8nat,
{
    lemma_tidy_of(Seq::empty());
    if let Expr::MethodCall(receiver, _, args) = e {
        if let Ok(field) = field_of(env.contract, *receiver) {
            if args@.len() == 2 {
                sound_expression(env, args@[1], scope);
                let value = expression(env, args@[1], scope);
                sound_expression(env, args@[0], value.scope);
                let index = expression(env, args@[0], value.scope);
                lemma_tidy_followed(value.code, index.code);
                lemma_number_pieces_label_free(field.slot as nat);
                lemma_tidy_code(
                    value.code.followed_by(index.code).program,
                    array_elem_slot_code(field.slot as nat).push(Op::SStore@),
                );
            }
        }
    }
}

/// `push`.
pub proof fn sound_array_push(env: Env, e: Expr, scope: Scope)
    requires
        scope_ok(scope),
    ensures
        sound(scope, array_push(env, e, scope)),
    decreases depth(env), e, 0nat, 8nat,
{
    lemma_tidy_of(Seq::empty());
    if let Expr::MethodCall(receiver, _, args) = e {
        if let Ok(field) = field_of(env.contract, *receiver) {
            if args@.len() == 1 {
                sound_expression(env, args@[0], scope);
                lemma_number_pieces_label_free(field.slot as nat);
                lemma_tidy_code(
                    expression(env, args@[0], scope).code.program,
                    array_push_code(field.slot as nat),
                );
            }
        }
    }
}

/// `require`.
pub proof fn sound_requirement(env: Env, e: Expr, scope: Scope)
    requires
        scope_ok(scope),
    ensures
        sound(scope, requirement(env, e, scope)),
    decreases depth(env), e, 0nat, 8nat,
{
    lemma_tidy_of(Seq::empty());
    if let Expr::Call(_, args) = e {
        if args@.len() > 0 {
            sound_expression(env, args@[0], scope);
            lemma_tidy_guard();
            lemma_tidy_followed(expression(env, args@[0], scope).code, guard_code());
        }
    }
}

/// The values of the fields of an event.
pub proof fn sound_event_values(
    env: Env,
    literal: Seq<FieldValue>,
    fields: Seq<EventParameter>,
    k: nat,
    scope: Scope,
)
    requires
        scope_ok(scope),
    ensures
        sound(scope, event_values(env, literal, fields, k, scope)),
    decreases depth(env), literal, k, 0nat,
{
    lemma_tidy_of(Seq::empty());
    if k > 0 {
        sound_event_values(env, literal, fields, (k - 1) as nat, scope);
        let before = event_values(env, literal, fields, (k - 1) as nat, scope);
        let name = fields[k - 1].name;
        lemma_literal_field(literal, name, literal.len());
        match literal_field(literal, name, literal.len()) {
            None => {
                lemma_tidy_followed(
                    before.code,
                    Fragment::fault(
                        Fault {
                            kind: ErrorKind::MissingEventField,
                            subject: name,
                        },
                    ),
                );
            },
            Some(i) => {
                sound_expression(env, literal[i as int].value, before.scope);
                lemma_tidy_followed(
                    before.code,
                    expression(env, literal[i as int].value, before.scope).code,
                );
            },
        }
    }
}

/// `emit`.
pub proof fn sound_emission(env: Env, e: Expr, scope: Scope)
    requires
        scope_ok(scope),
    ensures
        sound(scope, emission(env, e, scope)),
    decreases depth(env), e, 0nat, 8nat,
{
    lemma_tidy_of(Seq::empty());
    lemma_opcodes();
    if let Expr::Call(_, args) = e {
        if args@.len() > 0 {
            if let Expr::Struct(name, literal) = args@[0] {
                if let Some(event) = lookup(env.contract.events, name@) {
                    let k = event.fields.len();
                    sound_event_values(env, literal@, event.fields, k, scope);
                    let fields = event_values(env, literal@, event.fields, k, scope);
                    match signature(event.name, event.params()) {
                        Err(fault) => lemma_tidy_followed(fields.code, Fragment::fault(fault)),
                        Ok(sig) => {
                            let first = data_place(fields.scope, k);
                            lemma_stores_label_free(first, k);
                            lemma_label_free_concat(
                                stores_code(first, k),
                                seq![
                                    Instr::Push(
                                        keccak256_digest(
                                            encode_utf8(sig),
                                        ),
                                    ),
                                    push_number(32 * k),
                                    push_number(first),
                                    Instr::Log(1),
                                ],
                            );
                            lemma_tidy_code(fields.code.program, log_code(sig, first, k));
                            lemma_tidy_followed(
                                fields.code,
                                Fragment::fault(plain_fault(ErrorKind::TooManyLocals)),
                            );
                        },
                    }
                }
            }
        }
    }
}

/// `if`.
pub proof fn sound_conditional(env: Env, e: Expr, scope: Scope)
    requires
        scope_ok(scope),
    ensures
        sound(scope, conditional(env, e, scope)),
    decreases depth(env), e, 0nat, 8nat,
{
    lemma_tidy_of(Seq::empty());
    if let Expr::If(cond, body, otherwise) = e {
        sound_expression(env, *cond, scope);
        let test = expression(env, *cond, scope);
        law_block_sound(env, body@, Tail::Void, test.scope);
        let yes = block(env, body@, Tail::Void, test.scope);
        match otherwise {
            None => {
                lemma_tidy_branches(yes.code, None);
                lemma_tidy_followed(test.code, branches_code(yes.code, None));
            },
            Some(other) => {
                match *other {
                    Expr::Block(stmts) => law_block_sound(env, stmts@, Tail::Void, yes.scope),
                    Expr::If(_, _, _) => sound_conditional(env, *other, yes.scope),
                    _ => {},
                }
                let no = match *other {
                    Expr::Block(stmts) => block(env, stmts@, Tail::Void, yes.scope),
                    Expr::If(_, _, _) => conditional(env, *other, yes.scope),
                    _ => Lowered::fault(
                        ErrorKind::UnsupportedStatement,
                        yes.scope,
                    ),
                };
                lemma_tidy_branches(yes.code, Some(no.code));
                lemma_tidy_followed(test.code, branches_code(yes.code, Some(no.code)));
            },
        }
    }
}

/// `while`.
pub proof fn sound_repetition(env: Env, e: Expr, scope: Scope)
    requires
        scope_ok(scope),
    ensures
        sound(scope, repetition(env, e, scope)),
    decreases depth(env), e, 0nat, 8nat,
{
    lemma_tidy_of(Seq::empty());
    if let Expr::While(cond, body) = e {
        sound_expression(env, *cond, scope);
        let test = expression(env, *cond, scope);
        law_block_sound(env, body@, Tail::Void, test.scope);
        let inner = block(env, body@, Tail::Void, test.scope);
        lemma_tidy_loop(test.code, inner.code);
    }
}

/// Compiled expressions are tidy, too.
pub proof fn law_expression_sound(env: Env, e: Expr, scope: Scope)
    requires
        scope_ok(scope),
    ensures
        sound(scope, expression(env, e, scope)),
{
    sound_expression(env, e, scope);
}

/// An expression.
pub proof fn sound_expression(env: Env, e: Expr, scope: Scope)
    requires
        scope_ok(scope),
    ensures
        sound(scope, expression(env, e, scope)),
    decreases depth(env), e, 0nat, 5nat,
{
    lemma_tidy_of(Seq::empty());
    lemma_opcodes();
    match e {
        Expr::Int(value) => {
            if let Some(v) = value {
                lemma_number_pieces_label_free(v as nat);
                lemma_tidy_of(seq![push_number(v as nat)]);
            }
        },
        Expr::Bool(b) => {
            let v: nat = if b {
                1
            } else {
                0
            };
            lemma_number_pieces_label_free(v);
            lemma_tidy_of(seq![push_number(v)]);
        },
        Expr::Str(text) => {
            let v = be_value(packed(encode_utf8(text@)));
            lemma_number_pieces_label_free(v);
            lemma_tidy_of(seq![push_number(v)]);
        },
        Expr::Field(base, member) => {
            if let Ok(slot) = slot_of(env.contract, member) {
                lemma_number_pieces_label_free(slot as nat);
                lemma_tidy_of(seq![push_number(slot as nat), Op::SLoad@]);
            }
        },
        Expr::MethodCall(receiver, method, args) => {
            if interface_of(env.contract, *receiver) is Some {
                sound_interface_call(env, e, true, scope);
            } else if self_path(*receiver) && lookup(
                env.contract.internal_functions,
                method@,
            ) is Some {
                sound_internal_call(env, e, true, scope);
            } else if method@ == "get"@ {
                sound_get_value(env, e, scope);
            } else if method@ == "len"@ {
                if let Ok(field) = field_of(env.contract, *receiver) {
                    lemma_number_pieces_label_free(field.slot as nat);
                    lemma_tidy_of(seq![push_number(field.slot as nat), Op::SLoad@]);
                }
            }
        },
        Expr::Binary(op, left, right) => sound_binary(env, e, scope),
        Expr::Paren(inner) => sound_expression(env, *inner, scope),
        Expr::Call(func, args) => {
            lemma_tidy_of(seq![Op::Caller@]);
            lemma_tidy_of(seq![Op::Address@]);
            lemma_tidy_of(seq![Op::Timestamp@]);
            if args@.len() == 1 && args@[0] is Int {
                if let Some(v) = args@[0]->Int_0 {
                    lemma_number_pieces_label_free(v as nat);
                    lemma_tidy_of(seq![push_number(v as nat)]);
                }
            }
        },
        Expr::Ident(name) => {
            if let Some(offset) = lookup(scope.locals, name@) {
                lemma_number_pieces_label_free(offset as nat);
                lemma_tidy_of(seq![push_number(offset as nat), Op::MLoad@]);
            }
            if let Some(offset) = lookup(scope.params, name@) {
                lemma_number_pieces_label_free(offset as nat);
                lemma_tidy_of(seq![push_number(offset as nat), Op::CallDataLoad@]);
            }
        },
        _ => {},
    }
}

/// `get`.
pub proof fn sound_get_value(env: Env, e: Expr, scope: Scope)
    requires
        scope_ok(scope),
    ensures
        sound(scope, get_value(env, e, scope)),
    decreases depth(env), e, 0nat, 4nat,
{
    lemma_tidy_of(Seq::empty());
    sound_place(env, e, scope);
    if let Ok((code, ty)) = place(env, e, scope).place {
        lemma_pieces_label_free();
        lemma_tidy_code(code.program, seq![Op::SLoad@]);
    }
}

/// `left op right`.
pub proof fn sound_binary(env: Env, e: Expr, scope: Scope)
    requires
        scope_ok(scope),
    ensures
        sound(scope, binary(env, e, scope)),
    decreases depth(env), e, 0nat, 4nat,
{
    lemma_tidy_of(Seq::empty());
    if let Expr::Binary(op, left, right) = e {
        sound_expression(env, *left, scope);
        let l = expression(env, *left, scope);
        sound_expression(env, *right, l.scope);
        let r = expression(env, *right, l.scope);
        lemma_tidy_operator(op, l.code, r.code);
    }
}

/// An operator with tidy operands is tidy.
proof fn lemma_tidy_operator(op: BinOp, l: Fragment, r: Fragment)
    requires
        tidy(l.program),
        tidy(r.program),
    ensures
        tidy(operator_code(op, l, r).program),
{
    lemma_opcodes();
    lemma_tidy_of(Seq::empty());
    lemma_tidy_followed(l, r);
    lemma_tidy_followed(r, l);
    let both = l.followed_by(r).program;
    let swapped = r.followed_by(l).program;
    lemma_tidy_code(both, seq![Op::Add@]);
    lemma_tidy_code(both, seq![Op::Mul@]);
    lemma_tidy_code(swapped, seq![Op::Sub@]);
    lemma_tidy_code(swapped, seq![Op::Div@]);
    lemma_tidy_code(swapped, seq![Op::Mod@]);
    lemma_tidy_code(both, seq![Op::Shl@]);
    lemma_tidy_code(both, seq![Op::Gt@]);
    lemma_tidy_code(both, seq![Op::Lt@]);
    lemma_tidy_code(both, seq![Op::Eq@]);
    lemma_tidy_code(both, seq![Op::Eq@, Op::IsZero@]);
    lemma_tidy_code(both, seq![Op::Lt@, Op::IsZero@]);
    lemma_tidy_code(both, seq![Op::Gt@, Op::IsZero@]);
}

/// A place in storage.
pub proof fn sound_place(env: Env, e: Expr, scope: Scope)
    requires
        scope_ok(scope),
    ensures
        place(env, e, scope).place matches Ok((code, _)) ==> tidy(code.program),
        scope_ok(place(env, e, scope).scope),
        scope.next_local <= place(env, e, scope).scope.next_local,
    decreases depth(env), e, 0nat, 3nat,
{
    match e {
        Expr::Field(base, member) => {
            if let Ok(slot) = slot_of(env.contract, member) {
                lemma_number_pieces_label_free(slot as nat);
                lemma_tidy_of(seq![push_number(slot as nat)]);
            }
        },
        Expr::MethodCall(receiver, method, args) => {
            if method@ == "get"@ && args@.len() == 1 {
                sound_place(env, *receiver, scope);
                let base = place(env, *receiver, scope);
                if let Ok((base_code, ty)) = base.place {
                    sound_expression(env, args@[0], base.scope);
                    let key = expression(env, args@[0], base.scope);
                    lemma_tidy_followed(base_code, key.code);
                    let both = base_code.followed_by(key.code).program;
                    lemma_pieces_label_free();
                    lemma_tidy_code(both, mapping_slot_from_stack_code());
                    lemma_tidy_code(both, array_elem_slot_from_stack_code());
                }
            }
        },
        _ => {},
    }
}

/// The arguments of a call of another contract.
pub proof fn sound_foreign_arguments(env: Env, args: Seq<Expr>, k: nat, base: u32, scope: Scope)
    requires
        scope_ok(scope),
    ensures
        sound(scope, foreign_arguments(env, args, k, base, scope)),
    decreases depth(env), args, k, 0nat,
{
    lemma_tidy_of(Seq::empty());
    if !(k == 0 || k > args.len()) {
        sound_foreign_arguments(env, args, (k - 1) as nat, base, scope);
        let before = foreign_arguments(env, args, (k - 1) as nat, base, scope);
        sound_expression(env, args[k - 1], before.scope);
        let last = expression(env, args[k - 1], before.scope);
        let store = seq![push_number((base + 32 * k) as nat), Op::MStore@];
        lemma_number_pieces_label_free((base + 32 * k) as nat);
        lemma_tidy_code(last.code.program, store);
        lemma_tidy_followed(before.code, last.code.with_code(store));
    }
}

/// A call of another contract.
pub proof fn sound_interface_call(env: Env, e: Expr, want_value: bool, scope: Scope)
    requires
        scope_ok(scope),
    ensures
        sound(scope, interface_call(env, e, want_value, scope)),
    decreases depth(env), e, 0nat, 4nat,
{
    lemma_tidy_of(Seq::empty());
    if let Expr::MethodCall(receiver, method, args) = e {
        if let Some(methods) = interface_of(env.contract, *receiver) {
            if let Expr::Call(_, targets) = *receiver {
                if let Some(callee) = lookup(methods, method@) {
                    if targets@.len() == 1 {
                        sound_expression(env, targets@[0], scope);
                        let target = expression(env, targets@[0], scope);
                        let n = args@.len();
                        if target.scope.has_room_for_call(n) {
                            let base = target.scope.next_local;
                            let after = target.scope.reserved_for_call(n);
                            lemma_scope_reserved_for_call(target.scope, n);
                            sound_foreign_arguments(env, args@, n, base, after);
                            let bound = foreign_arguments(env, args@, n, base, after);
                            lemma_call_pieces_label_free(
                                callee.sig,
                                base,
                                n,
                                callee.mutable,
                                want_value,
                            );
                            let a = target.code.with_code(selector_code(callee.sig, base));
                            lemma_tidy_code(target.code.program, selector_code(callee.sig, base));
                            lemma_tidy_followed(a, bound.code);
                            let b = a.followed_by(bound.code);
                            let call = foreign_call_code(base, n, callee.mutable, want_value);
                            lemma_tidy_code(b.program, call);
                            lemma_tidy_guard();
                            let c = b.with_code(call);
                            lemma_tidy_followed(c, guard_code());
                            let d = c.followed_by(guard_code());
                            lemma_tidy_code(d.program, seq![push_number(0), Op::MLoad@]);
                            lemma_tidy_code(d.program, Seq::empty());
                        }
                    }
                }
            }
        }
    }
}

/// The parameters of a function.
pub proof fn sound_function_params(params: Seq<Parameter>, k: nat, scope: Scope)
    requires
        scope_ok(scope),
    ensures
        sound(scope, function_params(params, k, scope)),
    decreases k,
{
    lemma_tidy_of(Seq::empty());
    if k > 0 {
        sound_function_params(params, (k - 1) as nat, scope);
        let before = function_params(params, (k - 1) as nat, scope);
        let head = head_offset((k - 1) as nat);
        let slot = before.scope.next_local as nat;
        lemma_tidy_decode_param(head, slot);
        lemma_tidy_followed(
            before.code,
            Fragment::of(decode_short_string_param_code(head, slot, 0), 1),
        );
        lemma_tidy_followed(
            before.code,
            Fragment::fault(plain_fault(ErrorKind::TooManyLocals)),
        );
        if before.scope.has_room() {
            lemma_scope_reserved(before.scope, params[k - 1].name);
        }
    }
}

/// The start of every scope is in order.
pub proof fn lemma_initial_scope()
    ensures
        scope_ok(Scope::initial()),
{
    lemma_no_cells(0x80);
}

/// Compiled functions are tidy: every label that has a place was handed out, and has a single
/// place.
pub proof fn law_function_tidy(
    contract: Contract,
    params: Seq<Parameter>,
    output: Option<Type>,
    stmts: Seq<Stmt>,
)
    ensures
        tidy(function_code(contract, params, output, stmts).program),
        sound(Scope::initial(), function_params(params, params.len(), Scope::initial())),
{
    lemma_tidy_of(Seq::empty());
    lemma_pieces_label_free();
    lemma_initial_scope();
    sound_function_params(params, params.len(), Scope::initial());
    let env = outer_env(contract, string_result(output));
    let start = function_params(params, params.len(), Scope::initial());
    law_block_sound(env, stmts, Tail::Return, start.scope);
    law_block_sound(env, stmts, Tail::Void, start.scope);
    let returning = block(env, stmts, Tail::Return, start.scope);
    let plain = block(env, stmts, Tail::Void, start.scope);
    lemma_tidy_followed(start.code, returning.code);
    lemma_tidy_followed(start.code, plain.code);
    lemma_tidy_code(start.code.followed_by(plain.code).program, seq![Op::Stop@]);
}

/// The arguments of a constructor.
pub proof fn sound_constructor_params(params: Seq<Parameter>, k: nat, scope: Scope)
    requires
        scope_ok(scope),
    ensures
        sound(scope, constructor_params(params, k, scope)),
    decreases k,
{
    lemma_tidy_of(Seq::empty());
    if k > 0 {
        sound_constructor_params(params, (k - 1) as nat, scope);
        let before = constructor_params(params, (k - 1) as nat, scope);
        let slot = before.scope.next_local as nat;
        let left = string_count(params, params.len()) - string_count(
            params,
            (k - 1) as nat,
        );
        let len_back = (64 * left) as nat;
        let data_back = (64 * left - 32) as nat;
        lemma_tidy_decode_argument(len_back, data_back, slot);
        lemma_tidy_followed(
            before.code,
            Fragment::of(
                decode_short_string_constructor_arg_code(len_back, data_back, slot, 0),
                1,
            ),
        );
        let back = (arguments_len(params) - 32 * (k - 1)) as nat;
        lemma_opcodes();
        lemma_tidy_code(before.code.program, copy_argument_code(back, slot));
        lemma_tidy_followed(
            before.code,
            Fragment::fault(plain_fault(ErrorKind::TooManyLocals)),
        );
        if before.scope.has_room() {
            lemma_scope_reserved(before.scope, params[k - 1].name);
        }
    }
}

/// Compiled constructors are tidy.
pub proof fn law_constructor_tidy(
    contract: Contract,
    params: Seq<Parameter>,
    stmts: Seq<Stmt>,
)
    ensures
        tidy(constructor_code(contract, params, stmts).program),
        sound(Scope::initial(), constructor_params(params, params.len(), Scope::initial())),
{
    lemma_tidy_of(Seq::empty());
    lemma_initial_scope();
    sound_constructor_params(params, params.len(), Scope::initial());
    let start = constructor_params(params, params.len(), Scope::initial());
    let env = outer_env(contract, false);
    law_block_sound(env, stmts, Tail::Void, start.scope);
    lemma_tidy_followed(start.code, block(env, stmts, Tail::Void, start.scope).code);
}

} // verus!
