use vstd::prelude::*;
use crate::counter::{Counter, next_id};
use crate::instructions::{Ins, Instr, Reg, emit, emit_all, rsp_balanced, views};
use crate::text::{label_spec, label_with_id};

verus! {

/// The ordered comparisons and equality.
#[derive(Debug, Clone, Copy, PartialEq, Eq, Structural)]
pub enum CmpOp {
    Equal,
    Greater,
    GreaterEqual,
    Less,
    LessEqual,
}

/// The two type tests.
#[derive(Debug, Clone, Copy, PartialEq, Eq, Structural)]
pub enum TypeOp {
    Bool,
    Num,
}

/// Code that exits with error 2 unless `rax` holds a number.
pub open spec fn number_guard(ok: Seq<char>) -> Seq<Ins> {
    seq![Ins::Test(Reg::Rax, 1), Ins::Je(ok), Ins::CallRustError(2), Ins::Label(ok)]
}

/// Code that exits with error 1 when the last arithmetic overflowed.
pub open spec fn overflow_guard(ok: Seq<char>) -> Seq<Ins> {
    seq![Ins::Jno(ok), Ins::CallRustError(1), Ins::Label(ok)]
}

/// Code that exits with error 2 unless both `rax` and the stack word at
/// `offset` are numbers; `rax` is kept.
pub open spec fn both_numbers_guard(offset: i32, ok: Seq<char>) -> Seq<Ins> {
    seq![
        Ins::MovFromReg(Reg::R11, Reg::Rax),
        Ins::MovFromStack(Reg::R8, offset),
        Ins::Or(Reg::Rax, Reg::R8),
        Ins::Test(Reg::Rax, 1),
        Ins::Je(ok),
        Ins::CallRustError(2),
        Ins::Label(ok),
        Ins::MovFromReg(Reg::Rax, Reg::R11),
    ]
}

/// Code that exits with error 2 unless `rax` and the stack word at `offset`
/// carry the same tag; `rax` is kept.
pub open spec fn same_tag_guard(offset: i32, ok: Seq<char>) -> Seq<Ins> {
    seq![
        Ins::MovFromReg(Reg::R11, Reg::Rax),
        Ins::MovFromStack(Reg::R8, offset),
        Ins::Xor(Reg::Rax, Reg::R8),
        Ins::Test(Reg::Rax, 1),
        Ins::Je(ok),
        Ins::CallRustError(2),
        Ins::Label(ok),
        Ins::MovFromReg(Reg::Rax, Reg::R11),
    ]
}

/// Code that replaces `rax` by the boolean answer of a type test.
pub open spec fn istype_code(op: TypeOp) -> Seq<Ins> {
    seq![
        Ins::Test(Reg::Rax, 1),
        Ins::Mov(Reg::Rax, 1),
        Ins::Mov(Reg::R10, 3),
        match op {
            TypeOp::Bool => Ins::Cmovne(Reg::Rax, Reg::R10),
            TypeOp::Num => Ins::Cmove(Reg::Rax, Reg::R10),
        },
    ]
}

/// The conditional move that picks `true` for a comparison.
pub open spec fn cmov_for(op: CmpOp) -> Ins {
    match op {
        CmpOp::Equal => Ins::Cmove(Reg::Rax, Reg::R10),
        CmpOp::Greater => Ins::Cmovg(Reg::Rax, Reg::R10),
        CmpOp::GreaterEqual => Ins::Cmovge(Reg::Rax, Reg::R10),
        CmpOp::Less => Ins::Cmovl(Reg::Rax, Reg::R10),
        CmpOp::LessEqual => Ins::Cmovle(Reg::Rax, Reg::R10),
    }
}

/// The guard that a comparison needs: same tag for equality, two numbers
/// for the ordered ones.
pub open spec fn compare_guard(op: CmpOp, offset: i32, ok: Seq<char>) -> Seq<Ins> {
    match op {
        CmpOp::Equal => same_tag_guard(offset, ok),
        _ => both_numbers_guard(offset, ok),
    }
}

/// The prefix of the label of a comparison's guard.
pub open spec fn compare_label(op: CmpOp) -> Seq<char> {
    match op {
        CmpOp::Equal => "equal_ok"@,
        _ => "bool_ok"@,
    }
}

/// The code of a comparison: `e2`, spilled one slot above `stack_offset`,
/// then `e1`, the guard, and the tagged boolean result in `rax`.
pub open spec fn compare_code(e1: Seq<Ins>, e2: Seq<Ins>, stack_offset: i32, op: CmpOp, ok: Seq<char>) -> Seq<Ins> {
    e2 + seq![Ins::MovToStack(Reg::Rax, (stack_offset + 8) as i32)] + e1
        + compare_guard(op, (stack_offset + 8) as i32, ok) + seq![
        Ins::CompareWithMemory(Reg::Rax, (stack_offset + 8) as i32),
        Ins::Mov(Reg::Rax, 1),
        Ins::Mov(Reg::R10, 3),
        cmov_for(op),
    ]
}

fn fresh_label(prefix: &str, ids: &mut Counter) -> (r: String)
    requires
        old(ids).value < u64::MAX,
    ensures
        final(ids).value == old(ids).value + 1,
        r@ == label_spec(prefix@, final(ids).value as int),
{
    let id = next_id(ids);
    label_with_id(prefix, id)
}

pub fn gen_compare(
    e1_instr: Vec<Instr>,
    e2_instr: Vec<Instr>,
    stack_offset: i32,
    op: CmpOp,
    ids: &mut Counter,
) -> (r: Vec<Instr>)
    requires
        stack_offset <= i32::MAX - 8,
        old(ids).value < u64::MAX,
    ensures
        final(ids).value == old(ids).value + 1,
        views(r@) == compare_code(views(e1_instr@), views(e2_instr@), stack_offset, op,
            label_spec(compare_label(op), final(ids).value as int)),
        rsp_balanced(e1_instr@) && rsp_balanced(e2_instr@) ==> rsp_balanced(r@),
{
    let mut result: Vec<Instr> = e2_instr;
    proof { assert(result@ == e2_instr@); }
    let e1 = e1_instr;
    let spill = stack_offset + 8;
    emit(&mut result, Instr::MovToStack(Reg::Rax, spill));
    emit_all(&mut result, e1);
    let guard = match op {
        CmpOp::Equal => equal_type_handler(spill, ids),
        _ => at_least_one_bool_handler(spill, ids),
    };
    emit_all(&mut result, guard);
    emit(&mut result, Instr::CompareWithMemory(Reg::Rax, spill));
    emit(&mut result, Instr::Mov(Reg::Rax, 1));
    emit(&mut result, Instr::Mov(Reg::R10, 3));
    match op {
        CmpOp::Equal => emit(&mut result, Instr::Cmove(Reg::Rax, Reg::R10)),
        CmpOp::Greater => emit(&mut result, Instr::Cmovg(Reg::Rax, Reg::R10)),
        CmpOp::GreaterEqual => emit(&mut result, Instr::Cmovge(Reg::Rax, Reg::R10)),
        CmpOp::Less => emit(&mut result, Instr::Cmovl(Reg::Rax, Reg::R10)),
        CmpOp::LessEqual => emit(&mut result, Instr::Cmovle(Reg::Rax, Reg::R10)),
    }
    proof {
        assert(views(result@) =~= compare_code(views(e1_instr@), views(e2_instr@), stack_offset, op,
            label_spec(compare_label(op), final(ids).value as int)));
    }
    result
}

pub fn gen_istype(op: TypeOp) -> (r: Vec<Instr>)
    ensures
        views(r@) == istype_code(op),
        rsp_balanced(r@),
{
    let mut result: Vec<Instr> = Vec::new();
    emit(&mut result, Instr::Test(Reg::Rax, 1));
    emit(&mut result, Instr::Mov(Reg::Rax, 1));
    emit(&mut result, Instr::Mov(Reg::R10, 3));
    match op {
        TypeOp::Bool => emit(&mut result, Instr::Cmovne(Reg::Rax, Reg::R10)),
        TypeOp::Num => emit(&mut result, Instr::Cmove(Reg::Rax, Reg::R10)),
    }
    proof { assert(views(result@) =~= istype_code(op)); }
    result
}

fn tag_guard(xor: bool, offset: i32, ids: &mut Counter) -> (r: Vec<Instr>)
    requires
        old(ids).value < u64::MAX,
    ensures
        final(ids).value == old(ids).value + 1,
        xor ==> views(r@) == same_tag_guard(offset, label_spec("equal_ok"@, final(ids).value as int)),
        !xor ==> views(r@) == both_numbers_guard(offset, label_spec("bool_ok"@, final(ids).value as int)),
        rsp_balanced(r@),
{
    let ok = if xor { fresh_label("equal_ok", ids) } else { fresh_label("bool_ok", ids) };
    let mut result: Vec<Instr> = Vec::new();
    emit(&mut result, Instr::MovFromReg(Reg::R11, Reg::Rax));
    emit(&mut result, Instr::MovFromStack(Reg::R8, offset));
    if xor {
        emit(&mut result, Instr::Xor(Reg::Rax, Reg::R8));
    } else {
        emit(&mut result, Instr::Or(Reg::Rax, Reg::R8));
    }
    emit(&mut result, Instr::Test(Reg::Rax, 1));
    emit(&mut result, Instr::Je(ok.clone()));
    emit(&mut result, Instr::CallRustError(2));
    emit(&mut result, Instr::Label(ok));
    emit(&mut result, Instr::MovFromReg(Reg::Rax, Reg::R11));
    proof {
        if xor {
            assert(views(result@) =~= same_tag_guard(offset, label_spec("equal_ok"@, final(ids).value as int)));
        } else {
            assert(views(result@) =~= both_numbers_guard(offset, label_spec("bool_ok"@, final(ids).value as int)));
        }
    }
    result
}

pub fn at_least_one_bool_handler(offset: i32, ids: &mut Counter) -> (r: Vec<Instr>)
    requires
        old(ids).value < u64::MAX,
    ensures
        final(ids).value == old(ids).value + 1,
        views(r@) == both_numbers_guard(offset, label_spec("bool_ok"@, final(ids).value as int)),
        rsp_balanced(r@),
{
    tag_guard(false, offset, ids)
}

pub fn equal_type_handler(offset: i32, ids: &mut Counter) -> (r: Vec<Instr>)
    requires
        old(ids).value < u64::MAX,
    ensures
        final(ids).value == old(ids).value + 1,
        views(r@) == same_tag_guard(offset, label_spec("equal_ok"@, final(ids).value as int)),
        rsp_balanced(r@),
{
    tag_guard(true, offset, ids)
}

pub fn unary_not_bool_handler(ids: &mut Counter) -> (r: Vec<Instr>)
    requires
        old(ids).value < u64::MAX,
    ensures
        final(ids).value == old(ids).value + 1,
        views(r@) == number_guard(label_spec("unop_ok"@, final(ids).value as int)),
        rsp_balanced(r@),
{
    let ok = fresh_label("unop_ok", ids);
    let mut result: Vec<Instr> = Vec::new();
    emit(&mut result, Instr::Test(Reg::Rax, 1));
    emit(&mut result, Instr::Je(ok.clone()));
    emit(&mut result, Instr::CallRustError(2));
    emit(&mut result, Instr::Label(ok));
    proof { assert(views(result@) =~= number_guard(label_spec("unop_ok"@, final(ids).value as int))); }
    result
}

pub fn overflow_handler(ids: &mut Counter) -> (r: Vec<Instr>)
    requires
        old(ids).value < u64::MAX,
    ensures
        final(ids).value == old(ids).value + 1,
        views(r@) == overflow_guard(label_spec("no_overflow"@, final(ids).value as int)),
        rsp_balanced(r@),
{
    let ok = fresh_label("no_overflow", ids);
    let mut result: Vec<Instr> = Vec::new();
    emit(&mut result, Instr::Jno(ok.clone()));
    emit(&mut result, Instr::CallRustError(1));
    emit(&mut result, Instr::Label(ok));
    proof { assert(views(result@) =~= overflow_guard(label_spec("no_overflow"@, final(ids).value as int))); }
    result
}

} // verus!
