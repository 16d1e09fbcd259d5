use viva::compile::{compile_defs_to_instr, compile_expr_to_instr, expr_depth, fits_limits, CompileError};
use viva::compile_helpers::{gen_istype, TypeOp};
use viva::context::Context;
use viva::counter::{counter, next_id};
use viva::expressions::{Defenition, Expr, Op1, Op2};
use viva::instructions::{instr_to_string, instrs_to_string, labels_to_register, Instr, Reg};

fn num(n: i64) -> Box<Expr> {
    Box::new(Expr::Number(n))
}

fn id(s: &str) -> Box<Expr> {
    Box::new(Expr::Id(s.to_string()))
}

fn compile(e: &Expr, defines: &Vec<(String, i64)>, cells: &Vec<(String, i64)>) -> Result<Vec<Instr>, CompileError> {
    let ctx = Context::new(defines, cells);
    let mut ids = counter();
    assert!(fits_limits(e, &ctx, &ids));
    compile_expr_to_instr(e, &ctx, &mut ids)
}

fn rsp_net(code: &Vec<Instr>) -> i64 {
    code.iter()
        .map(|i| match i {
            Instr::Add(Reg::Rsp, k) => *k as i64,
            Instr::Sub(Reg::Rsp, k) => -(*k as i64),
            _ => 0,
        })
        .sum()
}

#[test]
fn counter_hands_out_fresh_ids() {
    let mut c = counter();
    assert_eq!(next_id(&mut c), 1);
    assert_eq!(next_id(&mut c), 2);
    assert_eq!(c.value, 2);
}

#[test]
fn context_starts_at_slot_two() {
    let d = Vec::new();
    let p = Vec::new();
    let ctx = Context::new(&d, &p);
    assert_eq!(ctx.si, 2);
    assert_eq!(ctx.curr_break, 0);
    assert_eq!(ctx.with_si(7).si, 7);
}

#[test]
fn number_is_tagged() {
    let code = compile(&Expr::Number(21), &vec![], &vec![]).unwrap();
    assert_eq!(code, vec![Instr::Mov(Reg::Rax, 42)]);
}

#[test]
fn number_past_63_bits_exits_with_overflow() {
    let code = compile(&Expr::Number(i64::MAX), &vec![], &vec![]).unwrap();
    assert_eq!(code, vec![Instr::CallRustError(1)]);
}

#[test]
fn booleans_are_three_and_one() {
    assert_eq!(compile(&Expr::Boolean(true), &vec![], &vec![]).unwrap(), vec![Instr::Mov(Reg::Rax, 3)]);
    assert_eq!(compile(&Expr::Boolean(false), &vec![], &vec![]).unwrap(), vec![Instr::Mov(Reg::Rax, 1)]);
}

#[test]
fn input_reads_rdi() {
    assert_eq!(compile(&Expr::Id("input".to_string()), &vec![], &vec![]).unwrap(), vec![Instr::MovFromReg(Reg::Rax, Reg::Rdi)]);
}

#[test]
fn unbound_identifier_is_reported() {
    let err = compile(&Expr::Id("y".to_string()), &vec![], &vec![]).unwrap_err();
    assert_eq!(err, CompileError::UnboundIdentifier("y".to_string()));
    assert_eq!(err.message(), "Unbound variable identifier y");
}

#[test]
fn define_is_read_as_immediate() {
    let defines = vec![("x".to_string(), 2)];
    assert_eq!(compile(&Expr::Id("x".to_string()), &defines, &vec![]).unwrap(), vec![Instr::Mov(Reg::Rax, 2)]);
}

#[test]
fn define_cell_is_read_through_pointer() {
    let defines = vec![("x".to_string(), 2)];
    let cells = vec![("x".to_string(), 4096)];
    assert_eq!(
        compile(&Expr::Id("x".to_string()), &defines, &cells).unwrap(),
        vec![Instr::Mov(Reg::Rax, 4096), Instr::MovRaxFromRaxPtr]
    );
}

#[test]
fn assign_to_define_writes_cell() {
    let defines = vec![("x".to_string(), 2)];
    let cells = vec![("x".to_string(), 4096)];
    let e = Expr::Assign("x".to_string(), num(5));
    assert_eq!(
        compile(&e, &defines, &cells).unwrap(),
        vec![Instr::Mov(Reg::Rax, 10), Instr::Mov(Reg::Rdx, 4096), Instr::MovToPtrFromReg(Reg::Rdx, Reg::Rax)]
    );
}

#[test]
fn assign_to_unbound_name_fails() {
    let e = Expr::Assign("z".to_string(), num(5));
    assert_eq!(compile(&e, &vec![], &vec![]).unwrap_err(), CompileError::UnboundIdentifier("z".to_string()));
}

#[test]
fn let_stores_bindings_in_slots() {
    let e = Expr::Let(vec![("x".to_string(), Expr::Number(1)), ("y".to_string(), Expr::Number(2))], id("y"));
    assert_eq!(
        compile(&e, &vec![], &vec![]).unwrap(),
        vec![
            Instr::Mov(Reg::Rax, 2),
            Instr::MovToStack(Reg::Rax, 16),
            Instr::Mov(Reg::Rax, 4),
            Instr::MovToStack(Reg::Rax, 24),
            Instr::MovFromStack(Reg::Rax, 24),
        ]
    );
}

#[test]
fn duplicate_let_binding_fails() {
    let e = Expr::Let(vec![("x".to_string(), Expr::Number(1)), ("x".to_string(), Expr::Number(2))], id("x"));
    let err = compile(&e, &vec![], &vec![]).unwrap_err();
    assert_eq!(err, CompileError::DuplicateBinding);
    assert_eq!(err.message(), "Duplicate binding");
}

#[test]
fn break_outside_loop_fails() {
    let err = compile(&Expr::Break(num(1)), &vec![], &vec![]).unwrap_err();
    assert_eq!(err, CompileError::BreakOutsideLoop);
    assert_eq!(err.message(), "break outside of a loop");
}

#[test]
fn break_inside_loop_jumps_to_loop_end() {
    let e = Expr::Loop(Box::new(Expr::Break(num(1))));
    let code = compile(&e, &vec![], &vec![]).unwrap();
    assert_eq!(
        code,
        vec![
            Instr::Label("loop_start1".to_string()),
            Instr::Mov(Reg::Rax, 2),
            Instr::Jmp("loop_end1".to_string()),
            Instr::Jmp("loop_start1".to_string()),
            Instr::Label("loop_end1".to_string()),
        ]
    );
}

#[test]
fn plus_of_literals_guards_and_checks_overflow() {
    let e = Expr::BinOp(Op2::Plus, num(1), num(17));
    let code = compile(&e, &vec![], &vec![]).unwrap();
    assert_eq!(
        code,
        vec![
            Instr::Mov(Reg::Rax, 2),
            Instr::MovToStack(Reg::Rax, 16),
            Instr::Mov(Reg::Rax, 34),
            Instr::MovFromReg(Reg::R11, Reg::Rax),
            Instr::MovFromStack(Reg::R8, 16),
            Instr::Or(Reg::Rax, Reg::R8),
            Instr::Test(Reg::Rax, 1),
            Instr::Je("bool_ok1".to_string()),
            Instr::CallRustError(2),
            Instr::Label("bool_ok1".to_string()),
            Instr::MovFromReg(Reg::Rax, Reg::R11),
            Instr::AddRaxMemFromStack(16),
            Instr::Jno("no_overflow2".to_string()),
            Instr::CallRustError(1),
            Instr::Label("no_overflow2".to_string()),
        ]
    );
}

#[test]
fn minus_spills_the_subtrahend() {
    let e = Expr::BinOp(Op2::Minus, num(25), num(6));
    let code = compile(&e, &vec![], &vec![]).unwrap();
    assert_eq!(code[0], Instr::Mov(Reg::Rax, 12));
    assert_eq!(code[1], Instr::MovToStack(Reg::Rax, 16));
    assert_eq!(code[2], Instr::Mov(Reg::Rax, 50));
    assert_eq!(code[11], Instr::SubRaxMemFromStack(16));
}

#[test]
fn times_untags_before_multiplying() {
    let e = Expr::BinOp(Op2::Times, num(4), num(5));
    let code = compile(&e, &vec![], &vec![]).unwrap();
    assert_eq!(code[11], Instr::ShiftArithmeticRight(Reg::Rax, 1));
    assert_eq!(code[12], Instr::MulRaxMemFromStack(16));
    assert_eq!(code.last(), Some(&Instr::Label("no_overflow2".to_string())));
}

#[test]
fn equality_uses_same_tag_guard() {
    let e = Expr::BinOp(Op2::Equal, num(1), Box::new(Expr::Boolean(true)));
    let code = compile(&e, &vec![], &vec![]).unwrap();
    assert_eq!(code[0], Instr::Mov(Reg::Rax, 3));
    assert_eq!(code[1], Instr::MovToStack(Reg::Rax, 24));
    assert_eq!(code[2], Instr::Mov(Reg::Rax, 2));
    assert_eq!(code[5], Instr::Xor(Reg::Rax, Reg::R8));
    assert_eq!(code.last(), Some(&Instr::Cmove(Reg::Rax, Reg::R10)));
}

#[test]
fn ordered_comparison_uses_number_guard() {
    let e = Expr::BinOp(Op2::LessEqual, num(1), num(2));
    let code = compile(&e, &vec![], &vec![]).unwrap();
    assert_eq!(code[5], Instr::Or(Reg::Rax, Reg::R8));
    assert_eq!(code.last(), Some(&Instr::Cmovle(Reg::Rax, Reg::R10)));
}

#[test]
fn istype_tests_low_bit() {
    assert_eq!(
        gen_istype(TypeOp::Num),
        vec![Instr::Test(Reg::Rax, 1), Instr::Mov(Reg::Rax, 1), Instr::Mov(Reg::R10, 3), Instr::Cmove(Reg::Rax, Reg::R10)]
    );
    assert_eq!(gen_istype(TypeOp::Bool)[3], Instr::Cmovne(Reg::Rax, Reg::R10));
}

#[test]
fn add1_guards_operand_and_overflow() {
    let e = Expr::UnOp(Op1::Add1, num(15));
    let code = compile(&e, &vec![], &vec![]).unwrap();
    assert_eq!(code[1], Instr::Test(Reg::Rax, 1));
    assert_eq!(code[3], Instr::CallRustError(2));
    assert_eq!(code[5], Instr::Add(Reg::Rax, 2));
    assert_eq!(code[6], Instr::Jno("no_overflow2".to_string()));
}

#[test]
fn call_shelves_return_address_and_restores_rsp() {
    let e = Expr::Call("f".to_string(), vec![Expr::Number(10)]);
    let code = compile(&e, &vec![], &vec![]).unwrap();
    assert_eq!(code[0], Instr::Comment("START of call to f [1 arg]".to_string()));
    assert_eq!(code[1], Instr::MovLabel("after_call_f_1".to_string(), 16));
    assert_eq!(code[2], Instr::Mov(Reg::Rax, 20));
    assert_eq!(code[3], Instr::MovToStack(Reg::Rax, 24));
    assert_eq!(code[4], Instr::Sub(Reg::Rsp, 16));
    assert_eq!(code[5], Instr::Jmp("function_f_call_label".to_string()));
    assert_eq!(code[6], Instr::Label("after_call_f_1".to_string()));
    assert_eq!(code[7], Instr::Add(Reg::Rsp, 16));
    assert_eq!(code[8], Instr::Comment("END of call to f".to_string()));
    assert_eq!(rsp_net(&code), 0);
}

#[test]
fn function_body_reads_parameters_from_its_frame() {
    let body = Expr::BinOp(Op2::Plus, id("n"), num(1));
    let defs = vec![Defenition::Fun("f".to_string(), vec!["n".to_string()], Box::new(body))];
    let d = Vec::new();
    let p = Vec::new();
    let ctx = Context::new(&d, &p);
    let mut ids = counter();
    let code = compile_defs_to_instr(&defs, &ctx, &mut ids).unwrap();
    assert_eq!(code[0], Instr::Comment("START of function f(n)".to_string()));
    assert_eq!(code[1], Instr::Label("function_f_call_label".to_string()));
    assert_eq!(code[2], Instr::MovFromStack(Reg::Rax, 8));
    assert_eq!(code[3], Instr::MovToStack(Reg::Rax, 16));
    assert_eq!(code[code.len() - 2], Instr::JmpReg(Reg::Rsp));
    assert_eq!(code.last(), Some(&Instr::Comment("END of function f definition".to_string())));
}

#[test]
fn function_body_with_break_fails() {
    let defs = vec![Defenition::Fun("g".to_string(), vec![], Box::new(Expr::Break(num(1))))];
    let d = Vec::new();
    let p = Vec::new();
    let ctx = Context::new(&d, &p);
    let mut ids = counter();
    assert_eq!(compile_defs_to_instr(&defs, &ctx, &mut ids).unwrap_err(), CompileError::BreakOutsideLoop);
}

#[test]
fn recursive_sum_keeps_rsp_balanced() {
    let body = Expr::If(
        Box::new(Expr::BinOp(Op2::Equal, id("n"), num(0))),
        num(0),
        Box::new(Expr::BinOp(
            Op2::Plus,
            id("n"),
            Box::new(Expr::Call("f".to_string(), vec![Expr::UnOp(Op1::Sub1, id("n"))])),
        )),
    );
    let defs = vec![Defenition::Fun("f".to_string(), vec!["n".to_string()], Box::new(body))];
    let d = Vec::new();
    let p = Vec::new();
    let ctx = Context::new(&d, &p);
    let mut ids = counter();
    let code = compile_defs_to_instr(&defs, &ctx, &mut ids).unwrap();
    assert_eq!(rsp_net(&code), 0);
    let main = compile(&Expr::Call("f".to_string(), vec![Expr::Number(10)]), &vec![], &vec![]).unwrap();
    assert_eq!(rsp_net(&main), 0);
}

#[test]
fn depth_counts_spill_slots() {
    assert_eq!(expr_depth(&Expr::Number(1)), 0);
    assert_eq!(expr_depth(&Expr::BinOp(Op2::Plus, num(1), num(2))), 1);
    assert_eq!(expr_depth(&Expr::BinOp(Op2::Less, num(1), num(2))), 2);
}

#[test]
fn instruction_text() {
    assert_eq!(instr_to_string(&Instr::Mov(Reg::Rax, 42)), "\tmov rax, 42");
    assert_eq!(instr_to_string(&Instr::MovToStack(Reg::Rax, 16)), "\tmov [rsp - 16], rax");
    assert_eq!(instr_to_string(&Instr::Label("l1".to_string())), "l1:");
    assert_eq!(instr_to_string(&Instr::JmpReg(Reg::Rsp)), "\tjmp QWORD [rsp]");
    assert_eq!(instrs_to_string(&vec![Instr::Mov(Reg::Rax, 2), Instr::Add(Reg::Rax, 2)]), "\tmov rax, 2\n\tadd rax, 2");
}

#[test]
fn labels_registered_once_and_only_when_new() {
    let code = vec![
        Instr::Label("a".to_string()),
        Instr::Jmp("b".to_string()),
        Instr::Label("b".to_string()),
        Instr::Label("a".to_string()),
        Instr::Label("c".to_string()),
    ];
    let known = vec!["c".to_string()];
    assert_eq!(labels_to_register(&code, &known), vec!["a".to_string(), "b".to_string()]);
    assert!(labels_to_register(&vec![], &known).is_empty());
}
