use viva::compile::CompileError;
use viva::expressions::{Defenition, Expr, Op2, ReplExpr};
use viva::instructions::{Instr, Reg};
use viva::parse::{parse_expr, parse_prog, parse_repl_expr, ParseError, SExp};
use viva::session::{Session, TurnAction};
use viva::value::format_viva_value;

fn convert(s: &sexp::Sexp) -> SExp {
    match s {
        sexp::Sexp::Atom(sexp::Atom::S(t)) => SExp::Sym(t.clone()),
        sexp::Sexp::Atom(sexp::Atom::I(n)) => SExp::Int(*n),
        sexp::Sexp::Atom(sexp::Atom::F(_)) => SExp::Float,
        sexp::Sexp::List(items) => SExp::List(items.iter().map(convert).collect()),
    }
}

fn read(text: &str) -> Option<SExp> {
    sexp::parse(text).ok().map(|s| convert(&s))
}

fn form(session: &Session, text: &str) -> ReplExpr {
    parse_repl_expr(&read(text).unwrap(), &session.func_names).unwrap()
}

fn turn_code(session: &mut Session, e: &Expr) -> Result<Vec<Instr>, CompileError> {
    let cells = session.define_cells(e);
    let ptrs: Vec<(String, i64)> = cells.iter().enumerate().map(|(k, (n, _))| (n.clone(), 4096 + 8 * k as i64)).collect();
    session.compile_turn(e, &ptrs)
}

#[test]
fn parse_keeps_numbers_and_names() {
    let names: Vec<String> = vec![];
    assert_eq!(parse_expr(&read("42").unwrap(), &names).unwrap(), Expr::Number(42));
    assert_eq!(parse_expr(&read("true").unwrap(), &names).unwrap(), Expr::Boolean(true));
    assert_eq!(parse_expr(&read("x").unwrap(), &names).unwrap(), Expr::Id("x".to_string()));
}

#[test]
fn parse_rejects_keywords_as_names() {
    let names: Vec<String> = vec![];
    assert_eq!(parse_expr(&read("let").unwrap(), &names).unwrap_err(), ParseError::Keyword("let".to_string()));
    assert!(parse_expr(&read("(let ((if 1)) 2)").unwrap(), &names).is_err());
    assert_eq!(ParseError::Keyword("if".to_string()).message(), "'if' is a keyword");
}

#[test]
fn parse_rejects_unknown_forms_and_floats() {
    let names: Vec<String> = vec![];
    assert_eq!(parse_expr(&read("(hello 1)").unwrap(), &names).unwrap_err(), ParseError::Invalid);
    assert_eq!(parse_expr(&read("1.5").unwrap(), &names).unwrap_err(), ParseError::Invalid);
    assert_eq!(parse_expr(&read("(block)").unwrap(), &names).unwrap_err(), ParseError::Invalid);
    assert_eq!(parse_expr(&read("(+ 1)").unwrap(), &names).unwrap_err(), ParseError::Invalid);
}

#[test]
fn parse_let_and_binop() {
    let names: Vec<String> = vec![];
    let e = parse_expr(&read("(let ((x 1) (y 2)) (+ x y))").unwrap(), &names).unwrap();
    assert_eq!(
        e,
        Expr::Let(
            vec![("x".to_string(), Expr::Number(1)), ("y".to_string(), Expr::Number(2))],
            Box::new(Expr::BinOp(Op2::Plus, Box::new(Expr::Id("x".to_string())), Box::new(Expr::Id("y".to_string())))),
        )
    );
}

#[test]
fn parse_call_needs_known_function() {
    let names = vec!["f".to_string()];
    assert_eq!(
        parse_expr(&read("(f 1 2)").unwrap(), &names).unwrap(),
        Expr::Call("f".to_string(), vec![Expr::Number(1), Expr::Number(2)])
    );
    assert!(parse_expr(&read("(g 1)").unwrap(), &names).is_err());
}

#[test]
fn parse_define_and_fun_forms() {
    let names: Vec<String> = vec![];
    assert_eq!(
        parse_repl_expr(&read("(define x 1)").unwrap(), &names).unwrap(),
        ReplExpr::Define("x".to_string(), Box::new(Expr::Number(1)))
    );
    let f = parse_repl_expr(&read("(fun (f n) (f n))").unwrap(), &names).unwrap();
    assert_eq!(
        f,
        ReplExpr::Fun(
            "f".to_string(),
            vec!["n".to_string()],
            Box::new(Expr::Call("f".to_string(), vec![Expr::Id("n".to_string())]))
        )
    );
}

#[test]
fn redefining_a_function_is_rejected() {
    let names = vec!["f".to_string()];
    assert_eq!(
        parse_repl_expr(&read("(fun (f n) n)").unwrap(), &names).unwrap_err(),
        ParseError::DuplicateFunctionName
    );
}

#[test]
fn duplicate_parameter_is_rejected() {
    let names: Vec<String> = vec![];
    assert_eq!(
        parse_repl_expr(&read("(fun (f n n) n)").unwrap(), &names).unwrap_err(),
        ParseError::DuplicateParameterName
    );
}

#[test]
fn program_with_recursive_function() {
    let p = parse_prog(&read("((fun (f n) (if (= n 0) 0 (+ n (f (sub1 n))))) (f 10))").unwrap()).unwrap();
    assert_eq!(p.defs.len(), 1);
    let Defenition::Fun(name, params, _) = &p.defs[0];
    assert_eq!(name, "f");
    assert_eq!(params, &vec!["n".to_string()]);
    assert_eq!(p.main, Expr::Call("f".to_string(), vec![Expr::Number(10)]));
}

#[test]
fn program_with_duplicate_function_fails() {
    assert_eq!(
        parse_prog(&read("((fun (f) 1) (fun (f) 2) (f))").unwrap()).unwrap_err(),
        ParseError::DuplicateFunctionName
    );
}

#[test]
fn repl_plus_compiles_to_tagged_sum() {
    let mut s = Session::new();
    let ReplExpr::Expr(e) = form(&s, "(+ 1 17)") else { panic!("not an expression") };
    let code = turn_code(&mut s, &e).unwrap();
    assert_eq!(code[0], Instr::Mov(Reg::Rax, 2));
    assert_eq!(code[2], Instr::Mov(Reg::Rax, 34));
    assert_eq!(code[11], Instr::AddRaxMemFromStack(16));
    assert_eq!(format_viva_value(2 + 34), "18");
}

#[test]
fn repl_let_reads_both_slots() {
    let mut s = Session::new();
    let ReplExpr::Expr(e) = form(&s, "(let ((x 1) (y 2)) (+ x y))") else { panic!("not an expression") };
    let code = turn_code(&mut s, &e).unwrap();
    assert_eq!(code[4], Instr::MovFromStack(Reg::Rax, 16));
    assert_eq!(code[6], Instr::MovFromStack(Reg::Rax, 24));
    assert_eq!(format_viva_value(2 + 4), "3");
}

#[test]
fn repl_define_then_read() {
    let mut s = Session::new();
    let ReplExpr::Define(name, e) = form(&s, "(define x 1)") else { panic!("not a define") };
    assert!(s.check_define(&name).is_ok());
    assert_eq!(turn_code(&mut s, &e).unwrap(), vec![Instr::Mov(Reg::Rax, 2)]);
    s.finish_define(name, 2);
    let ReplExpr::Expr(x) = form(&s, "x") else { panic!("not an expression") };
    assert_eq!(turn_code(&mut s, &x).unwrap(), vec![Instr::Mov(Reg::Rax, 2)]);
    assert_eq!(format_viva_value(2), "1");
    let ReplExpr::Expr(y) = form(&s, "(+ x 1)") else { panic!("not an expression") };
    let code = turn_code(&mut s, &y).unwrap();
    assert_eq!(code[0], Instr::Mov(Reg::Rax, 2));
    assert_eq!(code[2], Instr::Mov(Reg::Rax, 2));
    assert_eq!(format_viva_value(4), "2");
}

#[test]
fn repl_define_of_let_shadows_nothing_outside() {
    let mut s = Session::new();
    let ReplExpr::Define(name, e) = form(&s, "(define x (let ((x 17) (y 13)) (+ x y)))") else { panic!("not a define") };
    assert!(turn_code(&mut s, &e).is_ok());
    s.finish_define(name, 60);
    let ReplExpr::Expr(x) = form(&s, "x") else { panic!("not an expression") };
    assert_eq!(turn_code(&mut s, &x).unwrap(), vec![Instr::Mov(Reg::Rax, 60)]);
    assert_eq!(format_viva_value(60), "30");
}

#[test]
fn repl_defines_used_together() {
    let mut s = Session::new();
    s.finish_define("x".to_string(), 196);
    let ReplExpr::Define(name, e) = form(&s, "(define y (let ((x 100) (y 300)) (+ x y)))") else { panic!("not a define") };
    let code = turn_code(&mut s, &e).unwrap();
    assert_eq!(code[0], Instr::Mov(Reg::Rax, 200));
    s.finish_define(name, 800);
    let ReplExpr::Expr(sum) = form(&s, "(+ x y)") else { panic!("not an expression") };
    let code = turn_code(&mut s, &sum).unwrap();
    assert_eq!(code[0], Instr::Mov(Reg::Rax, 196));
    assert_eq!(code[2], Instr::Mov(Reg::Rax, 800));
    assert_eq!(format_viva_value(196 + 800), "498");
}

#[test]
fn repl_parse_error_leaves_session_usable() {
    let s = Session::new();
    assert!(read("(hello").is_none());
    let ReplExpr::Expr(_) = form(&s, "(+ 1 2)") else { panic!("not an expression") };
    assert_eq!(ParseError::Invalid.message(), "Invalid: parse error");
}

#[test]
fn repl_duplicate_define_is_rejected() {
    let mut s = Session::new();
    s.finish_define("x".to_string(), 8);
    let ReplExpr::Define(name, _) = form(&s, "(define x 3)") else { panic!("not a define") };
    let err = s.check_define(&name).unwrap_err();
    assert_eq!(err.message(), "Duplicate binding");
    let ReplExpr::Expr(e) = form(&s, "(+ 1 4)") else { panic!("not an expression") };
    assert!(turn_code(&mut s, &e).is_ok());
}

#[test]
fn repl_unbound_name_is_reported() {
    let mut s = Session::new();
    let ReplExpr::Expr(e) = form(&s, "y") else { panic!("not an expression") };
    assert_eq!(turn_code(&mut s, &e).unwrap_err().message(), "Unbound variable identifier y");
}

#[test]
fn set_on_define_goes_through_its_cell_and_is_read_back() {
    let mut s = Session::new();
    s.finish_define("x".to_string(), 2);
    let ReplExpr::Expr(e) = form(&s, "(set! x 5)") else { panic!("not an expression") };
    let cells = s.define_cells(&e);
    assert_eq!(cells, vec![("x".to_string(), 2)]);
    let code = turn_code(&mut s, &e).unwrap();
    assert_eq!(code, vec![Instr::Mov(Reg::Rax, 10), Instr::Mov(Reg::Rdx, 4096), Instr::MovToPtrFromReg(Reg::Rdx, Reg::Rax)]);
    s.store_cells(vec![("x".to_string(), 10)]);
    let ReplExpr::Expr(x) = form(&s, "x") else { panic!("not an expression") };
    assert_eq!(turn_code(&mut s, &x).unwrap(), vec![Instr::Mov(Reg::Rax, 10)]);
}

#[test]
fn function_names_are_registered_once_compiled() {
    let mut s = Session::new();
    let ReplExpr::Fun(name, params, body) = form(&s, "(fun (f n) (+ n 1))") else { panic!("not a fun") };
    assert!(s.compile_function(name, params, body).is_ok());
    assert!(s.is_function(&"f".to_string()));
    assert!(parse_repl_expr(&read("(fun (f m) m)").unwrap(), &s.func_names).is_err());
}

#[test]
fn overflowing_literal_program_exits_with_overflow() {
    let p = parse_prog(&read("((+ 9223372036854775807 1))").unwrap()).unwrap();
    let mut s = Session::new();
    let code = turn_code(&mut s, &p.main).unwrap();
    assert_eq!(code[0], Instr::CallRustError(1));
}

#[test]
fn plus_with_boolean_program_has_invalid_argument_guard() {
    let p = parse_prog(&read("((+ 1 true))").unwrap()).unwrap();
    let mut s = Session::new();
    let code = turn_code(&mut s, &p.main).unwrap();
    assert_eq!(code[2], Instr::Mov(Reg::Rax, 3));
    assert_eq!(code[5], Instr::Or(Reg::Rax, Reg::R8));
    assert_eq!(code[8], Instr::CallRustError(2));
}

#[test]
fn turn_step_shows_runs_and_records() {
    let mut s = Session::new();
    let form = s.read_form(read("(define x (+ 1 2))")).unwrap();
    let cells = s.turn_cells(&form);
    assert!(cells.is_empty());
    let TurnAction::Run(code, define) = s.begin_turn(form, &vec![]) else { panic!("not a run") };
    assert_eq!(define, Some("x".to_string()));
    assert!(!code.is_empty());
    assert_eq!(s.end_turn(define, vec![], 6), None);
    let again = s.read_form(read("(define x 5)")).unwrap();
    let TurnAction::Show(m) = s.begin_turn(again, &vec![]) else { panic!("not shown") };
    assert_eq!(m, "Duplicate binding");
    let expr = s.read_form(read("(+ x 1)")).unwrap();
    let TurnAction::Run(_, none) = s.begin_turn(expr, &vec![]) else { panic!("not a run") };
    assert_eq!(s.end_turn(none, vec![], 8), Some("4".to_string()));
}

#[test]
fn turn_step_reports_first_error() {
    let mut s = Session::new();
    let form = s.read_form(read("(+ zz (break 1))")).unwrap();
    let TurnAction::Show(m) = s.begin_turn(form, &vec![]) else { panic!("not shown") };
    assert_eq!(m, "Unbound variable identifier zz");
    let form = s.read_form(read("(+ (break 1) zz)")).unwrap();
    let TurnAction::Show(m) = s.begin_turn(form, &vec![]) else { panic!("not shown") };
    assert_eq!(m, "break outside of a loop");
    assert_eq!(s.read_form(None).unwrap_err(), "Invalid: parse error");
}

#[test]
fn failed_fun_is_not_registered() {
    let mut s = Session::new();
    let form = s.read_form(read("(fun (h n) (+ n q))")).unwrap();
    let TurnAction::Show(m) = s.begin_turn(form, &vec![]) else { panic!("not shown") };
    assert_eq!(m, "Unbound variable identifier q");
    assert!(!s.is_function(&"h".to_string()));
    let form = s.read_form(read("(fun (h n) n)")).unwrap();
    assert!(matches!(s.begin_turn(form, &vec![]), TurnAction::Emit(_)));
    assert!(s.is_function(&"h".to_string()));
}

#[test]
fn cells_only_for_assigned_defines() {
    let mut s = Session::new();
    s.finish_define("a".to_string(), 2);
    s.finish_define("b".to_string(), 4);
    let ReplExpr::Expr(e) = form(&s, "(block (set! b 3) a)") else { panic!("not an expression") };
    assert_eq!(s.define_cells(&e), vec![("b".to_string(), 4)]);
}

#[test]
fn turn_counter_advances_by_the_labels_used() {
    let mut s = Session::new();
    let form = s.read_form(read("(+ 1 17)")).unwrap();
    assert!(matches!(s.begin_turn(form, &vec![]), TurnAction::Run(_, None)));
    assert_eq!(s.ids.value, 2);
    let form = s.read_form(read("(define x 4)")).unwrap();
    let TurnAction::Run(_, define) = s.begin_turn(form, &vec![]) else { panic!("not a run") };
    assert_eq!(s.ids.value, 2);
    s.end_turn(define, vec![], 8);
    let form = s.read_form(read("(if (< x 5) 1 2)")).unwrap();
    assert!(matches!(s.begin_turn(form, &vec![]), TurnAction::Run(_, None)));
    assert_eq!(s.ids.value, 4);
}

#[test]
fn header_and_program_errors_name_their_cause() {
    let names: Vec<String> = vec![];
    assert_eq!(
        parse_repl_expr(&read("(fun (if n) n)").unwrap(), &names).unwrap_err(),
        ParseError::Keyword("if".to_string())
    );
    assert_eq!(
        parse_repl_expr(&read("(fun (f let) 1)").unwrap(), &names).unwrap_err(),
        ParseError::Keyword("let".to_string())
    );
    assert_eq!(
        parse_prog(&read("((fun (g a) a) (fun (g b) b) (g 1))").unwrap()).unwrap_err(),
        ParseError::DuplicateFunctionName
    );
}
