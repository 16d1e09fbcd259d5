use std::collections::HashMap;

use viva::expressions::ReplExpr;
use viva::session::TurnAction;
use viva::instructions::{reg_to_number, Instr};
use viva::parse::{parse_prog, parse_repl_expr, SExp};
use viva::session::Session;
use viva::value::{error_report, format_viva_value, print_line};

fn convert(s: &sexp::Sexp) -> SExp {
    match s {
        sexp::Sexp::Atom(sexp::Atom::S(t)) => SExp::Sym(t.clone()),
        sexp::Sexp::Atom(sexp::Atom::I(n)) => SExp::Int(*n),
        sexp::Sexp::Atom(sexp::Atom::F(_)) => SExp::Float,
        sexp::Sexp::List(items) => SExp::List(items.iter().map(convert).collect()),
    }
}

#[derive(Debug, PartialEq)]
enum Run {
    Value(i64),
    Exit(i32),
}

/// Runs generated code on a model of the machine: 64-bit registers, a word
/// memory, and the flags the conditional instructions read.
struct Machine {
    regs: [i64; 16],
    mem: HashMap<i64, i64>,
    zf: bool,
    lt: bool,
    of: bool,
    printed: Vec<String>,
}

impl Machine {
    fn new(cells: &[(i64, i64)]) -> Self {
        let mut m = Machine { regs: [0; 16], mem: HashMap::new(), zf: false, lt: false, of: false, printed: vec![] };
        m.regs[4] = 1 << 40;
        for (addr, v) in cells {
            m.mem.insert(*addr, *v);
        }
        m
    }

    fn slot(&self, off: i32) -> i64 {
        self.regs[4] - off as i64
    }

    fn load(&self, addr: i64) -> i64 {
        *self.mem.get(&addr).unwrap_or(&0)
    }

    fn arith(&mut self, r: usize, v: Option<i64>, wrapped: i64) {
        self.of = v.is_none();
        let x = v.unwrap_or(wrapped);
        self.regs[r] = x;
        self.zf = x == 0;
        self.lt = x < 0;
    }

    fn compare(&mut self, a: i64, b: i64) {
        self.zf = a == b;
        self.lt = a < b;
        self.of = false;
    }

    fn run(&mut self, prog: &[Instr], start: usize) -> Run {
        let labels: HashMap<String, usize> = prog
            .iter()
            .enumerate()
            .filter_map(|(i, ins)| if let Instr::Label(l) = ins { Some((l.clone(), i)) } else { None })
            .collect();
        let mut pc = start;
        let mut steps = 0;
        while pc < prog.len() {
            steps += 1;
            assert!(steps < 1_000_000, "runaway code");
            let mut next = pc + 1;
            match &prog[pc] {
                Instr::Mov(r, v) => self.regs[reg_to_number(r) as usize] = *v,
                Instr::MovFromReg(d, s) => self.regs[reg_to_number(d) as usize] = self.regs[reg_to_number(s) as usize],
                Instr::MovRaxFromRaxPtr => self.regs[0] = self.load(self.regs[0]),
                Instr::MovToPtrFromReg(p, s) => {
                    let addr = self.regs[reg_to_number(p) as usize];
                    self.mem.insert(addr, self.regs[reg_to_number(s) as usize]);
                }
                Instr::Add(r, k) => {
                    let r = reg_to_number(r) as usize;
                    let a = self.regs[r];
                    self.arith(r, a.checked_add(*k as i64), a.wrapping_add(*k as i64));
                }
                Instr::Sub(r, k) => {
                    let r = reg_to_number(r) as usize;
                    let a = self.regs[r];
                    self.arith(r, a.checked_sub(*k as i64), a.wrapping_sub(*k as i64));
                }
                Instr::Or(d, s) => {
                    let v = self.regs[reg_to_number(d) as usize] | self.regs[reg_to_number(s) as usize];
                    self.arith(reg_to_number(d) as usize, Some(v), v);
                }
                Instr::Xor(d, s) => {
                    let v = self.regs[reg_to_number(d) as usize] ^ self.regs[reg_to_number(s) as usize];
                    self.arith(reg_to_number(d) as usize, Some(v), v);
                }
                Instr::AddRaxMemFromStack(off) => {
                    let (a, b) = (self.regs[0], self.load(self.slot(*off)));
                    self.arith(0, a.checked_add(b), a.wrapping_add(b));
                }
                Instr::SubRaxMemFromStack(off) => {
                    let (a, b) = (self.regs[0], self.load(self.slot(*off)));
                    self.arith(0, a.checked_sub(b), a.wrapping_sub(b));
                }
                Instr::MulRaxMemFromStack(off) => {
                    let (a, b) = (self.regs[0], self.load(self.slot(*off)));
                    self.arith(0, a.checked_mul(b), a.wrapping_mul(b));
                }
                Instr::MovToStack(r, off) => {
                    let addr = self.slot(*off);
                    self.mem.insert(addr, self.regs[reg_to_number(r) as usize]);
                }
                Instr::MovFromStack(r, off) => self.regs[reg_to_number(r) as usize] = self.load(self.slot(*off)),
                Instr::MovLabel(l, off) => {
                    let addr = self.slot(*off);
                    self.mem.insert(addr, labels[l] as i64);
                }
                Instr::Label(_) | Instr::Comment(_) => {}
                Instr::Compare(r) => self.compare(self.regs[reg_to_number(r) as usize], 3),
                Instr::CompareWithMemory(r, off) => self.compare(self.regs[reg_to_number(r) as usize], self.load(self.slot(*off))),
                Instr::Test(r, k) => {
                    let v = self.regs[reg_to_number(r) as usize] & (*k as i64);
                    self.zf = v == 0;
                    self.lt = v < 0;
                    self.of = false;
                }
                Instr::Jmp(l) => next = labels[l],
                Instr::JmpReg(r) => next = self.load(self.regs[reg_to_number(r) as usize]) as usize,
                Instr::Je(l) => if self.zf { next = labels[l] },
                Instr::Jne(l) => if !self.zf { next = labels[l] },
                Instr::Jno(l) => if !self.of { next = labels[l] },
                Instr::Cmove(d, s) | Instr::Cmovne(d, s) | Instr::Cmovl(d, s) | Instr::Cmovle(d, s) | Instr::Cmovg(d, s) | Instr::Cmovge(d, s) => {
                    let cond = match &prog[pc] {
                        Instr::Cmove(..) => self.zf,
                        Instr::Cmovne(..) => !self.zf,
                        Instr::Cmovl(..) => self.lt,
                        Instr::Cmovle(..) => self.lt || self.zf,
                        Instr::Cmovg(..) => !self.lt && !self.zf,
                        _ => !self.lt,
                    };
                    if cond {
                        self.regs[reg_to_number(d) as usize] = self.regs[reg_to_number(s) as usize];
                    }
                }
                Instr::ShiftArithmeticRight(r, k) => {
                    let r = reg_to_number(r) as usize;
                    self.regs[r] >>= *k;
                }
                Instr::CallRustError(code) => {
                    if let Some(status) = error_report(*code).1 {
                        return Run::Exit(status);
                    }
                }
                Instr::CallRustPrint(r) => self.printed.push(print_line(self.regs[reg_to_number(r) as usize])),
            }
            pc = next;
        }
        Run::Value(self.regs[0])
    }
}

/// Drives a session the way the interactive program does, running the code
/// on the machine model instead of the processor.
struct Driver {
    session: Session,
    funcs: Vec<Instr>,
}

impl Driver {
    fn new() -> Self {
        Driver { session: Session::new(), funcs: vec![] }
    }

    fn run(&mut self, e: &viva::expressions::Expr) -> Result<Run, String> {
        let cells = self.session.define_cells(e);
        let ptrs: Vec<(String, i64)> = cells.iter().enumerate().map(|(k, (n, _))| (n.clone(), 4096 + 8 * k as i64)).collect();
        let code = self.session.compile_turn(e, &ptrs).map_err(|err| err.message())?;
        let mut prog = self.funcs.clone();
        let start = prog.len();
        prog.extend(code);
        let init: Vec<(i64, i64)> = cells.iter().zip(ptrs.iter()).map(|((_, v), (_, p))| (*p, *v)).collect();
        let mut m = Machine::new(&init);
        let outcome = m.run(&prog, start);
        let back: Vec<(String, i64)> = ptrs.iter().map(|(n, p)| (n.clone(), m.load(*p))).collect();
        self.session.store_cells(back);
        Ok(outcome)
    }

    fn feed(&mut self, line: &str) -> String {
        let command = line.trim().to_lowercase();
        let parsed = sexp::parse(&command).ok().map(|s| convert(&s));
        let form = match self.session.read_form(parsed) {
            Ok(f) => f,
            Err(message) => return message,
        };
        let cells = self.session.turn_cells(&form);
        let ptrs: Vec<(String, i64)> = cells.iter().enumerate().map(|(k, (n, _))| (n.clone(), 4096 + 8 * k as i64)).collect();
        match self.session.begin_turn(form, &ptrs) {
            TurnAction::Show(message) => message,
            TurnAction::Emit(code) => {
                self.funcs.extend(code);
                String::new()
            }
            TurnAction::Run(code, define) => {
                let mut prog = self.funcs.clone();
                let start = prog.len();
                prog.extend(code);
                let init: Vec<(i64, i64)> = cells.iter().zip(ptrs.iter()).map(|((_, v), (_, p))| (*p, *v)).collect();
                let mut m = Machine::new(&init);
                match m.run(&prog, start) {
                    Run::Value(v) => {
                        let back: Vec<(String, i64)> = ptrs.iter().map(|(n, p)| (n.clone(), m.load(*p))).collect();
                        self.session.end_turn(define, back, v).unwrap_or_default()
                    }
                    Run::Exit(status) => format!("exit {}", status),
                }
            }
        }
    }

    fn program(&mut self, source: &str) -> Result<Run, String> {
        let parsed = convert(&sexp::parse(&format!("({})", source)).map_err(|_| "Invalid: parse error".to_string())?);
        let prog = parse_prog(&parsed).map_err(|e| e.message())?;
        for d in prog.defs {
            let viva::expressions::Defenition::Fun(name, params, body) = d;
            let code = self.session.compile_function(name, params, body).map_err(|e| e.message())?;
            self.funcs.extend(code);
        }
        self.run(&prog.main)
    }
}

fn session_outputs(lines: &[&str]) -> Vec<String> {
    let mut d = Driver::new();
    lines.iter().map(|l| d.feed(l)).collect()
}

#[test]
fn scenario_plus() {
    assert_eq!(session_outputs(&["(+ 1 17)"]), vec!["18"]);
}

#[test]
fn scenario_let() {
    assert_eq!(session_outputs(&["(let ((x 1) (y 2)) (+ x y))"]), vec!["3"]);
}

#[test]
fn scenario_define_and_use() {
    assert_eq!(session_outputs(&["(define x 1)", "x", "(+ x 1)"]), vec!["", "1", "2"]);
}

#[test]
fn scenario_define_with_let() {
    assert_eq!(session_outputs(&["(define x (let ((x 17) (y 13)) (+ x y)))", "x"]), vec!["", "30"]);
}

#[test]
fn scenario_two_defines() {
    assert_eq!(
        session_outputs(&["(define x 98)", "(define y (let ((x 100) (y 300)) (+ x y)))", "(+ x y)"]),
        vec!["", "", "498"]
    );
}

#[test]
fn scenario_parse_error_then_go_on() {
    assert_eq!(session_outputs(&["(hello", "(+ 1 2)"]), vec!["Invalid: parse error", "3"]);
}

#[test]
fn scenario_duplicate_define() {
    assert_eq!(session_outputs(&["(define x 4)", "(define x 3)", "(+ 1 4)"]), vec!["", "Duplicate binding", "5"]);
}

#[test]
fn scenario_unbound() {
    assert_eq!(session_outputs(&["y"]), vec!["Unbound variable identifier y"]);
}

#[test]
fn scenario_overflow_exits_one() {
    assert_eq!(Driver::new().program("(+ 9223372036854775807 1)"), Ok(Run::Exit(1)));
    assert_eq!(error_report(1).0, "Runtime error: overflow");
}

#[test]
fn scenario_boolean_operand_exits_two() {
    assert_eq!(Driver::new().program("(+ 1 true)"), Ok(Run::Exit(2)));
    assert_eq!(error_report(2).0, "Runtime error: invalid argument");
}

#[test]
fn scenario_recursive_sum() {
    let r = Driver::new().program("(fun (f n) (if (= n 0) 0 (+ n (f (sub1 n))))) (f 10)");
    assert_eq!(r, Ok(Run::Value(110)));
    assert_eq!(format_viva_value(110), "55");
}

#[test]
fn arithmetic_results_and_overflow() {
    assert_eq!(session_outputs(&["(- 25 6)", "(* 4 5)", "(* -3 7)", "(add1 15)", "(sub1 18)"]), vec!["19", "20", "-21", "16", "17"]);
    assert_eq!(session_outputs(&["(+ 4611686018427387903 1)"]), vec!["exit 1"]);
    assert_eq!(session_outputs(&["(- -4611686018427387904 1)"]), vec!["exit 1"]);
    assert_eq!(session_outputs(&["(* 4611686018427387903 2)"]), vec!["exit 1"]);
    assert_eq!(session_outputs(&["(add1 4611686018427387903)"]), vec!["exit 1"]);
}

#[test]
fn boolean_operands_exit_two() {
    assert_eq!(session_outputs(&["(< true 1)", "(* 2 false)", "(add1 true)", "(- false true)"]), vec!["exit 2"; 4]);
}

#[test]
fn equality_needs_same_tags() {
    assert_eq!(session_outputs(&["(= 1 true)", "(= false 0)"]), vec!["exit 2", "exit 2"]);
    assert_eq!(session_outputs(&["(= 3 3)", "(= true false)", "(= true true)"]), vec!["true", "false", "true"]);
}

#[test]
fn comparisons_and_type_tests() {
    assert_eq!(
        session_outputs(&["(< 1 2)", "(>= 1 2)", "(> -5 -7)", "(<= 4 4)", "(isnum 3)", "(isbool 3)", "(isbool false)", "(isnum true)"]),
        vec!["true", "false", "true", "true", "true", "false", "true", "false"]
    );
}

#[test]
fn loops_blocks_and_sets() {
    let out = session_outputs(&[
        "(let ((i 0) (acc 0)) (loop (if (= i 5) (break acc) (block (set! acc (+ acc i)) (set! i (add1 i))))))",
    ]);
    assert_eq!(out, vec!["10"]);
}

#[test]
fn set_on_define_is_seen_later() {
    assert_eq!(session_outputs(&["(define x 1)", "(set! x 41)", "(add1 x)"]), vec!["", "41", "42"]);
}

#[test]
fn if_takes_else_for_anything_but_true() {
    assert_eq!(session_outputs(&["(if true 1 2)", "(if false 1 2)", "(if 3 1 2)"]), vec!["1", "2", "2"]);
}

#[test]
fn functions_in_the_session() {
    assert_eq!(
        session_outputs(&["(fun (double n) (* n 2))", "(double 21)", "(fun (double m) m)", "(fun (fact n) (if (= n 0) 1 (* n (fact (sub1 n)))))", "(fact 5)"]),
        vec!["", "42", "Invalid: parse error", "", "120"]
    );
}

#[test]
fn mutual_recursion_in_a_program() {
    let r = Driver::new().program(
        "(fun (even n) (if (= n 0) true (odd (sub1 n)))) (fun (odd n) (if (= n 0) false (even (sub1 n)))) (even 10)",
    );
    assert_eq!(r, Ok(Run::Value(3)));
}

#[test]
fn print_writes_and_keeps_value() {
    let mut d = Driver::new();
    let parsed = convert(&sexp::parse("(print (+ 1 2))").unwrap());
    let ReplExpr::Expr(e) = parse_repl_expr(&parsed, &d.session.func_names).unwrap() else { panic!("not an expression") };
    let cells = d.session.define_cells(&e);
    assert!(cells.is_empty());
    let code = d.session.compile_turn(&e, &vec![]).unwrap();
    let mut m = Machine::new(&[]);
    assert_eq!(m.run(&code, 0), Run::Value(6));
    assert_eq!(m.printed, vec!["3"]);
}

#[test]
fn product_checked_on_its_tagged_form() {
    assert_eq!(session_outputs(&["(* 1073741824 1073741823)"]), vec!["1152921503533105152"]);
    assert_eq!(session_outputs(&["(* 2147483648 1073741824)"]), vec!["2305843009213693952"]);
    assert_eq!(session_outputs(&["(* 2147483648 2147483648)"]), vec!["exit 1"]);
}

#[test]
fn failed_function_leaves_no_name_behind() {
    assert_eq!(
        session_outputs(&["(fun (g n) (+ n zz))", "(fun (g n) (+ n 1))", "(g 4)"]),
        vec!["Unbound variable identifier zz", "", "5"]
    );
}
