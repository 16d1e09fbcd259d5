use vstd::prelude::*;
use crate::compile::{unop_suffix, block_code, let_code, let_ext, binop_code, boolean_code, cmp_of, expr_code, fits63, id_code, is_arith, literal_code, number_code, size, store_code, SLOT_LIMIT};
use crate::compile_helpers::{CmpOp, both_numbers_guard, compare_code, compare_label, same_tag_guard};
use crate::text::label_spec;
use crate::context::bound;
use crate::compile_helpers::{TypeOp, istype_code};
use crate::expressions::{Expr, Op1, Op2};
use crate::instructions::{Ins, Instr, Reg, clobbers_rsp, rsp_effect};
use crate::value::{FALSE_VALUE, TRUE_VALUE, is_boolean, is_number, lemma_tag_untag, untag};

verus! {

/// The machine state that generated code reads and writes: registers,
/// memory (the stack and the `define` cells), and the flags that the
/// conditional instructions test.
pub struct Machine {
    pub regs: Map<Reg, i64>,
    pub mem: Map<int, i64>,
    /// The last result was zero, or the last comparison found equality.
    pub zf: bool,
    /// The last comparison found the left operand smaller (signed), or the
    /// last result was negative.
    pub lt: bool,
    /// The last arithmetic operation overflowed.
    pub of: bool,
}

/// How a run of an instruction list ends.
pub enum Outcome {
    /// Control ran off the end of the list.
    Done(Machine),
    /// The error hook ended the process with this status.
    Exit(int),
    /// Control left the list (a return or a jump to a label that it does
    /// not hold), or the step budget ran out.
    Open,
}

impl Machine {
    pub open spec fn reg(self, r: Reg) -> i64 {
        self.regs[r]
    }

    pub open spec fn set(self, r: Reg, v: i64) -> Machine {
        Machine { regs: self.regs.insert(r, v), ..self }
    }

    /// The address of the stack word `off` bytes below `rsp`.
    pub open spec fn slot(self, off: i32) -> int {
        self.reg(Reg::Rsp) - off
    }

    pub open spec fn arith(self, r: Reg, exact: int) -> Machine {
        let v = exact as i64;
        Machine {
            regs: self.regs.insert(r, v),
            zf: v == 0,
            lt: v < 0,
            of: !(i64::MIN <= exact <= i64::MAX),
            ..self
        }
    }

    pub open spec fn logic(self, r: Reg, v: i64) -> Machine {
        Machine { regs: self.regs.insert(r, v), zf: v == 0, lt: v < 0, of: false, ..self }
    }

    pub open spec fn compare(self, a: i64, b: i64) -> Machine {
        Machine { zf: a == b, lt: a < b, of: false, ..self }
    }

    pub open spec fn cmov(self, cond: bool, d: Reg, s: Reg) -> Machine {
        if cond { self.set(d, self.reg(s)) } else { self }
    }

    /// The state after a call of a runtime hook that returns: the hook keeps
    /// the callee-saved registers and the words from `rsp - 8` up, and may
    /// have written any other register and, with its return address and its
    /// frame, every word below `rsp - 8`.
    pub open spec fn after_hook(self) -> Machine {
        Machine {
            regs: Map::new(|r: Reg| callee_saved(r), |r: Reg| self.regs[r]),
            mem: Map::new(|a: int| a >= self.reg(Reg::Rsp) - 8, |a: int| self.mem[a]),
            ..self
        }
    }
}

/// The registers that a runtime hook keeps, as the calling convention asks.
pub open spec fn callee_saved(r: Reg) -> bool {
    r is Rbx || r is Rsp || r is R12
}

/// Whether an instruction is the label `name`.
pub open spec fn is_label(i: Ins, name: Seq<char>) -> bool {
    match i {
        Ins::Label(l) => l == name,
        _ => false,
    }
}

/// `t` is the index of the first `Label(name)` of a list.
pub open spec fn first_label_at(prog: Seq<Ins>, name: Seq<char>, t: int) -> bool {
    &&& 0 <= t < prog.len()
    &&& is_label(prog[t], name)
    &&& forall|j: int| 0 <= j < t ==> !is_label(#[trigger] prog[j], name)
}

/// The index of the first `Label(name)` of a list.
pub open spec fn find_label(prog: Seq<Ins>, name: Seq<char>) -> Option<int> {
    if exists|t: int| first_label_at(prog, name, t) {
        Some(choose|t: int| first_label_at(prog, name, t))
    } else {
        None
    }
}

/// The first label of a name is where a jump to it lands.
pub proof fn lemma_find_label(prog: Seq<Ins>, name: Seq<char>, t: int)
    requires
        first_label_at(prog, name, t),
    ensures
        find_label(prog, name) == Some(t),
{
    let u = choose|u: int| first_label_at(prog, name, u);
    assert(first_label_at(prog, name, u));
    if u < t {
        assert(!is_label(prog[u], name));
    } else if t < u {
        assert(!is_label(prog[t], name));
    }
}

/// The effect of an instruction that does not transfer control.
pub open spec fn exec(i: Ins, m: Machine) -> Machine {
    match i {
        Ins::Mov(r, v) => m.set(r, v),
        Ins::MovFromReg(d, s) => m.set(d, m.reg(s)),
        Ins::MovRaxFromRaxPtr => m.set(Reg::Rax, m.mem[m.reg(Reg::Rax) as int]),
        Ins::MovToPtrFromReg(p, s) => Machine { mem: m.mem.insert(m.reg(p) as int, m.reg(s)), ..m },
        Ins::Add(r, k) => m.arith(r, m.reg(r) + k),
        Ins::Sub(r, k) => m.arith(r, m.reg(r) - k),
        Ins::Or(d, s) => m.logic(d, m.reg(d) | m.reg(s)),
        Ins::Xor(d, s) => m.logic(d, m.reg(d) ^ m.reg(s)),
        Ins::AddRaxMemFromStack(off) => m.arith(Reg::Rax, m.reg(Reg::Rax) + m.mem[m.slot(off)]),
        Ins::SubRaxMemFromStack(off) => m.arith(Reg::Rax, m.reg(Reg::Rax) - m.mem[m.slot(off)]),
        Ins::MulRaxMemFromStack(off) => m.arith(Reg::Rax, m.reg(Reg::Rax) * m.mem[m.slot(off)]),
        Ins::MovToStack(r, off) => Machine { mem: m.mem.insert(m.slot(off), m.reg(r)), ..m },
        Ins::MovFromStack(r, off) => m.set(r, m.mem[m.slot(off)]),
        Ins::Compare(r) => m.compare(m.reg(r), 3),
        Ins::CompareWithMemory(r, off) => m.compare(m.reg(r), m.mem[m.slot(off)]),
        Ins::Test(r, k) => m.logic(r, m.reg(r) & (k as i64)).set(r, m.reg(r)),
        Ins::Cmove(d, s) => m.cmov(m.zf, d, s),
        Ins::Cmovne(d, s) => m.cmov(!m.zf, d, s),
        Ins::Cmovl(d, s) => m.cmov(m.lt, d, s),
        Ins::Cmovle(d, s) => m.cmov(m.lt || m.zf, d, s),
        Ins::Cmovg(d, s) => m.cmov(!m.lt && !m.zf, d, s),
        Ins::Cmovge(d, s) => m.cmov(!m.lt, d, s),
        Ins::ShiftArithmeticRight(r, k) => m.set(r, m.reg(r) >> (k as i64)),
        Ins::CallRustPrint(_) => m.after_hook(),
        _ => m,
    }
}

/// Runs `prog` from instruction `pc` for at most `fuel` steps.
pub open spec fn run(prog: Seq<Ins>, pc: int, m: Machine, fuel: nat) -> Outcome
    decreases fuel,
{
    if pc < 0 || pc > prog.len() {
        Outcome::Open
    } else if pc == prog.len() {
        Outcome::Done(m)
    } else if fuel == 0 {
        Outcome::Open
    } else {
        let jump = |name: Seq<char>|
            match find_label(prog, name) {
                Some(t) => run(prog, t, m, (fuel - 1) as nat),
                None => Outcome::Open,
            };
        match prog[pc] {
            Ins::CallRustError(code) => if code == 1 || code == 2 {
                Outcome::Exit(code as int)
            } else {
                run(prog, pc + 1, m.after_hook(), (fuel - 1) as nat)
            },
            Ins::Jmp(l) => jump(l),
            Ins::Je(l) => if m.zf { jump(l) } else { run(prog, pc + 1, m, (fuel - 1) as nat) },
            Ins::Jne(l) => if !m.zf { jump(l) } else { run(prog, pc + 1, m, (fuel - 1) as nat) },
            Ins::Jno(l) => if !m.of { jump(l) } else { run(prog, pc + 1, m, (fuel - 1) as nat) },
            Ins::JmpReg(_) => Outcome::Open,
            i => run(prog, pc + 1, exec(i, m), (fuel - 1) as nat),
        }
    }
}

/// The value that a run leaves in `rax` when it runs off the end.
pub open spec fn result_of(o: Outcome) -> Option<i64> {
    match o {
        Outcome::Done(m) => Some(m.reg(Reg::Rax)),
        _ => None,
    }
}

/// A number literal that fits in 63 bits compiles to code that leaves its
/// tagged word in `rax`, and that word shifted right by one is the number.
pub proof fn lemma_number_result(n: i64, m: Machine)
    requires
        fits63(n as int),
    ensures
        result_of(run(number_code(n), 0, m, 1)) == Some((2 * n) as i64),
        untag((2 * n) as i64) == n,
{
    lemma_tag_untag(n);
    let prog = number_code(n);
    assert(run(prog, 1, exec(prog[0], m), 0) == Outcome::Done(exec(prog[0], m)));
    assert(exec(prog[0], m).reg(Reg::Rax) == (2 * n) as i64);
}

/// A boolean literal leaves `3` in `rax` for true and `1` for false.
pub proof fn lemma_boolean_result(b: bool, m: Machine)
    ensures
        result_of(run(boolean_code(b), 0, m, 1)) == Some(if b { TRUE_VALUE } else { FALSE_VALUE }),
{
    let prog = boolean_code(b);
    assert(run(prog, 1, exec(prog[0], m), 0) == Outcome::Done(exec(prog[0], m)));
    assert(exec(prog[0], m).reg(Reg::Rax) == (if b { 3i64 } else { 1i64 }));
}

/// A type test leaves `true` exactly when the tag of the tested word
/// matches: `isnum` for low bit 0, `isbool` for low bit 1.
pub proof fn lemma_istype_result(op: TypeOp, m: Machine)
    ensures
        result_of(run(istype_code(op), 0, m, 4)) == Some(
            if (match op {
                TypeOp::Num => is_number(m.reg(Reg::Rax)),
                TypeOp::Bool => is_boolean(m.reg(Reg::Rax)),
            }) { TRUE_VALUE } else { FALSE_VALUE },
        ),
{
    let prog = istype_code(op);
    let v = m.reg(Reg::Rax);
    let m1 = exec(prog[0], m);
    let m2 = exec(prog[1], m1);
    let m3 = exec(prog[2], m2);
    let m4 = exec(prog[3], m3);
    assert(run(prog, 4, m4, 0) == Outcome::Done(m4));
    assert(run(prog, 3, m3, 1) == Outcome::Done(m4));
    assert(run(prog, 2, m2, 2) == Outcome::Done(m4));
    assert(run(prog, 1, m1, 3) == Outcome::Done(m4));
    assert(m1.zf == ((v & 1) == 0));
    assert(m3.reg(Reg::Rax) == 1 && m3.reg(Reg::R10) == 3 && m3.zf == m1.zf);
    assert((v & 1) != 0 ==> (v & 1) == 1) by (bit_vector);
}


/// The exact integer result of an arithmetic operator.
pub open spec fn arith_result(op: Op2, x: int, y: int) -> int {
    match op {
        Op2::Plus => x + y,
        Op2::Minus => x - y,
        _ => x * y,
    }
}

/// An instruction that neither transfers control nor exits.
pub open spec fn plain(i: Ins) -> bool {
    !(i is CallRustError || i is Jmp || i is Je || i is Jne || i is Jno || i is JmpReg)
}

proof fn lemma_plain_step(prog: Seq<Ins>, pc: int, m: Machine, fuel: nat)
    requires
        0 <= pc < prog.len(),
        fuel > 0,
        plain(prog[pc]),
    ensures
        run(prog, pc, m, fuel) == run(prog, pc + 1, exec(prog[pc], m), (fuel - 1) as nat),
{
}

proof fn lemma_jump_step(prog: Seq<Ins>, pc: int, m: Machine, fuel: nat, name: Seq<char>, t: int)
    requires
        0 <= pc < prog.len(),
        fuel > 0,
        first_label_at(prog, name, t),
        prog[pc] matches Ins::Je(l) ==> l == name && m.zf,
        prog[pc] matches Ins::Jno(l) ==> l == name && !m.of,
        prog[pc] is Je || prog[pc] is Jno,
    ensures
        run(prog, pc, m, fuel) == run(prog, t, m, (fuel - 1) as nat),
{
    lemma_find_label(prog, name, t);
}

/// The first eleven instructions of arithmetic on two literals: both
/// operands are numbers, so the guard passes, and `rax` holds the second
/// tagged operand with the first in its stack slot.
proof fn lemma_arith_prefix(op: Op2, x: i64, y: i64, si: int, ok1: Seq<char>, ok2: Seq<char>, m: Machine) -> (m10: Machine)
    requires
        is_arith(op),
        fits63(x as int),
        fits63(y as int),
        0 <= si <= SLOT_LIMIT,
    ensures
        run(binop_code(op, number_code(x), number_code(y), si, ok1, ok2), 0, m, 20)
            == run(binop_code(op, number_code(x), number_code(y), si, ok1, ok2), 11, m10, 10),
        m10.reg(Reg::Rax) == 2 * (if op is Minus { x } else { y }),
        m10.mem[m10.reg(Reg::Rsp) - (si * 8) as i32] == 2 * (if op is Minus { y } else { x }),
{
    let prog = binop_code(op, number_code(x), number_code(y), si, ok1, ok2);
    let off = (si * 8) as i32;
    let (f, g) = if op is Minus { (y, x) } else { (x, y) };
    lemma_tag_untag(f);
    lemma_tag_untag(g);
    let tf: i64 = (2 * f) as i64;
    let tg: i64 = (2 * g) as i64;
    assert(prog[9] == Ins::Label(ok1));
    assert forall|j: int| 0 <= j < 9 implies !is_label(#[trigger] prog[j], ok1) by {}
    let m1 = exec(prog[0], m);
    let m2 = exec(prog[1], m1);
    let m3 = exec(prog[2], m2);
    let m4 = exec(prog[3], m3);
    let m5 = exec(prog[4], m4);
    let m6 = exec(prog[5], m5);
    let m7 = exec(prog[6], m6);
    let m9 = exec(prog[9], m7);
    let m10 = exec(prog[10], m9);
    lemma_plain_step(prog, 0, m, 20);
    lemma_plain_step(prog, 1, m1, 19);
    lemma_plain_step(prog, 2, m2, 18);
    lemma_plain_step(prog, 3, m3, 17);
    lemma_plain_step(prog, 4, m4, 16);
    lemma_plain_step(prog, 5, m5, 15);
    lemma_plain_step(prog, 6, m6, 14);
    assert(m5.reg(Reg::R8) == tf);
    assert(m6.reg(Reg::Rax) == tg | tf);
    assert(((tf & 1) == 0 && (tg & 1) == 0) ==> ((tg | tf) & 1) == 0) by (bit_vector);
    assert(m7.zf);
    lemma_jump_step(prog, 7, m7, 13, ok1, 9);
    lemma_plain_step(prog, 9, m7, 12);
    lemma_plain_step(prog, 10, m9, 11);
    assert(m10.reg(Reg::Rax) == tg);
    assert(m10.reg(Reg::Rsp) == m.reg(Reg::Rsp));
    m10
}

/// Arithmetic on two number literals: when the exact result fits in 63
/// bits, the code leaves its tagged word in `rax`; when it does not, the
/// code exits with status 1.
#[verifier::spinoff_prover]
#[verifier::rlimit(100)]
pub proof fn lemma_arith_literals(op: Op2, x: i64, y: i64, si: int, ok1: Seq<char>, ok2: Seq<char>, m: Machine)
    requires
        is_arith(op),
        fits63(x as int),
        fits63(y as int),
        ok1 != ok2,
        0 <= si <= SLOT_LIMIT,
    ensures
        fits63(arith_result(op, x as int, y as int)) ==> {
            &&& result_of(run(binop_code(op, number_code(x), number_code(y), si, ok1, ok2), 0, m, 20))
                == Some((2 * arith_result(op, x as int, y as int)) as i64)
            &&& untag((2 * arith_result(op, x as int, y as int)) as i64) == arith_result(op, x as int, y as int)
        },
        !fits63(arith_result(op, x as int, y as int)) ==>
            run(binop_code(op, number_code(x), number_code(y), si, ok1, ok2), 0, m, 20) == Outcome::Exit(1),
{
    let prog = binop_code(op, number_code(x), number_code(y), si, ok1, ok2);
    let exact = arith_result(op, x as int, y as int);
    let m10 = lemma_arith_prefix(op, x, y, si, ok1, ok2, m);
    let off = (si * 8) as i32;
    let t: int = if op is Times { 1 } else { 0 };
    assert(prog.len() == 15 + t);
    assert(prog[12 + t] == Ins::Jno(ok2));
    assert(prog[13 + t] == Ins::CallRustError(1));
    assert(prog[14 + t] == Ins::Label(ok2));
    assert forall|j: int| 0 <= j < 14 + t implies !is_label(#[trigger] prog[j], ok2) by {}
    let m11 = exec(prog[11], m10);
    lemma_plain_step(prog, 11, m10, 10);
    let mo = if op is Times { exec(prog[12], m11) } else { m11 };
    if op is Times {
        assert(prog[11] == Ins::ShiftArithmeticRight(Reg::Rax, 1));
        assert(prog[12] == Ins::MulRaxMemFromStack(off));
        lemma_plain_step(prog, 12, m11, 9);
        let ty: i64 = (2 * y) as i64;
        lemma_tag_untag(y);
        assert(m11.reg(Reg::Rax) == y);
        assert(mo.reg(Reg::Rax) == (y * (2 * x)) as i64);
        assert(y * (2 * x) == 2 * (x * y)) by (nonlinear_arith);
        assert(mo.of == !(i64::MIN <= 2 * (x * y) <= i64::MAX));
    } else {
        assert(mo.of == !(i64::MIN <= 2 * exact <= i64::MAX));
        assert(mo.reg(Reg::Rax) == (2 * exact) as i64);
    }
    assert(fits63(exact) ==> !mo.of);
    assert(!fits63(exact) ==> mo.of);
    let f: nat = (9 - t) as nat;
    assert(run(prog, 0, m, 20) == run(prog, 12 + t, mo, f));
    if mo.of {
        assert(run(prog, 12 + t, mo, f) == run(prog, 13 + t, mo, (f - 1) as nat));
        assert(run(prog, 13 + t, mo, (f - 1) as nat) == Outcome::Exit(1));
    } else {
        lemma_jump_step(prog, 12 + t, mo, f, ok2, 14 + t);
        let m14 = exec(prog[14 + t], mo);
        lemma_plain_step(prog, 14 + t, mo, (f - 1) as nat);
        assert(run(prog, 15 + t, m14, (f - 2) as nat) == Outcome::Done(m14));
        lemma_tag_untag(exact as i64);
        if op is Times {
            assert(mo.reg(Reg::Rax) == (2 * exact) as i64);
        }
    }
}

/// The tagged word of a literal.
pub open spec fn literal_word(e: Expr) -> i64 {
    match e {
        Expr::Number(n) => (2 * n) as i64,
        Expr::Boolean(b) => if b { TRUE_VALUE } else { FALSE_VALUE },
        _ => 0,
    }
}

/// A literal whose code is a single move of its tagged word.
pub open spec fn plain_literal(e: Expr) -> bool {
    match e {
        Expr::Number(n) => fits63(n as int),
        Expr::Boolean(_) => true,
        _ => false,
    }
}

proof fn lemma_literal_code(e: Expr)
    requires
        plain_literal(e),
    ensures
        literal_code(e) == seq![Ins::Mov(Reg::Rax, literal_word(e))],
        e is Number ==> is_number(literal_word(e)),
        e is Boolean ==> is_boolean(literal_word(e)),
{
    crate::value::lemma_boolean_words();
    if let Expr::Number(n) = e {
        lemma_tag_untag(n);
    }
}

/// The shared start of a guarded binary operator: one word moved to `rax`
/// and spilled, the other moved to `rax`, then the tag test. When the test
/// fails, the code exits with status 2.
proof fn lemma_guard_fails(prog: Seq<Ins>, w1: i64, w2: i64, off: i32, ok: Seq<char>, xor: bool, m: Machine)
    requires
        prog.len() > 9,
        prog[0] == Ins::Mov(Reg::Rax, w1),
        prog[1] == Ins::MovToStack(Reg::Rax, off),
        prog[2] == Ins::Mov(Reg::Rax, w2),
        prog[3] == Ins::MovFromReg(Reg::R11, Reg::Rax),
        prog[4] == Ins::MovFromStack(Reg::R8, off),
        prog[5] == if xor { Ins::Xor(Reg::Rax, Reg::R8) } else { Ins::Or(Reg::Rax, Reg::R8) },
        prog[6] == Ins::Test(Reg::Rax, 1),
        prog[7] == Ins::Je(ok),
        prog[8] == Ins::CallRustError(2),
        if xor { ((w2 ^ w1) & 1) != 0 } else { ((w2 | w1) & 1) != 0 },
    ensures
        run(prog, 0, m, 20) == Outcome::Exit(2),
{
    let m1 = exec(prog[0], m);
    let m2 = exec(prog[1], m1);
    let m3 = exec(prog[2], m2);
    let m4 = exec(prog[3], m3);
    let m5 = exec(prog[4], m4);
    let m6 = exec(prog[5], m5);
    let m7 = exec(prog[6], m6);
    lemma_plain_step(prog, 0, m, 20);
    lemma_plain_step(prog, 1, m1, 19);
    lemma_plain_step(prog, 2, m2, 18);
    lemma_plain_step(prog, 3, m3, 17);
    lemma_plain_step(prog, 4, m4, 16);
    lemma_plain_step(prog, 5, m5, 15);
    lemma_plain_step(prog, 6, m6, 14);
    assert(m5.reg(Reg::R8) == w1);
    assert(m5.reg(Reg::Rax) == w2);
    assert(!m7.zf);
    assert(run(prog, 7, m7, 13) == run(prog, 8, m7, 12));
    assert(run(prog, 8, m7, 12) == Outcome::Exit(2));
}

/// A binary operator other than equality, on two literals of which at least
/// one is a boolean, exits with status 2 (invalid argument).
pub proof fn lemma_boolean_operand_exits(op: Op2, a: Expr, b: Expr, si: int, ok1: Seq<char>, ok2: Seq<char>, m: Machine)
    requires
        !(op is Equal),
        plain_literal(a),
        plain_literal(b),
        a is Boolean || b is Boolean,
        0 <= si <= SLOT_LIMIT,
    ensures
        run(binop_code(op, literal_code(a), literal_code(b), si, ok1, ok2), 0, m, 20) == Outcome::Exit(2),
{
    lemma_literal_code(a);
    lemma_literal_code(b);
    let prog = binop_code(op, literal_code(a), literal_code(b), si, ok1, ok2);
    let wa = literal_word(a);
    let wb = literal_word(b);
    assert((wa & 1) == 1 || (wb & 1) == 1);
    assert(((wa & 1) == 1 || (wb & 1) == 1) ==> ((wa | wb) & 1) != 0 && ((wb | wa) & 1) != 0) by (bit_vector);
    let off = (si * 8) as i32;
    if is_arith(op) {
        if op is Minus {
            lemma_guard_fails(prog, wb, wa, off, ok1, false, m);
        } else {
            lemma_guard_fails(prog, wa, wb, off, ok1, false, m);
        }
    } else {
        lemma_guard_fails(prog, wb, wa, (off + 8) as i32, ok1, false, m);
    }
}

/// Equality of a number literal and a boolean literal, in either order,
/// exits with status 2: its operands must carry the same tag.
pub proof fn lemma_equal_mixed_tags_exits(a: Expr, b: Expr, si: int, ok1: Seq<char>, ok2: Seq<char>, m: Machine)
    requires
        plain_literal(a),
        plain_literal(b),
        (a is Number && b is Boolean) || (a is Boolean && b is Number),
        0 <= si <= SLOT_LIMIT,
    ensures
        run(binop_code(Op2::Equal, literal_code(a), literal_code(b), si, ok1, ok2), 0, m, 20) == Outcome::Exit(2),
{
    lemma_literal_code(a);
    lemma_literal_code(b);
    let prog = binop_code(Op2::Equal, literal_code(a), literal_code(b), si, ok1, ok2);
    let wa = literal_word(a);
    let wb = literal_word(b);
    assert(((wa & 1) == 0 && (wb & 1) == 1) || ((wa & 1) == 1 && (wb & 1) == 0));
    assert((((wa & 1) == 0 && (wb & 1) == 1) || ((wa & 1) == 1 && (wb & 1) == 0)) ==> ((wa ^ wb) & 1) != 0) by (bit_vector);
    lemma_guard_fails(prog, wb, wa, ((si * 8) as i32 + 8) as i32, ok1, true, m);
}


/// Every instruction changes `rsp` by exactly its explicit adjustment, as
/// long as `rsp` stays a machine word: so a list whose adjustments cancel
/// out and that writes `rsp` no other way leaves `rsp` where it found it
/// along any straight run through it.
pub proof fn lemma_exec_rsp(i: Instr, m: Machine)
    requires
        !clobbers_rsp(i),
        i64::MIN <= m.reg(Reg::Rsp) + rsp_effect(i) <= i64::MAX,
    ensures
        exec(i@, m).reg(Reg::Rsp) == m.reg(Reg::Rsp) + rsp_effect(i),
{
}


/// Within one turn, an assignment to a `define`d name that has a cell,
/// followed by a read of that name, reads the value just assigned.
pub proof fn lemma_cell_assign_then_read(
    x: Seq<char>,
    env: Seq<(String, i32)>,
    ptrs: Seq<(String, i64)>,
    defs: Seq<(String, i64)>,
    m: Machine,
)
    requires
        x != "input"@,
        !bound(env, x),
        bound(ptrs, x),
    ensures
        result_of(run(store_code(x, env, ptrs) + id_code(x, env, ptrs, defs), 0, m, 4)) == Some(m.reg(Reg::Rax)),
{
    let prog = store_code(x, env, ptrs) + id_code(x, env, ptrs, defs);
    assert(prog.len() == 4);
    let m1 = exec(prog[0], m);
    let m2 = exec(prog[1], m1);
    let m3 = exec(prog[2], m2);
    let m4 = exec(prog[3], m3);
    lemma_plain_step(prog, 0, m, 4);
    lemma_plain_step(prog, 1, m1, 3);
    lemma_plain_step(prog, 2, m2, 2);
    lemma_plain_step(prog, 3, m3, 1);
    assert(run(prog, 4, m4, 0) == Outcome::Done(m4));
    assert(m4.reg(Reg::Rax) == m.reg(Reg::Rax));
}


/// Guard labels of different kinds never coincide: they differ in their
/// first character.
proof fn lemma_guard_labels_differ(i: int, j: int)
    ensures
        label_spec("bool_ok"@, i) != label_spec("no_overflow"@, j),
{
    reveal_strlit("bool_ok");
    reveal_strlit("no_overflow");
    assert(label_spec("bool_ok"@, i)[0] != label_spec("no_overflow"@, j)[0]);
}

/// The arithmetic law for the code that the generator gives: arithmetic on
/// two number literals, compiled in any context, leaves the tagged exact
/// result when it fits in 63 bits and exits with status 1 when it does not.
pub proof fn lemma_compiled_arith(
    op: Op2,
    x: i64,
    y: i64,
    env: Seq<(String, i32)>,
    si: int,
    ptrs: Seq<(String, i64)>,
    defs: Seq<(String, i64)>,
    brk: int,
    ids: int,
    m: Machine,
)
    requires
        is_arith(op),
        fits63(x as int),
        fits63(y as int),
        0 <= si <= SLOT_LIMIT,
    ensures
        fits63(arith_result(op, x as int, y as int)) ==> result_of(run(expr_code(
            Expr::BinOp(op, Box::new(Expr::Number(x)), Box::new(Expr::Number(y))), env, si, ptrs, defs, brk, ids), 0, m, 20))
            == Some((2 * arith_result(op, x as int, y as int)) as i64),
        !fits63(arith_result(op, x as int, y as int)) ==> run(expr_code(
            Expr::BinOp(op, Box::new(Expr::Number(x)), Box::new(Expr::Number(y))), env, si, ptrs, defs, brk, ids), 0, m, 20)
            == Outcome::Exit(1),
{
    let e = Expr::BinOp(op, Box::new(Expr::Number(x)), Box::new(Expr::Number(y)));
    let ok1 = label_spec("bool_ok"@, ids + 1);
    let ok2 = label_spec("no_overflow"@, ids + 2);
    lemma_guard_labels_differ(ids + 1, ids + 2);
    assert(size(Expr::Number(x)) == 0 && size(Expr::Number(y)) == 0);
    assert(expr_code(Expr::Number(x), env, si, ptrs, defs, brk, ids) == number_code(x));
    assert(expr_code(Expr::Number(x), env, si + 1, ptrs, defs, brk, ids) == number_code(x));
    assert(expr_code(Expr::Number(y), env, si, ptrs, defs, brk, ids) == number_code(y));
    assert(expr_code(Expr::Number(y), env, si + 1, ptrs, defs, brk, ids) == number_code(y));
    assert(expr_code(e, env, si, ptrs, defs, brk, ids) == binop_code(op, number_code(x), number_code(y), si, ok1, ok2));
    lemma_arith_literals(op, x, y, si, ok1, ok2, m);
}

/// The invalid-argument law for the code that the generator gives: an
/// operator other than equality on two literals of which one is a boolean,
/// compiled in any context, exits with status 2.
pub proof fn lemma_compiled_boolean_operand(
    op: Op2,
    a: Expr,
    b: Expr,
    env: Seq<(String, i32)>,
    si: int,
    ptrs: Seq<(String, i64)>,
    defs: Seq<(String, i64)>,
    brk: int,
    ids: int,
    m: Machine,
)
    requires
        !(op is Equal),
        plain_literal(a),
        plain_literal(b),
        a is Boolean || b is Boolean,
        0 <= si <= SLOT_LIMIT,
    ensures
        run(expr_code(Expr::BinOp(op, Box::new(a), Box::new(b)), env, si, ptrs, defs, brk, ids), 0, m, 20)
            == Outcome::Exit(2),
{
    let e = Expr::BinOp(op, Box::new(a), Box::new(b));
    assert(size(a) == 0 && size(b) == 0);
    assert(expr_code(a, env, si, ptrs, defs, brk, ids) == literal_code(a));
    assert(expr_code(a, env, si + 2, ptrs, defs, brk, ids) == literal_code(a));
    assert(expr_code(b, env, si, ptrs, defs, brk, ids) == literal_code(b));
    assert(expr_code(b, env, si + 1, ptrs, defs, brk, ids) == literal_code(b));
    assert(expr_code(a, env, si + 1, ptrs, defs, brk, ids) == literal_code(a));
    let ok1 = if is_arith(op) { label_spec("bool_ok"@, ids + 1) } else { label_spec(compare_label(cmp_of(op)), ids + 1) };
    let ok2 = if is_arith(op) { label_spec("no_overflow"@, ids + 2) } else { Seq::empty() };
    assert(expr_code(e, env, si, ptrs, defs, brk, ids) == binop_code(op, literal_code(a), literal_code(b), si, ok1, ok2));
    lemma_boolean_operand_exits(op, a, b, si, ok1, ok2, m);
}

/// The same-tag law for the code that the generator gives: equality of a
/// number literal and a boolean literal exits with status 2.
pub proof fn lemma_compiled_equal_mixed_tags(
    a: Expr,
    b: Expr,
    env: Seq<(String, i32)>,
    si: int,
    ptrs: Seq<(String, i64)>,
    defs: Seq<(String, i64)>,
    brk: int,
    ids: int,
    m: Machine,
)
    requires
        plain_literal(a),
        plain_literal(b),
        (a is Number && b is Boolean) || (a is Boolean && b is Number),
        0 <= si <= SLOT_LIMIT,
    ensures
        run(expr_code(Expr::BinOp(Op2::Equal, Box::new(a), Box::new(b)), env, si, ptrs, defs, brk, ids), 0, m, 20)
            == Outcome::Exit(2),
{
    let e = Expr::BinOp(Op2::Equal, Box::new(a), Box::new(b));
    assert(size(a) == 0 && size(b) == 0);
    assert(expr_code(a, env, si + 2, ptrs, defs, brk, ids) == literal_code(a));
    assert(expr_code(b, env, si, ptrs, defs, brk, ids) == literal_code(b));
    let ok1 = label_spec("equal_ok"@, ids + 1);
    assert(expr_code(e, env, si, ptrs, defs, brk, ids) == binop_code(Op2::Equal, literal_code(a), literal_code(b), si, ok1, Seq::empty()));
    lemma_equal_mixed_tags_exits(a, b, si, ok1, Seq::empty(), m);
}


/// An instruction that leaves `rsp` alone.
pub open spec fn keeps_rsp(i: Ins) -> bool {
    match i {
        Ins::Mov(r, _) => r != Reg::Rsp,
        Ins::MovFromReg(r, _) => r != Reg::Rsp,
        Ins::MovFromStack(r, _) => r != Reg::Rsp,
        Ins::Add(r, _) => r != Reg::Rsp,
        Ins::Sub(r, _) => r != Reg::Rsp,
        Ins::Or(r, _) => r != Reg::Rsp,
        Ins::Xor(r, _) => r != Reg::Rsp,
        Ins::Cmove(r, _) => r != Reg::Rsp,
        Ins::Cmovne(r, _) => r != Reg::Rsp,
        Ins::Cmovl(r, _) => r != Reg::Rsp,
        Ins::Cmovle(r, _) => r != Reg::Rsp,
        Ins::Cmovg(r, _) => r != Reg::Rsp,
        Ins::Cmovge(r, _) => r != Reg::Rsp,
        Ins::ShiftArithmeticRight(r, _) => r != Reg::Rsp,
        _ => true,
    }
}

/// Code none of whose instructions moves `rsp` (the generator's code for
/// an expression without calls, whose only `rsp` writes are the adjustments
/// around a call) ends every run that ends normally with `rsp` where it
/// started, whatever branches and loops it takes.
pub proof fn lemma_run_keeps_rsp(prog: Seq<Ins>, pc: int, m: Machine, fuel: nat)
    requires
        forall|k: int| 0 <= k < prog.len() ==> keeps_rsp(#[trigger] prog[k]),
    ensures
        run(prog, pc, m, fuel) matches Outcome::Done(m2) ==> m2.reg(Reg::Rsp) == m.reg(Reg::Rsp),
    decreases fuel,
{
    if 0 <= pc < prog.len() && fuel > 0 {
        let i = prog[pc];
        assert(keeps_rsp(i));
        match i {
            Ins::Jmp(l) => {
                if let Some(t) = find_label(prog, l) {
                    lemma_run_keeps_rsp(prog, t, m, (fuel - 1) as nat);
                }
            },
            Ins::Je(l) | Ins::Jne(l) | Ins::Jno(l) => {
                lemma_run_keeps_rsp(prog, pc + 1, m, (fuel - 1) as nat);
                if let Some(t) = find_label(prog, l) {
                    lemma_run_keeps_rsp(prog, t, m, (fuel - 1) as nat);
                }
            },
            Ins::CallRustError(_) => {
                assert(m.after_hook().reg(Reg::Rsp) == m.reg(Reg::Rsp));
                lemma_run_keeps_rsp(prog, pc + 1, m.after_hook(), (fuel - 1) as nat);
            },
            Ins::JmpReg(_) => {},
            _ => {
                assert(exec(i, m).reg(Reg::Rsp) == m.reg(Reg::Rsp));
                lemma_run_keeps_rsp(prog, pc + 1, exec(i, m), (fuel - 1) as nat);
            },
        }
    }
}


/// Whether an expression makes no call.
pub open spec fn call_free(e: Expr) -> bool
    decreases e,
{
    match e {
        Expr::Let(bs, body) => (forall|k: int| 0 <= k < bs@.len() ==> call_free(#[trigger] bs@[k].1)) && call_free(*body),
        Expr::UnOp(_, x) => call_free(*x),
        Expr::BinOp(_, a, b) => call_free(*a) && call_free(*b),
        Expr::If(c, t, f) => call_free(*c) && call_free(*t) && call_free(*f),
        Expr::Loop(x) => call_free(*x),
        Expr::Break(x) => call_free(*x),
        Expr::Assign(_, x) => call_free(*x),
        Expr::Block(es) => forall|k: int| 0 <= k < es@.len() ==> call_free(#[trigger] es@[k]),
        Expr::Call(_, _) => false,
        _ => true,
    }
}

pub open spec fn all_keep_rsp(s: Seq<Ins>) -> bool {
    forall|k: int| 0 <= k < s.len() ==> keeps_rsp(#[trigger] s[k])
}

proof fn lemma_keep_concat(a: Seq<Ins>, b: Seq<Ins>)
    requires
        all_keep_rsp(a),
        all_keep_rsp(b),
    ensures
        all_keep_rsp(a + b),
{
    assert forall|k: int| 0 <= k < (a + b).len() implies keeps_rsp(#[trigger] (a + b)[k]) by {
        if k < a.len() {
            assert((a + b)[k] == a[k]);
        } else {
            assert((a + b)[k] == b[k - a.len()]);
        }
    }
}

/// The code of an expression without calls never moves `rsp`; with
/// `lemma_run_keeps_rsp`, every run of it that ends normally leaves `rsp`
/// where it found it.
#[verifier::spinoff_prover]
#[verifier::rlimit(100)]
pub proof fn lemma_call_free_keeps_rsp(
    e: Expr,
    env: Seq<(String, i32)>,
    si: int,
    ptrs: Seq<(String, i64)>,
    defs: Seq<(String, i64)>,
    brk: int,
    ids: int,
)
    requires
        call_free(e),
    ensures
        all_keep_rsp(expr_code(e, env, si, ptrs, defs, brk, ids)),
    decreases e,
{
    match e {
        Expr::Let(bs, body) => {
            lemma_let_keeps_rsp(bs@, env, si, ptrs, defs, brk, ids);
            lemma_call_free_keeps_rsp(*body, env + let_ext(bs@, si, bs@.len() as int), si + bs@.len(), ptrs, defs, brk,
                ids + crate::compile::let_size(bs@));
            lemma_keep_concat(let_code(bs@, env, si, ptrs, defs, brk, ids), expr_code(*body, env + let_ext(bs@, si,
                bs@.len() as int), si + bs@.len(), ptrs, defs, brk, ids + crate::compile::let_size(bs@)));
        },
        Expr::UnOp(op, x) => {
            lemma_call_free_keeps_rsp(*x, env, si, ptrs, defs, brk, ids);
            let c = expr_code(e, env, si, ptrs, defs, brk, ids);
            assert forall|k: int| 0 <= k < c.len() implies keeps_rsp(#[trigger] c[k]) by {
                let cx = expr_code(*x, env, si, ptrs, defs, brk, ids);
                if k < cx.len() {
                    assert(c[k] == cx[k]);
                }
            }
        },
        Expr::BinOp(op, a, b) => {
            lemma_call_free_keeps_rsp(*a, env, si, ptrs, defs, brk, ids);
            lemma_call_free_keeps_rsp(*b, env, si, ptrs, defs, brk, ids);
            lemma_call_free_keeps_rsp(*a, env, si + 1, ptrs, defs, brk, ids + size(*b));
            lemma_call_free_keeps_rsp(*b, env, si + 1, ptrs, defs, brk, ids + size(*a));
            lemma_call_free_keeps_rsp(*a, env, si + 2, ptrs, defs, brk, ids + size(*b));
            let c = expr_code(e, env, si, ptrs, defs, brk, ids);
            let (f, g) = if op is Minus { (*b, *a) } else { (*a, *b) };
            let cf = expr_code(f, env, si, ptrs, defs, brk, ids);
            let cg = expr_code(g, env, si + 1, ptrs, defs, brk, ids + size(f));
            let cb = expr_code(*b, env, si, ptrs, defs, brk, ids);
            let ca = expr_code(*a, env, si + 2, ptrs, defs, brk, ids + size(*b));
            assert forall|k: int| 0 <= k < c.len() implies keeps_rsp(#[trigger] c[k]) by {
                if is_arith(op) {
                    if k < cf.len() {
                        assert(c[k] == cf[k]);
                    } else if cf.len() < k < cf.len() + 1 + cg.len() {
                        assert(c[k] == cg[k - cf.len() - 1]);
                    }
                } else {
                    if k < cb.len() {
                        assert(c[k] == cb[k]);
                    } else if cb.len() < k < cb.len() + 1 + ca.len() {
                        assert(c[k] == ca[k - cb.len() - 1]);
                    }
                }
            }
        },
        Expr::If(c0, t, f) => {
            lemma_call_free_keeps_rsp(*c0, env, si, ptrs, defs, brk, ids + 1);
            lemma_call_free_keeps_rsp(*t, env, si, ptrs, defs, brk, ids + 1 + size(*c0));
            lemma_call_free_keeps_rsp(*f, env, si + 1, ptrs, defs, brk, ids + 1 + size(*c0) + size(*t));
            let cc = expr_code(*c0, env, si, ptrs, defs, brk, ids + 1);
            let ct = expr_code(*t, env, si, ptrs, defs, brk, ids + 1 + size(*c0));
            let cf = expr_code(*f, env, si + 1, ptrs, defs, brk, ids + 1 + size(*c0) + size(*t));
            let l1 = label_spec("else_branch"@, ids + 1);
            let l2 = label_spec("if_statement_end"@, ids + 1);
            let s1 = seq![Ins::Compare(Reg::Rax), Ins::Jne(l1)];
            let s2 = seq![Ins::Jmp(l2), Ins::Label(l1)];
            let s3 = seq![Ins::Label(l2)];
            lemma_keep_concat(cc, s1);
            lemma_keep_concat(cc + s1, ct);
            lemma_keep_concat(cc + s1 + ct, s2);
            lemma_keep_concat(cc + s1 + ct + s2, cf);
            lemma_keep_concat(cc + s1 + ct + s2 + cf, s3);
        },
        Expr::Loop(x) => {
            lemma_call_free_keeps_rsp(*x, env, si, ptrs, defs, ids + 1, ids + 1);
            let start = label_spec("loop_start"@, ids + 1);
            let s1 = seq![Ins::Label(start)];
            let cx = expr_code(*x, env, si, ptrs, defs, ids + 1, ids + 1);
            let s2 = seq![Ins::Jmp(start), Ins::Label(label_spec("loop_end"@, ids + 1))];
            lemma_keep_concat(s1, cx);
            lemma_keep_concat(s1 + cx, s2);
        },
        Expr::Break(x) => {
            lemma_call_free_keeps_rsp(*x, env, si, ptrs, defs, brk, ids);
            lemma_keep_concat(expr_code(*x, env, si, ptrs, defs, brk, ids), seq![Ins::Jmp(label_spec("loop_end"@, brk))]);
        },
        Expr::Assign(s, x) => {
            lemma_call_free_keeps_rsp(*x, env, si, ptrs, defs, brk, ids);
            lemma_keep_concat(expr_code(*x, env, si, ptrs, defs, brk, ids), crate::compile::store_code(s@, env, ptrs));
        },
        Expr::Block(es) => {
            lemma_block_keeps_rsp(es@, env, si, ptrs, defs, brk, ids);
        },
        _ => {},
    }
}

proof fn lemma_let_keeps_rsp(
    bs: Seq<(String, Expr)>,
    env: Seq<(String, i32)>,
    si: int,
    ptrs: Seq<(String, i64)>,
    defs: Seq<(String, i64)>,
    brk: int,
    ids: int,
)
    requires
        forall|k: int| 0 <= k < bs.len() ==> call_free(#[trigger] bs[k].1),
    ensures
        all_keep_rsp(let_code(bs, env, si, ptrs, defs, brk, ids)),
    decreases bs,
{
    if bs.len() > 0 {
        let k = bs.len() - 1;
        assert(forall|j: int| 0 <= j < bs.drop_last().len() ==> bs.drop_last()[j] == bs[j]);
        lemma_let_keeps_rsp(bs.drop_last(), env, si, ptrs, defs, brk, ids);
        assert(call_free(bs[k].1));
        lemma_call_free_keeps_rsp(bs.last().1, env + let_ext(bs, si, k), si + k, ptrs, defs, brk,
            ids + crate::compile::let_size(bs.drop_last()));
        let a = let_code(bs.drop_last(), env, si, ptrs, defs, brk, ids);
        let b = expr_code(bs.last().1, env + let_ext(bs, si, k), si + k, ptrs, defs, brk, ids + crate::compile::let_size(bs.drop_last()));
        lemma_keep_concat(a, b);
        lemma_keep_concat(a + b, seq![Ins::MovToStack(Reg::Rax, ((si + k) * 8) as i32)]);
    }
}

proof fn lemma_block_keeps_rsp(
    es: Seq<Expr>,
    env: Seq<(String, i32)>,
    si: int,
    ptrs: Seq<(String, i64)>,
    defs: Seq<(String, i64)>,
    brk: int,
    ids: int,
)
    requires
        forall|k: int| 0 <= k < es.len() ==> call_free(#[trigger] es[k]),
    ensures
        all_keep_rsp(block_code(es, env, si, ptrs, defs, brk, ids)),
    decreases es,
{
    if es.len() > 0 {
        assert(forall|j: int| 0 <= j < es.drop_last().len() ==> es.drop_last()[j] == es[j]);
        lemma_block_keeps_rsp(es.drop_last(), env, si, ptrs, defs, brk, ids);
        assert(call_free(es[es.len() - 1]));
        lemma_call_free_keeps_rsp(es.last(), env, si, ptrs, defs, brk, ids + crate::compile::sizes(es.drop_last()));
        lemma_keep_concat(block_code(es.drop_last(), env, si, ptrs, defs, brk, ids),
            expr_code(es.last(), env, si, ptrs, defs, brk, ids + crate::compile::sizes(es.drop_last())));
    }
}


/// The code that the generator gives for an expression without calls ends
/// every run that ends normally with `rsp` where it started.
pub proof fn lemma_compiled_keeps_rsp(
    e: Expr,
    env: Seq<(String, i32)>,
    si: int,
    ptrs: Seq<(String, i64)>,
    defs: Seq<(String, i64)>,
    brk: int,
    ids: int,
    m: Machine,
    fuel: nat,
)
    requires
        call_free(e),
    ensures
        run(expr_code(e, env, si, ptrs, defs, brk, ids), 0, m, fuel) matches Outcome::Done(m2)
            ==> m2.reg(Reg::Rsp) == m.reg(Reg::Rsp),
{
    lemma_call_free_keeps_rsp(e, env, si, ptrs, defs, brk, ids);
    lemma_run_keeps_rsp(expr_code(e, env, si, ptrs, defs, brk, ids), 0, m, fuel);
}


/// Whether a comparison holds of two words.
pub open spec fn cmp_holds(op: CmpOp, a: i64, b: i64) -> bool {
    match op {
        CmpOp::Equal => a == b,
        CmpOp::Greater => a > b,
        CmpOp::GreaterEqual => a >= b,
        CmpOp::Less => a < b,
        CmpOp::LessEqual => a <= b,
    }
}

/// A comparison of two literals whose tags pass its guard (the same tag
/// for equality, two numbers for the ordered ones) leaves `true` in `rax`
/// exactly when the comparison holds of their tagged words; for numbers
/// that is when it holds of the numbers, as tagging keeps their order.
#[verifier::spinoff_prover]
#[verifier::rlimit(100)]
pub proof fn lemma_compare_literals(op: CmpOp, a: Expr, b: Expr, off: i32, ok: Seq<char>, m: Machine)
    requires
        plain_literal(a),
        plain_literal(b),
        off <= i32::MAX - 8,
        op is Equal ==> (a is Number <==> b is Number),
        !(op is Equal) ==> a is Number && b is Number,
    ensures
        result_of(run(compare_code(literal_code(a), literal_code(b), off, op, ok), 0, m, 20))
            == Some(if cmp_holds(op, literal_word(a), literal_word(b)) { TRUE_VALUE } else { FALSE_VALUE }),
        (a is Number && b is Number) ==>
            (cmp_holds(op, literal_word(a), literal_word(b)) <==> cmp_holds(op, a->Number_0, b->Number_0)),
{
    lemma_literal_code(a);
    lemma_literal_code(b);
    let prog = compare_code(literal_code(a), literal_code(b), off, op, ok);
    let wa = literal_word(a);
    let wb = literal_word(b);
    let spill = (off + 8) as i32;
    assert(prog.len() == 15);
    assert(prog[9] == Ins::Label(ok));
    assert forall|j: int| 0 <= j < 9 implies !is_label(#[trigger] prog[j], ok) by {}
    let m1 = exec(prog[0], m);
    let m2 = exec(prog[1], m1);
    let m3 = exec(prog[2], m2);
    let m4 = exec(prog[3], m3);
    let m5 = exec(prog[4], m4);
    let m6 = exec(prog[5], m5);
    let m7 = exec(prog[6], m6);
    lemma_plain_step(prog, 0, m, 20);
    lemma_plain_step(prog, 1, m1, 19);
    lemma_plain_step(prog, 2, m2, 18);
    lemma_plain_step(prog, 3, m3, 17);
    lemma_plain_step(prog, 4, m4, 16);
    lemma_plain_step(prog, 5, m5, 15);
    lemma_plain_step(prog, 6, m6, 14);
    assert(m5.reg(Reg::R8) == wb);
    assert(m5.reg(Reg::Rax) == wa);
    crate::value::lemma_boolean_words();
    if op is Equal {
        assert(((wa & 1) == (wb & 1)) ==> ((wa ^ wb) & 1) == 0) by (bit_vector);
    } else {
        assert(((wa & 1) == 0 && (wb & 1) == 0) ==> ((wa | wb) & 1) == 0) by (bit_vector);
    }
    assert(m7.zf);
    lemma_jump_step(prog, 7, m7, 13, ok, 9);
    let m9 = exec(prog[9], m7);
    let m10 = exec(prog[10], m9);
    let m11 = exec(prog[11], m10);
    let m12 = exec(prog[12], m11);
    let m13 = exec(prog[13], m12);
    let m14 = exec(prog[14], m13);
    lemma_plain_step(prog, 9, m7, 12);
    lemma_plain_step(prog, 10, m9, 11);
    lemma_plain_step(prog, 11, m10, 10);
    lemma_plain_step(prog, 12, m11, 9);
    lemma_plain_step(prog, 13, m12, 8);
    lemma_plain_step(prog, 14, m13, 7);
    assert(run(prog, 15, m14, 6) == Outcome::Done(m14));
    assert(m10.reg(Reg::Rax) == wa);
    assert(m10.mem[m10.slot(spill)] == wb);
    assert(m11.zf == (wa == wb) && m11.lt == (wa < wb));
    if let (Expr::Number(x), Expr::Number(y)) = (a, b) {
        lemma_tag_untag(x);
        lemma_tag_untag(y);
    }
}


/// `print` keeps the printed value and the entry argument across the call
/// of the print hook, through the callee-saved `rbx` and `r12`, although
/// the hook may write every caller-saved register and the words below
/// `rsp - 8`.
pub proof fn lemma_print_keeps_value(ok1: Seq<char>, ok2: Seq<char>, m: Machine)
    ensures
        run(unop_suffix(Op1::Print, ok1, ok2), 0, m, 5) matches Outcome::Done(m2)
            && m2.reg(Reg::Rax) == m.reg(Reg::Rax) && m2.reg(Reg::Rdi) == m.reg(Reg::Rdi)
            && m2.reg(Reg::Rsp) == m.reg(Reg::Rsp),
{
    let prog = unop_suffix(Op1::Print, ok1, ok2);
    let m1 = exec(prog[0], m);
    let m2 = exec(prog[1], m1);
    let m3 = exec(prog[2], m2);
    let m4 = exec(prog[3], m3);
    let m5 = exec(prog[4], m4);
    lemma_plain_step(prog, 0, m, 5);
    lemma_plain_step(prog, 1, m1, 4);
    lemma_plain_step(prog, 2, m2, 3);
    lemma_plain_step(prog, 3, m3, 2);
    lemma_plain_step(prog, 4, m4, 1);
    assert(run(prog, 5, m5, 0) == Outcome::Done(m5));
    assert(m3.reg(Reg::Rbx) == m.reg(Reg::Rax));
    assert(m3.reg(Reg::R12) == m.reg(Reg::Rdi));
}


/// A run that ends normally uses only labels of its own list, so it runs
/// the same at the front of a longer list and then goes on after it.
proof fn lemma_run_prefix(a: Seq<Ins>, b: Seq<Ins>, pc: int, m: Machine, f: nat, g: nat) -> (k: nat)
    requires
        0 <= pc <= a.len(),
        run(a, pc, m, f) is Done,
    ensures
        k >= g,
        run(a + b, pc, m, f + g) == run(a + b, a.len() as int, run(a, pc, m, f)->Done_0, k),
    decreases f,
{
    let ab = a + b;
    if pc == a.len() {
        f + g
    } else {
        assert(ab[pc] == a[pc]);
        match a[pc] {
            Ins::CallRustError(code) => {
                lemma_run_prefix(a, b, pc + 1, m.after_hook(), (f - 1) as nat, g)
            },
            Ins::Jmp(l) => {
                let t = find_label(a, l)->Some_0;
                assert(first_label_at(a, l, t)) by {
                    let u = choose|u: int| first_label_at(a, l, u);
                    lemma_find_label(a, l, u);
                }
                lemma_label_in_prefix(a, b, l, t);
                lemma_run_prefix(a, b, t, m, (f - 1) as nat, g)
            },
            Ins::Je(l) => if m.zf {
                let t = find_label(a, l)->Some_0;
                assert(first_label_at(a, l, t)) by {
                    let u = choose|u: int| first_label_at(a, l, u);
                    lemma_find_label(a, l, u);
                }
                lemma_label_in_prefix(a, b, l, t);
                lemma_run_prefix(a, b, t, m, (f - 1) as nat, g)
            } else {
                lemma_run_prefix(a, b, pc + 1, m, (f - 1) as nat, g)
            },
            Ins::Jne(l) => if !m.zf {
                let t = find_label(a, l)->Some_0;
                assert(first_label_at(a, l, t)) by {
                    let u = choose|u: int| first_label_at(a, l, u);
                    lemma_find_label(a, l, u);
                }
                lemma_label_in_prefix(a, b, l, t);
                lemma_run_prefix(a, b, t, m, (f - 1) as nat, g)
            } else {
                lemma_run_prefix(a, b, pc + 1, m, (f - 1) as nat, g)
            },
            Ins::Jno(l) => if !m.of {
                let t = find_label(a, l)->Some_0;
                assert(first_label_at(a, l, t)) by {
                    let u = choose|u: int| first_label_at(a, l, u);
                    lemma_find_label(a, l, u);
                }
                lemma_label_in_prefix(a, b, l, t);
                lemma_run_prefix(a, b, t, m, (f - 1) as nat, g)
            } else {
                lemma_run_prefix(a, b, pc + 1, m, (f - 1) as nat, g)
            },
            i => lemma_run_prefix(a, b, pc + 1, exec(i, m), (f - 1) as nat, g),
        }
    }
}

proof fn lemma_label_in_prefix(a: Seq<Ins>, b: Seq<Ins>, l: Seq<char>, t: int)
    requires
        first_label_at(a, l, t),
    ensures
        find_label(a + b, l) == Some(t),
{
    assert((a + b)[t] == a[t]);
    assert forall|j: int| 0 <= j < t implies !is_label(#[trigger] (a + b)[j], l) by {
        assert((a + b)[j] == a[j]);
    }
    lemma_find_label(a + b, l, t);
}

/// No label name is declared both in `x` and in `c`.
pub open spec fn labels_disjoint(x: Seq<Ins>, c: Seq<Ins>) -> bool {
    forall|i: int, j: int| 0 <= i < x.len() && 0 <= j < c.len() && #[trigger] x[i] is Label && #[trigger] c[j] is Label
        ==> x[i]->Label_0 != c[j]->Label_0
}

/// A run that does not leave its list runs the same after any list that
/// declares none of its labels.
proof fn lemma_run_shift(x: Seq<Ins>, c: Seq<Ins>, pc: int, m: Machine, f: nat)
    requires
        labels_disjoint(x, c),
        0 <= pc,
        !(run(c, pc, m, f) is Open),
    ensures
        run(x + c, x.len() + pc, m, f) == run(c, pc, m, f),
    decreases f,
{
    let xc = x + c;
    if pc < c.len() && f > 0 {
        assert(xc[x.len() + pc] == c[pc]);
        match c[pc] {
            Ins::CallRustError(code) => {
                if !(code == 1 || code == 2) {
                    lemma_run_shift(x, c, pc + 1, m.after_hook(), (f - 1) as nat);
                }
            },
            Ins::Jmp(l) | Ins::Je(l) | Ins::Jne(l) | Ins::Jno(l) => {
                if let Some(t) = find_label(c, l) {
                    lemma_label_after(x, c, l, t);
                    if !(run(c, t, m, (f - 1) as nat) is Open) {
                        lemma_run_shift(x, c, t, m, (f - 1) as nat);
                    }
                }
                if !(run(c, pc + 1, m, (f - 1) as nat) is Open) {
                    lemma_run_shift(x, c, pc + 1, m, (f - 1) as nat);
                }
            },
            Ins::JmpReg(_) => {},
            i => lemma_run_shift(x, c, pc + 1, exec(i, m), (f - 1) as nat),
        }
    }
}

proof fn lemma_label_after(x: Seq<Ins>, c: Seq<Ins>, l: Seq<char>, t: int)
    requires
        labels_disjoint(x, c),
        find_label(c, l) == Some(t),
    ensures
        find_label(x + c, l) == Some(x.len() + t),
{
    assert(first_label_at(c, l, t)) by {
        let u = choose|u: int| first_label_at(c, l, u);
        lemma_find_label(c, l, u);
    }
    let xc = x + c;
    assert(xc[x.len() + t] == c[t]);
    assert forall|j: int| 0 <= j < x.len() + t implies !is_label(#[trigger] xc[j], l) by {
        if j < x.len() {
            assert(xc[j] == x[j]);
            if x[j] is Label {
                assert(c[t] is Label);
                assert(x[j]->Label_0 != c[t]->Label_0);
            }
        } else {
            assert(xc[j] == c[j - x.len()]);
        }
    }
    lemma_find_label(xc, l, x.len() + t);
}


/// The tag guard of a binary operator.
pub open spec fn tag_guard(xor: bool, sp: i32, ok: Seq<char>) -> Seq<Ins> {
    if xor { same_tag_guard(sp, ok) } else { both_numbers_guard(sp, ok) }
}

/// Code that evaluates one operand, spills it to the stack word `sp`,
/// evaluates the other, and tests their tags: when both operand codes end
/// normally, the second keeps the spilled word, and the tags fail the test
/// (for `or`, one of them is a boolean; for `xor`, they differ), the code
/// exits with status 2, whatever the operand codes are, as long as the
/// second declares no label of the first.
#[verifier::spinoff_prover]
#[verifier::rlimit(100)]
pub proof fn lemma_operands_guard_exits(
    c1: Seq<Ins>,
    c2: Seq<Ins>,
    sp: i32,
    xor: bool,
    ok: Seq<char>,
    rest: Seq<Ins>,
    m: Machine,
    f1: nat,
    f2: nat,
)
    requires
        run(c1, 0, m, f1) is Done,
        run(c2, 0, exec(Ins::MovToStack(Reg::Rax, sp), run(c1, 0, m, f1)->Done_0), f2) is Done,
        ({
            let m1 = run(c1, 0, m, f1)->Done_0;
            let m2 = run(c2, 0, exec(Ins::MovToStack(Reg::Rax, sp), m1), f2)->Done_0;
            let v1 = m1.reg(Reg::Rax);
            let v2 = m2.reg(Reg::Rax);
            &&& m2.mem[m2.slot(sp)] == v1
            &&& if xor { ((v2 ^ v1) & 1) != 0 } else { ((v2 | v1) & 1) != 0 }
        }),
        labels_disjoint(c1 + seq![Ins::MovToStack(Reg::Rax, sp)], c2 + tag_guard(xor, sp, ok) + rest),
    ensures
        run(c1 + seq![Ins::MovToStack(Reg::Rax, sp)] + c2 + tag_guard(xor, sp, ok) + rest, 0, m, f1 + f2 + 20)
            == Outcome::Exit(2),
{
    let spill = seq![Ins::MovToStack(Reg::Rax, sp)];
    let guard = tag_guard(xor, sp, ok);
    let x = c1 + spill;
    let c = c2 + guard + rest;
    let prog = c1 + spill + c2 + guard + rest;
    assert(prog =~= c1 + (spill + c));
    assert(prog =~= x + c);
    let m1 = run(c1, 0, m, f1)->Done_0;
    let k1 = lemma_run_prefix(c1, spill + c, 0, m, f1, f2 + 20);
    assert(prog[c1.len() as int] == Ins::MovToStack(Reg::Rax, sp));
    let m1s = exec(Ins::MovToStack(Reg::Rax, sp), m1);
    lemma_plain_step(prog, c1.len() as int, m1, k1);
    let kk: nat = (k1 - 1) as nat;
    assert(c =~= c2 + (guard + rest));
    let k2 = lemma_run_prefix(c2, guard + rest, 0, m1s, f2, (kk - f2) as nat);
    let m2 = run(c2, 0, m1s, f2)->Done_0;
    let v1 = m1.reg(Reg::Rax);
    let v2 = m2.reg(Reg::Rax);
    let b = c2.len() as int;
    assert(c[b] == Ins::MovFromReg(Reg::R11, Reg::Rax));
    assert(c[b + 1] == Ins::MovFromStack(Reg::R8, sp));
    assert(c[b + 2] == if xor { Ins::Xor(Reg::Rax, Reg::R8) } else { Ins::Or(Reg::Rax, Reg::R8) });
    assert(c[b + 3] == Ins::Test(Reg::Rax, 1));
    assert(c[b + 4] == Ins::Je(ok));
    assert(c[b + 5] == Ins::CallRustError(2));
    let ma = exec(c[b], m2);
    let mb = exec(c[b + 1], ma);
    let mc = exec(c[b + 2], mb);
    let md = exec(c[b + 3], mc);
    lemma_plain_step(c, b, m2, k2);
    lemma_plain_step(c, b + 1, ma, (k2 - 1) as nat);
    lemma_plain_step(c, b + 2, mb, (k2 - 2) as nat);
    lemma_plain_step(c, b + 3, mc, (k2 - 3) as nat);
    assert(mb.reg(Reg::R8) == v1);
    assert(mb.reg(Reg::Rax) == v2);
    assert(!md.zf);
    assert(run(c, b + 4, md, (k2 - 4) as nat) == run(c, b + 5, md, (k2 - 5) as nat));
    assert(run(c, b + 5, md, (k2 - 5) as nat) == Outcome::Exit(2));
    assert(run(c, 0, m1s, kk) == Outcome::Exit(2));
    lemma_run_shift(x, c, 0, m1s, kk);
}

/// The invalid-argument law for any operands: arithmetic whose operand
/// codes end normally with at least one boolean exits with status 2.
pub proof fn lemma_arith_boolean_operand_exits(
    op: Op2,
    ca: Seq<Ins>,
    cb: Seq<Ins>,
    si: int,
    ok1: Seq<char>,
    ok2: Seq<char>,
    m: Machine,
    f1: nat,
    f2: nat,
)
    requires
        is_arith(op),
        ({
            let off = (si * 8) as i32;
            let (first, second) = if op is Minus { (cb, ca) } else { (ca, cb) };
            &&& run(first, 0, m, f1) is Done
            &&& run(second, 0, exec(Ins::MovToStack(Reg::Rax, off), run(first, 0, m, f1)->Done_0), f2) is Done
            &&& ({
                let m1 = run(first, 0, m, f1)->Done_0;
                let m2 = run(second, 0, exec(Ins::MovToStack(Reg::Rax, off), m1), f2)->Done_0;
                &&& m2.mem[m2.slot(off)] == m1.reg(Reg::Rax)
                &&& (m1.reg(Reg::Rax) & 1 == 1 || m2.reg(Reg::Rax) & 1 == 1)
            })
            &&& labels_disjoint(first + seq![Ins::MovToStack(Reg::Rax, off)],
                second + both_numbers_guard(off, ok1) + binop_code(op, ca, cb, si, ok1, ok2).subrange(
                (first.len() + 1 + second.len() + 8) as int, binop_code(op, ca, cb, si, ok1, ok2).len() as int))
        }),
    ensures
        run(binop_code(op, ca, cb, si, ok1, ok2), 0, m, f1 + f2 + 20) == Outcome::Exit(2),
{
    let off = (si * 8) as i32;
    let (first, second) = if op is Minus { (cb, ca) } else { (ca, cb) };
    let prog = binop_code(op, ca, cb, si, ok1, ok2);
    let n = (first.len() + 1 + second.len() + 8) as int;
    let rest = prog.subrange(n, prog.len() as int);
    assert(prog =~= first + seq![Ins::MovToStack(Reg::Rax, off)] + second + tag_guard(false, off, ok1) + rest);
    let m1 = run(first, 0, m, f1)->Done_0;
    let m2 = run(second, 0, exec(Ins::MovToStack(Reg::Rax, off), m1), f2)->Done_0;
    let v1 = m1.reg(Reg::Rax);
    let v2 = m2.reg(Reg::Rax);
    assert((v1 & 1 == 1 || v2 & 1 == 1) ==> ((v2 | v1) & 1) != 0) by (bit_vector);
    lemma_operands_guard_exits(first, second, off, false, ok1, rest, m, f1, f2);
}

/// The tag laws of comparisons for any operands: an ordered comparison
/// whose operand codes end normally with at least one boolean, or an
/// equality whose operands carry different tags, exits with status 2.
pub proof fn lemma_compare_guard_exits(
    op: CmpOp,
    ca: Seq<Ins>,
    cb: Seq<Ins>,
    off: i32,
    ok: Seq<char>,
    m: Machine,
    f1: nat,
    f2: nat,
)
    requires
        off <= i32::MAX - 8,
        run(cb, 0, m, f1) is Done,
        run(ca, 0, exec(Ins::MovToStack(Reg::Rax, (off + 8) as i32), run(cb, 0, m, f1)->Done_0), f2) is Done,
        ({
            let sp = (off + 8) as i32;
            let m1 = run(cb, 0, m, f1)->Done_0;
            let m2 = run(ca, 0, exec(Ins::MovToStack(Reg::Rax, sp), m1), f2)->Done_0;
            let vb = m1.reg(Reg::Rax);
            let va = m2.reg(Reg::Rax);
            &&& m2.mem[m2.slot(sp)] == vb
            &&& if op is Equal { va & 1 != vb & 1 } else { va & 1 == 1 || vb & 1 == 1 }
        }),
        labels_disjoint(cb + seq![Ins::MovToStack(Reg::Rax, (off + 8) as i32)],
            compare_code(ca, cb, off, op, ok).subrange((cb.len() + 1) as int, compare_code(ca, cb, off, op, ok).len() as int)),
    ensures
        run(compare_code(ca, cb, off, op, ok), 0, m, f1 + f2 + 20) == Outcome::Exit(2),
{
    let sp = (off + 8) as i32;
    let prog = compare_code(ca, cb, off, op, ok);
    let xor = op is Equal;
    let n = (cb.len() + 1 + ca.len() + 8) as int;
    let rest = prog.subrange(n, prog.len() as int);
    assert(prog =~= cb + seq![Ins::MovToStack(Reg::Rax, sp)] + ca + tag_guard(xor, sp, ok) + rest);
    assert(prog.subrange((cb.len() + 1) as int, prog.len() as int) =~= ca + tag_guard(xor, sp, ok) + rest);
    let m1 = run(cb, 0, m, f1)->Done_0;
    let m2 = run(ca, 0, exec(Ins::MovToStack(Reg::Rax, sp), m1), f2)->Done_0;
    let vb = m1.reg(Reg::Rax);
    let va = m2.reg(Reg::Rax);
    assert((va & 1 != vb & 1) ==> ((va ^ vb) & 1) != 0) by (bit_vector);
    assert((va & 1 == 1 || vb & 1 == 1) ==> ((va | vb) & 1) != 0) by (bit_vector);
    lemma_operands_guard_exits(cb, ca, sp, xor, ok, rest, m, f1, f2);
}

} // verus!
