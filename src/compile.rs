use vstd::prelude::*;
use crate::compile_helpers::{CmpOp, TypeOp, both_numbers_guard, compare_code, compare_label, istype_code, number_guard, overflow_guard, gen_compare, gen_istype, at_least_one_bool_handler, unary_not_bool_handler, overflow_handler};
use crate::context::{Context, bound, copy_env, find, lookup};
use crate::counter::{Counter, next_id};
use crate::expressions::{Defenition, Expr, Op1, Op2};
use crate::instructions::{Ins, Instr, Reg, emit, emit_all, rsp_balanced, views};
use crate::text::{decimal_spec, digits_spec, label_spec, label_with_id, push_decimal, push_digits};

verus! {

/// Stack slots above this bound are never handed out; it keeps every byte
/// offset within an `i32`.
pub const SLOT_LIMIT: i32 = 0x0800_0000;

/// What `expr_depth` reports for every depth past `SLOT_LIMIT`.
pub const DEPTH_CAP: i32 = SLOT_LIMIT + 1;

/// The largest and smallest numbers that a tagged word holds.
pub const MAX_NUMBER: i64 = 0x3fff_ffff_ffff_ffff;
pub const MIN_NUMBER: i64 = -0x4000_0000_0000_0000;

/// Whether `n` fits in the 63 bits of a tagged number.
pub open spec fn fits63(n: int) -> bool {
    MIN_NUMBER <= n <= MAX_NUMBER
}

pub open spec fn max(a: nat, b: nat) -> nat {
    if a >= b { a } else { b }
}

/// The number of stack slots, from the first free one upward, that the code
/// of an expression may write.
pub open spec fn depth(e: Expr) -> nat
    decreases e,
{
    match e {
        Expr::Number(_) => 0,
        Expr::Boolean(_) => 0,
        Expr::Id(_) => 0,
        Expr::Let(bs, body) => max(let_depth(bs@), bs@.len() + depth(*body)),
        Expr::UnOp(_, x) => depth(*x),
        Expr::BinOp(op, a, b) => match op {
            Op2::Plus => max(max(depth(*a), 1), 1 + depth(*b)),
            Op2::Times => max(max(depth(*a), 1), 1 + depth(*b)),
            Op2::Minus => max(max(depth(*b), 1), 1 + depth(*a)),
            _ => max(max(depth(*b), 2), 2 + depth(*a)),
        },
        Expr::If(c, t, f) => max(max(depth(*c), depth(*t)), 1 + depth(*f)),
        Expr::Loop(x) => depth(*x),
        Expr::Break(x) => depth(*x),
        Expr::Assign(_, x) => depth(*x),
        Expr::Block(es) => max_depth(es@),
        Expr::Call(_, args) => 2 + args@.len() + 2 * max_depth(args@),
    }
}

/// The slots that the right-hand sides of `let` bindings may write: the
/// `k`-th one runs `k` slots up.
pub open spec fn let_depth(bs: Seq<(String, Expr)>) -> nat
    decreases bs,
{
    if bs.len() == 0 {
        0
    } else {
        max(let_depth(bs.drop_last()), ((bs.len() - 1) + depth(bs.last().1)) as nat)
    }
}

/// The largest depth in a list of expressions.
pub open spec fn max_depth(es: Seq<Expr>) -> nat
    decreases es,
{
    if es.len() == 0 {
        0
    } else {
        max(max_depth(es.drop_last()), depth(es.last()))
    }
}

/// The number of label ids that compiling an expression takes: exactly
/// this many when it compiles, at most this many when it does not.
pub open spec fn size(e: Expr) -> nat
    decreases e,
{
    match e {
        Expr::Number(_) => 0,
        Expr::Boolean(_) => 0,
        Expr::Id(_) => 0,
        Expr::Let(bs, body) => let_size(bs@) + size(*body),
        Expr::UnOp(op, x) => (if op is Add1 || op is Sub1 { 2nat } else { 0nat }) + size(*x),
        Expr::BinOp(op, a, b) => (if is_arith(op) { 2nat } else { 1nat }) + size(*a) + size(*b),
        Expr::If(c, t, f) => 1 + size(*c) + size(*t) + size(*f),
        Expr::Loop(x) => 1 + size(*x),
        Expr::Break(x) => size(*x),
        Expr::Assign(_, x) => size(*x),
        Expr::Block(es) => sizes(es@),
        Expr::Call(_, args) => 1 + sizes(args@),
    }
}

pub open spec fn let_size(bs: Seq<(String, Expr)>) -> nat
    decreases bs,
{
    if bs.len() == 0 {
        0
    } else {
        let_size(bs.drop_last()) + size(bs.last().1)
    }
}

pub open spec fn sizes(es: Seq<Expr>) -> nat
    decreases es,
{
    if es.len() == 0 {
        0
    } else {
        sizes(es.drop_last()) + size(es.last())
    }
}


pub proof fn lemma_let_depth_ge(bs: Seq<(String, Expr)>, k: int)
    requires
        0 <= k < bs.len(),
    ensures
        k + depth(bs[k].1) <= let_depth(bs),
    decreases bs.len(),
{
    if k < bs.len() - 1 {
        lemma_let_depth_ge(bs.drop_last(), k);
    }
}

pub proof fn lemma_max_depth_ge(es: Seq<Expr>, k: int)
    requires
        0 <= k < es.len(),
    ensures
        depth(es[k]) <= max_depth(es),
    decreases es.len(),
{
    if k < es.len() - 1 {
        lemma_max_depth_ge(es.drop_last(), k);
    }
}

pub proof fn lemma_let_size_prefix(bs: Seq<(String, Expr)>, i: int)
    requires
        0 <= i <= bs.len(),
    ensures
        let_size(bs.subrange(0, i)) <= let_size(bs),
        i < bs.len() ==> let_size(bs.subrange(0, i + 1)) == let_size(bs.subrange(0, i)) + size(bs[i].1),
    decreases bs.len(),
{
    if i < bs.len() {
        assert(bs.subrange(0, i + 1).drop_last() =~= bs.subrange(0, i));
        if i < bs.len() - 1 {
            assert(bs.drop_last().subrange(0, i) =~= bs.subrange(0, i));
            assert(bs.drop_last().subrange(0, i + 1) =~= bs.subrange(0, i + 1));
            lemma_let_size_prefix(bs.drop_last(), i);
            lemma_let_size_prefix(bs.drop_last(), i + 1);
        } else {
            assert(bs.subrange(0, i + 1) =~= bs);
        }
    } else {
        assert(bs.subrange(0, i) =~= bs);
    }
}

pub proof fn lemma_sizes_prefix(es: Seq<Expr>, i: int)
    requires
        0 <= i <= es.len(),
    ensures
        sizes(es.subrange(0, i)) <= sizes(es),
        i < es.len() ==> sizes(es.subrange(0, i + 1)) == sizes(es.subrange(0, i)) + size(es[i]),
    decreases es.len(),
{
    if i < es.len() {
        assert(es.subrange(0, i + 1).drop_last() =~= es.subrange(0, i));
        if i < es.len() - 1 {
            assert(es.drop_last().subrange(0, i) =~= es.subrange(0, i));
            assert(es.drop_last().subrange(0, i + 1) =~= es.subrange(0, i + 1));
            lemma_sizes_prefix(es.drop_last(), i);
            lemma_sizes_prefix(es.drop_last(), i + 1);
        } else {
            assert(es.subrange(0, i + 1) =~= es);
        }
    } else {
        assert(es.subrange(0, i) =~= es);
    }
}


/// A failure to compile: what the session reports instead of running code.
#[derive(Debug, PartialEq, Eq)]
pub enum CompileError {
    UnboundIdentifier(String),
    DuplicateBinding,
    BreakOutsideLoop,
    TooLarge,
}

impl CompileError {
    /// The diagnostic text.
    pub open spec fn message_spec(&self) -> Seq<char> {
        match self {
            CompileError::UnboundIdentifier(s) => "Unbound variable identifier "@ + s@,
            CompileError::DuplicateBinding => "Duplicate binding"@,
            CompileError::BreakOutsideLoop => "break outside of a loop"@,
            CompileError::TooLarge => "program too large"@,
        }
    }

    pub fn message(&self) -> (r: String)
        ensures
            r@ == self.message_spec(),
    {
        match self {
            CompileError::UnboundIdentifier(s) => {
                let mut m = String::from_str("Unbound variable identifier ");
                m.append(s.as_str());
                m
            },
            CompileError::DuplicateBinding => String::from_str("Duplicate binding"),
            CompileError::BreakOutsideLoop => String::from_str("break outside of a loop"),
            CompileError::TooLarge => String::from_str("program too large"),
        }
    }
}

/// The locals that the `k` first bindings of a `let` add, from slot `si` up.
pub open spec fn let_ext(bs: Seq<(String, Expr)>, si: int, k: int) -> Seq<(String, i32)> {
    Seq::new(k as nat, |j: int| (bs[j].0, (si + j) as i32))
}

/// No name is bound twice by one `let`.
pub open spec fn distinct_names(bs: Seq<(String, Expr)>) -> bool {
    forall|i: int, j: int| 0 <= i < j < bs.len() ==> bs[i].0@ != bs[j].0@
}

/// The first free slots of the first and the second operand of a binary
/// operator compiled at `si`.
pub open spec fn operand_si(op: Op2, si: int) -> (int, int) {
    match op {
        Op2::Plus => (si, si + 1),
        Op2::Times => (si, si + 1),
        Op2::Minus => (si + 1, si),
        _ => (si + 2, si),
    }
}

/// The first free slot of the arguments of a call compiled at `si`: past the
/// shelved return address, the arguments, and what any argument may use.
pub open spec fn call_si(args: Seq<Expr>, si: int) -> int {
    2 + si + args.len() + max_depth(args)
}

/// Whether an expression compiles: every name it reads or assigns is bound,
/// no `let` binds a name twice, and every `break` is inside a loop.
pub open spec fn compiles(
    e: Expr,
    env: Seq<(String, i32)>,
    si: int,
    ptrs: Seq<(String, i64)>,
    defs: Seq<(String, i64)>,
    in_loop: bool,
) -> bool
    decreases e,
{
    match e {
        Expr::Number(_) => true,
        Expr::Boolean(_) => true,
        Expr::Id(s) => s@ == "input"@ || bound(env, s@) || bound(ptrs, s@) || bound(defs, s@),
        Expr::Let(bs, body) => {
            &&& distinct_names(bs@)
            &&& forall|k: int| 0 <= k < bs@.len() ==>
                compiles(#[trigger] bs@[k].1, env + let_ext(bs@, si, k), si + k, ptrs, defs, in_loop)
            &&& compiles(*body, env + let_ext(bs@, si, bs@.len() as int), si + bs@.len(), ptrs, defs, in_loop)
        },
        Expr::UnOp(_, x) => compiles(*x, env, si, ptrs, defs, in_loop),
        Expr::BinOp(op, a, b) => {
            &&& compiles(*a, env, operand_si(op, si).0, ptrs, defs, in_loop)
            &&& compiles(*b, env, operand_si(op, si).1, ptrs, defs, in_loop)
        },
        Expr::If(c, t, f) => {
            &&& compiles(*c, env, si, ptrs, defs, in_loop)
            &&& compiles(*t, env, si, ptrs, defs, in_loop)
            &&& compiles(*f, env, si + 1, ptrs, defs, in_loop)
        },
        Expr::Loop(x) => compiles(*x, env, si, ptrs, defs, true),
        Expr::Break(x) => in_loop && compiles(*x, env, si, ptrs, defs, in_loop),
        Expr::Assign(s, x) => {
            &&& compiles(*x, env, si, ptrs, defs, in_loop)
            &&& (bound(env, s@) || bound(ptrs, s@))
        },
        Expr::Block(es) => forall|k: int| 0 <= k < es@.len() ==>
            compiles(#[trigger] es@[k], env, si, ptrs, defs, in_loop),
        Expr::Call(_, args) => forall|k: int| 0 <= k < args@.len() ==>
            compiles(#[trigger] args@[k], env, call_si(args@, si), ptrs, defs, in_loop),
    }
}

/// The first error that compiling an expression meets, in the order the
/// generator visits it, or `None` where it compiles.
pub open spec fn first_error(
    e: Expr,
    env: Seq<(String, i32)>,
    si: int,
    ptrs: Seq<(String, i64)>,
    defs: Seq<(String, i64)>,
    in_loop: bool,
) -> Option<CompileError>
    decreases e,
{
    match e {
        Expr::Number(_) => None,
        Expr::Boolean(_) => None,
        Expr::Id(s) => if s@ == "input"@ || bound(env, s@) || bound(ptrs, s@) || bound(defs, s@) {
            None
        } else {
            Some(CompileError::UnboundIdentifier(s))
        },
        Expr::Let(bs, body) => match let_error(bs@, env, si, ptrs, defs, in_loop) {
            Some(err) => Some(err),
            None => first_error(*body, env + let_ext(bs@, si, bs@.len() as int), si + bs@.len(), ptrs, defs, in_loop),
        },
        Expr::UnOp(_, x) => first_error(*x, env, si, ptrs, defs, in_loop),
        Expr::BinOp(op, a, b) => {
            let (f, g, sf, sg) = if op is Plus || op is Times {
                (*a, *b, si, si + 1)
            } else if op is Minus {
                (*b, *a, si, si + 1)
            } else {
                (*b, *a, si, si + 2)
            };
            match first_error(f, env, sf, ptrs, defs, in_loop) {
                Some(err) => Some(err),
                None => first_error(g, env, sg, ptrs, defs, in_loop),
            }
        },
        Expr::If(c, t, f) => match first_error(*c, env, si, ptrs, defs, in_loop) {
            Some(err) => Some(err),
            None => match first_error(*t, env, si, ptrs, defs, in_loop) {
                Some(err) => Some(err),
                None => first_error(*f, env, si + 1, ptrs, defs, in_loop),
            },
        },
        Expr::Loop(x) => first_error(*x, env, si, ptrs, defs, true),
        Expr::Break(x) => if !in_loop {
            Some(CompileError::BreakOutsideLoop)
        } else {
            first_error(*x, env, si, ptrs, defs, in_loop)
        },
        Expr::Assign(s, x) => match first_error(*x, env, si, ptrs, defs, in_loop) {
            Some(err) => Some(err),
            None => if bound(env, s@) || bound(ptrs, s@) { None } else { Some(CompileError::UnboundIdentifier(s)) },
        },
        Expr::Block(es) => list_error(es@, env, si, ptrs, defs, in_loop),
        Expr::Call(_, args) => list_error(args@, env, call_si(args@, si), ptrs, defs, in_loop),
    }
}

/// The first error among the bindings of a `let`: a name bound twice, or an
/// error of a right-hand side.
pub open spec fn let_error(
    bs: Seq<(String, Expr)>,
    env: Seq<(String, i32)>,
    si: int,
    ptrs: Seq<(String, i64)>,
    defs: Seq<(String, i64)>,
    in_loop: bool,
) -> Option<CompileError>
    decreases bs,
{
    if bs.len() == 0 {
        None
    } else {
        let k = bs.len() - 1;
        match let_error(bs.drop_last(), env, si, ptrs, defs, in_loop) {
            Some(err) => Some(err),
            None => if exists|j: int| 0 <= j < k && bs[j].0@ == bs[k].0@ {
                Some(CompileError::DuplicateBinding)
            } else {
                first_error(bs.last().1, env + let_ext(bs, si, k), si + k, ptrs, defs, in_loop)
            },
        }
    }
}

/// The first error among a list of expressions compiled at `si`.
pub open spec fn list_error(
    es: Seq<Expr>,
    env: Seq<(String, i32)>,
    si: int,
    ptrs: Seq<(String, i64)>,
    defs: Seq<(String, i64)>,
    in_loop: bool,
) -> Option<CompileError>
    decreases es,
{
    if es.len() == 0 {
        None
    } else {
        match list_error(es.drop_last(), env, si, ptrs, defs, in_loop) {
            Some(err) => Some(err),
            None => first_error(es.last(), env, si, ptrs, defs, in_loop),
        }
    }
}

/// A first error of a prefix of the bindings is the first error of them all.
pub proof fn lemma_let_error_prefix(
    bs: Seq<(String, Expr)>,
    i: int,
    env: Seq<(String, i32)>,
    si: int,
    ptrs: Seq<(String, i64)>,
    defs: Seq<(String, i64)>,
    in_loop: bool,
)
    requires
        0 <= i <= bs.len(),
        let_error(bs.subrange(0, i), env, si, ptrs, defs, in_loop) is Some,
    ensures
        let_error(bs, env, si, ptrs, defs, in_loop) == let_error(bs.subrange(0, i), env, si, ptrs, defs, in_loop),
    decreases bs.len(),
{
    if i < bs.len() {
        assert(bs.drop_last().subrange(0, i) =~= bs.subrange(0, i));
        lemma_let_error_prefix(bs.drop_last(), i, env, si, ptrs, defs, in_loop);
    } else {
        assert(bs.subrange(0, i) =~= bs);
    }
}

/// A first error of a prefix of a list is the first error of it all.
pub proof fn lemma_list_error_prefix(
    es: Seq<Expr>,
    i: int,
    env: Seq<(String, i32)>,
    si: int,
    ptrs: Seq<(String, i64)>,
    defs: Seq<(String, i64)>,
    in_loop: bool,
)
    requires
        0 <= i <= es.len(),
        list_error(es.subrange(0, i), env, si, ptrs, defs, in_loop) is Some,
    ensures
        list_error(es, env, si, ptrs, defs, in_loop) == list_error(es.subrange(0, i), env, si, ptrs, defs, in_loop),
    decreases es.len(),
{
    if i < es.len() {
        assert(es.drop_last().subrange(0, i) =~= es.subrange(0, i));
        lemma_list_error_prefix(es.drop_last(), i, env, si, ptrs, defs, in_loop);
    } else {
        assert(es.subrange(0, i) =~= es);
    }
}

/// The code of a number literal: its tagged word, or an overflow exit for
/// one that does not fit in 63 bits.
pub open spec fn number_code(n: i64) -> Seq<Ins> {
    if fits63(n as int) {
        seq![Ins::Mov(Reg::Rax, (2 * n) as i64)]
    } else {
        seq![Ins::CallRustError(1)]
    }
}

/// The code of a boolean literal.
pub open spec fn boolean_code(b: bool) -> Seq<Ins> {
    seq![Ins::Mov(Reg::Rax, if b { 3 } else { 1 })]
}

/// The code that reads a name: the entry argument, a local slot, an
/// assignable `define` cell, or a `define`d value, in that order.
pub open spec fn id_code(
    s: Seq<char>,
    env: Seq<(String, i32)>,
    ptrs: Seq<(String, i64)>,
    defs: Seq<(String, i64)>,
) -> Seq<Ins> {
    if s == "input"@ {
        seq![Ins::MovFromReg(Reg::Rax, Reg::Rdi)]
    } else if bound(env, s) {
        seq![Ins::MovFromStack(Reg::Rax, (lookup(env, s)->Some_0 * 8) as i32)]
    } else if bound(ptrs, s) {
        seq![Ins::Mov(Reg::Rax, lookup(ptrs, s)->Some_0), Ins::MovRaxFromRaxPtr]
    } else {
        seq![Ins::Mov(Reg::Rax, lookup(defs, s)->Some_0)]
    }
}

/// The code that stores `rax` into a name: its local slot, or else its
/// `define` cell.
pub open spec fn store_code(s: Seq<char>, env: Seq<(String, i32)>, ptrs: Seq<(String, i64)>) -> Seq<Ins> {
    if bound(env, s) {
        seq![Ins::MovToStack(Reg::Rax, (lookup(env, s)->Some_0 * 8) as i32)]
    } else {
        seq![Ins::Mov(Reg::Rdx, lookup(ptrs, s)->Some_0), Ins::MovToPtrFromReg(Reg::Rdx, Reg::Rax)]
    }
}

/// The code of a literal operand.
pub open spec fn literal_code(e: Expr) -> Seq<Ins> {
    match e {
        Expr::Number(n) => number_code(n),
        Expr::Boolean(b) => boolean_code(b),
        _ => Seq::empty(),
    }
}

/// The comparison that a binary operator performs.
pub open spec fn cmp_of(op: Op2) -> CmpOp {
    match op {
        Op2::Equal => CmpOp::Equal,
        Op2::Greater => CmpOp::Greater,
        Op2::GreaterEqual => CmpOp::GreaterEqual,
        Op2::Less => CmpOp::Less,
        _ => CmpOp::LessEqual,
    }
}

/// Whether a binary operator is arithmetic.
pub open spec fn is_arith(op: Op2) -> bool {
    op is Plus || op is Minus || op is Times
}

/// The code of a binary operator over two operand codes compiled at `si`:
/// for arithmetic, the first operand spilled to slot `si`, the second in
/// `rax`, the guard that both are numbers, the operation (a product first
/// untags `rax`, so the overflow test sees the tagged result) and the
/// overflow guard; for comparisons, see `compare_code`. `ok1` and `ok2`
/// are the labels of the two guards.
pub open spec fn binop_code(op: Op2, ca: Seq<Ins>, cb: Seq<Ins>, si: int, ok1: Seq<char>, ok2: Seq<char>) -> Seq<Ins> {
    let off = (si * 8) as i32;
    if is_arith(op) {
        let (first, second) = if op is Minus { (cb, ca) } else { (ca, cb) };
        first + seq![Ins::MovToStack(Reg::Rax, off)] + second + both_numbers_guard(off, ok1) + (if op is Times {
            seq![Ins::ShiftArithmeticRight(Reg::Rax, 1), Ins::MulRaxMemFromStack(off)]
        } else if op is Plus {
            seq![Ins::AddRaxMemFromStack(off)]
        } else {
            seq![Ins::SubRaxMemFromStack(off)]
        }) + overflow_guard(ok2)
    } else {
        compare_code(ca, cb, off, cmp_of(op), ok1)
    }
}

/// What a unary operator appends to the code of its operand; `ok1` and
/// `ok2` are the labels of its guards.
pub open spec fn unop_suffix(op: Op1, ok1: Seq<char>, ok2: Seq<char>) -> Seq<Ins> {
    match op {
        Op1::Add1 => number_guard(ok1) + seq![Ins::Add(Reg::Rax, 2)] + overflow_guard(ok2),
        Op1::Sub1 => number_guard(ok1) + seq![Ins::Sub(Reg::Rax, 2)] + overflow_guard(ok2),
        Op1::IsNum => istype_code(TypeOp::Num),
        Op1::IsBool => istype_code(TypeOp::Bool),
        Op1::Print => seq![
            Ins::MovFromReg(Reg::Rbx, Reg::Rax),
            Ins::MovFromReg(Reg::R12, Reg::Rdi),
            Ins::CallRustPrint(Reg::Rax),
            Ins::MovFromReg(Reg::Rdi, Reg::R12),
            Ins::MovFromReg(Reg::Rax, Reg::Rbx),
        ],
    }
}

/// The comment that opens the code of a call.
pub open spec fn call_start_text(name: Seq<char>, n: int) -> Seq<char> {
    "START of call to "@ + name + " ["@ + decimal_spec(n) + (if n == 1 { " arg]"@ } else { " args]"@ })
}

/// The comment that closes the code of a call.
pub open spec fn call_end_text(name: Seq<char>) -> Seq<char> {
    "END of call to "@ + name
}

/// The label that a call returns to.
pub open spec fn after_call_label(name: Seq<char>, id: int) -> Seq<char> {
    "after_call_"@ + name + "_"@ + digits_spec(id as nat)
}

/// The code of an expression compiled with locals `env`, first free slot
/// `si`, cells `ptrs`, `define`d values `defs`, innermost loop `brk` (0 for
/// none), when the last label id handed out was `ids`. This is the lowering
/// of each form: literals and names as above, a `let` storing each binding
/// in the next slot, guards and overflow tests around arithmetic, an `if`
/// comparing with `true`, a loop between its start and end labels, and a
/// call shelving its return address before it moves `rsp` and jumps.
pub open spec fn expr_code(
    e: Expr,
    env: Seq<(String, i32)>,
    si: int,
    ptrs: Seq<(String, i64)>,
    defs: Seq<(String, i64)>,
    brk: int,
    ids: int,
) -> Seq<Ins>
    decreases e,
{
    match e {
        Expr::Number(n) => number_code(n),
        Expr::Boolean(b) => boolean_code(b),
        Expr::Id(s) => id_code(s@, env, ptrs, defs),
        Expr::Let(bs, body) => let_code(bs@, env, si, ptrs, defs, brk, ids)
            + expr_code(*body, env + let_ext(bs@, si, bs@.len() as int), si + bs@.len(), ptrs, defs, brk,
            ids + let_size(bs@)),
        Expr::UnOp(op, x) => expr_code(*x, env, si, ptrs, defs, brk, ids) + unop_suffix(op,
            label_spec("unop_ok"@, ids + size(*x) + 1), label_spec("no_overflow"@, ids + size(*x) + 2)),
        Expr::BinOp(op, a, b) => if is_arith(op) {
            let (f, g) = if op is Minus { (*b, *a) } else { (*a, *b) };
            let cf = expr_code(f, env, si, ptrs, defs, brk, ids);
            let cg = expr_code(g, env, si + 1, ptrs, defs, brk, ids + size(f));
            let (ca, cb) = if op is Minus { (cg, cf) } else { (cf, cg) };
            binop_code(op, ca, cb, si, label_spec("bool_ok"@, ids + size(f) + size(g) + 1),
                label_spec("no_overflow"@, ids + size(f) + size(g) + 2))
        } else {
            let cb = expr_code(*b, env, si, ptrs, defs, brk, ids);
            let ca = expr_code(*a, env, si + 2, ptrs, defs, brk, ids + size(*b));
            binop_code(op, ca, cb, si, label_spec(compare_label(cmp_of(op)), ids + size(*a) + size(*b) + 1), Seq::empty())
        },
        Expr::If(c, t, f) => {
            let else_label = label_spec("else_branch"@, ids + 1);
            let end_label = label_spec("if_statement_end"@, ids + 1);
            expr_code(*c, env, si, ptrs, defs, brk, ids + 1) + seq![Ins::Compare(Reg::Rax), Ins::Jne(else_label)]
                + expr_code(*t, env, si, ptrs, defs, brk, ids + 1 + size(*c))
                + seq![Ins::Jmp(end_label), Ins::Label(else_label)]
                + expr_code(*f, env, si + 1, ptrs, defs, brk, ids + 1 + size(*c) + size(*t))
                + seq![Ins::Label(end_label)]
        },
        Expr::Loop(x) => {
            let start = label_spec("loop_start"@, ids + 1);
            seq![Ins::Label(start)] + expr_code(*x, env, si, ptrs, defs, ids + 1, ids + 1)
                + seq![Ins::Jmp(start), Ins::Label(label_spec("loop_end"@, ids + 1))]
        },
        Expr::Break(x) => expr_code(*x, env, si, ptrs, defs, brk, ids) + seq![Ins::Jmp(label_spec("loop_end"@, brk))],
        Expr::Assign(s, x) => expr_code(*x, env, si, ptrs, defs, brk, ids) + store_code(s@, env, ptrs),
        Expr::Block(es) => block_code(es@, env, si, ptrs, defs, brk, ids),
        Expr::Call(name, args) => {
            let after = after_call_label(name@, ids + 1);
            let off = (si * 8) as i32;
            seq![Ins::Comment(call_start_text(name@, args@.len() as int)), Ins::MovLabel(after, off)]
                + args_code(args@, env, si, call_si(args@, si), ptrs, defs, brk, ids + 1) + seq![
                Ins::Sub(Reg::Rsp, off),
                Ins::Jmp(function_label_spec(name@)),
                Ins::Label(after),
                Ins::Add(Reg::Rsp, off),
                Ins::Comment(call_end_text(name@)),
            ]
        },
    }
}

/// The code of the bindings of a `let`: each right-hand side, then the
/// store to its slot.
pub open spec fn let_code(
    bs: Seq<(String, Expr)>,
    env: Seq<(String, i32)>,
    si: int,
    ptrs: Seq<(String, i64)>,
    defs: Seq<(String, i64)>,
    brk: int,
    ids: int,
) -> Seq<Ins>
    decreases bs,
{
    if bs.len() == 0 {
        Seq::empty()
    } else {
        let k = bs.len() - 1;
        let_code(bs.drop_last(), env, si, ptrs, defs, brk, ids)
            + expr_code(bs.last().1, env + let_ext(bs, si, k), si + k, ptrs, defs, brk, ids + let_size(bs.drop_last()))
            + seq![Ins::MovToStack(Reg::Rax, ((si + k) * 8) as i32)]
    }
}

/// The code of the expressions of a block, one after another.
pub open spec fn block_code(
    es: Seq<Expr>,
    env: Seq<(String, i32)>,
    si: int,
    ptrs: Seq<(String, i64)>,
    defs: Seq<(String, i64)>,
    brk: int,
    ids: int,
) -> Seq<Ins>
    decreases es,
{
    if es.len() == 0 {
        Seq::empty()
    } else {
        block_code(es.drop_last(), env, si, ptrs, defs, brk, ids)
            + expr_code(es.last(), env, si, ptrs, defs, brk, ids + sizes(es.drop_last()))
    }
}

/// The code of the arguments of a call at `si`: each compiled at
/// `arg_si`, then stored to slot `si + 1 + k`.
pub open spec fn args_code(
    es: Seq<Expr>,
    env: Seq<(String, i32)>,
    si: int,
    arg_si: int,
    ptrs: Seq<(String, i64)>,
    defs: Seq<(String, i64)>,
    brk: int,
    ids: int,
) -> Seq<Ins>
    decreases es,
{
    if es.len() == 0 {
        Seq::empty()
    } else {
        let k = es.len() - 1;
        args_code(es.drop_last(), env, si, arg_si, ptrs, defs, brk, ids)
            + expr_code(es.last(), env, arg_si, ptrs, defs, brk, ids + sizes(es.drop_last()))
            + seq![Ins::MovToStack(Reg::Rax, ((si + 1 + k) * 8) as i32)]
    }
}

/// Every local lives in a slot that the generator may hand out.
pub open spec fn slots_ok(env: Seq<(String, i32)>) -> bool {
    forall|i: int| 0 <= i < env.len() ==> 0 <= #[trigger] env[i].1 <= SLOT_LIMIT
}

pub proof fn lemma_lookup_slot(env: Seq<(String, i32)>, s: Seq<char>)
    requires
        slots_ok(env),
        bound(env, s),
    ensures
        0 <= lookup(env, s)->Some_0 <= SLOT_LIMIT,
    decreases env.len(),
{
    if env.last().0@ != s {
        assert forall|i: int| 0 <= i < env.drop_last().len() implies 0 <= #[trigger] env.drop_last()[i].1 <= SLOT_LIMIT by {
            assert(env.drop_last()[i] == env[i]);
        }
        lemma_lookup_slot(env.drop_last(), s);
    } else {
        assert(env[env.len() - 1].1 == env.last().1);
    }
}

/// What the code generator may assume of its arguments: the counter and the
/// stack slots do not run out.
pub open spec fn within_limits(e: Expr, ctx: &Context, ids: u64) -> bool {
    &&& ids + size(e) < u64::MAX
    &&& 0 <= ctx.si
    &&& ctx.si + depth(e) <= SLOT_LIMIT
    &&& slots_ok(ctx.env@)
}

/// What the code generator promises of every expression.
pub open spec fn compile_post(e: Expr, ctx: &Context, old_ids: u64, new_ids: u64, r: Result<Vec<Instr>, CompileError>) -> bool {
    &&& old_ids <= new_ids <= old_ids + size(e)
    &&& (r is Ok <==> compiles(e, ctx.env@, ctx.si as int, ctx.define_ptrs@, ctx.define_env@, ctx.curr_break != 0))
    &&& (r is Ok ==> rsp_balanced(r->Ok_0@))
    &&& (r is Ok ==> new_ids == old_ids + size(e))
    &&& (r is Ok ==> views(r->Ok_0@) == expr_code(e, ctx.env@, ctx.si as int, ctx.define_ptrs@, ctx.define_env@,
        ctx.curr_break as int, old_ids as int))
    &&& (r is Ok ==> first_error(e, ctx.env@, ctx.si as int, ctx.define_ptrs@, ctx.define_env@, ctx.curr_break != 0) is None)
    &&& (r is Err ==> first_error(e, ctx.env@, ctx.si as int, ctx.define_ptrs@, ctx.define_env@, ctx.curr_break != 0)
        == Some(r->Err_0))
}

fn sub_context<'a>(ctx: &Context<'a>, si: i32, curr_break: u64) -> (c: Context<'a>)
    ensures
        c.si == si,
        c.env@ == ctx.env@,
        c.define_env == ctx.define_env,
        c.define_ptrs == ctx.define_ptrs,
        c.curr_break == curr_break,
{
    Context { si, env: copy_env(&ctx.env), define_env: ctx.define_env, define_ptrs: ctx.define_ptrs, curr_break }
}


/// The smaller of `a` and `b`.
pub open spec fn min(a: nat, b: nat) -> nat {
    if a <= b { a } else { b }
}

fn max_i32(a: i32, b: i32) -> (r: i32)
    ensures
        r == if a >= b { a } else { b },
{
    if a >= b { a } else { b }
}

fn cap_depth(d: i32) -> (r: i32)
    requires
        d >= 0,
    ensures
        r == min(d as nat, DEPTH_CAP as nat),
{
    if d > DEPTH_CAP { DEPTH_CAP } else { d }
}

/// The number of stack slots that the code of `e` may write above the first
/// free one, or `DEPTH_CAP` where it needs more.
pub fn expr_depth(e: &Expr) -> (d: i32)
    ensures
        d == min(depth(*e), DEPTH_CAP as nat),
    decreases *e,
{
    match e {
        Expr::Number(_) => 0,
        Expr::Boolean(_) => 0,
        Expr::Id(_) => 0,
        Expr::Let(bs, body) => {
            let mut m: i32 = 0;
            let mut i: usize = 0;
            proof {
                assert(bs@.subrange(0, 0) =~= Seq::<(String, Expr)>::empty());
            }
            while i < bs.len()
                invariant
                    i <= bs@.len(),
                    m == min(let_depth(bs@.subrange(0, i as int)), DEPTH_CAP as nat),
                    *e == Expr::Let(*bs, *body),
                decreases bs@.len() - i,
            {
                proof {
                    assert(decreases_to!(*e => (*e)->Let_0));
                    assert(decreases_to!((*e)->Let_0 => ((*e)->Let_0)@));
                    assert(decreases_to!(bs@ => bs@[i as int]));
                    assert(decreases_to!(bs@[i as int] => bs@[i as int].1));
                    let next = bs@.subrange(0, i + 1);
                    assert(next.drop_last() =~= bs@.subrange(0, i as int));
                    assert(next.last() == bs@[i as int]);
                }
                let k: i32 = if i > DEPTH_CAP as usize { DEPTH_CAP } else { i as i32 };
                let d = cap_depth(expr_depth(&bs[i].1) + k);
                m = max_i32(m, d);
                i = i + 1;
            }
            proof {
                assert(bs@.subrange(0, bs@.len() as int) =~= bs@);
            }
            let n: i32 = if bs.len() > DEPTH_CAP as usize { DEPTH_CAP } else { bs.len() as i32 };
            max_i32(m, cap_depth(n + expr_depth(body)))
        },
        Expr::UnOp(_, x) => expr_depth(x),
        Expr::BinOp(op, a, b) => {
            let da = expr_depth(a);
            let db = expr_depth(b);
            match op {
                Op2::Plus | Op2::Times => max_i32(max_i32(da, 1), cap_depth(1 + db)),
                Op2::Minus => max_i32(max_i32(db, 1), cap_depth(1 + da)),
                _ => max_i32(max_i32(db, 2), cap_depth(2 + da)),
            }
        },
        Expr::If(c, t, f) => {
            let dc = expr_depth(c);
            let dt = expr_depth(t);
            let df = expr_depth(f);
            max_i32(max_i32(dc, dt), cap_depth(1 + df))
        },
        Expr::Loop(x) => expr_depth(x),
        Expr::Break(x) => expr_depth(x),
        Expr::Assign(_, x) => expr_depth(x),
        Expr::Block(es) => list_depth(es),
        Expr::Call(_, args) => {
            let m = list_depth(args);
            let n: i32 = if args.len() > DEPTH_CAP as usize { DEPTH_CAP } else { args.len() as i32 };
            cap_depth(2 + n + 2 * m)
        },
    }
}

fn list_depth(es: &Vec<Expr>) -> (d: i32)
    ensures
        d == min(max_depth(es@), DEPTH_CAP as nat),
    decreases es@,
{
    let mut m: i32 = 0;
    let mut i: usize = 0;
    proof {
        assert(es@.subrange(0, 0) =~= Seq::<Expr>::empty());
    }
    while i < es.len()
        invariant
            i <= es@.len(),
            m == min(max_depth(es@.subrange(0, i as int)), DEPTH_CAP as nat),
        decreases es@.len() - i,
    {
        proof {
            let next = es@.subrange(0, i + 1);
            assert(next.drop_last() =~= es@.subrange(0, i as int));
            assert(next.last() == es@[i as int]);
        }
        let d = expr_depth(&es[i]);
        m = max_i32(m, d);
        i = i + 1;
    }
    proof {
        assert(es@.subrange(0, es@.len() as int) =~= es@);
    }
    m
}


/// The label at the entry of a function's code.
pub open spec fn function_label_spec(name: Seq<char>) -> Seq<char> {
    "function_"@ + name + "_call_label"@
}

pub fn function_label(name: &String) -> (r: String)
    ensures
        r@ == function_label_spec(name@),
{
    let mut s = String::from_str("function_");
    s.append(name.as_str());
    s.append("_call_label");
    s
}

fn name_in_prefix(bs: &Vec<(String, Expr)>, i: usize) -> (r: bool)
    requires
        i < bs@.len(),
    ensures
        r <==> exists|j: int| 0 <= j < i && bs@[j].0@ == bs@[i as int].0@,
{
    let mut j: usize = 0;
    while j < i
        invariant
            j <= i < bs@.len(),
            forall|k: int| 0 <= k < j ==> bs@[k].0@ != bs@[i as int].0@,
        decreases i - j,
    {
        if bs[j].0 == bs[i].0 {
            return true;
        }
        j = j + 1;
    }
    false
}

/// Compiles an expression to the instruction list that leaves its value in
/// `rax`: exactly the lowering `expr_code`, taking `size(e)` label ids. It
/// fails exactly where the expression reads or assigns an unbound name,
/// binds a name twice in one `let`, or breaks outside a loop.
pub fn compile_expr_to_instr(e: &Expr, ctx: &Context, ids: &mut Counter) -> (r: Result<Vec<Instr>, CompileError>)
    requires
        within_limits(*e, ctx, old(ids).value),
    ensures
        compile_post(*e, ctx, old(ids).value, final(ids).value, r),
        (*e matches Expr::Id(s) ==> (r is Err ==> r->Err_0 == CompileError::UnboundIdentifier(s))),
        (*e is Break && ctx.curr_break == 0 ==> r == Err::<Vec<Instr>, CompileError>(CompileError::BreakOutsideLoop)),
    decreases *e, 1int,
{
    match e {
        Expr::Number(n) => {
            let mut result: Vec<Instr> = Vec::new();
            if MIN_NUMBER <= *n && *n <= MAX_NUMBER {
                emit(&mut result, Instr::Mov(Reg::Rax, *n * 2));
            } else {
                emit(&mut result, Instr::CallRustError(1));
            }
            proof { assert(views(result@) =~= number_code(*n)); }
            Ok(result)
        },
        Expr::Boolean(b) => {
            let mut result: Vec<Instr> = Vec::new();
            emit(&mut result, Instr::Mov(Reg::Rax, if *b { 3 } else { 1 }));
            proof { assert(views(result@) =~= boolean_code(*b)); }
            Ok(result)
        },
        Expr::Id(s) => {
            let mut result: Vec<Instr> = Vec::new();
            let input = String::from_str("input");
            if *s == input {
                emit(&mut result, Instr::MovFromReg(Reg::Rax, Reg::Rdi));
            } else {
                match find(&ctx.env, s) {
                    Some(slot) => {
                        proof { lemma_lookup_slot(ctx.env@, s@); }
                        emit(&mut result, Instr::MovFromStack(Reg::Rax, slot * 8));
                    },
                    None => match find(ctx.define_ptrs, s) {
                        Some(ptr) => {
                            emit(&mut result, Instr::Mov(Reg::Rax, ptr));
                            emit(&mut result, Instr::MovRaxFromRaxPtr);
                        },
                        None => match find(ctx.define_env, s) {
                            Some(value) => {
                                emit(&mut result, Instr::Mov(Reg::Rax, value));
                            },
                            None => {
                                return Err(CompileError::UnboundIdentifier(s.clone()));
                            },
                        },
                    },
                }
            }
            proof { assert(views(result@) =~= id_code(s@, ctx.env@, ctx.define_ptrs@, ctx.define_env@)); }
            Ok(result)
        },
        Expr::Let(bs, body) => compile_let(bs, body, ctx, ids, Ghost(*e)),
        Expr::UnOp(op, x) => compile_unop(*op, x, ctx, ids, Ghost(*e)),
        Expr::BinOp(op, a, b) => match op {
            Op2::Plus | Op2::Minus | Op2::Times => compile_arith(*op, a, b, ctx, ids, Ghost(*e)),
            _ => compile_compare(*op, a, b, ctx, ids, Ghost(*e)),
        },
        Expr::If(cond, thn, els) => compile_if(cond, thn, els, ctx, ids, Ghost(*e)),
        Expr::Loop(x) => compile_loop(x, ctx, ids, Ghost(*e)),
        Expr::Break(x) => compile_break(x, ctx, ids, Ghost(*e)),
        Expr::Assign(s, x) => compile_assign(s, x, ctx, ids, Ghost(*e)),
        Expr::Block(es) => compile_block(es, ctx, ids, Ghost(*e)),
        Expr::Call(name, args) => compile_call(name, args, ctx, ids, Ghost(*e)),
    }
}

fn compile_let(
    bs: &Vec<(String, Expr)>,
    body: &Box<Expr>,
    ctx: &Context,
    ids: &mut Counter,
    Ghost(whole): Ghost<Expr>,
) -> (r: Result<Vec<Instr>, CompileError>)
    requires
        whole == Expr::Let(*bs, *body),
        within_limits(whole, ctx, old(ids).value),
    ensures
        compile_post(whole, ctx, old(ids).value, final(ids).value, r),
    decreases whole, 0int,
{
    let ghost ids0 = ids.value as int;
    let ghost si = ctx.si as int;
    let ghost ptrs = ctx.define_ptrs@;
    let ghost defs = ctx.define_env@;
    let ghost inl = ctx.curr_break != 0;
    let ghost brk = ctx.curr_break as int;
    let mut result: Vec<Instr> = Vec::new();
    let mut curr_env = copy_env(&ctx.env);
    let mut i: usize = 0;
    proof {
        assert(curr_env@ =~= ctx.env@ + let_ext(bs@, si, 0));
        assert(bs@.subrange(0, 0) =~= Seq::<(String, Expr)>::empty());
        assert(views(result@) =~= Seq::<Ins>::empty());
        lemma_let_size_prefix(bs@, bs@.len() as int);
    }
    while i < bs.len()
        invariant
            whole == Expr::Let(*bs, *body),
            within_limits(whole, ctx, ids0 as u64),
            ids0 == old(ids).value,
            si == ctx.si,
            ptrs == ctx.define_ptrs@,
            defs == ctx.define_env@,
            inl == (ctx.curr_break != 0),
            brk == ctx.curr_break,
            i <= bs@.len(),
            curr_env@ == ctx.env@ + let_ext(bs@, si, i as int),
            slots_ok(curr_env@),
            ids.value == ids0 + let_size(bs@.subrange(0, i as int)),
            let_size(bs@.subrange(0, i as int)) <= let_size(bs@),
            rsp_balanced(result@),
            views(result@) == let_code(bs@.subrange(0, i as int), ctx.env@, si, ptrs, defs, brk, ids0),
            forall|a: int, b: int| 0 <= a < b < i ==> bs@[a].0@ != bs@[b].0@,
            forall|k: int| 0 <= k < i ==>
                compiles(#[trigger] bs@[k].1, ctx.env@ + let_ext(bs@, si, k), si + k, ptrs, defs, inl),
            let_error(bs@.subrange(0, i as int), ctx.env@, si, ptrs, defs, inl) is None,
        decreases bs@.len() - i,
    {
        proof {
            lemma_let_size_prefix(bs@, i as int);
            lemma_let_size_prefix(bs@, i + 1);
        }
        let ghost p1 = bs@.subrange(0, i + 1);
        proof {
            assert(p1.drop_last() =~= bs@.subrange(0, i as int));
            assert(p1.last() == bs@[i as int]);
            assert(let_ext(p1, si, i as int) =~= let_ext(bs@, si, i as int));
        }
        if name_in_prefix(bs, i) {
            proof {
                let j = choose|j: int| 0 <= j < i && bs@[j].0@ == bs@[i as int].0@;
                assert(!distinct_names(bs@));
                assert(p1[j].0@ == p1[i as int].0@);
                assert(let_error(p1, ctx.env@, si, ptrs, defs, inl) == Some(CompileError::DuplicateBinding));
                lemma_let_error_prefix(bs@, i + 1, ctx.env@, si, ptrs, defs, inl);
            }
            return Err(CompileError::DuplicateBinding);
        }
        proof {
            assert(!(exists|j: int| 0 <= j < i && p1[j].0@ == p1[i as int].0@)) by {
                if exists|j: int| 0 <= j < i && p1[j].0@ == p1[i as int].0@ {
                    let j = choose|j: int| 0 <= j < i && p1[j].0@ == p1[i as int].0@;
                    assert(bs@[j].0@ == bs@[i as int].0@);
                }
            }
        }
        proof {
            lemma_let_depth_ge(bs@, i as int);
            assert(decreases_to!(whole => whole->Let_0));
            assert(decreases_to!(whole->Let_0 => (whole->Let_0)@));
            assert(decreases_to!(bs@ => bs@[i as int]));
            assert(decreases_to!(bs@[i as int] => bs@[i as int].1));
        }
        let curr_si: i32 = ctx.si + i as i32;
        let sub = Context {
            si: curr_si,
            env: copy_env(&curr_env),
            define_env: ctx.define_env,
            define_ptrs: ctx.define_ptrs,
            curr_break: ctx.curr_break,
        };
        let code = match compile_expr_to_instr(&bs[i].1, &sub, ids) {
            Ok(code) => code,
            Err(err) => {
                proof {
                    assert(!compiles(bs@[i as int].1, ctx.env@ + let_ext(bs@, si, i as int), si + i, ptrs, defs, inl));
                    assert(let_error(p1, ctx.env@, si, ptrs, defs, inl) == Some(err));
                    lemma_let_error_prefix(bs@, i + 1, ctx.env@, si, ptrs, defs, inl);
                }
                return Err(err);
            },
        };
        let ghost rhs = views(code@);
        emit_all(&mut result, code);
        emit(&mut result, Instr::MovToStack(Reg::Rax, curr_si * 8));
        let name = bs[i].0.clone();
        let ghost env_before = curr_env@;
        curr_env.push((name, curr_si));
        proof {
            assert(let_error(p1, ctx.env@, si, ptrs, defs, inl) is None);
            assert(views(result@) =~= let_code(p1, ctx.env@, si, ptrs, defs, brk, ids0));
            assert(curr_env@ =~= ctx.env@ + let_ext(bs@, si, i + 1));
            assert forall|k: int| 0 <= k < curr_env@.len() implies 0 <= #[trigger] curr_env@[k].1 <= SLOT_LIMIT by {
                if k < curr_env@.len() - 1 {
                    assert(curr_env@[k] == env_before[k]);
                }
            }
        }
        i = i + 1;
    }
    proof {
        assert(bs@.subrange(0, bs@.len() as int) =~= bs@);
        assert(decreases_to!(whole => whole->Let_1));
    }
    let body_ctx = Context {
        si: ctx.si + bs.len() as i32,
        env: curr_env,
        define_env: ctx.define_env,
        define_ptrs: ctx.define_ptrs,
        curr_break: ctx.curr_break,
    };
    let body_code = match compile_expr_to_instr(body, &body_ctx, ids) {
        Ok(code) => code,
        Err(err) => return Err(err),
    };
    emit_all(&mut result, body_code);
    Ok(result)
}

#[verifier::spinoff_prover]
#[verifier::rlimit(100)]
fn compile_arith(
    op: Op2,
    a: &Box<Expr>,
    b: &Box<Expr>,
    ctx: &Context,
    ids: &mut Counter,
    Ghost(whole): Ghost<Expr>,
) -> (r: Result<Vec<Instr>, CompileError>)
    requires
        whole == Expr::BinOp(op, *a, *b),
        is_arith(op),
        within_limits(whole, ctx, old(ids).value),
    ensures
        compile_post(whole, ctx, old(ids).value, final(ids).value, r),
    decreases whole, 0int,
{
    let stack_offset = ctx.si * 8;
    let (first, second) = if let Op2::Minus = op { (b, a) } else { (a, b) };
    let mut result = match compile_expr_to_instr(first, ctx, ids) {
        Ok(code) => code,
        Err(err) => return Err(err),
    };
    let ghost cf = views(result@);
    emit(&mut result, Instr::MovToStack(Reg::Rax, stack_offset));
    let second_ctx = sub_context(ctx, ctx.si + 1, ctx.curr_break);
    let second_code = match compile_expr_to_instr(second, &second_ctx, ids) {
        Ok(code) => code,
        Err(err) => return Err(err),
    };
    let ghost cg = views(second_code@);
    emit_all(&mut result, second_code);
    let guard = at_least_one_bool_handler(stack_offset, ids);
    emit_all(&mut result, guard);
    match op {
        Op2::Plus => emit(&mut result, Instr::AddRaxMemFromStack(stack_offset)),
        Op2::Minus => emit(&mut result, Instr::SubRaxMemFromStack(stack_offset)),
        _ => {
            emit(&mut result, Instr::ShiftArithmeticRight(Reg::Rax, 1));
            emit(&mut result, Instr::MulRaxMemFromStack(stack_offset));
        },
    }
    let overflow = overflow_handler(ids);
    emit_all(&mut result, overflow);
    proof {
        let ids0 = old(ids).value as int;
        let (ca, cb) = if op is Minus { (cg, cf) } else { (cf, cg) };
        assert(views(result@) =~= binop_code(op, ca, cb, ctx.si as int,
            label_spec("bool_ok"@, ids0 + size(**first) + size(**second) + 1),
            label_spec("no_overflow"@, ids0 + size(**first) + size(**second) + 2)));
    }
    Ok(result)
}

fn compile_compare(
    op: Op2,
    a: &Box<Expr>,
    b: &Box<Expr>,
    ctx: &Context,
    ids: &mut Counter,
    Ghost(whole): Ghost<Expr>,
) -> (r: Result<Vec<Instr>, CompileError>)
    requires
        whole == Expr::BinOp(op, *a, *b),
        !is_arith(op),
        within_limits(whole, ctx, old(ids).value),
    ensures
        compile_post(whole, ctx, old(ids).value, final(ids).value, r),
    decreases whole, 0int,
{
    let stack_offset = ctx.si * 8;
    let cmp = match op {
        Op2::Equal => CmpOp::Equal,
        Op2::Greater => CmpOp::Greater,
        Op2::GreaterEqual => CmpOp::GreaterEqual,
        Op2::Less => CmpOp::Less,
        _ => CmpOp::LessEqual,
    };
    let e2_code = match compile_expr_to_instr(b, ctx, ids) {
        Ok(code) => code,
        Err(err) => return Err(err),
    };
    let e1_ctx = sub_context(ctx, ctx.si + 2, ctx.curr_break);
    let e1_code = match compile_expr_to_instr(a, &e1_ctx, ids) {
        Ok(code) => code,
        Err(err) => return Err(err),
    };
    proof { assert(cmp == cmp_of(op)); }
    Ok(gen_compare(e1_code, e2_code, stack_offset, cmp, ids))
}

fn compile_block(
    es: &Vec<Expr>,
    ctx: &Context,
    ids: &mut Counter,
    Ghost(whole): Ghost<Expr>,
) -> (r: Result<Vec<Instr>, CompileError>)
    requires
        whole == Expr::Block(*es),
        within_limits(whole, ctx, old(ids).value),
    ensures
        compile_post(whole, ctx, old(ids).value, final(ids).value, r),
    decreases whole, 0int,
{
    let ghost ids0 = ids.value as int;
    let ghost ptrs = ctx.define_ptrs@;
    let ghost defs = ctx.define_env@;
    let ghost inl = ctx.curr_break != 0;
    let mut result: Vec<Instr> = Vec::new();
    let mut i: usize = 0;
    proof {
        assert(es@.subrange(0, 0) =~= Seq::<Expr>::empty());
        assert(views(result@) =~= Seq::<Ins>::empty());
        lemma_sizes_prefix(es@, es@.len() as int);
    }
    while i < es.len()
        invariant
            whole == Expr::Block(*es),
            within_limits(whole, ctx, ids0 as u64),
            ids0 == old(ids).value,
            ptrs == ctx.define_ptrs@,
            defs == ctx.define_env@,
            inl == (ctx.curr_break != 0),
            i <= es@.len(),
            ids.value == ids0 + sizes(es@.subrange(0, i as int)),
            sizes(es@.subrange(0, i as int)) <= sizes(es@),
            rsp_balanced(result@),
            views(result@) == block_code(es@.subrange(0, i as int), ctx.env@, ctx.si as int, ptrs, defs,
                ctx.curr_break as int, ids0),
            forall|k: int| 0 <= k < i ==> compiles(#[trigger] es@[k], ctx.env@, ctx.si as int, ptrs, defs, inl),
            list_error(es@.subrange(0, i as int), ctx.env@, ctx.si as int, ptrs, defs, inl) is None,
        decreases es@.len() - i,
    {
        proof {
            lemma_max_depth_ge(es@, i as int);
            lemma_sizes_prefix(es@, i as int);
            lemma_sizes_prefix(es@, i + 1);
            assert(decreases_to!(whole => whole->Block_0));
            assert(decreases_to!(whole->Block_0 => (whole->Block_0)@));
            assert(decreases_to!(es@ => es@[i as int]));
        }
        let code = match compile_expr_to_instr(&es[i], ctx, ids) {
            Ok(code) => code,
            Err(err) => {
                proof {
                    assert(!compiles(es@[i as int], ctx.env@, ctx.si as int, ptrs, defs, inl));
                    let p1 = es@.subrange(0, i + 1);
                    assert(p1.drop_last() =~= es@.subrange(0, i as int));
                    assert(p1.last() == es@[i as int]);
                    lemma_list_error_prefix(es@, i + 1, ctx.env@, ctx.si as int, ptrs, defs, inl);
                }
                return Err(err);
            },
        };
        emit_all(&mut result, code);
        proof {
            let p1 = es@.subrange(0, i + 1);
            assert(p1.drop_last() =~= es@.subrange(0, i as int));
            assert(p1.last() == es@[i as int]);
        }
        i = i + 1;
    }
    proof {
        assert(es@.subrange(0, es@.len() as int) =~= es@);
    }
    Ok(result)
}

fn compile_call(
    name: &String,
    args: &Vec<Expr>,
    ctx: &Context,
    ids: &mut Counter,
    Ghost(whole): Ghost<Expr>,
) -> (r: Result<Vec<Instr>, CompileError>)
    requires
        whole == Expr::Call(*name, *args),
        within_limits(whole, ctx, old(ids).value),
    ensures
        compile_post(whole, ctx, old(ids).value, final(ids).value, r),
    decreases whole, 0int,
{
    let ghost ids0 = ids.value as int;
    let ghost ptrs = ctx.define_ptrs@;
    let ghost defs = ctx.define_env@;
    let ghost inl = ctx.curr_break != 0;
    let id = next_id(ids);
    let mut after_label = String::from_str("after_call_");
    after_label.append(name.as_str());
    after_label.append("_");
    push_digits(&mut after_label, id);
    let mut result: Vec<Instr> = Vec::new();
    let mut start = String::from_str("START of call to ");
    start.append(name.as_str());
    start.append(" [");
    push_decimal(&mut start, args.len() as i64);
    if args.len() == 1 {
        start.append(" arg]");
    } else {
        start.append(" args]");
    }
    emit(&mut result, Instr::Comment(start));
    emit(&mut result, Instr::MovLabel(after_label.clone(), ctx.si * 8));
    let ghost head = views(result@);
    let safe_si: i32 = 2 + ctx.si + args.len() as i32 + list_depth(args);
    let mut i: usize = 0;
    proof {
        assert(args@.subrange(0, 0) =~= Seq::<Expr>::empty());
        lemma_sizes_prefix(args@, args@.len() as int);
        assert(views(result@) =~= head + args_code(args@.subrange(0, 0), ctx.env@, ctx.si as int, safe_si as int,
            ptrs, defs, ctx.curr_break as int, ids0 + 1));
    }
    while i < args.len()
        invariant
            whole == Expr::Call(*name, *args),
            within_limits(whole, ctx, ids0 as u64),
            ids0 == old(ids).value,
            ptrs == ctx.define_ptrs@,
            defs == ctx.define_env@,
            inl == (ctx.curr_break != 0),
            safe_si == call_si(args@, ctx.si as int),
            i <= args@.len(),
            ids.value == ids0 + 1 + sizes(args@.subrange(0, i as int)),
            sizes(args@.subrange(0, i as int)) <= sizes(args@),
            rsp_balanced(result@),
            views(result@) == head + args_code(args@.subrange(0, i as int), ctx.env@, ctx.si as int, safe_si as int,
                ptrs, defs, ctx.curr_break as int, ids0 + 1),
            forall|k: int| 0 <= k < i ==> compiles(#[trigger] args@[k], ctx.env@, safe_si as int, ptrs, defs, inl),
            list_error(args@.subrange(0, i as int), ctx.env@, safe_si as int, ptrs, defs, inl) is None,
        decreases args@.len() - i,
    {
        proof {
            lemma_max_depth_ge(args@, i as int);
            lemma_sizes_prefix(args@, i as int);
            lemma_sizes_prefix(args@, i + 1);
            assert(decreases_to!(whole => whole->Call_1));
            assert(decreases_to!(whole->Call_1 => (whole->Call_1)@));
            assert(decreases_to!(args@ => args@[i as int]));
        }
        let arg_ctx = sub_context(ctx, safe_si, ctx.curr_break);
        let code = match compile_expr_to_instr(&args[i], &arg_ctx, ids) {
            Ok(code) => code,
            Err(err) => {
                proof {
                    assert(!compiles(args@[i as int], ctx.env@, safe_si as int, ptrs, defs, inl));
                    let p1 = args@.subrange(0, i + 1);
                    assert(p1.drop_last() =~= args@.subrange(0, i as int));
                    assert(p1.last() == args@[i as int]);
                    lemma_list_error_prefix(args@, i + 1, ctx.env@, safe_si as int, ptrs, defs, inl);
                }
                return Err(err);
            },
        };
        emit_all(&mut result, code);
        emit(&mut result, Instr::MovToStack(Reg::Rax, (ctx.si + 1 + i as i32) * 8));
        proof {
            let p1 = args@.subrange(0, i + 1);
            assert(p1.drop_last() =~= args@.subrange(0, i as int));
            assert(p1.last() == args@[i as int]);
            assert(views(result@) =~= head + args_code(p1, ctx.env@, ctx.si as int, safe_si as int,
                ptrs, defs, ctx.curr_break as int, ids0 + 1));
        }
        i = i + 1;
    }
    proof {
        assert(args@.subrange(0, args@.len() as int) =~= args@);
    }
    emit(&mut result, Instr::Sub(Reg::Rsp, ctx.si * 8));
    emit(&mut result, Instr::Jmp(function_label(name)));
    emit(&mut result, Instr::Label(after_label));
    emit(&mut result, Instr::Add(Reg::Rsp, ctx.si * 8));
    let mut end = String::from_str("END of call to ");
    end.append(name.as_str());
    emit(&mut result, Instr::Comment(end));
    proof {
        assert(after_label@ == after_call_label(name@, ids0 + 1));
        assert(views(result@) =~= expr_code(whole, ctx.env@, ctx.si as int, ptrs, defs, ctx.curr_break as int, ids0));
    }
    Ok(result)
}

/// The locals of a function body: parameter `k` in slot `1 + k`, above the
/// shelved return address in slot 0.
pub open spec fn param_env(params: Seq<String>) -> Seq<(String, i32)> {
    Seq::new(params.len(), |k: int| (params[k], (1 + k) as i32))
}

/// The body of a definition compiles in its own frame, outside any loop.
pub open spec fn def_compiles(d: Defenition, ptrs: Seq<(String, i64)>, defs: Seq<(String, i64)>) -> bool {
    match d {
        Defenition::Fun(_, params, body) => compiles(*body, param_env(params@), (1 + params@.len()) as int, ptrs, defs, false),
    }
}

/// The body of a definition fits in the stack slots.
pub open spec fn def_fits(d: Defenition) -> bool {
    match d {
        Defenition::Fun(_, params, body) => 1 + params@.len() + depth(*body) <= SLOT_LIMIT,
    }
}

pub open spec fn def_size(d: Defenition) -> nat {
    match d {
        Defenition::Fun(_, _, body) => size(*body),
    }
}

pub open spec fn defs_size(ds: Seq<Defenition>) -> nat
    decreases ds.len(),
{
    if ds.len() == 0 {
        0
    } else {
        defs_size(ds.drop_last()) + def_size(ds.last())
    }
}

pub proof fn lemma_defs_size_prefix(ds: Seq<Defenition>, i: int)
    requires
        0 <= i <= ds.len(),
    ensures
        defs_size(ds.subrange(0, i)) <= defs_size(ds),
        i < ds.len() ==> defs_size(ds.subrange(0, i + 1)) == defs_size(ds.subrange(0, i)) + def_size(ds[i]),
    decreases ds.len(),
{
    if i < ds.len() {
        assert(ds.subrange(0, i + 1).drop_last() =~= ds.subrange(0, i));
        if i < ds.len() - 1 {
            assert(ds.drop_last().subrange(0, i) =~= ds.subrange(0, i));
            assert(ds.drop_last().subrange(0, i + 1) =~= ds.subrange(0, i + 1));
            lemma_defs_size_prefix(ds.drop_last(), i);
            lemma_defs_size_prefix(ds.drop_last(), i + 1);
        } else {
            assert(ds.subrange(0, i + 1) =~= ds);
        }
    } else {
        assert(ds.subrange(0, i) =~= ds);
    }
}

/// Names joined with commas.
pub open spec fn joined(ps: Seq<String>) -> Seq<char>
    decreases ps.len(),
{
    if ps.len() == 0 {
        Seq::empty()
    } else if ps.len() == 1 {
        ps[0]@
    } else {
        joined(ps.drop_last()) + ", "@ + ps.last()@
    }
}

fn join_names(ps: &Vec<String>) -> (r: String)
    ensures
        r@ == joined(ps@),
{
    let mut s = String::new();
    let mut i: usize = 0;
    while i < ps.len()
        invariant
            i <= ps@.len(),
            s@ == joined(ps@.subrange(0, i as int)),
        decreases ps@.len() - i,
    {
        if i > 0 {
            s.append(", ");
        }
        s.append(ps[i].as_str());
        proof {
            let p1 = ps@.subrange(0, i + 1);
            assert(p1.drop_last() =~= ps@.subrange(0, i as int));
            if i == 0 {
                assert(s@ =~= joined(p1));
            }
        }
        i = i + 1;
    }
    assert(ps@.subrange(0, ps@.len() as int) =~= ps@);
    s
}

/// The code of one function definition: a comment naming it, its entry
/// label, its body compiled in its own frame outside any loop, the jump to
/// the return address that the caller shelved in slot 0, and a closing
/// comment.
pub open spec fn def_code(d: Defenition, ptrs: Seq<(String, i64)>, defs: Seq<(String, i64)>, ids: int) -> Seq<Ins> {
    match d {
        Defenition::Fun(name, params, body) => seq![
            Ins::Comment("START of function "@ + name@ + "("@ + joined(params@) + ")"@),
            Ins::Label(function_label_spec(name@)),
        ] + expr_code(*body, param_env(params@), (1 + params@.len()) as int, ptrs, defs, 0, ids) + seq![
            Ins::JmpReg(Reg::Rsp),
            Ins::Comment("END of function "@ + name@ + " definition"@),
        ],
    }
}

/// The code of function definitions, one after another.
pub open spec fn defs_code(ds: Seq<Defenition>, ptrs: Seq<(String, i64)>, defs: Seq<(String, i64)>, ids: int) -> Seq<Ins>
    decreases ds.len(),
{
    if ds.len() == 0 {
        Seq::empty()
    } else {
        defs_code(ds.drop_last(), ptrs, defs, ids) + def_code(ds.last(), ptrs, defs, ids + defs_size(ds.drop_last()))
    }
}

/// The first error among function definitions: that of the first body
/// that does not compile in its own frame.
pub open spec fn defs_error(ds: Seq<Defenition>, ptrs: Seq<(String, i64)>, defs: Seq<(String, i64)>) -> Option<CompileError>
    decreases ds.len(),
{
    if ds.len() == 0 {
        None
    } else {
        match defs_error(ds.drop_last(), ptrs, defs) {
            Some(err) => Some(err),
            None => match ds.last() {
                Defenition::Fun(_, params, body) => first_error(*body, param_env(params@), (1 + params@.len()) as int,
                    ptrs, defs, false),
            },
        }
    }
}

pub proof fn lemma_defs_error_prefix(ds: Seq<Defenition>, i: int, ptrs: Seq<(String, i64)>, defs: Seq<(String, i64)>)
    requires
        0 <= i <= ds.len(),
        defs_error(ds.subrange(0, i), ptrs, defs) is Some,
    ensures
        defs_error(ds, ptrs, defs) == defs_error(ds.subrange(0, i), ptrs, defs),
    decreases ds.len(),
{
    if i < ds.len() {
        assert(ds.drop_last().subrange(0, i) =~= ds.subrange(0, i));
        lemma_defs_error_prefix(ds.drop_last(), i, ptrs, defs);
    } else {
        assert(ds.subrange(0, i) =~= ds);
    }
}

fn param_slots(params: &Vec<String>) -> (r: Vec<(String, i32)>)
    requires
        params@.len() < SLOT_LIMIT,
    ensures
        r@ == param_env(params@),
        slots_ok(r@),
{
    let mut env: Vec<(String, i32)> = Vec::new();
    let mut k: usize = 0;
    while k < params.len()
        invariant
            k <= params@.len() < SLOT_LIMIT,
            env@ == param_env(params@).subrange(0, k as int),
        decreases params@.len() - k,
    {
        env.push((params[k].clone(), 1 + k as i32));
        assert(env@ =~= param_env(params@).subrange(0, k + 1));
        k = k + 1;
    }
    assert(env@ =~= param_env(params@));
    env
}

/// Compiles function definitions: each is its entry label, its body, and a
/// jump to the return address that the caller shelved.
pub fn compile_defs_to_instr(defs: &Vec<Defenition>, ctx: &Context, ids: &mut Counter) -> (r: Result<Vec<Instr>, CompileError>)
    requires
        old(ids).value + defs_size(defs@) < u64::MAX,
        forall|k: int| 0 <= k < defs@.len() ==> def_fits(#[trigger] defs@[k]),
    ensures
        old(ids).value <= final(ids).value <= old(ids).value + defs_size(defs@),
        r is Ok <==> forall|k: int| 0 <= k < defs@.len() ==>
            def_compiles(#[trigger] defs@[k], ctx.define_ptrs@, ctx.define_env@),
        r is Ok ==> rsp_balanced(r->Ok_0@),
        r is Ok ==> final(ids).value == old(ids).value + defs_size(defs@),
        r is Ok ==> views(r->Ok_0@) == defs_code(defs@, ctx.define_ptrs@, ctx.define_env@, old(ids).value as int),
        r is Err ==> defs_error(defs@, ctx.define_ptrs@, ctx.define_env@) == Some(r->Err_0),
{
    let ghost ids0 = ids.value;
    let mut result: Vec<Instr> = Vec::new();
    let mut i: usize = 0;
    proof {
        assert(views(result@) =~= Seq::<Ins>::empty());
        assert(defs@.subrange(0, 0) =~= Seq::<Defenition>::empty());
        lemma_defs_size_prefix(defs@, defs@.len() as int);
    }
    while i < defs.len()
        invariant
            ids0 == old(ids).value,
            ids0 + defs_size(defs@) < u64::MAX,
            forall|k: int| 0 <= k < defs@.len() ==> def_fits(#[trigger] defs@[k]),
            i <= defs@.len(),
            ids.value == ids0 + defs_size(defs@.subrange(0, i as int)),
            defs_size(defs@.subrange(0, i as int)) <= defs_size(defs@),
            rsp_balanced(result@),
            views(result@) == defs_code(defs@.subrange(0, i as int), ctx.define_ptrs@, ctx.define_env@, ids0 as int),
            defs_error(defs@.subrange(0, i as int), ctx.define_ptrs@, ctx.define_env@) is None,
            forall|k: int| 0 <= k < i ==> def_compiles(#[trigger] defs@[k], ctx.define_ptrs@, ctx.define_env@),
        decreases defs@.len() - i,
    {
        proof {
            lemma_defs_size_prefix(defs@, i as int);
            lemma_defs_size_prefix(defs@, i + 1);
            assert(def_fits(defs@[i as int]));
        }
        match &defs[i] {
            Defenition::Fun(name, params, body) => {
                let mut start = String::from_str("START of function ");
                start.append(name.as_str());
                start.append("(");
                let ps = join_names(params);
                start.append(ps.as_str());
                start.append(")");
                emit(&mut result, Instr::Comment(start));
                emit(&mut result, Instr::Label(function_label(name)));
                let body_ctx = Context {
                    si: 1 + params.len() as i32,
                    env: param_slots(params),
                    define_env: ctx.define_env,
                    define_ptrs: ctx.define_ptrs,
                    curr_break: 0,
                };
                let code = match compile_expr_to_instr(body, &body_ctx, ids) {
                    Ok(code) => code,
                    Err(err) => {
                        proof {
                            assert(!def_compiles(defs@[i as int], ctx.define_ptrs@, ctx.define_env@));
                            let p1 = defs@.subrange(0, i + 1);
                            assert(p1.drop_last() =~= defs@.subrange(0, i as int));
                            assert(p1.last() == defs@[i as int]);
                            assert(body_ctx.env@ == param_env(params@));
                            lemma_defs_error_prefix(defs@, i + 1, ctx.define_ptrs@, ctx.define_env@);
                        }
                        return Err(err);
                    },
                };
                emit_all(&mut result, code);
                emit(&mut result, Instr::JmpReg(Reg::Rsp));
                let mut end = String::from_str("END of function ");
                end.append(name.as_str());
                end.append(" definition");
                emit(&mut result, Instr::Comment(end));
                proof {
                    let p1 = defs@.subrange(0, i + 1);
                    assert(p1.drop_last() =~= defs@.subrange(0, i as int));
                    assert(p1.last() == defs@[i as int]);
                    assert(body_ctx.env@ == param_env(params@));
                    assert(views(result@) =~= defs_code(p1, ctx.define_ptrs@, ctx.define_env@, ids0 as int));
                }
            },
        }
        i = i + 1;
    }
    proof {
        assert(defs@.subrange(0, defs@.len() as int) =~= defs@);
    }
    Ok(result)
}


fn cap_add(a: u64, b: u64) -> (r: u64)
    ensures
        r == min((a + b) as nat, u64::MAX as nat),
{
    if a > u64::MAX - b { u64::MAX } else { a + b }
}

/// The bound on the label ids that compiling `e` takes, or `u64::MAX` where
/// it is larger.
pub fn expr_size(e: &Expr) -> (r: u64)
    ensures
        r == min(size(*e), u64::MAX as nat),
    decreases *e,
{
    match e {
        Expr::Number(_) => 0,
        Expr::Boolean(_) => 0,
        Expr::Id(_) => 0,
        Expr::Let(bs, body) => {
            let mut m: u64 = 0;
            let mut i: usize = 0;
            proof {
                assert(bs@.subrange(0, 0) =~= Seq::<(String, Expr)>::empty());
            }
            while i < bs.len()
                invariant
                    i <= bs@.len(),
                    m == min(let_size(bs@.subrange(0, i as int)), u64::MAX as nat),
                    *e == Expr::Let(*bs, *body),
                decreases bs@.len() - i,
            {
                proof {
                    assert(decreases_to!(*e => (*e)->Let_0));
                    assert(decreases_to!((*e)->Let_0 => ((*e)->Let_0)@));
                    assert(decreases_to!(bs@ => bs@[i as int]));
                    assert(decreases_to!(bs@[i as int] => bs@[i as int].1));
                    let next = bs@.subrange(0, i + 1);
                    assert(next.drop_last() =~= bs@.subrange(0, i as int));
                    assert(next.last() == bs@[i as int]);
                }
                m = cap_add(m, expr_size(&bs[i].1));
                i = i + 1;
            }
            proof {
                assert(bs@.subrange(0, bs@.len() as int) =~= bs@);
            }
            cap_add(m, expr_size(body))
        },
        Expr::UnOp(op, x) => match op {
            Op1::Add1 | Op1::Sub1 => cap_add(2, expr_size(x)),
            _ => expr_size(x),
        },
        Expr::BinOp(op, a, b) => match op {
            Op2::Plus | Op2::Minus | Op2::Times => cap_add(2, cap_add(expr_size(a), expr_size(b))),
            _ => cap_add(1, cap_add(expr_size(a), expr_size(b))),
        },
        Expr::If(c, t, f) => cap_add(1, cap_add(expr_size(c), cap_add(expr_size(t), expr_size(f)))),
        Expr::Loop(x) => cap_add(1, expr_size(x)),
        Expr::Break(x) => expr_size(x),
        Expr::Assign(_, x) => expr_size(x),
        Expr::Block(es) => list_size(es),
        Expr::Call(_, args) => cap_add(1, list_size(args)),
    }
}

fn list_size(es: &Vec<Expr>) -> (r: u64)
    ensures
        r == min(sizes(es@), u64::MAX as nat),
    decreases es@,
{
    let mut m: u64 = 0;
    let mut i: usize = 0;
    proof {
        assert(es@.subrange(0, 0) =~= Seq::<Expr>::empty());
    }
    while i < es.len()
        invariant
            i <= es@.len(),
            m == min(sizes(es@.subrange(0, i as int)), u64::MAX as nat),
        decreases es@.len() - i,
    {
        proof {
            let next = es@.subrange(0, i + 1);
            assert(next.drop_last() =~= es@.subrange(0, i as int));
            assert(next.last() == es@[i as int]);
        }
        m = cap_add(m, expr_size(&es[i]));
        i = i + 1;
    }
    proof {
        assert(es@.subrange(0, es@.len() as int) =~= es@);
    }
    m
}

/// Whether `within_limits` holds: the check a caller makes before it
/// compiles.
pub fn fits_limits(e: &Expr, ctx: &Context, ids: &Counter) -> (r: bool)
    requires
        slots_ok(ctx.env@),
    ensures
        r == within_limits(*e, ctx, ids.value),
{
    let s = expr_size(e);
    let d = expr_depth(e);
    s < u64::MAX && ids.value < u64::MAX - s && 0 <= ctx.si && d <= SLOT_LIMIT && ctx.si <= SLOT_LIMIT - d
}


/// Whether `e` holds a `break` that no loop inside `e` encloses.
pub open spec fn stray_break(e: Expr) -> bool
    decreases e,
{
    match e {
        Expr::Number(_) => false,
        Expr::Boolean(_) => false,
        Expr::Id(_) => false,
        Expr::Let(bs, body) => (exists|k: int| 0 <= k < bs@.len() && stray_break(#[trigger] bs@[k].1)) || stray_break(*body),
        Expr::UnOp(_, x) => stray_break(*x),
        Expr::BinOp(_, a, b) => stray_break(*a) || stray_break(*b),
        Expr::If(c, t, f) => stray_break(*c) || stray_break(*t) || stray_break(*f),
        Expr::Loop(_) => false,
        Expr::Break(_) => true,
        Expr::Assign(_, x) => stray_break(*x),
        Expr::Block(es) => exists|k: int| 0 <= k < es@.len() && stray_break(#[trigger] es@[k]),
        Expr::Call(_, args) => exists|k: int| 0 <= k < args@.len() && stray_break(#[trigger] args@[k]),
    }
}

/// An expression with a `break` outside every loop does not compile where
/// no loop encloses it: at the top level and in a function body.
pub proof fn lemma_stray_break_rejected(
    e: Expr,
    env: Seq<(String, i32)>,
    si: int,
    ptrs: Seq<(String, i64)>,
    defs: Seq<(String, i64)>,
)
    requires
        stray_break(e),
    ensures
        !compiles(e, env, si, ptrs, defs, false),
    decreases e,
{
    match e {
        Expr::Let(bs, body) => {
            if stray_break(*body) {
                lemma_stray_break_rejected(*body, env + let_ext(bs@, si, bs@.len() as int), si + bs@.len(), ptrs, defs);
            } else {
                let k = choose|k: int| 0 <= k < bs@.len() && stray_break(#[trigger] bs@[k].1);
                assert(decreases_to!(e => e->Let_0));
                assert(decreases_to!(e->Let_0 => (e->Let_0)@));
                assert(decreases_to!(bs@ => bs@[k]));
                assert(decreases_to!(bs@[k] => bs@[k].1));
                lemma_stray_break_rejected(bs@[k].1, env + let_ext(bs@, si, k), si + k, ptrs, defs);
            }
        },
        Expr::UnOp(_, x) => lemma_stray_break_rejected(*x, env, si, ptrs, defs),
        Expr::BinOp(op, a, b) => {
            if stray_break(*a) {
                lemma_stray_break_rejected(*a, env, operand_si(op, si).0, ptrs, defs);
            } else {
                lemma_stray_break_rejected(*b, env, operand_si(op, si).1, ptrs, defs);
            }
        },
        Expr::If(c, t, f) => {
            if stray_break(*c) {
                lemma_stray_break_rejected(*c, env, si, ptrs, defs);
            } else if stray_break(*t) {
                lemma_stray_break_rejected(*t, env, si, ptrs, defs);
            } else {
                lemma_stray_break_rejected(*f, env, si + 1, ptrs, defs);
            }
        },
        Expr::Assign(_, x) => lemma_stray_break_rejected(*x, env, si, ptrs, defs),
        Expr::Block(es) => {
            let k = choose|k: int| 0 <= k < es@.len() && stray_break(#[trigger] es@[k]);
            assert(decreases_to!(e => e->Block_0));
            assert(decreases_to!(e->Block_0 => (e->Block_0)@));
            assert(decreases_to!(es@ => es@[k]));
            lemma_stray_break_rejected(es@[k], env, si, ptrs, defs);
        },
        Expr::Call(_, args) => {
            let k = choose|k: int| 0 <= k < args@.len() && stray_break(#[trigger] args@[k]);
            assert(decreases_to!(e => e->Call_1));
            assert(decreases_to!(e->Call_1 => (e->Call_1)@));
            assert(decreases_to!(args@ => args@[k]));
            lemma_stray_break_rejected(args@[k], env, call_si(args@, si), ptrs, defs);
        },
        _ => {},
    }
}

#[verifier::spinoff_prover]
#[verifier::rlimit(100)]
fn compile_unop(
    op: Op1,
    x: &Box<Expr>,
    ctx: &Context,
    ids: &mut Counter,
    Ghost(whole): Ghost<Expr>,
) -> (r: Result<Vec<Instr>, CompileError>)
    requires
        whole == Expr::UnOp(op, *x),
        within_limits(whole, ctx, old(ids).value),
    ensures
        compile_post(whole, ctx, old(ids).value, final(ids).value, r),
    decreases whole, 0int,
{
    let mut result = match compile_expr_to_instr(x, ctx, ids) {
        Ok(code) => code,
        Err(err) => return Err(err),
    };
    let ghost child = views(result@);
    match op {
        Op1::Add1 | Op1::Sub1 => {
            emit_all(&mut result, unary_not_bool_handler(ids));
            if let Op1::Add1 = op {
                emit(&mut result, Instr::Add(Reg::Rax, 2));
            } else {
                emit(&mut result, Instr::Sub(Reg::Rax, 2));
            }
            emit_all(&mut result, overflow_handler(ids));
        },
        Op1::IsNum => {
            emit_all(&mut result, gen_istype(TypeOp::Num));
        },
        Op1::IsBool => {
            emit_all(&mut result, gen_istype(TypeOp::Bool));
        },
        Op1::Print => {
            emit(&mut result, Instr::MovFromReg(Reg::Rbx, Reg::Rax));
            emit(&mut result, Instr::MovFromReg(Reg::R12, Reg::Rdi));
            emit(&mut result, Instr::CallRustPrint(Reg::Rax));
            emit(&mut result, Instr::MovFromReg(Reg::Rdi, Reg::R12));
            emit(&mut result, Instr::MovFromReg(Reg::Rax, Reg::Rbx));
        },
    }
    proof {
        let ids0 = old(ids).value as int;
        assert(views(result@) =~= child + unop_suffix(op, label_spec("unop_ok"@, ids0 + size(**x) + 1),
            label_spec("no_overflow"@, ids0 + size(**x) + 2)));
    }
    Ok(result)
}

fn compile_if(
    cond: &Box<Expr>,
    thn: &Box<Expr>,
    els: &Box<Expr>,
    ctx: &Context,
    ids: &mut Counter,
    Ghost(whole): Ghost<Expr>,
) -> (r: Result<Vec<Instr>, CompileError>)
    requires
        whole == Expr::If(*cond, *thn, *els),
        within_limits(whole, ctx, old(ids).value),
    ensures
        compile_post(whole, ctx, old(ids).value, final(ids).value, r),
    decreases whole, 0int,
{
    let id = next_id(ids);
    let else_label = label_with_id("else_branch", id);
    let end_label = label_with_id("if_statement_end", id);
    let mut result = match compile_expr_to_instr(cond, ctx, ids) {
        Ok(code) => code,
        Err(err) => return Err(err),
    };
    let then_code = match compile_expr_to_instr(thn, ctx, ids) {
        Ok(code) => code,
        Err(err) => return Err(err),
    };
    let else_ctx = sub_context(ctx, ctx.si + 1, ctx.curr_break);
    let else_code = match compile_expr_to_instr(els, &else_ctx, ids) {
        Ok(code) => code,
        Err(err) => return Err(err),
    };
    emit(&mut result, Instr::Compare(Reg::Rax));
    emit(&mut result, Instr::Jne(else_label.clone()));
    emit_all(&mut result, then_code);
    emit(&mut result, Instr::Jmp(end_label.clone()));
    emit(&mut result, Instr::Label(else_label));
    emit_all(&mut result, else_code);
    emit(&mut result, Instr::Label(end_label));
    proof {
        assert(views(result@) =~= expr_code(whole, ctx.env@, ctx.si as int, ctx.define_ptrs@, ctx.define_env@,
            ctx.curr_break as int, old(ids).value as int));
    }
    Ok(result)
}

fn compile_loop(
    x: &Box<Expr>,
    ctx: &Context,
    ids: &mut Counter,
    Ghost(whole): Ghost<Expr>,
) -> (r: Result<Vec<Instr>, CompileError>)
    requires
        whole == Expr::Loop(*x),
        within_limits(whole, ctx, old(ids).value),
    ensures
        compile_post(whole, ctx, old(ids).value, final(ids).value, r),
    decreases whole, 0int,
{
    let id = next_id(ids);
    let start_label = label_with_id("loop_start", id);
    let end_label = label_with_id("loop_end", id);
    let inner_ctx = sub_context(ctx, ctx.si, id);
    let inner = match compile_expr_to_instr(x, &inner_ctx, ids) {
        Ok(code) => code,
        Err(err) => return Err(err),
    };
    let mut result: Vec<Instr> = Vec::new();
    emit(&mut result, Instr::Label(start_label.clone()));
    emit_all(&mut result, inner);
    emit(&mut result, Instr::Jmp(start_label));
    emit(&mut result, Instr::Label(end_label));
    proof {
        assert(views(result@) =~= expr_code(whole, ctx.env@, ctx.si as int, ctx.define_ptrs@, ctx.define_env@,
            ctx.curr_break as int, old(ids).value as int));
    }
    Ok(result)
}

fn compile_break(
    x: &Box<Expr>,
    ctx: &Context,
    ids: &mut Counter,
    Ghost(whole): Ghost<Expr>,
) -> (r: Result<Vec<Instr>, CompileError>)
    requires
        whole == Expr::Break(*x),
        within_limits(whole, ctx, old(ids).value),
    ensures
        compile_post(whole, ctx, old(ids).value, final(ids).value, r),
        ctx.curr_break == 0 ==> r == Err::<Vec<Instr>, CompileError>(CompileError::BreakOutsideLoop),
    decreases whole, 0int,
{
    if ctx.curr_break == 0 {
        return Err(CompileError::BreakOutsideLoop);
    }
    let label = label_with_id("loop_end", ctx.curr_break);
    let mut result = match compile_expr_to_instr(x, ctx, ids) {
        Ok(code) => code,
        Err(err) => return Err(err),
    };
    let ghost before = views(result@);
    emit(&mut result, Instr::Jmp(label));
    proof {
        assert(views(result@) =~= before + seq![Ins::Jmp(label_spec("loop_end"@, ctx.curr_break as int))]);
    }
    Ok(result)
}

fn compile_assign(
    s: &String,
    x: &Box<Expr>,
    ctx: &Context,
    ids: &mut Counter,
    Ghost(whole): Ghost<Expr>,
) -> (r: Result<Vec<Instr>, CompileError>)
    requires
        whole == Expr::Assign(*s, *x),
        within_limits(whole, ctx, old(ids).value),
    ensures
        compile_post(whole, ctx, old(ids).value, final(ids).value, r),
        r is Err && compiles(**x, ctx.env@, ctx.si as int, ctx.define_ptrs@, ctx.define_env@, ctx.curr_break != 0)
            ==> r->Err_0 == CompileError::UnboundIdentifier(*s),
    decreases whole, 0int,
{
    let mut result = match compile_expr_to_instr(x, ctx, ids) {
        Ok(code) => code,
        Err(err) => return Err(err),
    };
    let ghost before = views(result@);
    match find(&ctx.env, s) {
        Some(slot) => {
            proof { lemma_lookup_slot(ctx.env@, s@); }
            emit(&mut result, Instr::MovToStack(Reg::Rax, slot * 8));
        },
        None => match find(ctx.define_ptrs, s) {
            Some(ptr) => {
                emit(&mut result, Instr::Mov(Reg::Rdx, ptr));
                emit(&mut result, Instr::MovToPtrFromReg(Reg::Rdx, Reg::Rax));
            },
            None => {
                return Err(CompileError::UnboundIdentifier(s.clone()));
            },
        },
    }
    proof {
        assert(views(result@) =~= before + store_code(s@, ctx.env@, ctx.define_ptrs@));
    }
    Ok(result)
}


/// A `break` is reported as outside a loop only where it is: inside a loop,
/// or in an expression whose every `break` has a loop of its own around it,
/// the first error is never that one.
pub proof fn lemma_break_error_only_when_stray(
    e: Expr,
    env: Seq<(String, i32)>,
    si: int,
    ptrs: Seq<(String, i64)>,
    defs: Seq<(String, i64)>,
    in_loop: bool,
)
    requires
        in_loop || !stray_break(e),
    ensures
        first_error(e, env, si, ptrs, defs, in_loop) != Some(CompileError::BreakOutsideLoop),
    decreases e,
{
    match e {
        Expr::Let(bs, body) => {
            lemma_let_break_error(bs@, env, si, ptrs, defs, in_loop);
            lemma_break_error_only_when_stray(*body, env + let_ext(bs@, si, bs@.len() as int), si + bs@.len(), ptrs, defs, in_loop);
        },
        Expr::UnOp(_, x) => lemma_break_error_only_when_stray(*x, env, si, ptrs, defs, in_loop),
        Expr::BinOp(op, a, b) => {
            lemma_break_error_only_when_stray(*a, env, si, ptrs, defs, in_loop);
            lemma_break_error_only_when_stray(*a, env, si + 1, ptrs, defs, in_loop);
            lemma_break_error_only_when_stray(*a, env, si + 2, ptrs, defs, in_loop);
            lemma_break_error_only_when_stray(*b, env, si, ptrs, defs, in_loop);
            lemma_break_error_only_when_stray(*b, env, si + 1, ptrs, defs, in_loop);
        },
        Expr::If(c, t, f) => {
            lemma_break_error_only_when_stray(*c, env, si, ptrs, defs, in_loop);
            lemma_break_error_only_when_stray(*t, env, si, ptrs, defs, in_loop);
            lemma_break_error_only_when_stray(*f, env, si + 1, ptrs, defs, in_loop);
        },
        Expr::Loop(x) => lemma_break_error_only_when_stray(*x, env, si, ptrs, defs, true),
        Expr::Break(x) => lemma_break_error_only_when_stray(*x, env, si, ptrs, defs, in_loop),
        Expr::Assign(_, x) => lemma_break_error_only_when_stray(*x, env, si, ptrs, defs, in_loop),
        Expr::Block(es) => lemma_list_break_error(es@, env, si, ptrs, defs, in_loop),
        Expr::Call(_, args) => lemma_list_break_error(args@, env, call_si(args@, si), ptrs, defs, in_loop),
        _ => {},
    }
}

proof fn lemma_let_break_error(
    bs: Seq<(String, Expr)>,
    env: Seq<(String, i32)>,
    si: int,
    ptrs: Seq<(String, i64)>,
    defs: Seq<(String, i64)>,
    in_loop: bool,
)
    requires
        in_loop || forall|k: int| 0 <= k < bs.len() ==> !stray_break(#[trigger] bs[k].1),
    ensures
        let_error(bs, env, si, ptrs, defs, in_loop) != Some(CompileError::BreakOutsideLoop),
    decreases bs,
{
    if bs.len() > 0 {
        let k = bs.len() - 1;
        assert(forall|j: int| 0 <= j < bs.drop_last().len() ==> bs.drop_last()[j] == bs[j]);
        lemma_let_break_error(bs.drop_last(), env, si, ptrs, defs, in_loop);
        assert(in_loop || !stray_break(bs[k].1));
        lemma_break_error_only_when_stray(bs.last().1, env + let_ext(bs, si, k), si + k, ptrs, defs, in_loop);
    }
}

proof fn lemma_list_break_error(
    es: Seq<Expr>,
    env: Seq<(String, i32)>,
    si: int,
    ptrs: Seq<(String, i64)>,
    defs: Seq<(String, i64)>,
    in_loop: bool,
)
    requires
        in_loop || forall|k: int| 0 <= k < es.len() ==> !stray_break(#[trigger] es[k]),
    ensures
        list_error(es, env, si, ptrs, defs, in_loop) != Some(CompileError::BreakOutsideLoop),
    decreases es,
{
    if es.len() > 0 {
        assert(forall|j: int| 0 <= j < es.drop_last().len() ==> es.drop_last()[j] == es[j]);
        lemma_list_break_error(es.drop_last(), env, si, ptrs, defs, in_loop);
        assert(in_loop || !stray_break(es[es.len() - 1]));
        lemma_break_error_only_when_stray(es.last(), env, si, ptrs, defs, in_loop);
    }
}

} // verus!
