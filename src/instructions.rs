use vstd::prelude::*;
use crate::text::{decimal_spec, push_decimal};

verus! {

/// The machine registers that generated code uses.
#[derive(Debug, Clone, Copy, PartialEq, Eq, Structural)]
pub enum Reg {
    Rax,
    Rdx,
    Rbx,
    Rsp,
    Rdi,
    R8,
    R10,
    R11,
    R12,
}

/// The x86-64 encoding number of a register.
pub open spec fn reg_number_spec(reg: Reg) -> u8 {
    match reg {
        Reg::Rax => 0,
        Reg::Rdx => 2,
        Reg::Rbx => 3,
        Reg::Rsp => 4,
        Reg::Rdi => 7,
        Reg::R8 => 8,
        Reg::R10 => 10,
        Reg::R11 => 11,
        Reg::R12 => 12,
    }
}

pub fn reg_to_number(reg: &Reg) -> (r: u8)
    ensures
        r == reg_number_spec(*reg),
        r < 16,
{
    match reg {
        Reg::Rax => 0,
        Reg::Rdx => 2,
        Reg::Rbx => 3,
        Reg::Rsp => 4,
        Reg::Rdi => 7,
        Reg::R8 => 8,
        Reg::R10 => 10,
        Reg::R11 => 11,
        Reg::R12 => 12,
    }
}


/// The assembler name of a register.
pub open spec fn reg_name(reg: Reg) -> Seq<char> {
    match reg {
        Reg::Rax => "rax"@,
        Reg::Rdx => "rdx"@,
        Reg::Rbx => "rbx"@,
        Reg::Rsp => "rsp"@,
        Reg::Rdi => "rdi"@,
        Reg::R8 => "r8"@,
        Reg::R10 => "r10"@,
        Reg::R11 => "r11"@,
        Reg::R12 => "r12"@,
    }
}

pub fn reg_to_string(reg: &Reg) -> (r: &'static str)
    ensures
        r@ == reg_name(*reg),
{
    match reg {
        Reg::Rax => "rax",
        Reg::Rdx => "rdx",
        Reg::Rbx => "rbx",
        Reg::Rsp => "rsp",
        Reg::Rdi => "rdi",
        Reg::R8 => "r8",
        Reg::R10 => "r10",
        Reg::R11 => "r11",
        Reg::R12 => "r12",
    }
}


/// An instruction of the intermediate list. Stack operands are byte offsets
/// below `rsp`; labels are names that one emission session binds once.
#[derive(Debug, Clone, PartialEq, Eq)]
pub enum Instr {
    Mov(Reg, i64),
    MovFromReg(Reg, Reg),
    MovRaxFromRaxPtr,
    MovToPtrFromReg(Reg, Reg),
    Add(Reg, i32),
    Sub(Reg, i32),
    Or(Reg, Reg),
    Xor(Reg, Reg),
    AddRaxMemFromStack(i32),
    SubRaxMemFromStack(i32),
    MulRaxMemFromStack(i32),
    MovToStack(Reg, i32),
    MovFromStack(Reg, i32),
    MovLabel(String, i32),
    Label(String),
    Compare(Reg),
    CompareWithMemory(Reg, i32),
    Test(Reg, i32),
    Jmp(String),
    JmpReg(Reg),
    Je(String),
    Jne(String),
    Jno(String),
    Cmove(Reg, Reg),
    Cmovne(Reg, Reg),
    Cmovl(Reg, Reg),
    Cmovle(Reg, Reg),
    Cmovg(Reg, Reg),
    Cmovge(Reg, Reg),
    ShiftArithmeticRight(Reg, i8),
    CallRustError(i8),
    CallRustPrint(Reg),
    Comment(String),
}

/// An instruction as the contracts see it: labels and comments as
/// character sequences.
pub enum Ins {
    Mov(Reg, i64),
    MovFromReg(Reg, Reg),
    MovRaxFromRaxPtr,
    MovToPtrFromReg(Reg, Reg),
    Add(Reg, i32),
    Sub(Reg, i32),
    Or(Reg, Reg),
    Xor(Reg, Reg),
    AddRaxMemFromStack(i32),
    SubRaxMemFromStack(i32),
    MulRaxMemFromStack(i32),
    MovToStack(Reg, i32),
    MovFromStack(Reg, i32),
    MovLabel(Seq<char>, i32),
    Label(Seq<char>),
    Compare(Reg),
    CompareWithMemory(Reg, i32),
    Test(Reg, i32),
    Jmp(Seq<char>),
    JmpReg(Reg),
    Je(Seq<char>),
    Jne(Seq<char>),
    Jno(Seq<char>),
    Cmove(Reg, Reg),
    Cmovne(Reg, Reg),
    Cmovl(Reg, Reg),
    Cmovle(Reg, Reg),
    Cmovg(Reg, Reg),
    Cmovge(Reg, Reg),
    ShiftArithmeticRight(Reg, i8),
    CallRustError(i8),
    CallRustPrint(Reg),
    Comment(Seq<char>),
}

impl View for Instr {
    type V = Ins;

    open spec fn view(&self) -> Ins {
        match self {
            Instr::Mov(a0, a1) => Ins::Mov(*a0, *a1),
            Instr::MovFromReg(a0, a1) => Ins::MovFromReg(*a0, *a1),
            Instr::MovRaxFromRaxPtr => Ins::MovRaxFromRaxPtr,
            Instr::MovToPtrFromReg(a0, a1) => Ins::MovToPtrFromReg(*a0, *a1),
            Instr::Add(a0, a1) => Ins::Add(*a0, *a1),
            Instr::Sub(a0, a1) => Ins::Sub(*a0, *a1),
            Instr::Or(a0, a1) => Ins::Or(*a0, *a1),
            Instr::Xor(a0, a1) => Ins::Xor(*a0, *a1),
            Instr::AddRaxMemFromStack(a0) => Ins::AddRaxMemFromStack(*a0),
            Instr::SubRaxMemFromStack(a0) => Ins::SubRaxMemFromStack(*a0),
            Instr::MulRaxMemFromStack(a0) => Ins::MulRaxMemFromStack(*a0),
            Instr::MovToStack(a0, a1) => Ins::MovToStack(*a0, *a1),
            Instr::MovFromStack(a0, a1) => Ins::MovFromStack(*a0, *a1),
            Instr::MovLabel(a0, a1) => Ins::MovLabel(a0@, *a1),
            Instr::Label(a0) => Ins::Label(a0@),
            Instr::Compare(a0) => Ins::Compare(*a0),
            Instr::CompareWithMemory(a0, a1) => Ins::CompareWithMemory(*a0, *a1),
            Instr::Test(a0, a1) => Ins::Test(*a0, *a1),
            Instr::Jmp(a0) => Ins::Jmp(a0@),
            Instr::JmpReg(a0) => Ins::JmpReg(*a0),
            Instr::Je(a0) => Ins::Je(a0@),
            Instr::Jne(a0) => Ins::Jne(a0@),
            Instr::Jno(a0) => Ins::Jno(a0@),
            Instr::Cmove(a0, a1) => Ins::Cmove(*a0, *a1),
            Instr::Cmovne(a0, a1) => Ins::Cmovne(*a0, *a1),
            Instr::Cmovl(a0, a1) => Ins::Cmovl(*a0, *a1),
            Instr::Cmovle(a0, a1) => Ins::Cmovle(*a0, *a1),
            Instr::Cmovg(a0, a1) => Ins::Cmovg(*a0, *a1),
            Instr::Cmovge(a0, a1) => Ins::Cmovge(*a0, *a1),
            Instr::ShiftArithmeticRight(a0, a1) => Ins::ShiftArithmeticRight(*a0, *a1),
            Instr::CallRustError(a0) => Ins::CallRustError(*a0),
            Instr::CallRustPrint(a0) => Ins::CallRustPrint(*a0),
            Instr::Comment(a0) => Ins::Comment(a0@),
        }
    }
}

/// The view of each instruction of a list.
pub open spec fn views(s: Seq<Instr>) -> Seq<Ins> {
    s.map_values(|i: Instr| i@)
}

/// The NASM-style text of one instruction.
pub open spec fn instr_text(instr: Instr) -> Seq<char> {
    match instr {
        Instr::Mov(reg, val) => "\tmov "@ + reg_name(reg) + ", "@ + decimal_spec(val as int),
        Instr::MovFromReg(dst, src) => "\tmov "@ + reg_name(dst) + ", "@ + reg_name(src),
        Instr::MovRaxFromRaxPtr => "\tmov rax, [rax]"@,
        Instr::MovToPtrFromReg(ptr, src) => "\tmov ["@ + reg_name(ptr) + "], "@ + reg_name(src),
        Instr::Add(reg, val) => "\tadd "@ + reg_name(reg) + ", "@ + decimal_spec(val as int),
        Instr::Sub(reg, val) => "\tsub "@ + reg_name(reg) + ", "@ + decimal_spec(val as int),
        Instr::Or(dst, src) => "\tor "@ + reg_name(dst) + ", "@ + reg_name(src),
        Instr::Xor(dst, src) => "\txor "@ + reg_name(dst) + ", "@ + reg_name(src),
        Instr::AddRaxMemFromStack(off) => "\tadd rax, [rsp - "@ + decimal_spec(off as int) + "]"@,
        Instr::SubRaxMemFromStack(off) => "\tsub rax, [rsp - "@ + decimal_spec(off as int) + "]"@,
        Instr::MulRaxMemFromStack(off) => "\timul rax, [rsp - "@ + decimal_spec(off as int) + "]"@,
        Instr::MovToStack(reg, off) => "\tmov [rsp - "@ + decimal_spec(off as int) + "], "@ + reg_name(reg),
        Instr::MovFromStack(reg, off) => "\tmov "@ + reg_name(reg) + ", [rsp - "@ + decimal_spec(off as int) + "]"@,
        Instr::MovLabel(label, off) => "\tlea rax, [rel "@ + label@ + "]\n\tmov QWORD [rsp - "@ + decimal_spec(off as int) + "], rax"@,
        Instr::Label(label) => label@ + ":"@,
        Instr::Compare(reg) => "\tcmp "@ + reg_name(reg) + ", 3"@,
        Instr::CompareWithMemory(reg, off) => "\tcmp "@ + reg_name(reg) + ", [rsp - "@ + decimal_spec(off as int) + "]"@,
        Instr::Test(reg, val) => "\ttest "@ + reg_name(reg) + ", "@ + decimal_spec(val as int),
        Instr::Jmp(label) => "\tjmp "@ + label@,
        Instr::JmpReg(reg) => "\tjmp QWORD ["@ + reg_name(reg) + "]"@,
        Instr::Je(label) => "\tje "@ + label@,
        Instr::Jne(label) => "\tjne "@ + label@,
        Instr::Jno(label) => "\tjno "@ + label@,
        Instr::Cmove(dst, src) => "\tcmove "@ + reg_name(dst) + ", "@ + reg_name(src),
        Instr::Cmovne(dst, src) => "\tcmovne "@ + reg_name(dst) + ", "@ + reg_name(src),
        Instr::Cmovl(dst, src) => "\tcmovl "@ + reg_name(dst) + ", "@ + reg_name(src),
        Instr::Cmovle(dst, src) => "\tcmovle "@ + reg_name(dst) + ", "@ + reg_name(src),
        Instr::Cmovg(dst, src) => "\tcmovg "@ + reg_name(dst) + ", "@ + reg_name(src),
        Instr::Cmovge(dst, src) => "\tcmovge "@ + reg_name(dst) + ", "@ + reg_name(src),
        Instr::ShiftArithmeticRight(reg, val) => "\tsar "@ + reg_name(reg) + ", "@ + decimal_spec(val as int),
        Instr::CallRustError(code) => "\tmov rdi, "@ + decimal_spec(code as int) + "\n\tcall snek_error"@,
        Instr::CallRustPrint(reg) => "\tsub rsp, 8\n\tmov rdi, "@ + reg_name(reg) + "\n\tcall snek_print\n\tadd rsp, 8"@,
        Instr::Comment(text) => "; "@ + text@,
    }
}

#[verifier::spinoff_prover]
#[verifier::rlimit(100)]
pub fn instr_to_string(instr: &Instr) -> (r: String)
    ensures
        r@ == instr_text(*instr),
{
    match instr {
        Instr::Mov(reg, val) => {
            let mut s = String::new();
            s.append("\tmov ");
            s.append(reg_to_string(reg));
            s.append(", ");
            push_decimal(&mut s, *val as i64);
            assert(s@ =~= instr_text(*instr));
            s
        },
        Instr::MovFromReg(dst, src) => {
            let mut s = String::new();
            s.append("\tmov ");
            s.append(reg_to_string(dst));
            s.append(", ");
            s.append(reg_to_string(src));
            assert(s@ =~= instr_text(*instr));
            s
        },
        Instr::MovRaxFromRaxPtr => {
            let mut s = String::new();
            s.append("\tmov rax, [rax]");
            assert(s@ =~= instr_text(*instr));
            s
        },
        Instr::MovToPtrFromReg(ptr, src) => {
            let mut s = String::new();
            s.append("\tmov [");
            s.append(reg_to_string(ptr));
            s.append("], ");
            s.append(reg_to_string(src));
            assert(s@ =~= instr_text(*instr));
            s
        },
        Instr::Add(reg, val) => {
            let mut s = String::new();
            s.append("\tadd ");
            s.append(reg_to_string(reg));
            s.append(", ");
            push_decimal(&mut s, *val as i64);
            assert(s@ =~= instr_text(*instr));
            s
        },
        Instr::Sub(reg, val) => {
            let mut s = String::new();
            s.append("\tsub ");
            s.append(reg_to_string(reg));
            s.append(", ");
            push_decimal(&mut s, *val as i64);
            assert(s@ =~= instr_text(*instr));
            s
        },
        Instr::Or(dst, src) => {
            let mut s = String::new();
            s.append("\tor ");
            s.append(reg_to_string(dst));
            s.append(", ");
            s.append(reg_to_string(src));
            assert(s@ =~= instr_text(*instr));
            s
        },
        Instr::Xor(dst, src) => {
            let mut s = String::new();
            s.append("\txor ");
            s.append(reg_to_string(dst));
            s.append(", ");
            s.append(reg_to_string(src));
            assert(s@ =~= instr_text(*instr));
            s
        },
        Instr::AddRaxMemFromStack(off) => {
            let mut s = String::new();
            s.append("\tadd rax, [rsp - ");
            push_decimal(&mut s, *off as i64);
            s.append("]");
            assert(s@ =~= instr_text(*instr));
            s
        },
        Instr::SubRaxMemFromStack(off) => {
            let mut s = String::new();
            s.append("\tsub rax, [rsp - ");
            push_decimal(&mut s, *off as i64);
            s.append("]");
            assert(s@ =~= instr_text(*instr));
            s
        },
        Instr::MulRaxMemFromStack(off) => {
            let mut s = String::new();
            s.append("\timul rax, [rsp - ");
            push_decimal(&mut s, *off as i64);
            s.append("]");
            assert(s@ =~= instr_text(*instr));
            s
        },
        Instr::MovToStack(reg, off) => {
            let mut s = String::new();
            s.append("\tmov [rsp - ");
            push_decimal(&mut s, *off as i64);
            s.append("], ");
            s.append(reg_to_string(reg));
            assert(s@ =~= instr_text(*instr));
            s
        },
        Instr::MovFromStack(reg, off) => {
            let mut s = String::new();
            s.append("\tmov ");
            s.append(reg_to_string(reg));
            s.append(", [rsp - ");
            push_decimal(&mut s, *off as i64);
            s.append("]");
            assert(s@ =~= instr_text(*instr));
            s
        },
        Instr::MovLabel(label, off) => {
            let mut s = String::new();
            s.append("\tlea rax, [rel ");
            s.append(label.as_str());
            s.append("]\n\tmov QWORD [rsp - ");
            push_decimal(&mut s, *off as i64);
            s.append("], rax");
            assert(s@ =~= instr_text(*instr));
            s
        },
        Instr::Label(label) => {
            let mut s = String::new();
            s.append(label.as_str());
            s.append(":");
            assert(s@ =~= instr_text(*instr));
            s
        },
        Instr::Compare(reg) => {
            let mut s = String::new();
            s.append("\tcmp ");
            s.append(reg_to_string(reg));
            s.append(", 3");
            assert(s@ =~= instr_text(*instr));
            s
        },
        Instr::CompareWithMemory(reg, off) => {
            let mut s = String::new();
            s.append("\tcmp ");
            s.append(reg_to_string(reg));
            s.append(", [rsp - ");
            push_decimal(&mut s, *off as i64);
            s.append("]");
            assert(s@ =~= instr_text(*instr));
            s
        },
        Instr::Test(reg, val) => {
            let mut s = String::new();
            s.append("\ttest ");
            s.append(reg_to_string(reg));
            s.append(", ");
            push_decimal(&mut s, *val as i64);
            assert(s@ =~= instr_text(*instr));
            s
        },
        Instr::Jmp(label) => {
            let mut s = String::new();
            s.append("\tjmp ");
            s.append(label.as_str());
            assert(s@ =~= instr_text(*instr));
            s
        },
        Instr::JmpReg(reg) => {
            let mut s = String::new();
            s.append("\tjmp QWORD [");
            s.append(reg_to_string(reg));
            s.append("]");
            assert(s@ =~= instr_text(*instr));
            s
        },
        Instr::Je(label) => {
            let mut s = String::new();
            s.append("\tje ");
            s.append(label.as_str());
            assert(s@ =~= instr_text(*instr));
            s
        },
        Instr::Jne(label) => {
            let mut s = String::new();
            s.append("\tjne ");
            s.append(label.as_str());
            assert(s@ =~= instr_text(*instr));
            s
        },
        Instr::Jno(label) => {
            let mut s = String::new();
            s.append("\tjno ");
            s.append(label.as_str());
            assert(s@ =~= instr_text(*instr));
            s
        },
        Instr::Cmove(dst, src) => {
            let mut s = String::new();
            s.append("\tcmove ");
            s.append(reg_to_string(dst));
            s.append(", ");
            s.append(reg_to_string(src));
            assert(s@ =~= instr_text(*instr));
            s
        },
        Instr::Cmovne(dst, src) => {
            let mut s = String::new();
            s.append("\tcmovne ");
            s.append(reg_to_string(dst));
            s.append(", ");
            s.append(reg_to_string(src));
            assert(s@ =~= instr_text(*instr));
            s
        },
        Instr::Cmovl(dst, src) => {
            let mut s = String::new();
            s.append("\tcmovl ");
            s.append(reg_to_string(dst));
            s.append(", ");
            s.append(reg_to_string(src));
            assert(s@ =~= instr_text(*instr));
            s
        },
        Instr::Cmovle(dst, src) => {
            let mut s = String::new();
            s.append("\tcmovle ");
            s.append(reg_to_string(dst));
            s.append(", ");
            s.append(reg_to_string(src));
            assert(s@ =~= instr_text(*instr));
            s
        },
        Instr::Cmovg(dst, src) => {
            let mut s = String::new();
            s.append("\tcmovg ");
            s.append(reg_to_string(dst));
            s.append(", ");
            s.append(reg_to_string(src));
            assert(s@ =~= instr_text(*instr));
            s
        },
        Instr::Cmovge(dst, src) => {
            let mut s = String::new();
            s.append("\tcmovge ");
            s.append(reg_to_string(dst));
            s.append(", ");
            s.append(reg_to_string(src));
            assert(s@ =~= instr_text(*instr));
            s
        },
        Instr::ShiftArithmeticRight(reg, val) => {
            let mut s = String::new();
            s.append("\tsar ");
            s.append(reg_to_string(reg));
            s.append(", ");
            push_decimal(&mut s, *val as i64);
            assert(s@ =~= instr_text(*instr));
            s
        },
        Instr::CallRustError(code) => {
            let mut s = String::new();
            s.append("\tmov rdi, ");
            push_decimal(&mut s, *code as i64);
            s.append("\n\tcall snek_error");
            assert(s@ =~= instr_text(*instr));
            s
        },
        Instr::CallRustPrint(reg) => {
            let mut s = String::new();
            s.append("\tsub rsp, 8\n\tmov rdi, ");
            s.append(reg_to_string(reg));
            s.append("\n\tcall snek_print\n\tadd rsp, 8");
            assert(s@ =~= instr_text(*instr));
            s
        },
        Instr::Comment(text) => {
            let mut s = String::new();
            s.append("; ");
            s.append(text.as_str());
            assert(s@ =~= instr_text(*instr));
            s
        },
    }
}

/// The text of an instruction list: one instruction per line.
pub open spec fn instrs_text(instrs: Seq<Instr>) -> Seq<char>
    decreases instrs.len(),
{
    if instrs.len() == 0 {
        Seq::empty()
    } else if instrs.len() == 1 {
        instr_text(instrs[0])
    } else {
        instrs_text(instrs.drop_last()) + "\n"@ + instr_text(instrs.last())
    }
}

pub fn instrs_to_string(instrs: &Vec<Instr>) -> (r: String)
    ensures
        r@ == instrs_text(instrs@),
{
    let mut s = String::new();
    let mut i: usize = 0;
    while i < instrs.len()
        invariant
            i <= instrs.len(),
            s@ == instrs_text(instrs@.subrange(0, i as int)),
        decreases instrs.len() - i,
    {
        let line = instr_to_string(&instrs[i]);
        if i > 0 {
            s.append("\n");
        }
        s.append(line.as_str());
        proof {
            let next = instrs@.subrange(0, i + 1);
            assert(next.drop_last() =~= instrs@.subrange(0, i as int));
            assert(next.last() == instrs@[i as int]);
            if i == 0 {
                assert(instrs@.subrange(0, 0) =~= Seq::<Instr>::empty());
            }
        }
        i = i + 1;
    }
    assert(instrs@.subrange(0, instrs@.len() as int) =~= instrs@);
    s
}


/// What an instruction adds to `rsp`: the explicit adjustments around a call.
pub open spec fn rsp_effect(i: Instr) -> int {
    match i {
        Instr::Add(Reg::Rsp, k) => k as int,
        Instr::Sub(Reg::Rsp, k) => -(k as int),
        _ => 0,
    }
}

/// Whether an instruction writes `rsp` other than by an explicit adjustment.
pub open spec fn clobbers_rsp(i: Instr) -> bool {
    match i {
        Instr::Mov(r, _) => r == Reg::Rsp,
        Instr::MovFromReg(r, _) => r == Reg::Rsp,
        Instr::MovFromStack(r, _) => r == Reg::Rsp,
        Instr::Or(r, _) => r == Reg::Rsp,
        Instr::Xor(r, _) => r == Reg::Rsp,
        Instr::Cmove(r, _) => r == Reg::Rsp,
        Instr::Cmovne(r, _) => r == Reg::Rsp,
        Instr::Cmovl(r, _) => r == Reg::Rsp,
        Instr::Cmovle(r, _) => r == Reg::Rsp,
        Instr::Cmovg(r, _) => r == Reg::Rsp,
        Instr::Cmovge(r, _) => r == Reg::Rsp,
        Instr::ShiftArithmeticRight(r, _) => r == Reg::Rsp,
        _ => false,
    }
}

/// The sum of the explicit `rsp` adjustments of a list.
pub open spec fn rsp_net(s: Seq<Instr>) -> int
    decreases s.len(),
{
    if s.len() == 0 {
        0
    } else {
        rsp_net(s.drop_last()) + rsp_effect(s.last())
    }
}

/// No instruction of the list writes `rsp` other than by an explicit
/// adjustment.
pub open spec fn no_clobber(s: Seq<Instr>) -> bool {
    forall|i: int| 0 <= i < s.len() ==> !clobbers_rsp(#[trigger] s[i])
}

/// `rsp` is written only by explicit adjustments, and those cancel out.
pub open spec fn rsp_balanced(s: Seq<Instr>) -> bool {
    &&& rsp_net(s) == 0
    &&& no_clobber(s)
}

/// The adjustments of a concatenation add up.
pub proof fn lemma_rsp_net_concat(a: Seq<Instr>, b: Seq<Instr>)
    ensures
        rsp_net(a + b) == rsp_net(a) + rsp_net(b),
    decreases b.len(),
{
    if b.len() == 0 {
        assert(a + b =~= a);
    } else {
        assert((a + b).drop_last() =~= a + b.drop_last());
        lemma_rsp_net_concat(a, b.drop_last());
    }
}

/// Appends one instruction.
pub fn emit(r: &mut Vec<Instr>, x: Instr)
    ensures
        final(r)@ == old(r)@.push(x),
        views(final(r)@) == views(old(r)@).push(x@),
        rsp_net(final(r)@) == rsp_net(old(r)@) + rsp_effect(x),
        no_clobber(old(r)@) && !clobbers_rsp(x) ==> no_clobber(final(r)@),
{
    r.push(x);
    assert(final(r)@.drop_last() =~= old(r)@);
    assert(views(final(r)@) =~= views(old(r)@).push(x@));
    assert(no_clobber(old(r)@) && !clobbers_rsp(x) ==> no_clobber(final(r)@)) by {
        if no_clobber(old(r)@) && !clobbers_rsp(x) {
            assert forall|i: int| 0 <= i < final(r)@.len() implies !clobbers_rsp(#[trigger] final(r)@[i]) by {
                if i < old(r)@.len() {
                    assert(final(r)@[i] == old(r)@[i]);
                }
            }
        }
    }
}

/// Appends a list of instructions.
pub fn emit_all(r: &mut Vec<Instr>, other: Vec<Instr>)
    ensures
        final(r)@ == old(r)@ + other@,
        views(final(r)@) == views(old(r)@) + views(other@),
        rsp_net(final(r)@) == rsp_net(old(r)@) + rsp_net(other@),
        rsp_balanced(old(r)@) && rsp_balanced(other@) ==> rsp_balanced(final(r)@),
        no_clobber(old(r)@) && no_clobber(other@) ==> no_clobber(final(r)@),
{
    let mut o = other;
    r.append(&mut o);
    proof {
        assert(views(final(r)@) =~= views(old(r)@) + views(other@));
        lemma_rsp_net_concat(old(r)@, other@);
        assert forall|i: int| 0 <= i < final(r)@.len() implies
            (!clobbers_rsp(#[trigger] final(r)@[i]) || !no_clobber(old(r)@) || !no_clobber(other@)) by {
            if i >= old(r)@.len() {
                assert(final(r)@[i] == other@[i - old(r)@.len()]);
            }
        }
    }
}


/// The assembly file of a program: the function bodies, then the entry
/// label, the main body and its return.
pub open spec fn assembly_spec(funcs: Seq<Instr>, main: Seq<Instr>) -> Seq<char> {
    "\nsection .text\nextern snek_error\nextern snek_print\nglobal our_code_starts_here\n"@
        + instrs_text(funcs) + "\nour_code_starts_here:\n"@ + instrs_text(main) + "\n  ret\n"@
}

pub fn assembly_text(funcs: &Vec<Instr>, main: &Vec<Instr>) -> (r: String)
    ensures
        r@ == assembly_spec(funcs@, main@),
{
    let mut s = String::from_str("\nsection .text\nextern snek_error\nextern snek_print\nglobal our_code_starts_here\n");
    let f = instrs_to_string(funcs);
    s.append(f.as_str());
    s.append("\nour_code_starts_here:\n");
    let m = instrs_to_string(main);
    s.append(m.as_str());
    s.append("\n  ret\n");
    s
}


/// Whether `name` is one of `names`.
pub open spec fn listed(names: Seq<String>, name: Seq<char>) -> bool {
    exists|j: int| 0 <= j < names.len() && names[j]@ == name
}

/// The label that an instruction declares, if it is one.
pub open spec fn declared(i: Instr) -> Option<Seq<char>> {
    match i {
        Instr::Label(l) => Some(l@),
        _ => None,
    }
}

/// Whether some instruction of the list declares the label `name`.
pub open spec fn declared_in(instrs: Seq<Instr>, name: Seq<char>) -> bool {
    exists|k: int| 0 <= k < instrs.len() && declared(#[trigger] instrs[k]) == Some(name)
}

fn is_listed(names: &Vec<String>, name: &String) -> (r: bool)
    ensures
        r == listed(names@, name@),
{
    let mut j: usize = 0;
    while j < names.len()
        invariant
            j <= names@.len(),
            forall|k: int| 0 <= k < j ==> names@[k]@ != name@,
        decreases names@.len() - j,
    {
        if names[j] == *name {
            return true;
        }
        j = j + 1;
    }
    false
}

/// The labels that a batch declares and that `known` does not hold yet, in
/// order of first declaration and each once: the handles an emission must
/// create before it binds or refers to any of them.
pub fn labels_to_register(instrs: &Vec<Instr>, known: &Vec<String>) -> (r: Vec<String>)
    ensures
        forall|k: int| 0 <= k < instrs@.len() && #[trigger] declared(instrs@[k]) is Some ==>
            listed(known@, declared(instrs@[k])->Some_0) || listed(r@, declared(instrs@[k])->Some_0),
        forall|j: int| 0 <= j < r@.len() ==> !listed(known@, #[trigger] r@[j]@),
        forall|j: int| 0 <= j < r@.len() ==> declared_in(instrs@, #[trigger] r@[j]@),
        forall|a: int, b: int| 0 <= a < b < r@.len() ==> r@[a]@ != r@[b]@,
{
    let mut fresh: Vec<String> = Vec::new();
    let mut i: usize = 0;
    while i < instrs.len()
        invariant
            i <= instrs@.len(),
            forall|k: int| 0 <= k < i && #[trigger] declared(instrs@[k]) is Some ==>
                listed(known@, declared(instrs@[k])->Some_0) || listed(fresh@, declared(instrs@[k])->Some_0),
            forall|j: int| 0 <= j < fresh@.len() ==> !listed(known@, #[trigger] fresh@[j]@),
            forall|j: int| 0 <= j < fresh@.len() ==> declared_in(instrs@.subrange(0, i as int), #[trigger] fresh@[j]@),
            forall|a: int, b: int| 0 <= a < b < fresh@.len() ==> fresh@[a]@ != fresh@[b]@,
        decreases instrs@.len() - i,
    {
        if let Instr::Label(l) = &instrs[i] {
            if !is_listed(known, l) && !is_listed(&fresh, l) {
                let ghost before = fresh@;
                fresh.push(l.clone());
                proof {
                    assert(fresh@[before.len() as int]@ == l@);
                    assert forall|k: int| 0 <= k < i + 1 && #[trigger] declared(instrs@[k]) is Some implies
                        listed(known@, declared(instrs@[k])->Some_0) || listed(fresh@, declared(instrs@[k])->Some_0) by {
                        if k < i && listed(before, declared(instrs@[k])->Some_0) {
                            let j = choose|j: int| 0 <= j < before.len() && before[j]@ == declared(instrs@[k])->Some_0;
                            assert(fresh@[j] == before[j]);
                        }
                    }
                    assert forall|j: int| 0 <= j < fresh@.len() implies declared_in(instrs@.subrange(0, i + 1), #[trigger] fresh@[j]@) by {
                        if j < before.len() {
                            assert(fresh@[j] == before[j]);
                            let k = choose|k: int| 0 <= k < i && declared(#[trigger] instrs@.subrange(0, i as int)[k]) == Some(before[j]@);
                            assert(instrs@.subrange(0, i + 1)[k] == instrs@.subrange(0, i as int)[k]);
                        } else {
                            assert(instrs@.subrange(0, i + 1)[i as int] == instrs@[i as int]);
                        }
                    }
                    assert forall|a: int, b: int| 0 <= a < b < fresh@.len() implies fresh@[a]@ != fresh@[b]@ by {
                        assert(fresh@[a] == before[a]);
                        if b < before.len() {
                            assert(fresh@[b] == before[b]);
                        }
                    }
                    assert forall|j: int| 0 <= j < fresh@.len() implies !listed(known@, #[trigger] fresh@[j]@) by {
                        if j < before.len() {
                            assert(fresh@[j] == before[j]);
                        }
                    }
                }
            }
        }
        proof {
            assert forall|j: int| 0 <= j < fresh@.len() implies declared_in(instrs@.subrange(0, i + 1), #[trigger] fresh@[j]@) by {
                if declared_in(instrs@.subrange(0, i as int), fresh@[j]@) {
                    let k = choose|k: int| 0 <= k < i && declared(#[trigger] instrs@.subrange(0, i as int)[k]) == Some(fresh@[j]@);
                    assert(instrs@.subrange(0, i + 1)[k] == instrs@.subrange(0, i as int)[k]);
                }
            }
        }
        i = i + 1;
    }
    assert(instrs@.subrange(0, instrs@.len() as int) =~= instrs@);
    fresh
}

} // verus!
