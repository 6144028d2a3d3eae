//! The instruction-set semantics: a mathematical step relation over
//! `(registers, program counter)`, iterated runs of it, and the laws every
//! execution engine is proved against.

use vstd::prelude::*;
use crate::isa::{
    a_of, b_of, dst_of, imm16_val, op_of, NREGS, OP_ADD, OP_DEC, OP_DIV, OP_HALT, OP_INC,
    OP_JMPNZ, OP_LOADI, OP_MOD, OP_MOV, OP_MUL, OP_SUB,
};

verus! {

/// The machine state between two instructions: the register file and the
/// program counter.
pub struct State {
    pub regs: Seq<i64>,
    pub pc: nat,
}

/// What a transition yields: either a next state, or a final result — a halt
/// value, or the sentinel `-1` on an unrecognized opcode.
pub enum Outcome {
    Running(State),
    Done(i64),
}

/// A well-formed state has exactly `NREGS` registers.
pub open spec fn wf_state(s: State) -> bool {
    s.regs.len() == NREGS
}

/// The state every execution starts from: zeroed registers, program counter 0.
pub open spec fn init_state() -> State {
    State { regs: Seq::new(NREGS as nat, |i: int| 0i64), pc: 0 }
}

/// Wrapping 64-bit signed addition.
pub open spec fn wrap_add(x: i64, y: i64) -> i64 {
    vstd::wrapping::i64_specs::wrapping_add(x, y)
}

/// Wrapping 64-bit signed subtraction.
pub open spec fn wrap_sub(x: i64, y: i64) -> i64 {
    vstd::wrapping::i64_specs::wrapping_sub(x, y)
}

/// Wrapping 64-bit signed multiplication.
pub open spec fn wrap_mul(x: i64, y: i64) -> i64 {
    vstd::wrapping::i64_specs::wrapping_mul(x, y)
}

/// Quotient of the DIV opcode: truncating division, except that a zero
/// divisor yields 0 by definition, and the one overflowing case
/// (`i64::MIN / -1`) wraps to `i64::MIN`, so division never faults.
pub open spec fn div_effect(x: i64, d: i64) -> i64 {
    match x.checked_div(d) {
        Some(q) => q,
        None => if d == 0 { 0i64 } else { i64::MIN },
    }
}

/// Remainder of the MOD opcode: truncating remainder, except that a zero
/// divisor yields 0 by definition, and `i64::MIN % -1` wraps to 0, so the
/// remainder never faults.
pub open spec fn mod_effect(x: i64, d: i64) -> i64 {
    match x.checked_rem(d) {
        Some(r) => r,
        None => 0i64,
    }
}

/// Does the opcode read its first operand byte as a register index?
pub open spec fn uses_reg_a(op: u8) -> bool {
    op == OP_ADD || op == OP_SUB || op == OP_MUL || op == OP_DIV || op == OP_MOD || op == OP_MOV
}

/// Does the opcode read its second operand byte as a register index?
pub open spec fn uses_reg_b(op: u8) -> bool {
    op == OP_ADD || op == OP_SUB || op == OP_MUL || op == OP_DIV || op == OP_MOD
}

/// One transition of the machine: fetch the word at `s.pc`, pre-increment the
/// program counter, then apply the opcode's effect. This single relation is
/// the contract all three engines are verified against.
pub open spec fn step(code: Seq<u32>, s: State) -> Outcome
    recommends
        wf_state(s),
        s.pc < code.len(),
{
    let w = code[s.pc as int];
    let op = op_of(w);
    let dst = dst_of(w) as int;
    let a = a_of(w);
    let b = b_of(w);
    let pc1 = (s.pc + 1) as nat;
    if op == OP_HALT {
        Outcome::Done(s.regs[dst])
    } else if op == OP_LOADI {
        Outcome::Running(State { regs: s.regs.update(dst, imm16_val(a, b)), pc: pc1 })
    } else if op == OP_ADD {
        Outcome::Running(
            State {
                regs: s.regs.update(dst, wrap_add(s.regs[a as int], s.regs[b as int])),
                pc: pc1,
            },
        )
    } else if op == OP_SUB {
        Outcome::Running(
            State {
                regs: s.regs.update(dst, wrap_sub(s.regs[a as int], s.regs[b as int])),
                pc: pc1,
            },
        )
    } else if op == OP_MUL {
        Outcome::Running(
            State {
                regs: s.regs.update(dst, wrap_mul(s.regs[a as int], s.regs[b as int])),
                pc: pc1,
            },
        )
    } else if op == OP_DIV {
        Outcome::Running(
            State {
                regs: s.regs.update(dst, div_effect(s.regs[a as int], s.regs[b as int])),
                pc: pc1,
            },
        )
    } else if op == OP_MOD {
        Outcome::Running(
            State {
                regs: s.regs.update(dst, mod_effect(s.regs[a as int], s.regs[b as int])),
                pc: pc1,
            },
        )
    } else if op == OP_INC {
        Outcome::Running(State { regs: s.regs.update(dst, wrap_add(s.regs[dst], 1i64)), pc: pc1 })
    } else if op == OP_DEC {
        Outcome::Running(State { regs: s.regs.update(dst, wrap_sub(s.regs[dst], 1i64)), pc: pc1 })
    } else if op == OP_JMPNZ {
        if s.regs[dst] != 0 {
            Outcome::Running(State { regs: s.regs, pc: imm16_val(a, b) as nat })
        } else {
            Outcome::Running(State { regs: s.regs, pc: pc1 })
        }
    } else if op == OP_MOV {
        Outcome::Running(State { regs: s.regs.update(dst, s.regs[a as int]), pc: pc1 })
    } else {
        Outcome::Done(-1i64)
    }
}

/// The machine after at most `n` transitions: `Done` as soon as a transition
/// terminates, else the state reached after exactly `n` transitions.
pub open spec fn run_n(code: Seq<u32>, s: State, n: nat) -> Outcome
    decreases n,
{
    if n == 0 {
        Outcome::Running(s)
    } else {
        match step(code, s) {
            Outcome::Done(v) => Outcome::Done(v),
            Outcome::Running(s2) => run_n(code, s2, (n - 1) as nat),
        }
    }
}

/// Some finite number of transitions from `s` terminates with result `r`.
pub open spec fn terminates_with(code: Seq<u32>, s: State, r: i64) -> bool {
    exists|n: nat| run_n(code, s, n) == Outcome::Done(r)
}

/// Some finite number of transitions from zeroed registers at instruction 0
/// reaches a terminal instruction. The engines ask for this: a run of a
/// halting program can be measured by the number of transitions it has left,
/// which is what lets their loops be verified. The step relation itself
/// gives meaning to programs that never halt; no engine contract speaks of
/// those.
pub open spec fn halts(code: Seq<u32>) -> bool {
    exists|n: nat| run_n(code, init_state(), n) is Done
}

/// A run still going after `n1` transitions has not yet reached the point
/// where some run terminates: the terminating count bounds every running
/// count strictly.
pub proof fn lemma_running_below_done(code: Seq<u32>, s: State, n1: nat, n2: nat)
    requires
        run_n(code, s, n1) is Running,
        run_n(code, s, n2) is Done,
    ensures
        n1 < n2,
{
    if n1 >= n2 {
        lemma_done_stable(code, s, n2, n1);
    }
}

/// An instruction word is valid at position `i` of a program of length `len`:
/// every operand byte read as a register index is in bounds, a jump target is
/// an absolute position inside the program, and a non-terminal instruction
/// has a successor to fall through to. An unrecognized opcode terminates
/// execution by itself, so it needs no such bounds.
pub open spec fn valid_instr(w: u32, i: int, len: int) -> bool {
    let op = op_of(w);
    if op > OP_MOV {
        true
    } else {
        &&& (dst_of(w) as usize) < NREGS
        &&& (uses_reg_a(op) ==> (a_of(w) as usize) < NREGS)
        &&& (uses_reg_b(op) ==> (b_of(w) as usize) < NREGS)
        &&& (op == OP_JMPNZ ==> (imm16_val(a_of(w), b_of(w)) as int) < len)
        &&& (op != OP_HALT ==> i + 1 < len)
    }
}

/// A valid program: non-empty, and every instruction valid at its position.
/// Execution of a valid program never fetches outside the program and never
/// touches a register outside the file.
pub open spec fn valid_program(code: Seq<u32>) -> bool {
    &&& code.len() >= 1
    &&& forall|i: int| 0 <= i < code.len() ==> valid_instr(#[trigger] code[i], i, code.len() as int)
}

/// Running one more transition continues from wherever `n` transitions ended.
pub proof fn lemma_run_n_extend(code: Seq<u32>, s: State, n: nat)
    ensures
        (run_n(code, s, (n + 1) as nat) == (match run_n(code, s, n) {
            Outcome::Running(t) => step(code, t),
            Outcome::Done(v) => Outcome::Done(v),
        })),
    decreases n,
{
    if n == 0 {
        assert(run_n(code, s, 1nat) == (match step(code, s) {
            Outcome::Done(v) => Outcome::Done(v),
            Outcome::Running(s2) => run_n(code, s2, 0nat),
        }));
        assert(run_n(code, s, 0nat) == Outcome::Running(s));
    } else {
        match step(code, s) {
            Outcome::Done(v) => {
                assert(run_n(code, s, (n + 1) as nat) == Outcome::Done(v));
                assert(run_n(code, s, n) == Outcome::Done(v));
            }
            Outcome::Running(s2) => {
                lemma_run_n_extend(code, s2, (n - 1) as nat);
                assert(run_n(code, s, (n + 1) as nat) == run_n(code, s2, n));
                assert(run_n(code, s, n) == run_n(code, s2, (n - 1) as nat));
            }
        }
    }
}

/// Transition counts compose: running `a + b` transitions is running `b`
/// transitions from wherever `a` transitions arrived.
pub proof fn lemma_run_n_compose(code: Seq<u32>, s: State, a: nat, t: State, b: nat)
    requires
        run_n(code, s, a) == Outcome::Running(t),
    ensures
        run_n(code, s, (a + b) as nat) == run_n(code, t, b),
    decreases a,
{
    if a == 0 {
        assert(t == s);
    } else {
        match step(code, s) {
            Outcome::Done(v) => {
                assert(false);
            }
            Outcome::Running(s2) => {
                lemma_run_n_compose(code, s2, (a - 1) as nat, t, b);
                assert(run_n(code, s, (a + b) as nat) == run_n(code, s2, (a + b - 1) as nat));
            }
        }
    }
}

/// Once a run has terminated, running longer changes nothing.
pub proof fn lemma_done_stable(code: Seq<u32>, s: State, n: nat, m: nat)
    requires
        n <= m,
        run_n(code, s, n) is Done,
    ensures
        run_n(code, s, m) == run_n(code, s, n),
    decreases m,
{
    if m > n {
        lemma_done_stable(code, s, n, (m - 1) as nat);
        lemma_run_n_extend(code, s, (m - 1) as nat);
    }
}

/// Any two terminating runs from one state end with the same outcome.
pub proof fn lemma_run_deterministic(code: Seq<u32>, s: State, n1: nat, n2: nat)
    requires
        run_n(code, s, n1) is Done,
        run_n(code, s, n2) is Done,
    ensures
        run_n(code, s, n1) == run_n(code, s, n2),
{
    if n1 <= n2 {
        lemma_done_stable(code, s, n1, n2);
    } else {
        lemma_done_stable(code, s, n2, n1);
    }
}

/// Execution is deterministic: for one program and one starting state, every
/// terminating run produces the same result. Each engine's contract states
/// that its return value is the result of such a run, so the central and both
/// threaded engines return bit-identical results on every program they are
/// given — the equivalence the three dispatch shapes are held to.
pub proof fn lemma_execution_deterministic(code: Seq<u32>, s: State, r1: i64, r2: i64)
    requires
        terminates_with(code, s, r1),
        terminates_with(code, s, r2),
    ensures
        r1 == r2,
{
    let n1 = choose|n: nat| run_n(code, s, n) == Outcome::Done(r1);
    let n2 = choose|n: nat| run_n(code, s, n) == Outcome::Done(r2);
    lemma_run_deterministic(code, s, n1, n2);
}

/// Within the representable range, wrapping multiplication is exact.
pub proof fn lemma_wrap_mul_in_range(x: i64, y: i64)
    requires
        i64::MIN <= x * y <= i64::MAX,
    ensures
        wrap_mul(x, y) == x * y,
{
    let v = x * y;
    let m = 0x1_0000_0000_0000_0000int;
    if v >= 0 {
        vstd::arithmetic::div_mod::lemma_small_mod(v as nat, m as nat);
    } else {
        vstd::arithmetic::div_mod::lemma_mod_add_multiples_vanish(v, m);
        vstd::arithmetic::div_mod::lemma_small_mod((v + m) as nat, m as nat);
    }
}

/// Every wrapped value is congruent, modulo 2^64, to the exact result: ADD,
/// SUB, MUL and with them INC and DEC (addition and subtraction of 1) wrap
/// silently at the signed 64-bit boundary rather than fault. In particular
/// the maximum register value plus one wraps to the minimum value, and the
/// minimum minus one wraps back to the maximum.
pub proof fn lemma_arithmetic_wraps(x: i64, y: i64)
    ensures
        (wrap_add(x, y) - (x + y)) % 0x1_0000_0000_0000_0000 == 0,
        (wrap_sub(x, y) - (x - y)) % 0x1_0000_0000_0000_0000 == 0,
        (wrap_mul(x, y) - (x * y)) % 0x1_0000_0000_0000_0000 == 0,
        wrap_add(i64::MAX, 1) == i64::MIN,
        wrap_sub(i64::MIN, 1) == i64::MAX,
{
    let m = 0x1_0000_0000_0000_0000int;
    assert((0int * m) % m == 0) by {
        vstd::arithmetic::div_mod::lemma_mod_multiples_basic(0int, m);
    }
    assert(((-1int) * m) % m == 0) by {
        vstd::arithmetic::div_mod::lemma_mod_multiples_basic(-1int, m);
    }
    assert((1int * m) % m == 0) by {
        vstd::arithmetic::div_mod::lemma_mod_multiples_basic(1int, m);
    }
    let v = x * y;
    vstd::arithmetic::div_mod::lemma_fundamental_div_mod(v, m);
    let q = v / m;
    assert(v % m == v - m * q);
    assert((wrap_mul(x, y) - v == (-q) * m) || (wrap_mul(x, y) - v == (-q - 1) * m)) by {
        assert(m * q == q * m) by (nonlinear_arith);
        assert((-q) * m == -(q * m)) by (nonlinear_arith);
        assert((-q - 1) * m == -(q * m) - m) by (nonlinear_arith);
    }
    vstd::arithmetic::div_mod::lemma_mod_multiples_basic(-q, m);
    vstd::arithmetic::div_mod::lemma_mod_multiples_basic(-q - 1, m);
}

/// Division and modulo with a zero divisor yield 0 by definition, for every
/// dividend; neither is a fault.
pub proof fn lemma_div_mod_by_zero(x: i64)
    ensures
        div_effect(x, 0) == 0,
        mod_effect(x, 0) == 0,
{
}

/// A DIV or MOD instruction whose divisor register holds 0 writes 0 to its
/// destination register — whatever the dividend register holds — and
/// execution continues at the next instruction: division and modulo by zero
/// are never an error, in any program and any state.
pub proof fn lemma_div_mod_by_zero_step(code: Seq<u32>, s: State)
    requires
        wf_state(s),
        s.pc < code.len(),
        op_of(code[s.pc as int]) == OP_DIV || op_of(code[s.pc as int]) == OP_MOD,
        s.regs[b_of(code[s.pc as int]) as int] == 0,
    ensures
        ({
            let w = code[s.pc as int];
            step(code, s) == Outcome::Running(
                (State { regs: s.regs.update(dst_of(w) as int, 0i64), pc: (s.pc + 1) as nat }),
            )
        }),
{
}

/// A taken JMPNZ sets the program counter to the absolute decoded immediate —
/// not to an offset from the current position — and a JMPNZ whose register is
/// zero falls through. In particular a jump whose immediate is 0 continues at
/// instruction 0 from any point of the program.
pub proof fn lemma_jmpnz_absolute(code: Seq<u32>, s: State)
    requires
        wf_state(s),
        s.pc < code.len(),
        op_of(code[s.pc as int]) == OP_JMPNZ,
    ensures
        ({
            let w = code[s.pc as int];
            if s.regs[dst_of(w) as int] != 0 {
                step(code, s) == Outcome::Running(
                    (State { regs: s.regs, pc: imm16_val(a_of(w), b_of(w)) as nat }),
                )
            } else {
                step(code, s) == Outcome::Running((State { regs: s.regs, pc: (s.pc + 1) as nat }))
            }
        }),
{
}

/// An opcode outside the closed enumeration terminates execution immediately
/// with the sentinel result -1, whatever its position in the program and
/// whatever the registers hold.
pub proof fn lemma_invalid_opcode(code: Seq<u32>, s: State)
    requires
        s.pc < code.len(),
        op_of(code[s.pc as int]) > OP_MOV,
    ensures
        step(code, s) == Outcome::Done(-1i64),
        terminates_with(code, s, -1i64),
{
    assert(run_n(code, s, 1) == Outcome::Done(-1i64));
}

} // verus!
