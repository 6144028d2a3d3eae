//! The program builder: the fixed workload fixture, its construction-time
//! validity, and the proof that running it computes the workload's sum in
//! closed form.

use vstd::prelude::*;
use crate::isa::{encode, imm16_val, lemma_codec_roundtrip, word_of, OP_ADD, OP_DEC, OP_HALT,
    OP_JMPNZ, OP_LOADI, OP_MOV, OP_MUL, OP_SUB};
use crate::semantics::{halts, init_state, lemma_run_n_compose, lemma_run_n_extend,
    lemma_wrap_mul_in_range, run_n, step, terminates_with, valid_instr, valid_program, wf_state,
    Outcome, State};
use vstd::arithmetic::div_mod::lemma_div_multiples_vanish;

verus! {

/// The instruction sequence of the fixed workload for parameter `n`: count a
/// register down from `n`, and for each value `i` of the counter accumulate
/// `i*i - i + 1`; halt returning the accumulator. The counter is checked
/// before the first body iteration, so for parameter 0 the guard never
/// jumps into the loop and the program halts at once with the accumulator
/// still 0.
pub open spec fn workload_program(n: u16) -> Seq<u32> {
    seq![
        word_of(OP_LOADI, 0, (n & 0xff) as u8, ((n >> 8) & 0xff) as u8),
        word_of(OP_LOADI, 1, 0, 0),
        word_of(OP_LOADI, 2, 1, 0),
        word_of(OP_JMPNZ, 0, 5, 0),
        word_of(OP_HALT, 1, 0, 0),
        word_of(OP_MOV, 3, 0, 0),
        word_of(OP_MUL, 4, 3, 3),
        word_of(OP_SUB, 5, 4, 3),
        word_of(OP_ADD, 5, 5, 2),
        word_of(OP_ADD, 1, 1, 5),
        word_of(OP_DEC, 0, 0, 0),
        word_of(OP_JMPNZ, 0, 5, 0),
        word_of(OP_HALT, 1, 0, 0),
    ]
}

/// The quantity the workload accumulates: Σ_{i=1..n} (i*i - i + 1).
pub open spec fn workload_sum(n: nat) -> int
    decreases n,
{
    if n == 0 {
        0
    } else {
        workload_sum((n - 1) as nat) + n * n - n + 1
    }
}

/// The workload's sum in closed form: n(n+1)(2n+1)/6 - n(n+1)/2 + n.
pub open spec fn closed_form(n: int) -> int {
    n * (n + 1) * (2 * n + 1) / 6 - n * (n + 1) / 2 + n
}

/// Every instruction of the workload program is valid at its position.
pub proof fn lemma_workload_program_valid(n: u16)
    ensures
        valid_program(workload_program(n)),
{
    let code = workload_program(n);
    let lo: u8 = (n & 0xff) as u8;
    let hi: u8 = ((n >> 8) & 0xff) as u8;
    lemma_codec_roundtrip(OP_LOADI, 0, lo, hi);
    lemma_codec_roundtrip(OP_LOADI, 1, 0, 0);
    lemma_codec_roundtrip(OP_LOADI, 2, 1, 0);
    lemma_codec_roundtrip(OP_JMPNZ, 0, 5, 0);
    lemma_codec_roundtrip(OP_HALT, 1, 0, 0);
    lemma_codec_roundtrip(OP_MOV, 3, 0, 0);
    lemma_codec_roundtrip(OP_MUL, 4, 3, 3);
    lemma_codec_roundtrip(OP_SUB, 5, 4, 3);
    lemma_codec_roundtrip(OP_ADD, 5, 5, 2);
    lemma_codec_roundtrip(OP_ADD, 1, 1, 5);
    lemma_codec_roundtrip(OP_DEC, 0, 0, 0);
    assert(code.len() == 13);
    assert(imm16_val(5u8, 0u8) == 5);
    assert forall|i: int| 0 <= i < code.len() implies valid_instr(
        #[trigger] code[i],
        i,
        code.len() as int,
    ) by {
        if i == 0 {
            assert(valid_instr(code[0], 0, 13));
        } else if i == 1 {
            assert(valid_instr(code[1], 1, 13));
        } else if i == 2 {
            assert(valid_instr(code[2], 2, 13));
        } else if i == 3 {
            assert(valid_instr(code[3], 3, 13));
        } else if i == 4 {
            assert(valid_instr(code[4], 4, 13));
        } else if i == 5 {
            assert(valid_instr(code[5], 5, 13));
        } else if i == 6 {
            assert(valid_instr(code[6], 6, 13));
        } else if i == 7 {
            assert(valid_instr(code[7], 7, 13));
        } else if i == 8 {
            assert(valid_instr(code[8], 8, 13));
        } else if i == 9 {
            assert(valid_instr(code[9], 9, 13));
        } else if i == 10 {
            assert(valid_instr(code[10], 10, 13));
        } else if i == 11 {
            assert(valid_instr(code[11], 11, 13));
        } else {
            assert(valid_instr(code[12], 12, 13));
        }
    }
}

/// The workload's sum is non-negative and at most n³.
proof fn lemma_workload_sum_bounds(n: nat)
    ensures
        0 <= workload_sum(n),
        workload_sum(n) <= n * n * n,
    decreases n,
{
    if n > 0 {
        lemma_workload_sum_bounds((n - 1) as nat);
        let k = n as int;
        let p = workload_sum((n - 1) as nat);
        assert(workload_sum(n) == p + k * k - k + 1);
        assert(k * k - k + 1 >= 1 && (k - 1) * (k - 1) * (k - 1) + k * k - k + 1 <= k * k * k)
            by (nonlinear_arith)
            requires
                k >= 1,
        ;
    }
}

/// Three transitions of the workload program load the counter, the
/// accumulator and the constant 1, arriving at the counter guard.
proof fn lemma_workload_entry(n: u16)
    ensures
        ({
            let code = workload_program(n);
            run_n(code, init_state(), 3) == Outcome::Running(
                (State {
                    regs: init_state().regs.update(0, n as i64).update(1, 0i64).update(2, 1i64),
                    pc: 3,
                }),
            )
        }),
{
    let code = workload_program(n);
    let lo: u8 = (n & 0xff) as u8;
    let hi: u8 = ((n >> 8) & 0xff) as u8;
    lemma_codec_roundtrip(OP_LOADI, 0, lo, hi);
    lemma_codec_roundtrip(OP_LOADI, 1, 0, 0);
    lemma_codec_roundtrip(OP_LOADI, 2, 1, 0);
    assert(((n & 0xff) as u8) as int + 256 * ((((n >> 8) & 0xff) as u8) as int) == n as int)
        by (bit_vector);
    assert(imm16_val(lo, hi) == n as i64);
    assert(imm16_val(0u8, 0u8) == 0i64);
    assert(imm16_val(1u8, 0u8) == 1i64);
    let s0 = init_state();
    let s1 = State { regs: s0.regs.update(0, n as i64), pc: 1 };
    let s2 = State { regs: s0.regs.update(0, n as i64).update(1, 0i64), pc: 2 };
    let s3 = State {
        regs: s0.regs.update(0, n as i64).update(1, 0i64).update(2, 1i64),
        pc: 3,
    };
    assert(step(code, s0) == Outcome::Running(s1));
    assert(step(code, s1) == Outcome::Running(s2));
    assert(step(code, s2) == Outcome::Running(s3));
    lemma_run_n_extend(code, s0, 0);
    lemma_run_n_extend(code, s0, 1);
    lemma_run_n_extend(code, s0, 2);
}

/// From the loop head with counter `c` in r0, accumulator `acc` in r1 and
/// the constant 1 in r2, some finite run of the workload program terminates
/// with `acc` plus the remaining sum. Proved by induction over the counter,
/// walking the seven instructions of one loop body.
proof fn lemma_workload_loop(n: u16, c: i64, acc: i64, s: State)
    requires
        wf_state(s),
        s.pc == 5,
        1 <= c <= n,
        s.regs[0] == c,
        s.regs[1] == acc,
        s.regs[2] == 1i64,
        0 <= acc,
        acc + workload_sum(c as nat) <= i64::MAX,
    ensures
        exists|m: nat|
            run_n(workload_program(n), s, m) == Outcome::Done(
                ((acc + workload_sum(c as nat)) as i64),
            ),
    decreases c,
{
    let code = workload_program(n);
    assert(code.len() == 13);
    lemma_codec_roundtrip(OP_MOV, 3, 0, 0);
    lemma_codec_roundtrip(OP_MUL, 4, 3, 3);
    lemma_codec_roundtrip(OP_SUB, 5, 4, 3);
    lemma_codec_roundtrip(OP_ADD, 5, 5, 2);
    lemma_codec_roundtrip(OP_ADD, 1, 1, 5);
    lemma_codec_roundtrip(OP_DEC, 0, 0, 0);
    lemma_codec_roundtrip(OP_JMPNZ, 0, 5, 0);
    lemma_codec_roundtrip(OP_HALT, 1, 0, 0);
    assert(imm16_val(5u8, 0u8) == 5i64);

    lemma_workload_sum_bounds((c - 1) as nat);
    assert(c * c <= 65535 * 65535 && c <= c * c) by (nonlinear_arith)
        requires
            1 <= c <= 65535,
    ;
    let sq: i64 = (c * c) as i64;
    let term: i64 = (c * c - c + 1) as i64;
    let acc2: i64 = (acc + term) as i64;
    assert(workload_sum(c as nat) == workload_sum((c - 1) as nat) + c * c - c + 1);
    assert(acc2 + workload_sum((c - 1) as nat) == acc + workload_sum(c as nat));

    let r = s.regs;
    let s1 = State { regs: r.update(3, c), pc: 6 };
    let s2 = State { regs: r.update(3, c).update(4, sq), pc: 7 };
    let s3 = State { regs: r.update(3, c).update(4, sq).update(5, (sq - c) as i64), pc: 8 };
    let s4 = State {
        regs: r.update(3, c).update(4, sq).update(5, (sq - c) as i64).update(5, term),
        pc: 9,
    };
    let s5 = State {
        regs: r.update(3, c).update(4, sq).update(5, (sq - c) as i64).update(5, term).update(
            1,
            acc2,
        ),
        pc: 10,
    };
    let r6 = r.update(3, c).update(4, sq).update(5, (sq - c) as i64).update(5, term).update(
        1,
        acc2,
    ).update(0, (c - 1) as i64);
    let s6 = State { regs: r6, pc: 11 };

    assert(step(code, s) == Outcome::Running(s1));
    lemma_wrap_mul_in_range(c, c);
    assert(step(code, s1) == Outcome::Running(s2));
    assert(step(code, s2) == Outcome::Running(s3));
    assert(step(code, s3) == Outcome::Running(s4));
    assert(step(code, s4) == Outcome::Running(s5));
    assert(step(code, s5) == Outcome::Running(s6));

    lemma_run_n_extend(code, s, 0);
    lemma_run_n_extend(code, s, 1);
    lemma_run_n_extend(code, s, 2);
    lemma_run_n_extend(code, s, 3);
    lemma_run_n_extend(code, s, 4);
    lemma_run_n_extend(code, s, 5);
    lemma_run_n_extend(code, s, 6);
    assert(run_n(code, s, 6) == Outcome::Running(s6));

    if c == 1 {
        // counter reaches zero: the jump falls through to HALT
        let s7 = State { regs: r6, pc: 12 };
        assert(step(code, s6) == Outcome::Running(s7));
        assert(run_n(code, s, 7) == Outcome::Running(s7));
        lemma_run_n_extend(code, s, 7);
        assert(s7.regs[1] == acc2);
        assert(step(code, s7) == Outcome::Done(acc2));
        assert(run_n(code, s, 8) == Outcome::Done(((acc + workload_sum(c as nat)) as i64)));
    } else {
        // counter still nonzero: jump back to the loop head
        let s7 = State { regs: r6, pc: 5 };
        assert(step(code, s6) == Outcome::Running(s7));
        assert(run_n(code, s, 7) == Outcome::Running(s7));
        lemma_workload_loop(n, (c - 1) as i64, acc2, s7);
        let m0: nat = choose|m: nat|
            run_n(code, s7, m) == Outcome::Done(
                ((acc2 + workload_sum(((c - 1) as i64) as nat)) as i64),
            );
        lemma_run_n_compose(code, s, 7, s7, m0);
        assert(run_n(code, s, (7 + m0) as nat) == Outcome::Done(
            ((acc + workload_sum(c as nat)) as i64),
        ));
    }
}

/// For every parameter, the workload program halts, and the value it halts
/// with is the workload's sum Σ_{i=1..n} (i*i - i + 1) — in particular 0
/// for parameter 0, whose run never enters the loop body: the guard finds
/// the counter already 0 before the first body iteration.
pub proof fn lemma_workload_result(n: u16)
    ensures
        0 <= workload_sum(n as nat) <= i64::MAX,
        terminates_with(workload_program(n), init_state(), (workload_sum(n as nat) as i64)),
        halts(workload_program(n)),
{
    let code = workload_program(n);
    lemma_workload_sum_bounds(n as nat);
    assert((n as int) * (n as int) * (n as int) <= 65535 * 65535 * 65535) by (nonlinear_arith)
        requires
            n <= 65535,
    ;
    lemma_workload_entry(n);
    lemma_codec_roundtrip(OP_JMPNZ, 0, 5, 0);
    lemma_codec_roundtrip(OP_HALT, 1, 0, 0);
    assert(imm16_val(5u8, 0u8) == 5i64);
    let s_guard = State {
        regs: init_state().regs.update(0, n as i64).update(1, 0i64).update(2, 1i64),
        pc: 3,
    };
    if n == 0 {
        // the counter is already 0 at the guard: fall through to the halt
        let s4 = State { regs: s_guard.regs, pc: 4 };
        assert(step(code, s_guard) == Outcome::Running(s4));
        assert(step(code, s4) == Outcome::Done(0i64));
        lemma_run_n_extend(code, init_state(), 3);
        lemma_run_n_extend(code, init_state(), 4);
        assert(workload_sum(n as nat) == 0);
        assert(run_n(code, init_state(), 5) == Outcome::Done(0i64));
    } else {
        // the guard jumps to the loop head with the counter at n
        let s_head = State { regs: s_guard.regs, pc: 5 };
        assert(step(code, s_guard) == Outcome::Running(s_head));
        lemma_run_n_extend(code, init_state(), 3);
        assert(run_n(code, init_state(), 4) == Outcome::Running(s_head));
        lemma_workload_loop(n, n as i64, 0i64, s_head);
        let m0: nat = choose|m: nat|
            run_n(code, s_head, m) == Outcome::Done(
                ((0i64 + workload_sum((n as i64) as nat)) as i64),
            );
        lemma_run_n_compose(code, init_state(), 4, s_head, m0);
        assert(run_n(code, init_state(), (4 + m0) as nat) == Outcome::Done(
            (workload_sum(n as nat) as i64),
        ));
    }
}

/// Σ_{i=1..n} i², defined recursively for the closed-form proof.
spec fn sum_sq(n: nat) -> int
    decreases n,
{
    if n == 0 {
        0
    } else {
        sum_sq((n - 1) as nat) + n * n
    }
}

/// Σ_{i=1..n} i, defined recursively for the closed-form proof.
spec fn sum_lin(n: nat) -> int
    decreases n,
{
    if n == 0 {
        0
    } else {
        sum_lin((n - 1) as nat) + n
    }
}

/// 6 · Σ_{i=1..n} i² == n(n+1)(2n+1).
proof fn lemma_sum_sq(n: nat)
    ensures
        6 * sum_sq(n) == (n as int) * (n as int + 1) * (2 * (n as int) + 1),
    decreases n,
{
    if n > 0 {
        lemma_sum_sq((n - 1) as nat);
        let k = n as int;
        let p = sum_sq((n - 1) as nat);
        assert(6 * (p + k * k) == k * (k + 1) * (2 * k + 1)) by (nonlinear_arith)
            requires
                k >= 1,
                6 * p == (k - 1) * k * (2 * (k - 1) + 1),
        ;
        assert(sum_sq(n) == p + k * k);
        assert(6 * sum_sq(n) == k * (k + 1) * (2 * k + 1));
    } else {
        assert(sum_sq(n) == 0);
    }
}

/// 2 · Σ_{i=1..n} i == n(n+1).
proof fn lemma_sum_lin(n: nat)
    ensures
        2 * sum_lin(n) == (n as int) * (n as int + 1),
    decreases n,
{
    if n > 0 {
        lemma_sum_lin((n - 1) as nat);
        let k = n as int;
        let p = sum_lin((n - 1) as nat);
        assert(2 * (p + k) == k * (k + 1)) by (nonlinear_arith)
            requires
                k >= 1,
                2 * p == (k - 1) * k,
        ;
        assert(sum_lin(n) == p + k);
    } else {
        assert(sum_lin(n) == 0);
    }
}

/// The workload's sum splits into the square sum, the linear sum and n.
proof fn lemma_workload_sum_split(n: nat)
    ensures
        workload_sum(n) == sum_sq(n) - sum_lin(n) + n,
    decreases n,
{
    if n > 0 {
        lemma_workload_sum_split((n - 1) as nat);
    }
}

/// The workload's sum equals its closed form,
/// n(n+1)(2n+1)/6 − n(n+1)/2 + n, for every parameter.
pub proof fn lemma_workload_closed_form(n: u16)
    ensures
        workload_sum(n as nat) == closed_form(n as int),
{
    let k = n as int;
    lemma_sum_sq(n as nat);
    lemma_sum_lin(n as nat);
    lemma_workload_sum_split(n as nat);
    lemma_div_multiples_vanish(sum_sq(n as nat), 6);
    assert(k * (k + 1) * (2 * k + 1) / 6 == sum_sq(n as nat));
    lemma_div_multiples_vanish(sum_lin(n as nat), 2);
    assert(k * (k + 1) / 2 == sum_lin(n as nat));
}

/// For every parameter the workload program halts with exactly
/// n(n+1)(2n+1)/6 − n(n+1)/2 + n.
pub proof fn lemma_workload_value(n: u16)
    ensures
        terminates_with(workload_program(n), init_state(), (closed_form(n as int) as i64)),
{
    lemma_workload_result(n);
    lemma_workload_closed_form(n);
}

/// Assembles the workload program for parameter `n`: a valid program that
/// halts with the workload's sum — 0 when `n` is 0, since the guard is
/// checked before the first body iteration.
pub fn make_program(n: u16) -> (code: Vec<u32>)
    ensures
        code@ == workload_program(n),
        valid_program(code@),
        halts(code@),
        terminates_with(code@, init_state(), (workload_sum(n as nat) as i64)),
{
    let lo = (n & 0xff) as u8;
    let hi = ((n >> 8) & 0xff) as u8;
    let mut code: Vec<u32> = Vec::new();
    code.push(encode(OP_LOADI, 0, lo, hi));  // r0 = n (the counter)
    code.push(encode(OP_LOADI, 1, 0, 0));  // r1 = 0 (the accumulator)
    code.push(encode(OP_LOADI, 2, 1, 0));  // r2 = 1
    code.push(encode(OP_JMPNZ, 0, 5, 0));  // enter the loop if r0 != 0
    code.push(encode(OP_HALT, 1, 0, 0));  // zero iterations: return r1 = 0
    // loop head (position 5)
    code.push(encode(OP_MOV, 3, 0, 0));  // r3 = r0
    code.push(encode(OP_MUL, 4, 3, 3));  // r4 = r3 * r3
    code.push(encode(OP_SUB, 5, 4, 3));  // r5 = r4 - r3
    code.push(encode(OP_ADD, 5, 5, 2));  // r5 = r5 + 1
    code.push(encode(OP_ADD, 1, 1, 5));  // r1 += r5
    code.push(encode(OP_DEC, 0, 0, 0));  // r0 -= 1
    code.push(encode(OP_JMPNZ, 0, 5, 0));  // if r0 != 0 goto 5
    code.push(encode(OP_HALT, 1, 0, 0));  // return r1
    proof {
        assert(code@ =~= workload_program(n));
        lemma_workload_program_valid(n);
        lemma_workload_result(n);
    }
    code
}

} // verus!
