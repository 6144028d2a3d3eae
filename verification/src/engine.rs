//! The execution engines. All three consume a program and return the halt
//! value (or the sentinel -1), and all three are verified against the one
//! step relation of `semantics`. They differ only in their control-flow
//! shell: the central engine dispatches once per loop iteration through the
//! shared dispatch body, while the threaded shells write the dispatch table
//! out in full inside the loop and end every non-terminal handler with its
//! own tail dispatch site — one call of the inline dispatch body per handler
//! (and, in the three-level shell, a two-level copy of it) — so that, with
//! those calls inlined, each handler carries its own copy of the dispatch
//! code at its tail.

use vstd::prelude::*;
use crate::isa::{imm16, NREGS, OP_ADD, OP_DEC, OP_DIV, OP_HALT, OP_INC, OP_JMPNZ, OP_LOADI,
    OP_MOD, OP_MOV, OP_MUL, OP_SUB};
use crate::semantics::{halts, init_state, lemma_run_n_extend, run_n, step, terminates_with,
    uses_reg_a, uses_reg_b, valid_instr, valid_program, Outcome, State};

verus! {

/// Fetch, decode and apply the single instruction at `*pc`: the shared
/// dispatch body. Returns `Some(result)` when the instruction terminates
/// execution, `None` when the machine keeps running. Its contract says the
/// call performs exactly one transition of the step relation.
#[inline(always)]
fn dispatch_one(code: &[u32], regs: &mut [i64; NREGS], pc: &mut usize) -> (r: Option<i64>)
    requires
        valid_program(code@),
        *old(pc) < code@.len(),
    ensures
        ({
            let pre = State { regs: old(regs)@, pc: *old(pc) as nat };
            match r {
                Some(v) => step(code@, pre) == Outcome::Done(v),
                None => {
                    &&& step(code@, pre) == Outcome::Running(
                        (State { regs: final(regs)@, pc: *final(pc) as nat }),
                    )
                    &&& *final(pc) < code@.len()
                },
            }
        }),
{
    let instr: u32 = code[*pc];
    let op: u8 = (instr & 0xff) as u8;
    let dst: usize = ((instr >> 8) & 0xff) as usize;
    let a: u8 = ((instr >> 16) & 0xff) as u8;
    let b: u8 = ((instr >> 24) & 0xff) as u8;
    proof {
        assert(valid_instr(code@[*pc as int], *pc as int, code@.len() as int));
        assert((instr >> 8) & 0xff < 256) by (bit_vector);
        assert((instr >> 16) & 0xff < 256) by (bit_vector);
        assert((instr >> 24) & 0xff < 256) by (bit_vector);
    }
    *pc = *pc + 1;
    match op {
        OP_HALT => Some(regs[dst]),
        OP_LOADI => {
            regs[dst] = imm16(a, b);
            None
        }
        OP_ADD => {
            regs[dst] = regs[a as usize].wrapping_add(regs[b as usize]);
            None
        }
        OP_SUB => {
            regs[dst] = regs[a as usize].wrapping_sub(regs[b as usize]);
            None
        }
        OP_MUL => {
            regs[dst] = regs[a as usize].wrapping_mul(regs[b as usize]);
            None
        }
        OP_DIV => {
            let d = regs[b as usize];
            // A zero divisor yields 0 by definition; the one overflowing
            // quotient wraps, so division never panics.
            regs[dst] = match regs[a as usize].checked_div(d) {
                Some(q) => q,
                None => if d == 0 { 0i64 } else { i64::MIN },
            };
            None
        }
        OP_MOD => {
            let d = regs[b as usize];
            // A zero divisor yields 0 by definition; the one overflowing
            // remainder wraps to 0, so the remainder never panics.
            regs[dst] = match regs[a as usize].checked_rem(d) {
                Some(rem) => rem,
                None => 0i64,
            };
            None
        }
        OP_INC => {
            regs[dst] = regs[dst].wrapping_add(1);
            None
        }
        OP_DEC => {
            regs[dst] = regs[dst].wrapping_sub(1);
            None
        }
        OP_JMPNZ => {
            if regs[dst] != 0 {
                *pc = imm16(a, b) as usize;
            }
            None
        }
        OP_MOV => {
            regs[dst] = regs[a as usize];
            None
        }
        _ => Some(-1),
    }
}

/// One transition out of the state reached after `n` transitions lands in
/// the state reached after `n + 1`; on a halting program, the count of a run
/// still going stays strictly below the count at which a run terminates.
proof fn lemma_advance(code: Seq<u32>, n: nat, total: nat, pre: State, post: State)
    requires
        run_n(code, init_state(), n) == Outcome::Running(pre),
        step(code, pre) == Outcome::Running(post),
        run_n(code, init_state(), total) is Done,
    ensures
        run_n(code, init_state(), (n + 1) as nat) == Outcome::Running(post),
        n + 1 < total,
{
    crate::semantics::lemma_run_n_extend(code, init_state(), n);
    crate::semantics::lemma_running_below_done(code, init_state(), (n + 1) as nat, total);
}

/// A terminating transition out of the state reached after `n` transitions
/// makes the whole run terminate with that result.
proof fn lemma_finish(code: Seq<u32>, n: nat, pre: State, v: i64)
    requires
        run_n(code, init_state(), n) == Outcome::Running(pre),
        step(code, pre) == Outcome::Done(v),
    ensures
        terminates_with(code, init_state(), v),
{
    crate::semantics::lemma_run_n_extend(code, init_state(), n);
    assert(run_n(code, init_state(), (n + 1) as nat) == Outcome::Done(v));
}

/// As `lemma_advance`, for a tail dispatch that performed `k` transitions.
proof fn lemma_advance_k(code: Seq<u32>, n: nat, total: nat, pre: State, k: nat, post: State)
    requires
        run_n(code, init_state(), n) == Outcome::Running(pre),
        run_n(code, pre, k) == Outcome::Running(post),
        run_n(code, init_state(), total) is Done,
    ensures
        run_n(code, init_state(), (n + k) as nat) == Outcome::Running(post),
        n + k < total,
{
    crate::semantics::lemma_run_n_compose(code, init_state(), n, pre, k);
    crate::semantics::lemma_running_below_done(code, init_state(), (n + k) as nat, total);
}

/// As `lemma_finish`, for a tail dispatch that performed `k` transitions.
proof fn lemma_finish_k(code: Seq<u32>, n: nat, pre: State, k: nat, v: i64)
    requires
        run_n(code, init_state(), n) == Outcome::Running(pre),
        run_n(code, pre, k) == Outcome::Done(v),
    ensures
        terminates_with(code, init_state(), v),
{
    crate::semantics::lemma_run_n_compose(code, init_state(), n, pre, k);
    assert(run_n(code, init_state(), (n + k) as nat) == Outcome::Done(v));
}

/// Central dispatch: a single dispatch site, reused every loop iteration.
/// The result is the value a finite run of the step relation terminates
/// with, starting from zeroed registers at instruction 0.
#[inline(never)]
pub fn run_central(code: &[u32]) -> (r: i64)
    requires
        valid_program(code@),
        halts(code@),
    ensures
        terminates_with(code@, init_state(), r),
{
    let mut regs: [i64; NREGS] = [0i64; NREGS];
    let mut pc: usize = 0;
    let ghost mut steps: nat = 0;
    let ghost total: nat = choose|n: nat| run_n(code@, init_state(), n) is Done;
    proof {
        assert(regs@ =~= init_state().regs);
        crate::semantics::lemma_running_below_done(code@, init_state(), 0, total);
    }
    loop
        invariant
            valid_program(code@),
            pc < code@.len(),
            run_n(code@, init_state(), steps) == Outcome::Running(
                (State { regs: regs@, pc: pc as nat }),
            ),
            run_n(code@, init_state(), total) is Done,
            steps < total,
        decreases total - steps,
    {
        let ghost pre = State { regs: regs@, pc: pc as nat };
        match dispatch_one(code, &mut regs, &mut pc) {
            Some(v) => {
                proof {
                    lemma_finish(code@, steps, pre, v);
                }
                return v;
            }
            None => {
                proof {
                    lemma_advance(code@, steps, total, pre, State { regs: regs@, pc: pc as nat });
                    steps = (steps + 1) as nat;
                }
            }
        }
    }
}

/// Fetch and apply the instruction at `*pc` through a full copy of the
/// dispatch table in which every non-terminal handler ends with its own call
/// of `dispatch_one`: two transitions of the step relation per call, unless
/// the first of them terminates. This is the tail half of the three-level
/// threaded engine.
#[inline(always)]
fn dispatch_two(code: &[u32], regs: &mut [i64; NREGS], pc: &mut usize) -> (r: Option<i64>)
    requires
        valid_program(code@),
        *old(pc) < code@.len(),
    ensures
        ({
            let pre = State { regs: old(regs)@, pc: *old(pc) as nat };
            match r {
                Some(v) => run_n(code@, pre, 1) == Outcome::Done(v) || run_n(code@, pre, 2)
                    == Outcome::Done(v),
                None => {
                    &&& run_n(code@, pre, 2) == Outcome::Running(
                        (State { regs: final(regs)@, pc: *final(pc) as nat }),
                    )
                    &&& *final(pc) < code@.len()
                },
            }
        }),
{
    let ghost pre = State { regs: regs@, pc: *pc as nat };
    let instr: u32 = code[*pc];
    let op: u8 = (instr & 0xff) as u8;
    let dst: usize = ((instr >> 8) & 0xff) as usize;
    let a: u8 = ((instr >> 16) & 0xff) as u8;
    let b: u8 = ((instr >> 24) & 0xff) as u8;
    proof {
        lemma_run_n_extend(code@, pre, 0);
        assert(valid_instr(code@[*pc as int], *pc as int, code@.len() as int));
        assert((instr >> 8) & 0xff < 256) by (bit_vector);
        assert((instr >> 16) & 0xff < 256) by (bit_vector);
        assert((instr >> 24) & 0xff < 256) by (bit_vector);
    }
    *pc = *pc + 1;
    match op {
        OP_HALT => Some(regs[dst]),
        OP_LOADI => {
            regs[dst] = imm16(a, b);
            proof {
                assert(step(code@, pre) == Outcome::Running((State { regs: regs@, pc: *pc as nat })));
                lemma_run_n_extend(code@, pre, 1);
            }
            // this handler's own tail dispatch site
            dispatch_one(code, regs, pc)
        }
        OP_ADD => {
            regs[dst] = regs[a as usize].wrapping_add(regs[b as usize]);
            proof {
                assert(step(code@, pre) == Outcome::Running((State { regs: regs@, pc: *pc as nat })));
                lemma_run_n_extend(code@, pre, 1);
            }
            // this handler's own tail dispatch site
            dispatch_one(code, regs, pc)
        }
        OP_SUB => {
            regs[dst] = regs[a as usize].wrapping_sub(regs[b as usize]);
            proof {
                assert(step(code@, pre) == Outcome::Running((State { regs: regs@, pc: *pc as nat })));
                lemma_run_n_extend(code@, pre, 1);
            }
            // this handler's own tail dispatch site
            dispatch_one(code, regs, pc)
        }
        OP_MUL => {
            regs[dst] = regs[a as usize].wrapping_mul(regs[b as usize]);
            proof {
                assert(step(code@, pre) == Outcome::Running((State { regs: regs@, pc: *pc as nat })));
                lemma_run_n_extend(code@, pre, 1);
            }
            // this handler's own tail dispatch site
            dispatch_one(code, regs, pc)
        }
        OP_DIV => {
            let d = regs[b as usize];
            regs[dst] = match regs[a as usize].checked_div(d) {
                Some(q) => q,
                None => if d == 0 { 0i64 } else { i64::MIN },
            };
            proof {
                assert(step(code@, pre) == Outcome::Running((State { regs: regs@, pc: *pc as nat })));
                lemma_run_n_extend(code@, pre, 1);
            }
            // this handler's own tail dispatch site
            dispatch_one(code, regs, pc)
        }
        OP_MOD => {
            let d = regs[b as usize];
            regs[dst] = match regs[a as usize].checked_rem(d) {
                Some(rem) => rem,
                None => 0i64,
            };
            proof {
                assert(step(code@, pre) == Outcome::Running((State { regs: regs@, pc: *pc as nat })));
                lemma_run_n_extend(code@, pre, 1);
            }
            // this handler's own tail dispatch site
            dispatch_one(code, regs, pc)
        }
        OP_INC => {
            regs[dst] = regs[dst].wrapping_add(1);
            proof {
                assert(step(code@, pre) == Outcome::Running((State { regs: regs@, pc: *pc as nat })));
                lemma_run_n_extend(code@, pre, 1);
            }
            // this handler's own tail dispatch site
            dispatch_one(code, regs, pc)
        }
        OP_DEC => {
            regs[dst] = regs[dst].wrapping_sub(1);
            proof {
                assert(step(code@, pre) == Outcome::Running((State { regs: regs@, pc: *pc as nat })));
                lemma_run_n_extend(code@, pre, 1);
            }
            // this handler's own tail dispatch site
            dispatch_one(code, regs, pc)
        }
        OP_JMPNZ => {
            if regs[dst] != 0 {
                *pc = imm16(a, b) as usize;
            }
            proof {
                assert(step(code@, pre) == Outcome::Running((State { regs: regs@, pc: *pc as nat })));
                lemma_run_n_extend(code@, pre, 1);
            }
            // this handler's own tail dispatch site
            dispatch_one(code, regs, pc)
        }
        OP_MOV => {
            regs[dst] = regs[a as usize];
            proof {
                assert(step(code@, pre) == Outcome::Running((State { regs: regs@, pc: *pc as nat })));
                lemma_run_n_extend(code@, pre, 1);
            }
            // this handler's own tail dispatch site
            dispatch_one(code, regs, pc)
        }
        _ => Some(-1),
    }
}

/// Threaded dispatch, two levels: the loop body holds its own full copy of
/// the dispatch table, and every non-terminal handler ends with its own,
/// textually separate tail dispatch site — a call of the inline shared
/// dispatch body — before control returns to the loop head. With
/// `dispatch_one` inlined at each of those sites, every handler carries its
/// own copy of the dispatch at its tail.
#[inline(never)]
pub fn run_threaded(code: &[u32]) -> (r: i64)
    requires
        valid_program(code@),
        halts(code@),
    ensures
        terminates_with(code@, init_state(), r),
{
    let mut regs: [i64; NREGS] = [0i64; NREGS];
    let mut pc: usize = 0;
    let ghost mut steps: nat = 0;
    let ghost total: nat = choose|n: nat| run_n(code@, init_state(), n) is Done;
    proof {
        assert(regs@ =~= init_state().regs);
        crate::semantics::lemma_running_below_done(code@, init_state(), 0, total);
    }
    loop
        invariant
            valid_program(code@),
            pc < code@.len(),
            run_n(code@, init_state(), steps) == Outcome::Running(
                (State { regs: regs@, pc: pc as nat }),
            ),
            run_n(code@, init_state(), total) is Done,
            steps < total,
        decreases total - steps,
    {
        let ghost pre1 = State { regs: regs@, pc: pc as nat };
        let instr: u32 = code[pc];
        let op: u8 = (instr & 0xff) as u8;
        let dst: usize = ((instr >> 8) & 0xff) as usize;
        let a: u8 = ((instr >> 16) & 0xff) as u8;
        let b: u8 = ((instr >> 24) & 0xff) as u8;
        proof {
            assert(valid_instr(code@[pc as int], pc as int, code@.len() as int));
            assert((instr >> 8) & 0xff < 256) by (bit_vector);
            assert((instr >> 16) & 0xff < 256) by (bit_vector);
            assert((instr >> 24) & 0xff < 256) by (bit_vector);
        }
        pc = pc + 1;
        match op {
            OP_HALT => {
                let v = regs[dst];
                proof {
                    lemma_finish(code@, steps, pre1, v);
                }
                return v;
            }
            OP_LOADI => {
                regs[dst] = imm16(a, b);
                proof {
                    lemma_advance(code@, steps, total, pre1, State { regs: regs@, pc: pc as nat });
                    steps = (steps + 1) as nat;
                }
                // this handler's own tail dispatch site
                let ghost pre2 = State { regs: regs@, pc: pc as nat };
                match dispatch_one(code, &mut regs, &mut pc) {
                    Some(v) => {
                        proof {
                            lemma_finish(code@, steps, pre2, v);
                        }
                        return v;
                    }
                    None => {
                        proof {
                            lemma_advance(code@, steps, total, pre2, State { regs: regs@, pc: pc as nat });
                            steps = (steps + 1) as nat;
                        }
                    }
                }
            }
            OP_ADD => {
                regs[dst] = regs[a as usize].wrapping_add(regs[b as usize]);
                proof {
                    lemma_advance(code@, steps, total, pre1, State { regs: regs@, pc: pc as nat });
                    steps = (steps + 1) as nat;
                }
                // this handler's own tail dispatch site
                let ghost pre2 = State { regs: regs@, pc: pc as nat };
                match dispatch_one(code, &mut regs, &mut pc) {
                    Some(v) => {
                        proof {
                            lemma_finish(code@, steps, pre2, v);
                        }
                        return v;
                    }
                    None => {
                        proof {
                            lemma_advance(code@, steps, total, pre2, State { regs: regs@, pc: pc as nat });
                            steps = (steps + 1) as nat;
                        }
                    }
                }
            }
            OP_SUB => {
                regs[dst] = regs[a as usize].wrapping_sub(regs[b as usize]);
                proof {
                    lemma_advance(code@, steps, total, pre1, State { regs: regs@, pc: pc as nat });
                    steps = (steps + 1) as nat;
                }
                // this handler's own tail dispatch site
                let ghost pre2 = State { regs: regs@, pc: pc as nat };
                match dispatch_one(code, &mut regs, &mut pc) {
                    Some(v) => {
                        proof {
                            lemma_finish(code@, steps, pre2, v);
                        }
                        return v;
                    }
                    None => {
                        proof {
                            lemma_advance(code@, steps, total, pre2, State { regs: regs@, pc: pc as nat });
                            steps = (steps + 1) as nat;
                        }
                    }
                }
            }
            OP_MUL => {
                regs[dst] = regs[a as usize].wrapping_mul(regs[b as usize]);
                proof {
                    lemma_advance(code@, steps, total, pre1, State { regs: regs@, pc: pc as nat });
                    steps = (steps + 1) as nat;
                }
                // this handler's own tail dispatch site
                let ghost pre2 = State { regs: regs@, pc: pc as nat };
                match dispatch_one(code, &mut regs, &mut pc) {
                    Some(v) => {
                        proof {
                            lemma_finish(code@, steps, pre2, v);
                        }
                        return v;
                    }
                    None => {
                        proof {
                            lemma_advance(code@, steps, total, pre2, State { regs: regs@, pc: pc as nat });
                            steps = (steps + 1) as nat;
                        }
                    }
                }
            }
            OP_DIV => {
                let d = regs[b as usize];
                regs[dst] = match regs[a as usize].checked_div(d) {
                    Some(q) => q,
                    None => if d == 0 { 0i64 } else { i64::MIN },
                };
                proof {
                    lemma_advance(code@, steps, total, pre1, State { regs: regs@, pc: pc as nat });
                    steps = (steps + 1) as nat;
                }
                // this handler's own tail dispatch site
                let ghost pre2 = State { regs: regs@, pc: pc as nat };
                match dispatch_one(code, &mut regs, &mut pc) {
                    Some(v) => {
                        proof {
                            lemma_finish(code@, steps, pre2, v);
                        }
                        return v;
                    }
                    None => {
                        proof {
                            lemma_advance(code@, steps, total, pre2, State { regs: regs@, pc: pc as nat });
                            steps = (steps + 1) as nat;
                        }
                    }
                }
            }
            OP_MOD => {
                let d = regs[b as usize];
                regs[dst] = match regs[a as usize].checked_rem(d) {
                    Some(rem) => rem,
                    None => 0i64,
                };
                proof {
                    lemma_advance(code@, steps, total, pre1, State { regs: regs@, pc: pc as nat });
                    steps = (steps + 1) as nat;
                }
                // this handler's own tail dispatch site
                let ghost pre2 = State { regs: regs@, pc: pc as nat };
                match dispatch_one(code, &mut regs, &mut pc) {
                    Some(v) => {
                        proof {
                            lemma_finish(code@, steps, pre2, v);
                        }
                        return v;
                    }
                    None => {
                        proof {
                            lemma_advance(code@, steps, total, pre2, State { regs: regs@, pc: pc as nat });
                            steps = (steps + 1) as nat;
                        }
                    }
                }
            }
            OP_INC => {
                regs[dst] = regs[dst].wrapping_add(1);
                proof {
                    lemma_advance(code@, steps, total, pre1, State { regs: regs@, pc: pc as nat });
                    steps = (steps + 1) as nat;
                }
                // this handler's own tail dispatch site
                let ghost pre2 = State { regs: regs@, pc: pc as nat };
                match dispatch_one(code, &mut regs, &mut pc) {
                    Some(v) => {
                        proof {
                            lemma_finish(code@, steps, pre2, v);
                        }
                        return v;
                    }
                    None => {
                        proof {
                            lemma_advance(code@, steps, total, pre2, State { regs: regs@, pc: pc as nat });
                            steps = (steps + 1) as nat;
                        }
                    }
                }
            }
            OP_DEC => {
                regs[dst] = regs[dst].wrapping_sub(1);
                proof {
                    lemma_advance(code@, steps, total, pre1, State { regs: regs@, pc: pc as nat });
                    steps = (steps + 1) as nat;
                }
                // this handler's own tail dispatch site
                let ghost pre2 = State { regs: regs@, pc: pc as nat };
                match dispatch_one(code, &mut regs, &mut pc) {
                    Some(v) => {
                        proof {
                            lemma_finish(code@, steps, pre2, v);
                        }
                        return v;
                    }
                    None => {
                        proof {
                            lemma_advance(code@, steps, total, pre2, State { regs: regs@, pc: pc as nat });
                            steps = (steps + 1) as nat;
                        }
                    }
                }
            }
            OP_JMPNZ => {
                if regs[dst] != 0 {
                    pc = imm16(a, b) as usize;
                }
                proof {
                    lemma_advance(code@, steps, total, pre1, State { regs: regs@, pc: pc as nat });
                    steps = (steps + 1) as nat;
                }
                // this handler's own tail dispatch site
                let ghost pre2 = State { regs: regs@, pc: pc as nat };
                match dispatch_one(code, &mut regs, &mut pc) {
                    Some(v) => {
                        proof {
                            lemma_finish(code@, steps, pre2, v);
                        }
                        return v;
                    }
                    None => {
                        proof {
                            lemma_advance(code@, steps, total, pre2, State { regs: regs@, pc: pc as nat });
                            steps = (steps + 1) as nat;
                        }
                    }
                }
            }
            OP_MOV => {
                regs[dst] = regs[a as usize];
                proof {
                    lemma_advance(code@, steps, total, pre1, State { regs: regs@, pc: pc as nat });
                    steps = (steps + 1) as nat;
                }
                // this handler's own tail dispatch site
                let ghost pre2 = State { regs: regs@, pc: pc as nat };
                match dispatch_one(code, &mut regs, &mut pc) {
                    Some(v) => {
                        proof {
                            lemma_finish(code@, steps, pre2, v);
                        }
                        return v;
                    }
                    None => {
                        proof {
                            lemma_advance(code@, steps, total, pre2, State { regs: regs@, pc: pc as nat });
                            steps = (steps + 1) as nat;
                        }
                    }
                }
            }
            _ => {
                proof {
                    lemma_finish(code@, steps, pre1, -1i64);
                }
                return -1;
            }
        }
    }
}

/// Threaded dispatch, three levels: as `run_threaded`, but the tail
/// dispatch at the end of each handler is itself two levels deep — its own
/// call of `dispatch_two`, a full copy of the dispatch table whose handlers
/// each end with their own call of the inline dispatch body.
#[inline(never)]
pub fn run_threaded_deep(code: &[u32]) -> (r: i64)
    requires
        valid_program(code@),
        halts(code@),
    ensures
        terminates_with(code@, init_state(), r),
{
    let mut regs: [i64; NREGS] = [0i64; NREGS];
    let mut pc: usize = 0;
    let ghost mut steps: nat = 0;
    let ghost total: nat = choose|n: nat| run_n(code@, init_state(), n) is Done;
    proof {
        assert(regs@ =~= init_state().regs);
        crate::semantics::lemma_running_below_done(code@, init_state(), 0, total);
    }
    loop
        invariant
            valid_program(code@),
            pc < code@.len(),
            run_n(code@, init_state(), steps) == Outcome::Running(
                (State { regs: regs@, pc: pc as nat }),
            ),
            run_n(code@, init_state(), total) is Done,
            steps < total,
        decreases total - steps,
    {
        let ghost pre1 = State { regs: regs@, pc: pc as nat };
        let instr: u32 = code[pc];
        let op: u8 = (instr & 0xff) as u8;
        let dst: usize = ((instr >> 8) & 0xff) as usize;
        let a: u8 = ((instr >> 16) & 0xff) as u8;
        let b: u8 = ((instr >> 24) & 0xff) as u8;
        proof {
            assert(valid_instr(code@[pc as int], pc as int, code@.len() as int));
            assert((instr >> 8) & 0xff < 256) by (bit_vector);
            assert((instr >> 16) & 0xff < 256) by (bit_vector);
            assert((instr >> 24) & 0xff < 256) by (bit_vector);
        }
        pc = pc + 1;
        match op {
            OP_HALT => {
                let v = regs[dst];
                proof {
                    lemma_finish(code@, steps, pre1, v);
                }
                return v;
            }
            OP_LOADI => {
                regs[dst] = imm16(a, b);
                proof {
                    lemma_advance(code@, steps, total, pre1, State { regs: regs@, pc: pc as nat });
                    steps = (steps + 1) as nat;
                }
                // this handler's own tail dispatch site, two levels deep
                let ghost pre2 = State { regs: regs@, pc: pc as nat };
                match dispatch_two(code, &mut regs, &mut pc) {
                    Some(v) => {
                        proof {
                            if run_n(code@, pre2, 1nat) == Outcome::Done(v) {
                                lemma_finish_k(code@, steps, pre2, 1nat, v);
                            } else {
                                lemma_finish_k(code@, steps, pre2, 2nat, v);
                            }
                        }
                        return v;
                    }
                    None => {
                        proof {
                            lemma_advance_k(code@, steps, total, pre2, 2nat, State { regs: regs@, pc: pc as nat });
                            steps = (steps + 2) as nat;
                        }
                    }
                }
            }
            OP_ADD => {
                regs[dst] = regs[a as usize].wrapping_add(regs[b as usize]);
                proof {
                    lemma_advance(code@, steps, total, pre1, State { regs: regs@, pc: pc as nat });
                    steps = (steps + 1) as nat;
                }
                // this handler's own tail dispatch site, two levels deep
                let ghost pre2 = State { regs: regs@, pc: pc as nat };
                match dispatch_two(code, &mut regs, &mut pc) {
                    Some(v) => {
                        proof {
                            if run_n(code@, pre2, 1nat) == Outcome::Done(v) {
                                lemma_finish_k(code@, steps, pre2, 1nat, v);
                            } else {
                                lemma_finish_k(code@, steps, pre2, 2nat, v);
                            }
                        }
                        return v;
                    }
                    None => {
                        proof {
                            lemma_advance_k(code@, steps, total, pre2, 2nat, State { regs: regs@, pc: pc as nat });
                            steps = (steps + 2) as nat;
                        }
                    }
                }
            }
            OP_SUB => {
                regs[dst] = regs[a as usize].wrapping_sub(regs[b as usize]);
                proof {
                    lemma_advance(code@, steps, total, pre1, State { regs: regs@, pc: pc as nat });
                    steps = (steps + 1) as nat;
                }
                // this handler's own tail dispatch site, two levels deep
                let ghost pre2 = State { regs: regs@, pc: pc as nat };
                match dispatch_two(code, &mut regs, &mut pc) {
                    Some(v) => {
                        proof {
                            if run_n(code@, pre2, 1nat) == Outcome::Done(v) {
                                lemma_finish_k(code@, steps, pre2, 1nat, v);
                            } else {
                                lemma_finish_k(code@, steps, pre2, 2nat, v);
                            }
                        }
                        return v;
                    }
                    None => {
                        proof {
                            lemma_advance_k(code@, steps, total, pre2, 2nat, State { regs: regs@, pc: pc as nat });
                            steps = (steps + 2) as nat;
                        }
                    }
                }
            }
            OP_MUL => {
                regs[dst] = regs[a as usize].wrapping_mul(regs[b as usize]);
                proof {
                    lemma_advance(code@, steps, total, pre1, State { regs: regs@, pc: pc as nat });
                    steps = (steps + 1) as nat;
                }
                // this handler's own tail dispatch site, two levels deep
                let ghost pre2 = State { regs: regs@, pc: pc as nat };
                match dispatch_two(code, &mut regs, &mut pc) {
                    Some(v) => {
                        proof {
                            if run_n(code@, pre2, 1nat) == Outcome::Done(v) {
                                lemma_finish_k(code@, steps, pre2, 1nat, v);
                            } else {
                                lemma_finish_k(code@, steps, pre2, 2nat, v);
                            }
                        }
                        return v;
                    }
                    None => {
                        proof {
                            lemma_advance_k(code@, steps, total, pre2, 2nat, State { regs: regs@, pc: pc as nat });
                            steps = (steps + 2) as nat;
                        }
                    }
                }
            }
            OP_DIV => {
                let d = regs[b as usize];
                regs[dst] = match regs[a as usize].checked_div(d) {
                    Some(q) => q,
                    None => if d == 0 { 0i64 } else { i64::MIN },
                };
                proof {
                    lemma_advance(code@, steps, total, pre1, State { regs: regs@, pc: pc as nat });
                    steps = (steps + 1) as nat;
                }
                // this handler's own tail dispatch site, two levels deep
                let ghost pre2 = State { regs: regs@, pc: pc as nat };
                match dispatch_two(code, &mut regs, &mut pc) {
                    Some(v) => {
                        proof {
                            if run_n(code@, pre2, 1nat) == Outcome::Done(v) {
                                lemma_finish_k(code@, steps, pre2, 1nat, v);
                            } else {
                                lemma_finish_k(code@, steps, pre2, 2nat, v);
                            }
                        }
                        return v;
                    }
                    None => {
                        proof {
                            lemma_advance_k(code@, steps, total, pre2, 2nat, State { regs: regs@, pc: pc as nat });
                            steps = (steps + 2) as nat;
                        }
                    }
                }
            }
            OP_MOD => {
                let d = regs[b as usize];
                regs[dst] = match regs[a as usize].checked_rem(d) {
                    Some(rem) => rem,
                    None => 0i64,
                };
                proof {
                    lemma_advance(code@, steps, total, pre1, State { regs: regs@, pc: pc as nat });
                    steps = (steps + 1) as nat;
                }
                // this handler's own tail dispatch site, two levels deep
                let ghost pre2 = State { regs: regs@, pc: pc as nat };
                match dispatch_two(code, &mut regs, &mut pc) {
                    Some(v) => {
                        proof {
                            if run_n(code@, pre2, 1nat) == Outcome::Done(v) {
                                lemma_finish_k(code@, steps, pre2, 1nat, v);
                            } else {
                                lemma_finish_k(code@, steps, pre2, 2nat, v);
                            }
                        }
                        return v;
                    }
                    None => {
                        proof {
                            lemma_advance_k(code@, steps, total, pre2, 2nat, State { regs: regs@, pc: pc as nat });
                            steps = (steps + 2) as nat;
                        }
                    }
                }
            }
            OP_INC => {
                regs[dst] = regs[dst].wrapping_add(1);
                proof {
                    lemma_advance(code@, steps, total, pre1, State { regs: regs@, pc: pc as nat });
                    steps = (steps + 1) as nat;
                }
                // this handler's own tail dispatch site, two levels deep
                let ghost pre2 = State { regs: regs@, pc: pc as nat };
                match dispatch_two(code, &mut regs, &mut pc) {
                    Some(v) => {
                        proof {
                            if run_n(code@, pre2, 1nat) == Outcome::Done(v) {
                                lemma_finish_k(code@, steps, pre2, 1nat, v);
                            } else {
                                lemma_finish_k(code@, steps, pre2, 2nat, v);
                            }
                        }
                        return v;
                    }
                    None => {
                        proof {
                            lemma_advance_k(code@, steps, total, pre2, 2nat, State { regs: regs@, pc: pc as nat });
                            steps = (steps + 2) as nat;
                        }
                    }
                }
            }
            OP_DEC => {
                regs[dst] = regs[dst].wrapping_sub(1);
                proof {
                    lemma_advance(code@, steps, total, pre1, State { regs: regs@, pc: pc as nat });
                    steps = (steps + 1) as nat;
                }
                // this handler's own tail dispatch site, two levels deep
                let ghost pre2 = State { regs: regs@, pc: pc as nat };
                match dispatch_two(code, &mut regs, &mut pc) {
                    Some(v) => {
                        proof {
                            if run_n(code@, pre2, 1nat) == Outcome::Done(v) {
                                lemma_finish_k(code@, steps, pre2, 1nat, v);
                            } else {
                                lemma_finish_k(code@, steps, pre2, 2nat, v);
                            }
                        }
                        return v;
                    }
                    None => {
                        proof {
                            lemma_advance_k(code@, steps, total, pre2, 2nat, State { regs: regs@, pc: pc as nat });
                            steps = (steps + 2) as nat;
                        }
                    }
                }
            }
            OP_JMPNZ => {
                if regs[dst] != 0 {
                    pc = imm16(a, b) as usize;
                }
                proof {
                    lemma_advance(code@, steps, total, pre1, State { regs: regs@, pc: pc as nat });
                    steps = (steps + 1) as nat;
                }
                // this handler's own tail dispatch site, two levels deep
                let ghost pre2 = State { regs: regs@, pc: pc as nat };
                match dispatch_two(code, &mut regs, &mut pc) {
                    Some(v) => {
                        proof {
                            if run_n(code@, pre2, 1nat) == Outcome::Done(v) {
                                lemma_finish_k(code@, steps, pre2, 1nat, v);
                            } else {
                                lemma_finish_k(code@, steps, pre2, 2nat, v);
                            }
                        }
                        return v;
                    }
                    None => {
                        proof {
                            lemma_advance_k(code@, steps, total, pre2, 2nat, State { regs: regs@, pc: pc as nat });
                            steps = (steps + 2) as nat;
                        }
                    }
                }
            }
            OP_MOV => {
                regs[dst] = regs[a as usize];
                proof {
                    lemma_advance(code@, steps, total, pre1, State { regs: regs@, pc: pc as nat });
                    steps = (steps + 1) as nat;
                }
                // this handler's own tail dispatch site, two levels deep
                let ghost pre2 = State { regs: regs@, pc: pc as nat };
                match dispatch_two(code, &mut regs, &mut pc) {
                    Some(v) => {
                        proof {
                            if run_n(code@, pre2, 1nat) == Outcome::Done(v) {
                                lemma_finish_k(code@, steps, pre2, 1nat, v);
                            } else {
                                lemma_finish_k(code@, steps, pre2, 2nat, v);
                            }
                        }
                        return v;
                    }
                    None => {
                        proof {
                            lemma_advance_k(code@, steps, total, pre2, 2nat, State { regs: regs@, pc: pc as nat });
                            steps = (steps + 2) as nat;
                        }
                    }
                }
            }
            _ => {
                proof {
                    lemma_finish(code@, steps, pre1, -1i64);
                }
                return -1;
            }
        }
    }
}

/// Does the opcode read its first operand byte as a register index?
fn op_uses_reg_a(op: u8) -> (r: bool)
    ensures
        r == uses_reg_a(op),
{
    op == OP_ADD || op == OP_SUB || op == OP_MUL || op == OP_DIV || op == OP_MOD || op == OP_MOV
}

/// Does the opcode read its second operand byte as a register index?
fn op_uses_reg_b(op: u8) -> (r: bool)
    ensures
        r == uses_reg_b(op),
{
    op == OP_ADD || op == OP_SUB || op == OP_MUL || op == OP_DIV || op == OP_MOD
}

/// The validated entry to the engines: decides whether a program upholds the
/// construction-time invariant the engines require — register operands in
/// bounds, jump targets inside the program, no instruction falling off its
/// end. The engines themselves skip these checks; a caller assembling a
/// program by hand can establish their precondition with this function.
pub fn is_valid_program(code: &[u32]) -> (b: bool)
    ensures
        b == valid_program(code@),
{
    if code.len() == 0 {
        return false;
    }
    let mut i: usize = 0;
    while i < code.len()
        invariant
            i <= code@.len(),
            forall|j: int|
                0 <= j < i ==> valid_instr(#[trigger] code@[j], j, code@.len() as int),
        decreases code@.len() - i,
    {
        let instr: u32 = code[i];
        let op: u8 = (instr & 0xff) as u8;
        proof {
            assert((instr >> 8) & 0xff < 256) by (bit_vector);
            assert((instr >> 16) & 0xff < 256) by (bit_vector);
            assert((instr >> 24) & 0xff < 256) by (bit_vector);
        }
        if op <= OP_MOV {
            let dst: usize = ((instr >> 8) & 0xff) as usize;
            let a: u8 = ((instr >> 16) & 0xff) as u8;
            let b: u8 = ((instr >> 24) & 0xff) as u8;
            if dst >= NREGS {
                return false;
            }
            if op_uses_reg_a(op) && a as usize >= NREGS {
                return false;
            }
            if op_uses_reg_b(op) && b as usize >= NREGS {
                return false;
            }
            if op == OP_JMPNZ && imm16(a, b) as usize >= code.len() {
                return false;
            }
            if op != OP_HALT && i + 1 >= code.len() {
                return false;
            }
        }
        i = i + 1;
    }
    true
}

} // verus!
