use vm_dispatch::isa::{encode, OP_ADD, OP_DEC, OP_DIV, OP_HALT, OP_INC, OP_JMPNZ, OP_LOADI,
    OP_MOD, OP_MOV, OP_MUL, OP_SUB};
use vm_dispatch::engine::{run_central, run_threaded, run_threaded_deep};
use vm_dispatch::program::make_program;

/// Runs one program through all three engines and checks they agree.
fn run_all(code: &[u32]) -> i64 {
    let r1 = run_central(code);
    let r2 = run_threaded(code);
    let r3 = run_threaded_deep(code);
    assert_eq!(r1, r2);
    assert_eq!(r1, r3);
    r1
}

#[test]
fn workload_matches_closed_form_for_1000() {
    // N(N+1)(2N+1)/6 - N(N+1)/2 + N for N = 1000
    assert_eq!(run_all(&make_program(1000)), 333_334_000);
}

#[test]
fn workload_returns_zero_for_parameter_zero() {
    // the counter is already 0 before the first jump-check, so the guard
    // never triggers, no loop iteration runs, and the accumulator stays 0
    assert_eq!(run_all(&make_program(0)), 0);
}

#[test]
fn workload_matches_closed_form_for_small_parameters() {
    assert_eq!(run_all(&make_program(1)), 1);
    assert_eq!(run_all(&make_program(2)), 4);
    assert_eq!(run_all(&make_program(3)), 11);
    let n: i64 = 100;
    let expected = n * (n + 1) * (2 * n + 1) / 6 - n * (n + 1) / 2 + n;
    assert_eq!(run_all(&make_program(100)), expected);
}

#[test]
fn workload_matches_closed_form_for_largest_parameter() {
    let n: i64 = 65535;
    let expected = n * (n + 1) * (2 * n + 1) / 6 - n * (n + 1) / 2 + n;
    assert_eq!(run_all(&make_program(65535)), expected);
}

#[test]
fn halt_returns_its_register() {
    let code = [
        encode(OP_LOADI, 7, 0x2a, 0), // r7 = 42
        encode(OP_HALT, 7, 0, 0),
    ];
    assert_eq!(run_all(&code), 42);
}

#[test]
fn division_by_zero_yields_zero() {
    // r2 = r0 / r1 with r1 = 0 must yield 0, whatever r0 holds
    let code = [
        encode(OP_LOADI, 0, 0x2a, 0), // r0 = 42
        encode(OP_DIV, 2, 0, 1),      // r2 = r0 / r1, r1 = 0
        encode(OP_HALT, 2, 0, 0),
    ];
    assert_eq!(run_all(&code), 0);
}

#[test]
fn modulo_by_zero_yields_zero() {
    // r3 = r0 % r1 with r1 = 0 must yield 0, whatever r0 holds
    let code = [
        encode(OP_LOADI, 0, 0x2a, 0), // r0 = 42
        encode(OP_MOD, 3, 0, 1),      // r3 = r0 % r1, r1 = 0
        encode(OP_HALT, 3, 0, 0),
    ];
    assert_eq!(run_all(&code), 0);
}

#[test]
fn division_truncates_toward_zero() {
    let code = [
        encode(OP_LOADI, 1, 7, 0),  // r1 = 7
        encode(OP_SUB, 2, 0, 1),    // r2 = 0 - 7 = -7
        encode(OP_LOADI, 3, 2, 0),  // r3 = 2
        encode(OP_DIV, 4, 2, 3),    // r4 = -7 / 2
        encode(OP_HALT, 4, 0, 0),
    ];
    assert_eq!(run_all(&code), -3);
}

#[test]
fn remainder_keeps_the_dividend_sign() {
    let code = [
        encode(OP_LOADI, 1, 7, 0),  // r1 = 7
        encode(OP_SUB, 2, 0, 1),    // r2 = -7
        encode(OP_LOADI, 3, 2, 0),  // r3 = 2
        encode(OP_MOD, 4, 2, 3),    // r4 = -7 % 2
        encode(OP_HALT, 4, 0, 0),
    ];
    assert_eq!(run_all(&code), -1);
}

// Builds 2^62 into r3 through repeated multiplication, then pushes the sum
// r3 + r3 = 2^63 over the signed boundary.
fn boundary_prelude() -> Vec<u32> {
    vec![
        encode(OP_LOADI, 0, 0, 1),    // r0 = 256
        encode(OP_MUL, 0, 0, 0),      // r0 = 65536
        encode(OP_LOADI, 1, 0, 0x80), // r1 = 32768
        encode(OP_MUL, 2, 0, 1),      // r2 = 2^31
        encode(OP_MUL, 3, 2, 2),      // r3 = 2^62
        encode(OP_ADD, 4, 3, 3),      // r4 = 2^63, wraps to i64::MIN
    ]
}

#[test]
fn add_wraps_at_the_signed_boundary() {
    let mut code = boundary_prelude();
    code.push(encode(OP_HALT, 4, 0, 0));
    assert_eq!(run_all(&code), i64::MIN);
}

#[test]
fn dec_wraps_from_minimum_to_maximum() {
    let mut code = boundary_prelude();
    code.push(encode(OP_DEC, 4, 0, 0)); // i64::MIN - 1 wraps to i64::MAX
    code.push(encode(OP_HALT, 4, 0, 0));
    assert_eq!(run_all(&code), i64::MAX);
}

#[test]
fn inc_wraps_from_maximum_to_minimum() {
    let mut code = boundary_prelude();
    code.push(encode(OP_DEC, 4, 0, 0)); // r4 = i64::MAX
    code.push(encode(OP_INC, 4, 0, 0)); // max value + 1 wraps to min value
    code.push(encode(OP_HALT, 4, 0, 0));
    assert_eq!(run_all(&code), i64::MIN);
}

#[test]
fn sub_wraps_past_the_signed_boundary() {
    let mut code = boundary_prelude();
    code.push(encode(OP_SUB, 5, 3, 4)); // 2^62 - i64::MIN = 3*2^62, wraps to -2^62
    code.push(encode(OP_HALT, 5, 0, 0));
    assert_eq!(run_all(&code), -4_611_686_018_427_387_904);
}

#[test]
fn mul_wraps_on_overflow() {
    let code = [
        encode(OP_LOADI, 0, 0xff, 0xff), // r0 = 65535
        encode(OP_MUL, 1, 0, 0),         // r1 = 65535^2
        encode(OP_MUL, 2, 1, 1),         // r2 = 65535^4 mod 2^64
        encode(OP_HALT, 2, 0, 0),
    ];
    assert_eq!(run_all(&code), -1_125_874_137_300_991);
}

#[test]
fn jmpnz_target_is_absolute_not_relative() {
    // the jump at position 1 names position 3; a relative reading would
    // land elsewhere and execute the skipped load
    let code = [
        encode(OP_LOADI, 0, 1, 0),    // r0 = 1
        encode(OP_JMPNZ, 0, 3, 0),    // r0 != 0: jump to position 3
        encode(OP_LOADI, 1, 0x63, 0), // skipped: r1 = 99
        encode(OP_HALT, 1, 0, 0),     // r1 still 0
    ];
    assert_eq!(run_all(&code), 0);
}

#[test]
fn jmpnz_with_zero_register_falls_through() {
    let code = [
        encode(OP_JMPNZ, 0, 3, 0),    // r0 == 0: no jump
        encode(OP_LOADI, 1, 0x63, 0), // r1 = 99
        encode(OP_HALT, 1, 0, 0),
        encode(OP_HALT, 0, 0, 0),     // jump target, never reached
    ];
    assert_eq!(run_all(&code), 99);
}

#[test]
fn jmpnz_to_zero_reruns_the_first_instruction() {
    // first pass: r1 was 0, so r6 = 1 and the jump returns to position 0;
    // second pass: r6 = 0 and control falls through to the halt
    let code = [
        encode(OP_LOADI, 5, 1, 0), // r5 = 1 (re-executed after the jump)
        encode(OP_SUB, 6, 5, 1),   // r6 = 1 - r1
        encode(OP_INC, 1, 0, 0),   // r1 += 1
        encode(OP_JMPNZ, 6, 0, 0), // if r6 != 0 goto 0
        encode(OP_HALT, 1, 0, 0),
    ];
    assert_eq!(run_all(&code), 2);
}

#[test]
fn unrecognized_opcode_returns_sentinel() {
    let code = [
        encode(OP_LOADI, 0, 5, 0),
        encode(11, 0, 0, 0),
        encode(OP_HALT, 0, 0, 0),
    ];
    assert_eq!(run_all(&code), -1);
}

#[test]
fn unrecognized_opcode_terminates_anywhere() {
    // at the very first instruction
    assert_eq!(run_all(&[encode(201, 3, 7, 9)]), -1);
    // reached through a jump, with registers already written
    let code = [
        encode(OP_LOADI, 0, 1, 0),
        encode(OP_JMPNZ, 0, 3, 0),
        encode(OP_HALT, 0, 0, 0),
        encode(42, 0, 0, 0),
    ];
    assert_eq!(run_all(&code), -1);
}

#[test]
fn mov_copies_between_registers() {
    let code = [
        encode(OP_LOADI, 3, 0x15, 0), // r3 = 21
        encode(OP_MOV, 9, 3, 0),      // r9 = r3
        encode(OP_ADD, 9, 9, 3),      // r9 = 42
        encode(OP_HALT, 9, 0, 0),
    ];
    assert_eq!(run_all(&code), 42);
}

#[test]
fn engines_agree_on_every_scenario_program() {
    // run_all already cross-checks; this exercises a mixed program touching
    // every non-terminal opcode once more
    let code = [
        encode(OP_LOADI, 0, 9, 0),  // r0 = 9
        encode(OP_LOADI, 1, 4, 0),  // r1 = 4
        encode(OP_ADD, 2, 0, 1),    // r2 = 13
        encode(OP_SUB, 3, 0, 1),    // r3 = 5
        encode(OP_MUL, 4, 2, 3),    // r4 = 65
        encode(OP_DIV, 5, 4, 1),    // r5 = 16
        encode(OP_MOD, 6, 4, 1),    // r6 = 1
        encode(OP_INC, 5, 0, 0),    // r5 = 17
        encode(OP_DEC, 4, 0, 0),    // r4 = 64
        encode(OP_MOV, 7, 4, 0),    // r7 = 64
        encode(OP_ADD, 7, 7, 5),    // r7 = 81
        encode(OP_ADD, 7, 7, 6),    // r7 = 82
        encode(OP_HALT, 7, 0, 0),
    ];
    assert_eq!(run_all(&code), 82);
}
