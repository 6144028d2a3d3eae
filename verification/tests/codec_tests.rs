use vm_dispatch::isa::{encode, imm16, OP_ADD, OP_DEC, OP_HALT, OP_JMPNZ, OP_LOADI, OP_MOV,
    OP_MUL, OP_SUB};
use vm_dispatch::engine::is_valid_program;
use vm_dispatch::program::make_program;

#[test]
fn encode_packs_fields_into_expected_bits() {
    assert_eq!(encode(1, 2, 3, 4), 0x0403_0201);
    assert_eq!(encode(0, 0, 0, 0), 0);
    assert_eq!(encode(0xff, 0xff, 0xff, 0xff), 0xffff_ffff);
    assert_eq!(encode(10, 15, 0x34, 0x12), 0x1234_0f0a);
}

#[test]
fn imm16_is_little_endian() {
    assert_eq!(imm16(0x34, 0x12), 0x1234);
    assert_eq!(imm16(0, 0), 0);
    assert_eq!(imm16(0xff, 0xff), 65535);
    assert_eq!(imm16(3, 0), 3);
}

#[test]
fn imm16_recovers_encoded_operand_bytes() {
    // round trip: split a 16-bit value into the two operand bytes of an
    // instruction word and reassemble it
    for &n in &[0u16, 1, 255, 256, 1000, 4660, 65535] {
        let lo = (n & 0xff) as u8;
        let hi = (n >> 8) as u8;
        let w = encode(OP_LOADI, 0, lo, hi);
        let a = ((w >> 16) & 0xff) as u8;
        let b = ((w >> 24) & 0xff) as u8;
        assert_eq!(imm16(a, b), n as i64);
    }
}

#[test]
fn make_program_emits_the_documented_fixture() {
    let code = make_program(1000);
    let expected = vec![
        encode(OP_LOADI, 0, 0xe8, 0x03), // r0 = 1000
        encode(OP_LOADI, 1, 0, 0),
        encode(OP_LOADI, 2, 1, 0),
        encode(OP_JMPNZ, 0, 5, 0), // guard: enter the loop only if r0 != 0
        encode(OP_HALT, 1, 0, 0),
        encode(OP_MOV, 3, 0, 0),
        encode(OP_MUL, 4, 3, 3),
        encode(OP_SUB, 5, 4, 3),
        encode(OP_ADD, 5, 5, 2),
        encode(OP_ADD, 1, 1, 5),
        encode(OP_DEC, 0, 0, 0),
        encode(OP_JMPNZ, 0, 5, 0),
        encode(OP_HALT, 1, 0, 0),
    ];
    assert_eq!(code, expected);
}

#[test]
fn workload_program_is_valid() {
    assert!(is_valid_program(&make_program(0)));
    assert!(is_valid_program(&make_program(1)));
    assert!(is_valid_program(&make_program(1000)));
    assert!(is_valid_program(&make_program(65535)));
}

#[test]
fn empty_program_is_invalid() {
    assert!(!is_valid_program(&[]));
}

#[test]
fn out_of_range_destination_register_is_invalid() {
    assert!(!is_valid_program(&[encode(OP_HALT, 16, 0, 0)]));
}

#[test]
fn out_of_range_operand_register_is_invalid() {
    assert!(!is_valid_program(&[encode(OP_ADD, 0, 16, 0), encode(OP_HALT, 0, 0, 0)]));
    assert!(!is_valid_program(&[encode(OP_ADD, 0, 0, 16), encode(OP_HALT, 0, 0, 0)]));
}

#[test]
fn jump_target_outside_program_is_invalid() {
    assert!(!is_valid_program(&[encode(OP_JMPNZ, 0, 5, 0), encode(OP_HALT, 0, 0, 0)]));
}

#[test]
fn non_terminal_last_instruction_is_invalid() {
    assert!(!is_valid_program(&[encode(OP_LOADI, 0, 1, 0)]));
}

#[test]
fn single_halt_is_valid() {
    assert!(is_valid_program(&[encode(OP_HALT, 0, 0, 0)]));
}

#[test]
fn unrecognized_opcode_is_terminal_and_needs_no_bounds() {
    // opcode 11 is outside the enumeration: it halts execution by itself,
    // so a program may end on it, whatever its operand bytes say
    assert!(is_valid_program(&[encode(11, 255, 255, 255)]));
}
