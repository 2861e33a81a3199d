use bytecode::fault::Fault;
use bytecode::literal::Literal;
use bytecode::mode::Mode;
use bytecode::registers::{Register, Registers};
use bytecode::sub_wrapped::SubWrapped;
use bytecode::value::{Identifier, Value};

fn eval_pair(first: &str, second: &str) -> Result<Value, Fault> {
    let mut registers = Registers::new();
    registers.define(&Register::new(0)).unwrap();
    registers.define(&Register::new(1)).unwrap();
    registers.define(&Register::new(2)).unwrap();
    registers
        .assign(&Register::new(0), Value::Literal(Literal::from_text(first).unwrap()))
        .unwrap();
    registers
        .assign(&Register::new(1), Value::Literal(Literal::from_text(second).unwrap()))
        .unwrap();
    let instruction = SubWrapped::from_text("r0 r1 into r2").unwrap();
    instruction.evaluate(&mut registers)?;
    registers.load(&Register::new(2))
}

fn expect_wrap(first: &str, second: &str, expected: &str) {
    let out = eval_pair(first, second).unwrap();
    let want = Value::Literal(Literal::from_text(expected).unwrap());
    assert_eq!(out, want);
}

#[test]
fn wraparound_i8() {
    expect_wrap("-128i8.constant", "1i8.constant", "127i8.constant");
}

#[test]
fn wraparound_i16() {
    expect_wrap("-32768i16.constant", "1i16.constant", "32767i16.constant");
}

#[test]
fn wraparound_i32() {
    expect_wrap("-2147483648i32.constant", "1i32.constant", "2147483647i32.constant");
}

#[test]
fn wraparound_i64() {
    expect_wrap(
        "-9223372036854775808i64.constant",
        "1i64.constant",
        "9223372036854775807i64.constant",
    );
}

#[test]
fn wraparound_i128() {
    expect_wrap(
        "-170141183460469231731687303715884105728i128.constant",
        "1i128.constant",
        "170141183460469231731687303715884105727i128.constant",
    );
}

#[test]
fn wraparound_u8() {
    expect_wrap("0u8.constant", "1u8.constant", "255u8.constant");
}

#[test]
fn wraparound_u16() {
    expect_wrap("0u16.constant", "1u16.constant", "65535u16.constant");
}

#[test]
fn wraparound_u32() {
    expect_wrap("0u32.constant", "1u32.constant", "4294967295u32.constant");
}

#[test]
fn wraparound_u64() {
    expect_wrap("0u64.constant", "1u64.constant", "18446744073709551615u64.constant");
}

#[test]
fn wraparound_u128() {
    expect_wrap(
        "0u128.constant",
        "1u128.constant",
        "340282366920938463463374607431768211455u128.constant",
    );
}

#[test]
fn wraparound_public_and_private_modes() {
    expect_wrap("0u8.public", "1u8.public", "255u8.public");
    expect_wrap("0u8.private", "1u8.private", "255u8.private");
    // mixed modes: private wins over public, public over constant
    expect_wrap("0u8.constant", "1u8.public", "255u8.public");
    expect_wrap("0u8.public", "1u8.private", "255u8.private");
}

#[test]
fn address_halts() {
    let a = "aleo1d5hg2z3ma00382pngntdp68e74zv54jdxy249qhaujhks9c72yrs33ddah.constant";
    assert_eq!(eval_pair(a, a).unwrap_err(), Fault::InvalidOperandType);
}

#[test]
fn boolean_halts() {
    assert_eq!(
        eval_pair("true.constant", "true.constant").unwrap_err(),
        Fault::InvalidOperandType
    );
}

#[test]
fn string_halts() {
    assert_eq!(
        eval_pair("\"hello\".constant", "\"world\".constant").unwrap_err(),
        Fault::InvalidOperandType
    );
}

#[test]
fn mismatched_widths_halt() {
    assert_eq!(
        eval_pair("1u8.constant", "1u16.constant").unwrap_err(),
        Fault::InvalidOperandType
    );
    assert_eq!(
        eval_pair("1i8.constant", "1u8.constant").unwrap_err(),
        Fault::InvalidOperandType
    );
    assert_eq!(
        eval_pair("2field.public", "10field.private").unwrap_err(),
        Fault::InvalidOperandType
    );
}

#[test]
fn test_composite_halts() {
    let first = Value::Composite(
        Identifier::new(b"message".to_vec()).unwrap(),
        vec![
            Literal::from_text("2group.public").unwrap(),
            Literal::from_text("10field.private").unwrap(),
        ],
    );
    let second = Value::Composite(
        Identifier::new(b"message".to_vec()).unwrap(),
        vec![
            Literal::from_text("2group.public").unwrap(),
            Literal::from_text("10field.private").unwrap(),
        ],
    );

    let mut registers = Registers::new();
    registers.define(&Register::new(0)).unwrap();
    registers.define(&Register::new(1)).unwrap();
    registers.define(&Register::new(2)).unwrap();
    registers.assign(&Register::new(0), first).unwrap();
    registers.assign(&Register::new(1), second).unwrap();

    let fault = SubWrapped::from_text("r0 r1 into r2")
        .unwrap()
        .evaluate(&mut registers)
        .unwrap_err();
    assert_eq!(
        fault,
        Fault::CompositeOperand(Identifier::new(b"message".to_vec()).unwrap())
    );
    assert_eq!(fault.message(), "message is not a literal");
    // the faulting evaluation must leave the destination with no partial write
    assert_eq!(
        registers.load(&Register::new(2)).unwrap_err(),
        Fault::UndefinedRegister(2)
    );
}

#[test]
fn end_to_end_scenario() {
    let mut registers = Registers::new();
    registers.define(&Register::new(0)).unwrap();
    registers.define(&Register::new(1)).unwrap();
    registers.define(&Register::new(2)).unwrap();
    registers
        .assign(&Register::new(0), Value::Literal(Literal::from_text("0u8.constant").unwrap()))
        .unwrap();
    registers
        .assign(&Register::new(1), Value::Literal(Literal::from_text("1u8.constant").unwrap()))
        .unwrap();

    let instruction = bytecode::instruction::Instruction::from_text("sub.w r0 r1 into r2").unwrap();
    instruction.evaluate(&mut registers).unwrap();

    assert_eq!(
        registers.load(&Register::new(2)).unwrap(),
        Value::Literal(Literal::U8(255, Mode::Constant))
    );
}

#[test]
fn undefined_destination_halts() {
    let mut registers = Registers::new();
    registers.define(&Register::new(0)).unwrap();
    registers.define(&Register::new(1)).unwrap();
    registers
        .assign(&Register::new(0), Value::Literal(Literal::U8(3, Mode::Constant)))
        .unwrap();
    registers
        .assign(&Register::new(1), Value::Literal(Literal::U8(1, Mode::Constant)))
        .unwrap();
    let fault = SubWrapped::from_text("r0 r1 into r2")
        .unwrap()
        .evaluate(&mut registers)
        .unwrap_err();
    assert_eq!(fault, Fault::UndefinedRegister(2));
}

#[test]
fn inline_literal_operands() {
    let mut registers = Registers::new();
    registers.define(&Register::new(0)).unwrap();
    let instruction =
        SubWrapped::from_text("5u16.constant 7u16.constant into r0").unwrap();
    instruction.evaluate(&mut registers).unwrap();
    assert_eq!(
        registers.load(&Register::new(0)).unwrap(),
        Value::Literal(Literal::U16(65534, Mode::Constant))
    );
}

#[test]
fn fault_messages() {
    assert_eq!(Fault::InvalidOperandType.message(), "Invalid 'sub.w' instruction");
    assert_eq!(Fault::UndefinedRegister(12).message(), "register r12 is not defined");
    assert_eq!(Fault::DuplicateDefinition(0).message(), "register r0 is already defined");
    assert_eq!(Fault::Parse.message(), "invalid instruction text");
    assert_eq!(Fault::Decode.message(), "invalid instruction bytes");
}

#[test]
fn operands_and_destination() {
    let instruction = SubWrapped::from_text("r0 r1 into r2").unwrap();
    let operands = instruction.operands();
    assert_eq!(operands.len(), 2);
    assert_eq!(
        operands[0],
        bytecode::operand::Operand::Register(Register::new(0))
    );
    assert_eq!(
        operands[1],
        bytecode::operand::Operand::Register(Register::new(1))
    );
    assert_eq!(instruction.destination().locator, 2);
    assert_eq!(SubWrapped::opcode(), "sub.w");
}
