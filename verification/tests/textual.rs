use bytecode::fault::Fault;
use bytecode::instruction::Instruction;
use bytecode::literal::Literal;
use bytecode::mode::Mode;
use bytecode::sub_wrapped::SubWrapped;

fn literal_round_trip(text: &str) {
    let literal = Literal::from_text(text).unwrap();
    assert_eq!(literal.to_text(), text);
}

#[test]
fn literal_text_round_trips() {
    literal_round_trip("true.constant");
    literal_round_trip("false.private");
    literal_round_trip("0u8.constant");
    literal_round_trip("255u8.public");
    literal_round_trip("-128i8.constant");
    literal_round_trip("127i8.private");
    literal_round_trip("-1i128.constant");
    literal_round_trip("-170141183460469231731687303715884105728i128.public");
    literal_round_trip("340282366920938463463374607431768211455u128.constant");
    literal_round_trip("2group.public");
    literal_round_trip("10field.private");
    literal_round_trip("\"hello\".constant");
    literal_round_trip("aleo1d5hg2z3ma00382pngntdp68e74zv54jdxy249qhaujhks9c72yrs33ddah.constant");
}

#[test]
fn literal_display_exact() {
    assert_eq!(Literal::U8(255, Mode::Constant).to_text(), "255u8.constant");
    assert_eq!(Literal::I16(-32768, Mode::Public).to_text(), "-32768i16.public");
    assert_eq!(Literal::Boolean(false, Mode::Private).to_text(), "false.private");
    assert_eq!(Literal::Field(10, Mode::Private).to_text(), "10field.private");
    assert_eq!(
        Literal::Str(b"hi there".to_vec(), Mode::Constant).to_text(),
        "\"hi there\".constant"
    );
}

#[test]
fn operation_text_round_trips() {
    for text in [
        "r0 r1 into r2",
        "r10 r234 into r5",
        "0u8.constant 1u8.constant into r2",
        "-9223372036854775808i64.private 1i64.private into r0",
        "\"hello\".constant \"world\".constant into r1",
    ] {
        let instruction = SubWrapped::from_text(text).unwrap();
        assert_eq!(instruction.to_text(), text);
    }
}

#[test]
fn instruction_text_round_trips() {
    for text in [
        "sub.w r0 r1 into r2",
        "sub.w 0u128.public 1u128.public into r3",
    ] {
        let instruction = Instruction::from_text(text).unwrap();
        assert_eq!(instruction.to_text(), text);
    }
}

#[test]
fn parse_rejects_bad_grammar() {
    for text in [
        "",
        "r0 r1 into",
        "r0 r1 r2",
        "r0  r1 into r2",
        "r0 r1 into r2 ",
        "sub.w r0 r1 into r2",
        "r0 r1 into x2",
        "01u8.constant r1 into r2",
        "-0i8.constant r1 into r2",
        "1u9.constant r1 into r2",
        "256u8.constant r1 into r2",
        "1u8.shared r1 into r2",
        "1u8 r1 into r2",
    ] {
        assert_eq!(SubWrapped::from_text(text).unwrap_err(), Fault::Parse);
    }
}

#[test]
fn instruction_parse_requires_opcode() {
    assert_eq!(Instruction::from_text("r0 r1 into r2").unwrap_err(), Fault::Parse);
    assert_eq!(Instruction::from_text("add r0 r1 into r2").unwrap_err(), Fault::Parse);
}

#[test]
fn literal_parse_rejects_bad_values() {
    for text in [
        "128i8.constant",
        "-129i8.constant",
        "truex.constant",
        "\"unterminated.constant",
        "aleo1short.constant",
        "-2field.constant",
        "10field.constants",
        "10field",
    ] {
        assert_eq!(Literal::from_text(text).unwrap_err(), Fault::Parse);
    }
}
