use bytecode::fault::Fault;
use bytecode::instruction::Instruction;
use bytecode::sub_wrapped::SubWrapped;

#[test]
fn operation_bytes_round_trips() {
    for text in [
        "r0 r1 into r2",
        "0u8.constant 1u8.constant into r2",
        "-170141183460469231731687303715884105728i128.private 1i128.private into r7",
        "\"hello\".constant r1 into r2",
        "aleo1d5hg2z3ma00382pngntdp68e74zv54jdxy249qhaujhks9c72yrs33ddah.public r1 into r2",
        "2group.public 10field.private into r0",
    ] {
        let instruction = SubWrapped::from_text(text).unwrap();
        let bytes = instruction.to_bytes_le();
        let decoded = SubWrapped::from_bytes_le(&bytes).unwrap();
        assert_eq!(decoded, instruction);
    }
}

#[test]
fn instruction_bytes_round_trips() {
    let instruction = Instruction::from_text("sub.w r0 1u64.public into r2").unwrap();
    let bytes = instruction.to_bytes_le();
    assert_eq!(bytes[0], 0); // the envelope's opcode discriminant
    let decoded = Instruction::from_bytes_le(&bytes).unwrap();
    assert_eq!(decoded, instruction);
}

#[test]
fn operation_encoding_layout() {
    // r0 r1 into r2: two register operands (tag 0, eight bytes each), then
    // the destination register without a tag
    let instruction = SubWrapped::from_text("r0 r1 into r2").unwrap();
    let bytes = instruction.to_bytes_le();
    let mut expected = vec![0u8; 0];
    expected.push(0);
    expected.extend_from_slice(&[0, 0, 0, 0, 0, 0, 0, 0]);
    expected.push(0);
    expected.extend_from_slice(&[1, 0, 0, 0, 0, 0, 0, 0]);
    expected.extend_from_slice(&[2, 0, 0, 0, 0, 0, 0, 0]);
    assert_eq!(bytes, expected);
}

#[test]
fn decode_rejects_bad_bytes() {
    assert_eq!(
        SubWrapped::from_bytes_le(&vec![]).unwrap_err(),
        Fault::Decode
    );
    // a truncated operand
    assert_eq!(
        SubWrapped::from_bytes_le(&vec![0, 1, 2]).unwrap_err(),
        Fault::Decode
    );
    // a bad operand tag
    assert_eq!(
        SubWrapped::from_bytes_le(&vec![9; 25]).unwrap_err(),
        Fault::Decode
    );
    // trailing garbage after a full operation
    let mut bytes = SubWrapped::from_text("r0 r1 into r2").unwrap().to_bytes_le();
    bytes.push(0);
    assert_eq!(SubWrapped::from_bytes_le(&bytes).unwrap_err(), Fault::Decode);
}

#[test]
fn instruction_decode_requires_tag() {
    let bytes = SubWrapped::from_text("r0 r1 into r2").unwrap().to_bytes_le();
    // the payload without the envelope tag is not an instruction encoding
    assert_eq!(Instruction::from_bytes_le(&bytes).unwrap_err(), Fault::Decode);
}
