use bytecode::fault::Fault;
use bytecode::literal::Literal;
use bytecode::mode::Mode;
use bytecode::registers::{Register, Registers};
use bytecode::value::Value;

#[test]
fn load_before_define_faults() {
    let registers = Registers::new();
    assert_eq!(
        registers.load(&Register::new(0)).unwrap_err(),
        Fault::UndefinedRegister(0)
    );
}

#[test]
fn load_before_assign_faults() {
    let mut registers = Registers::new();
    registers.define(&Register::new(0)).unwrap();
    assert_eq!(
        registers.load(&Register::new(0)).unwrap_err(),
        Fault::UndefinedRegister(0)
    );
}

#[test]
fn assign_before_define_faults() {
    let mut registers = Registers::new();
    assert_eq!(
        registers
            .assign(&Register::new(4), Value::Literal(Literal::Boolean(true, Mode::Public)))
            .unwrap_err(),
        Fault::UndefinedRegister(4)
    );
}

#[test]
fn duplicate_define_faults() {
    let mut registers = Registers::new();
    registers.define(&Register::new(7)).unwrap();
    assert_eq!(
        registers.define(&Register::new(7)).unwrap_err(),
        Fault::DuplicateDefinition(7)
    );
}

#[test]
fn assign_then_load_returns_equal_value() {
    let mut registers = Registers::new();
    registers.define(&Register::new(3)).unwrap();
    let value = Value::Literal(Literal::I64(-42, Mode::Private));
    registers.assign(&Register::new(3), value).unwrap();
    assert_eq!(
        registers.load(&Register::new(3)).unwrap(),
        Value::Literal(Literal::I64(-42, Mode::Private))
    );
}

#[test]
fn reassign_overwrites() {
    let mut registers = Registers::new();
    registers.define(&Register::new(0)).unwrap();
    registers
        .assign(&Register::new(0), Value::Literal(Literal::U8(1, Mode::Constant)))
        .unwrap();
    registers
        .assign(&Register::new(0), Value::Literal(Literal::U8(2, Mode::Constant)))
        .unwrap();
    assert_eq!(
        registers.load(&Register::new(0)).unwrap(),
        Value::Literal(Literal::U8(2, Mode::Constant))
    );
}

#[test]
fn test_one() {
    let one = bytecode::field::Field::one();
    assert_eq!(1, one.to_value());
    assert_eq!(Mode::Constant, one.mode);
}
