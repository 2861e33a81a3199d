//! Instruction-execution core of a register-based virtual machine.
//!
//! Programs are sequences of typed instructions over a register file. Each
//! instruction loads its operands, enforces the strict type discipline between
//! scalar literals and composite values, computes its result, and assigns it
//! to a destination register. Ill-typed programs fail fast with a descriptive
//! fault; wraparound in the wrapping-arithmetic family is the defined result,
//! never an error.

pub mod codec;
pub mod fault;
pub mod field;
pub mod instruction;
pub mod literal;
pub mod mode;
pub mod operand;
pub mod parse;
pub mod registers;
pub mod sub_wrapped;
pub mod text;
pub mod value;
