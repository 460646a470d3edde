//! The plain pattern language, where `.` is an ordinary character, and its
//! code generator.
pub mod parser;
pub mod codegen;
pub mod semantics;
