//! A generator of test data for coding problems: a script language of
//! variables, its compiler to TD assembly, and the virtual machine that runs
//! TD assembly.

pub mod text;
pub mod number;
pub mod variable;
pub mod error;
pub mod td_assembly;
pub mod attribute_table;
pub mod parser;
pub mod compiler;
pub mod buffer_reader;
pub mod virtual_machine;
pub mod range_join;
pub mod random;
pub mod fixed;
