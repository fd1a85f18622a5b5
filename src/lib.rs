//! Stack usage of functions, read from the `.stack_sizes` section that LLVM
//! emits into ELF files, correlated with the symbol table.

pub mod error;
pub mod records;
pub mod symbols;
pub mod function;
pub mod executable;
pub mod elf;
pub mod object;
pub mod order;
pub mod layout;
