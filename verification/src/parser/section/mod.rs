//! Readers of the sections that the linker uses.
pub mod bss;
pub mod dynamic;
pub mod progbits;
pub mod rela_text;
pub mod strtab;
pub mod symtab;
