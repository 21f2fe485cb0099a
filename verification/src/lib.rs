#![allow(non_snake_case)]
#![allow(non_camel_case_types)]
#![allow(non_upper_case_globals)]

pub mod elf64;
pub mod codec;
pub mod names;
pub mod parser;
pub mod linker;
