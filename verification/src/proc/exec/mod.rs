//! Execution of programs.
pub mod commit;
pub mod elf;
pub mod exec_ctx;
pub mod image;
pub mod plain;
pub mod program;
pub mod raw;
pub mod region;
pub mod shebang;
pub mod stack;
pub mod text;
