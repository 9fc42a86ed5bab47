//! A small virtual machine for a language of eight one-character opcodes that act on
//! a tape of bytes.
//!
//! A run has two stages. [`inst::Inst::from_str`] resolves source text into a program:
//! it drops everything that is no opcode, checks that the loop delimiters nest, and
//! gives each of them the index at which execution goes on when it jumps.
//! [`computer::Computer::execute`] then runs the program on a tape. The machine does
//! no input or output of its own: it returns a [`computer::Signal`] whenever a
//! character is to be written or a line is to be read, and goes on when it is called
//! again.
//!
//! Both stages are specified by functions on sequences, [`inst::resolve`] and
//! [`computer::run`], and verified against them. [`nesting`] holds the mathematics of
//! nested delimiters, [`program`] what holds of every resolved program, and [`order`]
//! the sort that puts instructions in source order.

pub mod computer;
pub mod inst;
pub mod nesting;
pub mod order;
pub mod program;
