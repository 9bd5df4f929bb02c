//! A 16-bit word machine for intermediate code.
//!
//! `word` holds the constants and the arithmetic on words, `memory` the
//! image read as bytes and packed strings, `heap` the allocator, `format`
//! and `writef` the text of numbers and formats, `assembler` the loader
//! that turns source text into words of the image, `linking` what
//! assembly does to label references over a whole source, `machine` the
//! state of the machine and what an instruction does to it, and `report`
//! the messages for failures.
//!
//! The machine does no input or output itself: a host hands it source text
//! and input bytes, runs it, and takes what it has written.

pub mod word;
pub mod memory;
pub mod heap;
pub mod format;
pub mod writef;
pub mod assembler;
pub mod linking;
pub mod machine;
pub mod report;
