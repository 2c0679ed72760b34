//! Protocol library for loading and flashing programs on a Kendryte K210.
//!
//! The library holds everything that is decided or computed: the SLIP frames
//! that travel over the serial line, the command packets of the boot ROM and
//! of the in-system programmer, the course of each command, the steps that
//! load or flash an image, and the rules of the terminal. It performs no
//! input or output of its own.
//!
//! ELF files are read by a crate that reads their headers in place, in the
//! byte order of the host and at the alignment of the buffer. What
//! [`load::load_image`] and [`session::Session::advance`] state of ELF files
//! therefore holds on little-endian hosts, with an allocator that places the
//! buffer of a `Vec<u8>` at a multiple of eight.
pub mod buffer;
pub mod elf;
pub mod error;
pub mod flash;
pub mod load;
pub mod packet;
pub mod rom_cmd;
pub mod session;
pub mod slip;
pub mod steps;
pub mod terminal;
