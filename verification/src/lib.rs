//! Scanning of mail-server log files for remote-access entries.
//!
//! A log file opens with a header block, lines of the shape `Key: Value` that
//! the first empty line closes; its body follows. Each body line that is a
//! remote-access entry gives the address of the remote peer. The accesses of
//! all files are counted by address, and the addresses whose count is above a
//! threshold are shown.

pub mod access;
pub mod counts;
pub mod header;
pub mod keyed;
pub mod options;
pub mod parser;
pub mod sequences;
pub mod text;
