//! Reading a Standard MIDI File out of a byte buffer.
pub mod filerw;
pub mod parser;
pub mod roundtrip;
