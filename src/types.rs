//! The data model of a Standard MIDI File and its byte encoding.
pub mod message;
pub mod event;
