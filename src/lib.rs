//! Reading and writing Standard MIDI Files: the variable-length quantity
//! codec, the event model with its exact byte encoding, a running-status
//! event decoder and chunk parser, and a k-way merge of tracks.
pub mod types;
pub mod file;
