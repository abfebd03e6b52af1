use smfr::file::filerw::SmfReader;
use smfr::file::parser::SmfParser;
use smfr::types::event::{EventPair, HeaderChunk, MidiChunk, MidiEvent, TrackChunk, SMF};
use smfr::types::message::{
    ChannelModeMessage, ChannelVoiceMessage, MetaEvent, MidiChannelMessage, SmfElement, SysExEvent,
};

fn voice(m: ChannelVoiceMessage) -> MidiEvent {
    MidiEvent::MidiChannelMessage(MidiChannelMessage::ChannelVoiceMessage { message: m })
}

fn mode(m: ChannelModeMessage) -> MidiEvent {
    MidiEvent::MidiChannelMessage(MidiChannelMessage::ChannelModeMessage { message: m })
}

fn note(key: u8) -> MidiEvent {
    voice(ChannelVoiceMessage::NoteOn { channel: 0, key, vel: 0x40 })
}

fn end() -> MidiEvent {
    MidiEvent::MetaEvent(MetaEvent::EndOfTrack)
}

fn track(pairs: &[(u32, MidiEvent)]) -> TrackChunk {
    TrackChunk {
        length: 0,
        events: pairs.iter().map(|(t, e)| EventPair::new(*t, e.clone())).collect(),
    }
}

fn decode_pair(bytes: &[u8]) -> EventPair {
    let mut parser = SmfParser::new(SmfReader::new(bytes.to_vec()));
    parser.parse_mtrk_event().unwrap()
}

#[test]
fn status_bytes_add_the_channel() {
    let m = ChannelVoiceMessage::PitchBend { channel: 15, lsb: 0, msb: 0x40 };
    assert_eq!(m.status_byte(), 0xEF);
    assert_eq!(m.channel(), 15);
    let m = ChannelVoiceMessage::NoteOff { channel: 0, key: 1, vel: 2 };
    assert_eq!(m.status_byte(), 0x80);
    let m = ChannelModeMessage::AllNotesOff { channel: 9 };
    assert_eq!(m.status_byte(), 0xB9);
    assert_eq!(m.channel(), 9);
    let m = MidiChannelMessage::ChannelModeMessage { message: ChannelModeMessage::OmniOn { channel: 4 } };
    assert_eq!(m.channel(), 4);
}

#[test]
fn channel_message_encodings() {
    assert_eq!(note(0x3C).raw(), vec![0x90, 0x3C, 0x40]);
    assert_eq!(voice(ChannelVoiceMessage::ProgramChange { channel: 2, program: 7 }).raw(), vec![0xC2, 0x07]);
    assert_eq!(voice(ChannelVoiceMessage::ChannelKeyPressure { channel: 3, vel: 9 }).raw(), vec![0xD3, 0x09]);
    assert_eq!(
        voice(ChannelVoiceMessage::PitchBend { channel: 1, lsb: 0x11, msb: 0x22 }).raw(),
        vec![0xE1, 0x11, 0x22]
    );
    assert_eq!(mode(ChannelModeMessage::AllSoundOff { channel: 1 }).raw(), vec![0xB1, 0x78, 0x00]);
    assert_eq!(mode(ChannelModeMessage::LocalControl { channel: 0, value: 0x7F }).raw(), vec![0xB0, 0x7A, 0x7F]);
    assert_eq!(mode(ChannelModeMessage::MonoMode { channel: 2, channels: 3 }).raw(), vec![0xB2, 0x7E, 0x03]);
    assert_eq!(mode(ChannelModeMessage::PolyMode { channel: 2 }).raw(), vec![0xB2, 0x7F, 0x00]);
}

#[test]
fn meta_and_sysex_encodings() {
    assert_eq!(MetaEvent::SequenceNumber { number: 0x0102 }.raw(), vec![0xFF, 0x00, 0x02, 0x01, 0x02]);
    assert_eq!(MetaEvent::SetTempo { tempo: 500000 }.raw(), vec![0xFF, 0x51, 0x03, 0x07, 0xA1, 0x20]);
    assert_eq!(
        MetaEvent::SMPTEOffset { smpte: 0x01020304, frame: 5 }.raw(),
        vec![0xFF, 0x54, 0x05, 0x01, 0x02, 0x03, 0x04, 0x05]
    );
    assert_eq!(MetaEvent::EndOfTrack.raw(), vec![0xFF, 0x2F, 0x00]);
    assert_eq!(MetaEvent::MIDIChannelPrefix { channel: 3 }.raw(), vec![0xFF, 0x20, 0x01, 0x03]);
    assert_eq!(
        MetaEvent::TimeSignature { numerator: 6, denominator: 3, clocks: 24, notes: 8 }.raw(),
        vec![0xFF, 0x58, 0x04, 6, 3, 24, 8]
    );
    assert_eq!(MetaEvent::KeySignature { sf: 0xFD, minor: 0 }.raw(), vec![0xFF, 0x59, 0x02, 0xFD, 0x00]);
    // The length written is that of the text, not the field.
    assert_eq!(
        MetaEvent::Lyric { length: 9, text: vec![b'l', b'a'] }.raw(),
        vec![0xFF, 0x05, 0x02, b'l', b'a']
    );
    assert_eq!(
        MetaEvent::SequencerSpecific { length: 1, data: vec![0x41] }.raw(),
        vec![0xFF, 0x7F, 0x01, 0x41]
    );
    assert_eq!(
        SysExEvent::SysExF0 { length: 0, data: vec![0x7E, 0xF7] }.raw(),
        vec![0xF0, 0x02, 0x7E, 0xF7]
    );
    assert_eq!(SysExEvent::SysExF7 { length: 1, data: vec![0x01] }.raw(), vec![0xF7, 0x01, 0x01]);
    let long = vec![0u8; 200];
    let raw = MetaEvent::TextEvent { length: 200, text: long }.raw();
    assert_eq!(&raw[..4], &[0xFF, 0x01, 0x81, 0x48]);
    assert_eq!(raw.len(), 204);
}

#[test]
fn pair_and_chunk_encodings() {
    let pair = EventPair::new(1000, note(0x40));
    assert_eq!(pair.raw(), vec![0x87, 0x68, 0x90, 0x40, 0x40]);
    let header = HeaderChunk { length: 9, format: 1, tracks: 2, resolution: 480 };
    assert_eq!(
        header.raw(),
        vec![b'M', b'T', b'h', b'd', 0, 0, 0, 6, 0, 1, 0, 2, 0x01, 0xE0]
    );
    let t = TrackChunk { length: 1234, events: vec![EventPair::new(0, end())] };
    assert_eq!(t.raw(), vec![b'M', b'T', b'r', b'k', 0, 0, 0, 4, 0x00, 0xFF, 0x2F, 0x00]);
    assert_eq!(MidiChunk::TrackChunk(t.clone()).raw(), t.raw());
    assert_eq!(MidiChunk::HeaderChunk(header).raw(), header.raw());
}

#[test]
fn decoding_an_encoded_pair_gives_it_back() {
    let events = vec![
        note(0x3C),
        voice(ChannelVoiceMessage::NoteOff { channel: 15, key: 0x3C, vel: 0x00 }),
        voice(ChannelVoiceMessage::PolyphonicKeyPressure { channel: 1, key: 2, vel: 3 }),
        voice(ChannelVoiceMessage::ControlChange { channel: 4, cc: 119, value: 5 }),
        voice(ChannelVoiceMessage::ProgramChange { channel: 6, program: 7 }),
        voice(ChannelVoiceMessage::ChannelKeyPressure { channel: 8, vel: 9 }),
        voice(ChannelVoiceMessage::PitchBend { channel: 10, lsb: 11, msb: 12 }),
        mode(ChannelModeMessage::AllSoundOff { channel: 0 }),
        mode(ChannelModeMessage::ResetAllControllers { channel: 1 }),
        mode(ChannelModeMessage::LocalControl { channel: 2, value: 0 }),
        mode(ChannelModeMessage::AllNotesOff { channel: 3 }),
        mode(ChannelModeMessage::OmniOff { channel: 4 }),
        mode(ChannelModeMessage::OmniOn { channel: 5 }),
        mode(ChannelModeMessage::MonoMode { channel: 6, channels: 16 }),
        mode(ChannelModeMessage::PolyMode { channel: 7 }),
        MidiEvent::MetaEvent(MetaEvent::SequenceNumber { number: 0xABCD }),
        MidiEvent::MetaEvent(MetaEvent::TextEvent { length: 3, text: vec![b'a', b'b', b'c'] }),
        MidiEvent::MetaEvent(MetaEvent::CopyrightNotice { length: 1, text: vec![b'c'] }),
        MidiEvent::MetaEvent(MetaEvent::SequenceTrackName { length: 0, text: vec![] }),
        MidiEvent::MetaEvent(MetaEvent::InstrumentName { length: 1, text: vec![b'i'] }),
        MidiEvent::MetaEvent(MetaEvent::Lyric { length: 1, text: vec![b'l'] }),
        MidiEvent::MetaEvent(MetaEvent::Marker { length: 1, text: vec![b'm'] }),
        MidiEvent::MetaEvent(MetaEvent::CuePoint { length: 1, text: vec![b'q'] }),
        MidiEvent::MetaEvent(MetaEvent::MIDIChannelPrefix { channel: 9 }),
        end(),
        MidiEvent::MetaEvent(MetaEvent::SetTempo { tempo: 0xFF_FFFF }),
        MidiEvent::MetaEvent(MetaEvent::SMPTEOffset { smpte: 0xFFFE_FDFC, frame: 1 }),
        MidiEvent::MetaEvent(MetaEvent::TimeSignature { numerator: 3, denominator: 2, clocks: 24, notes: 8 }),
        MidiEvent::MetaEvent(MetaEvent::KeySignature { sf: 2, minor: 1 }),
        MidiEvent::MetaEvent(MetaEvent::SequencerSpecific { length: 2, data: vec![1, 2] }),
        MidiEvent::SysExEvent(SysExEvent::SysExF0 { length: 2, data: vec![0x7E, 0xF7] }),
        MidiEvent::SysExEvent(SysExEvent::SysExF7 { length: 1, data: vec![0x01] }),
    ];
    for (i, e) in events.into_iter().enumerate() {
        let pair = EventPair::new(i as u32 * 300, e);
        assert_eq!(decode_pair(&pair.raw()), pair);
    }
}

#[test]
fn event_copy_and_event_agree() {
    let pair = EventPair::new(7, MidiEvent::MetaEvent(MetaEvent::Marker { length: 1, text: vec![b'x'] }));
    assert_eq!(&pair.event_copy(), pair.event());
    assert_eq!(pair.time(), 7);
}

#[test]
fn merge_orders_by_time_and_lower_track_first() {
    let a = track(&[(0, note(1)), (10, note(2)), (20, note(3))]);
    let b = track(&[(5, note(11)), (10, note(12)), (15, note(13))]);
    let mut smf = SMF::new(HeaderChunk { length: 6, format: 1, tracks: 2, resolution: 96 }, vec![a, b]);
    smf.merge_tracks();
    assert_eq!(smf.tracks().len(), 1);
    let merged = &smf.tracks()[0];
    let times: Vec<u32> = merged.events.iter().map(|p| p.time()).collect();
    assert_eq!(times, vec![0, 5, 10, 10, 15, 20]);
    let keys: Vec<MidiEvent> = merged.events.iter().map(|p| p.event_copy()).collect();
    assert_eq!(keys, vec![note(1), note(11), note(2), note(12), note(13), note(3)]);
}

#[test]
fn merge_sums_declared_lengths_and_keeps_the_header() {
    let mut a = track(&[(0, end())]);
    a.length = 100;
    let mut b = track(&[(3, end())]);
    b.length = 23;
    let header = HeaderChunk { length: 6, format: 1, tracks: 2, resolution: 96 };
    let mut smf = SMF::new(header, vec![a, b]);
    smf.merge_tracks();
    assert_eq!(*smf.header(), header);
    assert_eq!(smf.tracks()[0].length, 123);
    assert_eq!(smf.tracks()[0].len(), 2);
}

#[test]
fn merge_of_no_tracks_or_equal_times() {
    let mut smf = SMF::new(HeaderChunk { length: 6, format: 1, tracks: 0, resolution: 96 }, vec![]);
    smf.merge_tracks();
    assert_eq!(smf.tracks().len(), 1);
    assert_eq!(smf.tracks()[0].len(), 0);
    let a = track(&[(u32::MAX, note(1))]);
    let b = track(&[(u32::MAX, note(2)), (u32::MAX, note(3))]);
    let c = track(&[]);
    let mut smf = SMF::new(HeaderChunk { length: 6, format: 1, tracks: 3, resolution: 96 }, vec![c, b, a]);
    smf.merge_tracks();
    let keys: Vec<MidiEvent> = smf.tracks()[0].events.iter().map(|p| p.event_copy()).collect();
    assert_eq!(keys, vec![note(2), note(3), note(1)]);
}

#[test]
fn track_iterator_walks_in_order() {
    let t = track(&[(0, note(1)), (4, note(2)), (0, end())]);
    let mut it = t.iter();
    assert_eq!(it.len(), 3);
    assert_eq!(it.next().map(|p| p.time()), Some(0));
    assert_eq!(it.next().map(|p| p.event_copy()), Some(note(2)));
    assert_eq!(it.next().map(|p| p.event_copy()), Some(end()));
    assert!(it.next().is_none());
    assert!(it.next().is_none());
}
