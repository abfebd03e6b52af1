use smfr::file::filerw::{SmfError, SmfReader};
use smfr::file::parser::SmfParser;
use smfr::types::event::{HeaderChunk, MidiChunk, MidiEvent, TrackChunk};
use smfr::types::message::{
    ChannelModeMessage, ChannelVoiceMessage, MetaEvent, MidiChannelMessage, SmfElement, SysExEvent,
};

fn parser_of(bytes: &[u8]) -> SmfParser {
    SmfParser::new(SmfReader::new(bytes.to_vec()))
}

fn track_bytes(declared: u32, body: &[u8]) -> Vec<u8> {
    let mut v = vec![b'M', b'T', b'r', b'k'];
    v.extend_from_slice(&declared.to_be_bytes());
    v.extend_from_slice(body);
    v
}

fn header_bytes(format: u16, tracks: u16, resolution: u16) -> Vec<u8> {
    let mut v = vec![b'M', b'T', b'h', b'd', 0, 0, 0, 6];
    v.extend_from_slice(&format.to_be_bytes());
    v.extend_from_slice(&tracks.to_be_bytes());
    v.extend_from_slice(&resolution.to_be_bytes());
    v
}

fn parse_track(body: &[u8]) -> Result<TrackChunk, SmfError> {
    let bytes = track_bytes(body.len() as u32, body);
    match parser_of(&bytes).next_chunk() {
        Ok(MidiChunk::TrackChunk(t)) => Ok(t),
        Ok(other) => panic!("not a track: {:?}", other),
        Err(e) => Err(e),
    }
}

fn voice(m: ChannelVoiceMessage) -> MidiEvent {
    MidiEvent::MidiChannelMessage(MidiChannelMessage::ChannelVoiceMessage { message: m })
}

fn mode(m: ChannelModeMessage) -> MidiEvent {
    MidiEvent::MidiChannelMessage(MidiChannelMessage::ChannelModeMessage { message: m })
}

#[test]
fn header_chunk_fields() {
    let bytes = [b'M', b'T', b'h', b'd', 0x00, 0x00, 0x00, 0x06, 0x00, 0x01, 0x00, 0x02, 0x01, 0xE0];
    let mut parser = parser_of(&bytes);
    match parser.next_chunk() {
        Ok(MidiChunk::HeaderChunk(chunk)) => {
            assert_eq!(chunk.length, 6);
            assert_eq!(chunk.format, 1);
            assert_eq!(chunk.tracks, 2);
            assert_eq!(chunk.resolution, 480);
        },
        other => panic!("not a header: {:?}", other),
    }
}

#[test]
fn header_with_other_length_is_malformed() {
    let mut bytes = header_bytes(1, 2, 480);
    bytes[7] = 7;
    assert_eq!(parser_of(&bytes).next_chunk(), Err(SmfError::MalformedHeader));
}

#[test]
fn header_cut_short_is_truncated() {
    let bytes = header_bytes(1, 2, 480);
    assert_eq!(parser_of(&bytes[..12]).next_chunk(), Err(SmfError::TruncatedInput));
    assert_eq!(parser_of(&bytes[..3]).next_chunk(), Err(SmfError::TruncatedInput));
}

#[test]
fn unknown_chunk_tag_is_reported() {
    let bytes = [b'A', b'B', b'C', b'D', 0, 0, 0, 0];
    assert_eq!(
        parser_of(&bytes).next_chunk(),
        Err(SmfError::UnrecognizedChunk(b'A', b'B', b'C', b'D'))
    );
}

#[test]
fn running_status_reuses_the_last_status_byte() {
    let body = [0x00, 0x90, 0x3C, 0x40, 0x00, 0x3C, 0x00, 0x00, 0xFF, 0x2F, 0x00];
    let track = parse_track(&body).unwrap();
    assert_eq!(track.len(), 3);
    let on = |vel| voice(ChannelVoiceMessage::NoteOn { channel: 0, key: 0x3C, vel });
    assert_eq!(track.events[0].event(), &on(0x40));
    assert_eq!(track.events[1].event(), &on(0x00));
    assert_eq!(track.events[2].event(), &MidiEvent::MetaEvent(MetaEvent::EndOfTrack));
}

#[test]
fn running_status_event_by_event() {
    let mut parser = parser_of(&[0x00, 0x90, 0x3C, 0x40, 0x05, 0x3C, 0x00]);
    let first = parser.parse_mtrk_event().unwrap();
    let second = parser.parse_mtrk_event().unwrap();
    let on = |vel| voice(ChannelVoiceMessage::NoteOn { channel: 0, key: 0x3C, vel });
    assert_eq!(first.time(), 0);
    assert_eq!(first.event_copy(), on(0x40));
    assert_eq!(second.time(), 5);
    assert_eq!(second.event_copy(), on(0x00));
    assert_eq!(parser.parse_mtrk_event(), Err(SmfError::TruncatedInput));
}

#[test]
fn first_data_byte_without_status_is_missing_running_status() {
    let body = [0x00, 0x3C, 0x40, 0x00, 0xFF, 0x2F, 0x00];
    assert_eq!(parse_track(&body), Err(SmfError::MissingRunningStatus));
}

#[test]
fn running_status_does_not_cross_tracks() {
    let mut bytes = track_bytes(8, &[0x00, 0x90, 0x3C, 0x40, 0x00, 0xFF, 0x2F, 0x00]);
    bytes.extend(track_bytes(7, &[0x00, 0x3C, 0x40, 0x00, 0xFF, 0x2F, 0x00]));
    let mut parser = parser_of(&bytes);
    assert!(matches!(parser.next_chunk(), Ok(MidiChunk::TrackChunk(_))));
    assert_eq!(parser.next_chunk(), Err(SmfError::MissingRunningStatus));
}

#[test]
fn meta_and_sysex_events_keep_running_status() {
    let body = [
        0x00, 0x90, 0x3C, 0x40, 0x00, 0xFF, 0x01, 0x02, b'h', b'i', 0x00, 0xF0, 0x02, 0x43, 0xF7,
        0x00, 0x3C, 0x00, 0x00, 0xFF, 0x2F, 0x00,
    ];
    let track = parse_track(&body).unwrap();
    assert_eq!(track.len(), 5);
    assert_eq!(
        track.events[1].event(),
        &MidiEvent::MetaEvent(MetaEvent::TextEvent { length: 2, text: vec![b'h', b'i'] })
    );
    assert_eq!(
        track.events[2].event(),
        &MidiEvent::SysExEvent(SysExEvent::SysExF0 { length: 2, data: vec![0x43, 0xF7] })
    );
    assert_eq!(
        track.events[3].event(),
        &voice(ChannelVoiceMessage::NoteOn { channel: 0, key: 0x3C, vel: 0 })
    );
}

#[test]
fn parsed_track_ends_with_its_only_end_of_track() {
    let body = [0x00, 0xC1, 0x05, 0x10, 0xE2, 0x00, 0x40, 0x00, 0xFF, 0x2F, 0x00, 0x00, 0x90];
    let track = parse_track(&body).unwrap();
    assert_eq!(track.len(), 3);
    assert_eq!(track.events[0].event(), &voice(ChannelVoiceMessage::ProgramChange { channel: 1, program: 5 }));
    assert_eq!(track.events[1].time(), 0x10);
    assert_eq!(
        track.events[1].event(),
        &voice(ChannelVoiceMessage::PitchBend { channel: 2, lsb: 0x00, msb: 0x40 })
    );
    let last = track.events.last().unwrap();
    assert_eq!(last.event(), &MidiEvent::MetaEvent(MetaEvent::EndOfTrack));
    let ends = track
        .events
        .iter()
        .filter(|p| p.event() == &MidiEvent::MetaEvent(MetaEvent::EndOfTrack))
        .count();
    assert_eq!(ends, 1);
}

#[test]
fn every_status_kind_decodes() {
    let body = [
        0x00, 0x83, 0x10, 0x20, 0x00, 0x94, 0x11, 0x21, 0x00, 0xA5, 0x12, 0x22, 0x00, 0xB6, 0x07,
        0x64, 0x00, 0xC7, 0x13, 0x00, 0xD8, 0x14, 0x00, 0xE9, 0x15, 0x25, 0x00, 0xFF, 0x2F, 0x00,
    ];
    let track = parse_track(&body).unwrap();
    let expected = vec![
        voice(ChannelVoiceMessage::NoteOff { channel: 3, key: 0x10, vel: 0x20 }),
        voice(ChannelVoiceMessage::NoteOn { channel: 4, key: 0x11, vel: 0x21 }),
        voice(ChannelVoiceMessage::PolyphonicKeyPressure { channel: 5, key: 0x12, vel: 0x22 }),
        voice(ChannelVoiceMessage::ControlChange { channel: 6, cc: 0x07, value: 0x64 }),
        voice(ChannelVoiceMessage::ProgramChange { channel: 7, program: 0x13 }),
        voice(ChannelVoiceMessage::ChannelKeyPressure { channel: 8, vel: 0x14 }),
        voice(ChannelVoiceMessage::PitchBend { channel: 9, lsb: 0x15, msb: 0x25 }),
        MidiEvent::MetaEvent(MetaEvent::EndOfTrack),
    ];
    let got: Vec<MidiEvent> = track.events.iter().map(|p| p.event_copy()).collect();
    assert_eq!(got, expected);
}

#[test]
fn controllers_from_120_are_mode_messages() {
    let body = [
        0x00, 0xB0, 0x78, 0x00, 0x00, 0xB1, 0x79, 0x00, 0x00, 0xB2, 0x7A, 0x7F, 0x00, 0xB3, 0x7B,
        0x00, 0x00, 0xB4, 0x7C, 0x00, 0x00, 0xB5, 0x7D, 0x00, 0x00, 0xB6, 0x7E, 0x04, 0x00, 0xB7,
        0x7F, 0x00, 0x00, 0xB8, 0x77, 0x01, 0x00, 0xFF, 0x2F, 0x00,
    ];
    let track = parse_track(&body).unwrap();
    let expected = vec![
        mode(ChannelModeMessage::AllSoundOff { channel: 0 }),
        mode(ChannelModeMessage::ResetAllControllers { channel: 1 }),
        mode(ChannelModeMessage::LocalControl { channel: 2, value: 0x7F }),
        mode(ChannelModeMessage::AllNotesOff { channel: 3 }),
        mode(ChannelModeMessage::OmniOff { channel: 4 }),
        mode(ChannelModeMessage::OmniOn { channel: 5 }),
        mode(ChannelModeMessage::MonoMode { channel: 6, channels: 4 }),
        mode(ChannelModeMessage::PolyMode { channel: 7 }),
        voice(ChannelVoiceMessage::ControlChange { channel: 8, cc: 0x77, value: 0x01 }),
        MidiEvent::MetaEvent(MetaEvent::EndOfTrack),
    ];
    let got: Vec<MidiEvent> = track.events.iter().map(|p| p.event_copy()).collect();
    assert_eq!(got, expected);
}

#[test]
fn meta_events_decode() {
    let body = [
        0x00, 0xFF, 0x00, 0x02, 0x01, 0x02, 0x00, 0xFF, 0x03, 0x01, b'A', 0x00, 0xFF, 0x20, 0x01,
        0x05, 0x00, 0xFF, 0x51, 0x03, 0x07, 0xA1, 0x20, 0x00, 0xFF, 0x54, 0x05, 0x01, 0x02, 0x03,
        0x04, 0x05, 0x00, 0xFF, 0x58, 0x04, 0x04, 0x02, 0x18, 0x08, 0x00, 0xFF, 0x59, 0x02, 0xFE,
        0x01, 0x00, 0xFF, 0x7F, 0x03, 0x00, 0x00, 0x41, 0x00, 0xFF, 0x2F, 0x00,
    ];
    let track = parse_track(&body).unwrap();
    let expected = vec![
        MetaEvent::SequenceNumber { number: 0x0102 },
        MetaEvent::SequenceTrackName { length: 1, text: vec![b'A'] },
        MetaEvent::MIDIChannelPrefix { channel: 5 },
        MetaEvent::SetTempo { tempo: 500000 },
        MetaEvent::SMPTEOffset { smpte: 0x01020304, frame: 5 },
        MetaEvent::TimeSignature { numerator: 4, denominator: 2, clocks: 0x18, notes: 8 },
        MetaEvent::KeySignature { sf: 0xFE, minor: 1 },
        MetaEvent::SequencerSpecific { length: 3, data: vec![0x00, 0x00, 0x41] },
        MetaEvent::EndOfTrack,
    ];
    let got: Vec<MidiEvent> = track.events.iter().map(|p| p.event_copy()).collect();
    let expected: Vec<MidiEvent> = expected.into_iter().map(MidiEvent::MetaEvent).collect();
    assert_eq!(got, expected);
}

#[test]
fn unknown_meta_type_is_reported() {
    let body = [0x00, 0xFF, 0x10, 0x00, 0x00, 0xFF, 0x2F, 0x00];
    assert_eq!(parse_track(&body), Err(SmfError::UnknownMetaType(0x10)));
}

#[test]
fn fixed_size_meta_with_other_length_is_reported() {
    let body = [0x00, 0xFF, 0x51, 0x02, 0x07, 0xA1, 0x00, 0xFF, 0x2F, 0x00];
    assert_eq!(parse_track(&body), Err(SmfError::InvalidMetaLength(0x51)));
    let body = [0x00, 0xFF, 0x2F, 0x01, 0x00];
    assert_eq!(parse_track(&body), Err(SmfError::InvalidMetaLength(0x2F)));
}

#[test]
fn unknown_status_byte_is_reported() {
    let body = [0x00, 0xF1, 0x00, 0x00, 0xFF, 0x2F, 0x00];
    assert_eq!(parse_track(&body), Err(SmfError::UnknownStatusByte(0xF1)));
}

#[test]
fn over_long_delta_time_is_invalid() {
    let body = [0x80, 0x80, 0x80, 0x80, 0x00, 0xFF, 0x2F, 0x00];
    assert_eq!(parse_track(&body), Err(SmfError::InvalidVlq));
}

#[test]
fn track_without_end_is_truncated() {
    let body = [0x00, 0x90, 0x3C, 0x40];
    assert_eq!(parse_track(&body), Err(SmfError::TruncatedInput));
    let body = [0x00, 0x90, 0x3C];
    assert_eq!(parse_track(&body), Err(SmfError::TruncatedInput));
    let body = [0x00, 0xFF, 0x01, 0x05, b'a'];
    assert_eq!(parse_track(&body), Err(SmfError::TruncatedInput));
}

#[test]
fn declared_track_length_is_kept_but_not_trusted() {
    let bytes = track_bytes(99, &[0x00, 0xFF, 0x2F, 0x00]);
    match parser_of(&bytes).next_chunk() {
        Ok(MidiChunk::TrackChunk(t)) => {
            assert_eq!(t.length, 99);
            assert_eq!(t.len(), 1);
        },
        other => panic!("not a track: {:?}", other),
    }
}

#[test]
fn read_all_reads_header_and_tracks() {
    let mut bytes = header_bytes(1, 2, 96);
    bytes.extend(track_bytes(4, &[0x00, 0xFF, 0x2F, 0x00]));
    bytes.extend(track_bytes(8, &[0x00, 0x90, 0x3C, 0x40, 0x00, 0xFF, 0x2F, 0x00]));
    let smf = parser_of(&bytes).read_all().unwrap();
    assert_eq!(*smf.header(), HeaderChunk { length: 6, format: 1, tracks: 2, resolution: 96 });
    assert_eq!(smf.tracks().len(), 2);
    assert_eq!(smf.tracks()[1].len(), 2);
}

#[test]
fn read_all_wants_a_header_first() {
    let bytes = track_bytes(4, &[0x00, 0xFF, 0x2F, 0x00]);
    assert_eq!(parser_of(&bytes).read_all(), Err(SmfError::MalformedHeader));
    let mut bytes = header_bytes(0, 1, 96);
    bytes.extend(header_bytes(0, 1, 96));
    assert_eq!(parser_of(&bytes).read_all(), Err(SmfError::MalformedHeader));
}

#[test]
fn reset_reads_again_from_the_start() {
    let mut bytes = header_bytes(0, 1, 96);
    bytes.extend(track_bytes(4, &[0x00, 0xFF, 0x2F, 0x00]));
    let mut parser = parser_of(&bytes);
    let first = parser.read_all().unwrap();
    assert_eq!(parser.next_chunk(), Err(SmfError::TruncatedInput));
    parser.reset();
    let second = parser.read_all().unwrap();
    assert_eq!(first, second);
}

#[test]
fn writing_a_parsed_file_gives_its_bytes_back() {
    let mut bytes = header_bytes(1, 2, 480);
    bytes.extend(track_bytes(
        16,
        &[0x00, 0xFF, 0x51, 0x03, 0x07, 0xA1, 0x20, 0x00, 0xC0, 0x05, 0x60, 0xFF, 0x2F, 0x00],
    ));
    bytes.extend(track_bytes(
        15,
        &[
            0x00, 0x90, 0x3C, 0x40, 0x81, 0x00, 0x80, 0x3C, 0x00, 0x00, 0xF7, 0x01, 0x7F, 0x00, 0xFF,
            0x2F, 0x00,
        ],
    ));
    let smf = parser_of(&bytes).read_all().unwrap();
    let mut expected = bytes.clone();
    expected[18..22].copy_from_slice(&14u32.to_be_bytes());
    expected[40..44].copy_from_slice(&17u32.to_be_bytes());
    assert_eq!(smf.raw(), expected);
    let again = parser_of(&smf.raw()).read_all().unwrap();
    assert_eq!(again.raw(), expected);
    assert_eq!(again.tracks()[0].length, 14);
}

#[test]
fn reader_moves_only_when_bytes_are_there() {
    let mut reader = SmfReader::new(vec![1, 2, 3, 4, 5]);
    assert_eq!(reader.seek_bytes(2), Some(vec![1, 2]));
    assert_eq!(reader.next_bytes(2), Some(vec![1, 2]));
    assert_eq!(reader.next_bytes_ref(2), Some(&[3u8, 4][..]));
    assert_eq!(reader.seek_bytes_ref(1), Some(&[5u8][..]));
    assert_eq!(reader.next_bytes(2), None);
    assert_eq!(reader.seek_bytes(2), None);
    assert_eq!(reader.remaining(), 1);
    assert!(!reader.skip_bytes(2));
    assert!(reader.skip_bytes(1));
    assert_eq!(reader.remaining(), 0);
    reader.reset_pointer();
    assert_eq!(reader.next_bytes(5), Some(vec![1, 2, 3, 4, 5]));
}

#[test]
fn error_from_a_message() {
    assert_eq!(SmfError::new("File not found"), SmfError::Message("File not found".to_string()));
}
