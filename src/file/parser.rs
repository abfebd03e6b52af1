//! Decoding. What reading bytes gives is stated as spec functions
//! (`read_vlq`, `read_event`, `read_chunk`, `read_smf`, ...), and `SmfParser`
//! is proved to give exactly that. Meta events of a type not listed in
//! `meta_event_of` are refused with `UnknownMetaType`, not passed through.
use vstd::prelude::*;

use super::filerw::{SmfError, SmfReader};
use crate::types::event::{
    ends_with_one_end_of_track, header_tag, track_tag, EventPair, HeaderChunk, MidiChunk, MidiEvent, SMF, SpecEventPair,
    SpecMidiChunk, SpecMidiEvent, SpecSmf, SpecTrackChunk, TrackChunk,
};
use crate::types::message::{
    decode_vlq, read_vlq, vlq_scan, vlq_value, ChannelModeMessage, ChannelVoiceMessage, MetaEvent,
    MidiChannelMessage, SpecMetaEvent, SpecSysExEvent, SysExEvent,
};

verus! {

// What reading gives //

/// The number of data bytes that follow the status byte `status`.
pub open spec fn data_len(status: u8) -> int {
    if 0xC0 <= status < 0xE0 {
        1
    } else {
        2
    }
}

/// The channel mode message that a control change to `controller` (one of
/// `120..=127`) with the value `value` stands for; the value is kept where
/// it means something and dropped where it is always 0.
pub open spec fn mode_message(channel: u8, controller: u8, value: u8) -> ChannelModeMessage {
    if controller == 120 {
        ChannelModeMessage::AllSoundOff { channel }
    } else if controller == 121 {
        ChannelModeMessage::ResetAllControllers { channel }
    } else if controller == 122 {
        ChannelModeMessage::LocalControl { channel, value }
    } else if controller == 123 {
        ChannelModeMessage::AllNotesOff { channel }
    } else if controller == 124 {
        ChannelModeMessage::OmniOff { channel }
    } else if controller == 125 {
        ChannelModeMessage::OmniOn { channel }
    } else if controller == 126 {
        ChannelModeMessage::MonoMode { channel, channels: value }
    } else {
        ChannelModeMessage::PolyMode { channel }
    }
}

/// The channel message with status byte `status` (in `0x80..=0xEF`) and
/// data bytes `a` and, where it has two, `b`.
pub open spec fn channel_message(status: u8, a: u8, b: u8) -> MidiChannelMessage {
    let channel = (status % 16) as u8;
    if status < 0x90 {
        MidiChannelMessage::ChannelVoiceMessage {
            message: ChannelVoiceMessage::NoteOff { channel, key: a, vel: b },
        }
    } else if status < 0xA0 {
        MidiChannelMessage::ChannelVoiceMessage {
            message: ChannelVoiceMessage::NoteOn { channel, key: a, vel: b },
        }
    } else if status < 0xB0 {
        MidiChannelMessage::ChannelVoiceMessage {
            message: ChannelVoiceMessage::PolyphonicKeyPressure { channel, key: a, vel: b },
        }
    } else if status < 0xC0 {
        if 120 <= a <= 127 {
            MidiChannelMessage::ChannelModeMessage { message: mode_message(channel, a, b) }
        } else {
            MidiChannelMessage::ChannelVoiceMessage {
                message: ChannelVoiceMessage::ControlChange { channel, cc: a, value: b },
            }
        }
    } else if status < 0xD0 {
        MidiChannelMessage::ChannelVoiceMessage {
            message: ChannelVoiceMessage::ProgramChange { channel, program: a },
        }
    } else if status < 0xE0 {
        MidiChannelMessage::ChannelVoiceMessage {
            message: ChannelVoiceMessage::ChannelKeyPressure { channel, vel: a },
        }
    } else {
        MidiChannelMessage::ChannelVoiceMessage {
            message: ChannelVoiceMessage::PitchBend { channel, lsb: a, msb: b },
        }
    }
}

/// Reading the data bytes, at `p`, of a channel message with status byte
/// `status`: the message and the position after it.
pub open spec fn read_channel_data(status: u8, d: Seq<u8>, p: int) -> Result<
    (MidiChannelMessage, int),
    SmfError,
> {
    if p + data_len(status) > d.len() {
        Err(SmfError::TruncatedInput)
    } else {
        let b = if data_len(status) == 2 {
            d[p + 1]
        } else {
            0
        };
        Ok((channel_message(status, d[p], b), p + data_len(status)))
    }
}

/// The number that the two bytes at `p` spell, most significant first.
pub open spec fn be16_at(d: Seq<u8>, p: int) -> u16 {
    (d[p] * 0x100 + d[p + 1]) as u16
}

/// The number that the four bytes at `p` spell, most significant first.
pub open spec fn be32_at(d: Seq<u8>, p: int) -> u32 {
    (d[p] * 0x100_0000 + d[p + 1] * 0x1_0000 + d[p + 2] * 0x100 + d[p + 3]) as u32
}

/// The meta event of type `t` whose payload is `payload`.
pub open spec fn meta_event_of(t: u8, payload: Seq<u8>) -> Result<SpecMetaEvent, SmfError> {
    let n = payload.len();
    let length = n as u32;
    if t == 0x00 {
        if n == 2 {
            Ok(SpecMetaEvent::SequenceNumber { number: be16_at(payload, 0) })
        } else {
            Err(SmfError::InvalidMetaLength(t))
        }
    } else if t == 0x01 {
        Ok(SpecMetaEvent::TextEvent { length, text: payload })
    } else if t == 0x02 {
        Ok(SpecMetaEvent::CopyrightNotice { length, text: payload })
    } else if t == 0x03 {
        Ok(SpecMetaEvent::SequenceTrackName { length, text: payload })
    } else if t == 0x04 {
        Ok(SpecMetaEvent::InstrumentName { length, text: payload })
    } else if t == 0x05 {
        Ok(SpecMetaEvent::Lyric { length, text: payload })
    } else if t == 0x06 {
        Ok(SpecMetaEvent::Marker { length, text: payload })
    } else if t == 0x07 {
        Ok(SpecMetaEvent::CuePoint { length, text: payload })
    } else if t == 0x20 {
        if n == 1 {
            Ok(SpecMetaEvent::MIDIChannelPrefix { channel: payload[0] })
        } else {
            Err(SmfError::InvalidMetaLength(t))
        }
    } else if t == 0x2F {
        if n == 0 {
            Ok(SpecMetaEvent::EndOfTrack)
        } else {
            Err(SmfError::InvalidMetaLength(t))
        }
    } else if t == 0x51 {
        if n == 3 {
            Ok(
                SpecMetaEvent::SetTempo {
                    tempo: (payload[0] * 0x1_0000 + payload[1] * 0x100 + payload[2]) as u32,
                },
            )
        } else {
            Err(SmfError::InvalidMetaLength(t))
        }
    } else if t == 0x54 {
        if n == 5 {
            Ok(SpecMetaEvent::SMPTEOffset { smpte: be32_at(payload, 0), frame: payload[4] })
        } else {
            Err(SmfError::InvalidMetaLength(t))
        }
    } else if t == 0x58 {
        if n == 4 {
            Ok(
                SpecMetaEvent::TimeSignature {
                    numerator: payload[0],
                    denominator: payload[1],
                    clocks: payload[2],
                    notes: payload[3],
                },
            )
        } else {
            Err(SmfError::InvalidMetaLength(t))
        }
    } else if t == 0x59 {
        if n == 2 {
            Ok(SpecMetaEvent::KeySignature { sf: payload[0], minor: payload[1] })
        } else {
            Err(SmfError::InvalidMetaLength(t))
        }
    } else if t == 0x7F {
        Ok(SpecMetaEvent::SequencerSpecific { length, data: payload })
    } else {
        Err(SmfError::UnknownMetaType(t))
    }
}

/// Reading, at `p`, a payload preceded by its length as a variable-length
/// quantity: the length, the payload and the position after it.
pub open spec fn read_payload(d: Seq<u8>, p: int) -> Result<(u32, Seq<u8>, int), SmfError> {
    match read_vlq(d, p) {
        Err(e) => Err(e),
        Ok((n, q)) => if q + n > d.len() {
            Err(SmfError::TruncatedInput)
        } else {
            Ok((n, d.subrange(q, q + n), q + n))
        },
    }
}

/// Reading, at `p`, what follows the `FF` of a meta event: its type, the
/// length and the payload.
pub open spec fn read_meta(d: Seq<u8>, p: int) -> Result<(SpecMetaEvent, int), SmfError> {
    if p >= d.len() {
        Err(SmfError::TruncatedInput)
    } else {
        match read_payload(d, p + 1) {
            Err(e) => Err(e),
            Ok((_, payload, q)) => match meta_event_of(d[p], payload) {
                Err(e) => Err(e),
                Ok(m) => Ok((m, q)),
            },
        }
    }
}

/// Reading, at `p`, what follows the prefix byte `prefix` of a
/// system-exclusive event.
pub open spec fn read_sysex(prefix: u8, d: Seq<u8>, p: int) -> Result<
    (SpecSysExEvent, int),
    SmfError,
> {
    match read_payload(d, p) {
        Err(e) => Err(e),
        Ok((n, data, q)) => if prefix == 0xF0 {
            Ok((SpecSysExEvent::SysExF0 { length: n, data }, q))
        } else {
            Ok((SpecSysExEvent::SysExF7 { length: n, data }, q))
        },
    }
}

/// Reading the event at `p` when the running status is `rs`: the event,
/// the position after it and the running status after it.
pub open spec fn read_event(d: Seq<u8>, p: int, rs: Option<u8>) -> Result<
    (SpecMidiEvent, int, Option<u8>),
    SmfError,
> {
    if p < 0 || p >= d.len() {
        Err(SmfError::TruncatedInput)
    } else {
        let b = d[p];
        if 0x80 <= b <= 0xEF {
            match read_channel_data(b, d, p + 1) {
                Err(e) => Err(e),
                Ok((m, q)) => Ok((SpecMidiEvent::MidiChannelMessage(m), q, Some(b))),
            }
        } else if b < 0x80 {
            match rs {
                None => Err(SmfError::MissingRunningStatus),
                Some(status) => match read_channel_data(status, d, p) {
                    Err(e) => Err(e),
                    Ok((m, q)) => Ok((SpecMidiEvent::MidiChannelMessage(m), q, rs)),
                },
            }
        } else if b == 0xFF {
            match read_meta(d, p + 1) {
                Err(e) => Err(e),
                Ok((m, q)) => Ok((SpecMidiEvent::MetaEvent(m), q, rs)),
            }
        } else if b == 0xF0 || b == 0xF7 {
            match read_sysex(b, d, p + 1) {
                Err(e) => Err(e),
                Ok((x, q)) => Ok((SpecMidiEvent::SysExEvent(x), q, rs)),
            }
        } else {
            Err(SmfError::UnknownStatusByte(b))
        }
    }
}

/// Reading the time and the event at `p` when the running status is `rs`.
pub open spec fn read_pair(d: Seq<u8>, p: int, rs: Option<u8>) -> Result<
    (SpecEventPair, int, Option<u8>),
    SmfError,
> {
    match read_vlq(d, p) {
        Err(e) => Err(e),
        Ok((time, q)) => match read_event(d, q, rs) {
            Err(e) => Err(e),
            Ok((event, q2, rs2)) => Ok((SpecEventPair { time, event }, q2, rs2)),
        },
    }
}

proof fn lemma_vlq_scan_advances(d: Seq<u8>, p: int, k: nat)
    ensures
        vlq_scan(d, p, k) matches Ok((_, q)) ==> p + k < q <= d.len(),
    decreases 4 - k,
{
    if k < 4 && p + k < d.len() && d[p + k] >= 128 {
        lemma_vlq_scan_advances(d, p, k + 1);
    }
}

/// Reading a time and an event moves forward and stays within the bytes.
pub proof fn lemma_read_pair_advances(d: Seq<u8>, p: int, rs: Option<u8>)
    ensures
        read_pair(d, p, rs) matches Ok((_, q, _)) ==> p < q <= d.len(),
{
    lemma_vlq_scan_advances(d, p, 0);
    if let Ok((_, q)) = read_vlq(d, p) {
        lemma_vlq_scan_advances(d, q + 1, 0);
        if q + 1 < d.len() {
            lemma_vlq_scan_advances(d, q + 2, 0);
        }
    }
}

/// Reading the events of a track at `p`, the running status being `rs`, up
/// to and with the first end-of-track event: the events and the position
/// after them.
pub open spec fn read_events(d: Seq<u8>, p: int, rs: Option<u8>) -> Result<
    (Seq<SpecEventPair>, int),
    SmfError,
>
    decreases d.len() - p,
{
    match read_pair(d, p, rs) {
        Err(e) => Err(e),
        Ok((pair, q, rs2)) => if pair.event.is_end_of_track() {
            Ok((seq![pair], q))
        } else {
            proof {
                lemma_read_pair_advances(d, p, rs);
            }
            match read_events(d, q, rs2) {
                Err(e) => Err(e),
                Ok((rest, q2)) => Ok((seq![pair] + rest, q2)),
            }
        },
    }
}

/// Reading the chunk at `p`: the chunk and the position after it. The
/// running status starts afresh in each track.
pub open spec fn read_chunk(d: Seq<u8>, p: int) -> Result<(SpecMidiChunk, int), SmfError> {
    if p < 0 || p + 4 > d.len() {
        Err(SmfError::TruncatedInput)
    } else if d.subrange(p, p + 4) == header_tag() {
        if p + 14 > d.len() {
            Err(SmfError::TruncatedInput)
        } else if be32_at(d, p + 4) != 6 {
            Err(SmfError::MalformedHeader)
        } else {
            Ok(
                (
                    SpecMidiChunk::HeaderChunk(
                        HeaderChunk {
                            length: 6,
                            format: be16_at(d, p + 8),
                            tracks: be16_at(d, p + 10),
                            resolution: be16_at(d, p + 12),
                        },
                    ),
                    p + 14,
                ),
            )
        }
    } else if d.subrange(p, p + 4) == track_tag() {
        if p + 8 > d.len() {
            Err(SmfError::TruncatedInput)
        } else {
            match read_events(d, p + 8, None) {
                Err(e) => Err(e),
                Ok((events, q)) => Ok(
                    (
                        SpecMidiChunk::TrackChunk(
                            SpecTrackChunk { length: be32_at(d, p + 4), events },
                        ),
                        q,
                    ),
                ),
            }
        }
    } else {
        Err(SmfError::UnrecognizedChunk(d[p], d[p + 1], d[p + 2], d[p + 3]))
    }
}

proof fn lemma_read_events_advances(d: Seq<u8>, p: int, rs: Option<u8>)
    ensures
        read_events(d, p, rs) matches Ok((_, q)) ==> p < q <= d.len(),
    decreases d.len() - p,
{
    lemma_read_pair_advances(d, p, rs);
    if let Ok((pair, q, rs2)) = read_pair(d, p, rs) {
        if !pair.event.is_end_of_track() {
            lemma_read_events_advances(d, q, rs2);
        }
    }
}

/// Reading a chunk moves forward and stays within the bytes.
pub proof fn lemma_read_chunk_advances(d: Seq<u8>, p: int)
    ensures
        read_chunk(d, p) matches Ok((_, q)) ==> p < q <= d.len(),
{
    lemma_read_events_advances(d, p + 8, None);
}

/// Reading track chunks at `p` until fewer than four bytes are left.
pub open spec fn read_tracks(d: Seq<u8>, p: int) -> Result<Seq<SpecTrackChunk>, SmfError>
    decreases d.len() - p,
{
    if d.len() - p < 4 {
        Ok(Seq::empty())
    } else {
        match read_chunk(d, p) {
            Err(e) => Err(e),
            Ok((SpecMidiChunk::HeaderChunk(_), _)) => Err(SmfError::MalformedHeader),
            Ok((SpecMidiChunk::TrackChunk(t), q)) => {
                proof {
                    lemma_read_chunk_advances(d, p);
                }
                match read_tracks(d, q) {
                    Err(e) => Err(e),
                    Ok(ts) => Ok(seq![t] + ts),
                }
            },
        }
    }
}

/// Reading a whole file at `p`: a header chunk, then track chunks until
/// fewer than four bytes are left.
pub open spec fn read_smf(d: Seq<u8>, p: int) -> Result<SpecSmf, SmfError> {
    match read_chunk(d, p) {
        Err(e) => Err(e),
        Ok((SpecMidiChunk::TrackChunk(_), _)) => Err(SmfError::MalformedHeader),
        Ok((SpecMidiChunk::HeaderChunk(header), q)) => match read_tracks(d, q) {
            Err(e) => Err(e),
            Ok(tracks) => Ok(SpecSmf { header, tracks }),
        },
    }
}

/// `r` with the events `s` put in front of its events.
pub open spec fn prepend_events(s: Seq<SpecEventPair>, r: Result<(Seq<SpecEventPair>, int), SmfError>) -> Result<(Seq<SpecEventPair>, int), SmfError> {
    match r {
        Err(e) => Err(e),
        Ok((t, q)) => Ok((s + t, q)),
    }
}

/// `r` with the tracks `s` put in front of its tracks.
pub open spec fn prepend_tracks(s: Seq<SpecTrackChunk>, r: Result<Seq<SpecTrackChunk>, SmfError>) -> Result<Seq<SpecTrackChunk>, SmfError> {
    match r {
        Err(e) => Err(e),
        Ok(t) => Ok(s + t),
    }
}

proof fn lemma_vlq_window(d: Seq<u8>, p: int, m: int, k: nat)
    requires
        0 <= p,
        0 <= m,
        p + m <= d.len(),
        m >= 4 || p + m == d.len(),
    ensures
        match vlq_scan(d, p, k) {
            Ok((v, q)) => vlq_scan(d.subrange(p, p + m), 0, k) == Ok::<(u32, int), SmfError>(
                (v, q - p),
            ),
            Err(e) => vlq_scan(d.subrange(p, p + m), 0, k) == Err::<(u32, int), SmfError>(e),
        },
    decreases 4 - k,
{
    let w = d.subrange(p, p + m);
    if k < 4 && p + k < d.len() {
        assert(w[k as int] == d[p + k]);
        if d[p + k] < 128 {
            assert(w.subrange(0, k as int + 1) =~= d.subrange(p, p + k + 1));
        } else {
            lemma_vlq_window(d, p, m, k + 1);
        }
    }
}

/// The channel mode message selected by `controller`, one of `120..=127`.
fn make_mode_message(channel: u8, controller: u8, value: u8) -> (r: ChannelModeMessage)
    ensures
        r == mode_message(channel, controller, value),
{
    match controller {
        120 => ChannelModeMessage::AllSoundOff { channel },
        121 => ChannelModeMessage::ResetAllControllers { channel },
        122 => ChannelModeMessage::LocalControl { channel, value },
        123 => ChannelModeMessage::AllNotesOff { channel },
        124 => ChannelModeMessage::OmniOff { channel },
        125 => ChannelModeMessage::OmniOn { channel },
        126 => ChannelModeMessage::MonoMode { channel, channels: value },
        _ => ChannelModeMessage::PolyMode { channel },
    }
}

/// The channel message with status byte `status` and data bytes `a`, `b`.
fn make_channel_message(status: u8, a: u8, b: u8) -> (r: MidiChannelMessage)
    ensures
        r == channel_message(status, a, b),
{
    let channel = status % 16;
    let message = if status < 0x90 {
        ChannelVoiceMessage::NoteOff { channel, key: a, vel: b }
    } else if status < 0xA0 {
        ChannelVoiceMessage::NoteOn { channel, key: a, vel: b }
    } else if status < 0xB0 {
        ChannelVoiceMessage::PolyphonicKeyPressure { channel, key: a, vel: b }
    } else if status < 0xC0 {
        if 120 <= a && a <= 127 {
            return MidiChannelMessage::ChannelModeMessage {
                message: make_mode_message(channel, a, b),
            };
        }
        ChannelVoiceMessage::ControlChange { channel, cc: a, value: b }
    } else if status < 0xD0 {
        ChannelVoiceMessage::ProgramChange { channel, program: a }
    } else if status < 0xE0 {
        ChannelVoiceMessage::ChannelKeyPressure { channel, vel: a }
    } else {
        ChannelVoiceMessage::PitchBend { channel, lsb: a, msb: b }
    };
    MidiChannelMessage::ChannelVoiceMessage { message }
}

/// The meta event of type `t` whose payload is `payload`.
fn make_meta_event(t: u8, payload: Vec<u8>) -> (r: Result<MetaEvent, SmfError>)
    requires
        payload@.len() <= u32::MAX,
    ensures
        match meta_event_of(t, payload@) {
            Ok(m) => r matches Ok(x) && x@ == m,
            Err(e) => r == Err::<MetaEvent, SmfError>(e),
        },
{
    let n = payload.len();
    let length = n as u32;
    let wrong = SmfError::InvalidMetaLength(t);
    match t {
        0x00 => if n == 2 {
            Ok(MetaEvent::SequenceNumber { number: payload[0] as u16 * 0x100 + payload[1] as u16 })
        } else {
            Err(wrong)
        },
        0x01 => Ok(MetaEvent::TextEvent { length, text: payload }),
        0x02 => Ok(MetaEvent::CopyrightNotice { length, text: payload }),
        0x03 => Ok(MetaEvent::SequenceTrackName { length, text: payload }),
        0x04 => Ok(MetaEvent::InstrumentName { length, text: payload }),
        0x05 => Ok(MetaEvent::Lyric { length, text: payload }),
        0x06 => Ok(MetaEvent::Marker { length, text: payload }),
        0x07 => Ok(MetaEvent::CuePoint { length, text: payload }),
        0x20 => if n == 1 {
            Ok(MetaEvent::MIDIChannelPrefix { channel: payload[0] })
        } else {
            Err(wrong)
        },
        0x2F => if n == 0 {
            Ok(MetaEvent::EndOfTrack)
        } else {
            Err(wrong)
        },
        0x51 => if n == 3 {
            Ok(
                MetaEvent::SetTempo {
                    tempo: payload[0] as u32 * 0x1_0000 + payload[1] as u32 * 0x100
                        + payload[2] as u32,
                },
            )
        } else {
            Err(wrong)
        },
        0x54 => if n == 5 {
            Ok(
                MetaEvent::SMPTEOffset {
                    smpte: payload[0] as u32 * 0x100_0000 + payload[1] as u32 * 0x1_0000
                        + payload[2] as u32 * 0x100 + payload[3] as u32,
                    frame: payload[4],
                },
            )
        } else {
            Err(wrong)
        },
        0x58 => if n == 4 {
            Ok(
                MetaEvent::TimeSignature {
                    numerator: payload[0],
                    denominator: payload[1],
                    clocks: payload[2],
                    notes: payload[3],
                },
            )
        } else {
            Err(wrong)
        },
        0x59 => if n == 2 {
            Ok(MetaEvent::KeySignature { sf: payload[0], minor: payload[1] })
        } else {
            Err(wrong)
        },
        0x7F => Ok(MetaEvent::SequencerSpecific { length, data: payload }),
        _ => Err(SmfError::UnknownMetaType(t)),
    }
}

/// Decodes a Standard MIDI File: the chunks, one by one, and the events of
/// each track, under the running-status rule.
pub struct SmfParser {
    reader: SmfReader,
    running_status: Option<u8>,
}

impl SmfParser {
    /// The bytes being read.
    pub closed spec fn bytes(&self) -> Seq<u8> {
        self.reader.bytes()
    }

    /// The position of the next byte to read.
    pub closed spec fn pos(&self) -> int {
        self.reader.pos()
    }

    /// The status byte of the last channel message with one, in the current
    /// track.
    pub closed spec fn running_status(&self) -> Option<u8> {
        self.running_status
    }

    pub fn new(reader: SmfReader) -> (r: SmfParser)
        ensures
            r.bytes() == reader.bytes(),
            r.pos() == reader.pos(),
            r.running_status() == None::<u8>,
    {
        SmfParser { reader, running_status: None }
    }

    /// Goes back to the first byte, with no running status.
    pub fn reset(&mut self)
        ensures
            final(self).bytes() == old(self).bytes(),
            final(self).pos() == 0,
            final(self).running_status() == None::<u8>,
    {
        self.reader.reset_pointer();
        self.running_status = None;
    }

    fn next_byte(&mut self) -> (r: Option<u8>)
        ensures
            final(self).bytes() == old(self).bytes(),
            final(self).running_status() == old(self).running_status(),
            0 <= old(self).pos() < old(self).bytes().len() ==> r == Some(
                old(self).bytes()[old(self).pos()],
            ) && final(self).pos() == old(self).pos() + 1,
            !(0 <= old(self).pos() < old(self).bytes().len()) ==> r.is_none(),
    {
        // Learns that the cursor is within the bytes.
        self.reader.remaining();
        match self.reader.next_bytes_ref(1) {
            Some(b) => Some(b[0]),
            None => None,
        }
    }

    fn peek_byte(&self) -> (r: Option<u8>)
        ensures
            0 <= self.pos() < self.bytes().len() ==> r == Some(self.bytes()[self.pos()]),
            !(0 <= self.pos() < self.bytes().len()) ==> r.is_none(),
    {
        // Learns that the cursor is within the bytes.
        self.reader.remaining();
        match self.reader.seek_bytes_ref(1) {
            Some(b) => Some(b[0]),
            None => None,
        }
    }

    fn parse_vlq(&mut self) -> (r: Result<u32, SmfError>)
        ensures
            final(self).bytes() == old(self).bytes(),
            final(self).running_status() == old(self).running_status(),
            match read_vlq(old(self).bytes(), old(self).pos()) {
                Ok((v, q)) => r == Ok::<u32, SmfError>(v) && final(self).pos() == q,
                Err(e) => r == Err::<u32, SmfError>(e),
            },
    {
        let rem = self.reader.remaining();
        let m: usize = if rem < 4 {
            rem
        } else {
            4
        };
        proof {
            lemma_vlq_window(self.bytes(), self.pos(), m as int, 0);
            lemma_vlq_scan_advances(self.bytes().subrange(self.pos(), self.pos() + m), 0, 0);
        }
        let decoded = match self.reader.seek_bytes_ref(m) {
            Some(window) => decode_vlq(window),
            None => Err(SmfError::TruncatedInput),
        };
        match decoded {
            Ok((v, k)) => {
                self.reader.skip_bytes(k);
                Ok(v)
            },
            Err(e) => Err(e),
        }
    }

    /// Reads a channel message, with its status byte or, where the next
    /// byte is a data byte, under the running status.
    fn parse_channel_message(&mut self) -> (r: Result<MidiChannelMessage, SmfError>)
        requires
            0 <= old(self).pos() < old(self).bytes().len(),
            old(self).bytes()[old(self).pos()] < 0xF0,
        ensures
            final(self).bytes() == old(self).bytes(),
            match read_event(old(self).bytes(), old(self).pos(), old(self).running_status()) {
                Ok((e, q, rs)) => r matches Ok(m) && e == SpecMidiEvent::MidiChannelMessage(m)
                    && final(self).pos() == q && final(self).running_status() == rs,
                Err(e) => r == Err::<MidiChannelMessage, SmfError>(e),
            },
    {
        let raw_head = match self.peek_byte() {
            Some(b) => b,
            None => return Err(SmfError::TruncatedInput),
        };
        let head: u8;
        if raw_head < 0x80 {
            match self.running_status {
                Some(status) => {
                    head = status;
                },
                None => return Err(SmfError::MissingRunningStatus),
            }
        } else {
            self.next_byte();
            head = raw_head;
            self.running_status = Some(head);
        }
        let a = match self.next_byte() {
            Some(b) => b,
            None => return Err(SmfError::TruncatedInput),
        };
        let b = if 0xC0 <= head && head < 0xE0 {
            0
        } else {
            match self.next_byte() {
                Some(b) => b,
                None => return Err(SmfError::TruncatedInput),
            }
        };
        Ok(make_channel_message(head, a, b))
    }

    /// Reads a payload preceded by its length.
    fn parse_payload(&mut self) -> (r: Result<(u32, Vec<u8>), SmfError>)
        ensures
            final(self).bytes() == old(self).bytes(),
            final(self).running_status() == old(self).running_status(),
            match read_payload(old(self).bytes(), old(self).pos()) {
                Ok((n, payload, q)) => r matches Ok((m, v)) && m == n && v@ == payload
                    && final(self).pos() == q,
                Err(e) => r == Err::<(u32, Vec<u8>), SmfError>(e),
            },
            r matches Ok((m, v)) ==> v@.len() == m,
    {
        let n = match self.parse_vlq() {
            Ok(n) => n,
            Err(e) => return Err(e),
        };
        // Learns that the cursor is within the bytes.
        self.reader.remaining();
        match self.reader.next_bytes(n as usize) {
            Some(v) => Ok((n, v)),
            None => Err(SmfError::TruncatedInput),
        }
    }

    /// Reads a meta event, from its `FF` on.
    fn parse_meta_event(&mut self) -> (r: Result<MetaEvent, SmfError>)
        requires
            0 <= old(self).pos() < old(self).bytes().len(),
            old(self).bytes()[old(self).pos()] == 0xFF,
        ensures
            final(self).bytes() == old(self).bytes(),
            match read_event(old(self).bytes(), old(self).pos(), old(self).running_status()) {
                Ok((e, q, rs)) => r matches Ok(m) && e == SpecMidiEvent::MetaEvent(m@)
                    && final(self).pos() == q && final(self).running_status() == rs,
                Err(e) => r == Err::<MetaEvent, SmfError>(e),
            },
    {
        self.next_byte();
        let meta = match self.next_byte() {
            Some(b) => b,
            None => return Err(SmfError::TruncatedInput),
        };
        match self.parse_payload() {
            Ok((_, payload)) => make_meta_event(meta, payload),
            Err(e) => Err(e),
        }
    }

    /// Reads a system-exclusive event, from its prefix byte on.
    fn parse_sysex(&mut self) -> (r: Result<SysExEvent, SmfError>)
        requires
            0 <= old(self).pos() < old(self).bytes().len(),
            old(self).bytes()[old(self).pos()] == 0xF0 || old(self).bytes()[old(self).pos()]
                == 0xF7,
        ensures
            final(self).bytes() == old(self).bytes(),
            match read_event(old(self).bytes(), old(self).pos(), old(self).running_status()) {
                Ok((e, q, rs)) => r matches Ok(x) && e == SpecMidiEvent::SysExEvent(x@)
                    && final(self).pos() == q && final(self).running_status() == rs,
                Err(e) => r == Err::<SysExEvent, SmfError>(e),
            },
    {
        let prefix = match self.next_byte() {
            Some(b) => b,
            None => return Err(SmfError::TruncatedInput),
        };
        match self.parse_payload() {
            Ok((length, data)) => if prefix == 0xF0 {
                Ok(SysExEvent::SysExF0 { length, data })
            } else {
                Ok(SysExEvent::SysExF7 { length, data })
            },
            Err(e) => Err(e),
        }
    }

    /// Reads one event.
    fn parse_midi_event(&mut self) -> (r: Result<MidiEvent, SmfError>)
        ensures
            final(self).bytes() == old(self).bytes(),
            match read_event(old(self).bytes(), old(self).pos(), old(self).running_status()) {
                Ok((e, q, rs)) => r matches Ok(x) && x@ == e && final(self).pos() == q
                    && final(self).running_status() == rs,
                Err(e) => r == Err::<MidiEvent, SmfError>(e),
            },
    {
        let first_byte = match self.peek_byte() {
            Some(b) => b,
            None => return Err(SmfError::TruncatedInput),
        };
        if first_byte < 0xF0 {
            match self.parse_channel_message() {
                Ok(m) => Ok(MidiEvent::MidiChannelMessage(m)),
                Err(e) => Err(e),
            }
        } else if first_byte == 0xFF {
            match self.parse_meta_event() {
                Ok(m) => Ok(MidiEvent::MetaEvent(m)),
                Err(e) => Err(e),
            }
        } else if first_byte == 0xF0 || first_byte == 0xF7 {
            match self.parse_sysex() {
                Ok(x) => Ok(MidiEvent::SysExEvent(x)),
                Err(e) => Err(e),
            }
        } else {
            Err(SmfError::UnknownStatusByte(first_byte))
        }
    }

    /// Reads a time and an event.
    pub fn parse_mtrk_event(&mut self) -> (r: Result<EventPair, SmfError>)
        ensures
            final(self).bytes() == old(self).bytes(),
            match read_pair(old(self).bytes(), old(self).pos(), old(self).running_status()) {
                Ok((pair, q, rs)) => r matches Ok(x) && x@ == pair && final(self).pos() == q
                    && final(self).running_status() == rs,
                Err(e) => r == Err::<EventPair, SmfError>(e),
            },
    {
        let delta_time = match self.parse_vlq() {
            Ok(t) => t,
            Err(e) => return Err(e),
        };
        match self.parse_midi_event() {
            Ok(event) => Ok(EventPair::new(delta_time, event)),
            Err(e) => Err(e),
        }
    }

    /// Reads the events of a track, up to and with its end-of-track event.
    pub fn parse_mtrk_events(&mut self) -> (r: Result<Vec<EventPair>, SmfError>)
        ensures
            final(self).bytes() == old(self).bytes(),
            match read_events(old(self).bytes(), old(self).pos(), old(self).running_status()) {
                Ok((events, q)) => r matches Ok(v) && v@.map_values(|e: EventPair| e@) == events
                    && final(self).pos() == q,
                Err(e) => r == Err::<Vec<EventPair>, SmfError>(e),
            },
    {
        let ghost d = self.bytes();
        let ghost whole = read_events(self.bytes(), self.pos(), self.running_status());
        let mut pairs: Vec<EventPair> = Vec::new();
        // Learns that the cursor is within the bytes.
        self.reader.remaining();
        loop
            invariant
                self.bytes() == d,
                d == old(self).bytes(),
                whole == read_events(old(self).bytes(), old(self).pos(), old(self).running_status()),
                0 <= self.pos() <= d.len(),
                whole == prepend_events(
                    pairs@.map_values(|e: EventPair| e@),
                    read_events(d, self.pos(), self.running_status()),
                ),
            decreases d.len() - self.pos(),
        {
            let ghost p = self.pos();
            let ghost rs = self.running_status();
            proof {
                lemma_read_pair_advances(d, p, rs);
            }
            let pair = match self.parse_mtrk_event() {
                Ok(pair) => pair,
                Err(e) => {
                    return Err(e);
                },
            };
            let is_end = match pair.event() {
                MidiEvent::MetaEvent(MetaEvent::EndOfTrack) => true,
                _ => false,
            };
            let ghost before = pairs@.map_values(|e: EventPair| e@);
            let ghost pv = pair@;
            pairs.push(pair);
            assert(pairs@.map_values(|e: EventPair| e@) =~= before.push(pv));
            if is_end {
                assert(before + seq![pv] =~= before.push(pv));
                return Ok(pairs);
            }
            assert(before + (seq![pv] + read_events(d, self.pos(), self.running_status())->Ok_0.0)
                =~= before.push(pv) + read_events(d, self.pos(), self.running_status())->Ok_0.0);
        }
    }

    /// Reads the next chunk. A header's fields are all read before its
    /// declared length is checked; each track starts with no running status.
    pub fn next_chunk(&mut self) -> (r: Result<MidiChunk, SmfError>)
        ensures
            final(self).bytes() == old(self).bytes(),
            match read_chunk(old(self).bytes(), old(self).pos()) {
                Ok((c, q)) => r matches Ok(x) && x@ == c && final(self).pos() == q,
                Err(e) => r == Err::<MidiChunk, SmfError>(e),
            },
    {
        let ghost d = self.bytes();
        let ghost p = self.pos();
        // Learns that the cursor is within the bytes.
        self.reader.remaining();
        let header = match self.reader.next_bytes(4) {
            Some(h) => h,
            None => return Err(SmfError::TruncatedInput),
        };
        assert(header@ == d.subrange(p, p + 4));
        if header[0] == 0x4D && header[1] == 0x54 && header[2] == 0x68 && header[3] == 0x64 {
            assert(header@ =~= header_tag());
            let body = match self.reader.next_bytes(10) {
                Some(b) => b,
                None => return Err(SmfError::TruncatedInput),
            };
            assert(body@ =~= d.subrange(p + 4, p + 14));
            let length = body[0] as u32 * 0x100_0000 + body[1] as u32 * 0x1_0000 + body[2] as u32
                * 0x100 + body[3] as u32;
            if length != 6 {
                return Err(SmfError::MalformedHeader);
            }
            Ok(
                MidiChunk::HeaderChunk(
                    HeaderChunk {
                        length,
                        format: body[4] as u16 * 0x100 + body[5] as u16,
                        tracks: body[6] as u16 * 0x100 + body[7] as u16,
                        resolution: body[8] as u16 * 0x100 + body[9] as u16,
                    },
                ),
            )
        } else if header[0] == 0x4D && header[1] == 0x54 && header[2] == 0x72 && header[3]
            == 0x6B {
            assert(header@ =~= track_tag());
            assert(header@ != header_tag()) by {
                assert(header_tag()[2] == 0x68);
            }
            let len_bytes = match self.reader.next_bytes(4) {
                Some(b) => b,
                None => return Err(SmfError::TruncatedInput),
            };
            assert(len_bytes@ =~= d.subrange(p + 4, p + 8));
            let length = len_bytes[0] as u32 * 0x100_0000 + len_bytes[1] as u32 * 0x1_0000
                + len_bytes[2] as u32 * 0x100 + len_bytes[3] as u32;
            self.running_status = None;
            match self.parse_mtrk_events() {
                Ok(events) => Ok(MidiChunk::TrackChunk(TrackChunk { length, events })),
                Err(e) => Err(e),
            }
        } else {
            assert(header@ != header_tag()) by {
                if header@ == header_tag() {
                    assert(header@[0] == 0x4D && header@[1] == 0x54 && header@[2] == 0x68
                        && header@[3] == 0x64);
                }
            }
            assert(header@ != track_tag()) by {
                if header@ == track_tag() {
                    assert(header@[0] == 0x4D && header@[1] == 0x54 && header@[2] == 0x72
                        && header@[3] == 0x6B);
                }
            }
            Err(SmfError::UnrecognizedChunk(header[0], header[1], header[2], header[3]))
        }
    }

    /// Reads track chunks until fewer than four bytes are left.
    fn parse_tracks(&mut self) -> (r: Result<Vec<TrackChunk>, SmfError>)
        ensures
            final(self).bytes() == old(self).bytes(),
            match read_tracks(old(self).bytes(), old(self).pos()) {
                Ok(ts) => r matches Ok(v) && v@.map_values(|t: TrackChunk| t@) == ts,
                Err(e) => r == Err::<Vec<TrackChunk>, SmfError>(e),
            },
    {
        let ghost d = self.bytes();
        let ghost whole = read_tracks(d, self.pos());
        let mut tracks: Vec<TrackChunk> = Vec::new();
        loop
            invariant
                self.bytes() == d,
                d == old(self).bytes(),
                whole == read_tracks(old(self).bytes(), old(self).pos()),
                whole == prepend_tracks(
                    tracks@.map_values(|t: TrackChunk| t@),
                    read_tracks(d, self.pos()),
                ),
            decreases d.len() - self.pos(),
        {
            let ghost p = self.pos();
            let ghost before = tracks@.map_values(|t: TrackChunk| t@);
            let rem = self.reader.remaining();
            if rem < 4 {
                assert(before + Seq::<SpecTrackChunk>::empty() =~= before);
                return Ok(tracks);
            }
            proof {
                lemma_read_chunk_advances(d, p);
            }
            let chunk = self.next_chunk();
            match chunk {
                Ok(MidiChunk::TrackChunk(t)) => {
                    let ghost tv = t@;
                    let ghost tail = read_tracks(d, self.pos());
                    assert(read_tracks(d, p) == prepend_tracks(seq![tv], tail));
                    tracks.push(t);
                    assert(tracks@.map_values(|t: TrackChunk| t@) =~= before.push(tv));
                    proof {
                        if let Ok(ts) = tail {
                            assert(before + (seq![tv] + ts) =~= before.push(tv) + ts);
                        }
                    }
                },
                Ok(MidiChunk::HeaderChunk(_)) => {
                    assert(read_tracks(d, p) == Err::<Seq<SpecTrackChunk>, SmfError>(
                        SmfError::MalformedHeader,
                    ));
                    return Err(SmfError::MalformedHeader);
                },
                Err(e) => {
                    return Err(e);
                },
            }
        }
    }

    /// Reads a whole file: a header chunk, then track chunks until fewer
    /// than four bytes are left.
    pub fn read_all(&mut self) -> (r: Result<SMF, SmfError>)
        ensures
            final(self).bytes() == old(self).bytes(),
            match read_smf(old(self).bytes(), old(self).pos()) {
                Ok(smf) => r matches Ok(x) && x@ == smf,
                Err(e) => r == Err::<SMF, SmfError>(e),
            },
    {
        let header = match self.next_chunk() {
            Ok(MidiChunk::HeaderChunk(h)) => h,
            Ok(MidiChunk::TrackChunk(_)) => return Err(SmfError::MalformedHeader),
            Err(e) => return Err(e),
        };
        let tracks = match self.parse_tracks() {
            Ok(tracks) => tracks,
            Err(e) => return Err(e),
        };
        Ok(SMF::new(header, tracks))
    }
}

proof fn lemma_read_events_end(d: Seq<u8>, p: int, rs: Option<u8>)
    ensures
        read_events(d, p, rs) matches Ok((evs, _)) ==> ends_with_one_end_of_track(evs),
    decreases d.len() - p,
{
    lemma_read_pair_advances(d, p, rs);
    if let Ok((pair, q, rs2)) = read_pair(d, p, rs) {
        if !pair.event.is_end_of_track() {
            lemma_read_events_end(d, q, rs2);
            if let Ok((rest, _)) = read_events(d, q, rs2) {
                let evs = seq![pair] + rest;
                assert(evs.last() == rest.last());
                assert forall|i: int| 0 <= i < evs.len() - 1 implies !(
                #[trigger] evs[i].event.is_end_of_track()) by {
                    if i > 0 {
                        assert(evs[i] == rest[i - 1]);
                    }
                }
            }
        }
    }
}

/// A track read from bytes ends with an end-of-track event, and no other
/// of its events is one.
pub proof fn lemma_parsed_track_ends_once(d: Seq<u8>, p: int)
    ensures
        read_chunk(d, p) matches Ok((SpecMidiChunk::TrackChunk(t), _)) ==> ends_with_one_end_of_track(
            t.events,
        ),
{
    lemma_read_events_end(d, p + 8, None);
}

/// Every track of a file read from bytes ends with an end-of-track event,
/// and no other of its events is one.
pub proof fn lemma_parsed_file_tracks_end_once(d: Seq<u8>, p: int)
    ensures
        read_smf(d, p) matches Ok(smf) ==> forall|i: int|
            0 <= i < smf.tracks.len() ==> ends_with_one_end_of_track(
                #[trigger] smf.tracks[i].events,
            ),
{
    if let Ok((SpecMidiChunk::HeaderChunk(_), q)) = read_chunk(d, p) {
        lemma_read_tracks_end(d, q);
    }
}

proof fn lemma_read_tracks_end(d: Seq<u8>, p: int)
    ensures
        read_tracks(d, p) matches Ok(ts) ==> forall|i: int|
            0 <= i < ts.len() ==> ends_with_one_end_of_track(#[trigger] ts[i].events),
    decreases d.len() - p,
{
    if d.len() - p >= 4 {
        lemma_read_chunk_advances(d, p);
        lemma_parsed_track_ends_once(d, p);
        if let Ok((SpecMidiChunk::TrackChunk(t), q)) = read_chunk(d, p) {
            lemma_read_tracks_end(d, q);
            if let Ok(rest) = read_tracks(d, q) {
                let ts = seq![t] + rest;
                assert forall|i: int| 0 <= i < ts.len() implies ends_with_one_end_of_track(
                    #[trigger] ts[i].events,
                ) by {
                    if i > 0 {
                        assert(ts[i] == rest[i - 1]);
                    }
                }
            }
        }
    }
}

/// A track whose first event starts with a data byte, where no status byte
/// came before it in the track, fails with `MissingRunningStatus`.
pub proof fn lemma_first_event_needs_status(d: Seq<u8>, p: int)
    requires
        0 <= p,
        p + 4 <= d.len(),
        d.subrange(p, p + 4) == track_tag(),
        p + 8 <= d.len(),
        read_vlq(d, p + 8) matches Ok((_, q)) && q < d.len() && d[q] < 0x80,
    ensures
        read_chunk(d, p) == Err::<(SpecMidiChunk, int), SmfError>(SmfError::MissingRunningStatus),
{
    assert(d.subrange(p, p + 4) != header_tag()) by {
        assert(d.subrange(p, p + 4)[2] == 0x72);
    }
    lemma_vlq_scan_advances(d, p + 8, 0);
}

} // verus!
