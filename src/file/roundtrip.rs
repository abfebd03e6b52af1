//! Reading undoes writing: laws that relate the encoder and the decoder.
use vstd::prelude::*;

use super::filerw::SmfError;
use super::parser::{
    be16_at, be32_at, channel_message, data_len, meta_event_of, mode_message, read_chunk,
    read_event, read_events, read_pair, read_payload, read_smf, read_tracks,
};
use crate::types::event::{
    ends_with_one_end_of_track, events_raw, header_tag, track_tag, tracks_declared_raw,
    tracks_raw, HeaderChunk, SpecEventPair, SpecMidiChunk, SpecMidiEvent, SpecSmf, SpecTrackChunk,
};
use crate::types::message::{
    be16_bytes, be24_bytes, be32_bytes, lemma_vlq_round_trip, meta_frame, read_vlq, sysex_frame,
    vlq_bytes, ChannelModeMessage, ChannelVoiceMessage, MidiChannelMessage, SmfElement,
    SpecMetaEvent, SpecSysExEvent, VLQ_MAX,
};

verus! {

/// Where `d` holds `a + b` at `p`, it holds `a` at `p` and `b` right after.
proof fn lemma_split(d: Seq<u8>, p: int, a: Seq<u8>, b: Seq<u8>)
    requires
        0 <= p,
        p + a.len() + b.len() <= d.len(),
        d.subrange(p, p + a.len() + b.len()) == a + b,
    ensures
        d.subrange(p, p + a.len()) == a,
        d.subrange(p + a.len(), p + a.len() + b.len()) == b,
{
    assert(d.subrange(p, p + a.len()) =~= (a + b).subrange(0, a.len() as int));
    assert(d.subrange(p + a.len(), p + a.len() + b.len()) =~= (a + b).subrange(
        a.len() as int,
        (a.len() + b.len()) as int,
    ));
}

/// A channel message reads back from its encoding, and its status byte
/// becomes the running status.
pub proof fn lemma_channel_round_trip(m: MidiChannelMessage, d: Seq<u8>, p: int, rs: Option<u8>)
    requires
        m.well_formed(),
        0 <= p,
        p + m.spec_raw().len() <= d.len(),
        d.subrange(p, p + m.spec_raw().len()) == m.spec_raw(),
    ensures
        read_event(d, p, rs) == Ok::<(SpecMidiEvent, int, Option<u8>), SmfError>(
            (SpecMidiEvent::MidiChannelMessage(m), p + m.spec_raw().len(), Some(d[p])),
        ),
{
    let r = m.spec_raw();
    assert forall|i: int| 0 <= i < r.len() implies d[p + i] == r[i] by {
        assert(d.subrange(p, p + r.len())[i] == d[p + i]);
    }
    let status = d[p];
    let ch = m.spec_channel();
    let b = if r.len() == 3 {
        d[p + 2]
    } else {
        0
    };
    assert(r.len() >= 2);
    assert(d[p + 1] == r[1]);
    if r.len() == 3 {
        assert(d[p + 2] == r[2]);
    }
    match m {
        MidiChannelMessage::ChannelVoiceMessage { message } => {
            assert(r == message.spec_raw());
            assert(r[0] == message.spec_status_byte());
            assert(status == message.status_base() + ch);
            match message {
                ChannelVoiceMessage::NoteOff { key, vel, .. } => {
                    assert(r =~= seq![message.spec_status_byte(), key, vel]);
                    assert(r.len() == 3 && d[p + 1] == key && b == vel);
                },
                ChannelVoiceMessage::NoteOn { key, vel, .. } => {
                    assert(r =~= seq![message.spec_status_byte(), key, vel]);
                    assert(r.len() == 3 && d[p + 1] == key && b == vel);
                },
                ChannelVoiceMessage::PolyphonicKeyPressure { key, vel, .. } => {
                    assert(r =~= seq![message.spec_status_byte(), key, vel]);
                    assert(r.len() == 3 && d[p + 1] == key && b == vel);
                },
                ChannelVoiceMessage::ControlChange { cc, value, .. } => {
                    assert(r.len() == 3 && d[p + 1] == cc && b == value);
                },
                ChannelVoiceMessage::ProgramChange { program, .. } => {
                    assert(r.len() == 2 && d[p + 1] == program);
                },
                ChannelVoiceMessage::ChannelKeyPressure { vel, .. } => {
                    assert(r.len() == 2 && d[p + 1] == vel);
                },
                ChannelVoiceMessage::PitchBend { lsb, msb, .. } => {
                    assert(r =~= seq![message.spec_status_byte(), lsb, msb]);
                    assert(r.len() == 3 && d[p + 1] == lsb && b == msb);
                },
            }
            assert(status % 16 == ch);
            assert(data_len(status) == r.len() - 1);
            assert(channel_message(status, d[p + 1], b) == m);
        },
        MidiChannelMessage::ChannelModeMessage { message } => {
            assert(r == message.spec_raw());
            assert(status == 0xB0 + ch);
            assert(status % 16 == ch);
            assert(data_len(status) == 2);
            assert(mode_message(ch, d[p + 1], d[p + 2]) == message);
            assert(channel_message(status, d[p + 1], b) == m);
        },
    }
}

proof fn lemma_be16(n: u16)
    ensures
        be16_at(be16_bytes(n), 0) == n,
{
    let s = be16_bytes(n);
    assert(s[0] as int == n / 0x100);
    assert(s[1] as int == n % 0x100);
}

proof fn lemma_be24(n: u32)
    requires
        n <= 0xFF_FFFF,
    ensures
        (be24_bytes(n)[0] * 0x1_0000 + be24_bytes(n)[1] * 0x100 + be24_bytes(n)[2]) as u32 == n,
{
    let s = be24_bytes(n);
    assert(s[0] as int == (n / 0x1_0000) % 0x100);
    assert(s[1] as int == (n / 0x100) % 0x100);
    assert(s[2] as int == n % 0x100);
    assert(((n / 0x1_0000) % 0x100) * 0x1_0000 + ((n / 0x100) % 0x100) * 0x100 + n % 0x100 == n)
        by (bit_vector)
        requires
            n <= 0xFF_FFFF,
    ;
}

proof fn lemma_be32(n: u32)
    ensures
        be32_at(be32_bytes(n), 0) == n,
{
    let s = be32_bytes(n);
    assert(s[0] as int == n / 0x100_0000);
    assert(s[1] as int == (n / 0x1_0000) % 0x100);
    assert(s[2] as int == (n / 0x100) % 0x100);
    assert(s[3] as int == n % 0x100);
    assert((n / 0x100_0000) * 0x100_0000 + ((n / 0x1_0000) % 0x100) * 0x1_0000 + ((n / 0x100)
        % 0x100) * 0x100 + n % 0x100 == n) by (bit_vector);
}

/// Where `d` holds, at `p`, a payload's length as a variable-length
/// quantity and then the payload, reading it gives them.
proof fn lemma_payload_round_trip(payload: Seq<u8>, d: Seq<u8>, p: int)
    requires
        payload.len() <= VLQ_MAX,
        0 <= p,
        p + vlq_bytes(payload.len()).len() + payload.len() <= d.len(),
        d.subrange(p, p + vlq_bytes(payload.len()).len() + payload.len()) == vlq_bytes(
            payload.len(),
        ) + payload,
    ensures
        read_payload(d, p) == Ok::<(u32, Seq<u8>, int), SmfError>(
            (
                payload.len() as u32,
                payload,
                p + vlq_bytes(payload.len()).len() + payload.len(),
            ),
        ),
{
    let n = payload.len() as u32;
    let v = vlq_bytes(n as nat);
    lemma_split(d, p, v, payload);
    lemma_vlq_round_trip(n, d, p);
}

/// A meta event reads back from its encoding, and leaves the running
/// status as it was.
pub proof fn lemma_meta_round_trip(m: SpecMetaEvent, d: Seq<u8>, p: int, rs: Option<u8>)
    requires
        m.well_formed(),
        0 <= p,
        p + m.raw().len() <= d.len(),
        d.subrange(p, p + m.raw().len()) == m.raw(),
    ensures
        read_event(d, p, rs) == Ok::<(SpecMidiEvent, int, Option<u8>), SmfError>(
            (SpecMidiEvent::MetaEvent(m), p + m.raw().len(), rs),
        ),
{
    let payload = m.payload();
    let head = seq![0xFFu8, m.type_code()];
    let v = vlq_bytes(payload.len());
    assert(m.raw() =~= head + (v + payload));
    lemma_split(d, p, head, v + payload);
    assert(d[p] == d.subrange(p, p + 2)[0]);
    assert(d[p + 1] == d.subrange(p, p + 2)[1]);
    lemma_payload_round_trip(payload, d, p + 2);
    match m {
        SpecMetaEvent::SequenceNumber { number } => {
            lemma_be16(number);
        },
        SpecMetaEvent::SetTempo { tempo } => {
            lemma_be24(tempo);
        },
        SpecMetaEvent::SMPTEOffset { smpte, frame } => {
            lemma_be32(smpte);
            assert(be32_at(payload, 0) == be32_at(be32_bytes(smpte), 0));
        },
        SpecMetaEvent::TimeSignature { .. } => {},
        SpecMetaEvent::KeySignature { .. } => {},
        _ => {},
    }
    assert(meta_event_of(m.type_code(), payload) == Ok::<SpecMetaEvent, SmfError>(m));
}

/// A system-exclusive event reads back from its encoding, and leaves the
/// running status as it was.
pub proof fn lemma_sysex_round_trip(x: SpecSysExEvent, d: Seq<u8>, p: int, rs: Option<u8>)
    requires
        x.well_formed(),
        0 <= p,
        p + x.raw().len() <= d.len(),
        d.subrange(p, p + x.raw().len()) == x.raw(),
    ensures
        read_event(d, p, rs) == Ok::<(SpecMidiEvent, int, Option<u8>), SmfError>(
            (SpecMidiEvent::SysExEvent(x), p + x.raw().len(), rs),
        ),
{
    let data = x.data();
    let head = seq![x.prefix()];
    let v = vlq_bytes(data.len());
    assert(x.raw() =~= head + (v + data));
    lemma_split(d, p, head, v + data);
    assert(d[p] == d.subrange(p, p + 1)[0]);
    lemma_payload_round_trip(data, d, p + 1);
}

/// An event reads back from its encoding, whatever the running status.
pub proof fn lemma_event_round_trip(e: SpecMidiEvent, d: Seq<u8>, p: int, rs: Option<u8>)
    requires
        e.well_formed(),
        0 <= p,
        p + e.raw().len() <= d.len(),
        d.subrange(p, p + e.raw().len()) == e.raw(),
    ensures
        read_event(d, p, rs) matches Ok((x, q, _)) && x == e && q == p + e.raw().len(),
{
    match e {
        SpecMidiEvent::MidiChannelMessage(m) => lemma_channel_round_trip(m, d, p, rs),
        SpecMidiEvent::MetaEvent(m) => lemma_meta_round_trip(m, d, p, rs),
        SpecMidiEvent::SysExEvent(x) => lemma_sysex_round_trip(x, d, p, rs),
    }
}

/// A time and an event read back from their encoding, whatever the
/// running status.
pub proof fn lemma_pair_round_trip(pair: SpecEventPair, d: Seq<u8>, p: int, rs: Option<u8>)
    requires
        pair.well_formed(),
        0 <= p,
        p + pair.raw().len() <= d.len(),
        d.subrange(p, p + pair.raw().len()) == pair.raw(),
    ensures
        read_pair(d, p, rs) matches Ok((x, q, _)) && x == pair && q == p + pair.raw().len(),
{
    let v = vlq_bytes(pair.time as nat);
    lemma_split(d, p, v, pair.event.raw());
    lemma_vlq_round_trip(pair.time, d, p);
    lemma_event_round_trip(pair.event, d, p + v.len(), rs);
}

proof fn lemma_events_raw_front(s: Seq<SpecEventPair>)
    requires
        s.len() > 0,
    ensures
        events_raw(s) == s[0].raw() + events_raw(s.drop_first()),
    decreases s.len(),
{
    if s.len() == 1 {
        assert(s.drop_last() =~= Seq::<SpecEventPair>::empty());
        assert(s.drop_first() =~= Seq::<SpecEventPair>::empty());
        assert(events_raw(s) =~= s[0].raw() + events_raw(s.drop_first()));
    } else {
        lemma_events_raw_front(s.drop_last());
        assert(s.drop_last().drop_first() =~= s.drop_first().drop_last());
        assert(s.drop_first().last() == s.last());
        assert(events_raw(s) =~= s[0].raw() + events_raw(s.drop_first()));
    }
}

/// The events of a well-formed track read back from their encoding,
/// whatever the running status.
pub proof fn lemma_events_round_trip(evs: Seq<SpecEventPair>, d: Seq<u8>, p: int, rs: Option<u8>)
    requires
        ends_with_one_end_of_track(evs),
        forall|i: int| 0 <= i < evs.len() ==> (#[trigger] evs[i]).well_formed(),
        0 <= p,
        p + events_raw(evs).len() <= d.len(),
        d.subrange(p, p + events_raw(evs).len()) == events_raw(evs),
    ensures
        read_events(d, p, rs) == Ok::<(Seq<SpecEventPair>, int), SmfError>(
            (evs, p + events_raw(evs).len()),
        ),
    decreases evs.len(),
{
    let first = evs[0];
    let rest = evs.drop_first();
    lemma_events_raw_front(evs);
    lemma_split(d, p, first.raw(), events_raw(rest));
    assert(first.well_formed());
    lemma_pair_round_trip(first, d, p, rs);
    let q = p + first.raw().len();
    if evs.len() == 1 {
        assert(evs =~= seq![first]);
        assert(rest =~= Seq::<SpecEventPair>::empty());
    } else {
        assert(!evs[0].event.is_end_of_track());
        let rs2 = read_pair(d, p, rs)->Ok_0.2;
        assert(rest.last() == evs.last());
        assert forall|i: int| 0 <= i < rest.len() - 1 implies !(
        #[trigger] rest[i].event.is_end_of_track()) by {
            assert(rest[i] == evs[i + 1]);
        }
        assert forall|i: int| 0 <= i < rest.len() implies (#[trigger] rest[i]).well_formed() by {
            assert(rest[i] == evs[i + 1]);
        }
        lemma_events_round_trip(rest, d, q, rs2);
        assert(seq![first] + rest =~= evs);
    }
}

/// A well-formed track reads back from the bytes of a chunk whose length
/// field holds its `length` field, whatever that is.
pub proof fn lemma_track_chunk_round_trip(t: SpecTrackChunk, d: Seq<u8>, p: int)
    requires
        t.well_formed(),
        0 <= p,
        p + t.declared_raw().len() <= d.len(),
        d.subrange(p, p + t.declared_raw().len()) == t.declared_raw(),
    ensures
        read_chunk(d, p) == Ok::<(SpecMidiChunk, int), SmfError>(
            (SpecMidiChunk::TrackChunk(t), p + t.declared_raw().len()),
        ),
{
    let head = track_tag() + be32_bytes(t.length);
    lemma_split(d, p, head, events_raw(t.events));
    lemma_split(d, p, track_tag(), be32_bytes(t.length));
    assert(d.subrange(p, p + 4) != header_tag()) by {
        assert(d.subrange(p, p + 4)[2] == 0x72);
    }
    let len = d.subrange(p + 4, p + 8);
    assert(be32_at(d, p + 4) == be32_at(len, 0));
    lemma_be32(t.length);
    lemma_events_round_trip(t.events, d, p + 8, None);
}

/// A header whose length field is 6 reads back from its encoding.
pub proof fn lemma_header_round_trip(h: HeaderChunk, d: Seq<u8>, p: int)
    requires
        h.length == 6,
        0 <= p,
        p + h.spec_raw().len() <= d.len(),
        d.subrange(p, p + h.spec_raw().len()) == h.spec_raw(),
    ensures
        read_chunk(d, p) == Ok::<(SpecMidiChunk, int), SmfError>(
            (SpecMidiChunk::HeaderChunk(h), p + 14),
        ),
{
    let r = h.spec_raw();
    assert(r.len() == 14);
    assert forall|i: int| 0 <= i < 14 implies d[p + i] == r[i] by {
        assert(d.subrange(p, p + 14)[i] == d[p + i]);
    }
    assert(d.subrange(p, p + 4) =~= header_tag());
    assert(r.subrange(4, 8) =~= be32_bytes(6));
    assert(r.subrange(8, 10) =~= be16_bytes(h.format));
    assert(r.subrange(10, 12) =~= be16_bytes(h.tracks));
    assert(r.subrange(12, 14) =~= be16_bytes(h.resolution));
    assert(d.subrange(p + 4, p + 8) =~= r.subrange(4, 8));
    assert(d.subrange(p + 8, p + 10) =~= r.subrange(8, 10));
    assert(d.subrange(p + 10, p + 12) =~= r.subrange(10, 12));
    assert(d.subrange(p + 12, p + 14) =~= r.subrange(12, 14));
    lemma_be32(6);
    assert(be32_at(d, p + 4) == be32_at(d.subrange(p + 4, p + 8), 0));
    lemma_be16(h.format);
    lemma_be16(h.tracks);
    lemma_be16(h.resolution);
    assert(be16_at(d, p + 8) == be16_at(d.subrange(p + 8, p + 10), 0));
    assert(be16_at(d, p + 10) == be16_at(d.subrange(p + 10, p + 12), 0));
    assert(be16_at(d, p + 12) == be16_at(d.subrange(p + 12, p + 14), 0));
}

proof fn lemma_tracks_declared_raw_front(ts: Seq<SpecTrackChunk>)
    requires
        ts.len() > 0,
    ensures
        tracks_declared_raw(ts) == ts[0].declared_raw() + tracks_declared_raw(ts.drop_first()),
    decreases ts.len(),
{
    if ts.len() == 1 {
        assert(ts.drop_last() =~= Seq::<SpecTrackChunk>::empty());
        assert(ts.drop_first() =~= Seq::<SpecTrackChunk>::empty());
        assert(tracks_declared_raw(ts) =~= ts[0].declared_raw() + tracks_declared_raw(
            ts.drop_first(),
        ));
    } else {
        lemma_tracks_declared_raw_front(ts.drop_last());
        assert(ts.drop_last().drop_first() =~= ts.drop_first().drop_last());
        assert(ts.drop_first().last() == ts.last());
        assert(tracks_declared_raw(ts) =~= ts[0].declared_raw() + tracks_declared_raw(
            ts.drop_first(),
        ));
    }
}

proof fn lemma_tracks_round_trip(ts: Seq<SpecTrackChunk>, d: Seq<u8>, p: int)
    requires
        forall|i: int| 0 <= i < ts.len() ==> (#[trigger] ts[i]).well_formed(),
        0 <= p,
        p + tracks_declared_raw(ts).len() == d.len(),
        d.subrange(p, d.len() as int) == tracks_declared_raw(ts),
    ensures
        read_tracks(d, p) == Ok::<Seq<SpecTrackChunk>, SmfError>(ts),
    decreases ts.len(),
{
    if ts.len() == 0 {
        assert(read_tracks(d, p) == Ok::<Seq<SpecTrackChunk>, SmfError>(Seq::empty()));
        assert(ts =~= Seq::<SpecTrackChunk>::empty());
    } else {
        let t = ts[0];
        let rest = ts.drop_first();
        assert(t.well_formed());
        lemma_tracks_declared_raw_front(ts);
        lemma_split(d, p, t.declared_raw(), tracks_declared_raw(rest));
        lemma_track_chunk_round_trip(t, d, p);
        assert forall|i: int| 0 <= i < rest.len() implies (#[trigger] rest[i]).well_formed() by {
            assert(rest[i] == ts[i + 1]);
        }
        lemma_tracks_round_trip(rest, d, p + t.declared_raw().len());
        assert(seq![t] + rest =~= ts);
    }
}

proof fn lemma_tracks_raw_actual(ts: Seq<SpecTrackChunk>)
    ensures
        tracks_raw(ts) == tracks_declared_raw(
            ts.map_values(|t: SpecTrackChunk| t.with_actual_length()),
        ),
    decreases ts.len(),
{
    let us = ts.map_values(|t: SpecTrackChunk| t.with_actual_length());
    if ts.len() > 0 {
        lemma_tracks_raw_actual(ts.drop_last());
        assert(us.drop_last() =~= ts.drop_last().map_values(
            |t: SpecTrackChunk| t.with_actual_length(),
        ));
        assert(us.last().declared_raw() =~= ts.last().raw());
    }
}

/// Writing undoes reading. The bytes of a well-formed file, whatever its
/// tracks' length fields hold, read back as that file; writing the file
/// then gives the same bytes but with each track's length field holding the
/// length of what follows it, and those bytes read back as the file with
/// those lengths.
pub proof fn lemma_smf_round_trip(m: SpecSmf)
    requires
        m.well_formed(),
    ensures
        read_smf(m.declared_raw(), 0) == Ok::<SpecSmf, SmfError>(m),
        m.raw() == m.with_actual_lengths().declared_raw(),
        read_smf(m.raw(), 0) == Ok::<SpecSmf, SmfError>(m.with_actual_lengths()),
{
    lemma_smf_declared_round_trip(m);
    let a = m.with_actual_lengths();
    assert forall|i: int| 0 <= i < a.tracks.len() implies (#[trigger] a.tracks[i]).well_formed() by {
        assert(m.tracks[i].well_formed());
    }
    lemma_smf_declared_round_trip(a);
    lemma_tracks_raw_actual(m.tracks);
}

proof fn lemma_smf_declared_round_trip(m: SpecSmf)
    requires
        m.well_formed(),
    ensures
        read_smf(m.declared_raw(), 0) == Ok::<SpecSmf, SmfError>(m),
{
    let d = m.declared_raw();
    let h = m.header.spec_raw();
    let rest = tracks_declared_raw(m.tracks);
    lemma_split(d, 0, h, rest);
    assert(d.subrange(0, d.len() as int) =~= d);
    lemma_header_round_trip(m.header, d, 0);
    lemma_tracks_round_trip(m.tracks, d, 14);
}

} // verus!
