//! Event pairs, chunks and whole files with their byte encodings, and the
//! merging of tracks into one.
use vstd::prelude::*;

use super::message::{
    be16_bytes, be32_bytes, extend_bytes, push_vlq, vlq_bytes, VLQ_MAX, MetaEvent, MidiChannelMessage,
    SmfElement, SpecMetaEvent, SpecSysExEvent, SysExEvent,
};

verus! {

/// One event of a track.
#[derive(Debug, Clone, PartialEq, Eq)]
pub enum MidiEvent {
    MidiChannelMessage(MidiChannelMessage),
    MetaEvent(MetaEvent),
    SysExEvent(SysExEvent),
}

/// What a `MidiEvent` holds.
pub enum SpecMidiEvent {
    MidiChannelMessage(MidiChannelMessage),
    MetaEvent(SpecMetaEvent),
    SysExEvent(SpecSysExEvent),
}

impl View for MidiEvent {
    type V = SpecMidiEvent;

    open spec fn view(&self) -> SpecMidiEvent {
        match self {
            MidiEvent::MidiChannelMessage(m) => SpecMidiEvent::MidiChannelMessage(*m),
            MidiEvent::MetaEvent(e) => SpecMidiEvent::MetaEvent(e@),
            MidiEvent::SysExEvent(e) => SpecMidiEvent::SysExEvent(e@),
        }
    }
}

impl SpecMidiEvent {
    pub open spec fn raw(self) -> Seq<u8> {
        match self {
            SpecMidiEvent::MidiChannelMessage(m) => m.spec_raw(),
            SpecMidiEvent::MetaEvent(e) => e.raw(),
            SpecMidiEvent::SysExEvent(e) => e.raw(),
        }
    }

    pub open spec fn encodable(self) -> bool {
        match self {
            SpecMidiEvent::MidiChannelMessage(m) => m.encodable(),
            SpecMidiEvent::MetaEvent(e) => e.encodable(),
            SpecMidiEvent::SysExEvent(e) => e.encodable(),
        }
    }

    /// The event is what reading its own encoding gives.
    pub open spec fn well_formed(self) -> bool {
        match self {
            SpecMidiEvent::MidiChannelMessage(m) => m.well_formed(),
            SpecMidiEvent::MetaEvent(e) => e.well_formed(),
            SpecMidiEvent::SysExEvent(e) => e.well_formed(),
        }
    }

    /// Whether this is the mark that ends a track.
    pub open spec fn is_end_of_track(self) -> bool {
        self matches SpecMidiEvent::MetaEvent(SpecMetaEvent::EndOfTrack)
    }
}

impl SmfElement for MidiEvent {
    open spec fn encodable(&self) -> bool {
        self@.encodable()
    }

    open spec fn spec_raw(&self) -> Seq<u8> {
        self@.raw()
    }

    fn raw(&self) -> (r: Vec<u8>) {
        match self {
            MidiEvent::MidiChannelMessage(message) => message.raw(),
            MidiEvent::MetaEvent(event) => event.raw(),
            MidiEvent::SysExEvent(event) => event.raw(),
        }
    }
}

impl MidiEvent {
    /// Whether `raw` can encode the event: a channel within the 16, a
    /// payload whose length fits 32 bits.
    pub fn is_encodable(&self) -> (r: bool)
        ensures
            r == self@.encodable(),
    {
        let limit = u32::MAX as usize;
        match self {
            MidiEvent::MidiChannelMessage(m) => m.channel() <= 15,
            MidiEvent::MetaEvent(e) => match e {
                MetaEvent::TextEvent { text, .. } => text.len() <= limit,
                MetaEvent::CopyrightNotice { text, .. } => text.len() <= limit,
                MetaEvent::SequenceTrackName { text, .. } => text.len() <= limit,
                MetaEvent::InstrumentName { text, .. } => text.len() <= limit,
                MetaEvent::Lyric { text, .. } => text.len() <= limit,
                MetaEvent::Marker { text, .. } => text.len() <= limit,
                MetaEvent::CuePoint { text, .. } => text.len() <= limit,
                MetaEvent::SequencerSpecific { data, .. } => data.len() <= limit,
                _ => true,
            },
            MidiEvent::SysExEvent(e) => match e {
                SysExEvent::SysExF0 { data, .. } => data.len() <= limit,
                SysExEvent::SysExF7 { data, .. } => data.len() <= limit,
            },
        }
    }
}

/// Represents a delta_time-event pair in SMF
#[derive(Debug, Clone, PartialEq, Eq)]
pub struct EventPair {
    /// The time since the previous event of the track, or, once converted,
    /// the time since the track's start.
    time: u32,
    event: MidiEvent,
}

/// What an `EventPair` holds.
pub struct SpecEventPair {
    pub time: u32,
    pub event: SpecMidiEvent,
}

impl View for EventPair {
    type V = SpecEventPair;

    closed spec fn view(&self) -> SpecEventPair {
        SpecEventPair { time: self.time, event: self.event@ }
    }
}

impl SpecEventPair {
    /// The time as a variable-length quantity, then the event.
    pub open spec fn raw(self) -> Seq<u8> {
        vlq_bytes(self.time as nat) + self.event.raw()
    }

    pub open spec fn encodable(self) -> bool {
        self.event.encodable()
    }

    /// The pair is what reading its own encoding gives: the time fits a
    /// variable-length quantity and the event is well formed.
    pub open spec fn well_formed(self) -> bool {
        self.time <= VLQ_MAX && self.event.well_formed()
    }
}

impl SmfElement for EventPair {
    open spec fn encodable(&self) -> bool {
        self@.encodable()
    }

    open spec fn spec_raw(&self) -> Seq<u8> {
        self@.raw()
    }

    /// Works correctly only when EventPair::time is delta time
    fn raw(&self) -> (r: Vec<u8>) {
        let mut ret: Vec<u8> = Vec::new();
        push_vlq(self.time, false, &mut ret);
        let ev = self.event.raw();
        extend_bytes(&mut ret, ev.as_slice());
        assert(ret@ =~= self@.raw());
        ret
    }
}

impl EventPair {
    pub fn new(time: u32, event: MidiEvent) -> (r: EventPair)
        ensures
            r@ == (SpecEventPair { time, event: event@ }),
    {
        EventPair { time, event }
    }

    pub fn time(&self) -> (r: u32)
        ensures
            r == self@.time,
    {
        self.time
    }

    pub fn event_copy(&self) -> (r: MidiEvent)
        ensures
            r@ == self@.event,
    {
        copy_event(&self.event)
    }

    pub fn event(&self) -> (r: &MidiEvent)
        ensures
            r@ == self@.event,
    {
        &self.event
    }

    /// An equal pair.
    fn copy(&self) -> (r: EventPair)
        ensures
            r@ == self@,
    {
        EventPair { time: self.time, event: copy_event(&self.event) }
    }
}

// MThd and MTrk //

/// A chunk of a Standard MIDI File.
#[derive(Debug, Clone, PartialEq, Eq)]
pub enum MidiChunk {
    HeaderChunk(HeaderChunk),
    TrackChunk(TrackChunk),
}

/// What a `MidiChunk` holds.
pub enum SpecMidiChunk {
    HeaderChunk(HeaderChunk),
    TrackChunk(SpecTrackChunk),
}

impl View for MidiChunk {
    type V = SpecMidiChunk;

    open spec fn view(&self) -> SpecMidiChunk {
        match self {
            MidiChunk::HeaderChunk(h) => SpecMidiChunk::HeaderChunk(*h),
            MidiChunk::TrackChunk(t) => SpecMidiChunk::TrackChunk(t@),
        }
    }
}

/// The header chunk: the file's format, its number of tracks and its
/// division of time.
#[derive(Debug, Clone, Copy, PartialEq, Eq, Structural)]
pub struct HeaderChunk {
    /// The declared length of the chunk's body; 6 in a valid file.
    pub length: u32,
    pub format: u16,
    pub tracks: u16,
    pub resolution: u16,
}

/// A track chunk: its declared length, as read, and its events in order.
#[derive(Debug, Clone, PartialEq, Eq)]
pub struct TrackChunk {
    pub length: u32,
    pub events: Vec<EventPair>,
}

/// What a `TrackChunk` holds.
pub struct SpecTrackChunk {
    pub length: u32,
    pub events: Seq<SpecEventPair>,
}

impl View for TrackChunk {
    type V = SpecTrackChunk;

    open spec fn view(&self) -> SpecTrackChunk {
        SpecTrackChunk { length: self.length, events: self.events@.map_values(|e: EventPair| e@) }
    }
}

/// The tag `MThd`.
pub open spec fn header_tag() -> Seq<u8> {
    seq![0x4Du8, 0x54, 0x68, 0x64]
}

/// The tag `MTrk`.
pub open spec fn track_tag() -> Seq<u8> {
    seq![0x4Du8, 0x54, 0x72, 0x6B]
}

/// Whether `evs` is a track's event list as the format has it: it ends with
/// an end-of-track event, and no other event is one.
pub open spec fn ends_with_one_end_of_track(evs: Seq<SpecEventPair>) -> bool {
    &&& evs.len() > 0
    &&& evs.last().event.is_end_of_track()
    &&& forall|i: int| 0 <= i < evs.len() - 1 ==> !(#[trigger] evs[i].event.is_end_of_track())
}

/// The encodings of `s`, one after another.
pub open spec fn events_raw(s: Seq<SpecEventPair>) -> Seq<u8>
    decreases s.len(),
{
    if s.len() == 0 {
        Seq::empty()
    } else {
        events_raw(s.drop_last()) + s.last().raw()
    }
}

/// The encoding of a prefix of `s` is no longer than that of `s`.
proof fn lemma_events_raw_prefix(s: Seq<SpecEventPair>, i: int)
    requires
        0 <= i <= s.len(),
    ensures
        events_raw(s.subrange(0, i)).len() <= events_raw(s).len(),
    decreases s.len() - i,
{
    if i < s.len() {
        lemma_events_raw_prefix(s, i + 1);
        assert(s.subrange(0, i + 1).drop_last() =~= s.subrange(0, i));
    } else {
        assert(s.subrange(0, i) =~= s);
    }
}

impl SpecTrackChunk {
    /// `MTrk`, the length of the encoded events, and the encoded events;
    /// the `length` field is not looked at.
    pub open spec fn raw(self) -> Seq<u8> {
        track_tag() + be32_bytes(events_raw(self.events).len() as u32) + events_raw(self.events)
    }

    pub open spec fn encodable(self) -> bool {
        &&& forall|i: int| 0 <= i < self.events.len() ==> (#[trigger] self.events[i]).encodable()
        &&& events_raw(self.events).len() <= u32::MAX
    }

    /// The bytes of a chunk whose length field holds the `length` field:
    /// what a file holds where a track was read from.
    pub open spec fn declared_raw(self) -> Seq<u8> {
        track_tag() + be32_bytes(self.length) + events_raw(self.events)
    }

    /// The track with its `length` field set to the length of its encoded
    /// events.
    pub open spec fn with_actual_length(self) -> SpecTrackChunk {
        SpecTrackChunk { length: events_raw(self.events).len() as u32, events: self.events }
    }

    /// The track is what reading its own encoding gives: its events are
    /// well formed, it ends with its one end-of-track event, and its encoded
    /// events fit the 32-bit length field.
    pub open spec fn well_formed(self) -> bool {
        &&& ends_with_one_end_of_track(self.events)
        &&& forall|i: int| 0 <= i < self.events.len() ==> (#[trigger] self.events[i]).well_formed()
        &&& events_raw(self.events).len() <= u32::MAX
    }
}

impl SmfElement for HeaderChunk {
    open spec fn encodable(&self) -> bool {
        true
    }

    /// `MThd`, the length 6, the format, the number of tracks and the
    /// resolution; the `length` field is not looked at.
    open spec fn spec_raw(&self) -> Seq<u8> {
        header_tag() + be32_bytes(6) + be16_bytes(self.format) + be16_bytes(self.tracks)
            + be16_bytes(self.resolution)
    }

    fn raw(&self) -> (r: Vec<u8>) {
        let r = vec![
            0x4D,
            0x54,
            0x68,
            0x64,
            0,
            0,
            0,
            6,
            (self.format / 0x100) as u8,
            (self.format % 0x100) as u8,
            (self.tracks / 0x100) as u8,
            (self.tracks % 0x100) as u8,
            (self.resolution / 0x100) as u8,
            (self.resolution % 0x100) as u8,
        ];
        assert(r@ =~= self.spec_raw());
        r
    }
}

impl SmfElement for TrackChunk {
    open spec fn encodable(&self) -> bool {
        self@.encodable()
    }

    open spec fn spec_raw(&self) -> Seq<u8> {
        self@.raw()
    }

    fn raw(&self) -> (r: Vec<u8>) {
        let ghost evs = self@.events;
        let mut body: Vec<u8> = Vec::new();
        let mut i: usize = 0;
        while i < self.events.len()
            invariant
                i <= self.events.len(),
                evs == self@.events,
                self@.encodable(),
                body@ == events_raw(evs.subrange(0, i as int)),
            decreases self.events.len() - i,
        {
            assert(evs[i as int].encodable());
            let pair = self.events[i].raw();
            extend_bytes(&mut body, pair.as_slice());
            i = i + 1;
            assert(evs.subrange(0, i as int).drop_last() =~= evs.subrange(0, i as int - 1));
        }
        assert(evs.subrange(0, i as int) =~= evs);
        let n = body.len() as u32;
        let mut binary: Vec<u8> = vec![
            0x4D,
            0x54,
            0x72,
            0x6B,
            (n / 0x100_0000) as u8,
            ((n / 0x1_0000) % 0x100) as u8,
            ((n / 0x100) % 0x100) as u8,
            (n % 0x100) as u8,
        ];
        extend_bytes(&mut binary, body.as_slice());
        assert(binary@ =~= self@.raw());
        binary
    }
}

impl SmfElement for MidiChunk {
    open spec fn encodable(&self) -> bool {
        match self {
            MidiChunk::HeaderChunk(h) => h.encodable(),
            MidiChunk::TrackChunk(t) => t.encodable(),
        }
    }

    open spec fn spec_raw(&self) -> Seq<u8> {
        match self {
            MidiChunk::HeaderChunk(h) => h.spec_raw(),
            MidiChunk::TrackChunk(t) => t.spec_raw(),
        }
    }

    fn raw(&self) -> (r: Vec<u8>) {
        match self {
            MidiChunk::HeaderChunk(x) => x.raw(),
            MidiChunk::TrackChunk(x) => x.raw(),
        }
    }
}

impl TrackChunk {
    /// The number of events.
    pub fn len(&self) -> (r: usize)
        ensures
            r == self@.events.len(),
    {
        self.events.len()
    }

    /// Whether `raw` can encode the track: every event can be encoded, and
    /// the encoded events' length fits the 32-bit length field.
    pub fn is_encodable(&self) -> (r: bool)
        ensures
            r == self@.encodable(),
    {
        let ghost evs = self@.events;
        let mut total: u64 = 0;
        let mut i: usize = 0;
        while i < self.events.len()
            invariant
                i <= self.events.len(),
                evs == self@.events,
                forall|k: int| 0 <= k < i ==> (#[trigger] evs[k]).encodable(),
                total == events_raw(evs.subrange(0, i as int)).len(),
                total <= u32::MAX,
            decreases self.events.len() - i,
        {
            assert(evs[i as int] == self.events@[i as int]@);
            if !self.events[i].event().is_encodable() {
                assert(!evs[i as int].encodable());
                return false;
            }
            let pair = self.events[i].raw();
            assert(evs.subrange(0, i as int + 1).drop_last() =~= evs.subrange(0, i as int));
            if pair.len() as u64 > u32::MAX as u64 - total {
                proof {
                    lemma_events_raw_prefix(evs, i as int + 1);
                }
                return false;
            }
            total = total + pair.len() as u64;
            i = i + 1;
        }
        assert(evs.subrange(0, i as int) =~= evs);
        true
    }

    /// Walks the events in order.
    pub fn iter(&self) -> (r: TrackChunkIter<'_>)
        ensures
            r.position() == 0,
            r.target() == self,
    {
        TrackChunkIter { next: 0, target: self }
    }
}

/// Walks the events of a track in order.
pub struct TrackChunkIter<'a> {
    next: usize,
    target: &'a TrackChunk,
}

impl<'a> TrackChunkIter<'a> {
    /// How many events were handed out.
    pub closed spec fn position(&self) -> int {
        self.next as int
    }

    /// The track walked.
    pub closed spec fn target(&self) -> &'a TrackChunk {
        self.target
    }

    /// The next event, if any is left.
    pub fn next(&mut self) -> (r: Option<&'a EventPair>)
        ensures
            final(self).target() == old(self).target(),
            old(self).position() < old(self).target()@.events.len() ==> r.is_some()
                && r.unwrap()@ == old(self).target()@.events[old(self).position()]
                && final(self).position() == old(self).position() + 1,
            old(self).position() >= old(self).target()@.events.len() ==> r.is_none()
                && final(self).position() == old(self).position(),
    {
        if self.next < self.target.events.len() {
            let r = &self.target.events[self.next];
            self.next = self.next + 1;
            Some(r)
        } else {
            None
        }
    }

    /// The number of events of the track.
    pub fn len(&self) -> (r: usize)
        ensures
            r == self.target()@.events.len(),
    {
        self.target.events.len()
    }
}

// MidiFile //

/// A whole file: its header and its tracks in order.
#[derive(Debug, Clone, PartialEq, Eq)]
pub struct SMF {
    header: HeaderChunk,
    tracks: Vec<TrackChunk>,
}

/// What an `SMF` holds.
pub struct SpecSmf {
    pub header: HeaderChunk,
    pub tracks: Seq<SpecTrackChunk>,
}

impl View for SMF {
    type V = SpecSmf;

    closed spec fn view(&self) -> SpecSmf {
        SpecSmf { header: self.header, tracks: self.tracks@.map_values(|t: TrackChunk| t@) }
    }
}

/// The encodings of the tracks of `ts`, one after another.
pub open spec fn tracks_raw(ts: Seq<SpecTrackChunk>) -> Seq<u8>
    decreases ts.len(),
{
    if ts.len() == 0 {
        Seq::empty()
    } else {
        tracks_raw(ts.drop_last()) + ts.last().raw()
    }
}

/// The tracks of `ts` as `declared_raw` gives them, one after another.
pub open spec fn tracks_declared_raw(ts: Seq<SpecTrackChunk>) -> Seq<u8>
    decreases ts.len(),
{
    if ts.len() == 0 {
        Seq::empty()
    } else {
        tracks_declared_raw(ts.drop_last()) + ts.last().declared_raw()
    }
}

impl SpecSmf {
    /// The bytes of a file whose length fields hold the `length` fields:
    /// what a file holds where this was read from.
    pub open spec fn declared_raw(self) -> Seq<u8> {
        self.header.spec_raw() + tracks_declared_raw(self.tracks)
    }

    /// The file with each track's `length` field set to the length of its
    /// encoded events.
    pub open spec fn with_actual_lengths(self) -> SpecSmf {
        SpecSmf {
            header: self.header,
            tracks: self.tracks.map_values(|t: SpecTrackChunk| t.with_actual_length()),
        }
    }

    /// The file is what reading its own encoding gives: the header's length
    /// is 6 and every track is well formed.
    pub open spec fn well_formed(self) -> bool {
        &&& self.header.length == 6
        &&& forall|i: int| 0 <= i < self.tracks.len() ==> (#[trigger] self.tracks[i]).well_formed()
    }

    /// The header, then each track; every length field is that of what
    /// follows it.
    pub open spec fn raw(self) -> Seq<u8> {
        self.header.spec_raw() + tracks_raw(self.tracks)
    }

    pub open spec fn encodable(self) -> bool {
        forall|i: int| 0 <= i < self.tracks.len() ==> (#[trigger] self.tracks[i]).encodable()
    }
}

impl SmfElement for SMF {
    open spec fn encodable(&self) -> bool {
        self@.encodable()
    }

    open spec fn spec_raw(&self) -> Seq<u8> {
        self@.raw()
    }

    fn raw(&self) -> (r: Vec<u8>) {
        let ghost ts = self@.tracks;
        let mut raw_all = self.header.raw();
        let mut i: usize = 0;
        while i < self.tracks.len()
            invariant
                i <= self.tracks.len(),
                ts == self@.tracks,
                self@.encodable(),
                raw_all@ == self.header.spec_raw() + tracks_raw(ts.subrange(0, i as int)),
            decreases self.tracks.len() - i,
        {
            assert(ts[i as int].encodable());
            let track = self.tracks[i].raw();
            extend_bytes(&mut raw_all, track.as_slice());
            i = i + 1;
            assert(ts.subrange(0, i as int).drop_last() =~= ts.subrange(0, i as int - 1));
            assert(raw_all@ =~= self.header.spec_raw() + tracks_raw(ts.subrange(0, i as int)));
        }
        assert(ts.subrange(0, i as int) =~= ts);
        raw_all
    }
}

// Merging //

/// Whether track `j` of `ts` has the event that comes first: the smallest
/// time of the tracks' first events and, of equal times, the lowest track.
pub open spec fn heads_first(ts: Seq<Seq<SpecEventPair>>, j: int) -> bool {
    &&& 0 <= j < ts.len()
    &&& ts[j].len() > 0
    &&& forall|k: int|
        0 <= k < ts.len() && #[trigger] ts[k].len() > 0 ==> ts[j][0].time < ts[k][0].time || (
        ts[j][0].time == ts[k][0].time && j <= k)
}

/// The number of events of all the tracks of `ts`.
pub open spec fn total_len(ts: Seq<Seq<SpecEventPair>>) -> nat
    decreases ts.len(),
{
    if ts.len() == 0 {
        0
    } else {
        total_len(ts.drop_last()) + ts.last().len()
    }
}

pub proof fn lemma_total_len_update(ts: Seq<Seq<SpecEventPair>>, j: int, s: Seq<SpecEventPair>)
    requires
        0 <= j < ts.len(),
    ensures
        total_len(ts.update(j, s)) + ts[j].len() == total_len(ts) + s.len(),
    decreases ts.len(),
{
    let u = ts.update(j, s);
    if j == ts.len() - 1 {
        assert(u.drop_last() =~= ts.drop_last());
    } else {
        lemma_total_len_update(ts.drop_last(), j, s);
        assert(u.drop_last() =~= ts.drop_last().update(j, s));
    }
}

/// The events of `ts` merged into one sequence: again and again the first
/// event of the track that `heads_first` picks, until every track is done.
pub open spec fn merge_events(ts: Seq<Seq<SpecEventPair>>) -> Seq<SpecEventPair>
    decreases total_len(ts),
{
    if exists|j: int| heads_first(ts, j) {
        let j = choose|j: int| heads_first(ts, j);
        proof {
            lemma_total_len_update(ts, j, ts[j].drop_first());
        }
        seq![ts[j][0]] + merge_events(ts.update(j, ts[j].drop_first()))
    } else {
        Seq::empty()
    }
}

/// The events of each track of `ts`.
pub open spec fn track_events(ts: Seq<SpecTrackChunk>) -> Seq<Seq<SpecEventPair>> {
    ts.map_values(|t: SpecTrackChunk| t.events)
}

/// The sum of the declared lengths of the tracks of `ts`.
pub open spec fn declared_total(ts: Seq<SpecTrackChunk>) -> nat
    decreases ts.len(),
{
    if ts.len() == 0 {
        0
    } else {
        declared_total(ts.drop_last()) + ts.last().length as nat
    }
}

proof fn lemma_declared_total_prefix(ts: Seq<SpecTrackChunk>, i: int)
    requires
        0 <= i <= ts.len(),
    ensures
        declared_total(ts.subrange(0, i)) <= declared_total(ts),
    decreases ts.len() - i,
{
    if i < ts.len() {
        lemma_declared_total_prefix(ts, i + 1);
        assert(ts.subrange(0, i + 1).drop_last() =~= ts.subrange(0, i));
    } else {
        assert(ts.subrange(0, i) =~= ts);
    }
}

/// What is left of each track of `ts` once the first `cur[i]` events of
/// track `i` are taken.
pub open spec fn rest_of(ts: Seq<Seq<SpecEventPair>>, cur: Seq<usize>) -> Seq<Seq<SpecEventPair>> {
    Seq::new(ts.len(), |i: int| ts[i].subrange(cur[i] as int, ts[i].len() as int))
}

/// Two tracks cannot both come first.
proof fn lemma_heads_first_unique(ts: Seq<Seq<SpecEventPair>>, j: int, k: int)
    requires
        heads_first(ts, j),
        heads_first(ts, k),
    ensures
        j == k,
{
    assert(ts[k].len() > 0);
    assert(ts[j].len() > 0);
}

proof fn lemma_merge_step(ts: Seq<Seq<SpecEventPair>>, j: int)
    requires
        heads_first(ts, j),
    ensures
        merge_events(ts) == seq![ts[j][0]] + merge_events(ts.update(j, ts[j].drop_first())),
{
    let c = choose|c: int| heads_first(ts, c);
    lemma_heads_first_unique(ts, j, c);
}

impl SMF {
    pub fn new(header: HeaderChunk, tracks: Vec<TrackChunk>) -> (r: SMF)
        ensures
            r@ == (SpecSmf { header, tracks: tracks@.map_values(|t: TrackChunk| t@) }),
    {
        SMF { header, tracks }
    }

    /// Whether `raw` can encode the file: every track can be encoded.
    pub fn is_encodable(&self) -> (r: bool)
        ensures
            r == self@.encodable(),
    {
        let mut i: usize = 0;
        while i < self.tracks.len()
            invariant
                i <= self.tracks.len(),
                forall|k: int| 0 <= k < i ==> (#[trigger] self@.tracks[k]).encodable(),
            decreases self.tracks.len() - i,
        {
            assert(self@.tracks[i as int] == self.tracks@[i as int]@);
            if !self.tracks[i].is_encodable() {
                assert(!self@.tracks[i as int].encodable());
                return false;
            }
            i = i + 1;
        }
        true
    }

    pub fn header(&self) -> (r: &HeaderChunk)
        ensures
            *r == self@.header,
    {
        &self.header
    }

    pub fn tracks(&self) -> (r: &Vec<TrackChunk>)
        ensures
            r@.map_values(|t: TrackChunk| t@) == self@.tracks,
    {
        &self.tracks
    }

    /// Merges all tracks into one, by time; meant for tracks whose times
    /// are absolute. The merged track's declared length is the sum of the
    /// tracks' declared lengths; the encoding does not use it.
    pub fn merge_tracks(&mut self)
        requires
            declared_total(old(self)@.tracks) <= u32::MAX,
        ensures
            final(self)@.header == old(self)@.header,
            final(self)@.tracks == seq![
                SpecTrackChunk {
                    length: declared_total(old(self)@.tracks) as u32,
                    events: merge_events(track_events(old(self)@.tracks)),
                },
            ],
    {
        let ghost ts = track_events(self@.tracks);
        let n = self.tracks.len();
        let mut indices: Vec<usize> = Vec::new();
        while indices.len() < n
            invariant
                indices.len() <= n,
                forall|i: int| 0 <= i < indices.len() ==> indices@[i] == 0,
            decreases n - indices.len(),
        {
            indices.push(0);
        }
        assert forall|k: int| 0 <= k < n implies #[trigger] rest_of(ts, indices@)[k] =~= ts[k] by {}
        assert(rest_of(ts, indices@) =~= ts);
        let mut merged: Vec<EventPair> = Vec::new();
        loop
            invariant
                n == self.tracks.len() == ts.len() == indices.len(),
                ts == track_events(self@.tracks),
                forall|i: int| 0 <= i < n ==> indices@[i] <= ts[i].len(),
                merge_events(ts) == merged@.map_values(|e: EventPair| e@) + merge_events(
                    rest_of(ts, indices@),
                ),
            ensures
                merge_events(rest_of(ts, indices@)) == Seq::<SpecEventPair>::empty(),
            decreases total_len(rest_of(ts, indices@)),
        {
            let ghost rest = rest_of(ts, indices@);
            let mut best: Option<usize> = None;
            let mut best_time: u32 = 0;
            let mut i: usize = 0;
            while i < n
                invariant
                    n == self.tracks.len() == ts.len() == indices.len(),
                    ts == track_events(self@.tracks),
                    rest == rest_of(ts, indices@),
                    forall|k: int| 0 <= k < n ==> indices@[k] <= ts[k].len(),
                    i <= n,
                    best matches Some(b) ==> b < i && rest[b as int].len() > 0 && rest[b as int][0].time
                        == best_time,
                    forall|k: int|
                        0 <= k < i && #[trigger] rest[k].len() > 0 ==> (best matches Some(b) && (
                        best_time < rest[k][0].time || (best_time == rest[k][0].time && b <= k))),
                decreases n - i,
            {
                if indices[i] < self.tracks[i].events.len() {
                    let time = self.tracks[i].events[indices[i]].time();
                    assert(rest[i as int][0] == ts[i as int][indices@[i as int] as int]);
                    if best.is_none() || time < best_time {
                        best = Some(i);
                        best_time = time;
                    }
                }
                i = i + 1;
            }
            match best {
                None => {
                    assert(!exists|j: int| heads_first(rest, j));
                    assert(merge_events(rest) == Seq::<SpecEventPair>::empty());
                    break;
                },
                Some(j) => {
                    assert(heads_first(rest, j as int));
                    proof {
                        lemma_merge_step(rest, j as int);
                        lemma_total_len_update(rest, j as int, rest[j as int].drop_first());
                    }
                    let pair = self.tracks[j].events[indices[j]].copy();
                    let ghost old_merged = merged@;
                    merged.push(pair);
                    let ghost old_indices = indices@;
                    let len_j = self.tracks[j].events.len();
                    assert(ts[j as int].len() == len_j);
                    assert(rest[j as int].len() == ts[j as int].len() - indices@[j as int]);
                    indices.set(j, indices[j] + 1);
                    assert forall|k: int| 0 <= k < n implies #[trigger] rest_of(ts, indices@)[k]
                        =~= rest.update(j as int, rest[j as int].drop_first())[k] by {}
                    assert(rest_of(ts, indices@) =~= rest.update(
                        j as int,
                        rest[j as int].drop_first(),
                    ));
                    assert(merged@.map_values(|e: EventPair| e@) =~= old_merged.map_values(
                        |e: EventPair| e@,
                    ).push(pair@));
                },
            }
        }
        let mut sum_length: u32 = 0;
        let mut t: usize = 0;
        while t < n
            invariant
                n == self.tracks.len(),
                t <= n,
                declared_total(self@.tracks) <= u32::MAX,
                sum_length == declared_total(self@.tracks.subrange(0, t as int)),
            decreases n - t,
        {
            proof {
                lemma_declared_total_prefix(self@.tracks, t as int + 1);
                assert(self@.tracks.subrange(0, t as int + 1).drop_last() =~= self@.tracks.subrange(
                    0,
                    t as int,
                ));
            }
            sum_length = sum_length + self.tracks[t].length;
            t = t + 1;
        }
        assert(self@.tracks.subrange(0, n as int) =~= self@.tracks);
        let ghost merged_view = merged@.map_values(|e: EventPair| e@);
        assert(merged_view + Seq::<SpecEventPair>::empty() =~= merged_view);
        self.tracks = vec![TrackChunk { length: sum_length, events: merged }];
        assert(self@.tracks =~= seq![
            SpecTrackChunk { length: sum_length, events: merge_events(ts) },
        ]);
    }
}

/// A byte vector with the same bytes.
fn copy_bytes(v: &Vec<u8>) -> (r: Vec<u8>)
    ensures
        r@ == v@,
{
    let mut r: Vec<u8> = Vec::new();
    extend_bytes(&mut r, v.as_slice());
    assert(r@ =~= v@);
    r
}

/// An equal meta event.
fn copy_meta(e: &MetaEvent) -> (r: MetaEvent)
    ensures
        r@ == e@,
{
    match e {
        MetaEvent::SequenceNumber { number } => MetaEvent::SequenceNumber { number: *number },
        MetaEvent::TextEvent { length, text } => MetaEvent::TextEvent {
            length: *length,
            text: copy_bytes(text),
        },
        MetaEvent::CopyrightNotice { length, text } => MetaEvent::CopyrightNotice {
            length: *length,
            text: copy_bytes(text),
        },
        MetaEvent::SequenceTrackName { length, text } => MetaEvent::SequenceTrackName {
            length: *length,
            text: copy_bytes(text),
        },
        MetaEvent::InstrumentName { length, text } => MetaEvent::InstrumentName {
            length: *length,
            text: copy_bytes(text),
        },
        MetaEvent::Lyric { length, text } => MetaEvent::Lyric {
            length: *length,
            text: copy_bytes(text),
        },
        MetaEvent::Marker { length, text } => MetaEvent::Marker {
            length: *length,
            text: copy_bytes(text),
        },
        MetaEvent::CuePoint { length, text } => MetaEvent::CuePoint {
            length: *length,
            text: copy_bytes(text),
        },
        MetaEvent::MIDIChannelPrefix { channel } => MetaEvent::MIDIChannelPrefix {
            channel: *channel,
        },
        MetaEvent::EndOfTrack => MetaEvent::EndOfTrack,
        MetaEvent::SetTempo { tempo } => MetaEvent::SetTempo { tempo: *tempo },
        MetaEvent::SMPTEOffset { smpte, frame } => MetaEvent::SMPTEOffset {
            smpte: *smpte,
            frame: *frame,
        },
        MetaEvent::TimeSignature { numerator, denominator, clocks, notes } =>
            MetaEvent::TimeSignature {
            numerator: *numerator,
            denominator: *denominator,
            clocks: *clocks,
            notes: *notes,
        },
        MetaEvent::KeySignature { sf, minor } => MetaEvent::KeySignature {
            sf: *sf,
            minor: *minor,
        },
        MetaEvent::SequencerSpecific { length, data } => MetaEvent::SequencerSpecific {
            length: *length,
            data: copy_bytes(data),
        },
    }
}

/// An equal event.
fn copy_event(e: &MidiEvent) -> (r: MidiEvent)
    ensures
        r@ == e@,
{
    match e {
        MidiEvent::MidiChannelMessage(m) => MidiEvent::MidiChannelMessage(*m),
        MidiEvent::MetaEvent(m) => MidiEvent::MetaEvent(copy_meta(m)),
        MidiEvent::SysExEvent(SysExEvent::SysExF0 { length, data }) => MidiEvent::SysExEvent(
            SysExEvent::SysExF0 { length: *length, data: copy_bytes(data) },
        ),
        MidiEvent::SysExEvent(SysExEvent::SysExF7 { length, data }) => MidiEvent::SysExEvent(
            SysExEvent::SysExF7 { length: *length, data: copy_bytes(data) },
        ),
    }
}

/// Where some track has events left, some track comes first.
proof fn lemma_head_first_exists(ts: Seq<Seq<SpecEventPair>>)
    requires
        exists|k: int| 0 <= k < ts.len() && #[trigger] ts[k].len() > 0,
    ensures
        exists|j: int| heads_first(ts, j),
    decreases ts.len(),
{
    let n = ts.len() - 1;
    let init = ts.drop_last();
    if exists|k: int| 0 <= k < init.len() && #[trigger] init[k].len() > 0 {
        lemma_head_first_exists(init);
        let j = choose|j: int| heads_first(init, j);
        assert(init[j] == ts[j]);
        if ts[n].len() > 0 && ts[n][0].time < init[j][0].time {
            assert forall|k: int| 0 <= k < ts.len() && #[trigger] ts[k].len() > 0 implies ts[n][0].time
                < ts[k][0].time || (ts[n][0].time == ts[k][0].time && n <= k) by {
                if k < n {
                    assert(init[k] == ts[k]);
                }
            }
            assert(heads_first(ts, n));
        } else {
            assert forall|k: int| 0 <= k < ts.len() && #[trigger] ts[k].len() > 0 implies ts[j][0].time
                < ts[k][0].time || (ts[j][0].time == ts[k][0].time && j <= k) by {
                if k < n {
                    assert(init[k] == ts[k]);
                }
            }
            assert(heads_first(ts, j));
        }
    } else {
        let k = choose|k: int| 0 <= k < ts.len() && #[trigger] ts[k].len() > 0;
        assert forall|i: int| 0 <= i < n implies #[trigger] ts[i].len() == 0 by {
            assert(init[i] == ts[i]);
        }
        assert(k == n);
        assert(heads_first(ts, n));
    }
}

/// Merging keeps every event: the merged sequence has as many events as
/// all the tracks together.
pub proof fn lemma_merge_len(ts: Seq<Seq<SpecEventPair>>)
    ensures
        merge_events(ts).len() == total_len(ts),
    decreases total_len(ts),
{
    if exists|j: int| heads_first(ts, j) {
        let j = choose|j: int| heads_first(ts, j);
        lemma_total_len_update(ts, j, ts[j].drop_first());
        lemma_merge_len(ts.update(j, ts[j].drop_first()));
    } else {
        if total_len(ts) > 0 {
            lemma_nonempty_track(ts);
            lemma_head_first_exists(ts);
        }
    }
}

proof fn lemma_nonempty_track(ts: Seq<Seq<SpecEventPair>>)
    requires
        total_len(ts) > 0,
    ensures
        exists|k: int| 0 <= k < ts.len() && #[trigger] ts[k].len() > 0,
    decreases ts.len(),
{
    if ts.last().len() == 0 {
        lemma_nonempty_track(ts.drop_last());
        let k = choose|k: int| 0 <= k < ts.drop_last().len() && #[trigger] ts.drop_last()[k].len() > 0;
        assert(ts[k].len() > 0);
    } else {
        assert(ts[ts.len() - 1].len() > 0);
    }
}

/// Whether the times of `s` never decrease.
pub open spec fn ascending(s: Seq<SpecEventPair>) -> bool {
    forall|a: int, b: int| 0 <= a < b < s.len() ==> s[a].time <= s[b].time
}

/// Every event of the merged sequence comes from a track: where every
/// event of every track has a time of at least `m`, so does every merged
/// event.
proof fn lemma_merge_lower_bound(ts: Seq<Seq<SpecEventPair>>, m: u32)
    requires
        forall|i: int, k: int| 0 <= i < ts.len() && 0 <= k < ts[i].len() ==> m <= #[trigger] ts[i][k].time,
    ensures
        forall|a: int| 0 <= a < merge_events(ts).len() ==> m <= #[trigger] merge_events(ts)[a].time,
    decreases total_len(ts),
{
    if exists|j: int| heads_first(ts, j) {
        let j = choose|j: int| heads_first(ts, j);
        let u = ts.update(j, ts[j].drop_first());
        lemma_total_len_update(ts, j, ts[j].drop_first());
        assert forall|i: int, k: int| 0 <= i < u.len() && 0 <= k < u[i].len() implies m
            <= #[trigger] u[i][k].time by {
            if i == j {
                assert(u[i][k] == ts[j][k + 1]);
            }
        }
        lemma_merge_lower_bound(u, m);
        let r = merge_events(ts);
        assert forall|a: int| 0 <= a < r.len() implies m <= #[trigger] r[a].time by {
            if a > 0 {
                assert(r[a] == merge_events(u)[a - 1]);
            }
        }
    }
}

/// Merging ascending tracks gives an ascending sequence.
pub proof fn lemma_merge_ascending(ts: Seq<Seq<SpecEventPair>>)
    requires
        forall|i: int| 0 <= i < ts.len() ==> ascending(#[trigger] ts[i]),
    ensures
        ascending(merge_events(ts)),
    decreases total_len(ts),
{
    if exists|j: int| heads_first(ts, j) {
        let j = choose|j: int| heads_first(ts, j);
        let h = ts[j][0];
        let u = ts.update(j, ts[j].drop_first());
        lemma_total_len_update(ts, j, ts[j].drop_first());
        assert forall|i: int| 0 <= i < u.len() implies ascending(#[trigger] u[i]) by {
            if i == j {
                assert forall|a: int, b: int| 0 <= a < b < u[i].len() implies u[i][a].time
                    <= u[i][b].time by {
                    assert(u[i][a] == ts[j][a + 1]);
                    assert(u[i][b] == ts[j][b + 1]);
                }
            }
        }
        assert forall|i: int, k: int| 0 <= i < u.len() && 0 <= k < u[i].len() implies h.time
            <= #[trigger] u[i][k].time by {
            if i == j {
                assert(u[i][k] == ts[j][k + 1]);
            } else {
                assert(ts[i].len() > 0);
                assert(u[i][k] == ts[i][k]);
                assert(ts[i][0].time <= ts[i][k].time);
            }
        }
        lemma_merge_lower_bound(u, h.time);
        lemma_merge_ascending(u);
        let r = merge_events(ts);
        let t = merge_events(u);
        assert forall|a: int, b: int| 0 <= a < b < r.len() implies r[a].time <= r[b].time by {
            assert(r[b] == t[b - 1]);
            if a > 0 {
                assert(r[a] == t[a - 1]);
            }
        }
    }
}

} // verus!
