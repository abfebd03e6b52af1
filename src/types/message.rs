//! Variable-length quantities, and the messages and events of a track with
//! their byte encodings.
use vstd::prelude::*;

use crate::file::filerw::SmfError;

verus! {

// Variable-length quantities //

/// The largest value a variable-length quantity of four bytes can hold.
pub const VLQ_MAX: u32 = 0x0FFF_FFFF;

/// One 7-bit group of `v` (its lowest), with the continuation bit set when
/// `more` groups follow it.
pub open spec fn vlq_group(v: nat, more: bool) -> u8 {
    if more {
        (v % 128 + 128) as u8
    } else {
        (v % 128) as u8
    }
}

/// The 7-bit groups of `v`, most significant first; every byte but the last
/// has its continuation bit set, and the last has it set exactly when `more`.
pub open spec fn vlq_groups(v: nat, more: bool) -> Seq<u8>
    decreases v,
{
    if v < 128 {
        seq![vlq_group(v, more)]
    } else {
        vlq_groups(v / 128, true).push(vlq_group(v, more))
    }
}

/// The variable-length quantity that encodes `v`.
pub open spec fn vlq_bytes(v: nat) -> Seq<u8> {
    vlq_groups(v, false)
}

/// The number that the low 7 bits of the bytes of `s` spell, most
/// significant group first.
pub open spec fn vlq_value(s: Seq<u8>) -> nat
    decreases s.len(),
{
    if s.len() == 0 {
        0
    } else {
        vlq_value(s.drop_last()) * 128 + (s.last() % 128) as nat
    }
}

/// Reading a variable-length quantity that starts at `p`, having seen `k`
/// bytes of it with the continuation bit set.
pub open spec fn vlq_scan(d: Seq<u8>, p: int, k: nat) -> Result<(u32, int), SmfError>
    decreases 4 - k,
{
    if k >= 4 {
        Err(SmfError::InvalidVlq)
    } else if p + k >= d.len() {
        Err(SmfError::TruncatedInput)
    } else if d[p + k] < 128 {
        Ok((vlq_value(d.subrange(p, p + k + 1)) as u32, p + k + 1))
    } else {
        vlq_scan(d, p, k + 1)
    }
}

/// Reading a variable-length quantity that starts at `p` of `d`: its value
/// and the position just past it.
pub open spec fn read_vlq(d: Seq<u8>, p: int) -> Result<(u32, int), SmfError> {
    vlq_scan(d, p, 0)
}

/// `128` to the power `n`.
pub open spec fn pow128(n: nat) -> nat
    decreases n,
{
    if n == 0 {
        1
    } else {
        128 * pow128((n - 1) as nat)
    }
}

proof fn lemma_vlq_value_bound(s: Seq<u8>)
    ensures
        vlq_value(s) < pow128(s.len()),
    decreases s.len(),
{
    if s.len() > 0 {
        lemma_vlq_value_bound(s.drop_last());
        let a = vlq_value(s.drop_last());
        let p = pow128((s.len() - 1) as nat);
        assert(a * 128 + 127 < p * 128) by (nonlinear_arith)
            requires
                a < p,
        ;
    }
}

proof fn lemma_pow128_4()
    ensures
        pow128(4) == 0x1000_0000,
{
    reveal_with_fuel(pow128, 5);
}

/// Appends the encoding of `v` to `out`.
pub(crate) fn push_vlq(v: u32, more: bool, out: &mut Vec<u8>)
    ensures
        final(out)@ == old(out)@ + vlq_groups(v as nat, more),
    decreases v,
{
    if v >= 128 {
        push_vlq(v / 128, true, out);
    }
    let g: u8 = if more {
        (v % 128 + 128) as u8
    } else {
        (v % 128) as u8
    };
    out.push(g);
    proof {
        let s = vlq_groups((v / 128) as nat, true);
        if v >= 128 {
            assert(old(out)@ + s.push(g) =~= (old(out)@ + s).push(g));
        } else {
            assert(old(out)@ + seq![g] =~= old(out)@.push(g));
        }
    }
}

/// Encodes `val` as a variable-length quantity.
pub fn to_vlq(val: u32) -> (r: Vec<u8>)
    ensures
        r@ == vlq_bytes(val as nat),
{
    let mut r: Vec<u8> = Vec::new();
    push_vlq(val, false, &mut r);
    assert(r@ =~= vlq_bytes(val as nat));
    r
}

/// The value spelled by a variable-length quantity of at most four bytes;
/// the continuation bits are not looked at.
pub fn from_vlq(binary: &Vec<u8>) -> (r: u32)
    requires
        binary.len() <= 4,
    ensures
        r == vlq_value(binary@),
{
    let mut ret: u32 = 0;
    let mut i: usize = 0;
    proof {
        lemma_pow128_4();
    }
    while i < binary.len()
        invariant
            i <= binary.len() <= 4,
            ret == vlq_value(binary@.subrange(0, i as int)),
            pow128(4) == 0x1000_0000,
        decreases binary.len() - i,
    {
        let b = binary[i];
        proof {
            let s = binary@.subrange(0, i as int + 1);
            assert(s.drop_last() =~= binary@.subrange(0, i as int));
            lemma_vlq_value_bound(s);
            lemma_pow128_mono(s.len(), 4);
        }
        ret = ret * 128 + (b % 128) as u32;
        i = i + 1;
    }
    assert(binary@.subrange(0, i as int) =~= binary@);
    ret
}

proof fn lemma_pow128_mono(a: nat, b: nat)
    requires
        a <= b,
    ensures
        pow128(a) <= pow128(b),
    decreases b,
{
    if a < b {
        lemma_pow128_mono(a, (b - 1) as nat);
    }
}

/// Decodes the variable-length quantity at the start of `data`: its value
/// and the number of bytes it takes.
pub fn decode_vlq(data: &[u8]) -> (r: Result<(u32, usize), SmfError>)
    ensures
        match read_vlq(data@, 0) {
            Ok((v, q)) => r == Ok::<(u32, usize), SmfError>((v, q as usize)),
            Err(e) => r == Err::<(u32, usize), SmfError>(e),
        },
{
    let mut acc: u32 = 0;
    let mut k: usize = 0;
    proof {
        lemma_pow128_4();
    }
    while k < 4
        invariant
            k <= 4,
            k <= data@.len(),
            read_vlq(data@, 0) == vlq_scan(data@, 0, k as nat),
            acc == vlq_value(data@.subrange(0, k as int)),
            pow128(4) == 0x1000_0000,
        decreases 4 - k,
    {
        if k >= data.len() {
            return Err(SmfError::TruncatedInput);
        }
        let b = data[k];
        proof {
            let s = data@.subrange(0, k as int + 1);
            assert(s.drop_last() =~= data@.subrange(0, k as int));
            lemma_vlq_value_bound(s);
            lemma_pow128_mono(s.len(), 4);
        }
        acc = acc * 128 + (b % 128) as u32;
        k = k + 1;
        if b < 128 {
            return Ok((acc, k));
        }
    }
    Err(SmfError::InvalidVlq)
}

proof fn lemma_vlq_groups_value(v: nat, more: bool)
    ensures
        vlq_value(vlq_groups(v, more)) == v,
    decreases v,
{
    let s = vlq_groups(v, more);
    let g = vlq_group(v, more);
    assert(g % 128 == v % 128);
    if v < 128 {
        assert(s.drop_last() =~= Seq::<u8>::empty());
    } else {
        lemma_vlq_groups_value(v / 128, true);
        assert(s.drop_last() =~= vlq_groups(v / 128, true));
    }
    assert(s.last() == g);
    assert(vlq_value(s) == vlq_value(s.drop_last()) * 128 + (g % 128) as nat);
    assert(v == (v / 128) * 128 + v % 128);
}

proof fn lemma_vlq_groups_shape(v: nat, more: bool, n: nat)
    requires
        1 <= n,
        v < pow128(n),
    ensures
        1 <= vlq_groups(v, more).len() <= n,
        forall|i: int|
            0 <= i < vlq_groups(v, more).len() - 1 ==> vlq_groups(v, more)[i] >= 128,
        (vlq_groups(v, more).last() >= 128) == more,
    decreases v,
{
    if v >= 128 {
        if n == 1 {
            reveal_with_fuel(pow128, 2);
        }
        assert(v / 128 < pow128((n - 1) as nat)) by (nonlinear_arith)
            requires
                v < pow128(n),
                pow128(n) == 128 * pow128((n - 1) as nat),
        ;
        lemma_vlq_groups_shape(v / 128, true, (n - 1) as nat);
    }
}

proof fn lemma_vlq_scan_from(d: Seq<u8>, p: int, k: nat, n: nat)
    requires
        0 <= p,
        k < n <= 4,
        p + n <= d.len(),
        forall|i: int| p <= i < p + n - 1 ==> d[i] >= 128,
        d[p + n - 1] < 128,
    ensures
        vlq_scan(d, p, k) == Ok::<(u32, int), SmfError>(
            (vlq_value(d.subrange(p, p + n)) as u32, p + n),
        ),
    decreases n - k,
{
    if k + 1 < n {
        lemma_vlq_scan_from(d, p, k + 1, n);
    }
}

/// Decoding undoes encoding: the quantity that encodes a value of at most
/// four 7-bit groups reads back as that value, taking exactly its bytes,
/// whatever follows it; and zero is encoded as a single zero byte.
pub proof fn lemma_vlq_round_trip(v: u32, d: Seq<u8>, p: int)
    requires
        v <= VLQ_MAX,
        0 <= p,
        p + vlq_bytes(v as nat).len() <= d.len(),
        d.subrange(p, p + vlq_bytes(v as nat).len()) == vlq_bytes(v as nat),
    ensures
        vlq_bytes(v as nat).len() <= 4,
        vlq_value(vlq_bytes(v as nat)) == v,
        read_vlq(d, p) == Ok::<(u32, int), SmfError>((v, p + vlq_bytes(v as nat).len())),
        vlq_bytes(0) == seq![0u8],
{
    let s = vlq_bytes(v as nat);
    lemma_pow128_4();
    lemma_vlq_groups_shape(v as nat, false, 4);
    lemma_vlq_groups_value(v as nat, false);
    let n = s.len();
    assert forall|i: int| p <= i < p + n - 1 implies d[i] >= 128 by {
        assert(d[i] == s[i - p]);
    }
    assert(d[p + n - 1] == s[n - 1]);
    lemma_vlq_scan_from(d, p, 0, n);
    assert(vlq_bytes(0) =~= seq![0u8]);
}

/// A part of a Standard MIDI File that has a byte encoding.
pub trait SmfElement {
    /// Whether `raw` can encode the value: its channels, sizes and numbers
    /// are within the ranges that the format gives them.
    spec fn encodable(&self) -> bool;

    /// The bytes that encode the value.
    spec fn spec_raw(&self) -> Seq<u8>;

    /// Returns binary expressions of midi data
    fn raw(&self) -> (r: Vec<u8>)
        requires
            self.encodable(),
        ensures
            r@ == self.spec_raw(),
    ;
}

// ChannelVoiceMessage and ChannelModeMessage //

/// A message addressed to one of the 16 channels.
#[derive(Debug, Clone, Copy, PartialEq, Eq, Structural)]
pub enum MidiChannelMessage {
    ChannelVoiceMessage { message: ChannelVoiceMessage },
    ChannelModeMessage { message: ChannelModeMessage },
}

/// A performance message: a status byte `base + channel` and one or two
/// data bytes.
#[derive(Debug, Clone, Copy, PartialEq, Eq, Structural)]
pub enum ChannelVoiceMessage {
    NoteOff { channel: u8, key: u8, vel: u8 },
    NoteOn { channel: u8, key: u8, vel: u8 },
    PolyphonicKeyPressure { channel: u8, key: u8, vel: u8 },
    /// A controller change; controllers `120..=127` are the channel mode
    /// messages instead.
    ControlChange { channel: u8, cc: u8, value: u8 },
    ProgramChange { channel: u8, program: u8 },
    ChannelKeyPressure { channel: u8, vel: u8 },
    PitchBend { channel: u8, lsb: u8, msb: u8 },
}

/// A channel mode message: on the wire, a control change to one of the
/// controllers `120..=127`.
#[derive(Debug, Clone, Copy, PartialEq, Eq, Structural)]
pub enum ChannelModeMessage {
    /// Controller 120, value 0.
    AllSoundOff { channel: u8 },
    /// Controller 121, value 0.
    ResetAllControllers { channel: u8 },
    /// Controller 122: 0 turns local control off, 127 turns it on.
    LocalControl { channel: u8, value: u8 },
    /// Controller 123, value 0.
    AllNotesOff { channel: u8 },
    /// Controller 124, value 0.
    OmniOff { channel: u8 },
    /// Controller 125, value 0.
    OmniOn { channel: u8 },
    /// Controller 126: the value is the number of channels, 0 for as many
    /// as the receiver has voices.
    MonoMode { channel: u8, channels: u8 },
    /// Controller 127, value 0.
    PolyMode { channel: u8 },
}

impl ChannelVoiceMessage {
    pub open spec fn spec_channel(&self) -> u8 {
        match *self {
            ChannelVoiceMessage::NoteOff { channel, .. } => channel,
            ChannelVoiceMessage::NoteOn { channel, .. } => channel,
            ChannelVoiceMessage::PolyphonicKeyPressure { channel, .. } => channel,
            ChannelVoiceMessage::ControlChange { channel, .. } => channel,
            ChannelVoiceMessage::ProgramChange { channel, .. } => channel,
            ChannelVoiceMessage::ChannelKeyPressure { channel, .. } => channel,
            ChannelVoiceMessage::PitchBend { channel, .. } => channel,
        }
    }

    /// The high nibble of the status byte.
    pub open spec fn status_base(&self) -> u8 {
        match *self {
            ChannelVoiceMessage::NoteOff { .. } => 0x80,
            ChannelVoiceMessage::NoteOn { .. } => 0x90,
            ChannelVoiceMessage::PolyphonicKeyPressure { .. } => 0xA0,
            ChannelVoiceMessage::ControlChange { .. } => 0xB0,
            ChannelVoiceMessage::ProgramChange { .. } => 0xC0,
            ChannelVoiceMessage::ChannelKeyPressure { .. } => 0xD0,
            ChannelVoiceMessage::PitchBend { .. } => 0xE0,
        }
    }

    pub open spec fn spec_status_byte(&self) -> u8 {
        (self.status_base() + self.spec_channel()) as u8
    }

    /// The data bytes that follow the status byte.
    pub open spec fn data_bytes(&self) -> Seq<u8> {
        match *self {
            ChannelVoiceMessage::NoteOff { key, vel, .. } => seq![key, vel],
            ChannelVoiceMessage::NoteOn { key, vel, .. } => seq![key, vel],
            ChannelVoiceMessage::PolyphonicKeyPressure { key, vel, .. } => seq![key, vel],
            ChannelVoiceMessage::ControlChange { cc, value, .. } => seq![cc, value],
            ChannelVoiceMessage::ProgramChange { program, .. } => seq![program],
            ChannelVoiceMessage::ChannelKeyPressure { vel, .. } => seq![vel],
            ChannelVoiceMessage::PitchBend { lsb, msb, .. } => seq![lsb, msb],
        }
    }

    #[verifier::when_used_as_spec(spec_channel)]
    pub fn channel(&self) -> (r: u8)
        ensures
            r == self.spec_channel(),
    {
        match *self {
            ChannelVoiceMessage::NoteOff { channel, .. } => channel,
            ChannelVoiceMessage::NoteOn { channel, .. } => channel,
            ChannelVoiceMessage::PolyphonicKeyPressure { channel, .. } => channel,
            ChannelVoiceMessage::ControlChange { channel, .. } => channel,
            ChannelVoiceMessage::ProgramChange { channel, .. } => channel,
            ChannelVoiceMessage::ChannelKeyPressure { channel, .. } => channel,
            ChannelVoiceMessage::PitchBend { channel, .. } => channel,
        }
    }

    /// The status byte: the message's base code plus its channel.
    pub fn status_byte(&self) -> (r: u8)
        requires
            self.spec_channel() <= 15,
        ensures
            r == self.spec_status_byte(),
            r == self.status_base() + self.spec_channel(),
    {
        match *self {
            ChannelVoiceMessage::NoteOff { channel, .. } => 0x80 + channel,
            ChannelVoiceMessage::NoteOn { channel, .. } => 0x90 + channel,
            ChannelVoiceMessage::PolyphonicKeyPressure { channel, .. } => 0xA0 + channel,
            ChannelVoiceMessage::ControlChange { channel, .. } => 0xB0 + channel,
            ChannelVoiceMessage::ProgramChange { channel, .. } => 0xC0 + channel,
            ChannelVoiceMessage::ChannelKeyPressure { channel, .. } => 0xD0 + channel,
            ChannelVoiceMessage::PitchBend { channel, .. } => 0xE0 + channel,
        }
    }
}

impl ChannelModeMessage {
    pub open spec fn spec_channel(&self) -> u8 {
        match *self {
            ChannelModeMessage::AllSoundOff { channel } => channel,
            ChannelModeMessage::ResetAllControllers { channel } => channel,
            ChannelModeMessage::LocalControl { channel, .. } => channel,
            ChannelModeMessage::AllNotesOff { channel } => channel,
            ChannelModeMessage::OmniOff { channel } => channel,
            ChannelModeMessage::OmniOn { channel } => channel,
            ChannelModeMessage::MonoMode { channel, .. } => channel,
            ChannelModeMessage::PolyMode { channel } => channel,
        }
    }

    /// The controller number that selects the message.
    pub open spec fn controller(&self) -> u8 {
        match *self {
            ChannelModeMessage::AllSoundOff { .. } => 120,
            ChannelModeMessage::ResetAllControllers { .. } => 121,
            ChannelModeMessage::LocalControl { .. } => 122,
            ChannelModeMessage::AllNotesOff { .. } => 123,
            ChannelModeMessage::OmniOff { .. } => 124,
            ChannelModeMessage::OmniOn { .. } => 125,
            ChannelModeMessage::MonoMode { .. } => 126,
            ChannelModeMessage::PolyMode { .. } => 127,
        }
    }

    /// The byte that follows the controller number.
    pub open spec fn value(&self) -> u8 {
        match *self {
            ChannelModeMessage::LocalControl { value, .. } => value,
            ChannelModeMessage::MonoMode { channels, .. } => channels,
            _ => 0,
        }
    }

    pub open spec fn spec_status_byte(&self) -> u8 {
        (0xB0 + self.spec_channel()) as u8
    }

    #[verifier::when_used_as_spec(spec_channel)]
    pub fn channel(&self) -> (r: u8)
        ensures
            r == self.spec_channel(),
    {
        match *self {
            ChannelModeMessage::AllSoundOff { channel } => channel,
            ChannelModeMessage::ResetAllControllers { channel } => channel,
            ChannelModeMessage::LocalControl { channel, .. } => channel,
            ChannelModeMessage::AllNotesOff { channel } => channel,
            ChannelModeMessage::OmniOff { channel } => channel,
            ChannelModeMessage::OmniOn { channel } => channel,
            ChannelModeMessage::MonoMode { channel, .. } => channel,
            ChannelModeMessage::PolyMode { channel } => channel,
        }
    }

    /// The status byte: that of a control change on the message's channel.
    pub fn status_byte(&self) -> (r: u8)
        requires
            self.spec_channel() <= 15,
        ensures
            r == self.spec_status_byte(),
            r == 0xB0 + self.spec_channel(),
    {
        0xB0 + self.channel()
    }
}

impl MidiChannelMessage {
    /// The message is what reading its own encoding gives: its channel is
    /// one of the 16, and a control change does not use a controller number
    /// of the mode messages.
    pub open spec fn well_formed(&self) -> bool {
        &&& self.spec_channel() <= 15
        &&& match *self {
            MidiChannelMessage::ChannelVoiceMessage {
                message: ChannelVoiceMessage::ControlChange { cc, .. },
            } => !(120 <= cc <= 127),
            _ => true,
        }
    }

    pub open spec fn spec_channel(&self) -> u8 {
        match *self {
            MidiChannelMessage::ChannelVoiceMessage { message } => message.spec_channel(),
            MidiChannelMessage::ChannelModeMessage { message } => message.spec_channel(),
        }
    }

    #[verifier::when_used_as_spec(spec_channel)]
    pub fn channel(&self) -> (r: u8)
        ensures
            r == self.spec_channel(),
    {
        match *self {
            MidiChannelMessage::ChannelVoiceMessage { message } => message.channel(),
            MidiChannelMessage::ChannelModeMessage { message } => message.channel(),
        }
    }
}

impl SmfElement for ChannelVoiceMessage {
    open spec fn encodable(&self) -> bool {
        self.spec_channel() <= 15
    }

    open spec fn spec_raw(&self) -> Seq<u8> {
        seq![self.spec_status_byte()] + self.data_bytes()
    }

    fn raw(&self) -> (r: Vec<u8>) {
        let r = match *self {
            ChannelVoiceMessage::NoteOff { key, vel, .. } => vec![self.status_byte(), key, vel],
            ChannelVoiceMessage::NoteOn { key, vel, .. } => vec![self.status_byte(), key, vel],
            ChannelVoiceMessage::PolyphonicKeyPressure { key, vel, .. } => vec![
                self.status_byte(),
                key,
                vel,
            ],
            ChannelVoiceMessage::ControlChange { cc, value, .. } => vec![
                self.status_byte(),
                cc,
                value,
            ],
            ChannelVoiceMessage::ProgramChange { program, .. } => vec![self.status_byte(), program],
            ChannelVoiceMessage::ChannelKeyPressure { vel, .. } => vec![self.status_byte(), vel],
            ChannelVoiceMessage::PitchBend { lsb, msb, .. } => vec![self.status_byte(), lsb, msb],
        };
        assert(r@ =~= self.spec_raw());
        r
    }
}

impl SmfElement for ChannelModeMessage {
    open spec fn encodable(&self) -> bool {
        self.spec_channel() <= 15
    }

    open spec fn spec_raw(&self) -> Seq<u8> {
        seq![self.spec_status_byte(), self.controller(), self.value()]
    }

    fn raw(&self) -> (r: Vec<u8>) {
        let status = self.status_byte();
        let r = match *self {
            ChannelModeMessage::AllSoundOff { .. } => vec![status, 0x78, 0],
            ChannelModeMessage::ResetAllControllers { .. } => vec![status, 0x79, 0],
            ChannelModeMessage::LocalControl { value, .. } => vec![status, 0x7A, value],
            ChannelModeMessage::AllNotesOff { .. } => vec![status, 0x7B, 0],
            ChannelModeMessage::OmniOff { .. } => vec![status, 0x7C, 0],
            ChannelModeMessage::OmniOn { .. } => vec![status, 0x7D, 0],
            ChannelModeMessage::MonoMode { channels, .. } => vec![status, 0x7E, channels],
            ChannelModeMessage::PolyMode { .. } => vec![status, 0x7F, 0],
        };
        assert(r@ =~= self.spec_raw());
        r
    }
}

impl SmfElement for MidiChannelMessage {
    open spec fn encodable(&self) -> bool {
        self.spec_channel() <= 15
    }

    open spec fn spec_raw(&self) -> Seq<u8> {
        match *self {
            MidiChannelMessage::ChannelVoiceMessage { message } => message.spec_raw(),
            MidiChannelMessage::ChannelModeMessage { message } => message.spec_raw(),
        }
    }

    fn raw(&self) -> (r: Vec<u8>) {
        match self {
            MidiChannelMessage::ChannelVoiceMessage { message } => message.raw(),
            MidiChannelMessage::ChannelModeMessage { message } => message.raw(),
        }
    }
}

// Byte helpers //

/// `n` as two bytes, most significant first.
pub open spec fn be16_bytes(n: u16) -> Seq<u8> {
    seq![(n / 0x100) as u8, (n % 0x100) as u8]
}

/// The low 24 bits of `n` as three bytes, most significant first.
pub open spec fn be24_bytes(n: u32) -> Seq<u8> {
    seq![((n / 0x1_0000) % 0x100) as u8, ((n / 0x100) % 0x100) as u8, (n % 0x100) as u8]
}

/// `n` as four bytes, most significant first.
pub open spec fn be32_bytes(n: u32) -> Seq<u8> {
    seq![
        (n / 0x100_0000) as u8,
        ((n / 0x1_0000) % 0x100) as u8,
        ((n / 0x100) % 0x100) as u8,
        (n % 0x100) as u8,
    ]
}

/// Appends the bytes of `s` to `out`.
pub(crate) fn extend_bytes(out: &mut Vec<u8>, s: &[u8])
    ensures
        final(out)@ == old(out)@ + s@,
{
    let mut i: usize = 0;
    while i < s.len()
        invariant
            i <= s@.len(),
            out@ == old(out)@ + s@.subrange(0, i as int),
        decreases s@.len() - i,
    {
        out.push(s[i]);
        i = i + 1;
        assert(out@ =~= old(out)@ + s@.subrange(0, i as int));
    }
    assert(s@.subrange(0, i as int) =~= s@);
}

// Meta Events //

/// A meta event: track data that is not a performance message.
#[derive(Debug, Clone, PartialEq, Eq)]
pub enum MetaEvent {
    SequenceNumber { number: u16 },
    TextEvent { length: u32, text: Vec<u8> },
    CopyrightNotice { length: u32, text: Vec<u8> },
    SequenceTrackName { length: u32, text: Vec<u8> },
    InstrumentName { length: u32, text: Vec<u8> },
    Lyric { length: u32, text: Vec<u8> },
    Marker { length: u32, text: Vec<u8> },
    CuePoint { length: u32, text: Vec<u8> },
    MIDIChannelPrefix { channel: u8 },
    /// The mark that ends every track.
    EndOfTrack,
    /// Microseconds per quarter note, a 24-bit number.
    SetTempo { tempo: u32 },
    /// Hours, minutes, seconds and frames, one byte each and the hours
    /// first, then the fractional frames.
    SMPTEOffset { smpte: u32, frame: u8 },
    TimeSignature { numerator: u8, denominator: u8, clocks: u8, notes: u8 },
    KeySignature { sf: u8, minor: u8 },
    SequencerSpecific { length: u32, data: Vec<u8> },
}

/// What a `MetaEvent` holds, with its byte strings as sequences.
pub enum SpecMetaEvent {
    SequenceNumber { number: u16 },
    TextEvent { length: u32, text: Seq<u8> },
    CopyrightNotice { length: u32, text: Seq<u8> },
    SequenceTrackName { length: u32, text: Seq<u8> },
    InstrumentName { length: u32, text: Seq<u8> },
    Lyric { length: u32, text: Seq<u8> },
    Marker { length: u32, text: Seq<u8> },
    CuePoint { length: u32, text: Seq<u8> },
    MIDIChannelPrefix { channel: u8 },
    EndOfTrack,
    SetTempo { tempo: u32 },
    SMPTEOffset { smpte: u32, frame: u8 },
    TimeSignature { numerator: u8, denominator: u8, clocks: u8, notes: u8 },
    KeySignature { sf: u8, minor: u8 },
    SequencerSpecific { length: u32, data: Seq<u8> },
}

impl View for MetaEvent {
    type V = SpecMetaEvent;

    open spec fn view(&self) -> SpecMetaEvent {
        match self {
            MetaEvent::SequenceNumber { number } => SpecMetaEvent::SequenceNumber {
                number: *number,
            },
            MetaEvent::TextEvent { length, text } => SpecMetaEvent::TextEvent {
                length: *length,
                text: text@,
            },
            MetaEvent::CopyrightNotice { length, text } => SpecMetaEvent::CopyrightNotice {
                length: *length,
                text: text@,
            },
            MetaEvent::SequenceTrackName { length, text } => SpecMetaEvent::SequenceTrackName {
                length: *length,
                text: text@,
            },
            MetaEvent::InstrumentName { length, text } => SpecMetaEvent::InstrumentName {
                length: *length,
                text: text@,
            },
            MetaEvent::Lyric { length, text } => SpecMetaEvent::Lyric {
                length: *length,
                text: text@,
            },
            MetaEvent::Marker { length, text } => SpecMetaEvent::Marker {
                length: *length,
                text: text@,
            },
            MetaEvent::CuePoint { length, text } => SpecMetaEvent::CuePoint {
                length: *length,
                text: text@,
            },
            MetaEvent::MIDIChannelPrefix { channel } => SpecMetaEvent::MIDIChannelPrefix {
                channel: *channel,
            },
            MetaEvent::EndOfTrack => SpecMetaEvent::EndOfTrack,
            MetaEvent::SetTempo { tempo } => SpecMetaEvent::SetTempo { tempo: *tempo },
            MetaEvent::SMPTEOffset { smpte, frame } => SpecMetaEvent::SMPTEOffset {
                smpte: *smpte,
                frame: *frame,
            },
            MetaEvent::TimeSignature { numerator, denominator, clocks, notes } =>
                SpecMetaEvent::TimeSignature {
                numerator: *numerator,
                denominator: *denominator,
                clocks: *clocks,
                notes: *notes,
            },
            MetaEvent::KeySignature { sf, minor } => SpecMetaEvent::KeySignature {
                sf: *sf,
                minor: *minor,
            },
            MetaEvent::SequencerSpecific { length, data } => SpecMetaEvent::SequencerSpecific {
                length: *length,
                data: data@,
            },
        }
    }
}

/// A meta event of type `code` whose payload is `payload`: `FF`, the type,
/// the payload's length as a variable-length quantity, the payload.
pub open spec fn meta_frame(code: u8, payload: Seq<u8>) -> Seq<u8> {
    seq![0xFFu8, code] + vlq_bytes(payload.len()) + payload
}

impl SpecMetaEvent {
    /// The type byte that follows `FF`.
    pub open spec fn type_code(self) -> u8 {
        match self {
            SpecMetaEvent::SequenceNumber { .. } => 0x00,
            SpecMetaEvent::TextEvent { .. } => 0x01,
            SpecMetaEvent::CopyrightNotice { .. } => 0x02,
            SpecMetaEvent::SequenceTrackName { .. } => 0x03,
            SpecMetaEvent::InstrumentName { .. } => 0x04,
            SpecMetaEvent::Lyric { .. } => 0x05,
            SpecMetaEvent::Marker { .. } => 0x06,
            SpecMetaEvent::CuePoint { .. } => 0x07,
            SpecMetaEvent::MIDIChannelPrefix { .. } => 0x20,
            SpecMetaEvent::EndOfTrack => 0x2F,
            SpecMetaEvent::SetTempo { .. } => 0x51,
            SpecMetaEvent::SMPTEOffset { .. } => 0x54,
            SpecMetaEvent::TimeSignature { .. } => 0x58,
            SpecMetaEvent::KeySignature { .. } => 0x59,
            SpecMetaEvent::SequencerSpecific { .. } => 0x7F,
        }
    }

    /// The payload that follows the length.
    pub open spec fn payload(self) -> Seq<u8> {
        match self {
            SpecMetaEvent::SequenceNumber { number } => be16_bytes(number),
            SpecMetaEvent::TextEvent { text, .. } => text,
            SpecMetaEvent::CopyrightNotice { text, .. } => text,
            SpecMetaEvent::SequenceTrackName { text, .. } => text,
            SpecMetaEvent::InstrumentName { text, .. } => text,
            SpecMetaEvent::Lyric { text, .. } => text,
            SpecMetaEvent::Marker { text, .. } => text,
            SpecMetaEvent::CuePoint { text, .. } => text,
            SpecMetaEvent::MIDIChannelPrefix { channel } => seq![channel],
            SpecMetaEvent::EndOfTrack => Seq::empty(),
            SpecMetaEvent::SetTempo { tempo } => be24_bytes(tempo),
            SpecMetaEvent::SMPTEOffset { smpte, frame } => be32_bytes(smpte).push(frame),
            SpecMetaEvent::TimeSignature { numerator, denominator, clocks, notes } => seq![
                numerator,
                denominator,
                clocks,
                notes,
            ],
            SpecMetaEvent::KeySignature { sf, minor } => seq![sf, minor],
            SpecMetaEvent::SequencerSpecific { data, .. } => data,
        }
    }

    /// The encoding; the length is that of the payload, whatever the
    /// `length` field says.
    pub open spec fn raw(self) -> Seq<u8> {
        meta_frame(self.type_code(), self.payload())
    }

    /// The payload's length fits the 32-bit field that holds it.
    pub open spec fn encodable(self) -> bool {
        self.payload().len() <= u32::MAX
    }

    /// The event is what reading its own encoding gives: every `length`
    /// field matches its payload, payloads fit a variable-length quantity,
    /// and the tempo fits 24 bits.
    pub open spec fn well_formed(self) -> bool {
        &&& self.payload().len() <= VLQ_MAX
        &&& match self {
            SpecMetaEvent::TextEvent { length, text } => length == text.len(),
            SpecMetaEvent::CopyrightNotice { length, text } => length == text.len(),
            SpecMetaEvent::SequenceTrackName { length, text } => length == text.len(),
            SpecMetaEvent::InstrumentName { length, text } => length == text.len(),
            SpecMetaEvent::Lyric { length, text } => length == text.len(),
            SpecMetaEvent::Marker { length, text } => length == text.len(),
            SpecMetaEvent::CuePoint { length, text } => length == text.len(),
            SpecMetaEvent::SequencerSpecific { length, data } => length == data.len(),
            SpecMetaEvent::SetTempo { tempo } => tempo <= 0xFF_FFFF,
            _ => true,
        }
    }
}

/// `FF`, `code`, the length of `payload` and `payload`.
fn meta_frame_bytes(code: u8, payload: &Vec<u8>) -> (r: Vec<u8>)
    requires
        payload@.len() <= u32::MAX,
    ensures
        r@ == meta_frame(code, payload@),
{
    let mut r: Vec<u8> = vec![0xFF, code];
    push_vlq(payload.len() as u32, false, &mut r);
    extend_bytes(&mut r, payload.as_slice());
    assert(r@ =~= meta_frame(code, payload@));
    r
}

impl SmfElement for MetaEvent {
    open spec fn encodable(&self) -> bool {
        self@.encodable()
    }

    open spec fn spec_raw(&self) -> Seq<u8> {
        self@.raw()
    }

    fn raw(&self) -> (r: Vec<u8>) {
        let r = match self {
            MetaEvent::SequenceNumber { number } => vec![
                0xFF,
                0x00,
                0x02,
                (*number / 0x100) as u8,
                (*number % 0x100) as u8,
            ],
            MetaEvent::TextEvent { text, .. } => meta_frame_bytes(0x01, text),
            MetaEvent::CopyrightNotice { text, .. } => meta_frame_bytes(0x02, text),
            MetaEvent::SequenceTrackName { text, .. } => meta_frame_bytes(0x03, text),
            MetaEvent::InstrumentName { text, .. } => meta_frame_bytes(0x04, text),
            MetaEvent::Lyric { text, .. } => meta_frame_bytes(0x05, text),
            MetaEvent::Marker { text, .. } => meta_frame_bytes(0x06, text),
            MetaEvent::CuePoint { text, .. } => meta_frame_bytes(0x07, text),
            MetaEvent::MIDIChannelPrefix { channel } => vec![0xFF, 0x20, 0x01, *channel],
            MetaEvent::EndOfTrack => vec![0xFF, 0x2F, 0x00],
            MetaEvent::SetTempo { tempo } => vec![
                0xFF,
                0x51,
                0x03,
                ((*tempo / 0x1_0000) % 0x100) as u8,
                ((*tempo / 0x100) % 0x100) as u8,
                (*tempo % 0x100) as u8,
            ],
            MetaEvent::SMPTEOffset { smpte, frame } => vec![
                0xFF,
                0x54,
                0x05,
                (*smpte / 0x100_0000) as u8,
                ((*smpte / 0x1_0000) % 0x100) as u8,
                ((*smpte / 0x100) % 0x100) as u8,
                (*smpte % 0x100) as u8,
                *frame,
            ],
            MetaEvent::TimeSignature { numerator, denominator, clocks, notes } => vec![
                0xFF,
                0x58,
                0x04,
                *numerator,
                *denominator,
                *clocks,
                *notes,
            ],
            MetaEvent::KeySignature { sf, minor } => vec![0xFF, 0x59, 0x02, *sf, *minor],
            MetaEvent::SequencerSpecific { data, .. } => meta_frame_bytes(0x7F, data),
        };
        proof {
            reveal_with_fuel(vlq_groups, 2);
        }
        assert(r@ =~= self@.raw());
        r
    }
}

// System Exclusive Events //

/// A system-exclusive message.
#[derive(Debug, Clone, PartialEq, Eq)]
pub enum SysExEvent {
    /// Begins with `F0`; by convention the data ends with `F7`.
    SysExF0 { length: u32, data: Vec<u8> },
    /// Begins with `F7`: a continuation, or bytes to send as they are.
    SysExF7 { length: u32, data: Vec<u8> },
}

/// What a `SysExEvent` holds, with its data as a sequence.
pub enum SpecSysExEvent {
    SysExF0 { length: u32, data: Seq<u8> },
    SysExF7 { length: u32, data: Seq<u8> },
}

impl View for SysExEvent {
    type V = SpecSysExEvent;

    open spec fn view(&self) -> SpecSysExEvent {
        match self {
            SysExEvent::SysExF0 { length, data } => SpecSysExEvent::SysExF0 {
                length: *length,
                data: data@,
            },
            SysExEvent::SysExF7 { length, data } => SpecSysExEvent::SysExF7 {
                length: *length,
                data: data@,
            },
        }
    }
}

/// The prefix byte, the length of `data` as a variable-length quantity,
/// and `data`.
pub open spec fn sysex_frame(prefix: u8, data: Seq<u8>) -> Seq<u8> {
    seq![prefix] + vlq_bytes(data.len()) + data
}

impl SpecSysExEvent {
    pub open spec fn prefix(self) -> u8 {
        match self {
            SpecSysExEvent::SysExF0 { .. } => 0xF0,
            SpecSysExEvent::SysExF7 { .. } => 0xF7,
        }
    }

    pub open spec fn data(self) -> Seq<u8> {
        match self {
            SpecSysExEvent::SysExF0 { data, .. } => data,
            SpecSysExEvent::SysExF7 { data, .. } => data,
        }
    }

    pub open spec fn length(self) -> u32 {
        match self {
            SpecSysExEvent::SysExF0 { length, .. } => length,
            SpecSysExEvent::SysExF7 { length, .. } => length,
        }
    }

    /// The encoding; the length is that of the data, whatever the `length`
    /// field says.
    pub open spec fn raw(self) -> Seq<u8> {
        sysex_frame(self.prefix(), self.data())
    }

    pub open spec fn encodable(self) -> bool {
        self.data().len() <= u32::MAX
    }

    /// The event is what reading its own encoding gives.
    pub open spec fn well_formed(self) -> bool {
        self.data().len() <= VLQ_MAX && self.length() == self.data().len()
    }
}

/// The prefix byte, the length of `data` and `data`.
fn sysex_frame_bytes(prefix: u8, data: &Vec<u8>) -> (r: Vec<u8>)
    requires
        data@.len() <= u32::MAX,
    ensures
        r@ == sysex_frame(prefix, data@),
{
    let mut r: Vec<u8> = vec![prefix];
    push_vlq(data.len() as u32, false, &mut r);
    extend_bytes(&mut r, data.as_slice());
    assert(r@ =~= sysex_frame(prefix, data@));
    r
}

impl SmfElement for SysExEvent {
    open spec fn encodable(&self) -> bool {
        self@.encodable()
    }

    open spec fn spec_raw(&self) -> Seq<u8> {
        self@.raw()
    }

    fn raw(&self) -> (r: Vec<u8>) {
        match self {
            SysExEvent::SysExF0 { data, .. } => sysex_frame_bytes(0xF0, data),
            SysExEvent::SysExF7 { data, .. } => sysex_frame_bytes(0xF7, data),
        }
    }
}

} // verus!
