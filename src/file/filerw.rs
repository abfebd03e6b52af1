//! The ways reading can fail, and a byte buffer with a read cursor.
use vstd::prelude::*;

verus! {

/// Why reading a Standard MIDI File failed.
#[derive(Debug, Clone, PartialEq, Eq)]
pub enum SmfError {
    /// A header chunk whose declared length is not 6, or a header that is
    /// not where one is expected.
    MalformedHeader,
    /// The bytes ran out in the middle of a field.
    TruncatedInput,
    /// A variable-length quantity that does not end within four bytes.
    InvalidVlq,
    /// An event that starts with a byte no event can start with.
    UnknownStatusByte(u8),
    /// A data byte where a status byte is needed, before any status byte
    /// was seen in the track.
    MissingRunningStatus,
    /// A meta event of a type this library does not know; such events are
    /// refused rather than kept as opaque bytes.
    UnknownMetaType(u8),
    /// A meta event of a fixed-size type whose payload has another size.
    InvalidMetaLength(u8),
    /// A chunk whose tag is neither `MThd` nor `MTrk`; holds the tag.
    UnrecognizedChunk(u8, u8, u8, u8),
    /// A failure described in words, such as one met while reading a file.
    Message(String),
}

impl SmfError {
    /// An error described by `message`.
    pub fn new(message: &str) -> (r: SmfError)
        ensures
            r matches SmfError::Message(m) && m@ == message@,
    {
        SmfError::Message(message.to_owned())
    }
}

/// A byte buffer with a read cursor that only moves forward, but for
/// `reset_pointer`.
pub struct SmfReader {
    data: Vec<u8>,
    pointer: usize,
}

impl SmfReader {
    /// The bytes being read.
    pub closed spec fn bytes(&self) -> Seq<u8> {
        self.data@
    }

    /// The position of the next byte to read.
    pub closed spec fn pos(&self) -> int {
        self.pointer as int
    }

    #[verifier::type_invariant]
    spec fn inv(&self) -> bool {
        self.pointer <= self.data.len()
    }

    /// A reader at the start of `data`.
    pub fn new(data: Vec<u8>) -> (r: SmfReader)
        ensures
            r.bytes() == data@,
            r.pos() == 0,
    {
        SmfReader { data, pointer: 0 }
    }

    /// Moves the cursor back to the first byte.
    pub fn reset_pointer(&mut self)
        ensures
            final(self).bytes() == old(self).bytes(),
            final(self).pos() == 0,
    {
        self.pointer = 0;
    }

    /// The number of bytes left to read.
    pub fn remaining(&self) -> (r: usize)
        ensures
            r == self.bytes().len() - self.pos(),
            0 <= self.pos() <= self.bytes().len(),
    {
        proof {
            use_type_invariant(self);
        }
        self.data.len() - self.pointer
    }

    /// Reads the next `bytes` bytes and moves past them; `None`, with the
    /// cursor left where it was, when fewer are left.
    pub fn next_bytes_ref(&mut self, bytes: usize) -> (r: Option<&[u8]>)
        ensures
            final(self).bytes() == old(self).bytes(),
            old(self).pos() + bytes <= old(self).bytes().len() ==> r.is_some()
                && r.unwrap()@ == old(self).bytes().subrange(
                old(self).pos(),
                old(self).pos() + bytes,
            ) && final(self).pos() == old(self).pos() + bytes,
            old(self).pos() + bytes > old(self).bytes().len() ==> r.is_none() && final(self).pos()
                == old(self).pos(),
    {
        proof {
            use_type_invariant(&*self);
        }
        if bytes > self.data.len() - self.pointer {
            return None;
        }
        let start = self.pointer;
        self.pointer = self.pointer + bytes;
        Some(&self.data.as_slice()[start..start + bytes])
    }

    /// Moves the cursor past the next `bytes` bytes; `false`, with the
    /// cursor left where it was, when fewer are left.
    pub fn skip_bytes(&mut self, bytes: usize) -> (r: bool)
        ensures
            final(self).bytes() == old(self).bytes(),
            r == (old(self).pos() + bytes <= old(self).bytes().len()),
            r ==> final(self).pos() == old(self).pos() + bytes,
            !r ==> final(self).pos() == old(self).pos(),
    {
        proof {
            use_type_invariant(&*self);
        }
        if bytes > self.data.len() - self.pointer {
            return false;
        }
        self.pointer = self.pointer + bytes;
        true
    }

    /// Like `next_bytes_ref`, but hands out a copy.
    pub fn next_bytes(&mut self, bytes: usize) -> (r: Option<Vec<u8>>)
        ensures
            final(self).bytes() == old(self).bytes(),
            old(self).pos() + bytes <= old(self).bytes().len() ==> r.is_some()
                && r.unwrap()@ == old(self).bytes().subrange(
                old(self).pos(),
                old(self).pos() + bytes,
            ) && final(self).pos() == old(self).pos() + bytes,
            old(self).pos() + bytes > old(self).bytes().len() ==> r.is_none() && final(self).pos()
                == old(self).pos(),
    {
        match self.next_bytes_ref(bytes) {
            Some(x) => Some(copy_slice(x)),
            None => None,
        }
    }

    /// The next `bytes` bytes, without moving the cursor; `None` when fewer
    /// are left.
    pub fn seek_bytes_ref(&self, bytes: usize) -> (r: Option<&[u8]>)
        ensures
            self.pos() + bytes <= self.bytes().len() ==> r.is_some() && r.unwrap()@
                == self.bytes().subrange(self.pos(), self.pos() + bytes),
            self.pos() + bytes > self.bytes().len() ==> r.is_none(),
    {
        proof {
            use_type_invariant(self);
        }
        if bytes > self.data.len() - self.pointer {
            return None;
        }
        Some(&self.data.as_slice()[self.pointer..self.pointer + bytes])
    }

    /// Like `seek_bytes_ref`, but hands out a copy.
    pub fn seek_bytes(&self, bytes: usize) -> (r: Option<Vec<u8>>)
        ensures
            self.pos() + bytes <= self.bytes().len() ==> r.is_some() && r.unwrap()@
                == self.bytes().subrange(self.pos(), self.pos() + bytes),
            self.pos() + bytes > self.bytes().len() ==> r.is_none(),
    {
        match self.seek_bytes_ref(bytes) {
            Some(x) => Some(copy_slice(x)),
            None => None,
        }
    }
}

/// A vector holding the bytes of `s`.
fn copy_slice(s: &[u8]) -> (r: Vec<u8>)
    ensures
        r@ == s@,
{
    let mut r: Vec<u8> = Vec::with_capacity(s.len());
    let mut i: usize = 0;
    while i < s.len()
        invariant
            i <= s@.len(),
            r@ == s@.subrange(0, i as int),
        decreases s@.len() - i,
    {
        r.push(s[i]);
        i = i + 1;
        assert(r@ =~= s@.subrange(0, i as int));
    }
    assert(r@ =~= s@);
    r
}

} // verus!
