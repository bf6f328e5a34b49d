//! Length-prefixed messages over a byte stream.
//!
//! A frame is the length of a payload as four bytes, the most significant
//! first, and then the payload. The [`Writer`] turns messages into the bytes
//! that go to the stream; the [`Reader`] takes the bytes that came from it and
//! turns them into messages. Neither touches the stream itself.

use crate::messages::Message;
use vstd::prelude::*;

verus! {

/// An I/O error of the standard library.
#[verifier::external_type_specification]
#[verifier::external_body]
pub struct ExIoError(std::io::Error);

/// What can go wrong with a frame.
#[derive(Debug)]
pub enum Error {
    /// The stream failed, or ended within a frame.
    Io(std::io::Error),
    /// The payload holds no message.
    Decode(prost::DecodeError),
    /// The length of the payload is above the limit.
    InvalidLen,
}

/// What an [`Error`] says, without what the outside error holds.
pub enum Fault {
    Io,
    Decode,
    InvalidLen,
}

impl View for Error {
    type V = Fault;

    open spec fn view(&self) -> Fault {
        match self {
            Error::Io(_) => Fault::Io,
            Error::Decode(_) => Fault::Decode,
            Error::InvalidLen => Fault::InvalidLen,
        }
    }
}

/// The four bytes of a length, the most significant first.
pub open spec fn be32(n: nat) -> Seq<u8> {
    seq![
        (n / 16777216 % 256) as u8,
        (n / 65536 % 256) as u8,
        (n / 256 % 256) as u8,
        (n % 256) as u8,
    ]
}

/// The length that the first four bytes of `buf` give.
pub open spec fn be32_at(buf: Seq<u8>) -> nat {
    (buf[0] * 16777216 + buf[1] * 65536 + buf[2] * 256 + buf[3]) as nat
}

/// The frame that carries `payload`.
pub open spec fn frame(payload: Seq<u8>) -> Seq<u8> {
    be32(payload.len()) + payload
}

/// What stands at the start of a stream.
pub enum Next {
    /// Less than one frame.
    Incomplete,
    /// The header of a frame whose payload would be above the limit.
    Oversize,
    /// A frame with this payload.
    Complete(Seq<u8>),
}

/// What stands at the start of `unread`, under the limit `max_len`. A length
/// above the limit is seen as soon as the header is there.
pub open spec fn next_frame(unread: Seq<u8>, max_len: usize) -> Next {
    if unread.len() < 4 {
        Next::Incomplete
    } else if be32_at(unread) > max_len {
        Next::Oversize
    } else if unread.len() < 4 + be32_at(unread) {
        Next::Incomplete
    } else {
        Next::Complete(unread.subrange(4, 4 + be32_at(unread) as int))
    }
}

/// The four bytes of a length give the length back.
pub proof fn lemma_be32(n: nat)
    requires
        n <= u32::MAX,
    ensures
        be32(n).len() == 4,
        be32_at(be32(n)) == n,
{
    let a = n / 16777216;
    let b = n / 65536;
    let c = n / 256;
    assert(a < 256);
    assert(b == a * 256 + b % 256);
    assert(c == b * 256 + c % 256);
    assert(n == c * 256 + n % 256);
    assert(a % 256 == a);
    let bytes = be32(n);
    assert(bytes[0] == a);
    assert(bytes[1] == b % 256);
    assert(bytes[2] == c % 256);
    assert(bytes[3] == n % 256);
}

/// A frame is four bytes longer than its payload, and its first four bytes
/// give the payload's length.
pub proof fn lemma_frame(payload: Seq<u8>)
    requires
        payload.len() <= u32::MAX,
    ensures
        frame(payload).len() == 4 + payload.len(),
        be32_at(frame(payload)) == payload.len(),
        frame(payload).subrange(4, 4 + payload.len() as int) == payload,
{
    let head = be32(payload.len());
    lemma_be32(payload.len());
    assert(frame(payload)[0] == head[0]);
    assert(frame(payload)[1] == head[1]);
    assert(frame(payload)[2] == head[2]);
    assert(frame(payload)[3] == head[3]);
    assert(frame(payload).subrange(4, 4 + payload.len() as int) =~= payload);
}

/// A frame with a payload within the limit, whatever follows it, is read as
/// that payload, and what follows it is left.
pub proof fn lemma_next_frame(payload: Seq<u8>, rest: Seq<u8>, max_len: usize)
    requires
        payload.len() <= max_len <= u32::MAX,
    ensures
        next_frame(frame(payload) + rest, max_len) == Next::Complete(payload),
        (frame(payload) + rest).skip(4 + payload.len() as int) == rest,
{
    let stream = frame(payload) + rest;
    lemma_frame(payload);
    assert(stream[0] == frame(payload)[0]);
    assert(stream[1] == frame(payload)[1]);
    assert(stream[2] == frame(payload)[2]);
    assert(stream[3] == frame(payload)[3]);
    assert(be32_at(stream) == be32_at(frame(payload)));
    assert(stream.subrange(4, 4 + payload.len() as int) =~= payload);
    assert(stream.skip(4 + payload.len() as int) =~= rest);
}

/// A message within the limit that was framed is read back as it was.
pub proof fn lemma_round_trip<T: Message>(value: T::V, rest: Seq<u8>, max_len: usize)
    requires
        T::wire(value).len() <= max_len <= u32::MAX,
    ensures
        next_frame(frame(T::wire(value)) + rest, max_len) == Next::Complete(T::wire(value)),
        T::parse(T::wire(value)) == Some(value),
{
    lemma_next_frame(T::wire(value), rest, max_len);
    T::lemma_round_trip(value);
}

/// The error of a stream that ended within a frame, from
/// `std::io::Error::from` with the kind `UnexpectedEof`.
#[verifier::external_body]
fn unexpected_eof() -> std::io::Error {
    std::io::Error::from(std::io::ErrorKind::UnexpectedEof)
}

/// The reading side: the bytes that came from the stream and that no message
/// was made of yet.
pub struct Reader {
    buffer: Vec<u8>,
    max_len: usize,
}

/// The writing side: the bytes of the messages written and not yet handed to
/// the stream.
pub struct Writer {
    buffer: Vec<u8>,
    max_len: usize,
}

/// Creates a new pair of [`Reader`] and [`Writer`] with nothing in them, for
/// payloads of at most `max_len` bytes.
pub fn new(max_len: usize) -> (pair: (Reader, Writer))
    requires
        max_len <= u32::MAX,
    ensures
        pair.0.wf(),
        pair.0.unread() == Seq::<u8>::empty(),
        pair.0.max_len() == max_len,
        pair.1.wf(),
        pair.1.pending() == Seq::<u8>::empty(),
        pair.1.max_len() == max_len,
{
    (Reader { buffer: Vec::new(), max_len }, Writer { buffer: Vec::new(), max_len })
}

impl Reader {
    /// The bytes fed and not yet read.
    pub closed spec fn unread(&self) -> Seq<u8> {
        self.buffer@
    }

    /// The largest payload that is read.
    pub closed spec fn max_len(&self) -> usize {
        self.max_len
    }

    /// The limit fits the header of a frame.
    pub closed spec fn wf(&self) -> bool {
        self.max_len <= u32::MAX
    }

    /// Takes the bytes that the stream gave.
    pub fn feed(&mut self, bytes: &[u8])
        ensures
            final(self).unread() == old(self).unread() + bytes@,
            final(self).max_len() == old(self).max_len(),
            final(self).wf() == old(self).wf(),
    {
        self.buffer.extend_from_slice(bytes);
        assert(self.buffer@ =~= old(self).buffer@ + bytes@);
    }

    /// Whether the stream may end here: `Ok` between two frames, the I/O
    /// error of an unexpected end within one.
    pub fn finish(&self) -> (r: Result<(), Error>)
        ensures
            self.unread().len() == 0 ==> r is Ok,
            self.unread().len() != 0 ==> r matches Err(Error::Io(_)),
    {
        if self.buffer.len() == 0 {
            Ok(())
        } else {
            Err(Error::Io(unexpected_eof()))
        }
    }

    /// Reads and decodes the next message from the bytes fed: `Ok(None)`
    /// where they hold less than a frame, and then nothing is taken.
    pub fn read<T: Message>(&mut self) -> (r: Result<Option<T>, Error>)
        requires
            old(self).wf(),
        ensures
            final(self).wf(),
            final(self).max_len() == old(self).max_len(),
            match next_frame(old(self).unread(), old(self).max_len()) {
                Next::Incomplete => (r matches Ok(None)) && final(self).unread() == old(
                    self,
                ).unread(),
                Next::Oversize => (r matches Err(Error::InvalidLen)) && final(self).unread()
                    == old(self).unread(),
                Next::Complete(payload) => {
                    &&& final(self).unread() == old(self).unread().skip(4 + payload.len() as int)
                    &&& match T::parse(payload) {
                        Some(value) => (r matches Ok(Some(message)) && message@ == value),
                        None => (r matches Err(Error::Decode(_))),
                    }
                },
            },
    {
        if self.buffer.len() < 4 {
            return Ok(None);
        }
        let length: u64 = (self.buffer[0] as u64) * 16777216 + (self.buffer[1] as u64) * 65536 + (
        self.buffer[2] as u64) * 256 + (self.buffer[3] as u64);
        if length > self.max_len as u64 {
            return Err(Error::InvalidLen);
        }
        let length: usize = length as usize;
        if self.buffer.len() - 4 < length {
            return Ok(None);
        }
        let rest = self.buffer.split_off(4 + length);
        let decoded = T::decode(vstd::slice::slice_subrange(self.buffer.as_slice(), 4, 4 + length));
        proof {
            assert(self.buffer@.subrange(4, 4 + length) =~= old(self).buffer@.subrange(
                4,
                4 + length,
            ));
            assert(rest@ =~= old(self).buffer@.skip(4 + length));
        }
        self.buffer = rest;
        match decoded {
            Ok(message) => Ok(Some(message)),
            Err(error) => Err(Error::Decode(error)),
        }
    }
}

impl Writer {
    /// The bytes written and not yet flushed.
    pub closed spec fn pending(&self) -> Seq<u8> {
        self.buffer@
    }

    /// The largest payload that is written.
    pub closed spec fn max_len(&self) -> usize {
        self.max_len
    }

    /// The limit fits the header of a frame.
    pub closed spec fn wf(&self) -> bool {
        self.max_len <= u32::MAX
    }

    /// Encodes a message and puts its frame behind what is pending. A message
    /// whose encoding is longer than the limit is refused, and nothing is
    /// written of it.
    pub fn write<T: Message>(&mut self, message: T) -> (r: Result<(), Error>)
        requires
            old(self).wf(),
        ensures
            final(self).wf(),
            final(self).max_len() == old(self).max_len(),
            T::wire(message@).len() <= old(self).max_len() ==> r is Ok && final(self).pending()
                == old(self).pending() + frame(T::wire(message@)),
            T::wire(message@).len() > old(self).max_len() ==> (r matches Err(Error::InvalidLen))
                && final(self).pending() == old(self).pending(),
    {
        let length: usize = match message.encoded_len() {
            Some(length) => length,
            None => {
                return Err(Error::InvalidLen);
            },
        };
        if length > self.max_len {
            return Err(Error::InvalidLen);
        }
        self.buffer.push((length / 16777216 % 256) as u8);
        self.buffer.push((length / 65536 % 256) as u8);
        self.buffer.push((length / 256 % 256) as u8);
        self.buffer.push((length % 256) as u8);
        assert(self.buffer@ =~= old(self).buffer@ + be32(length as nat));
        message.encode_raw(&mut self.buffer);
        assert(self.buffer@ =~= old(self).buffer@ + frame(T::wire(message@)));
        Ok(())
    }

    /// Hands out what is pending, for the stream, and keeps nothing.
    pub fn flush(&mut self) -> (bytes: Vec<u8>)
        ensures
            bytes@ == old(self).pending(),
            final(self).pending() == Seq::<u8>::empty(),
            final(self).max_len() == old(self).max_len(),
            final(self).wf() == old(self).wf(),
    {
        let mut bytes = Vec::new();
        std::mem::swap(&mut self.buffer, &mut bytes);
        bytes
    }
}

} // verus!
