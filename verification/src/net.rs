//! The worker wire format: length-prefixed frames over a byte stream, and a
//! streaming buffer that reassembles frames from arbitrarily split reads.
//! What a frame's payload means (JSON) is the embedder's business; the
//! library frames and checks bytes.

use vstd::prelude::*;

use crate::daemon::WorkerResult;
use crate::obj::{CommandId, XCmd};

verus! {

/// A frame: the payload length as two little-endian bytes, then the payload.
pub open spec fn frame_of(payload: Seq<u8>) -> Seq<u8> {
    seq![(payload.len() % 256) as u8, ((payload.len() / 256) % 256) as u8] + payload
}

/// What the head of a buffer parses to: nothing yet, or one payload and the
/// number of bytes it occupied.
pub open spec fn parse_frame_v(b: Seq<u8>) -> Option<(Seq<u8>, int)> {
    if b.len() < 2 {
        None
    } else {
        let l = b[0] + 256 * (b[1] as int);
        if b.len() < 2 + l {
            None
        } else {
            Some((b.subrange(2, 2 + l), 2 + l))
        }
    }
}

/// Frame a payload of at most 65535 bytes; longer payloads cannot be
/// carried and are refused.
pub fn frame_payload(payload: &Vec<u8>) -> (r: Option<Vec<u8>>)
    ensures
        payload@.len() <= 65535 ==> (r matches Some(f) && f.deep_view() == frame_of(payload@)),
        payload@.len() > 65535 ==> r is None,
{
    if payload.len() > 65535 {
        return None;
    }
    let len = payload.len();
    let mut f: Vec<u8> = Vec::new();
    f.push((len % 256) as u8);
    f.push(((len / 256) % 256) as u8);
    let mut i: usize = 0;
    while i < payload.len()
        invariant
            i <= payload@.len(),
            f@.len() == 2 + i,
            f@[0] == (payload@.len() % 256) as u8,
            f@[1] == ((payload@.len() / 256) % 256) as u8,
            forall|k: int| 0 <= k < i ==> f@[k + 2] == payload@[k],
        decreases payload@.len() - i,
    {
        f.push(payload[i]);
        i = i + 1;
    }
    proof {
        assert(f.deep_view() =~= frame_of(payload@));
    }
    Some(f)
}

/// Extract the first frame from the head of a buffer, if one is complete.
pub fn parse_frame(b: &Vec<u8>) -> (r: Option<(Vec<u8>, usize)>)
    ensures
        match r {
            Some(p) => parse_frame_v(b@) == Some((p.0.deep_view(), p.1 as int)),
            None => parse_frame_v(b@) is None,
        },
{
    if b.len() < 2 {
        return None;
    }
    let l: usize = (b[0] as usize) + 256 * (b[1] as usize);
    if b.len() < 2 + l {
        return None;
    }
    let mut p: Vec<u8> = Vec::new();
    let mut i: usize = 0;
    while i < l
        invariant
            i <= l,
            2 + l <= b@.len(),
            l <= usize::MAX - 2,
            p@.len() == i,
            forall|k: int| 0 <= k < i ==> p@[k] == b@[k + 2],
        decreases l - i,
    {
        p.push(b[2 + i]);
        i = i + 1;
    }
    proof {
        assert(p.deep_view() =~= b@.subrange(2, 2 + l));
    }
    Some((p, 2 + l))
}

/// Framing round trip: a framed payload parses back to itself, whatever
/// bytes follow it.
pub proof fn lemma_frame_round_trip(payload: Seq<u8>, rest: Seq<u8>)
    requires
        payload.len() <= 65535,
    ensures
        parse_frame_v(frame_of(payload) + rest) == Some((payload, 2 + payload.len() as int)),
{
    let b = frame_of(payload) + rest;
    assert(b[0] == (payload.len() % 256) as u8);
    assert(b[1] == ((payload.len() / 256) % 256) as u8);
    assert(b[0] + 256 * (b[1] as int) == payload.len());
    assert(b.subrange(2, 2 + payload.len() as int) =~= payload);
}

/// Why the streaming buffer cannot hand out a frame.
#[derive(Debug, PartialEq, Eq)]
pub enum StreamingBufferError {
    /// The buffer is full and still holds no complete frame.
    BufferOverflow,
    /// The bytes at the head cannot be a frame.
    ParserError,
    /// More bytes must arrive first.
    ShouldWait,
}

/// Reassembles length-prefixed frames from a byte stream that arrives in
/// arbitrary chunks, holding at most `capacity` buffered bytes.
#[derive(Debug)]
pub struct StreamingBuffer {
    b: Vec<u8>,
    c: usize,
}

impl StreamingBuffer {
    /// The bytes currently buffered.
    pub closed spec fn bytes(&self) -> Seq<u8> {
        self.b.deep_view()
    }

    /// The buffer's capacity.
    pub closed spec fn cap(&self) -> int {
        self.c as int
    }

    pub fn new(capacity: usize) -> (r: Self)
        ensures
            r.bytes() == Seq::<u8>::empty(),
            r.cap() == capacity,
    {
        let r = StreamingBuffer { b: Vec::new(), c: capacity };
        proof {
            assert(r.bytes() =~= Seq::<u8>::empty());
        }
        r
    }

    /// Take in one received chunk; it is refused in whole if it would
    /// overflow the buffer.
    pub fn feed(&mut self, chunk: &Vec<u8>) -> (r: Result<(), StreamingBufferError>)
        ensures
            final(self).cap() == old(self).cap(),
            match r {
                Result::Ok(u) => old(self).bytes().len() + chunk@.len() <= old(self).cap()
                    && final(self).bytes() == old(self).bytes() + chunk.deep_view(),
                Result::Err(e) => e == StreamingBufferError::BufferOverflow && old(
                    self,
                ).bytes().len() + chunk@.len() > old(self).cap() && final(self).bytes() == old(
                    self,
                ).bytes(),
            },
    {
        if chunk.len() > self.c || self.b.len() > self.c - chunk.len() {
            return Err(StreamingBufferError::BufferOverflow);
        }
        let mut i: usize = 0;
        while i < chunk.len()
            invariant
                i <= chunk@.len(),
                self.b@.len() == old(self).b@.len() + i,
                self.c == old(self).c,
                forall|k: int| 0 <= k < old(self).b@.len() ==> self.b@[k] == old(self).b@[k],
                forall|k: int|
                    0 <= k < i ==> self.b@[old(self).b@.len() + k] == chunk@[k],
            decreases chunk@.len() - i,
        {
            self.b.push(chunk[i]);
            i = i + 1;
        }
        proof {
            assert(self.bytes() =~= old(self).bytes() + chunk.deep_view());
        }
        Ok(())
    }

    /// Hand out the next complete frame's payload, or say why none is
    /// available yet.
    pub fn try_read(&mut self) -> (r: Result<Vec<u8>, StreamingBufferError>)
        ensures
            final(self).cap() == old(self).cap(),
            match r {
                Result::Ok(p) => (parse_frame_v(old(self).bytes()) matches Some(f) && p.deep_view()
                    == f.0 && final(self).bytes() == old(self).bytes().skip(f.1)),
                Result::Err(e) => parse_frame_v(old(self).bytes()) is None && final(self).bytes()
                    == old(self).bytes() && e == (if old(self).bytes().len() >= old(self).cap() {
                    StreamingBufferError::BufferOverflow
                } else {
                    StreamingBufferError::ShouldWait
                }),
            },
    {
        match parse_frame(&self.b) {
            Some((payload, consumed)) => {
                let mut rest: Vec<u8> = Vec::new();
                let mut i: usize = consumed;
                while i < self.b.len()
                    invariant
                        consumed <= i <= self.b@.len(),
                        self.b == old(self).b,
                        self.c == old(self).c,
                        rest@.len() == i - consumed,
                        forall|k: int|
                            0 <= k < i - consumed ==> rest@[k] == self.b@[consumed + k],
                    decreases self.b@.len() - i,
                {
                    rest.push(self.b[i]);
                    i = i + 1;
                }
                proof {
                    assert(rest.deep_view() =~= old(self).bytes().skip(consumed as int));
                }
                self.b = rest;
                Ok(payload)
            },
            None => {
                if self.b.len() >= self.c {
                    Err(StreamingBufferError::BufferOverflow)
                } else {
                    Err(StreamingBufferError::ShouldWait)
                }
            },
        }
    }
}

/// A message from the dispatcher to a worker: a numbered job request.
#[derive(Debug, PartialEq, Eq)]
pub enum ClientBkRp {
    Request(usize, XCmd),
}

/// A message from a worker to the dispatcher: its one-time header, or a
/// numbered result.
#[derive(Debug, PartialEq, Eq)]
pub enum ClientBkRq {
    Header(Option<usize>, Vec<CommandId>),
    Outcome(usize, WorkerResult),
}

/// A request to the listening loop.
#[derive(Debug, PartialEq, Eq)]
pub enum ListenerRq {
    Kill,
}

/// Why a client session ended, with a diagnostic code.
#[derive(Debug, PartialEq, Eq)]
pub enum TcpClientErr {
    Rx(usize),
    Tx(usize),
    Nx(usize),
}

} // verus!
