//! Length-prefixed gzip frames: the reader's staging buffer and the writer's
//! framing.
use vstd::prelude::*;
use crate::error::Error;
use crate::gzip::{compress, decompress, gunzip_members, gzip_best};

verus! {

/// The frame ceiling that [`Reader::with_defaults`] sets: 16 MiB.
pub const DEFAULT_MAX_FRAME: usize = 16777216;

/// The staging-buffer ceiling that [`Reader::with_defaults`] sets: room for
/// one frame of the largest length and its prefix.
pub const DEFAULT_MAX_BUFFER: usize = 16777220;

/// The big-endian unsigned integer in the first four bytes of `s`.
pub open spec fn be32(s: Seq<u8>) -> int {
    s[0] * 16777216 + s[1] * 65536 + s[2] * 256 + s[3]
}

/// The four big-endian bytes of `n`, for `0 <= n < 2^32`.
pub open spec fn be32_bytes(n: int) -> Seq<u8> {
    seq![(n / 16777216) as u8, ((n / 65536) % 256) as u8, ((n / 256) % 256) as u8, (n % 256) as u8]
}

/// A frame on the wire: the length of `payload` in four big-endian bytes,
/// then `payload`.
pub open spec fn frame_of(payload: Seq<u8>) -> Seq<u8> {
    be32_bytes(payload.len() as int) + payload
}

/// What the front of a staging buffer holds.
pub enum FrameStep {
    /// Not yet a whole frame.
    Incomplete,
    /// A prefix announcing more than the frame ceiling.
    TooLarge,
    /// A whole frame with this payload, followed by these bytes.
    Complete(Seq<u8>, Seq<u8>),
}

pub open spec fn frame_step(buf: Seq<u8>, max_frame: int) -> FrameStep {
    if buf.len() < 4 {
        FrameStep::Incomplete
    } else if be32(buf) > max_frame {
        FrameStep::TooLarge
    } else if buf.len() < 4 + be32(buf) {
        FrameStep::Incomplete
    } else {
        FrameStep::Complete(buf.subrange(4, 4 + be32(buf)), buf.skip(4 + be32(buf)))
    }
}

/// The largest length that a frame's prefix can announce.
pub const MAX_PREFIX: usize = 4294967295;

/// The payloads of the whole frames at the front of `s`, in order, and the
/// bytes after them.
pub open spec fn take_frames(s: Seq<u8>, max_frame: int) -> (Seq<Seq<u8>>, Seq<u8>)
    decreases s.len(),
{
    match frame_step(s, max_frame) {
        FrameStep::Complete(payload, rest) => if rest.len() < s.len() {
            let (more, left) = take_frames(rest, max_frame);
            (seq![payload] + more, left)
        } else {
            (Seq::empty(), s)
        },
        _ => (Seq::empty(), s),
    }
}

/// The length of the frame at the front of `buf`, if it is whole: `None`
/// while more bytes are needed, `FrameTooLarge` once the prefix announces
/// more than `max_frame` bytes.
pub fn frame_length(buf: &[u8], max_frame: usize) -> (r: Result<Option<usize>, Error>)
    ensures
        match frame_step(buf@, max_frame as int) {
            FrameStep::Incomplete => r == Ok::<Option<usize>, Error>(None),
            FrameStep::TooLarge => r == Err::<Option<usize>, Error>(Error::FrameTooLarge),
            FrameStep::Complete(_, _) => r == Ok::<Option<usize>, Error>(Some(be32(buf@) as usize)),
        },
        r matches Ok(Some(n)) ==> n == be32(buf@) && 4 + n <= buf@.len(),
{
    if buf.len() < 4 {
        return Ok(None);
    }
    let len: u64 = buf[0] as u64 * 16777216 + buf[1] as u64 * 65536 + buf[2] as u64 * 256 + buf[3] as u64;
    if len > max_frame as u64 {
        return Err(Error::FrameTooLarge);
    }
    let n = len as usize;
    if buf.len() - 4 < n {
        return Ok(None);
    }
    Ok(Some(n))
}

pub struct ReaderModel {
    pub buffered: Seq<u8>,
    pub max_frame: int,
    pub max_buffer: int,
}

/// One step of [`Reader::read`].
#[derive(Debug, PartialEq, Eq)]
pub enum ReadStep {
    /// The decompressed payload of the next frame.
    Frame(Vec<u8>),
    /// No whole frame is buffered: feed more bytes.
    NeedInput,
}

/// The read side of a framed connection: a staging buffer of bytes received
/// and not yet delivered, with ceilings on a frame's length and on the
/// buffer.
#[derive(Debug)]
pub struct Reader {
    buf: Vec<u8>,
    max_frame: usize,
    max_buffer: usize,
}

impl View for Reader {
    type V = ReaderModel;

    closed spec fn view(&self) -> ReaderModel {
        ReaderModel { buffered: self.buf@, max_frame: self.max_frame as int, max_buffer: self.max_buffer as int }
    }
}

impl Reader {
    pub fn new(max_frame: usize, max_buffer: usize) -> (r: Reader)
        ensures
            r@ == (ReaderModel { buffered: Seq::empty(), max_frame: max_frame as int, max_buffer: max_buffer as int }),
    {
        Reader { buf: Vec::new(), max_frame, max_buffer }
    }

    pub fn with_defaults() -> (r: Reader)
        ensures
            r@ == (ReaderModel {
                buffered: Seq::empty(),
                max_frame: DEFAULT_MAX_FRAME as int,
                max_buffer: DEFAULT_MAX_BUFFER as int,
            }),
    {
        Reader::new(DEFAULT_MAX_FRAME, DEFAULT_MAX_BUFFER)
    }

    /// A reader whose staging buffer starts with `buffered`, the bytes that
    /// arrived behind a handshake.
    pub fn from_raw(buffered: Vec<u8>, max_frame: usize, max_buffer: usize) -> (r: Result<Reader, Error>)
        ensures
            buffered@.len() > max_buffer ==> r == Err::<Reader, Error>(Error::BufferOverflow),
            buffered@.len() <= max_buffer ==> r is Ok && r->Ok_0@ == (ReaderModel {
                buffered: buffered@,
                max_frame: max_frame as int,
                max_buffer: max_buffer as int,
            }),
    {
        if buffered.len() > max_buffer {
            Err(Error::BufferOverflow)
        } else {
            Ok(Reader { buf: buffered, max_frame, max_buffer })
        }
    }

    /// The bytes received and not yet delivered.
    pub fn buffered(&self) -> (r: &[u8])
        ensures
            r@ == self@.buffered,
    {
        self.buf.as_slice()
    }

    /// How many more bytes the staging buffer takes.
    pub fn room(&self) -> (r: usize)
        ensures
            r == if self@.buffered.len() < self@.max_buffer {
                self@.max_buffer - self@.buffered.len()
            } else {
                0
            },
    {
        if self.buf.len() < self.max_buffer {
            self.max_buffer - self.buf.len()
        } else {
            0
        }
    }

    /// Append what one read of the byte source returned; an empty chunk is
    /// the source's end.
    pub fn feed(&mut self, chunk: &[u8]) -> (r: Result<(), Error>)
        ensures
            chunk@.len() == 0 ==> r == Err::<(), Error>(Error::EndOfStream) && final(self)@ == old(self)@,
            chunk@.len() > 0 && old(self)@.buffered.len() + chunk@.len() > old(self)@.max_buffer ==> r
                == Err::<(), Error>(Error::BufferOverflow) && final(self)@ == old(self)@,
            chunk@.len() > 0 && old(self)@.buffered.len() + chunk@.len() <= old(self)@.max_buffer ==> r
                == Ok::<(), Error>(()) && final(self)@ == (ReaderModel {
                buffered: old(self)@.buffered + chunk@,
                ..old(self)@
            }),
    {
        if chunk.len() == 0 {
            return Err(Error::EndOfStream);
        }
        if self.buf.len() > self.max_buffer || chunk.len() > self.max_buffer - self.buf.len() {
            return Err(Error::BufferOverflow);
        }
        let mut i: usize = 0;
        let ghost start = self.buf@;
        while i < chunk.len()
            invariant
                0 <= i <= chunk@.len(),
                self.buf@ == start + chunk@.subrange(0, i as int),
                self.max_frame == old(self).max_frame,
                self.max_buffer == old(self).max_buffer,
            decreases chunk@.len() - i,
        {
            self.buf.push(chunk[i]);
            i = i + 1;
            assert(self.buf@ =~= start + chunk@.subrange(0, i as int));
        }
        assert(chunk@.subrange(0, chunk@.len() as int) =~= chunk@);
        Ok(())
    }

    /// The next payload, if a whole frame is buffered. A frame that fails to
    /// decode is still taken off the buffer.
    pub fn read(&mut self) -> (r: Result<ReadStep, Error>)
        ensures
            final(self)@.max_frame == old(self)@.max_frame,
            final(self)@.max_buffer == old(self)@.max_buffer,
            match frame_step(old(self)@.buffered, old(self)@.max_frame) {
                FrameStep::Incomplete => r == Ok::<ReadStep, Error>(ReadStep::NeedInput) && final(self)@ == old(self)@,
                FrameStep::TooLarge => r == Err::<ReadStep, Error>(Error::FrameTooLarge) && final(self)@ == old(self)@,
                FrameStep::Complete(payload, rest) => final(self)@.buffered == rest && match gunzip_members(payload) {
                    Some(p) => r matches Ok(ReadStep::Frame(v)) && v@ == p,
                    None => r == Err::<ReadStep, Error>(Error::Decode),
                },
            },
    {
        let n = match frame_length(self.buf.as_slice(), self.max_frame) {
            Ok(Some(n)) => n,
            Ok(None) => return Ok(ReadStep::NeedInput),
            Err(e) => return Err(e),
        };
        let total = self.buf.len();
        assert(4 + n <= total);
        let end: usize = 4 + n;
        let decoded = decompress(&self.buf.as_slice()[4..end]);
        let rest = self.buf.split_off(end);
        self.buf = rest;
        match decoded {
            Some(v) => Ok(ReadStep::Frame(v)),
            None => Err(Error::Decode),
        }
    }
}

/// A whole frame around a compressed payload: `FrameTooLarge` where its
/// length does not fit the four-byte prefix.
pub fn frame(compressed: &[u8]) -> (r: Result<Vec<u8>, Error>)
    ensures
        compressed@.len() > u32::MAX ==> r == Err::<Vec<u8>, Error>(Error::FrameTooLarge),
        compressed@.len() <= u32::MAX ==> r is Ok && r->Ok_0@ == frame_of(compressed@),
{
    if compressed.len() as u64 > 4294967295u64 {
        return Err(Error::FrameTooLarge);
    }
    let n = compressed.len() as u64;
    let mut out: Vec<u8> = Vec::new();
    out.push((n / 16777216) as u8);
    out.push(((n / 65536) % 256) as u8);
    out.push(((n / 256) % 256) as u8);
    out.push((n % 256) as u8);
    let mut i: usize = 0;
    while i < compressed.len()
        invariant
            0 <= i <= compressed@.len(),
            out@ == be32_bytes(compressed@.len() as int) + compressed@.subrange(0, i as int),
        decreases compressed@.len() - i,
    {
        out.push(compressed[i]);
        i = i + 1;
        assert(out@ =~= be32_bytes(compressed@.len() as int) + compressed@.subrange(0, i as int));
    }
    assert(compressed@.subrange(0, compressed@.len() as int) =~= compressed@);
    Ok(out)
}

/// The write side of a framed connection: turns payloads into frames.
#[derive(Debug)]
pub struct Writer {}

impl Writer {
    pub fn new() -> Writer {
        Writer {}
    }

    /// The bytes to send for `payload`: its gzip stream, framed.
    pub fn write(&self, payload: &[u8]) -> (r: Result<Vec<u8>, Error>)
        ensures
            match gzip_best(payload@) {
                Some(c) => if c.len() > u32::MAX {
                    r == Err::<Vec<u8>, Error>(Error::FrameTooLarge)
                } else {
                    r is Ok && r->Ok_0@ == frame_of(c)
                },
                None => r == Err::<Vec<u8>, Error>(Error::Transport),
            },
    {
        match compress(payload) {
            Some(c) => frame(c.as_slice()),
            None => Err(Error::Transport),
        }
    }
}


/// The four-byte prefix reads back as the length it was written from.
pub proof fn lemma_be32_round_trip(n: int)
    requires
        0 <= n <= u32::MAX,
    ensures
        be32(be32_bytes(n)) == n,
{
    let a = n / 16777216;
    let b = (n / 65536) % 256;
    let c = (n / 256) % 256;
    let d = n % 256;
    assert(0 <= a < 256 && 0 <= b < 256 && 0 <= c < 256 && 0 <= d < 256);
    assert(a * 16777216 + b * 65536 + c * 256 + d == n) by (nonlinear_arith)
        requires
            0 <= n <= u32::MAX,
            a == n / 16777216,
            b == (n / 65536) % 256,
            c == (n / 256) % 256,
            d == n % 256,
    {
    }
    let s = be32_bytes(n);
    assert(s[0] == a && s[1] == b && s[2] == c && s[3] == d);
}

/// A frame that fits the ceiling is read back whole from the front of any
/// stream it opens, leaving what follows it.
pub proof fn lemma_frame_round_trip(payload: Seq<u8>, rest: Seq<u8>, max_frame: int)
    requires
        payload.len() <= max_frame,
        payload.len() <= u32::MAX,
    ensures
        frame_step(frame_of(payload) + rest, max_frame) == FrameStep::Complete(payload, rest),
{
    let s = frame_of(payload) + rest;
    lemma_be32_round_trip(payload.len() as int);
    assert(s.subrange(0, 4) =~= be32_bytes(payload.len() as int));
    assert(be32(s) == be32(be32_bytes(payload.len() as int)));
    assert(s.subrange(4, 4 + payload.len() as int) =~= payload);
    assert(s.skip(4 + payload.len() as int) =~= rest);
}

/// The frames of `payloads`, one after another.
pub open spec fn frames_of(payloads: Seq<Seq<u8>>) -> Seq<u8>
    decreases payloads.len(),
{
    if payloads.len() == 0 {
        Seq::empty()
    } else {
        frame_of(payloads[0]) + frames_of(payloads.skip(1))
    }
}

/// Payloads written one after another come back in the same order, and
/// nothing is left over.
pub proof fn lemma_frames_in_order(payloads: Seq<Seq<u8>>, max_frame: int)
    requires
        forall|i: int| 0 <= i < payloads.len() ==> #[trigger] payloads[i].len() <= max_frame && payloads[i].len() <= u32::MAX,
    ensures
        take_frames(frames_of(payloads), max_frame) == (payloads, Seq::<u8>::empty()),
    decreases payloads.len(),
{
    if payloads.len() == 0 {
        assert(frame_step(Seq::<u8>::empty(), max_frame) == FrameStep::Incomplete);
    } else {
        let tail = payloads.skip(1);
        assert forall|i: int| 0 <= i < tail.len() implies #[trigger] tail[i].len() <= max_frame && tail[i].len() <= u32::MAX by {
            assert(tail[i] == payloads[i + 1]);
        }
        lemma_frames_in_order(tail, max_frame);
        lemma_frame_round_trip(payloads[0], frames_of(tail), max_frame);
        assert(seq![payloads[0]] + tail =~= payloads);
    }
}

/// How a stream is cut into reads does not change what is read from it:
/// taking the frames of `s1`, then of what is left of it followed by `s2`,
/// gives the frames of `s1 + s2` and the same remainder.
pub proof fn lemma_take_frames_split(s1: Seq<u8>, s2: Seq<u8>, max_frame: int)
    ensures
        ({
            let (first, left) = take_frames(s1, max_frame);
            let (second, end) = take_frames(left + s2, max_frame);
            take_frames(s1 + s2, max_frame) == (first + second, end)
        }),
    decreases s1.len(),
{
    let s = s1 + s2;
    match frame_step(s1, max_frame) {
        FrameStep::Complete(payload, rest) => {
            let n = be32(s1);
            assert(s.subrange(0, 4) =~= s1.subrange(0, 4));
            assert(s[0] == s1[0] && s[1] == s1[1] && s[2] == s1[2] && s[3] == s1[3]);
            assert(s.subrange(4, 4 + n) =~= payload);
            assert(s.skip(4 + n) =~= rest + s2);
            assert(frame_step(s, max_frame) == FrameStep::Complete(payload, rest + s2));
            lemma_take_frames_split(rest, s2, max_frame);
            let (more, left) = take_frames(rest, max_frame);
            let (second, end) = take_frames(left + s2, max_frame);
            assert(seq![payload] + (more + second) =~= (seq![payload] + more) + second);
        },
        _ => {
            assert(Seq::<Seq<u8>>::empty() + take_frames(s1 + s2, max_frame).0 =~= take_frames(s1 + s2, max_frame).0);
        },
    }
}

} // verus!
