//! Passive inspection of one direction of a connection: the handshake and
//! each frame's payload, decoded where it is gzip.
use vstd::prelude::*;
use crate::frame::{frame_length, take_frames, MAX_PREFIX};
use crate::gzip::{decompress, gunzip_members};
use crate::handshake::{client_hello, server_reply};

verus! {

/// Which peer sent the bytes under inspection.
#[derive(Debug, Clone, Copy, PartialEq, Eq)]
pub enum Side {
    Server,
    Client,
}

impl Side {
    pub fn name(&self) -> (r: &'static str)
        ensures
            r@ == match *self {
                Side::Server => "server"@,
                Side::Client => "client"@,
            },
    {
        proof {
            reveal_strlit("server");
            reveal_strlit("client");
        }
        match self {
            Side::Server => "server",
            Side::Client => "client",
        }
    }
}

/// The handshake that `side` opens its stream with.
pub open spec fn expected_handshake(side: Side) -> Seq<u8> {
    match side {
        Side::Server => server_reply(),
        Side::Client => client_hello(),
    }
}

/// Something seen on the stream.
#[derive(Debug, PartialEq, Eq)]
pub enum Observation {
    /// The first four bytes, and whether they are the handshake expected of
    /// the side.
    Handshake(Vec<u8>, bool),
    /// A frame's payload as sent, and its decoding, where it is gzip.
    Frame(Vec<u8>, Option<Vec<u8>>),
}

pub open spec fn observes_handshake(o: Observation, hello: Seq<u8>, side: Side) -> bool {
    match o {
        Observation::Handshake(bytes, good) => bytes@ == hello && good == (hello == expected_handshake(side)),
        _ => false,
    }
}

pub open spec fn observes_frame(o: Observation, payload: Seq<u8>) -> bool {
    match o {
        Observation::Frame(raw, decoded) => raw@ == payload && match decoded {
            Some(d) => gunzip_members(payload) == Some(d@),
            None => gunzip_members(payload) is None,
        },
        _ => false,
    }
}

pub struct InspectorModel {
    pub side: Side,
    pub greeted: bool,
    pub buffered: Seq<u8>,
}

/// The state of one direction: whether the handshake went by, and the bytes
/// of a frame not yet whole. The handshake is reported and passed over
/// whatever it holds.
#[derive(Debug)]
pub struct Inspector {
    side: Side,
    greeted: bool,
    buf: Vec<u8>,
}

impl View for Inspector {
    type V = InspectorModel;

    closed spec fn view(&self) -> InspectorModel {
        InspectorModel { side: self.side, greeted: self.greeted, buffered: self.buf@ }
    }
}

/// After the handshake, if the stream has reached it: the bytes left for
/// frames, and the handshake's bytes.
pub open spec fn past_handshake(greeted: bool, b: Seq<u8>) -> (bool, Seq<u8>, Option<Seq<u8>>) {
    if greeted {
        (true, b, None)
    } else if b.len() < 4 {
        (false, b, None)
    } else {
        (true, b.skip(4), Some(b.subrange(0, 4)))
    }
}

impl Inspector {
    pub fn new(side: Side) -> (r: Inspector)
        ensures
            r@ == (InspectorModel { side, greeted: false, buffered: Seq::empty() }),
    {
        Inspector { side, greeted: false, buf: Vec::new() }
    }

    /// Take in the bytes of one read and report what they complete.
    pub fn process_msg(&mut self, msg: &[u8]) -> (r: Vec<Observation>)
        ensures
            ({
                let (greeted, b, hello) = past_handshake(old(self)@.greeted, old(self)@.buffered + msg@);
                let (frames, left) = take_frames(b, MAX_PREFIX as int);
                let h: int = if hello is Some { 1 } else { 0 };
                &&& final(self)@ == (InspectorModel { side: old(self)@.side, greeted, buffered: left })
                &&& r@.len() == h + frames.len()
                &&& hello is Some ==> observes_handshake(r@[0], hello->0, old(self)@.side)
                &&& forall|i: int| 0 <= i < frames.len() ==> observes_frame(#[trigger] r@[h + i], frames[i])
            }),
    {
        let ghost b1 = self.buf@ + msg@;
        let mut out: Vec<Observation> = Vec::new();
        let mut i: usize = 0;
        let ghost start = self.buf@;
        while i < msg.len()
            invariant
                0 <= i <= msg@.len(),
                self.buf@ == start + msg@.subrange(0, i as int),
                self.side == old(self).side,
                self.greeted == old(self).greeted,
            decreases msg@.len() - i,
        {
            self.buf.push(msg[i]);
            i = i + 1;
            assert(self.buf@ =~= start + msg@.subrange(0, i as int));
        }
        assert(msg@.subrange(0, msg@.len() as int) =~= msg@);
        if !self.greeted && self.buf.len() >= 4 {
            let rest = self.buf.split_off(4);
            let mut hello: Vec<u8> = Vec::new();
            hello.push(self.buf[0]);
            hello.push(self.buf[1]);
            hello.push(self.buf[2]);
            hello.push(self.buf[3]);
            assert(hello@ =~= b1.subrange(0, 4));
            let expected: [u8; 4] = match self.side {
                Side::Server => [0, 0, 0, 42],
                Side::Client => [0, 0, 0, 0],
            };
            let good = hello[0] == expected[0] && hello[1] == expected[1] && hello[2] == expected[2]
                && hello[3] == expected[3];
            proof {
                if good {
                    assert(hello@ =~= expected_handshake(self.side));
                } else {
                    assert(hello@ != expected_handshake(self.side)) by {
                        if hello@ == expected_handshake(self.side) {
                            assert(hello@[0] == expected_handshake(self.side)[0]);
                            assert(hello@[1] == expected_handshake(self.side)[1]);
                            assert(hello@[2] == expected_handshake(self.side)[2]);
                            assert(hello@[3] == expected_handshake(self.side)[3]);
                        }
                    }
                }
            }
            out.push(Observation::Handshake(hello, good));
            self.buf = rest;
            self.greeted = true;
        }
        let ghost h: int = out@.len() as int;
        let ghost b2 = self.buf@;
        let ghost mut done: Seq<Seq<u8>> = Seq::empty();
        proof {
            assert(done + take_frames(b2, MAX_PREFIX as int).0 =~= take_frames(b2, MAX_PREFIX as int).0);
        }
        loop
            invariant
                self.side == old(self).side,
                self.greeted == past_handshake(old(self)@.greeted, b1).0,
                b2 == past_handshake(old(self)@.greeted, b1).1,
                h == if past_handshake(old(self)@.greeted, b1).2 is Some { 1int } else { 0int },
                h <= out@.len(),
                take_frames(b2, MAX_PREFIX as int).0 == done + take_frames(self.buf@, MAX_PREFIX as int).0,
                take_frames(b2, MAX_PREFIX as int).1 == take_frames(self.buf@, MAX_PREFIX as int).1,
                out@.len() == h + done.len(),
                h == 1 ==> observes_handshake(out@[0], b1.subrange(0, 4), self.side),
                forall|j: int| 0 <= j < done.len() ==> observes_frame(#[trigger] out@[h + j], done[j]),
            ensures
                take_frames(self.buf@, MAX_PREFIX as int).0 =~= Seq::<Seq<u8>>::empty(),
                take_frames(self.buf@, MAX_PREFIX as int).1 == self.buf@,
            decreases self.buf@.len(),
        {
            let n = match frame_length(self.buf.as_slice(), MAX_PREFIX) {
                Ok(Some(n)) => n,
                _ => break,
            };
            let total = self.buf.len();
            let end: usize = 4 + n;
            let payload = &self.buf.as_slice()[4..end];
            let decoded = decompress(payload);
            let mut raw: Vec<u8> = Vec::new();
            let mut k: usize = 0;
            while k < payload.len()
                invariant
                    0 <= k <= payload@.len(),
                    raw@ == payload@.subrange(0, k as int),
                decreases payload@.len() - k,
            {
                raw.push(payload[k]);
                k = k + 1;
                assert(raw@ =~= payload@.subrange(0, k as int));
            }
            assert(raw@ =~= payload@);
            let ghost before = self.buf@;
            let rest = self.buf.split_off(end);
            self.buf = rest;
            proof {
                let p = before.subrange(4, 4 + n as int);
                assert(take_frames(before, MAX_PREFIX as int).0 == seq![p] + take_frames(self.buf@, MAX_PREFIX as int).0);
                assert(done.push(p) + take_frames(self.buf@, MAX_PREFIX as int).0 =~= done + (seq![p] + take_frames(self.buf@, MAX_PREFIX as int).0));
                done = done.push(p);
            }
            out.push(Observation::Frame(raw, decoded));
        }
        proof {
            assert(done + Seq::<Seq<u8>>::empty() =~= done);
        }
        out
    }
}

} // verus!
