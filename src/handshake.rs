//! The four-byte exchange that opens a connection, after which both sides
//! speak in frames.
use vstd::prelude::*;
use crate::error::Error;
use crate::frame::{Reader, ReaderModel, Writer};

verus! {

/// What a client sends first: `0` as a big-endian `u32`.
pub open spec fn client_hello() -> Seq<u8> {
    seq![0u8, 0, 0, 0]
}

/// What a server answers: `42` as a big-endian `u32`.
pub open spec fn server_reply() -> Seq<u8> {
    seq![0u8, 0, 0, 42]
}

/// The bytes a client opens with.
pub fn client_hello_bytes() -> (r: Vec<u8>)
    ensures
        r@ == client_hello(),
{
    let mut r: Vec<u8> = Vec::new();
    r.push(0);
    r.push(0);
    r.push(0);
    r.push(0);
    assert(r@ =~= client_hello());
    r
}

/// The bytes a server answers a good hello with.
pub fn server_reply_bytes() -> (r: Vec<u8>)
    ensures
        r@ == server_reply(),
{
    let mut r: Vec<u8> = Vec::new();
    r.push(0);
    r.push(0);
    r.push(0);
    r.push(42);
    assert(r@ =~= server_reply());
    r
}

/// The outcome of a handshake on the bytes received so far.
pub open spec fn handshake_outcome(received: Seq<u8>, expected: Seq<u8>, max_frame: int, max_buffer: int) -> Option<Result<ReaderModel, Error>> {
    if received.len() < 4 {
        None
    } else if received.subrange(0, 4) != expected {
        Some(Err(Error::BadHandshake))
    } else if received.len() - 4 > max_buffer {
        Some(Err(Error::BufferOverflow))
    } else {
        Some(Ok(ReaderModel { buffered: received.skip(4), max_frame, max_buffer }))
    }
}

/// `r` carries out `outcome`: `Ok(None)` while more bytes are needed, the
/// error, or a reader with the bytes after the handshake in its buffer.
pub open spec fn handshake_agrees(r: Result<Option<(Reader, Writer)>, Error>, outcome: Option<Result<ReaderModel, Error>>) -> bool {
    match outcome {
        None => r matches Ok(None),
        Some(Err(e)) => r == Err::<Option<(Reader, Writer)>, Error>(e),
        Some(Ok(m)) => r matches Ok(Some((reader, _))) && reader@ == m,
    }
}

fn handshake(received: &[u8], expected: &[u8], max_frame: usize, max_buffer: usize) -> (r: Result<Option<(Reader, Writer)>, Error>)
    requires
        expected@.len() == 4,
    ensures
        handshake_agrees(r, handshake_outcome(received@, expected@, max_frame as int, max_buffer as int)),
{
    if received.len() < 4 {
        return Ok(None);
    }
    let mut i: usize = 0;
    while i < 4
        invariant
            expected@.len() == 4,
            received@.len() >= 4,
            0 <= i <= 4,
            forall|j: int| 0 <= j < i ==> received@[j] == expected@[j],
        decreases 4 - i,
    {
        if received[i] != expected[i] {
            assert(received@.subrange(0, 4)[i as int] != expected@[i as int]);
            return Err(Error::BadHandshake);
        }
        i = i + 1;
    }
    assert(received@.subrange(0, 4) =~= expected@);
    let mut rest: Vec<u8> = Vec::new();
    let mut k: usize = 4;
    while k < received.len()
        invariant
            4 <= k <= received@.len(),
            rest@ == received@.subrange(4, k as int),
        decreases received@.len() - k,
    {
        rest.push(received[k]);
        k = k + 1;
        assert(rest@ =~= received@.subrange(4, k as int));
    }
    assert(rest@ =~= received@.skip(4));
    let reader = Reader::from_raw(rest, max_frame, max_buffer)?;
    Ok(Some((reader, Writer::new())))
}

/// The server's side: check the client's hello among the bytes received so
/// far. `Ok(None)` asks for more bytes; on `Ok(Some(..))` the server sends
/// [`server_reply_bytes`], and the reader already holds whatever followed the
/// hello.
pub fn server_handshake(received: &[u8], max_frame: usize, max_buffer: usize) -> (r: Result<Option<(Reader, Writer)>, Error>)
    ensures
        handshake_agrees(r, handshake_outcome(received@, client_hello(), max_frame as int, max_buffer as int)),
        received@.len() >= 4 && received@.subrange(0, 4) != client_hello() ==> r == Err::<Option<(Reader, Writer)>, Error>(Error::BadHandshake),
{
    let hello = client_hello_bytes();
    handshake(received, hello.as_slice(), max_frame, max_buffer)
}

/// The client's side, once it has sent [`client_hello_bytes`]: check the
/// server's reply among the bytes received so far.
pub fn client_handshake(received: &[u8], max_frame: usize, max_buffer: usize) -> (r: Result<Option<(Reader, Writer)>, Error>)
    ensures
        handshake_agrees(r, handshake_outcome(received@, server_reply(), max_frame as int, max_buffer as int)),
{
    let reply = server_reply_bytes();
    handshake(received, reply.as_slice(), max_frame, max_buffer)
}

} // verus!
