//! Wire protocol between the host, the device and the shore.
//!
//! A message is a fixed row of 32-bit words, each sent low byte first. A word
//! holds the binary32 bit pattern of the field. On the serial links a message
//! is byte-stuffed and closed by a `0x00` delimiter, so that a receiver can
//! resync on the delimiter; a radio packet carries it bare.
//!
//! - Host to device: one [`ConfigPacket`] at startup, then a [`SensorPacket`]
//!   every control tick. Both travel in the [`HostMsg`] envelope, whose first
//!   byte tells them apart.
//! - Device to host: a [`CommandPacket`] in reply.
//! - Boat to shore: a [`PositionReport`]; shore to boat: a [`WaypointCmd`].

use vstd::prelude::*;

use crate::frame::{
    acc_run, first_zero, law_delimiter_resyncs, law_frame_comes_out, law_stream_splits,
    lemma_first_zero, lemma_first_zero_is, no_zero,
};

pub use crate::frame::MAX_FRAME;

verus! {

/// Sent once at startup: everything the device needs to build its controller.
#[derive(Clone, Copy, PartialEq, Eq, Structural, Debug)]
pub struct ConfigPacket {
    pub factor: u32,
    pub kp: u32,
    pub ki: u32,
    pub kd: u32,
    pub sample_time: u32,
    pub speed_adaption: u32,
    pub max_rudder_angle: u32,
    pub sail_stretching: u32,
}

/// Sent every control tick: the sensor snapshot.
#[derive(Clone, Copy, PartialEq, Eq, Structural, Debug)]
pub struct SensorPacket {
    pub target_heading: u32,
    pub heading: u32,
    pub yaw_rate: u32,
    pub roll: u32,
    pub vel_x_body: u32,
    pub vel_y_body: u32,
    pub true_wind_dir: u32,
    pub true_wind_speed: u32,
    pub pos_x: u32,
    pub pos_y: u32,
}

/// The actuator commands of one tick.
#[derive(Clone, Copy, PartialEq, Eq, Structural, Debug)]
pub struct CommandPacket {
    pub rudder_angle: u32,
    pub sail_angle: u32,
}

/// Host to device envelope.
#[derive(Clone, Copy, PartialEq, Eq, Structural, Debug)]
pub enum HostMsg {
    Config(ConfigPacket),
    Sensor(SensorPacket),
}

/// Boat to shore: position, heading and speed for tracking.
#[derive(Clone, Copy, PartialEq, Eq, Structural, Debug)]
pub struct PositionReport {
    pub pos_x: u32,
    pub pos_y: u32,
    pub heading: u32,
    pub speed: u32,
}

/// Shore to boat: a new target waypoint.
#[derive(Clone, Copy, PartialEq, Eq, Structural, Debug)]
pub struct WaypointCmd {
    pub x: u32,
    pub y: u32,
}

/// Why a message could not be written or read.
#[derive(Clone, Copy, PartialEq, Eq, Structural, Debug)]
pub enum Error {
    /// The buffer has no room for the message.
    BufferFull,
    /// The bytes stop before the message does.
    UnexpectedEnd,
    /// The envelope's tag is no 32-bit variable-length integer.
    BadVarint,
    /// The envelope's tag names no message.
    BadVariant,
    /// The frame is empty or not byte-stuffed.
    BadEncoding,
    /// Any other refusal of the codec.
    Other,
}

/// Byte `k` of a word, the lowest first.
pub open spec fn byte_of(w: u32, k: int) -> u8 {
    if k == 0 {
        (w % 256) as u8
    } else if k == 1 {
        (w / 256 % 256) as u8
    } else if k == 2 {
        (w / 65536 % 256) as u8
    } else {
        (w / 16777216) as u8
    }
}

/// A row of words, each low byte first.
pub open spec fn le_bytes(ws: Seq<u32>) -> Seq<u8> {
    Seq::new(4 * ws.len(), |i: int| byte_of(ws[i / 4], i % 4))
}

/// Word `k` of a row.
#[verifier::opaque]
pub open spec fn word_at(p: Seq<u8>, k: int) -> u32 {
    (p[4 * k] + 256 * p[4 * k + 1] + 65536 * p[4 * k + 2] + 16777216 * p[4 * k + 3]) as u32
}

/// The first `n` words of a row.
pub open spec fn words_of(p: Seq<u8>, n: nat) -> Seq<u32> {
    Seq::new(n, |k: int| word_at(p, k))
}

/// The words of a row come back, whatever follows it.
pub proof fn lemma_words_come_back(ws: Seq<u32>, rest: Seq<u8>)
    ensures
        words_of(le_bytes(ws) + rest, ws.len()) == ws,
        le_bytes(ws).len() == 4 * ws.len(),
        forall|k: int| 0 <= k < ws.len() ==> #[trigger] word_at(le_bytes(ws) + rest, k) == ws[k],
{
    reveal(word_at);
    let p = le_bytes(ws) + rest;
    assert forall|k: int| 0 <= k < ws.len() implies word_at(p, k) == ws[k] by {
        let w = ws[k];
        assert(p[4 * k] == byte_of(w, 0) && p[4 * k + 1] == byte_of(w, 1) && p[4 * k + 2]
            == byte_of(w, 2) && p[4 * k + 3] == byte_of(w, 3));
    }
    assert(words_of(p, ws.len()) =~= ws);
}

/// Byte stuffing of a payload shorter than 254 bytes: every zero gives way to
/// the distance to the next one, counted from a leading distance byte, and the
/// last distance reaches one past the end.
pub open spec fn stuff(p: Seq<u8>) -> Seq<u8>
    decreases p.len(),
    via stuff_decreases
{
    let k = first_zero(p);
    if k < p.len() {
        seq![(k + 1) as u8] + p.take(k) + stuff(p.skip(k + 1))
    } else {
        seq![(k + 1) as u8] + p
    }
}

#[via_fn]
proof fn stuff_decreases(p: Seq<u8>) {
    lemma_first_zero(p);
}

/// What a byte-stuffed run stands for, if it is well formed: each distance
/// byte spans a block, and a block that is neither the longest possible nor the
/// last one stands for a zero behind it.
pub open spec fn unstuff(s: Seq<u8>) -> Option<Seq<u8>>
    decreases s.len(),
{
    if s.len() == 0 {
        Some(Seq::empty())
    } else if s[0] == 0 || s[0] > s.len() {
        None
    } else if s[0] == s.len() {
        Some(s.skip(1))
    } else {
        match unstuff(s.skip(s[0] as int)) {
            Some(rest) => Some(
                s.subrange(1, s[0] as int) + (if s[0] == 255 {
                    Seq::empty()
                } else {
                    seq![0u8]
                }) + rest,
            ),
            None => None,
        }
    }
}

/// The frame of a payload: stuffed and closed by the delimiter.
pub open spec fn frame_of(p: Seq<u8>) -> Seq<u8> {
    stuff(p).push(0)
}

/// The payload of a frame, up to its first delimiter or its end.
pub open spec fn open_frame(f: Seq<u8>) -> Option<Seq<u8>> {
    if f.len() == 0 {
        None
    } else {
        unstuff(f.take(first_zero(f)))
    }
}

/// Stuffing adds one byte and leaves no zero; what comes back is what went in.
pub proof fn lemma_stuff(p: Seq<u8>)
    requires
        p.len() < 254,
    ensures
        stuff(p).len() == p.len() + 1,
        no_zero(stuff(p)),
        unstuff(stuff(p)) == Some(p),
    decreases p.len(),
{
    lemma_first_zero(p);
    let k = first_zero(p);
    let s = stuff(p);
    if k < p.len() {
        let tail = p.skip(k + 1);
        lemma_stuff(tail);
        assert(s.skip(k + 1) =~= stuff(tail));
        assert(s.subrange(1, k + 1) =~= p.take(k));
        assert(p.take(k) + seq![0u8] + tail =~= p);
        assert forall|i: int| 0 <= i < s.len() implies s[i] != 0 by {
            if 0 < i <= k {
                assert(s[i] == p.take(k)[i - 1]);
            } else if i > k {
                assert(s[i] == stuff(tail)[i - k - 1]);
            }
        }
    } else {
        assert(p.take(k) =~= p);
        assert(s.skip(1) =~= p);
        assert forall|i: int| 0 <= i < s.len() implies s[i] != 0 by {
            if 0 < i {
                assert(s[i] == p[i - 1]);
            }
        }
    }
}

/// A frame opens to the payload that it was made of, and its only delimiter
/// is its last byte.
pub proof fn law_frame_opens(p: Seq<u8>)
    requires
        p.len() < 254,
    ensures
        open_frame(frame_of(p)) == Some(p),
        frame_of(p).len() == p.len() + 2,
        frame_of(p).last() == 0,
        no_zero(frame_of(p).drop_last()),
{
    lemma_stuff(p);
    let f = frame_of(p);
    assert(f.drop_last() =~= stuff(p));
    assert(f.take(f.len() - 1) =~= stuff(p));
    lemma_first_zero_is(f, f.len() - 1);
}

/// A 32-bit variable-length integer at the head of `p`, from byte `i` of it
/// on: seven bits a byte, the lowest first, the top bit saying that more
/// follow. Returns the value and the number of bytes read.
pub open spec fn varint(p: Seq<u8>, i: int) -> Result<(int, int), Error>
    decreases 5 - i,
{
    if i >= 5 {
        Err(Error::BadVarint)
    } else if p.len() <= i {
        Err(Error::UnexpectedEnd)
    } else if p[i] < 128 {
        if i == 4 && p[i] > 15 {
            Err(Error::BadVarint)
        } else {
            Ok((p[i] as int, 1))
        }
    } else {
        match varint(p, i + 1) {
            Ok((v, n)) => Ok((p[i] - 128 + 128 * v, n + 1)),
            Err(e) => Err(e),
        }
    }
}

/// The first `n` bytes of a payload.
pub open spec fn head(p: Seq<u8>, n: int) -> Result<Seq<u8>, Error> {
    if p.len() < n {
        Err(Error::UnexpectedEnd)
    } else {
        Ok(p.take(n))
    }
}

/// A tagged payload: 32 bytes under tag zero, 40 bytes under tag one.
pub open spec fn tagged(p: Seq<u8>) -> Result<Result<Seq<u8>, Seq<u8>>, Error> {
    match varint(p, 0) {
        Err(e) => Err(e),
        Ok((v, n)) => if v == 0 {
            match head(p.skip(n), 32) {
                Ok(b) => Ok(Ok(b)),
                Err(e) => Err(e),
            }
        } else if v == 1 {
            match head(p.skip(n), 40) {
                Ok(b) => Ok(Err(b)),
                Err(e) => Err(e),
            }
        } else {
            Err(Error::BadVariant)
        },
    }
}

/// Calls `postcard::to_slice_cobs` on an array of 8 bytes, which carries no
/// length on the wire. Claims that the front of the buffer receives the stuffed
/// bytes and the delimiter and the rest of it stays, and that the call fails
/// exactly when they do not fit.
#[verifier::external_body]
fn write_cobs_8<'a>(payload: &Vec<u8>, buf: &'a mut [u8]) -> (r: Result<&'a mut [u8], Error>)
    requires
        payload@.len() == 8,
    ensures
        final(buf)@.len() == old(buf)@.len(),
        match r {
            Ok(out) => {
                &&& old(buf)@.len() >= payload@.len() + 2
                &&& out@ == frame_of(payload@)
                &&& final(buf)@ == final(out)@ + old(buf)@.skip(out@.len() as int)
            },
            Err(e) => old(buf)@.len() < payload@.len() + 2 && e == Error::BufferFull,
        },
{
    let bytes: [u8; 8] = payload.as_slice().try_into().expect("8 bytes");
    postcard::to_slice_cobs(&bytes, buf).map_err(|e| match e {
        postcard::Error::SerializeBufferFull => Error::BufferFull,
        _ => Error::Other,
    })
}

/// Calls `postcard::to_slice_cobs` on an array of 16 bytes, which carries no
/// length on the wire. Claims that the front of the buffer receives the stuffed
/// bytes and the delimiter and the rest of it stays, and that the call fails
/// exactly when they do not fit.
#[verifier::external_body]
fn write_cobs_16<'a>(payload: &Vec<u8>, buf: &'a mut [u8]) -> (r: Result<&'a mut [u8], Error>)
    requires
        payload@.len() == 16,
    ensures
        final(buf)@.len() == old(buf)@.len(),
        match r {
            Ok(out) => {
                &&& old(buf)@.len() >= payload@.len() + 2
                &&& out@ == frame_of(payload@)
                &&& final(buf)@ == final(out)@ + old(buf)@.skip(out@.len() as int)
            },
            Err(e) => old(buf)@.len() < payload@.len() + 2 && e == Error::BufferFull,
        },
{
    let bytes: [u8; 16] = payload.as_slice().try_into().expect("16 bytes");
    postcard::to_slice_cobs(&bytes, buf).map_err(|e| match e {
        postcard::Error::SerializeBufferFull => Error::BufferFull,
        _ => Error::Other,
    })
}

/// Calls `postcard::to_slice` on an array of 8 bytes, which carries no length
/// on the wire. Claims that the front of the buffer receives the bytes and the
/// rest of it stays, and that the call fails exactly when they do not fit.
#[verifier::external_body]
fn write_bare_8<'a>(payload: &Vec<u8>, buf: &'a mut [u8]) -> (r: Result<&'a mut [u8], Error>)
    requires
        payload@.len() == 8,
    ensures
        final(buf)@.len() == old(buf)@.len(),
        match r {
            Ok(out) => {
                &&& old(buf)@.len() >= payload@.len()
                &&& out@ == payload@
                &&& final(buf)@ == final(out)@ + old(buf)@.skip(out@.len() as int)
            },
            Err(e) => old(buf)@.len() < payload@.len() && e == Error::BufferFull,
        },
{
    let bytes: [u8; 8] = payload.as_slice().try_into().expect("8 bytes");
    postcard::to_slice(&bytes, buf).map_err(|e| match e {
        postcard::Error::SerializeBufferFull => Error::BufferFull,
        _ => Error::Other,
    })
}

/// Calls `postcard::to_slice` on an array of 16 bytes, which carries no length
/// on the wire. Claims that the front of the buffer receives the bytes and the
/// rest of it stays, and that the call fails exactly when they do not fit.
#[verifier::external_body]
fn write_bare_16<'a>(payload: &Vec<u8>, buf: &'a mut [u8]) -> (r: Result<&'a mut [u8], Error>)
    requires
        payload@.len() == 16,
    ensures
        final(buf)@.len() == old(buf)@.len(),
        match r {
            Ok(out) => {
                &&& old(buf)@.len() >= payload@.len()
                &&& out@ == payload@
                &&& final(buf)@ == final(out)@ + old(buf)@.skip(out@.len() as int)
            },
            Err(e) => old(buf)@.len() < payload@.len() && e == Error::BufferFull,
        },
{
    let bytes: [u8; 16] = payload.as_slice().try_into().expect("16 bytes");
    postcard::to_slice(&bytes, buf).map_err(|e| match e {
        postcard::Error::SerializeBufferFull => Error::BufferFull,
        _ => Error::Other,
    })
}

/// Calls `postcard::from_bytes_cobs` for an array of 8 bytes. Claims that it
/// opens the frame, takes the first 8 bytes of the payload and leaves the
/// whole payload at the front of `frame`; that it fails with the encoding error
/// exactly when the frame does not open, and with the end error exactly when
/// the payload is too short.
#[verifier::external_body]
fn read_cobs_8(frame: &mut [u8]) -> (r: Result<Vec<u8>, Error>)
    ensures
        final(frame)@.len() == old(frame)@.len(),
        match open_frame(old(frame)@) {
            Some(p) => {
                &&& final(frame)@ == p + old(frame)@.skip(p.len() as int)
                &&& match r {
                    Ok(b) => head(p, 8) == Ok::<Seq<u8>, Error>(b@),
                    Err(e) => head(p, 8) == Err::<Seq<u8>, Error>(e),
                }
            },
            None => r == Err::<Vec<u8>, Error>(Error::BadEncoding),
        },
{
    match postcard::from_bytes_cobs::<[u8; 8]>(frame) {
        Ok(b) => Ok(b.to_vec()),
        Err(postcard::Error::DeserializeBadEncoding) => Err(Error::BadEncoding),
        Err(postcard::Error::DeserializeUnexpectedEnd) => Err(Error::UnexpectedEnd),
        Err(_) => Err(Error::Other),
    }
}

/// Calls `postcard::from_bytes_cobs` for an array of 16 bytes. Claims that it
/// opens the frame, takes the first 16 bytes of the payload and leaves the
/// whole payload at the front of `frame`; that it fails with the encoding error
/// exactly when the frame does not open, and with the end error exactly when
/// the payload is too short.
#[verifier::external_body]
fn read_cobs_16(frame: &mut [u8]) -> (r: Result<Vec<u8>, Error>)
    ensures
        final(frame)@.len() == old(frame)@.len(),
        match open_frame(old(frame)@) {
            Some(p) => {
                &&& final(frame)@ == p + old(frame)@.skip(p.len() as int)
                &&& match r {
                    Ok(b) => head(p, 16) == Ok::<Seq<u8>, Error>(b@),
                    Err(e) => head(p, 16) == Err::<Seq<u8>, Error>(e),
                }
            },
            None => r == Err::<Vec<u8>, Error>(Error::BadEncoding),
        },
{
    match postcard::from_bytes_cobs::<[u8; 16]>(frame) {
        Ok(b) => Ok(b.to_vec()),
        Err(postcard::Error::DeserializeBadEncoding) => Err(Error::BadEncoding),
        Err(postcard::Error::DeserializeUnexpectedEnd) => Err(Error::UnexpectedEnd),
        Err(_) => Err(Error::Other),
    }
}

/// Calls `postcard::from_bytes` for an array of 8 bytes. Claims that it takes
/// the first 8 bytes and fails exactly when there are fewer.
#[verifier::external_body]
fn read_bare_8(packet: &[u8]) -> (r: Result<Vec<u8>, Error>)
    ensures
        match r {
            Ok(b) => head(packet@, 8) == Ok::<Seq<u8>, Error>(b@),
            Err(e) => head(packet@, 8) == Err::<Seq<u8>, Error>(e),
        },
{
    match postcard::from_bytes::<[u8; 8]>(packet) {
        Ok(b) => Ok(b.to_vec()),
        Err(postcard::Error::DeserializeUnexpectedEnd) => Err(Error::UnexpectedEnd),
        Err(_) => Err(Error::Other),
    }
}

/// Calls `postcard::from_bytes` for an array of 16 bytes. Claims that it takes
/// the first 16 bytes and fails exactly when there are fewer.
#[verifier::external_body]
fn read_bare_16(packet: &[u8]) -> (r: Result<Vec<u8>, Error>)
    ensures
        match r {
            Ok(b) => head(packet@, 16) == Ok::<Seq<u8>, Error>(b@),
            Err(e) => head(packet@, 16) == Err::<Seq<u8>, Error>(e),
        },
{
    match postcard::from_bytes::<[u8; 16]>(packet) {
        Ok(b) => Ok(b.to_vec()),
        Err(postcard::Error::DeserializeUnexpectedEnd) => Err(Error::UnexpectedEnd),
        Err(_) => Err(Error::Other),
    }
}

/// The bytes of a tagged payload: tag zero before `Ok`, tag one before `Err`.
pub open spec fn tagged_bytes(v: Result<Seq<u8>, Seq<u8>>) -> Seq<u8> {
    match v {
        Ok(b) => seq![0u8] + b,
        Err(b) => seq![1u8] + b,
    }
}

/// The contents of the two cases of a tagged payload.
pub open spec fn tagged_view(v: Result<Vec<u8>, Vec<u8>>) -> Result<Seq<u8>, Seq<u8>> {
    match v {
        Ok(b) => Ok(b@),
        Err(b) => Err(b@),
    }
}

/// Calls `postcard::to_slice_cobs` on a two-case value: 32 bytes in the first
/// case, 40 bytes (two arrays of 20) in the second. Claims that the front of
/// the buffer receives the stuffed tag and bytes and the delimiter and the rest
/// of it stays, and that the call fails exactly when they do not fit.
#[verifier::external_body]
fn write_cobs_tagged<'a>(value: &Result<Vec<u8>, Vec<u8>>, buf: &'a mut [u8]) -> (r: Result<
    &'a mut [u8],
    Error,
>)
    requires
        match *value {
            Ok(b) => b@.len() == 32,
            Err(b) => b@.len() == 40,
        },
    ensures
        final(buf)@.len() == old(buf)@.len(),
        ({
            let payload = tagged_bytes(tagged_view(*value));
            match r {
                Ok(out) => {
                    &&& old(buf)@.len() >= payload.len() + 2
                    &&& out@ == frame_of(payload)
                    &&& final(buf)@ == final(out)@ + old(buf)@.skip(out@.len() as int)
                },
                Err(e) => old(buf)@.len() < payload.len() + 2 && e == Error::BufferFull,
            }
        }),
{
    let wire: Result<[u8; 32], [[u8; 20]; 2]> = match value {
        Ok(b) => Ok(b.as_slice().try_into().expect("32 bytes")),
        Err(b) => Err([
            b[..20].try_into().expect("20 bytes"),
            b[20..].try_into().expect("20 bytes"),
        ]),
    };
    postcard::to_slice_cobs(&wire, buf).map_err(|e| match e {
        postcard::Error::SerializeBufferFull => Error::BufferFull,
        _ => Error::Other,
    })
}

/// Calls `postcard::from_bytes_cobs` for a two-case value: 32 bytes in the
/// first case, 40 bytes (two arrays of 20) in the second. Claims that it opens
/// the frame, leaves the payload at the front of `frame` and reads the tag and
/// the bytes behind it as [`tagged`] says, each failure with its own error.
#[verifier::external_body]
fn read_cobs_tagged(frame: &mut [u8]) -> (r: Result<Result<Vec<u8>, Vec<u8>>, Error>)
    ensures
        final(frame)@.len() == old(frame)@.len(),
        match open_frame(old(frame)@) {
            Some(p) => {
                &&& final(frame)@ == p + old(frame)@.skip(p.len() as int)
                &&& match r {
                    Ok(v) => tagged(p) == Ok::<Result<Seq<u8>, Seq<u8>>, Error>(tagged_view(v)),
                    Err(e) => tagged(p) == Err::<Result<Seq<u8>, Seq<u8>>, Error>(e),
                }
            },
            None => r == Err::<Result<Vec<u8>, Vec<u8>>, Error>(Error::BadEncoding),
        },
{
    match postcard::from_bytes_cobs::<Result<[u8; 32], [[u8; 20]; 2]>>(frame) {
        Ok(Ok(b)) => Ok(Ok(b.to_vec())),
        Ok(Err(b)) => Ok(Err(b.concat())),
        Err(postcard::Error::DeserializeBadEncoding) => Err(Error::BadEncoding),
        Err(postcard::Error::DeserializeUnexpectedEnd) => Err(Error::UnexpectedEnd),
        Err(postcard::Error::DeserializeBadVarint) => Err(Error::BadVarint),
        Err(postcard::Error::SerdeDeCustom) => Err(Error::BadVariant),
        Err(_) => Err(Error::Other),
    }
}

/// A row of words as bytes, each word low byte first.
fn bytes_of_words(ws: &Vec<u32>) -> (r: Vec<u8>)
    requires
        ws@.len() <= 10,
    ensures
        r@ == le_bytes(ws@),
{
    let mut out: Vec<u8> = Vec::new();
    let mut k: usize = 0;
    while k < ws.len()
        invariant
            k <= ws@.len() <= 10,
            out@ == le_bytes(ws@.take(k as int)),
        decreases ws@.len() - k,
    {
        let w: u32 = ws[k];
        out.push((w % 256) as u8);
        out.push((w / 256 % 256) as u8);
        out.push((w / 65536 % 256) as u8);
        out.push((w / 16777216) as u8);
        k = k + 1;
        assert(out@ =~= le_bytes(ws@.take(k as int)));
    }
    assert(ws@.take(k as int) =~= ws@);
    out
}

/// Word `k` of a row of bytes.
fn word(p: &Vec<u8>, k: usize) -> (r: u32)
    requires
        4 * k + 3 < p@.len(),
        k < 10,
    ensures
        r == word_at(p@, k as int),
{
    reveal(word_at);
    let a: u32 = p[4 * k] as u32;
    let b: u32 = p[4 * k + 1] as u32;
    let c: u32 = p[4 * k + 2] as u32;
    let d: u32 = p[4 * k + 3] as u32;
    a + 256 * b + 65536 * c + 16777216 * d
}

/// A message that travels in a frame.
pub trait Message: Sized {
    /// The bytes of the message, before framing.
    spec fn payload(&self) -> Seq<u8>;

    /// What a payload reads as. Bytes behind the message are not looked at.
    spec fn read(p: Seq<u8>) -> Result<Self, Error>;

    /// A message is short and reads back, whatever follows it.
    proof fn payload_reads_back(&self, rest: Seq<u8>)
        ensures
            self.payload().len() <= 41,
            Self::read(self.payload() + rest) == Ok::<Self, Error>(*self),
    ;

    /// Write the framed message to the front of `buf`.
    fn write_frame<'a>(&self, buf: &'a mut [u8]) -> (r: Result<&'a mut [u8], Error>)
        ensures
            final(buf)@.len() == old(buf)@.len(),
            match r {
                Ok(out) => {
                    &&& old(buf)@.len() >= self.payload().len() + 2
                    &&& out@ == frame_of(self.payload())
                    &&& final(buf)@ == final(out)@ + old(buf)@.skip(out@.len() as int)
                },
                Err(e) => old(buf)@.len() < self.payload().len() + 2 && e == Error::BufferFull,
            },
    ;

    /// Read the message of a frame.
    fn read_frame(frame: &mut [u8]) -> (r: Result<Self, Error>)
        ensures
            final(frame)@.len() == old(frame)@.len(),
            match open_frame(old(frame)@) {
                Some(p) => {
                    &&& final(frame)@ == p + old(frame)@.skip(p.len() as int)
                    &&& r == Self::read(p)
                },
                None => r == Err::<Self, Error>(Error::BadEncoding),
            },
    ;
}

/// A message that also travels bare, one to a radio packet.
pub trait BareMessage: Message {
    /// Write the bare message to the front of `buf`.
    fn write_bare<'a>(&self, buf: &'a mut [u8]) -> (r: Result<&'a mut [u8], Error>)
        ensures
            final(buf)@.len() == old(buf)@.len(),
            match r {
                Ok(out) => {
                    &&& old(buf)@.len() >= self.payload().len()
                    &&& out@ == self.payload()
                    &&& final(buf)@ == final(out)@ + old(buf)@.skip(out@.len() as int)
                },
                Err(e) => old(buf)@.len() < self.payload().len() && e == Error::BufferFull,
            },
    ;

    /// Read the message of a packet.
    fn read_bare(packet: &[u8]) -> (r: Result<Self, Error>)
        ensures
            r == Self::read(packet@),
    ;
}

/// Encode `msg` into `buf` as one frame, delimiter included. Returns the
/// written part of `buf`.
pub fn encode<'a, M: Message>(msg: &M, buf: &'a mut [u8]) -> (r: Result<&'a mut [u8], Error>)
    ensures
        final(buf)@.len() == old(buf)@.len(),
        match r {
            Ok(out) => {
                &&& old(buf)@.len() >= msg.payload().len() + 2
                &&& out@ == frame_of(msg.payload())
                &&& final(buf)@ == final(out)@ + old(buf)@.skip(out@.len() as int)
            },
            Err(e) => old(buf)@.len() < msg.payload().len() + 2 && e == Error::BufferFull,
        },
{
    msg.write_frame(buf)
}

/// Decode the message of `frame`, the bytes up to and including a delimiter.
/// The payload replaces the front of `frame`.
pub fn decode<M: Message>(frame: &mut [u8]) -> (r: Result<M, Error>)
    ensures
        final(frame)@.len() == old(frame)@.len(),
        match open_frame(old(frame)@) {
            Some(p) => {
                &&& final(frame)@ == p + old(frame)@.skip(p.len() as int)
                &&& r == M::read(p)
            },
            None => r == Err::<M, Error>(Error::BadEncoding),
        },
{
    M::read_frame(frame)
}

/// Encode `msg` bare, one message to a radio packet. Returns the written part
/// of `buf`.
pub fn encode_unframed<'a, M: BareMessage>(msg: &M, buf: &'a mut [u8]) -> (r: Result<
    &'a mut [u8],
    Error,
>)
    ensures
        final(buf)@.len() == old(buf)@.len(),
        match r {
            Ok(out) => {
                &&& old(buf)@.len() >= msg.payload().len()
                &&& out@ == msg.payload()
                &&& final(buf)@ == final(out)@ + old(buf)@.skip(out@.len() as int)
            },
            Err(e) => old(buf)@.len() < msg.payload().len() && e == Error::BufferFull,
        },
{
    msg.write_bare(buf)
}

/// Decode the message of a radio packet.
pub fn decode_unframed<M: BareMessage>(buf: &[u8]) -> (r: Result<M, Error>)
    ensures
        r == M::read(buf@),
{
    M::read_bare(buf)
}

/// What a frame gives back is the message that it was made of, and every frame
/// fits a buffer of `MAX_FRAME` bytes.
pub proof fn law_framed_message_round_trips<M: Message>(msg: M)
    ensures
        open_frame(frame_of(msg.payload())) == Some(msg.payload()),
        M::read(msg.payload()) == Ok::<M, Error>(msg),
        frame_of(msg.payload()).len() <= MAX_FRAME,
{
    msg.payload_reads_back(Seq::empty());
    assert(msg.payload() + Seq::<u8>::empty() =~= msg.payload());
    law_frame_opens(msg.payload());
}

/// What a packet gives back is the message that it was made of, even when the
/// receiver's buffer holds more behind it.
pub proof fn law_bare_message_round_trips<M: BareMessage>(msg: M, rest: Seq<u8>)
    ensures
        M::read(msg.payload() + rest) == Ok::<M, Error>(msg),
        msg.payload().len() <= MAX_FRAME,
{
    msg.payload_reads_back(rest);
}

/// Two messages with one frame are the same message.
pub proof fn law_frames_tell_messages_apart<M: Message>(a: M, b: M)
    requires
        frame_of(a.payload()) == frame_of(b.payload()),
    ensures
        a == b,
{
    law_framed_message_round_trips(a);
    law_framed_message_round_trips(b);
}

/// A frame, sent into an empty accumulator behind any noise that ended in a
/// delimiter, comes out whole and reads as the message that was sent.
pub proof fn law_message_survives_the_stream<M: Message>(msg: M, pending: Seq<u8>, noise: Seq<u8>)
    requires
        noise.len() > 0,
        noise.last() == 0,
    ensures
        ({
            let run = acc_run(pending, noise + frame_of(msg.payload()));
            &&& run.0 == Seq::<u8>::empty()
            &&& run.1 == acc_run(pending, noise).1.push(frame_of(msg.payload()))
            &&& open_frame(run.1.last()) == Some(msg.payload())
            &&& M::read(msg.payload()) == Ok::<M, Error>(msg)
        }),
{
    law_framed_message_round_trips(msg);
    let p = msg.payload();
    msg.payload_reads_back(Seq::empty());
    lemma_stuff(p);
    law_delimiter_resyncs(pending, noise);
    law_stream_splits(pending, noise, frame_of(p));
    law_frame_comes_out(stuff(p));
    assert(acc_run(pending, noise).1 + seq![frame_of(p)] =~= acc_run(pending, noise).1.push(
        frame_of(p),
    ));
}

/// The words of a payload are those of its first bytes.
proof fn lemma_head_words(p: Seq<u8>, m: int)
    requires
        0 <= m <= p.len(),
    ensures
        forall|k: int| 0 <= k && 4 * k + 3 < m ==> #[trigger] word_at(p.take(m), k) == word_at(p, k),
{
    reveal(word_at);
}

/// What a payload of two words reads as.
pub open spec fn pair_read(p: Seq<u8>) -> Result<(u32, u32), Error> {
    if p.len() < 8 {
        Err(Error::UnexpectedEnd)
    } else {
        Ok((word_at(p, 0), word_at(p, 1)))
    }
}

/// Two words in a frame.
fn write_pair<'a>(a: u32, b: u32, buf: &'a mut [u8]) -> (r: Result<&'a mut [u8], Error>)
    ensures
        final(buf)@.len() == old(buf)@.len(),
        match r {
            Ok(out) => {
                &&& old(buf)@.len() >= 10
                &&& out@ == frame_of(le_bytes(seq![a, b]))
                &&& final(buf)@ == final(out)@ + old(buf)@.skip(out@.len() as int)
            },
            Err(e) => old(buf)@.len() < 10 && e == Error::BufferFull,
        },
{
    let ws: Vec<u32> = vec![a, b];
    assert(ws@ =~= seq![a, b]);
    let payload: Vec<u8> = bytes_of_words(&ws);
    write_cobs_8(&payload, buf)
}

/// The two words of a frame.
fn read_pair(frame: &mut [u8]) -> (r: Result<(u32, u32), Error>)
    ensures
        final(frame)@.len() == old(frame)@.len(),
        match open_frame(old(frame)@) {
            Some(p) => {
                &&& final(frame)@ == p + old(frame)@.skip(p.len() as int)
                &&& r == pair_read(p)
            },
            None => r == Err::<(u32, u32), Error>(Error::BadEncoding),
        },
{
    match read_cobs_8(frame) {
        Ok(b) => {
            proof {
                lemma_head_words(open_frame(old(frame)@).unwrap(), 8);
            }
            Ok((word(&b, 0), word(&b, 1)))
        },
        Err(e) => Err(e),
    }
}

/// Two words bare.
fn write_bare_pair<'a>(a: u32, b: u32, buf: &'a mut [u8]) -> (r: Result<&'a mut [u8], Error>)
    ensures
        final(buf)@.len() == old(buf)@.len(),
        match r {
            Ok(out) => {
                &&& old(buf)@.len() >= 8
                &&& out@ == le_bytes(seq![a, b])
                &&& final(buf)@ == final(out)@ + old(buf)@.skip(out@.len() as int)
            },
            Err(e) => old(buf)@.len() < 8 && e == Error::BufferFull,
        },
{
    let ws: Vec<u32> = vec![a, b];
    assert(ws@ =~= seq![a, b]);
    let payload: Vec<u8> = bytes_of_words(&ws);
    write_bare_8(&payload, buf)
}

/// The two words of a packet.
fn read_bare_pair(packet: &[u8]) -> (r: Result<(u32, u32), Error>)
    ensures
        r == pair_read(packet@),
{
    match read_bare_8(packet) {
        Ok(b) => {
            proof {
                lemma_head_words(packet@, 8);
            }
            Ok((word(&b, 0), word(&b, 1)))
        },
        Err(e) => Err(e),
    }
}

impl CommandPacket {
    /// The fields in wire order.
    pub open spec fn words(self) -> Seq<u32> {
        seq![self.rudder_angle, self.sail_angle]
    }
}

impl Message for CommandPacket {
    open spec fn payload(&self) -> Seq<u8> {
        le_bytes(self.words())
    }

    open spec fn read(p: Seq<u8>) -> Result<Self, Error> {
        match pair_read(p) {
            Ok((rudder_angle, sail_angle)) => Ok(CommandPacket { rudder_angle, sail_angle }),
            Err(e) => Err(e),
        }
    }

    proof fn payload_reads_back(&self, rest: Seq<u8>) {
        lemma_words_come_back(self.words(), rest);
    }

    fn write_frame<'a>(&self, buf: &'a mut [u8]) -> (r: Result<&'a mut [u8], Error>) {
        write_pair(self.rudder_angle, self.sail_angle, buf)
    }

    fn read_frame(frame: &mut [u8]) -> (r: Result<Self, Error>) {
        match read_pair(frame) {
            Ok((rudder_angle, sail_angle)) => Ok(CommandPacket { rudder_angle, sail_angle }),
            Err(e) => Err(e),
        }
    }
}

impl BareMessage for CommandPacket {
    fn write_bare<'a>(&self, buf: &'a mut [u8]) -> (r: Result<&'a mut [u8], Error>) {
        write_bare_pair(self.rudder_angle, self.sail_angle, buf)
    }

    fn read_bare(packet: &[u8]) -> (r: Result<Self, Error>) {
        match read_bare_pair(packet) {
            Ok((rudder_angle, sail_angle)) => Ok(CommandPacket { rudder_angle, sail_angle }),
            Err(e) => Err(e),
        }
    }
}

impl WaypointCmd {
    /// The fields in wire order.
    pub open spec fn words(self) -> Seq<u32> {
        seq![self.x, self.y]
    }
}

impl Message for WaypointCmd {
    open spec fn payload(&self) -> Seq<u8> {
        le_bytes(self.words())
    }

    open spec fn read(p: Seq<u8>) -> Result<Self, Error> {
        match pair_read(p) {
            Ok((x, y)) => Ok(WaypointCmd { x, y }),
            Err(e) => Err(e),
        }
    }

    proof fn payload_reads_back(&self, rest: Seq<u8>) {
        lemma_words_come_back(self.words(), rest);
    }

    fn write_frame<'a>(&self, buf: &'a mut [u8]) -> (r: Result<&'a mut [u8], Error>) {
        write_pair(self.x, self.y, buf)
    }

    fn read_frame(frame: &mut [u8]) -> (r: Result<Self, Error>) {
        match read_pair(frame) {
            Ok((x, y)) => Ok(WaypointCmd { x, y }),
            Err(e) => Err(e),
        }
    }
}

impl BareMessage for WaypointCmd {
    fn write_bare<'a>(&self, buf: &'a mut [u8]) -> (r: Result<&'a mut [u8], Error>) {
        write_bare_pair(self.x, self.y, buf)
    }

    fn read_bare(packet: &[u8]) -> (r: Result<Self, Error>) {
        match read_bare_pair(packet) {
            Ok((x, y)) => Ok(WaypointCmd { x, y }),
            Err(e) => Err(e),
        }
    }
}

impl PositionReport {
    /// The fields in wire order.
    pub open spec fn words(self) -> Seq<u32> {
        seq![self.pos_x, self.pos_y, self.heading, self.speed]
    }

    fn of_bytes(b: &Vec<u8>) -> (r: Self)
        requires
            b@.len() == 16,
        ensures
            Self::read(b@) == Ok::<Self, Error>(r),
    {
        PositionReport {
            pos_x: word(b, 0),
            pos_y: word(b, 1),
            heading: word(b, 2),
            speed: word(b, 3),
        }
    }
}

impl Message for PositionReport {
    open spec fn payload(&self) -> Seq<u8> {
        le_bytes(self.words())
    }

    open spec fn read(p: Seq<u8>) -> Result<Self, Error> {
        if p.len() < 16 {
            Err(Error::UnexpectedEnd)
        } else {
            Ok(PositionReport {
                pos_x: word_at(p, 0),
                pos_y: word_at(p, 1),
                heading: word_at(p, 2),
                speed: word_at(p, 3),
            })
        }
    }

    proof fn payload_reads_back(&self, rest: Seq<u8>) {
        lemma_words_come_back(self.words(), rest);
    }

    fn write_frame<'a>(&self, buf: &'a mut [u8]) -> (r: Result<&'a mut [u8], Error>) {
        let ws: Vec<u32> = vec![self.pos_x, self.pos_y, self.heading, self.speed];
        let payload: Vec<u8> = bytes_of_words(&ws);
        assert(ws@ =~= self.words());
        write_cobs_16(&payload, buf)
    }

    fn read_frame(frame: &mut [u8]) -> (r: Result<Self, Error>) {
        match read_cobs_16(frame) {
            Ok(b) => {
                proof {
                    lemma_head_words(open_frame(old(frame)@).unwrap(), 16);
                }
                Ok(Self::of_bytes(&b))
            },
            Err(e) => Err(e),
        }
    }
}

impl BareMessage for PositionReport {
    fn write_bare<'a>(&self, buf: &'a mut [u8]) -> (r: Result<&'a mut [u8], Error>) {
        let ws: Vec<u32> = vec![self.pos_x, self.pos_y, self.heading, self.speed];
        let payload: Vec<u8> = bytes_of_words(&ws);
        assert(ws@ =~= self.words());
        write_bare_16(&payload, buf)
    }

    fn read_bare(packet: &[u8]) -> (r: Result<Self, Error>) {
        match read_bare_16(packet) {
            Ok(b) => {
                proof {
                    lemma_head_words(packet@, 16);
                }
                Ok(Self::of_bytes(&b))
            },
            Err(e) => Err(e),
        }
    }
}

impl ConfigPacket {
    /// The fields in wire order.
    pub open spec fn words(self) -> Seq<u32> {
        seq![
            self.factor,
            self.kp,
            self.ki,
            self.kd,
            self.sample_time,
            self.speed_adaption,
            self.max_rudder_angle,
            self.sail_stretching,
        ]
    }

    /// The packet whose fields are the words of `p`.
    pub open spec fn of_words(p: Seq<u8>) -> ConfigPacket {
        ConfigPacket {
            factor: word_at(p, 0),
            kp: word_at(p, 1),
            ki: word_at(p, 2),
            kd: word_at(p, 3),
            sample_time: word_at(p, 4),
            speed_adaption: word_at(p, 5),
            max_rudder_angle: word_at(p, 6),
            sail_stretching: word_at(p, 7),
        }
    }

    proof fn lemma_reads_back(self, rest: Seq<u8>)
        ensures
            ConfigPacket::of_words(le_bytes(self.words()) + rest) == self,
            le_bytes(self.words()).len() == 32,
    {
        lemma_words_come_back(self.words(), rest);
    }

    fn bytes(&self) -> (r: Vec<u8>)
        ensures
            r@ == le_bytes(self.words()),
    {
        let ws: Vec<u32> = vec![
            self.factor,
            self.kp,
            self.ki,
            self.kd,
            self.sample_time,
            self.speed_adaption,
            self.max_rudder_angle,
            self.sail_stretching,
        ];
        assert(ws@ =~= self.words());
        bytes_of_words(&ws)
    }

    fn of_bytes(b: &Vec<u8>) -> (r: Self)
        requires
            b@.len() == 32,
        ensures
            r == ConfigPacket::of_words(b@),
    {
        ConfigPacket {
            factor: word(b, 0),
            kp: word(b, 1),
            ki: word(b, 2),
            kd: word(b, 3),
            sample_time: word(b, 4),
            speed_adaption: word(b, 5),
            max_rudder_angle: word(b, 6),
            sail_stretching: word(b, 7),
        }
    }
}

impl SensorPacket {
    /// The fields in wire order.
    pub open spec fn words(self) -> Seq<u32> {
        seq![
            self.target_heading,
            self.heading,
            self.yaw_rate,
            self.roll,
            self.vel_x_body,
            self.vel_y_body,
            self.true_wind_dir,
            self.true_wind_speed,
            self.pos_x,
            self.pos_y,
        ]
    }

    /// The packet whose fields are the words of `p`.
    pub open spec fn of_words(p: Seq<u8>) -> SensorPacket {
        SensorPacket {
            target_heading: word_at(p, 0),
            heading: word_at(p, 1),
            yaw_rate: word_at(p, 2),
            roll: word_at(p, 3),
            vel_x_body: word_at(p, 4),
            vel_y_body: word_at(p, 5),
            true_wind_dir: word_at(p, 6),
            true_wind_speed: word_at(p, 7),
            pos_x: word_at(p, 8),
            pos_y: word_at(p, 9),
        }
    }

    proof fn lemma_reads_back(self, rest: Seq<u8>)
        ensures
            SensorPacket::of_words(le_bytes(self.words()) + rest) == self,
            le_bytes(self.words()).len() == 40,
    {
        lemma_words_come_back(self.words(), rest);
    }

    fn bytes(&self) -> (r: Vec<u8>)
        ensures
            r@ == le_bytes(self.words()),
    {
        let ws: Vec<u32> = vec![
            self.target_heading,
            self.heading,
            self.yaw_rate,
            self.roll,
            self.vel_x_body,
            self.vel_y_body,
            self.true_wind_dir,
            self.true_wind_speed,
            self.pos_x,
            self.pos_y,
        ];
        assert(ws@ =~= self.words());
        bytes_of_words(&ws)
    }

    fn of_bytes(b: &Vec<u8>) -> (r: Self)
        requires
            b@.len() == 40,
        ensures
            r == SensorPacket::of_words(b@),
    {
        SensorPacket {
            target_heading: word(b, 0),
            heading: word(b, 1),
            yaw_rate: word(b, 2),
            roll: word(b, 3),
            vel_x_body: word(b, 4),
            vel_y_body: word(b, 5),
            true_wind_dir: word(b, 6),
            true_wind_speed: word(b, 7),
            pos_x: word(b, 8),
            pos_y: word(b, 9),
        }
    }
}

impl Message for HostMsg {
    open spec fn payload(&self) -> Seq<u8> {
        tagged_bytes(
            match *self {
                HostMsg::Config(c) => Ok(le_bytes(c.words())),
                HostMsg::Sensor(s) => Err(le_bytes(s.words())),
            },
        )
    }

    open spec fn read(p: Seq<u8>) -> Result<Self, Error> {
        match tagged(p) {
            Ok(Ok(b)) => Ok(HostMsg::Config(ConfigPacket::of_words(b))),
            Ok(Err(b)) => Ok(HostMsg::Sensor(SensorPacket::of_words(b))),
            Err(e) => Err(e),
        }
    }

    proof fn payload_reads_back(&self, rest: Seq<u8>) {
        let p = self.payload() + rest;
        match *self {
            HostMsg::Config(c) => {
                c.lemma_reads_back(Seq::empty());
                let b = le_bytes(c.words());
                assert(b + Seq::<u8>::empty() =~= b);
                assert(p.skip(1).take(32) =~= b);
            },
            HostMsg::Sensor(s) => {
                s.lemma_reads_back(Seq::empty());
                let b = le_bytes(s.words());
                assert(b + Seq::<u8>::empty() =~= b);
                assert(p.skip(1).take(40) =~= b);
            },
        }
    }

    fn write_frame<'a>(&self, buf: &'a mut [u8]) -> (r: Result<&'a mut [u8], Error>) {
        let value: Result<Vec<u8>, Vec<u8>> = match self {
            HostMsg::Config(c) => Ok(c.bytes()),
            HostMsg::Sensor(s) => Err(s.bytes()),
        };
        write_cobs_tagged(&value, buf)
    }

    fn read_frame(frame: &mut [u8]) -> (r: Result<Self, Error>) {
        match read_cobs_tagged(frame) {
            Ok(Ok(b)) => Ok(HostMsg::Config(ConfigPacket::of_bytes(&b))),
            Ok(Err(b)) => Ok(HostMsg::Sensor(SensorPacket::of_bytes(&b))),
            Err(e) => Err(e),
        }
    }
}

/// The bytes of a word, the lowest first, weigh up to the word.
proof fn lemma_bytes_weigh_up(ws: Seq<u32>, k: int)
    requires
        0 <= k < ws.len(),
    ensures
        le_bytes(ws).len() == 4 * ws.len(),
        ({
            let p = le_bytes(ws);
            ws[k] == p[4 * k] + 256 * p[4 * k + 1] + 65536 * p[4 * k + 2] + 16777216 * p[4 * k + 3]
        }),
{
    let p = le_bytes(ws);
    let w = ws[k];
    assert(p[4 * k] == byte_of(w, 0) && p[4 * k + 1] == byte_of(w, 1) && p[4 * k + 2] == byte_of(
        w,
        2,
    ) && p[4 * k + 3] == byte_of(w, 3));
}

/// A command goes out as eight bytes: the rudder, then the sail, each with its
/// lowest byte first.
pub proof fn law_command_goes_rudder_first(c: CommandPacket)
    ensures
        ({
            let p = c.payload();
            &&& p.len() == 8
            &&& c.rudder_angle == p[0] + 256 * p[1] + 65536 * p[2] + 16777216 * p[3]
            &&& c.sail_angle == p[4] + 256 * p[5] + 65536 * p[6] + 16777216 * p[7]
        }),
{
    lemma_bytes_weigh_up(c.words(), 0);
    lemma_bytes_weigh_up(c.words(), 1);
}

/// A waypoint goes out as eight bytes: its place east, then its place north, each
/// with its lowest byte first.
pub proof fn law_waypoint_goes_east_first(c: WaypointCmd)
    ensures
        ({
            let p = c.payload();
            &&& p.len() == 8
            &&& c.x == p[0] + 256 * p[1] + 65536 * p[2] + 16777216 * p[3]
            &&& c.y == p[4] + 256 * p[5] + 65536 * p[6] + 16777216 * p[7]
        }),
{
    lemma_bytes_weigh_up(c.words(), 0);
    lemma_bytes_weigh_up(c.words(), 1);
}

/// A report goes out as sixteen bytes: place east, place north, heading, speed, each
/// with its lowest byte first.
pub proof fn law_report_goes_place_first(c: PositionReport)
    ensures
        ({
            let p = c.payload();
            &&& p.len() == 16
            &&& c.pos_x == p[0] + 256 * p[1] + 65536 * p[2] + 16777216 * p[3]
            &&& c.pos_y == p[4] + 256 * p[5] + 65536 * p[6] + 16777216 * p[7]
            &&& c.heading == p[8] + 256 * p[9] + 65536 * p[10] + 16777216 * p[11]
            &&& c.speed == p[12] + 256 * p[13] + 65536 * p[14] + 16777216 * p[15]
        }),
{
    lemma_bytes_weigh_up(c.words(), 0);
    lemma_bytes_weigh_up(c.words(), 1);
    lemma_bytes_weigh_up(c.words(), 2);
    lemma_bytes_weigh_up(c.words(), 3);
}

/// A configuration goes out behind a zero, its eight fields in order, each with its
/// lowest byte first.
pub proof fn law_configuration_goes_behind_a_zero(c: ConfigPacket)
    ensures
        ({
            let p = HostMsg::Config(c).payload();
            &&& p.len() == 33
            &&& p[0] == 0
            &&& c.factor == p[1] + 256 * p[2] + 65536 * p[3] + 16777216 * p[4]
            &&& c.kp == p[5] + 256 * p[6] + 65536 * p[7] + 16777216 * p[8]
            &&& c.ki == p[9] + 256 * p[10] + 65536 * p[11] + 16777216 * p[12]
            &&& c.kd == p[13] + 256 * p[14] + 65536 * p[15] + 16777216 * p[16]
            &&& c.sample_time == p[17] + 256 * p[18] + 65536 * p[19] + 16777216 * p[20]
            &&& c.speed_adaption == p[21] + 256 * p[22] + 65536 * p[23] + 16777216 * p[24]
            &&& c.max_rudder_angle == p[25] + 256 * p[26] + 65536 * p[27] + 16777216 * p[28]
            &&& c.sail_stretching == p[29] + 256 * p[30] + 65536 * p[31] + 16777216 * p[32]
        }),
{
    let ws = c.words();
    let p = HostMsg::Config(c).payload();
    assert(p == seq![0u8] + le_bytes(ws));
    lemma_bytes_weigh_up(ws, 0);
    lemma_bytes_weigh_up(ws, 1);
    lemma_bytes_weigh_up(ws, 2);
    lemma_bytes_weigh_up(ws, 3);
    lemma_bytes_weigh_up(ws, 4);
    lemma_bytes_weigh_up(ws, 5);
    lemma_bytes_weigh_up(ws, 6);
    lemma_bytes_weigh_up(ws, 7);
}

/// A snapshot of the sensors goes out behind a one, its ten fields in order, each
/// with its lowest byte first.
pub proof fn law_snapshot_goes_behind_a_one(c: SensorPacket)
    ensures
        ({
            let p = HostMsg::Sensor(c).payload();
            &&& p.len() == 41
            &&& p[0] == 1
            &&& c.target_heading == p[1] + 256 * p[2] + 65536 * p[3] + 16777216 * p[4]
            &&& c.heading == p[5] + 256 * p[6] + 65536 * p[7] + 16777216 * p[8]
            &&& c.yaw_rate == p[9] + 256 * p[10] + 65536 * p[11] + 16777216 * p[12]
            &&& c.roll == p[13] + 256 * p[14] + 65536 * p[15] + 16777216 * p[16]
            &&& c.vel_x_body == p[17] + 256 * p[18] + 65536 * p[19] + 16777216 * p[20]
            &&& c.vel_y_body == p[21] + 256 * p[22] + 65536 * p[23] + 16777216 * p[24]
            &&& c.true_wind_dir == p[25] + 256 * p[26] + 65536 * p[27] + 16777216 * p[28]
            &&& c.true_wind_speed == p[29] + 256 * p[30] + 65536 * p[31] + 16777216 * p[32]
            &&& c.pos_x == p[33] + 256 * p[34] + 65536 * p[35] + 16777216 * p[36]
            &&& c.pos_y == p[37] + 256 * p[38] + 65536 * p[39] + 16777216 * p[40]
        }),
{
    let ws = c.words();
    let p = HostMsg::Sensor(c).payload();
    assert(p == seq![1u8] + le_bytes(ws));
    lemma_bytes_weigh_up(ws, 0);
    lemma_bytes_weigh_up(ws, 1);
    lemma_bytes_weigh_up(ws, 2);
    lemma_bytes_weigh_up(ws, 3);
    lemma_bytes_weigh_up(ws, 4);
    lemma_bytes_weigh_up(ws, 5);
    lemma_bytes_weigh_up(ws, 6);
    lemma_bytes_weigh_up(ws, 7);
    lemma_bytes_weigh_up(ws, 8);
    lemma_bytes_weigh_up(ws, 9);
}

/// Bytes that stop before a message does are refused as such, whichever message is
/// read, and as many as it has are always read as one.
pub proof fn law_short_payload_is_refused(p: Seq<u8>)
    ensures
        p.len() < 8 ==> CommandPacket::read(p) == Err::<CommandPacket, Error>(Error::UnexpectedEnd)
            && WaypointCmd::read(p) == Err::<WaypointCmd, Error>(Error::UnexpectedEnd),
        p.len() >= 8 ==> CommandPacket::read(p) is Ok && WaypointCmd::read(p) is Ok,
        p.len() < 16 ==> PositionReport::read(p) == Err::<PositionReport, Error>(
            Error::UnexpectedEnd,
        ),
        p.len() >= 16 ==> PositionReport::read(p) is Ok,
        p.len() == 0 ==> HostMsg::read(p) == Err::<HostMsg, Error>(Error::UnexpectedEnd),
        0 < p.len() && p[0] == 0 ==> (if p.len() < 33 {
            HostMsg::read(p) == Err::<HostMsg, Error>(Error::UnexpectedEnd)
        } else {
            HostMsg::read(p) is Ok && HostMsg::read(p)->Ok_0 is Config
        }),
        0 < p.len() && p[0] == 1 ==> (if p.len() < 41 {
            HostMsg::read(p) == Err::<HostMsg, Error>(Error::UnexpectedEnd)
        } else {
            HostMsg::read(p) is Ok && HostMsg::read(p)->Ok_0 is Sensor
        }),
        0 < p.len() && 1 < p[0] < 128 ==> HostMsg::read(p) == Err::<HostMsg, Error>(
            Error::BadVariant,
        ),
{
}

} // verus!
