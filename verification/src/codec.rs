//! The wire frame codec. A frame is a tag byte (1 = Ping, 2 = Pong,
//! 3 = Data) followed, for Data, by a big-endian 16-bit channel id, a
//! big-endian 16-bit payload length, and the payload bytes. Decoding is
//! streaming: bytes are consumed only once a complete frame is buffered,
//! and an unrecognized tag is a hard protocol error.

use crate::byte_buffer::bm_byte;
use crate::byte_buffer::bm_extend;
use crate::byte_buffer::bm_len;
use crate::byte_buffer::bm_new;
use crate::byte_buffer::bm_put_u16;
use crate::byte_buffer::bm_put_u8;
use crate::byte_buffer::bm_append;
use crate::byte_buffer::bm_split_to;
use crate::byte_buffer::bytes_of;
use bytes::BytesMut;
use vstd::prelude::*;

verus! {

pub const TAG_PING: u8 = 1;

pub const TAG_PONG: u8 = 2;

pub const TAG_DATA: u8 = 3;

/// The largest payload a Data frame can carry: its length must fit in the
/// 16-bit length field.
pub const MAX_PAYLOAD: usize = 65535;

/// One protocol message, as exchanged over a transport.
pub enum Frame {
    Ping,
    Pong,
    Data(u16, BytesMut),
}

/// The mathematical value of a frame: the Data payload as a byte sequence.
pub enum FrameView {
    Ping,
    Pong,
    Data { channel: u16, payload: Seq<u8> },
}

impl View for Frame {
    type V = FrameView;

    open spec fn view(&self) -> FrameView {
        match self {
            Frame::Ping => FrameView::Ping,
            Frame::Pong => FrameView::Pong,
            Frame::Data(channel, payload) => FrameView::Data {
                channel: *channel,
                payload: bytes_of(*payload),
            },
        }
    }
}

/// A frame is well formed when its payload length fits the length field.
pub open spec fn frame_wf(f: FrameView) -> bool {
    match f {
        FrameView::Data { channel: _, payload } => payload.len() <= MAX_PAYLOAD,
        _ => true,
    }
}

/// The two big-endian bytes of a 16-bit value.
pub open spec fn be_bytes(v: u16) -> Seq<u8> {
    seq![(v / 256) as u8, (v % 256) as u8]
}

/// The value of two bytes read big-endian.
pub open spec fn be_value(hi: u8, lo: u8) -> int {
    hi * 256 + lo
}

/// The encoding of a frame on the wire.
pub open spec fn spec_encode(f: FrameView) -> Seq<u8>
    recommends
        frame_wf(f),
{
    match f {
        FrameView::Ping => seq![TAG_PING],
        FrameView::Pong => seq![TAG_PONG],
        FrameView::Data { channel, payload } => seq![TAG_DATA] + be_bytes(channel) + be_bytes(
            payload.len() as u16,
        ) + payload,
    }
}

/// The payload length a buffered Data frame header declares.
pub open spec fn header_payload_len(buf: Seq<u8>) -> int
    recommends
        buf.len() >= 5,
{
    be_value(buf[3], buf[4])
}

/// The buffer starts with a tag no frame uses: a protocol violation.
pub open spec fn decode_err(buf: Seq<u8>) -> bool {
    buf.len() >= 1 && buf[0] != TAG_PING && buf[0] != TAG_PONG && buf[0] != TAG_DATA
}

/// The buffer holds at least one complete frame.
pub open spec fn decode_ready(buf: Seq<u8>) -> bool {
    buf.len() >= 1 && (buf[0] == TAG_PING || buf[0] == TAG_PONG || (buf[0] == TAG_DATA
        && buf.len() >= 5 && buf.len() >= 5 + header_payload_len(buf)))
}

/// How many bytes the first complete frame occupies.
pub open spec fn decode_consumed(buf: Seq<u8>) -> int
    recommends
        decode_ready(buf),
{
    if buf[0] == TAG_DATA {
        5 + header_payload_len(buf)
    } else {
        1
    }
}

/// The first complete frame in the buffer.
pub open spec fn decoded_frame(buf: Seq<u8>) -> FrameView
    recommends
        decode_ready(buf),
{
    if buf[0] == TAG_PING {
        FrameView::Ping
    } else if buf[0] == TAG_PONG {
        FrameView::Pong
    } else {
        FrameView::Data {
            channel: be_value(buf[1], buf[2]) as u16,
            payload: buf.subrange(5, 5 + header_payload_len(buf)),
        }
    }
}

/// The values of a sequence of frames.
pub open spec fn frames_views(s: Seq<Frame>) -> Seq<FrameView> {
    s.map_values(|f: Frame| f@)
}

/// Why encoding or decoding refused its input.
#[derive(Clone, Copy, PartialEq, Eq, Structural, Debug)]
pub enum ProtocolError {
    /// The stream holds a tag byte no frame uses.
    UnknownTag,
    /// A Data payload longer than the length field can state.
    OversizedPayload,
}

/// What repeatedly decoding a buffer until it is exhausted yields: the
/// complete frames in order, the bytes left over, and whether decoding hit
/// a protocol error.
pub struct DrainResult {
    pub frames: Seq<FrameView>,
    pub rest: Seq<u8>,
    pub failed: bool,
}

/// Decode complete frames from the front of the buffer until none is left,
/// an incomplete frame remains, or an unknown tag is hit.
pub open spec fn spec_drain(buf: Seq<u8>) -> DrainResult
    decreases buf.len(),
    via spec_drain_decreases
{
    if decode_err(buf) {
        DrainResult { frames: seq![], rest: buf, failed: true }
    } else if decode_ready(buf) {
        let tail = spec_drain(buf.skip(decode_consumed(buf)));
        DrainResult {
            frames: seq![decoded_frame(buf)] + tail.frames,
            rest: tail.rest,
            failed: tail.failed,
        }
    } else {
        DrainResult { frames: seq![], rest: buf, failed: false }
    }
}

#[via_fn]
proof fn spec_drain_decreases(buf: Seq<u8>) {
    if !decode_err(buf) && decode_ready(buf) {
        assert(1 <= decode_consumed(buf) <= buf.len());
    }
}

/// The streaming decoder: buffers fed bytes and hands back each frame once
/// all its declared bytes have arrived.
pub struct Codec {
    buffer: BytesMut,
}

impl View for Codec {
    type V = Seq<u8>;

    closed spec fn view(&self) -> Seq<u8> {
        bytes_of(self.buffer)
    }
}

impl Codec {
    pub fn new() -> (c: Codec)
        ensures
            c@ == Seq::<u8>::empty(),
    {
        Codec { buffer: bm_new() }
    }

    /// Append newly received bytes to the decode buffer.
    pub fn feed(&mut self, data: &[u8])
        ensures
            final(self)@ == old(self)@ + data@,
    {
        bm_extend(&mut self.buffer, data);
    }

    /// Append the encoding of `item` to `dst`. A Data frame whose payload
    /// does not fit the 16-bit length field is rejected and `dst` is left
    /// untouched.
    pub fn encode(item: Frame, dst: &mut BytesMut) -> (r: Result<(), ProtocolError>)
        ensures
            frame_wf(item@) ==> r is Ok && bytes_of(*final(dst)) == bytes_of(*old(dst))
                + spec_encode(item@),
            !frame_wf(item@) ==> r == Err::<(), ProtocolError>(ProtocolError::OversizedPayload)
                && bytes_of(*final(dst)) == bytes_of(*old(dst)),
    {
        match item {
            Frame::Ping => {
                bm_put_u8(dst, TAG_PING);
                proof {
                    assert(bytes_of(*old(dst)).push(TAG_PING) =~= bytes_of(*old(dst)) + seq![
                        TAG_PING,
                    ]);
                }
                Ok(())
            },
            Frame::Pong => {
                bm_put_u8(dst, TAG_PONG);
                proof {
                    assert(bytes_of(*old(dst)).push(TAG_PONG) =~= bytes_of(*old(dst)) + seq![
                        TAG_PONG,
                    ]);
                }
                Ok(())
            },
            Frame::Data(channel, payload) => {
                let len = bm_len(&payload);
                if len > MAX_PAYLOAD {
                    return Err(ProtocolError::OversizedPayload);
                }
                bm_put_u8(dst, TAG_DATA);
                bm_put_u16(dst, channel);
                bm_put_u16(dst, len as u16);
                let ghost payload_bytes = bytes_of(payload);
                bm_append(dst, payload);
                proof {
                    assert((len as u16) as int == payload_bytes.len() as u16 as int);
                    assert(bytes_of(*final(dst)) =~= bytes_of(*old(dst)) + spec_encode(
                        FrameView::Data { channel, payload: payload_bytes },
                    ));
                }
                Ok(())
            },
        }
    }

    /// Take one frame from the front of the buffer, if a complete one is
    /// there. Nothing is consumed while bytes are missing, and a buffer
    /// whose first byte is no known tag is a protocol error.
    pub fn decode(&mut self) -> (r: Result<Option<Frame>, ProtocolError>)
        ensures
            decode_err(old(self)@) ==> r == Err::<Option<Frame>, ProtocolError>(
                ProtocolError::UnknownTag,
            ) && final(self)@ == old(self)@,
            decode_ready(old(self)@) ==> (r matches Ok(Some(f)) && f@ == decoded_frame(old(self)@)
                && final(self)@ == old(self)@.skip(decode_consumed(old(self)@))),
            !decode_err(old(self)@) && !decode_ready(old(self)@) ==> r == Ok::<
                Option<Frame>,
                ProtocolError,
            >(None) && final(self)@ == old(self)@,
    {
        let n = bm_len(&self.buffer);
        if n == 0 {
            return Ok(None);
        }
        let tag = bm_byte(&self.buffer, 0);
        if tag == TAG_PING {
            let _ = bm_split_to(&mut self.buffer, 1);
            return Ok(Some(Frame::Ping));
        }
        if tag == TAG_PONG {
            let _ = bm_split_to(&mut self.buffer, 1);
            return Ok(Some(Frame::Pong));
        }
        if tag != TAG_DATA {
            return Err(ProtocolError::UnknownTag);
        }
        if n < 5 {
            return Ok(None);
        }
        let b1 = bm_byte(&self.buffer, 1);
        let b2 = bm_byte(&self.buffer, 2);
        let b3 = bm_byte(&self.buffer, 3);
        let b4 = bm_byte(&self.buffer, 4);
        let channel: u16 = (b1 as u16) * 256 + (b2 as u16);
        let length: usize = (b3 as usize) * 256 + (b4 as usize);
        if n < 5 + length {
            return Ok(None);
        }
        let ghost buf0 = self@;
        let _ = bm_split_to(&mut self.buffer, 5);
        let payload = bm_split_to(&mut self.buffer, length);
        proof {
            assert(header_payload_len(buf0) == length);
            assert(be_value(buf0[1], buf0[2]) == channel as int);
            assert(bytes_of(payload) =~= buf0.subrange(5, 5 + header_payload_len(buf0)));
            assert(self@ =~= buf0.skip(decode_consumed(buf0)));
        }
        Ok(Some(Frame::Data(channel, payload)))
    }
}

/// Round trip: decoding the encoding of a well-formed frame yields exactly
/// that frame and consumes exactly its bytes.
pub proof fn lemma_encode_decode(f: FrameView)
    requires
        frame_wf(f),
    ensures
        !decode_err(spec_encode(f)),
        decode_ready(spec_encode(f)),
        decoded_frame(spec_encode(f)) == f,
        decode_consumed(spec_encode(f)) == spec_encode(f).len(),
{
    match f {
        FrameView::Ping => {
        },
        FrameView::Pong => {
        },
        FrameView::Data { channel, payload } => {
            let enc = spec_encode(f);
            let l = payload.len() as u16;
            assert(l as int == payload.len());
            assert(enc =~= seq![TAG_DATA, (channel / 256) as u8, (channel % 256) as u8, (l
                / 256) as u8, (l % 256) as u8] + payload);
            assert(enc[0] == TAG_DATA);
            assert(header_payload_len(enc) == ((l / 256) as u8) * 256 + ((l % 256) as u8));
            assert(header_payload_len(enc) == payload.len());
            assert(enc.len() == 5 + payload.len());
            assert(decode_ready(enc));
            assert(be_value(enc[1], enc[2]) == ((channel / 256) as u8) * 256 + ((channel
                % 256) as u8));
            assert(be_value(enc[1], enc[2]) == channel as int);
            assert(enc.subrange(5, 5 + header_payload_len(enc)) =~= payload);
            assert(decoded_frame(enc) == f);
        },
    }
}

/// No partial emission: every strict prefix of one encoded frame decodes to
/// "need more data", never to a frame and never to an error.
pub proof fn lemma_partial_encoding(f: FrameView, n: int)
    requires
        frame_wf(f),
        0 <= n < spec_encode(f).len(),
    ensures
        !decode_err(spec_encode(f).take(n)),
        !decode_ready(spec_encode(f).take(n)),
{
    let enc = spec_encode(f);
    let pre = enc.take(n);
    if n == 0 {
        assert(pre.len() == 0);
    } else {
        match f {
            FrameView::Ping => {
            },
            FrameView::Pong => {
            },
            FrameView::Data { channel, payload } => {
                let l = payload.len() as u16;
                assert(enc =~= seq![TAG_DATA, (channel / 256) as u8, (channel % 256) as u8, (l
                    / 256) as u8, (l % 256) as u8] + payload);
                assert(pre[0] == TAG_DATA);
                if n >= 5 {
                    assert(pre[3] == enc[3] && pre[4] == enc[4]);
                    assert(header_payload_len(pre) == header_payload_len(enc));
                    assert(header_payload_len(enc) == payload.len());
                    assert(pre.len() == n < 5 + header_payload_len(pre));
                }
            },
        }
    }
}

/// Exactly one frame: a buffer holding precisely one encoded frame drains
/// to that frame alone, leaves nothing behind, and hits no error.
pub proof fn lemma_exactly_one_frame(f: FrameView)
    requires
        frame_wf(f),
    ensures
        spec_drain(spec_encode(f)).frames == seq![f],
        spec_drain(spec_encode(f)).rest == Seq::<u8>::empty(),
        !spec_drain(spec_encode(f)).failed,
{
    lemma_encode_decode(f);
    let enc = spec_encode(f);
    assert(enc.skip(enc.len() as int) =~= Seq::<u8>::empty());
    assert(spec_drain(Seq::<u8>::empty()).frames =~= Seq::<FrameView>::empty());
    assert(spec_drain(enc).frames =~= seq![f]);
}

/// A buffer that starts with a tag no frame uses is a protocol error, and
/// draining it fails without yielding any frame.
pub proof fn lemma_unknown_tag(buf: Seq<u8>)
    requires
        buf.len() >= 1,
        buf[0] != TAG_PING,
        buf[0] != TAG_PONG,
        buf[0] != TAG_DATA,
    ensures
        decode_err(buf),
        spec_drain(buf).failed,
        spec_drain(buf).frames == Seq::<FrameView>::empty(),
{
    assert(spec_drain(buf).frames =~= Seq::<FrameView>::empty());
}

} // verus!
