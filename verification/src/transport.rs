//! One multiplexed connection to a remote peer. A transport owns a bounded
//! outbound frame queue, drained in order by a forwarding task, and the
//! streaming decoder for the bytes the connection delivers. A protocol
//! error on the read side marks the transport dead; a dead transport
//! accepts no further frame in either direction.

use crate::byte_buffer::bm_new;
use crate::byte_buffer::bytes_of;
use crate::codec::decode_consumed;
use crate::codec::decode_err;
use crate::codec::decode_ready;
use crate::codec::decoded_frame;
use crate::codec::frame_wf;
use crate::codec::frames_views;
use crate::codec::spec_drain;
use crate::codec::spec_encode;
use crate::codec::Codec;
use crate::codec::Frame;
use crate::codec::FrameView;
use crate::codec::MAX_PAYLOAD;
use bytes::BytesMut;
use vstd::prelude::*;

verus! {

/// How many frames the outbound queue holds before enqueueing stalls.
pub const QUEUE_CAPACITY: usize = 10;

/// The mathematical value of a transport.
#[verifier::ext_equal]
pub struct TransportView {
    pub remote_id: Seq<char>,
    pub alive: bool,
    pub outbound: Seq<FrameView>,
    pub inbound: Seq<u8>,
}

/// What became of an attempt to enqueue an outbound frame.
#[derive(Clone, Copy, PartialEq, Eq, Structural, Debug)]
pub enum SendStatus {
    /// The frame sits in the outbound queue.
    Enqueued,
    /// The queue is at capacity; the caller must wait and retry.
    Full,
    /// The transport is dead; the frame is dropped.
    Closed,
}

pub struct Transport {
    remote_id: String,
    alive: bool,
    outbound: Vec<Frame>,
    reader: Codec,
}

impl View for Transport {
    type V = TransportView;

    closed spec fn view(&self) -> TransportView {
        TransportView {
            remote_id: self.remote_id@,
            alive: self.alive,
            outbound: frames_views(self.outbound@),
            inbound: self.reader@,
        }
    }
}

/// Every queued frame fits the wire format, so draining the queue can
/// always encode.
pub open spec fn transport_view_wf(t: TransportView) -> bool {
    forall|i: int| 0 <= i < t.outbound.len() ==> frame_wf(#[trigger] t.outbound[i])
}

impl Transport {
    /// Every queued frame fits the wire format, so draining the queue can
    /// always encode.
    pub open spec fn wf(&self) -> bool {
        transport_view_wf(self@)
    }

    /// A transport for the peer `remote_id`, alive, with empty queues. The
    /// caller owns the connection the transport's bytes travel over.
    pub fn new(remote_id: String) -> (t: Transport)
        ensures
            t.wf(),
            t@ == (TransportView {
                remote_id: remote_id@,
                alive: true,
                outbound: Seq::<FrameView>::empty(),
                inbound: Seq::<u8>::empty(),
            }),
    {
        let t = Transport { remote_id, alive: true, outbound: Vec::new(), reader: Codec::new() };
        proof {
            assert(frames_views(t.outbound@) =~= Seq::<FrameView>::empty());
        }
        t
    }

    pub fn is_alive(&self) -> (r: bool)
        ensures
            r == self@.alive,
    {
        self.alive
    }

    /// Mark the transport dead, as when its connection is gone.
    pub fn close(&mut self)
        ensures
            final(self)@ == (TransportView { alive: false, ..old(self)@ }),
            old(self).wf() ==> final(self).wf(),
    {
        self.alive = false;
    }

    /// Enqueue a Data frame for the peer. The queue is bounded: a full
    /// queue refuses the frame so the caller suspends and retries, and a
    /// dead transport refuses it for good.
    pub fn send_frame(&mut self, channel_id: u16, data: BytesMut) -> (r: SendStatus)
        requires
            old(self).wf(),
            bytes_of(data).len() <= MAX_PAYLOAD,
        ensures
            final(self).wf(),
            !old(self)@.alive ==> r == SendStatus::Closed && final(self)@ == old(self)@,
            old(self)@.alive && old(self)@.outbound.len() >= QUEUE_CAPACITY ==> r
                == SendStatus::Full && final(self)@ == old(self)@,
            old(self)@.alive && old(self)@.outbound.len() < QUEUE_CAPACITY ==> r
                == SendStatus::Enqueued && final(self)@ == (TransportView {
                outbound: old(self)@.outbound.push(
                    FrameView::Data { channel: channel_id, payload: bytes_of(data) },
                ),
                ..old(self)@
            }),
    {
        if !self.alive {
            return SendStatus::Closed;
        }
        if self.outbound.len() >= QUEUE_CAPACITY {
            return SendStatus::Full;
        }
        let ghost payload_bytes = bytes_of(data);
        self.outbound.push(Frame::Data(channel_id, data));
        proof {
            assert(frames_views(self.outbound@) =~= frames_views(old(self).outbound@).push(
                FrameView::Data { channel: channel_id, payload: payload_bytes },
            ));
            assert(self@.outbound == old(self)@.outbound.push(
                FrameView::Data { channel: channel_id, payload: payload_bytes },
            ));
            assert forall|i: int| 0 <= i < self@.outbound.len() implies frame_wf(
                #[trigger] self@.outbound[i],
            ) by {
                if i < self@.outbound.len() - 1 {
                    assert(self@.outbound[i] == old(self)@.outbound[i]);
                }
            }
        }
        SendStatus::Enqueued
    }

    /// Take the frame at the front of the outbound queue and encode it for
    /// the wire. The forwarding task writes the returned bytes out; queued
    /// frames leave in the order they were enqueued.
    pub fn pop_outbound(&mut self) -> (r: Option<BytesMut>)
        requires
            old(self).wf(),
        ensures
            final(self).wf(),
            old(self)@.outbound.len() == 0 ==> r is None && final(self)@ == old(self)@,
            old(self)@.outbound.len() > 0 ==> (r matches Some(b) && bytes_of(b) == spec_encode(
                old(self)@.outbound[0],
            ) && final(self)@ == (TransportView {
                outbound: old(self)@.outbound.skip(1),
                ..old(self)@
            })),
    {
        if self.outbound.len() == 0 {
            return None;
        }
        let f = self.outbound.remove(0);
        let ghost fv = f@;
        let mut dst = bm_new();
        proof {
            assert(frames_views(self.outbound@) =~= frames_views(old(self).outbound@).skip(1));
            assert(self@.outbound == old(self)@.outbound.skip(1));
            assert(fv == old(self)@.outbound[0]);
            assert(frame_wf(fv));
            assert forall|i: int| 0 <= i < self@.outbound.len() implies frame_wf(
                #[trigger] self@.outbound[i],
            ) by {
                assert(self@.outbound[i] == old(self)@.outbound[i + 1]);
            }
        }
        match Codec::encode(f, &mut dst) {
            Ok(_) => {
                proof {
                    assert(bytes_of(dst) =~= spec_encode(fv));
                }
                Some(dst)
            },
            Err(_) => {
                proof {
                    assert(false);
                }
                None
            },
        }
    }

    /// Feed bytes the connection delivered and decode every frame that is
    /// now complete, in wire order. An unknown tag is a protocol error: it
    /// marks the transport dead, and the frames decoded before it are
    /// still returned. A dead transport ignores the bytes.
    pub fn read_frames(&mut self, data: &[u8]) -> (r: Vec<Frame>)
        requires
            old(self).wf(),
        ensures
            final(self).wf(),
            !old(self)@.alive ==> r@.len() == 0 && final(self)@ == old(self)@,
            old(self)@.alive ==> frames_views(r@) == spec_drain(old(self)@.inbound + data@).frames
                && final(self)@ == (TransportView {
                alive: !spec_drain(old(self)@.inbound + data@).failed,
                inbound: spec_drain(old(self)@.inbound + data@).rest,
                ..old(self)@
            }),
    {
        if !self.alive {
            return Vec::new();
        }
        let ghost total = old(self)@.inbound + data@;
        self.reader.feed(data);
        let mut out: Vec<Frame> = Vec::new();
        let mut failed = false;
        let mut running = true;
        proof {
            assert(frames_views(out@) =~= Seq::<FrameView>::empty());
            assert(frames_views(out@) + spec_drain(self.reader@).frames =~= spec_drain(
                total,
            ).frames);
            assert(self@.outbound == old(self)@.outbound);
        }
        while running
            invariant
                self.remote_id == old(self).remote_id,
                self.outbound == old(self).outbound,
                self.alive,
                failed ==> !running,
                failed ==> decode_err(self.reader@),
                !running && !failed ==> !decode_ready(self.reader@) && !decode_err(self.reader@),
                spec_drain(total).frames == frames_views(out@) + spec_drain(self.reader@).frames,
                spec_drain(total).rest == spec_drain(self.reader@).rest,
                spec_drain(total).failed == spec_drain(self.reader@).failed,
            decreases self.reader@.len() + (if running {
                1int
            } else {
                0int
            }),
        {
            let ghost buf = self.reader@;
            let ghost out_before = out@;
            match self.reader.decode() {
                Ok(Some(f)) => {
                    proof {
                        assert(decode_ready(buf));
                        assert(decode_consumed(buf) >= 1);
                        assert(spec_drain(buf).frames == seq![decoded_frame(buf)] + spec_drain(
                            self.reader@,
                        ).frames);
                    }
                    out.push(f);
                    proof {
                        assert(frames_views(out@) =~= frames_views(out_before).push(
                            decoded_frame(buf),
                        ));
                        assert(frames_views(out_before).push(decoded_frame(buf)) + spec_drain(
                            self.reader@,
                        ).frames =~= frames_views(out_before) + spec_drain(buf).frames);
                        assert(self@.outbound == old(self)@.outbound);
                    }
                },
                Ok(None) => {
                    running = false;
                },
                Err(_) => {
                    failed = true;
                    running = false;
                },
            }
            proof {
                assert(self@.outbound == old(self)@.outbound);
            }
        }
        proof {
            assert(self@.outbound == old(self)@.outbound);
            assert forall|i: int| 0 <= i < self@.outbound.len() implies frame_wf(
                #[trigger] self@.outbound[i],
            ) by {
                assert(self@.outbound[i] == old(self)@.outbound[i]);
            }
        }
        if failed {
            self.alive = false;
            proof {
                assert(spec_drain(self.reader@).failed);
                assert(spec_drain(self.reader@).frames =~= Seq::<FrameView>::empty());
                assert(frames_views(out@) + spec_drain(self.reader@).frames =~= frames_views(
                    out@,
                ));
            }
        } else {
            proof {
                assert(!spec_drain(self.reader@).failed);
                assert(spec_drain(self.reader@).frames =~= Seq::<FrameView>::empty());
                assert(frames_views(out@) + spec_drain(self.reader@).frames =~= frames_views(
                    out@,
                ));
            }
        }
        out
    }
}

} // verus!
