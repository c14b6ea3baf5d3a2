//! Decisions of the blind relay: who a frame is for, what to do with an
//! incoming frame, the length prefix of relayed frames, and the bounded,
//! time-limited queue of frames held for peers that are offline.

use vstd::prelude::*;
use crate::bytes::{le_u32, lemma_u32_le_round_trip, u32_le, u32_to_le};
use crate::primitives::random_in_range;
use crate::protocol::{Frame, FrameView, MAX_FRAME_SIZE};
use std::collections::VecDeque;

verus! {

broadcast use vstd::std_specs::vecdeque::axiom_spec_len;

/// Most frames held for one offline peer; the oldest is dropped first.
pub const OFFLINE_QUEUE_CAPACITY: usize = 100;

/// Seconds a frame is held for an offline peer.
pub const OFFLINE_TTL_SECS: u64 = 300;

#[derive(Debug, Clone, Copy, PartialEq, Eq, Structural)]
pub enum RelayError {
    /// A length prefix announced a frame larger than `MAX_FRAME_SIZE`.
    FrameTooLarge(u32),
}

/// What the relay does with a frame read from a peer.
#[derive(Debug, Clone, Copy, PartialEq, Eq)]
pub enum RelayAction {
    /// Nothing (cover traffic, pongs, frames without a recipient).
    Drop,
    /// Answer the sender with a pong.
    ReplyPong,
    /// Deliver to this peer, or hold it for them while they are offline.
    Forward([u8; 32]),
}

/// The peer a frame is routed to: the sender key of a handshake opening, the
/// recipient key of a handshake reply or message, none otherwise.
pub open spec fn frame_recipient(f: FrameView) -> Option<Seq<u8>> {
    match f {
        FrameView::HandshakeInit { sender_pubkey, .. } => Some(sender_pubkey),
        FrameView::HandshakeResponse { recipient_pubkey, .. } => Some(recipient_pubkey),
        FrameView::Message { recipient_pubkey, .. } => Some(recipient_pubkey),
        _ => None,
    }
}

pub fn extract_recipient(frame: &Frame) -> (r: Option<[u8; 32]>)
    ensures
        match frame_recipient(frame@) {
            Some(k) => r matches Some(a) && a@ == k,
            None => r is None,
        },
{
    match frame {
        Frame::HandshakeInit(p) => Some(p.sender_pubkey),
        Frame::HandshakeResponse(p) => Some(p.recipient_pubkey),
        Frame::Message(p) => Some(p.recipient_pubkey),
        _ => None,
    }
}

/// The peer a connection registers as: the sender of its first frame, which
/// must open a handshake.
pub fn registration_peer(frame: &Frame) -> (r: Option<[u8; 32]>)
    ensures
        match frame@ {
            FrameView::HandshakeInit { sender_pubkey, .. } => r matches Some(a) && a@ == sender_pubkey,
            _ => r is None,
        },
{
    match frame {
        Frame::HandshakeInit(p) => Some(p.sender_pubkey),
        _ => None,
    }
}

/// What the relay does with a frame: drop cover traffic and pongs, answer
/// pings, and route the rest to their recipient (dropping those without one).
pub fn route_frame(frame: &Frame) -> (action: RelayAction)
    ensures
        match frame@ {
            FrameView::Dummy { .. } => action == RelayAction::Drop,
            FrameView::Pong => action == RelayAction::Drop,
            FrameView::Ping => action == RelayAction::ReplyPong,
            f => match frame_recipient(f) {
                Some(k) => action matches RelayAction::Forward(a) && a@ == k,
                None => action == RelayAction::Drop,
            },
        },
{
    match frame {
        Frame::Dummy(_) => RelayAction::Drop,
        Frame::Ping => RelayAction::ReplyPong,
        Frame::Pong => RelayAction::Drop,
        _ => match extract_recipient(frame) {
            Some(recipient) => RelayAction::Forward(recipient),
            None => RelayAction::Drop,
        },
    }
}

/// Fewest milliseconds the relay waits before writing a frame to a peer.
pub const MIN_SEND_JITTER_MS: u64 = 2;

/// Most milliseconds the relay waits before writing a frame to a peer.
pub const MAX_SEND_JITTER_MS: u64 = 15;

/// How long the relay waits before writing a frame to a peer, in
/// milliseconds: drawn at random, so that timing does not tie a frame written
/// to the frame read.
pub fn send_jitter_ms() -> (ms: u64)
    ensures
        MIN_SEND_JITTER_MS <= ms <= MAX_SEND_JITTER_MS,
{
    random_in_range(MIN_SEND_JITTER_MS, MAX_SEND_JITTER_MS)
}

/// The little-endian length prefix the relay writes before a frame of
/// `len` bytes: the length taken as a `u32` (its low 32 bits).
pub fn frame_length_prefix(len: usize) -> (prefix: [u8; 4])
    ensures
        prefix@ == u32_le(len as u32),
{
    u32_to_le(len as u32)
}

/// The frame length announced by a little-endian prefix, refused when larger
/// than `MAX_FRAME_SIZE`.
pub fn frame_length(prefix: [u8; 4]) -> (r: Result<usize, RelayError>)
    ensures
        le_u32(prefix@) <= MAX_FRAME_SIZE ==> r == Ok::<usize, RelayError>(le_u32(prefix@) as usize),
        le_u32(prefix@) > MAX_FRAME_SIZE ==> r == Err::<usize, RelayError>(
            RelayError::FrameTooLarge(le_u32(prefix@)),
        ),
{
    let len = (prefix[0] as u32) | ((prefix[1] as u32) << 8u32) | ((prefix[2] as u32) << 16u32) | ((
    prefix[3] as u32) << 24u32);
    if len as usize > MAX_FRAME_SIZE {
        return Err(RelayError::FrameTooLarge(len));
    }
    Ok(len as usize)
}

/// Law: a length prefix written for a frame reads back as the frame's length.
pub proof fn lemma_frame_length_round_trip(len: usize)
    requires
        len <= MAX_FRAME_SIZE,
    ensures
        le_u32(u32_le(len as u32)) == len,
{
    lemma_u32_le_round_trip(len as u32);
}

/// Frames held for one offline peer, oldest first, each with the time (in
/// seconds) it was queued.
pub struct OfflineQueue {
    entries: VecDeque<(u64, Frame)>,
}

impl View for OfflineQueue {
    type V = Seq<(u64, FrameView)>;

    closed spec fn view(&self) -> Seq<(u64, FrameView)> {
        self.entries@.map_values(|e: (u64, Frame)| (e.0, e.1@))
    }
}

/// Whether a frame queued at `queued_at` is still held at time `now`: it has
/// been queued for less than the time to live (clock going backwards counts as
/// no time at all).
pub open spec fn still_fresh(now: u64, queued_at: u64, ttl: u64) -> bool {
    if now >= queued_at {
        now - queued_at < ttl
    } else {
        0 < ttl
    }
}

/// The queue after holding one more frame: the oldest is dropped first when
/// the queue is full.
pub open spec fn queue_push(q: Seq<(u64, FrameView)>, at: u64, f: FrameView) -> Seq<(u64, FrameView)> {
    if q.len() >= OFFLINE_QUEUE_CAPACITY {
        q.drop_first().push((at, f))
    } else {
        q.push((at, f))
    }
}

impl OfflineQueue {
    pub fn new() -> (q: Self)
        ensures
            q@ == Seq::<(u64, FrameView)>::empty(),
    {
        let q = OfflineQueue { entries: VecDeque::new() };
        assert(q@ =~= Seq::<(u64, FrameView)>::empty());
        q
    }

    pub fn len(&self) -> (n: usize)
        ensures
            n == self@.len(),
    {
        self.entries.len()
    }

    pub fn is_empty(&self) -> (b: bool)
        ensures
            b == (self@.len() == 0),
    {
        self.entries.len() == 0
    }

    /// Holds `frame`, queued at time `now`, dropping the oldest frame when
    /// `OFFLINE_QUEUE_CAPACITY` frames are already held.
    pub fn push(&mut self, now: u64, frame: Frame)
        ensures
            final(self)@ == queue_push(old(self)@, now, frame@),
    {
        let ghost f = frame@;
        if self.entries.len() >= OFFLINE_QUEUE_CAPACITY {
            let _ = self.entries.pop_front();
        }
        self.entries.push_back((now, frame));
        assert(self@ =~= queue_push(old(self)@, now, f));
    }

    /// Keeps only the frames still fresh at time `now` under time to live `ttl`,
    /// in their order.
    pub fn retain_fresh(&mut self, now: u64, ttl: u64)
        ensures
            final(self)@ == old(self)@.filter(|e: (u64, FrameView)| still_fresh(now, e.0, ttl)),
    {
        let ghost pred = |e: (u64, FrameView)| still_fresh(now, e.0, ttl);
        let ghost start = self@;
        let mut kept: VecDeque<(u64, Frame)> = VecDeque::new();
        while self.entries.len() > 0
            invariant
                pred == (|e: (u64, FrameView)| still_fresh(now, e.0, ttl)),
                start.filter(pred) == kept@.map_values(|e: (u64, Frame)| (e.0, e.1@)) + self@.filter(
                    pred,
                ),
            decreases self.entries@.len(),
        {
            let ghost before = self@;
            let ghost kept_before = kept@.map_values(|e: (u64, Frame)| (e.0, e.1@));
            let (at, frame) = self.entries.pop_front().unwrap();
            let ghost e = (at, frame@);
            assert(before =~= seq![e] + self@);
            proof {
                self@.lemma_filter_prepend(e, pred);
            }
            let fresh = if now >= at {
                now - at < ttl
            } else {
                0 < ttl
            };
            assert(pred(e) == still_fresh(now, at, ttl));
            assert(pred(e) == fresh);
            if fresh {
                kept.push_back((at, frame));
                assert(kept@.map_values(|e: (u64, Frame)| (e.0, e.1@)) =~= kept_before + seq![e]);
            } else {
                assert(kept@.map_values(|e: (u64, Frame)| (e.0, e.1@)) =~= kept_before);
            }
            assert(kept@.map_values(|e: (u64, Frame)| (e.0, e.1@)) + self@.filter(pred) =~= start.filter(pred));
        }
        assert(self@.filter(pred) =~= Seq::<(u64, FrameView)>::empty()) by {
            reveal(Seq::filter);
        }
        self.entries = kept;
        assert(self@ =~= start.filter(pred));
    }

    /// Takes all held frames, oldest first, leaving the queue empty.
    pub fn drain(&mut self) -> (frames: Vec<Frame>)
        ensures
            final(self)@ == Seq::<(u64, FrameView)>::empty(),
            frames@.map_values(|f: Frame| f@) == old(self)@.map_values(|e: (u64, FrameView)| e.1),
    {
        let mut frames: Vec<Frame> = Vec::new();
        let ghost start = self@;
        while self.entries.len() > 0
            invariant
                start.map_values(|e: (u64, FrameView)| e.1) == frames@.map_values(|f: Frame| f@)
                    + self@.map_values(|e: (u64, FrameView)| e.1),
            decreases self.entries@.len(),
        {
            let ghost before = self@;
            let frame = self.entries.pop_front().unwrap().1;
            let ghost fv = frame@;
            frames.push(frame);
            assert(before.map_values(|e: (u64, FrameView)| e.1) =~= seq![fv] + self@.map_values(
                |e: (u64, FrameView)| e.1,
            ));
            assert(frames@.map_values(|f: Frame| f@) + self@.map_values(|e: (u64, FrameView)| e.1)
                =~= start.map_values(|e: (u64, FrameView)| e.1));
        }
        assert(self@ =~= Seq::<(u64, FrameView)>::empty());
        frames
    }
}

/// Law: a queue never holds more than `OFFLINE_QUEUE_CAPACITY` frames, and
/// the frame just held is the newest.
pub proof fn lemma_queue_bounded(q: Seq<(u64, FrameView)>, at: u64, f: FrameView)
    requires
        q.len() <= OFFLINE_QUEUE_CAPACITY,
    ensures
        queue_push(q, at, f).len() <= OFFLINE_QUEUE_CAPACITY,
        queue_push(q, at, f).last() == (at, f),
{
}

} // verus!
