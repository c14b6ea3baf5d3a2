//! Decisions of a peer-to-peer node: what it does with a command from the
//! application and with a request or response from a peer, and which of its
//! own requests still wait for their response.
//!
//! The caller owns the network: it carries out each step and hands back what
//! the network answered. Peers are named by the bytes of their identity and
//! addresses by their text form.

use vstd::prelude::*;
use std::collections::HashMap;
use crate::codec::{MarrowRequest, MarrowResponse};

verus! {

broadcast use vstd::std_specs::hash::group_hash_axioms;

/// What the application asks of the node.
#[derive(Debug)]
pub enum NetworkCommand {
    StartListening { addr: String },
    Dial { peer_id: Vec<u8>, addr: String },
    SendFrame { peer_id: Vec<u8>, data: Vec<u8> },
}

/// What the node hands the application.
#[derive(Debug)]
pub enum NetworkEvent {
    FrameReceived { peer_id: Vec<u8>, data: Vec<u8> },
}

/// The network work a command calls for.
#[derive(Debug)]
pub enum CommandStep {
    /// Listen on `addr` and answer the command with the outcome.
    Listen { addr: String },
    /// Remember `addr` for `peer_id` in the routing table, dial it, and
    /// answer the command with the outcome of the dial.
    Dial { peer_id: Vec<u8>, addr: String },
    /// Send `request` to `peer_id`; its response answers the command.
    SendRequest { peer_id: Vec<u8>, request: MarrowRequest },
}

/// What a peer sent the node.
#[derive(Debug)]
pub enum PeerMessage {
    Request { peer_id: Vec<u8>, request: MarrowRequest },
    Response { request_id: u64, response: MarrowResponse },
}

/// What the node does with a message from a peer.
#[derive(Debug)]
pub enum Reaction<T> {
    /// Hand `event` to the application and answer the peer with `ack`.
    Deliver { event: NetworkEvent, ack: MarrowResponse },
    /// Answer the command that sent the request, through `reply`, with the
    /// response's bytes.
    Complete { reply: T, data: Vec<u8> },
    /// A response nobody waits for (any more): nothing to do.
    Ignore,
}

/// The acknowledgement a node sends for every request it receives.
pub open spec fn ack_bytes() -> Seq<u8> {
    seq![1u8]
}

pub fn plan_command(command: NetworkCommand) -> (step: CommandStep)
    ensures
        match command {
            NetworkCommand::StartListening { addr } => step matches CommandStep::Listen { addr: a }
                && a == addr,
            NetworkCommand::Dial { peer_id, addr } => step matches CommandStep::Dial {
                peer_id: p,
                addr: a,
            } && p == peer_id && a == addr,
            NetworkCommand::SendFrame { peer_id, data } => step matches CommandStep::SendRequest {
                peer_id: p,
                request: r,
            } && p == peer_id && r.0 == data,
        },
{
    match command {
        NetworkCommand::StartListening { addr } => CommandStep::Listen { addr },
        NetworkCommand::Dial { peer_id, addr } => CommandStep::Dial { peer_id, addr },
        NetworkCommand::SendFrame { peer_id, data } => CommandStep::SendRequest {
            peer_id,
            request: MarrowRequest(data),
        },
    }
}

/// The node's requests that wait for a response, each with the handle through
/// which the command that sent it is answered.
pub struct PendingResponses<T> {
    waiting: HashMap<u64, T>,
}

impl<T> View for PendingResponses<T> {
    type V = Map<u64, T>;

    closed spec fn view(&self) -> Map<u64, T> {
        self.waiting@
    }
}

impl<T> PendingResponses<T> {
    pub fn new() -> (p: Self)
        ensures
            p@ == Map::<u64, T>::empty(),
    {
        PendingResponses { waiting: HashMap::new() }
    }

    /// Records that request `request_id` was sent for the command answered
    /// through `reply`.
    pub fn request_sent(&mut self, request_id: u64, reply: T)
        ensures
            final(self)@ == old(self)@.insert(request_id, reply),
    {
        self.waiting.insert(request_id, reply);
    }

    /// Whether request `request_id` waits for its response.
    pub fn is_waiting(&self, request_id: u64) -> (b: bool)
        ensures
            b == self@.contains_key(request_id),
    {
        self.waiting.contains_key(&request_id)
    }

    /// What the node does with `message`: a request is handed to the
    /// application and acknowledged; a response answers the command waiting
    /// for it, which then waits no more; a response nobody waits for is
    /// ignored.
    pub fn react(&mut self, message: PeerMessage) -> (r: Reaction<T>)
        ensures
            match message {
                PeerMessage::Request { peer_id, request } => {
                    &&& final(self)@ == old(self)@
                    &&& r matches Reaction::Deliver { event, ack }
                    &&& event matches NetworkEvent::FrameReceived { peer_id: p, data }
                    &&& p == peer_id
                    &&& data == request.0
                    &&& ack.0@ == ack_bytes()
                },
                PeerMessage::Response { request_id, response } => if old(self)@.contains_key(request_id) {
                    &&& final(self)@ == old(self)@.remove(request_id)
                    &&& r matches Reaction::Complete { reply, data }
                    &&& reply == old(self)@[request_id]
                    &&& data == response.0
                } else {
                    &&& final(self)@ == old(self)@
                    &&& r is Ignore
                },
            },
    {
        match message {
            PeerMessage::Request { peer_id, request } => Reaction::Deliver {
                event: NetworkEvent::FrameReceived { peer_id, data: request.0 },
                ack: MarrowResponse(vec![1u8]),
            },
            PeerMessage::Response { request_id, response } => match self.waiting.remove(&request_id) {
                Some(reply) => Reaction::Complete { reply, data: response.0 },
                None => Reaction::Ignore,
            },
        }
    }
}

} // verus!
