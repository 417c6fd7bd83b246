//! The shapes of the messages that nodes exchange.

use vstd::prelude::*;
use crate::id::{Cookie, NodeId};
use crate::node::Node;
use crate::values::values_view;

verus! {

/// Asks a peer whether it is alive.
#[derive(Clone, Debug, PartialEq, Eq)]
pub struct Ping {
    pub sender_id: Option<NodeId>,
    pub cookie: Cookie,
}

/// Answers a `Ping`.
#[derive(Clone, Debug, PartialEq, Eq)]
pub struct Pong {
    pub sender_id: Option<NodeId>,
    pub cookie: Cookie,
}

/// Asks for the peers nearest to `key`.
#[derive(Clone, Debug, PartialEq, Eq)]
pub struct FindNode {
    pub sender_id: Option<NodeId>,
    pub cookie: Cookie,
    pub key: NodeId,
}

/// Answers with the nearest peers that the sender knows.
#[derive(Clone, Debug, PartialEq, Eq)]
pub struct FoundNode {
    pub sender_id: Option<NodeId>,
    pub cookie: Cookie,
    pub nodes: Vec<Node>,
}

/// Asks for the values stored under `key`.
#[derive(Clone, Debug, PartialEq, Eq)]
pub struct FindValue {
    pub sender_id: Option<NodeId>,
    pub cookie: Cookie,
    pub key: NodeId,
}

/// Answers with the values that the sender holds.
#[derive(Clone, Debug, PartialEq, Eq)]
pub struct FoundValue {
    pub sender_id: Option<NodeId>,
    pub cookie: Cookie,
    pub values: Vec<Vec<u8>>,
}

/// Asks a peer to hold `value` under `key` for a while.
#[derive(Clone, Debug, PartialEq, Eq)]
pub struct Store {
    pub sender_id: Option<NodeId>,
    pub cookie: Cookie,
    pub key: NodeId,
    pub value: Vec<u8>,
}

/// A message between nodes, or the local mark that a request went
/// unanswered.
#[derive(Clone, Debug, PartialEq, Eq)]
pub enum Message {
    Ping(Ping),
    Pong(Pong),
    FindNode(FindNode),
    FoundNode(FoundNode),
    FindValue(FindValue),
    FoundValue(FoundValue),
    Store(Store),
    Timeout,
}

/// What a message says.
pub enum MessageView {
    Ping { sender_id: Option<NodeId>, cookie: Cookie },
    Pong { sender_id: Option<NodeId>, cookie: Cookie },
    FindNode { sender_id: Option<NodeId>, cookie: Cookie, key: NodeId },
    FoundNode { sender_id: Option<NodeId>, cookie: Cookie, nodes: Seq<Node> },
    FindValue { sender_id: Option<NodeId>, cookie: Cookie, key: NodeId },
    FoundValue { sender_id: Option<NodeId>, cookie: Cookie, values: Seq<Seq<u8>> },
    Store { sender_id: Option<NodeId>, cookie: Cookie, key: NodeId, value: Seq<u8> },
    Timeout,
}

impl MessageView {
    /// Who says to have sent the message; `Timeout` has no sender.
    pub open spec fn sender(self) -> Option<NodeId> {
        match self {
            MessageView::Ping { sender_id, .. } => sender_id,
            MessageView::Pong { sender_id, .. } => sender_id,
            MessageView::FindNode { sender_id, .. } => sender_id,
            MessageView::FoundNode { sender_id, .. } => sender_id,
            MessageView::FindValue { sender_id, .. } => sender_id,
            MessageView::FoundValue { sender_id, .. } => sender_id,
            MessageView::Store { sender_id, .. } => sender_id,
            MessageView::Timeout => None,
        }
    }

    /// The cookie of the exchange; `Timeout` has none.
    pub open spec fn exchange(self) -> Option<Cookie> {
        match self {
            MessageView::Ping { cookie, .. } => Some(cookie),
            MessageView::Pong { cookie, .. } => Some(cookie),
            MessageView::FindNode { cookie, .. } => Some(cookie),
            MessageView::FoundNode { cookie, .. } => Some(cookie),
            MessageView::FindValue { cookie, .. } => Some(cookie),
            MessageView::FoundValue { cookie, .. } => Some(cookie),
            MessageView::Store { cookie, .. } => Some(cookie),
            MessageView::Timeout => None,
        }
    }
}

impl View for Message {
    type V = MessageView;

    open spec fn view(&self) -> MessageView {
        match *self {
            Message::Ping(m) => MessageView::Ping { sender_id: m.sender_id, cookie: m.cookie },
            Message::Pong(m) => MessageView::Pong { sender_id: m.sender_id, cookie: m.cookie },
            Message::FindNode(m) => MessageView::FindNode {
                sender_id: m.sender_id,
                cookie: m.cookie,
                key: m.key,
            },
            Message::FoundNode(m) => MessageView::FoundNode {
                sender_id: m.sender_id,
                cookie: m.cookie,
                nodes: m.nodes@,
            },
            Message::FindValue(m) => MessageView::FindValue {
                sender_id: m.sender_id,
                cookie: m.cookie,
                key: m.key,
            },
            Message::FoundValue(m) => MessageView::FoundValue {
                sender_id: m.sender_id,
                cookie: m.cookie,
                values: values_view(m.values@),
            },
            Message::Store(m) => MessageView::Store {
                sender_id: m.sender_id,
                cookie: m.cookie,
                key: m.key,
                value: m.value@,
            },
            Message::Timeout => MessageView::Timeout,
        }
    }
}

/// What an optional message says.
pub open spec fn optional_view(m: Option<Message>) -> Option<MessageView> {
    match m {
        Some(m) => Some(m@),
        None => None,
    }
}

impl Message {
    /// Who says to have sent the message; `Timeout` has no sender.
    pub fn sender_id(&self) -> (r: Option<NodeId>)
        ensures
            r == self@.sender(),
    {
        match self {
            Message::Ping(m) => m.sender_id,
            Message::Pong(m) => m.sender_id,
            Message::FindNode(m) => m.sender_id,
            Message::FoundNode(m) => m.sender_id,
            Message::FindValue(m) => m.sender_id,
            Message::FoundValue(m) => m.sender_id,
            Message::Store(m) => m.sender_id,
            Message::Timeout => None,
        }
    }

    /// The cookie of the exchange; `Timeout` has none.
    pub fn cookie(&self) -> (r: Option<Cookie>)
        ensures
            r == self@.exchange(),
    {
        match self {
            Message::Ping(m) => Some(m.cookie),
            Message::Pong(m) => Some(m.cookie),
            Message::FindNode(m) => Some(m.cookie),
            Message::FoundNode(m) => Some(m.cookie),
            Message::FindValue(m) => Some(m.cookie),
            Message::FoundValue(m) => Some(m.cookie),
            Message::Store(m) => Some(m.cookie),
            Message::Timeout => None,
        }
    }
}

} // verus!
