//! What a client handle decides while it waits for the client: whether an
//! event is the one it waits for, and how long it may still wait.

use crate::header::Header;
use crate::uint256::U256;
use vstd::prelude::*;

verus! {

/// The address of a peer: an IP address, as a number, and a port.
#[derive(Clone, Copy, Debug, PartialEq, Eq, Structural)]
pub struct PeerAddr {
    /// Whether the address is an IPv4 address.
    pub v4: bool,
    /// The address as a number, most significant byte first.
    pub ip: u128,
    /// The port.
    pub port: u16,
}

/// The direction of a connection.
#[derive(Clone, Copy, Debug, PartialEq, Eq, Structural)]
pub enum Link {
    /// The peer connected to us.
    Inbound,
    /// We connected to the peer.
    Outbound,
}

/// What the client reports to its handles.
#[derive(Clone, Debug, PartialEq, Eq)]
pub enum Event {
    /// A peer connected.
    Connected { addr: PeerAddr, link: Link },
    /// A peer disconnected.
    Disconnected { addr: PeerAddr },
    /// The best chain has a new tip. Where the chain was reorganised,
    /// `reverted` holds the headers that left it, highest first.
    TipChanged { hash: U256, height: u64, reverted: Vec<Header> },
    /// No connected peer is ahead of the best chain.
    Synced { hash: U256, height: u64 },
    /// A block arrived.
    BlockReceived { hash: U256 },
    /// Anything else.
    Other,
}

/// An event as a mathematical value.
pub enum EventView {
    /// A peer connected.
    Connected { addr: PeerAddr, link: Link },
    /// A peer disconnected.
    Disconnected { addr: PeerAddr },
    /// The best chain has a new tip.
    TipChanged { hash: U256, height: u64, reverted: Seq<Header> },
    /// No connected peer is ahead of the best chain.
    Synced { hash: U256, height: u64 },
    /// A block arrived.
    BlockReceived { hash: U256 },
    /// Anything else.
    Other,
}

impl View for Event {
    type V = EventView;

    open spec fn view(&self) -> EventView {
        match *self {
            Event::Connected { addr, link } => EventView::Connected { addr, link },
            Event::Disconnected { addr } => EventView::Disconnected { addr },
            Event::TipChanged { hash, height, reverted } => EventView::TipChanged {
                hash,
                height,
                reverted: reverted@,
            },
            Event::Synced { hash, height } => EventView::Synced { hash, height },
            Event::BlockReceived { hash } => EventView::BlockReceived { hash },
            Event::Other => EventView::Other,
        }
    }
}

/// The events as mathematical values.
pub open spec fn spec_views(events: Seq<Event>) -> Seq<EventView> {
    Seq::new(events.len(), |i: int| events[i]@)
}

impl PeerAddr {
    /// The address is the one that stands for any address.
    pub open spec fn spec_is_unspecified(self) -> bool {
        self.ip == 0
    }

    /// An event about the address `seen` answers a command about `self`:
    /// the two are the same, or `self` names no address and the ports are
    /// the same.
    pub open spec fn spec_matches(self, seen: PeerAddr) -> bool {
        seen == self || (self.spec_is_unspecified() && seen.port == self.port)
    }

    /// Whether the address is the one that stands for any address.
    pub fn is_unspecified(&self) -> (r: bool)
        ensures
            r == self.spec_is_unspecified(),
    {
        self.ip == 0
    }

    /// Whether an event about the address `seen` answers a command about
    /// `self`.
    pub fn matches(&self, seen: &PeerAddr) -> (r: bool)
        ensures
            r == self.spec_matches(*seen),
    {
        *seen == *self || (self.is_unspecified() && seen.port == self.port)
    }
}

/// The time that is left to wait when `elapsed` of `timeout` has passed;
/// `None` where more than `timeout` has passed.
pub fn remaining(timeout: u64, elapsed: u64) -> (r: Option<u64>)
    ensures
        r == if elapsed <= timeout {
            Some((timeout - elapsed) as u64)
        } else {
            None
        },
{
    if elapsed <= timeout {
        Some(timeout - elapsed)
    } else {
        None
    }
}

/// The link of the connection that a handle waits for after a command to
/// connect to `addr`, where the event reports it.
pub fn match_connected(event: &Event, addr: &PeerAddr) -> (r: Option<Link>)
    ensures
        r == match event@ {
            EventView::Connected { addr: seen, link } => if addr.spec_matches(seen) {
                Some(link)
            } else {
                None
            },
            _ => None,
        },
{
    match event {
        Event::Connected { addr: seen, link } => if addr.matches(seen) {
            Some(*link)
        } else {
            None
        },
        _ => None,
    }
}

/// Whether the event reports the disconnection that a handle waits for
/// after a command to disconnect from `addr`.
pub fn match_disconnected(event: &Event, addr: &PeerAddr) -> (r: bool)
    ensures
        r == match event@ {
            EventView::Disconnected { addr: seen } => addr.spec_matches(seen),
            _ => false,
        },
{
    match event {
        Event::Disconnected { addr: seen } => addr.matches(seen),
        _ => false,
    }
}

/// Whether the event reports the block with the given hash.
pub fn match_block(event: &Event, hash: &U256) -> (r: bool)
    ensures
        r == (event@ == EventView::BlockReceived { hash: *hash }),
{
    match event {
        Event::BlockReceived { hash: seen } => *seen == *hash,
        _ => false,
    }
}

/// Whether the event reports that the client is synced.
pub fn match_ready(event: &Event) -> (r: bool)
    ensures
        r == (event@ is Synced),
{
    match event {
        Event::Synced { hash: _, height: _ } => true,
        _ => false,
    }
}

/// The hash of the new tip, where the event reports a tip at the given
/// height.
pub fn match_height(event: &Event, height: u64) -> (r: Option<U256>)
    ensures
        r == match event@ {
            EventView::TipChanged { hash, height: seen, reverted } => if seen == height {
                Some(hash)
            } else {
                None
            },
            _ => None,
        },
{
    match event {
        Event::TipChanged { hash, height: seen, reverted: _ } => if *seen == height {
            Some(*hash)
        } else {
            None
        },
        _ => None,
    }
}

/// Whether the event makes the number of peers that it reports as
/// connected equal to `count`. An event reports at most one peer, so this
/// holds of a connection where `count` is one, and of nothing else.
pub fn match_peers(event: &Event, count: usize) -> (r: bool)
    ensures
        r == (event@ is Connected && count == 1),
{
    match event {
        Event::Connected { addr: _, link: _ } => count == 1,
        _ => false,
    }
}

} // verus!
