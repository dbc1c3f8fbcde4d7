//! Link identities: the handles under which a node knows its interfaces.
use vstd::prelude::*;

verus! {

/// The path back to whoever last sent on a link.
#[derive(Clone, Copy, Debug, PartialEq, Eq, Hash, Structural)]
pub enum ReplyTo {
    /// An in-process channel: there is only one peer to answer.
    Mpsc,
    /// A datagram peer, by host address and port.
    UdpIp { host: u128, port: u16 },
    /// A radio peer, by frequency.
    Rf(u32),
}

/// The identity of one link of the node.
#[derive(Clone, Copy, Debug, PartialEq, Eq, Hash, Structural)]
pub struct LinkId {
    /// The handle that tells the links of one node apart.
    pub lookup_id: u32,
    /// The process identity: two handles with the same one stand for the
    /// same underlying peer connection.
    pub link_pid: u64,
    /// The return path of the link.
    pub reply_to: ReplyTo,
}

impl LinkId {
    /// A link handle made of its three parts.
    pub fn new(lookup_id: u32, link_pid: u64, reply_to: ReplyTo) -> (link: LinkId)
        ensures
            link == (LinkId { lookup_id, link_pid, reply_to }),
    {
        LinkId { lookup_id, link_pid, reply_to }
    }

    /// The handle that tells the links of one node apart.
    pub fn lookup_id(&self) -> (id: u32)
        ensures
            id == self.lookup_id,
    {
        self.lookup_id
    }

    /// The process identity of the link.
    pub fn link_pid(&self) -> (pid: u64)
        ensures
            pid == self.link_pid,
    {
        self.link_pid
    }

    /// The return path of the link.
    pub fn reply_to(&self) -> (path: ReplyTo)
        ensures
            path == self.reply_to,
    {
        self.reply_to
    }

    /// Whether two handles stand for the same underlying peer connection.
    pub open spec fn same_peer(self, other: LinkId) -> bool {
        self.link_pid == other.link_pid
    }

    /// Tells whether two handles stand for the same underlying peer
    /// connection.
    pub fn shares_peer(&self, other: &LinkId) -> (same: bool)
        ensures
            same == self.same_peer(*other),
    {
        self.link_pid == other.link_pid
    }
}

} // verus!
