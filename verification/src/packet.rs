//! Packets, and packets tagged with the link they travel on.
use crate::address::HBFI;
use crate::link::{LinkId, ReplyTo};
use vstd::prelude::*;

verus! {

/// The packet every link carries: a request for an address, or the reply to
/// one.
#[derive(Debug, PartialEq, Eq)]
pub enum NarrowWaistPacket {
    /// Asks for the content named by `hbfi`.
    Request { hbfi: HBFI },
    /// Carries the content named by `hbfi`.
    Response { hbfi: HBFI, data: Vec<u8> },
}

/// What a [`NarrowWaistPacket`] holds, as a mathematical value.
pub enum NarrowWaist {
    Request { hbfi: HBFI },
    Response { hbfi: HBFI, data: Seq<u8> },
}

impl NarrowWaist {
    /// The address the packet names.
    pub open spec fn hbfi(self) -> HBFI {
        match self {
            NarrowWaist::Request { hbfi } => hbfi,
            NarrowWaist::Response { hbfi, .. } => hbfi,
        }
    }
}

impl View for NarrowWaistPacket {
    type V = NarrowWaist;

    open spec fn view(&self) -> NarrowWaist {
        match *self {
            NarrowWaistPacket::Request { hbfi } => NarrowWaist::Request { hbfi },
            NarrowWaistPacket::Response { hbfi, data } => NarrowWaist::Response {
                hbfi,
                data: data@,
            },
        }
    }
}

impl Clone for NarrowWaistPacket {
    fn clone(&self) -> (copy: Self)
        ensures
            copy@ == self@,
    {
        match self {
            NarrowWaistPacket::Request { hbfi } => NarrowWaistPacket::Request { hbfi: *hbfi },
            NarrowWaistPacket::Response { hbfi, data } => {
                let bytes: Vec<u8> = data.clone();
                assert(bytes@ =~= data@);
                NarrowWaistPacket::Response { hbfi: *hbfi, data: bytes }
            },
        }
    }
}

impl NarrowWaistPacket {
    /// A request for `hbfi`.
    pub fn request(hbfi: HBFI) -> (nw: NarrowWaistPacket)
        ensures
            nw@ == (NarrowWaist::Request { hbfi }),
    {
        NarrowWaistPacket::Request { hbfi }
    }

    /// A reply that carries `data` for `hbfi`.
    pub fn response(hbfi: HBFI, data: Vec<u8>) -> (nw: NarrowWaistPacket)
        ensures
            nw@ == (NarrowWaist::Response { hbfi, data: data@ }),
    {
        NarrowWaistPacket::Response { hbfi, data }
    }

    /// The address the packet names.
    pub fn hbfi(&self) -> (hbfi: HBFI)
        ensures
            hbfi == self@.hbfi(),
    {
        match self {
            NarrowWaistPacket::Request { hbfi } => *hbfi,
            NarrowWaistPacket::Response { hbfi, .. } => *hbfi,
        }
    }
}

/// A packet as a link sends it: with the return path of its sender.
#[derive(Debug, PartialEq, Eq)]
pub struct LinkPacket {
    pub reply_to: ReplyTo,
    pub nw: NarrowWaistPacket,
}

/// What a [`LinkPacket`] holds, as a mathematical value.
pub struct LinkPacketView {
    pub reply_to: ReplyTo,
    pub nw: NarrowWaist,
}

impl View for LinkPacket {
    type V = LinkPacketView;

    open spec fn view(&self) -> LinkPacketView {
        LinkPacketView { reply_to: self.reply_to, nw: self.nw@ }
    }
}

impl Clone for LinkPacket {
    fn clone(&self) -> (copy: Self)
        ensures
            copy@ == self@,
    {
        LinkPacket { reply_to: self.reply_to, nw: self.nw.clone() }
    }
}

impl LinkPacket {
    /// A packet with the return path of its sender.
    pub fn new(reply_to: ReplyTo, nw: NarrowWaistPacket) -> (lp: LinkPacket)
        ensures
            lp@ == (LinkPacketView { reply_to, nw: nw@ }),
    {
        LinkPacket { reply_to, nw }
    }

    /// The return path of the sender.
    pub fn reply_to(&self) -> (path: ReplyTo)
        ensures
            path == self@.reply_to,
    {
        self.reply_to
    }

    /// A copy of the packet inside.
    pub fn narrow_waist(&self) -> (nw: NarrowWaistPacket)
        ensures
            nw@ == self@.nw,
    {
        self.nw.clone()
    }
}

/// A routed packet: a link packet and the link it arrived on or leaves by.
#[derive(Debug, PartialEq, Eq)]
pub struct InterLinkPacket {
    pub link_id: LinkId,
    pub lp: LinkPacket,
}

/// What an [`InterLinkPacket`] holds, as a mathematical value.
pub struct InterLink {
    pub link_id: LinkId,
    pub lp: LinkPacketView,
}

impl InterLink {
    /// The same packet addressed to the link `link_id`.
    pub open spec fn change_destination(self, link_id: LinkId) -> InterLink {
        InterLink { link_id, lp: self.lp }
    }

    /// The address the packet names.
    pub open spec fn hbfi(self) -> HBFI {
        self.lp.nw.hbfi()
    }
}

impl View for InterLinkPacket {
    type V = InterLink;

    open spec fn view(&self) -> InterLink {
        InterLink { link_id: self.link_id, lp: self.lp@ }
    }
}

impl Clone for InterLinkPacket {
    fn clone(&self) -> (copy: Self)
        ensures
            copy@ == self@,
    {
        InterLinkPacket { link_id: self.link_id, lp: self.lp.clone() }
    }
}

impl InterLinkPacket {
    /// Tags a link packet with a link.
    pub fn new(link_id: LinkId, lp: LinkPacket) -> (ilp: InterLinkPacket)
        ensures
            ilp@ == (InterLink { link_id, lp: lp@ }),
    {
        InterLinkPacket { link_id, lp }
    }

    /// The link the packet arrived on or leaves by.
    pub fn link_id(&self) -> (link_id: LinkId)
        ensures
            link_id == self@.link_id,
    {
        self.link_id
    }

    /// The return path of the sender.
    pub fn reply_to(&self) -> (path: ReplyTo)
        ensures
            path == self@.lp.reply_to,
    {
        self.lp.reply_to
    }

    /// A copy of the packet inside.
    pub fn narrow_waist(&self) -> (nw: NarrowWaistPacket)
        ensures
            nw@ == self@.lp.nw,
    {
        self.lp.nw.clone()
    }

    /// A copy of the packet addressed to the link `link_id`.
    pub fn change_destination(&self, link_id: LinkId) -> (ilp: InterLinkPacket)
        ensures
            ilp@ == self@.change_destination(link_id),
    {
        InterLinkPacket { link_id, lp: self.lp.clone() }
    }
}

} // verus!
