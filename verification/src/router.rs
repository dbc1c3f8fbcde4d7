//! The forwarding engine: what a node does with one arriving packet.
//!
//! The engine takes the packet, tagged with the link it arrived on, and the
//! state of the node: the interest state of every registered link and the
//! link classifier. It changes that state and says what is to be done: the
//! reply to be written to the cache, if any, and the packets to be sent, in
//! order. Reading and writing the cache and sending are left to the caller.
//!
//! A request that the cache cannot answer floods by priority: every link
//! that it may be forwarded to gets a copy, the best ranked first. The
//! engine does not stop after the first link, and it does not look at the
//! sign of a weight.
//!
//! The engine works on the state by exclusive reference, so that two packets
//! are never handled at once on the same state: what the engine reads of a
//! mark is still true when it acts on it.
use crate::address::HBFI;
use crate::bayes::{ranking, trained, Bayes, LinkWeight, Model, SUPER_TRAIN_STEP, TRAIN_STEP};
use crate::codec::{
    address_bytes, deserialize_narrow_waist_packet, packet_bytes, parse_packet, serialize_hbfi,
    serialize_narrow_waist_packet, DecodeError,
};
use crate::bloom_filter::BloomsView;
use crate::guarantees::{lemma_no_self_loop, lemma_relay_ignores_arrival};
use crate::keyed::{
    lemma_position_unique, lemma_with_state_keeps_links, registered, state_of, with_state,
};
use crate::link::LinkId;
use crate::link_table::{LinkTable, Links};
use crate::packet::{
    InterLink, InterLinkPacket, LinkPacket, LinkPacketView, NarrowWaist, NarrowWaistPacket,
};
use crate::threat::{severity, severity_of, ThreatAction, ThreatBand};
use vstd::prelude::*;

verus! {

/// Why the engine could not handle a packet.
#[derive(Clone, Copy, Debug, PartialEq, Eq, Structural)]
pub enum RouterError {
    /// What the cache holds for the address is not the encoding of a packet.
    Malformed(DecodeError),
    /// What the cache holds for the address is the encoding of a request.
    NotAResponse,
}

/// A reply to be written to the cache: the encoded address as key, the
/// encoded reply as value.
#[derive(Debug, PartialEq, Eq)]
pub struct CacheEntry {
    pub key: Vec<u8>,
    pub value: Vec<u8>,
}

/// What is to be done after a packet was handled.
#[derive(Debug, PartialEq, Eq)]
pub struct Dispatch {
    /// The reply that goes to the cache, before anything is sent. It is
    /// what [`Router::cache_entry`] gave before the packet was handled.
    pub store: Option<CacheEntry>,
    /// The packets to be sent, in this order.
    pub outbound: Vec<InterLinkPacket>,
    /// The band of the threat check, where the classifier ranked the link
    /// that must not be forwarded to first.
    pub threat: Option<ThreatBand>,
}

/// What a [`Dispatch`] holds, as a mathematical value.
pub struct DispatchView {
    pub store: Option<(Seq<u8>, Seq<u8>)>,
    pub outbound: Seq<InterLink>,
    pub threat: Option<ThreatBand>,
}

/// The packets of a list, as mathematical values.
pub open spec fn packets(list: Seq<InterLinkPacket>) -> Seq<InterLink> {
    list.map_values(|p: InterLinkPacket| p@)
}

impl View for Dispatch {
    type V = DispatchView;

    open spec fn view(&self) -> DispatchView {
        DispatchView {
            store: match self.store {
                Some(entry) => Some((entry.key@, entry.value@)),
                None => None,
            },
            outbound: packets(self.outbound@),
            threat: self.threat,
        }
    }
}

/// The state of the node after a packet was handled, and what is to be done.
pub struct Step {
    pub dispatch: DispatchView,
    pub table: Links,
    pub model: Model,
}

/// Nothing is to be done.
pub open spec fn nothing() -> DispatchView {
    DispatchView { store: None, outbound: Seq::empty(), threat: None }
}

/// The reply to a request that is answered from the cache: the cached reply
/// on the link the request came by, along that link's return path.
pub open spec fn cached_reply(ilp: InterLink, reply: NarrowWaist) -> InterLink {
    InterLink {
        link_id: ilp.link_id,
        lp: LinkPacketView { reply_to: ilp.link_id.reply_to, nw: reply },
    }
}

/// Whether a request that came by `arrival` is forwarded to the link `that`:
/// the link is not the one that must not be forwarded to, does not stand for
/// the peer the request came from, is registered, and shows the address
/// neither as forwarded nor as pending.
pub open spec fn forwards_to(
    table: Links,
    arrival: LinkId,
    hbfi: HBFI,
    choke: LinkId,
    that: LinkId,
) -> bool {
    &&& that != choke
    &&& !that.same_peer(arrival)
    &&& registered(table, that)
    &&& !state_of(table, that).contains_forwarded(hbfi)
    &&& !state_of(table, that).contains_pending(hbfi)
}

/// The table after a request was forwarded along a ranking: every link that
/// was forwarded to shows the address as forwarded.
pub open spec fn fan_out_table(
    ranked: Seq<LinkWeight>,
    table: Links,
    ilp: InterLink,
    choke: LinkId,
) -> Links
    decreases ranked.len(),
{
    if ranked.len() == 0 {
        table
    } else {
        let before = fan_out_table(ranked.drop_last(), table, ilp, choke);
        let that = ranked.last().linkid;
        if forwards_to(before, ilp.link_id, ilp.hbfi(), choke, that) {
            with_state(before, that, state_of(before, that).create_forwarded(ilp.hbfi()))
        } else {
            before
        }
    }
}

/// The copies of a request that are sent when it is forwarded along a
/// ranking: one to every link of the ranking that is forwarded to, in the
/// order of the ranking. Whether a link is forwarded to is decided when its
/// turn comes, on the table as the links before it have left it.
pub open spec fn fan_out_sent(
    ranked: Seq<LinkWeight>,
    table: Links,
    ilp: InterLink,
    choke: LinkId,
) -> Seq<InterLink>
    decreases ranked.len(),
{
    if ranked.len() == 0 {
        Seq::empty()
    } else {
        let before = fan_out_table(ranked.drop_last(), table, ilp, choke);
        let sent = fan_out_sent(ranked.drop_last(), table, ilp, choke);
        let that = ranked.last().linkid;
        if forwards_to(before, ilp.link_id, ilp.hbfi(), choke, that) {
            sent.push(ilp.change_destination(that))
        } else {
            sent
        }
    }
}

/// Whether a registered link waits for the reply that came by `arrival`: it
/// does not stand for the peer the reply came from, and shows the address as
/// pending.
pub open spec fn awaits(entry: (LinkId, BloomsView), arrival: LinkId, hbfi: HBFI) -> bool {
    !entry.0.same_peer(arrival) && entry.1.contains_pending(hbfi)
}

/// The registered links that wait for a reply, in the order of the table.
pub open spec fn waiting(table: Links, arrival: LinkId, hbfi: HBFI) -> Links {
    table.filter(|entry: (LinkId, BloomsView)| awaits(entry, arrival, hbfi))
}

/// The copies of a reply that are sent when it is relayed: one to every link
/// that waits for it, in the order of the table.
pub open spec fn relay_sent(table: Links, ilp: InterLink) -> Seq<InterLink> {
    waiting(table, ilp.link_id, ilp.hbfi()).map_values(
        |entry: (LinkId, BloomsView)| ilp.change_destination(entry.0),
    )
}

/// The table after a reply was relayed: every link that waited for it has
/// one pending mark of the address less.
pub open spec fn relay_table(table: Links, arrival: LinkId, hbfi: HBFI) -> Links {
    table.map_values(
        |entry: (LinkId, BloomsView)|
            if awaits(entry, arrival, hbfi) {
                (entry.0, entry.1.delete_pending(hbfi))
            } else {
                entry
            },
    )
}

/// The band of the threat check for a ranking: the band of the severity of
/// the first weight, where the first link is the one that must not be
/// forwarded to.
pub open spec fn threat_of(ranked: Seq<LinkWeight>, choke: LinkId) -> Option<ThreatBand> {
    if ranked.len() > 0 && ranked[0].linkid == choke {
        Some(ThreatBand::of(severity_of(ranked[0].weight)))
    } else {
        None
    }
}

/// Whether the threat check has a request dropped: it found a band, and
/// what is done about that band is to drop.
pub open spec fn drops(threat: Option<ThreatBand>) -> bool {
    threat matches Some(band) && band.action() == ThreatAction::Drop
}

/// What the node does with a request that the cache cannot answer. The
/// arrival link shows the address as pending; the classifier ranks the known
/// links and is then trained towards the link that must not be forwarded to;
/// unless the threat check drops the request, it is forwarded along the
/// ranking.
pub open spec fn request_miss(
    ilp: InterLink,
    table: Links,
    model: Model,
    choke: LinkId,
) -> Step {
    let hbfi = ilp.hbfi();
    let marked = with_state(
        table,
        ilp.link_id,
        state_of(table, ilp.link_id).create_pending(hbfi),
    );
    let ranked = ranking(model, hbfi.features());
    let threat = threat_of(ranked, choke);
    let taught = trained(model, hbfi.features(), choke, TRAIN_STEP);
    if drops(threat) {
        Step {
            dispatch: DispatchView { store: None, outbound: Seq::empty(), threat },
            table: marked,
            model: taught,
        }
    } else {
        Step {
            dispatch: DispatchView {
                store: None,
                outbound: fan_out_sent(ranked, marked, ilp, choke),
                threat,
            },
            table: fan_out_table(ranked, marked, ilp, choke),
            model: taught,
        }
    }
}

/// What the node does with a reply. A reply that was not asked for on the
/// arrival link is dropped. Otherwise it goes to the cache, the classifier
/// is trained towards the arrival link as on a confirmed decision, the
/// arrival link loses one forwarded mark of the address, and the reply is
/// relayed to every link that waits for it.
pub open spec fn response(ilp: InterLink, table: Links, model: Model) -> Step {
    let hbfi = ilp.hbfi();
    if !state_of(table, ilp.link_id).contains_forwarded(hbfi) {
        Step { dispatch: nothing(), table, model }
    } else {
        let cleared = with_state(
            table,
            ilp.link_id,
            state_of(table, ilp.link_id).delete_forwarded(hbfi),
        );
        Step {
            dispatch: DispatchView {
                store: Some((address_bytes(hbfi), packet_bytes(ilp.lp.nw))),
                outbound: relay_sent(cleared, ilp),
                threat: None,
            },
            table: relay_table(cleared, ilp.link_id, hbfi),
            model: trained(model, hbfi.features(), ilp.link_id, SUPER_TRAIN_STEP),
        }
    }
}

/// What the node does with a request that the cache answers with `bytes`.
pub open spec fn request_hit(ilp: InterLink, bytes: Seq<u8>) -> Result<DispatchView, RouterError> {
    match parse_packet(bytes) {
        Ok(NarrowWaist::Response { hbfi, data }) => Ok(
            DispatchView {
                store: None,
                outbound: seq![cached_reply(ilp, NarrowWaist::Response { hbfi, data })],
                threat: None,
            },
        ),
        Ok(NarrowWaist::Request { .. }) => Err(RouterError::NotAResponse),
        Err(e) => Err(RouterError::Malformed(e)),
    }
}

/// What the node does with a packet: the state it is left in and what is to
/// be done, or the error. `cached` is what the cache holds under the
/// encoded address of a request; it plays no part for a reply, nor for a
/// packet from a link that is not registered, which is ignored.
pub open spec fn dispatch(
    ilp: InterLink,
    cached: Option<Seq<u8>>,
    table: Links,
    model: Model,
    choke: LinkId,
) -> Result<Step, RouterError> {
    if !registered(table, ilp.link_id) {
        Ok(Step { dispatch: nothing(), table, model })
    } else {
        match ilp.lp.nw {
            NarrowWaist::Request { .. } => match cached {
                Some(bytes) => match request_hit(ilp, bytes) {
                    Ok(dispatch) => Ok(Step { dispatch, table, model }),
                    Err(e) => Err(e),
                },
                None => Ok(request_miss(ilp, table, model, choke)),
            },
            NarrowWaist::Response { .. } => Ok(response(ilp, table, model)),
        }
    }
}

/// The key under which the cache is to be asked before a packet is handled:
/// the encoded address of a request that came by a registered link.
pub open spec fn probe_of(ilp: InterLink, table: Links) -> Option<Seq<u8>> {
    if registered(table, ilp.link_id) && ilp.lp.nw is Request {
        Some(address_bytes(ilp.hbfi()))
    } else {
        None
    }
}

/// The entry that goes to the cache when a packet is handled: the encoded
/// reply under its encoded address, for a reply that came by a registered
/// link which shows its address as forwarded, and nothing for any other
/// packet.
pub open spec fn entry_of(ilp: InterLink, table: Links) -> Option<(Seq<u8>, Seq<u8>)> {
    if registered(table, ilp.link_id) && ilp.lp.nw is Response && state_of(
        table,
        ilp.link_id,
    ).contains_forwarded(ilp.hbfi()) {
        Some((address_bytes(ilp.hbfi()), packet_bytes(ilp.lp.nw)))
    } else {
        None
    }
}

/// The view of what the cache gave.
pub open spec fn bytes_of(cached: Option<Vec<u8>>) -> Option<Seq<u8>> {
    match cached {
        Some(bytes) => Some(bytes@),
        None => None,
    }
}

/// The forwarding engine.
#[derive(Clone, Copy, Debug)]
pub struct Router {}

impl Router {
    /// The key under which the cache is to be asked before the packet is
    /// handled, if it is to be asked at all.
    pub fn cache_probe(ilp: &InterLinkPacket, blooms: &LinkTable) -> (key: Option<Vec<u8>>)
        ensures
            bytes_of(key) == probe_of(ilp@, blooms@),
    {
        match &ilp.lp.nw {
            NarrowWaistPacket::Request { hbfi } => {
                if blooms.contains_key(&ilp.link_id) {
                    Some(serialize_hbfi(hbfi))
                } else {
                    None
                }
            },
            NarrowWaistPacket::Response { .. } => None,
        }
    }

    /// The entry that goes to the cache when the packet is handled, if any.
    /// A caller that writes it before the packet is handled finds the node
    /// as it was if the cache fails.
    pub fn cache_entry(ilp: &InterLinkPacket, blooms: &LinkTable) -> (entry: Option<CacheEntry>)
        requires
            blooms.wf(),
        ensures
            entry is Some <==> entry_of(ilp@, blooms@) is Some,
            entry matches Some(e) ==> entry_of(ilp@, blooms@) == Some((e.key@, e.value@)),
    {
        match &ilp.lp.nw {
            NarrowWaistPacket::Request { .. } => None,
            NarrowWaistPacket::Response { hbfi, .. } => {
                match blooms.get(&ilp.link_id) {
                    Some(state) => {
                        if state.contains_forwarded_request(hbfi) {
                            let key: Vec<u8> = serialize_hbfi(hbfi);
                            let value: Vec<u8> = serialize_narrow_waist_packet(&ilp.lp.nw);
                            Some(CacheEntry { key, value })
                        } else {
                            None
                        }
                    },
                    None => None,
                }
            },
        }
    }

    /// Answers a request from what the cache holds for its address.
    pub fn answer_from_cache(ilp: &InterLinkPacket, bytes: &[u8]) -> (result: Result<
        Dispatch,
        RouterError,
    >)
        ensures
            result matches Ok(d) ==> request_hit(ilp@, bytes@) == Ok::<DispatchView, RouterError>(
                d@,
            ),
            result matches Err(e) ==> request_hit(ilp@, bytes@) == Err::<DispatchView, RouterError>(
                e,
            ),
    {
        match deserialize_narrow_waist_packet(bytes) {
            Ok(nw) => match nw {
                NarrowWaistPacket::Response { hbfi, data } => {
                    let this_link: LinkId = ilp.link_id();
                    let lp = LinkPacket::new(
                        this_link.reply_to(),
                        NarrowWaistPacket::Response { hbfi, data },
                    );
                    let reply = InterLinkPacket::new(this_link, lp);
                    let mut outbound: Vec<InterLinkPacket> = Vec::new();
                    outbound.push(reply);
                    let d = Dispatch { store: None, outbound, threat: None };
                    proof {
                        assert(d@.outbound =~= seq![
                            cached_reply(ilp@, NarrowWaist::Response { hbfi, data: data@ }),
                        ]);
                    }
                    Ok(d)
                },
                NarrowWaistPacket::Request { .. } => Err(RouterError::NotAResponse),
            },
            Err(e) => Err(RouterError::Malformed(e)),
        }
    }

    /// The threat check: the band of the first weight of a ranking, where
    /// the first link is the one that must not be forwarded to.
    pub fn assess(ranked: &Vec<LinkWeight>, choke: &LinkId) -> (threat: Option<ThreatBand>)
        ensures
            threat == threat_of(ranked@, *choke),
    {
        if ranked.len() > 0 && ranked[0].linkid == *choke {
            Some(ThreatBand::classify(severity(ranked[0].weight)))
        } else {
            None
        }
    }

    /// Forwards a request along a ranking: walks the ranked links in order
    /// and sends a copy to every link that is forwarded to, which from then
    /// on shows the address as forwarded. Every such link gets its copy, of
    /// whatever sign its weight is.
    pub fn forward_request(
        ilp: &InterLinkPacket,
        ranked: &Vec<LinkWeight>,
        blooms: &mut LinkTable,
        choke: &LinkId,
    ) -> (sent: Vec<InterLinkPacket>)
        requires
            old(blooms).wf(),
        ensures
            final(blooms).wf(),
            final(blooms)@ == fan_out_table(ranked@, old(blooms)@, ilp@, *choke),
            packets(sent@) == fan_out_sent(ranked@, old(blooms)@, ilp@, *choke),
    {
        let this_link: LinkId = ilp.link_id();
        let hbfi: HBFI = ilp.lp.nw.hbfi();
        let mut sent: Vec<InterLinkPacket> = Vec::new();
        let mut i: usize = 0;
        proof {
            assert(packets(sent@) =~= Seq::<InterLink>::empty());
        }
        while i < ranked.len()
            invariant
                i <= ranked.len(),
                this_link == ilp@.link_id,
                hbfi == ilp@.hbfi(),
                blooms.wf(),
                blooms@ == fan_out_table(ranked@.take(i as int), old(blooms)@, ilp@, *choke),
                packets(sent@) == fan_out_sent(ranked@.take(i as int), old(blooms)@, ilp@, *choke),
            decreases ranked.len() - i,
        {
            let that: LinkId = ranked[i].linkid;
            let ghost before = blooms@;
            let ghost sent_before = sent@;
            proof {
                assert(ranked@.take(i + 1).drop_last() =~= ranked@.take(i as int));
                assert(ranked@.take(i + 1).last() == ranked@[i as int]);
            }
            if that != *choke && !that.shares_peer(&this_link) {
                match blooms.position(&that) {
                    Some(at) => {
                        let state = blooms.blooms_at(at);
                        if !state.contains_forwarded_request(&hbfi)
                            && !state.contains_pending_request(&hbfi) {
                            blooms.blooms_at_mut(at).create_forwarded_request(&hbfi);
                            sent.push(ilp.change_destination(that));
                            proof {
                                lemma_position_unique(before, at as int);
                                lemma_with_state_keeps_links(
                                    before,
                                    that,
                                    state_of(before, that).create_forwarded(hbfi),
                                );
                                assert(packets(sent@) =~= packets(sent_before).push(
                                    ilp@.change_destination(that),
                                ));
                            }
                        } else {
                            proof {
                                lemma_position_unique(before, at as int);
                            }
                        }
                    },
                    None => {},
                }
            }
            i = i + 1;
        }
        proof {
            assert(ranked@.take(i as int) =~= ranked@);
        }
        sent
    }

    /// Relays a reply: sends a copy to every registered link that waits for
    /// it, in the order of the table, and clears one pending mark of the
    /// address on each of them.
    pub fn relay_response(ilp: &InterLinkPacket, blooms: &mut LinkTable) -> (sent: Vec<
        InterLinkPacket,
    >)
        requires
            old(blooms).wf(),
        ensures
            final(blooms).wf(),
            final(blooms)@ == relay_table(old(blooms)@, ilp@.link_id, ilp@.hbfi()),
            packets(sent@) == relay_sent(old(blooms)@, ilp@),
    {
        let this_link: LinkId = ilp.link_id();
        let hbfi: HBFI = ilp.lp.nw.hbfi();
        let n: usize = blooms.len();
        let mut sent: Vec<InterLinkPacket> = Vec::new();
        let mut i: usize = 0;
        proof {
            reveal(Seq::filter);
            assert(old(blooms)@.take(0) =~= Seq::<(LinkId, BloomsView)>::empty());
            assert(packets(sent@) =~= relay_sent(old(blooms)@.take(0), ilp@));
        }
        while i < n
            invariant
                i <= n,
                n == old(blooms)@.len(),
                blooms@.len() == n,
                this_link == ilp@.link_id,
                hbfi == ilp@.hbfi(),
                forall|k: int|
                    0 <= k < i ==> #[trigger] blooms@[k] == relay_table(
                        old(blooms)@,
                        this_link,
                        hbfi,
                    )[k],
                forall|k: int| i <= k < n ==> #[trigger] blooms@[k] == old(blooms)@[k],
                packets(sent@) == relay_sent(old(blooms)@.take(i as int), ilp@),
            decreases n - i,
        {
            let that: LinkId = blooms.link_at(i);
            let ghost sent_before = sent@;
            let ghost entry = old(blooms)@[i as int];
            proof {
                reveal(Seq::filter);
                assert(old(blooms)@.take(i + 1).drop_last() =~= old(blooms)@.take(i as int));
                assert(old(blooms)@.take(i + 1).last() == entry);
            }
            if !that.shares_peer(&this_link) && blooms.blooms_at(i).contains_pending_request(
                &hbfi,
            ) {
                blooms.blooms_at_mut(i).delete_pending_request(&hbfi);
                sent.push(ilp.change_destination(that));
                proof {
                    assert(awaits(entry, this_link, hbfi));
                    assert(packets(sent@) =~= packets(sent_before).push(
                        ilp@.change_destination(that),
                    ));
                    assert(relay_sent(old(blooms)@.take(i + 1), ilp@) =~= relay_sent(
                        old(blooms)@.take(i as int),
                        ilp@,
                    ).push(ilp@.change_destination(that)));
                }
            } else {
                proof {
                    assert(!awaits(entry, this_link, hbfi));
                }
            }
            i = i + 1;
        }
        proof {
            assert(old(blooms)@.take(n as int) =~= old(blooms)@);
            let after = relay_table(old(blooms)@, this_link, hbfi);
            assert(blooms@ =~= after);
            assert forall|a: int, b: int|
                #![trigger after[a], after[b]]
                0 <= a < b < after.len() implies after[a].0 != after[b].0 by {
                assert(old(blooms)@[a].0 != old(blooms)@[b].0);
            }
        }
        sent
    }

    /// Handles one packet. `cached` is what the cache holds under the key
    /// that [`Router::cache_probe`] gave for the packet, and `None` where
    /// it gave none or the cache holds nothing. `choke` is the link that
    /// must not be forwarded to.
    pub fn handle_packet(
        ilp: &InterLinkPacket,
        cached: Option<Vec<u8>>,
        blooms: &mut LinkTable,
        bayes: &mut Bayes,
        choke: &LinkId,
    ) -> (result: Result<Dispatch, RouterError>)
        requires
            old(blooms).wf(),
            old(bayes).wf(),
        ensures
            final(blooms).wf(),
            final(bayes).wf(),
            match dispatch(ilp@, bytes_of(cached), old(blooms)@, old(bayes)@, *choke) {
                Ok(step) => {
                    &&& result matches Ok(d) && d@ == step.dispatch
                    &&& final(blooms)@ == step.table
                    &&& final(bayes)@ == step.model
                },
                Err(e) => {
                    &&& result == Err::<Dispatch, RouterError>(e)
                    &&& final(blooms)@ == old(blooms)@
                    &&& final(bayes)@ == old(bayes)@
                },
            },
            // What is to be written to the cache is what `cache_entry`
            // gives before the packet is handled.
            result matches Ok(d) ==> d@.store == entry_of(ilp@, old(blooms)@),
            // A packet from a link that is not registered is ignored.
            !registered(old(blooms)@, ilp@.link_id) ==> (result matches Ok(d) && d@ == nothing())
                && final(blooms)@ == old(blooms)@ && final(bayes)@ == old(bayes)@,
            // A request that the cache answers is answered with the cached
            // reply alone, and the state of the node stays as it is.
            result matches Ok(d) ==> (registered(old(blooms)@, ilp@.link_id) && ilp@.lp.nw is Request
                && cached is Some ==> {
                &&& d@.store is None
                &&& d@.outbound.len() == 1
                &&& d@.outbound[0].lp.nw is Response
                &&& d@.outbound[0].link_id == ilp@.link_id
                &&& d@.outbound[0].lp.reply_to == ilp@.link_id.reply_to
                &&& final(blooms)@ == old(blooms)@
                &&& final(bayes)@ == old(bayes)@
            }),
            // A request is never sent back to where it came from, nor to
            // the link that must not be forwarded to, and nothing is
            // written to the cache for it.
            result matches Ok(d) ==> (ilp@.lp.nw is Request && cached is None ==> d@.store is None
                && forall|k: int|
                0 <= k < d@.outbound.len() ==> {
                    let p = #[trigger] d@.outbound[k];
                    &&& p.lp == ilp@.lp
                    &&& p.link_id != *choke
                    &&& !p.link_id.same_peer(ilp@.link_id)
                    &&& registered(old(blooms)@, p.link_id)
                }),
            // A request that the threat check drops is not forwarded, and
            // the call succeeds.
            registered(old(blooms)@, ilp@.link_id) && ilp@.lp.nw is Request && cached is None
                && drops(threat_of(ranking(old(bayes)@, ilp@.hbfi().features()), *choke))
                ==> (result matches Ok(d) && d@.outbound.len() == 0),
            // A reply that was not asked for on the link it came by is
            // dropped: nothing is sent or written, and nothing changes.
            registered(old(blooms)@, ilp@.link_id) && ilp@.lp.nw is Response && !state_of(
                old(blooms)@,
                ilp@.link_id,
            ).contains_forwarded(ilp@.hbfi()) ==> (result matches Ok(d) && d@ == nothing())
                && final(blooms)@ == old(blooms)@ && final(bayes)@ == old(bayes)@,
            // A reply that was asked for goes to the cache and to every
            // link that waits for it, once to each.
            registered(old(blooms)@, ilp@.link_id) && ilp@.lp.nw is Response && state_of(
                old(blooms)@,
                ilp@.link_id,
            ).contains_forwarded(ilp@.hbfi()) ==> (result matches Ok(d) && {
                &&& d@.store == Some((address_bytes(ilp@.hbfi()), packet_bytes(ilp@.lp.nw)))
                &&& d@.outbound == relay_sent(old(blooms)@, ilp@)
                &&& d@.outbound.len() == waiting(old(blooms)@, ilp@.link_id, ilp@.hbfi()).len()
            }),
    {
        proof {
            let arrival = ilp@.link_id;
            if registered(old(blooms)@, arrival) {
                if ilp@.lp.nw is Request {
                    lemma_no_self_loop(ilp@, old(blooms)@, old(bayes)@, *choke);
                } else {
                    lemma_relay_ignores_arrival(
                        old(blooms)@,
                        ilp@,
                        state_of(old(blooms)@, arrival).delete_forwarded(ilp@.hbfi()),
                    );
                }
            }
        }
        let this_link: LinkId = ilp.link_id();
        let at: usize = match blooms.position(&this_link) {
            Some(at) => at,
            None => {
                let d = Dispatch { store: None, outbound: Vec::new(), threat: None };
                proof {
                    assert(d@.outbound =~= Seq::<InterLink>::empty());
                }
                return Ok(d);
            },
        };
        proof {
            lemma_position_unique(blooms@, at as int);
        }
        match &ilp.lp.nw {
            NarrowWaistPacket::Request { hbfi } => {
                match cached {
                    Some(bytes) => Self::answer_from_cache(ilp, bytes.as_slice()),
                    None => {
                        blooms.blooms_at_mut(at).create_pending_request(hbfi);
                        proof {
                            lemma_with_state_keeps_links(
                                old(blooms)@,
                                this_link,
                                state_of(old(blooms)@, this_link).create_pending(*hbfi),
                            );
                        }
                        let features: Vec<u64> = hbfi.to_bfis();
                        let link_weights: Vec<LinkWeight> = bayes.classify(&features);
                        bayes.train(&features, choke);
                        let threat: Option<ThreatBand> = Self::assess(&link_weights, choke);
                        let dropped: bool = match threat {
                            Some(band) => band.response() == ThreatAction::Drop,
                            None => false,
                        };
                        if dropped {
                            let d = Dispatch { store: None, outbound: Vec::new(), threat };
                            proof {
                                assert(d@.outbound =~= Seq::<InterLink>::empty());
                            }
                            Ok(d)
                        } else {
                            let outbound: Vec<InterLinkPacket> = Self::forward_request(
                                ilp,
                                &link_weights,
                                blooms,
                                choke,
                            );
                            Ok(Dispatch { store: None, outbound, threat })
                        }
                    },
                }
            },
            NarrowWaistPacket::Response { hbfi, .. } => {
                if blooms.blooms_at(at).contains_forwarded_request(hbfi) {
                    let key: Vec<u8> = serialize_hbfi(hbfi);
                    let value: Vec<u8> = serialize_narrow_waist_packet(&ilp.lp.nw);
                    let features: Vec<u64> = hbfi.to_bfis();
                    bayes.super_train(&features, &this_link);
                    blooms.blooms_at_mut(at).delete_forwarded_request(hbfi);
                    proof {
                        lemma_with_state_keeps_links(
                            old(blooms)@,
                            this_link,
                            state_of(old(blooms)@, this_link).delete_forwarded(*hbfi),
                        );
                    }
                    let outbound: Vec<InterLinkPacket> = Self::relay_response(ilp, blooms);
                    Ok(Dispatch { store: Some(CacheEntry { key, value }), outbound, threat: None })
                } else {
                    let d = Dispatch { store: None, outbound: Vec::new(), threat: None };
                    proof {
                        assert(d@.outbound =~= Seq::<InterLink>::empty());
                    }
                    Ok(d)
                }
            },
        }
    }
}

} // verus!
