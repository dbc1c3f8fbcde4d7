use copernica::address::HBFI;
use copernica::bayes::{Bayes, LinkWeight};
use copernica::codec::{serialize_hbfi, serialize_narrow_waist_packet, DecodeError};
use copernica::bloom_filter::Blooms;
use copernica::link::{LinkId, ReplyTo};
use copernica::link_table::LinkTable;
use copernica::packet::{InterLinkPacket, LinkPacket, NarrowWaistPacket};
use copernica::router::{CacheEntry, Dispatch, Router, RouterError};
use copernica::threat::ThreatBand;

fn link(n: u32) -> LinkId {
    LinkId::new(n, 100 + n as u64, ReplyTo::Rf(n))
}

fn address() -> HBFI {
    HBFI::new("alice", "echo", "echo", "echo", "ping")
}

fn request(on: LinkId, hbfi: HBFI) -> InterLinkPacket {
    InterLinkPacket::new(on, LinkPacket::new(ReplyTo::Mpsc, NarrowWaistPacket::Request { hbfi }))
}

fn response(on: LinkId, hbfi: HBFI, data: Vec<u8>) -> InterLinkPacket {
    InterLinkPacket::new(
        on,
        LinkPacket::new(ReplyTo::Mpsc, NarrowWaistPacket::Response { hbfi, data }),
    )
}

fn node(links: &[LinkId]) -> (LinkTable, Bayes) {
    let mut blooms = LinkTable::new();
    let mut bayes = Bayes::new();
    for l in links {
        blooms.insert(*l, Blooms::new());
        bayes.add_link(l);
    }
    (blooms, bayes)
}

fn nothing() -> Dispatch {
    Dispatch { store: None, outbound: Vec::new(), threat: None }
}

fn pending(blooms: &LinkTable, l: &LinkId, hbfi: &HBFI) -> bool {
    blooms.get(l).unwrap().contains_pending_request(hbfi)
}

fn forwarded(blooms: &LinkTable, l: &LinkId, hbfi: &HBFI) -> bool {
    blooms.get(l).unwrap().contains_forwarded_request(hbfi)
}

fn weights(bayes: &Bayes, hbfi: &HBFI) -> Vec<(u32, i64)> {
    bayes.classify(&hbfi.to_bfis()).iter().map(|lw| (lw.linkid.lookup_id(), lw.weight)).collect()
}

#[test]
fn packet_from_an_unregistered_link_is_ignored() {
    let (mut blooms, mut bayes) = node(&[link(1), link(2)]);
    let x = address();
    let stranger = link(9);
    let got = Router::handle_packet(&request(stranger, x), None, &mut blooms, &mut bayes, &link(1));
    assert_eq!(got, Ok(nothing()));
    let got = Router::handle_packet(
        &response(stranger, x, vec![1]),
        None,
        &mut blooms,
        &mut bayes,
        &link(1),
    );
    assert_eq!(got, Ok(nothing()));
    assert!(!pending(&blooms, &link(1), &x));
    assert!(!forwarded(&blooms, &link(2), &x));
    assert_eq!(blooms.len(), 2);
    assert_eq!(weights(&bayes, &x), vec![(1, 0), (2, 0)]);
}

#[test]
fn cache_probe_asks_for_requests_on_registered_links_only() {
    let (blooms, _) = node(&[link(1)]);
    let x = address();
    assert_eq!(Router::cache_probe(&request(link(1), x), &blooms), Some(serialize_hbfi(&x)));
    assert_eq!(Router::cache_probe(&request(link(2), x), &blooms), None);
    assert_eq!(Router::cache_probe(&response(link(1), x, vec![]), &blooms), None);
}

#[test]
fn cached_reply_is_the_only_packet_sent() {
    let (mut blooms, mut bayes) = node(&[link(1), link(2), link(3)]);
    let x = address();
    let reply = NarrowWaistPacket::Response { hbfi: x, data: vec![4, 2] };
    let cached = Some(serialize_narrow_waist_packet(&reply));
    let got = Router::handle_packet(&request(link(2), x), cached, &mut blooms, &mut bayes, &link(2));
    let expected = InterLinkPacket::new(link(2), LinkPacket::new(ReplyTo::Rf(2), reply));
    assert_eq!(got, Ok(Dispatch { store: None, outbound: vec![expected], threat: None }));
    for l in [link(1), link(2), link(3)] {
        assert!(!pending(&blooms, &l, &x));
        assert!(!forwarded(&blooms, &l, &x));
    }
    assert_eq!(weights(&bayes, &x), vec![(1, 0), (2, 0), (3, 0)]);
}

#[test]
fn corrupt_cache_entry_is_an_error_and_changes_nothing() {
    let (mut blooms, mut bayes) = node(&[link(1), link(2)]);
    let x = address();
    let got = Router::handle_packet(
        &request(link(1), x),
        Some(vec![1, 2, 3]),
        &mut blooms,
        &mut bayes,
        &link(1),
    );
    assert_eq!(got, Err(RouterError::Malformed(DecodeError::Truncated)));
    let got = Router::handle_packet(
        &request(link(1), x),
        Some(vec![9; 80]),
        &mut blooms,
        &mut bayes,
        &link(1),
    );
    assert_eq!(got, Err(RouterError::Malformed(DecodeError::UnknownKind)));
    let mut long = serialize_narrow_waist_packet(&NarrowWaistPacket::Response {
        hbfi: x,
        data: vec![1],
    });
    long.push(0);
    let got =
        Router::handle_packet(&request(link(1), x), Some(long), &mut blooms, &mut bayes, &link(1));
    assert_eq!(got, Err(RouterError::Malformed(DecodeError::TrailingBytes)));
    assert!(!pending(&blooms, &link(1), &x));
    assert_eq!(weights(&bayes, &x), vec![(1, 0), (2, 0)]);
}

#[test]
fn cached_request_is_not_a_reply() {
    let (mut blooms, mut bayes) = node(&[link(1), link(2)]);
    let x = address();
    let cached = Some(serialize_narrow_waist_packet(&NarrowWaistPacket::Request { hbfi: x }));
    let got = Router::handle_packet(&request(link(1), x), cached, &mut blooms, &mut bayes, &link(1));
    assert_eq!(got, Err(RouterError::NotAResponse));
    assert!(!pending(&blooms, &link(1), &x));
}

#[test]
fn request_is_not_sent_back_nor_to_the_same_peer_nor_to_the_choke() {
    let arrival = LinkId::new(1, 500, ReplyTo::Mpsc);
    let twin = LinkId::new(2, 500, ReplyTo::Rf(1));
    let choke = link(3);
    let open = link(4);
    let (mut blooms, mut bayes) = node(&[arrival, twin, choke, open]);
    let x = address();
    let ilp = request(arrival, x);
    let got = Router::handle_packet(&ilp, None, &mut blooms, &mut bayes, &choke).unwrap();
    assert_eq!(got.outbound, vec![ilp.change_destination(open)]);
    assert_eq!(got.store, None);
    assert_eq!(got.threat, None);
    assert!(pending(&blooms, &arrival, &x));
    assert!(forwarded(&blooms, &open, &x));
    for l in [arrival, twin, choke] {
        assert!(!forwarded(&blooms, &l, &x));
    }
    assert_eq!(weights(&bayes, &x), vec![(3, 1_000_000), (1, 0), (2, 0), (4, 0)]);
}

#[test]
fn request_is_forwarded_in_rank_order() {
    let (mut blooms, mut bayes) = node(&[link(1), link(2), link(3), link(4)]);
    let x = address();
    bayes.train(&x.to_bfis(), &link(3));
    bayes.super_train(&x.to_bfis(), &link(4));
    let ilp = request(link(1), x);
    let got = Router::handle_packet(&ilp, None, &mut blooms, &mut bayes, &link(1)).unwrap();
    assert_eq!(
        got.outbound,
        vec![
            ilp.change_destination(link(4)),
            ilp.change_destination(link(3)),
            ilp.change_destination(link(2)),
        ]
    );
    assert_eq!(got.threat, None);
}

#[test]
fn request_is_not_forwarded_to_a_link_that_waits_for_the_same_reply() {
    let (mut blooms, mut bayes) = node(&[link(1), link(2), link(3)]);
    let x = address();
    Router::handle_packet(&request(link(2), x), None, &mut blooms, &mut bayes, &link(9)).unwrap();
    assert!(pending(&blooms, &link(2), &x));
    let (mut blooms2, _) = node(&[link(1), link(2), link(3)]);
    blooms2.blooms_at_mut(1).create_pending_request(&x);
    bayes.super_train(&x.to_bfis(), &link(3));
    let ilp = request(link(1), x);
    let got = Router::handle_packet(&ilp, None, &mut blooms2, &mut bayes, &link(9)).unwrap();
    assert_eq!(got.outbound, vec![ilp.change_destination(link(3))]);
    assert!(!forwarded(&blooms2, &link(2), &x));
}

#[test]
fn redispatched_request_is_sent_once_per_link() {
    let (mut blooms, mut bayes) = node(&[link(1), link(2), link(3)]);
    let x = address();
    bayes.train(&x.to_bfis(), &link(2));
    let ilp = request(link(1), x);
    let first = Router::handle_packet(&ilp, None, &mut blooms, &mut bayes, &link(1)).unwrap();
    assert_eq!(
        first.outbound,
        vec![ilp.change_destination(link(2)), ilp.change_destination(link(3))]
    );
    assert_eq!(first.threat, None);
    let second = Router::handle_packet(&ilp, None, &mut blooms, &mut bayes, &link(1)).unwrap();
    assert_eq!(second.outbound, Vec::<InterLinkPacket>::new());
    assert_eq!(second.threat, Some(ThreatBand::Defcon3));
    let third = Router::handle_packet(&ilp, None, &mut blooms, &mut bayes, &link(1)).unwrap();
    assert_eq!(third.outbound, Vec::<InterLinkPacket>::new());
    assert_eq!(third.threat, Some(ThreatBand::Defcon2));
    assert!(forwarded(&blooms, &link(2), &x));
    assert!(forwarded(&blooms, &link(3), &x));
}

#[test]
fn unsolicited_reply_is_dropped() {
    let (mut blooms, mut bayes) = node(&[link(1), link(2), link(3)]);
    let x = address();
    blooms.blooms_at_mut(1).create_pending_request(&x);
    blooms.blooms_at_mut(2).create_forwarded_request(&x);
    let got = Router::handle_packet(
        &response(link(1), x, vec![1, 2, 3]),
        None,
        &mut blooms,
        &mut bayes,
        &link(1),
    );
    assert_eq!(got, Ok(nothing()));
    assert!(pending(&blooms, &link(2), &x));
    assert!(forwarded(&blooms, &link(3), &x));
    assert_eq!(weights(&bayes, &x), vec![(1, 0), (2, 0), (3, 0)]);
}

#[test]
fn reply_for_another_address_is_dropped() {
    let (mut blooms, mut bayes) = node(&[link(1), link(2)]);
    let x = address();
    blooms.blooms_at_mut(0).create_forwarded_request(&x);
    blooms.blooms_at_mut(1).create_pending_request(&x.offset(1));
    let got = Router::handle_packet(
        &response(link(1), x.offset(1), vec![1]),
        None,
        &mut blooms,
        &mut bayes,
        &link(1),
    );
    assert_eq!(got, Ok(nothing()));
    assert!(forwarded(&blooms, &link(1), &x));
    assert!(pending(&blooms, &link(2), &x.offset(1)));
}

#[test]
fn reply_goes_to_every_link_that_waits() {
    let upstream = link(1);
    let (mut blooms, mut bayes) = node(&[upstream, link(2), link(3), link(4), link(5)]);
    let x = address();
    blooms.blooms_at_mut(0).create_forwarded_request(&x);
    blooms.blooms_at_mut(1).create_pending_request(&x);
    blooms.blooms_at_mut(3).create_pending_request(&x);
    blooms.blooms_at_mut(4).create_pending_request(&x);
    let ilp = response(upstream, x, vec![7, 7, 7]);
    let got = Router::handle_packet(&ilp, None, &mut blooms, &mut bayes, &upstream).unwrap();
    assert_eq!(
        got.outbound,
        vec![
            ilp.change_destination(link(2)),
            ilp.change_destination(link(4)),
            ilp.change_destination(link(5)),
        ]
    );
    assert_eq!(
        got.store,
        Some(CacheEntry {
            key: serialize_hbfi(&x),
            value: serialize_narrow_waist_packet(&NarrowWaistPacket::Response {
                hbfi: x,
                data: vec![7, 7, 7],
            }),
        })
    );
    assert_eq!(got.threat, None);
    for l in [link(2), link(3), link(4), link(5)] {
        assert!(!pending(&blooms, &l, &x));
    }
    assert!(!forwarded(&blooms, &upstream, &x));
    assert_eq!(weights(&bayes, &x), vec![(1, 1_000_000), (2, 0), (3, 0), (4, 0), (5, 0)]);
}

#[test]
fn reply_is_not_relayed_to_the_peer_it_came_from() {
    let upstream = LinkId::new(1, 500, ReplyTo::Mpsc);
    let twin = LinkId::new(2, 500, ReplyTo::Mpsc);
    let (mut blooms, mut bayes) = node(&[upstream, twin, link(3)]);
    let x = address();
    blooms.blooms_at_mut(0).create_forwarded_request(&x);
    blooms.blooms_at_mut(0).create_pending_request(&x);
    blooms.blooms_at_mut(1).create_pending_request(&x);
    blooms.blooms_at_mut(2).create_pending_request(&x);
    let ilp = response(upstream, x, vec![]);
    let got = Router::handle_packet(&ilp, None, &mut blooms, &mut bayes, &upstream).unwrap();
    assert_eq!(got.outbound, vec![ilp.change_destination(link(3))]);
    assert!(pending(&blooms, &upstream, &x));
    assert!(pending(&blooms, &twin, &x));
    assert!(!pending(&blooms, &link(3), &x));
}

#[test]
fn second_reply_finds_no_mark() {
    let (mut blooms, mut bayes) = node(&[link(1), link(2)]);
    let x = address();
    blooms.blooms_at_mut(0).create_forwarded_request(&x);
    blooms.blooms_at_mut(1).create_pending_request(&x);
    let ilp = response(link(1), x, vec![1]);
    let first = Router::handle_packet(&ilp, None, &mut blooms, &mut bayes, &link(1)).unwrap();
    assert_eq!(first.outbound.len(), 1);
    let second = Router::handle_packet(&ilp, None, &mut blooms, &mut bayes, &link(1));
    assert_eq!(second, Ok(nothing()));
}

#[test]
fn replayed_request_is_dropped() {
    let (mut blooms, mut bayes) = node(&[link(1), link(2)]);
    let x = address();
    let ilp = request(link(1), x);
    let first = Router::handle_packet(&ilp, None, &mut blooms, &mut bayes, &link(1)).unwrap();
    assert_eq!(first.threat, Some(ThreatBand::Defcon4));
    assert_eq!(first.outbound, vec![ilp.change_destination(link(2))]);
    let again = request(link(1), x.offset(1));
    let second = Router::handle_packet(&again, None, &mut blooms, &mut bayes, &link(1));
    assert_eq!(
        second,
        Ok(Dispatch { store: None, outbound: Vec::new(), threat: Some(ThreatBand::Defcon1) })
    );
    assert!(pending(&blooms, &link(1), &x.offset(1)));
    assert!(!forwarded(&blooms, &link(2), &x.offset(1)));
}

#[test]
fn request_is_dropped_from_nine_tenths_on() {
    let x = address();
    let (mut blooms, mut bayes) = node(&[link(1), link(2)]);
    for _ in 0..8 {
        bayes.train(&x.to_bfis(), &link(1));
    }
    bayes.train(&x.to_bfis(), &link(2));
    assert_eq!(weights(&bayes, &x), vec![(1, 888_888), (2, 111_111)]);
    let ilp = request(link(1), x);
    let below = Router::handle_packet(&ilp, None, &mut blooms, &mut bayes, &link(1)).unwrap();
    assert_eq!(below.threat, Some(ThreatBand::Defcon2));
    assert_eq!(below.outbound, vec![ilp.change_destination(link(2))]);
    assert_eq!(weights(&bayes, &x), vec![(1, 900_000), (2, 100_000)]);
    let next = request(link(1), x.offset(0));
    let (mut fresh, _) = node(&[link(1), link(2)]);
    let at = Router::handle_packet(&next, None, &mut fresh, &mut bayes, &link(1)).unwrap();
    assert_eq!(at.threat, Some(ThreatBand::Defcon1));
    assert_eq!(at.outbound, Vec::<InterLinkPacket>::new());
    assert_eq!(at.store, None);
}

#[test]
fn heavy_link_that_is_not_the_choke_is_no_threat() {
    let x = address();
    let (mut blooms, mut bayes) = node(&[link(1), link(2), link(3)]);
    for _ in 0..20 {
        bayes.train(&x.to_bfis(), &link(2));
    }
    let ilp = request(link(1), x);
    let got = Router::handle_packet(&ilp, None, &mut blooms, &mut bayes, &link(1)).unwrap();
    assert_eq!(got.threat, None);
    assert_eq!(
        got.outbound,
        vec![ilp.change_destination(link(2)), ilp.change_destination(link(3))]
    );
}

#[test]
fn three_links_request_then_reply() {
    let (l1, l2, l3) = (link(1), link(2), link(3));
    let (mut blooms, mut bayes) = node(&[l1, l2, l3]);
    let x = address();
    let ask = request(l2, x);
    assert_eq!(Router::cache_probe(&ask, &blooms), Some(serialize_hbfi(&x)));
    let asked = Router::handle_packet(&ask, None, &mut blooms, &mut bayes, &l1).unwrap();
    assert!(pending(&blooms, &l2, &x));
    assert_eq!(weights(&bayes, &x), vec![(1, 1_000_000), (2, 0), (3, 0)]);
    assert_eq!(asked.threat, Some(ThreatBand::Defcon4));
    assert_eq!(asked.outbound, vec![ask.change_destination(l3)]);
    assert_eq!(asked.store, None);
    assert!(forwarded(&blooms, &l3, &x));
    assert!(!forwarded(&blooms, &l1, &x));
    assert!(!forwarded(&blooms, &l2, &x));

    let stray = response(l1, x, vec![1, 2, 3]);
    let dropped = Router::handle_packet(&stray, None, &mut blooms, &mut bayes, &l1);
    assert_eq!(dropped, Ok(nothing()));
    assert!(pending(&blooms, &l2, &x));

    let answer = response(l3, x, vec![1, 2, 3]);
    let answered = Router::handle_packet(&answer, None, &mut blooms, &mut bayes, &l1).unwrap();
    assert_eq!(
        answered.store,
        Some(CacheEntry {
            key: serialize_hbfi(&x),
            value: serialize_narrow_waist_packet(&NarrowWaistPacket::Response {
                hbfi: x,
                data: vec![1, 2, 3],
            }),
        })
    );
    assert_eq!(answered.outbound, vec![answer.change_destination(l2)]);
    assert!(!forwarded(&blooms, &l3, &x));
    assert!(!pending(&blooms, &l2, &x));
    assert!(!pending(&blooms, &l1, &x));
    assert_eq!(weights(&bayes, &x), vec![(3, 666_666), (1, 333_333), (2, 0)]);

    let cached = answered.store.map(|entry| entry.value);
    let served = Router::handle_packet(&ask, cached, &mut blooms, &mut bayes, &l1).unwrap();
    assert_eq!(
        served.outbound,
        vec![InterLinkPacket::new(
            l2,
            LinkPacket::new(
                ReplyTo::Rf(2),
                NarrowWaistPacket::Response { hbfi: x, data: vec![1, 2, 3] }
            )
        )]
    );
    assert!(!pending(&blooms, &l2, &x));
}

#[test]
fn fan_out_takes_any_ranking() {
    let (mut blooms, _) = node(&[link(1), link(2), link(3)]);
    let x = address();
    let ilp = request(link(1), x);
    let ranked = vec![
        LinkWeight { linkid: link(3), weight: -5 },
        LinkWeight { linkid: link(8), weight: 0 },
        LinkWeight { linkid: link(2), weight: 3 },
        LinkWeight { linkid: link(3), weight: 7 },
        LinkWeight { linkid: link(1), weight: 9 },
    ];
    let sent = Router::forward_request(&ilp, &ranked, &mut blooms, &link(7));
    assert_eq!(sent, vec![ilp.change_destination(link(3)), ilp.change_destination(link(2))]);
    assert!(forwarded(&blooms, &link(3), &x));
    assert!(forwarded(&blooms, &link(2), &x));
    assert!(!forwarded(&blooms, &link(1), &x));
}

#[test]
fn relay_clears_one_mark_per_link() {
    let (mut blooms, _) = node(&[link(1), link(2), link(3)]);
    let x = address();
    blooms.blooms_at_mut(1).create_pending_request(&x);
    blooms.blooms_at_mut(1).create_pending_request(&x);
    blooms.blooms_at_mut(2).create_pending_request(&x);
    let ilp = response(link(1), x, vec![5]);
    let sent = Router::relay_response(&ilp, &mut blooms);
    assert_eq!(sent, vec![ilp.change_destination(link(2)), ilp.change_destination(link(3))]);
    assert!(pending(&blooms, &link(2), &x));
    assert!(!pending(&blooms, &link(3), &x));
}

#[test]
fn threat_check_looks_at_the_first_link_only() {
    let choke = link(1);
    let top = vec![
        LinkWeight { linkid: choke, weight: 600_000 },
        LinkWeight { linkid: link(2), weight: 400_000 },
    ];
    assert_eq!(Router::assess(&top, &choke), Some(ThreatBand::Defcon2));
    let second = vec![
        LinkWeight { linkid: link(2), weight: 990_000 },
        LinkWeight { linkid: choke, weight: 10_000 },
    ];
    assert_eq!(Router::assess(&second, &choke), None);
    assert_eq!(Router::assess(&Vec::new(), &choke), None);
}

#[test]
fn answer_from_cache_uses_the_return_path_of_the_link() {
    let on = LinkId::new(1, 1, ReplyTo::UdpIp { host: 1, port: 2 });
    let x = address();
    let reply = NarrowWaistPacket::Response { hbfi: x, data: vec![1] };
    let got = Router::answer_from_cache(&request(on, x), &serialize_narrow_waist_packet(&reply));
    let expected =
        InterLinkPacket::new(on, LinkPacket::new(ReplyTo::UdpIp { host: 1, port: 2 }, reply));
    assert_eq!(got, Ok(Dispatch { store: None, outbound: vec![expected], threat: None }));
}

#[test]
fn packet_accessors_give_the_parts() {
    let x = address();
    let ilp = response(link(1), x, vec![1, 2]);
    assert_eq!(ilp.link_id(), link(1));
    assert_eq!(ilp.reply_to(), ReplyTo::Mpsc);
    assert_eq!(ilp.narrow_waist(), NarrowWaistPacket::response(x, vec![1, 2]));
    assert_eq!(ilp.narrow_waist().hbfi(), x);
    assert_eq!(ilp.lp.narrow_waist(), NarrowWaistPacket::response(x, vec![1, 2]));
    assert_eq!(ilp.lp.reply_to(), ReplyTo::Mpsc);
    assert_eq!(ilp.clone(), ilp);
    let moved = ilp.change_destination(link(2));
    assert_eq!(moved.link_id(), link(2));
    assert_eq!(moved.lp, ilp.lp);
    assert_eq!(NarrowWaistPacket::request(x).hbfi(), x);
}

#[test]
fn cache_entry_is_what_an_accepted_reply_stores() {
    let (mut blooms, mut bayes) = node(&[link(1), link(2)]);
    let x = address();
    let ilp = response(link(1), x, vec![9, 9]);
    assert_eq!(Router::cache_entry(&ilp, &blooms), None);
    assert_eq!(Router::cache_entry(&request(link(1), x), &blooms), None);
    blooms.blooms_at_mut(0).create_forwarded_request(&x);
    assert_eq!(Router::cache_entry(&request(link(1), x), &blooms), None);
    assert_eq!(Router::cache_entry(&response(link(2), x, vec![9, 9]), &blooms), None);
    assert_eq!(Router::cache_entry(&response(link(7), x, vec![9, 9]), &blooms), None);
    let entry = Router::cache_entry(&ilp, &blooms);
    assert_eq!(
        entry,
        Some(CacheEntry {
            key: serialize_hbfi(&x),
            value: serialize_narrow_waist_packet(&NarrowWaistPacket::Response {
                hbfi: x,
                data: vec![9, 9],
            }),
        })
    );
    let got = Router::handle_packet(&ilp, None, &mut blooms, &mut bayes, &link(1)).unwrap();
    assert_eq!(got.store, entry);
    assert_eq!(Router::cache_entry(&ilp, &blooms), None);
}
