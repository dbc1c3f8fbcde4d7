//! What the forwarding engine guarantees, proved over the model of the engine.
use crate::address::HBFI;
use crate::bayes::{distinct_ranked, lemma_ranking_distinct, ranking, LinkWeight, Model};
use crate::bloom_filter::{lemma_no_false_negative, BloomsView};
use crate::codec::{lemma_packet_round_trip, packet_bytes, parse_packet};
use crate::keyed::{
    distinct_links, lemma_position_of, lemma_position_unique, lemma_with_state_keeps_links,
    lemma_with_state_reads, position_of, registered, state_of, with_state,
};
use crate::link::LinkId;
use crate::link_table::Links;
use crate::packet::{InterLink, NarrowWaist};
use crate::router::{
    awaits, cached_reply, dispatch, drops, fan_out_sent, fan_out_table, forwards_to, nothing,
    relay_sent, relay_table, request_miss, response, threat_of, waiting, Step,
};
use crate::threat::{severity_of, ThreatBand};
use vstd::prelude::*;

verus! {

/// How many packets of a list go to a link.
pub open spec fn copies(sent: Seq<InterLink>, link: LinkId) -> nat {
    sent.filter(|p: InterLink| p.link_id == link).len()
}

/// A list with one more packet has one more copy for the link of that
/// packet, and as many as before for every other link.
proof fn lemma_copies_push(sent: Seq<InterLink>, p: InterLink, link: LinkId)
    ensures
        copies(sent.push(p), link) == copies(sent, link) + if p.link_id == link {
            1nat
        } else {
            0nat
        },
        copies(Seq::<InterLink>::empty(), link) == 0,
{
    reveal(Seq::filter);
    assert(sent.push(p).drop_last() =~= sent);
}

/// A request that the cache answers is answered with exactly one packet:
/// the cached reply, sent on the link the request came by, along that
/// link's return path. Nothing is written to the cache, and neither the
/// interest state of any link nor the classifier changes.
pub proof fn lemma_cache_hit_short_circuits(
    ilp: InterLink,
    bytes: Seq<u8>,
    table: Links,
    model: Model,
    choke: LinkId,
)
    requires
        registered(table, ilp.link_id),
        ilp.lp.nw is Request,
        parse_packet(bytes) matches Ok(reply) && reply is Response,
    ensures
        dispatch(ilp, Some(bytes), table, model, choke) matches Ok(step) && {
            &&& step.table == table
            &&& step.model == model
            &&& step.dispatch.store is None
            &&& step.dispatch.outbound == seq![cached_reply(ilp, parse_packet(bytes)->Ok_0)]
            &&& step.dispatch.outbound.len() == 1
            &&& step.dispatch.outbound[0].lp.nw is Response
            &&& step.dispatch.outbound[0].link_id == ilp.link_id
            &&& step.dispatch.outbound[0].lp.reply_to == ilp.link_id.reply_to
        },
{
}

/// The reply that answers a request from the cache is the reply that was
/// written there: a cache that holds the encoding of a reply gives that
/// reply back.
pub proof fn lemma_cache_gives_back_what_was_stored(
    ilp: InterLink,
    reply: NarrowWaist,
    table: Links,
    model: Model,
    choke: LinkId,
)
    requires
        registered(table, ilp.link_id),
        ilp.lp.nw is Request,
        reply matches NarrowWaist::Response { data, .. } && data.len() <= u64::MAX,
    ensures
        dispatch(ilp, Some(packet_bytes(reply)), table, model, choke) matches Ok(step)
            && step.dispatch.outbound == seq![cached_reply(ilp, reply)],
{
    lemma_packet_round_trip(reply);
}

/// Every copy that the fan-out of a request sends is the request itself,
/// goes to a registered link, and goes neither to the link that must not
/// be forwarded to nor to a link that stands for the peer the request came
/// from.
pub proof fn lemma_fan_out_targets(
    ranked: Seq<LinkWeight>,
    table: Links,
    ilp: InterLink,
    choke: LinkId,
)
    requires
        distinct_links(table),
    ensures
        distinct_links(fan_out_table(ranked, table, ilp, choke)),
        fan_out_table(ranked, table, ilp, choke).len() == table.len(),
        forall|i: int|
            0 <= i < table.len() ==> (#[trigger] fan_out_table(ranked, table, ilp, choke)[i]).0
                == table[i].0,
        forall|k: int|
            0 <= k < fan_out_sent(ranked, table, ilp, choke).len() ==> {
                let p = #[trigger] fan_out_sent(ranked, table, ilp, choke)[k];
                &&& p.lp == ilp.lp
                &&& p.link_id != choke
                &&& !p.link_id.same_peer(ilp.link_id)
                &&& registered(table, p.link_id)
                &&& exists|j: int| 0 <= j < ranked.len() && (#[trigger] ranked[j]).linkid == p.link_id
            },
    decreases ranked.len(),
{
    if ranked.len() > 0 {
        let front = ranked.drop_last();
        let that = ranked.last().linkid;
        lemma_fan_out_targets(front, table, ilp, choke);
        let before = fan_out_table(front, table, ilp, choke);
        let sent = fan_out_sent(ranked, table, ilp, choke);
        if forwards_to(before, ilp.link_id, ilp.hbfi(), choke, that) {
            lemma_with_state_keeps_links(
                before,
                that,
                state_of(before, that).create_forwarded(ilp.hbfi()),
            );
            lemma_position_of(before, that);
            let at = position_of(before, that);
            assert(table[at].0 == that);
            assert forall|k: int| 0 <= k < sent.len() implies {
                let p = #[trigger] sent[k];
                &&& p.lp == ilp.lp
                &&& p.link_id != choke
                &&& !p.link_id.same_peer(ilp.link_id)
                &&& registered(table, p.link_id)
                &&& exists|j: int| 0 <= j < ranked.len() && (#[trigger] ranked[j]).linkid == p.link_id
            } by {
                if k < sent.len() - 1 {
                    let p = fan_out_sent(front, table, ilp, choke)[k];
                    assert(sent[k] == p);
                    let j = choose|j: int| 0 <= j < front.len() && (#[trigger] front[j]).linkid
                        == p.link_id;
                    assert(ranked[j].linkid == p.link_id);
                } else {
                    assert(ranked[ranked.len() - 1].linkid == that);
                }
            }
        } else {
            assert forall|k: int| 0 <= k < sent.len() implies exists|j: int|
                0 <= j < ranked.len() && (#[trigger] ranked[j]).linkid == (
                #[trigger] sent[k]).link_id by {
                let p = fan_out_sent(front, table, ilp, choke)[k];
                let j = choose|j: int| 0 <= j < front.len() && (#[trigger] front[j]).linkid
                    == p.link_id;
                assert(ranked[j].linkid == p.link_id);
            }
        }
    }
}

/// A list without a packet for a link holds no copy for it.
proof fn lemma_copies_none(sent: Seq<InterLink>, link: LinkId)
    requires
        forall|k: int| 0 <= k < sent.len() ==> (#[trigger] sent[k]).link_id != link,
    ensures
        copies(sent, link) == 0,
    decreases sent.len(),
{
    reveal(Seq::filter);
    if sent.len() > 0 {
        let front = sent.drop_last();
        assert forall|k: int| 0 <= k < front.len() implies (#[trigger] front[k]).link_id
            != link by {
            assert(sent[k].link_id != link);
        }
        lemma_copies_none(front, link);
        assert(sent[sent.len() - 1].link_id != link);
    }
}

/// The ranked links that a request is forwarded to, as the table stands
/// when the request arrives.
pub open spec fn chosen(
    ranked: Seq<LinkWeight>,
    table: Links,
    ilp: InterLink,
    choke: LinkId,
) -> Seq<LinkWeight> {
    ranked.filter(
        |lw: LinkWeight| forwards_to(table, ilp.link_id, ilp.hbfi(), choke, lw.linkid),
    )
}

/// The request, once for each of some ranked links.
pub open spec fn copies_for(ranked: Seq<LinkWeight>, ilp: InterLink) -> Seq<InterLink> {
    ranked.map_values(|lw: LinkWeight| ilp.change_destination(lw.linkid))
}

/// Where no link stands twice in the ranking, the fan-out of a request
/// sends to exactly the ranked links that it may forward to as the table
/// stands at the start, in the order of the ranking.
pub proof fn lemma_fan_out_of_distinct_ranking(
    ranked: Seq<LinkWeight>,
    table: Links,
    ilp: InterLink,
    choke: LinkId,
)
    requires
        distinct_links(table),
        distinct_ranked(ranked),
    ensures
        fan_out_sent(ranked, table, ilp, choke) == copies_for(
            chosen(ranked, table, ilp, choke),
            ilp,
        ),
    decreases ranked.len(),
{
    reveal(Seq::filter);
    if ranked.len() == 0 {
        assert(fan_out_sent(ranked, table, ilp, choke) =~= copies_for(
            chosen(ranked, table, ilp, choke),
            ilp,
        ));
    } else {
        let front = ranked.drop_last();
        let that = ranked.last().linkid;
        assert forall|i: int, j: int|
            #![trigger front[i], front[j]]
            0 <= i < j < front.len() implies front[i].linkid != front[j].linkid by {
            assert(ranked[i].linkid != ranked[j].linkid);
        }
        lemma_fan_out_of_distinct_ranking(front, table, ilp, choke);
        lemma_fan_out_targets(front, table, ilp, choke);
        lemma_fan_out_link(front, table, ilp, choke, that);
        let sent_before = fan_out_sent(front, table, ilp, choke);
        assert forall|k: int| 0 <= k < sent_before.len() implies (#[trigger] sent_before[k]).link_id
            != that by {
            let j = choose|j: int| 0 <= j < front.len() && (#[trigger] front[j]).linkid
                == sent_before[k].link_id;
            assert(ranked[j].linkid != ranked[ranked.len() - 1].linkid);
        }
        lemma_copies_none(sent_before, that);
        let before = fan_out_table(front, table, ilp, choke);
        assert(forwards_to(before, ilp.link_id, ilp.hbfi(), choke, that) == forwards_to(
            table,
            ilp.link_id,
            ilp.hbfi(),
            choke,
            that,
        ));
        if forwards_to(table, ilp.link_id, ilp.hbfi(), choke, that) {
            assert(chosen(ranked, table, ilp, choke) =~= chosen(front, table, ilp, choke).push(
                ranked.last(),
            ));
        }
        assert(fan_out_sent(ranked, table, ilp, choke) =~= copies_for(
            chosen(ranked, table, ilp, choke),
            ilp,
        ));
    }
}

/// What the fan-out of a request does for one link: it sends at most one
/// copy to it. It sends one only to a registered link that it finds
/// without a mark for the address, and that link shows the address as
/// forwarded afterwards. A link that gets no copy keeps its interest state.
pub proof fn lemma_fan_out_link(
    ranked: Seq<LinkWeight>,
    table: Links,
    ilp: InterLink,
    choke: LinkId,
    link: LinkId,
)
    requires
        distinct_links(table),
    ensures
        registered(fan_out_table(ranked, table, ilp, choke), link) == registered(table, link),
        copies(fan_out_sent(ranked, table, ilp, choke), link) <= 1,
        !registered(table, link) ==> copies(fan_out_sent(ranked, table, ilp, choke), link) == 0,
        registered(table, link) && copies(fan_out_sent(ranked, table, ilp, choke), link) == 1 ==> {
            &&& forwards_to(table, ilp.link_id, ilp.hbfi(), choke, link)
            &&& state_of(fan_out_table(ranked, table, ilp, choke), link) == state_of(
                table,
                link,
            ).create_forwarded(ilp.hbfi())
        },
        registered(table, link) && copies(fan_out_sent(ranked, table, ilp, choke), link) == 0
            ==> state_of(fan_out_table(ranked, table, ilp, choke), link) == state_of(
            table,
            link,
        ),
    decreases ranked.len(),
{
    let hbfi = ilp.hbfi();
    if ranked.len() == 0 {
        lemma_copies_push(Seq::empty(), ilp, link);
    } else {
        let front = ranked.drop_last();
        let that = ranked.last().linkid;
        lemma_fan_out_link(front, table, ilp, choke, link);
        lemma_fan_out_link(front, table, ilp, choke, that);
        lemma_fan_out_targets(front, table, ilp, choke);
        let before = fan_out_table(front, table, ilp, choke);
        let sent_before = fan_out_sent(front, table, ilp, choke);
        if forwards_to(before, ilp.link_id, hbfi, choke, that) {
            let state = state_of(before, that).create_forwarded(hbfi);
            lemma_with_state_keeps_links(before, that, state);
            lemma_copies_push(sent_before, ilp.change_destination(that), link);
            lemma_no_false_negative(state_of(table, that), hbfi, hbfi);
            if link == that {
                lemma_with_state_reads(before, that, state, that);
            } else if registered(table, link) {
                lemma_with_state_reads(before, that, state, link);
            }
        }
    }
}

/// No self-loop: a request that the cache cannot answer is never forwarded
/// to the link that must not be forwarded to, nor to a link that stands for
/// the peer it came from. Every packet sent is the request itself, on a
/// registered link.
pub proof fn lemma_no_self_loop(ilp: InterLink, table: Links, model: Model, choke: LinkId)
    requires
        distinct_links(table),
        registered(table, ilp.link_id),
        ilp.lp.nw is Request,
    ensures
        dispatch(ilp, None, table, model, choke) matches Ok(step) && forall|k: int|
            0 <= k < step.dispatch.outbound.len() ==> {
                let p = #[trigger] step.dispatch.outbound[k];
                &&& p.lp == ilp.lp
                &&& p.link_id != choke
                &&& !p.link_id.same_peer(ilp.link_id)
                &&& p.link_id != ilp.link_id
                &&& registered(table, p.link_id)
            },
{
    let hbfi = ilp.hbfi();
    let state = state_of(table, ilp.link_id).create_pending(hbfi);
    let marked = with_state(table, ilp.link_id, state);
    let ranked = ranking(model, hbfi.features());
    lemma_with_state_keeps_links(table, ilp.link_id, state);
    lemma_fan_out_targets(ranked, marked, ilp, choke);
}

/// Filtering by two conditions that agree on every entry gives the same.
proof fn lemma_chosen_congruent(
    ranked: Seq<LinkWeight>,
    a: Links,
    b: Links,
    ilp: InterLink,
    choke: LinkId,
)
    requires
        forall|k: int|
            0 <= k < ranked.len() ==> forwards_to(
                a,
                ilp.link_id,
                ilp.hbfi(),
                choke,
                (#[trigger] ranked[k]).linkid,
            ) == forwards_to(b, ilp.link_id, ilp.hbfi(), choke, ranked[k].linkid),
    ensures
        chosen(ranked, a, ilp, choke) == chosen(ranked, b, ilp, choke),
    decreases ranked.len(),
{
    reveal(Seq::filter);
    if ranked.len() > 0 {
        let front = ranked.drop_last();
        assert forall|k: int| 0 <= k < front.len() implies forwards_to(
            a,
            ilp.link_id,
            ilp.hbfi(),
            choke,
            (#[trigger] front[k]).linkid,
        ) == forwards_to(b, ilp.link_id, ilp.hbfi(), choke, front[k].linkid) by {
            assert(front[k] == ranked[k]);
        }
        lemma_chosen_congruent(front, a, b, ilp, choke);
        assert(ranked.last() == ranked[ranked.len() - 1]);
    }
}

/// What a request that the cache cannot answer sends, said directly:
/// unless the threat check drops it, the request goes to every known link
/// that it may be forwarded to as the table stands when it arrives, once to
/// each, in the order in which the classifier ranks the links.
pub proof fn lemma_request_is_flooded_by_rank(
    ilp: InterLink,
    table: Links,
    model: Model,
    choke: LinkId,
)
    requires
        distinct_links(table),
        distinct_links(model),
        registered(table, ilp.link_id),
        ilp.lp.nw is Request,
    ensures
        ({
            let ranked = ranking(model, ilp.hbfi().features());
            dispatch(ilp, None, table, model, choke) matches Ok(step) && step.dispatch.outbound
                == if drops(threat_of(ranked, choke)) {
                Seq::<InterLink>::empty()
            } else {
                copies_for(chosen(ranked, table, ilp, choke), ilp)
            }
        }),
{
    let hbfi = ilp.hbfi();
    let state = state_of(table, ilp.link_id).create_pending(hbfi);
    let marked = with_state(table, ilp.link_id, state);
    let ranked = ranking(model, hbfi.features());
    lemma_with_state_keeps_links(table, ilp.link_id, state);
    lemma_ranking_distinct(model, hbfi.features());
    lemma_fan_out_of_distinct_ranking(ranked, marked, ilp, choke);
    assert forall|k: int| 0 <= k < ranked.len() implies forwards_to(
        marked,
        ilp.link_id,
        hbfi,
        choke,
        (#[trigger] ranked[k]).linkid,
    ) == forwards_to(table, ilp.link_id, hbfi, choke, ranked[k].linkid) by {
        let that = ranked[k].linkid;
        if registered(table, that) && that != ilp.link_id {
            lemma_with_state_reads(table, ilp.link_id, state, that);
        }
    }
    lemma_chosen_congruent(ranked, marked, table, ilp, choke);
}

/// What handling a request that the cache cannot answer does for one link.
/// At most one copy goes to the link. No copy goes to a link that shows the
/// address as forwarded, and a link that a copy went to shows the address
/// as forwarded afterwards. A forwarded mark that was there stays.
pub proof fn lemma_request_marks_what_it_sends(
    ilp: InterLink,
    table: Links,
    model: Model,
    choke: LinkId,
    link: LinkId,
)
    requires
        distinct_links(table),
        registered(table, ilp.link_id),
        ilp.lp.nw is Request,
    ensures
        ({
            let step = request_miss(ilp, table, model, choke);
            let sent = copies(step.dispatch.outbound, link);
            &&& distinct_links(step.table)
            &&& registered(step.table, link) == registered(table, link)
            &&& sent <= 1
            &&& !registered(table, link) ==> sent == 0
            &&& registered(table, link) && state_of(table, link).contains_forwarded(ilp.hbfi())
                ==> sent == 0 && state_of(step.table, link).contains_forwarded(ilp.hbfi())
            &&& registered(table, link) && sent == 1 ==> state_of(
                step.table,
                link,
            ).contains_forwarded(ilp.hbfi())
        }),
{
    let hbfi = ilp.hbfi();
    let state = state_of(table, ilp.link_id).create_pending(hbfi);
    let marked = with_state(table, ilp.link_id, state);
    let ranked = ranking(model, hbfi.features());
    let step = request_miss(ilp, table, model, choke);
    lemma_with_state_keeps_links(table, ilp.link_id, state);
    lemma_no_false_negative(state_of(table, ilp.link_id), hbfi, hbfi);
    if registered(table, link) {
        lemma_with_state_reads(table, ilp.link_id, state, link);
        lemma_no_false_negative(state_of(marked, link), hbfi, hbfi);
    }
    if drops(threat_of(ranked, choke)) {
        lemma_copies_push(Seq::empty(), ilp, link);
    } else {
        lemma_fan_out_link(ranked, marked, ilp, choke, link);
        lemma_fan_out_targets(ranked, marked, ilp, choke);
    }
}

/// The packets that are sent when the same request is handled again and
/// again, once for each link of `chokes` as the link that must not be
/// forwarded to, with no reply in between.
pub open spec fn redispatched(
    ilp: InterLink,
    table: Links,
    model: Model,
    chokes: Seq<LinkId>,
) -> Step
    decreases chokes.len(),
{
    if chokes.len() == 0 {
        Step { dispatch: nothing(), table, model }
    } else {
        let earlier = redispatched(ilp, table, model, chokes.drop_last());
        let step = request_miss(ilp, earlier.table, earlier.model, chokes.last());
        Step {
            dispatch: crate::router::DispatchView {
                store: None,
                outbound: earlier.dispatch.outbound + step.dispatch.outbound,
                threat: step.dispatch.threat,
            },
            table: step.table,
            model: step.model,
        }
    }
}

/// The copies for a link in two lists, one after the other, are the copies
/// in the first and the copies in the second.
proof fn lemma_copies_add(first: Seq<InterLink>, second: Seq<InterLink>, link: LinkId)
    ensures
        copies(first + second, link) == copies(first, link) + copies(second, link),
    decreases second.len(),
{
    if second.len() == 0 {
        assert(first + second =~= first);
        lemma_copies_push(first, arbitrary(), link);
    } else {
        let front = second.drop_last();
        lemma_copies_add(first, front, link);
        assert(first + second =~= (first + front).push(second.last()));
        assert(second =~= front.push(second.last()));
        lemma_copies_push(first + front, second.last(), link);
        lemma_copies_push(front, second.last(), link);
    }
}

/// Dedup: however often the same request is handled again before a reply
/// arrives, no link gets more than one copy of it in all.
pub proof fn lemma_dedup(
    ilp: InterLink,
    table: Links,
    model: Model,
    chokes: Seq<LinkId>,
    link: LinkId,
)
    requires
        distinct_links(table),
        registered(table, ilp.link_id),
        ilp.lp.nw is Request,
    ensures
        copies(redispatched(ilp, table, model, chokes).dispatch.outbound, link) <= 1,
        distinct_links(redispatched(ilp, table, model, chokes).table),
        registered(redispatched(ilp, table, model, chokes).table, link) == registered(
            table,
            link,
        ),
        registered(redispatched(ilp, table, model, chokes).table, ilp.link_id),
        registered(table, link) && copies(
            redispatched(ilp, table, model, chokes).dispatch.outbound,
            link,
        ) == 1 ==> state_of(
            redispatched(ilp, table, model, chokes).table,
            link,
        ).contains_forwarded(ilp.hbfi()),
        !registered(table, link) ==> copies(
            redispatched(ilp, table, model, chokes).dispatch.outbound,
            link,
        ) == 0,
    decreases chokes.len(),
{
    if chokes.len() == 0 {
        lemma_copies_push(Seq::empty(), ilp, link);
    } else {
        let earlier = redispatched(ilp, table, model, chokes.drop_last());
        lemma_dedup(ilp, table, model, chokes.drop_last(), link);
        lemma_dedup(ilp, table, model, chokes.drop_last(), ilp.link_id);
        let step = request_miss(ilp, earlier.table, earlier.model, chokes.last());
        lemma_request_marks_what_it_sends(ilp, earlier.table, earlier.model, chokes.last(), link);
        lemma_request_marks_what_it_sends(
            ilp,
            earlier.table,
            earlier.model,
            chokes.last(),
            ilp.link_id,
        );
        lemma_copies_add(earlier.dispatch.outbound, step.dispatch.outbound, link);
    }
}

/// Dedup, for two dispatches: where a request is handled and then handled
/// again before a reply arrives, no link gets a copy both times.
pub proof fn lemma_dedup_twice(
    ilp: InterLink,
    table: Links,
    model: Model,
    choke: LinkId,
    choke_again: LinkId,
    link: LinkId,
)
    requires
        distinct_links(table),
        registered(table, ilp.link_id),
        ilp.lp.nw is Request,
    ensures
        dispatch(ilp, None, table, model, choke) matches Ok(first) && dispatch(
            ilp,
            None,
            first.table,
            first.model,
            choke_again,
        ) matches Ok(second) && copies(first.dispatch.outbound, link) + copies(
            second.dispatch.outbound,
            link,
        ) <= 1,
{
    let first = request_miss(ilp, table, model, choke);
    lemma_request_marks_what_it_sends(ilp, table, model, choke, link);
    lemma_request_marks_what_it_sends(ilp, table, model, choke, ilp.link_id);
    lemma_request_marks_what_it_sends(ilp, first.table, first.model, choke_again, link);
}

/// Response gating: a reply that comes by a link which does not show its
/// address as forwarded is dropped. Nothing is sent, nothing is written to
/// the cache, and the state of the node stays as it is.
pub proof fn lemma_unsolicited_reply_is_dropped(
    ilp: InterLink,
    cached: Option<Seq<u8>>,
    table: Links,
    model: Model,
    choke: LinkId,
)
    requires
        registered(table, ilp.link_id),
        ilp.lp.nw is Response,
        !state_of(table, ilp.link_id).contains_forwarded(ilp.hbfi()),
    ensures
        dispatch(ilp, cached, table, model, choke) matches Ok(step) && {
            &&& step.dispatch.outbound.len() == 0
            &&& step.dispatch.store is None
            &&& step.table == table
            &&& step.model == model
        },
{
}

/// Leaving out or changing entries that do not wait for a reply does not
/// change which links wait for it.
proof fn lemma_waiting_congruent(a: Links, b: Links, arrival: LinkId, hbfi: HBFI)
    requires
        a.len() == b.len(),
        forall|i: int|
            0 <= i < a.len() ==> #[trigger] a[i] == b[i] || (!awaits(a[i], arrival, hbfi)
                && !awaits(b[i], arrival, hbfi)),
    ensures
        waiting(a, arrival, hbfi) == waiting(b, arrival, hbfi),
    decreases a.len(),
{
    reveal(Seq::filter);
    if a.len() > 0 {
        let fa = a.drop_last();
        let fb = b.drop_last();
        assert forall|i: int| 0 <= i < fa.len() implies #[trigger] fa[i] == fb[i] || (!awaits(
            fa[i],
            arrival,
            hbfi,
        ) && !awaits(fb[i], arrival, hbfi)) by {
            assert(a[i] == b[i] || (!awaits(a[i], arrival, hbfi) && !awaits(
                b[i],
                arrival,
                hbfi,
            )));
        }
        lemma_waiting_congruent(fa, fb, arrival, hbfi);
        assert(a[a.len() - 1] == b[a.len() - 1] || (!awaits(a[a.len() - 1], arrival, hbfi)
            && !awaits(b[a.len() - 1], arrival, hbfi)));
    } else {
        assert(a =~= b);
    }
}

/// The link that a reply came by does not wait for it, whatever marks it
/// holds: changing its interest state does not change who the reply is
/// relayed to.
pub proof fn lemma_relay_ignores_arrival(table: Links, ilp: InterLink, state: BloomsView)
    requires
        distinct_links(table),
        registered(table, ilp.link_id),
    ensures
        waiting(with_state(table, ilp.link_id, state), ilp.link_id, ilp.hbfi()) == waiting(
            table,
            ilp.link_id,
            ilp.hbfi(),
        ),
        relay_sent(with_state(table, ilp.link_id, state), ilp) == relay_sent(table, ilp),
{
    let arrival = ilp.link_id;
    let hbfi = ilp.hbfi();
    let changed = with_state(table, arrival, state);
    lemma_position_of(table, arrival);
    assert forall|i: int| 0 <= i < changed.len() implies #[trigger] changed[i] == table[i] || (
    !awaits(changed[i], arrival, hbfi) && !awaits(table[i], arrival, hbfi)) by {
        if i == position_of(table, arrival) {
            assert(changed[i].0 == arrival);
            assert(table[i].0 == arrival);
        }
    }
    lemma_waiting_congruent(changed, table, arrival, hbfi);
}

/// The relay of a reply sends one packet for each link that waits, and
/// each packet is the reply itself on the link that waits.
proof fn lemma_relay_sent(table: Links, ilp: InterLink)
    ensures
        relay_sent(table, ilp).len() == waiting(table, ilp.link_id, ilp.hbfi()).len(),
        forall|k: int|
            0 <= k < relay_sent(table, ilp).len() ==> #[trigger] relay_sent(table, ilp)[k]
                == ilp.change_destination(waiting(table, ilp.link_id, ilp.hbfi())[k].0),
{
}

/// What the relay of a reply does for one link: a registered link gets one
/// copy if it waits for the reply, and none if it does not.
proof fn lemma_relay_copies(table: Links, ilp: InterLink, link: LinkId)
    requires
        distinct_links(table),
    ensures
        copies(relay_sent(table, ilp), link) == if registered(table, link) && awaits(
            (link, state_of(table, link)),
            ilp.link_id,
            ilp.hbfi(),
        ) {
            1nat
        } else {
            0nat
        },
    decreases table.len(),
{
    reveal(Seq::filter);
    let arrival = ilp.link_id;
    let hbfi = ilp.hbfi();
    if table.len() == 0 {
        assert(relay_sent(table, ilp) =~= Seq::<InterLink>::empty());
    } else {
        let front = table.drop_last();
        let last = table.last();
        assert forall|i: int, j: int|
            #![trigger front[i], front[j]]
            0 <= i < j < front.len() implies front[i].0 != front[j].0 by {
            assert(table[i].0 != table[j].0);
        }
        lemma_relay_copies(front, ilp, link);
        if registered(front, link) {
            lemma_position_of(front, link);
            let at = position_of(front, link);
            assert(table[at] == front[at]);
            lemma_position_unique(table, at);
            lemma_position_unique(front, at);
            assert(table[at].0 != table[table.len() - 1].0);
        } else if last.0 == link {
            lemma_position_unique(table, table.len() - 1);
        } else if registered(table, link) {
            lemma_position_of(table, link);
            assert(front[position_of(table, link)].0 == link);
        }
        if awaits(last, arrival, hbfi) {
            assert(relay_sent(table, ilp) =~= relay_sent(front, ilp).push(
                ilp.change_destination(last.0),
            ));
            lemma_copies_push(relay_sent(front, ilp), ilp.change_destination(last.0), link);
        } else {
            assert(relay_sent(table, ilp) =~= relay_sent(front, ilp));
        }
    }
}

/// Multicast: a reply that was asked for on the link it comes by is relayed
/// to every link that waits for it, once to each, and to no other. As many
/// packets are sent as links wait, each is the reply itself, and each link
/// that waited has one pending mark of the address less: a link that held
/// one mark shows the address as pending no longer. The other links keep
/// their interest state, but for the forwarded mark that the arrival link
/// loses. The reply goes to the cache under its encoded address.
pub proof fn lemma_multicast(ilp: InterLink, table: Links, model: Model, link: LinkId)
    requires
        distinct_links(table),
        registered(table, ilp.link_id),
        registered(table, link),
        ilp.lp.nw is Response,
        state_of(table, ilp.link_id).contains_forwarded(ilp.hbfi()),
    ensures
        ({
            let step = response(ilp, table, model);
            let hbfi = ilp.hbfi();
            let waits = awaits((link, state_of(table, link)), ilp.link_id, hbfi);
            &&& step.dispatch.store == Some(
                (crate::codec::address_bytes(hbfi), packet_bytes(ilp.lp.nw)),
            )
            &&& step.dispatch.outbound.len() == waiting(table, ilp.link_id, hbfi).len()
            &&& forall|k: int|
                0 <= k < step.dispatch.outbound.len() ==> #[trigger] step.dispatch.outbound[k]
                    == ilp.change_destination(waiting(table, ilp.link_id, hbfi)[k].0)
            &&& copies(step.dispatch.outbound, link) == if waits {
                1nat
            } else {
                0nat
            }
            &&& distinct_links(step.table)
            &&& registered(step.table, link)
            &&& waits ==> state_of(step.table, link) == state_of(table, link).delete_pending(hbfi)
            &&& waits && state_of(table, link).pending.count(hbfi.digest()) == 1 ==> !state_of(
                step.table,
                link,
            ).contains_pending(hbfi)
            &&& !waits && link != ilp.link_id ==> state_of(step.table, link) == state_of(
                table,
                link,
            )
            &&& !waits && link == ilp.link_id ==> state_of(step.table, link) == state_of(
                table,
                link,
            ).delete_forwarded(hbfi)
        }),
{
    let hbfi = ilp.hbfi();
    let arrival = ilp.link_id;
    let state = state_of(table, arrival).delete_forwarded(hbfi);
    let cleared = with_state(table, arrival, state);
    let step = response(ilp, table, model);
    lemma_with_state_keeps_links(table, arrival, state);
    lemma_with_state_reads(table, arrival, state, link);
    lemma_relay_ignores_arrival(table, ilp, state);
    lemma_relay_sent(cleared, ilp);
    lemma_relay_copies(cleared, ilp, link);
    let after = relay_table(cleared, arrival, hbfi);
    assert(after.len() == cleared.len());
    assert forall|i: int, j: int|
        #![trigger after[i], after[j]]
        0 <= i < j < after.len() implies after[i].0 != after[j].0 by {
        assert(cleared[i].0 != cleared[j].0);
    }
    lemma_position_of(cleared, link);
    let at = position_of(cleared, link);
    assert(after[at].0 == link);
    lemma_position_unique(after, at);
    lemma_position_unique(cleared, at);
    crate::bloom_filter::lemma_clearing_is_safe(
        state_of(table, link).pending,
        hbfi.digest(),
        hbfi.digest(),
    );
}

/// Threat drop: where the classifier ranks the link that must not be
/// forwarded to first, with a weight whose severity is 90 or more, a
/// request that the cache cannot answer is dropped: nothing is sent,
/// nothing is written to the cache, and the call succeeds. The arrival link
/// shows the address as pending all the same.
pub proof fn lemma_threat_drop(ilp: InterLink, table: Links, model: Model, choke: LinkId)
    requires
        registered(table, ilp.link_id),
        ilp.lp.nw is Request,
        ranking(model, ilp.hbfi().features()).len() > 0,
        ranking(model, ilp.hbfi().features())[0].linkid == choke,
        severity_of(ranking(model, ilp.hbfi().features())[0].weight) >= 90,
    ensures
        dispatch(ilp, None, table, model, choke) matches Ok(step) && {
            &&& step.dispatch.outbound.len() == 0
            &&& step.dispatch.store is None
            &&& step.dispatch.threat == Some(ThreatBand::Defcon1)
            &&& step.table == with_state(
                table,
                ilp.link_id,
                state_of(table, ilp.link_id).create_pending(ilp.hbfi()),
            )
        },
{
}

/// A weight of 0.9 or more has a severity of 90 or more, and no lower
/// weight has.
pub proof fn lemma_severity_of_nine_tenths(weight: i64)
    ensures
        severity_of(weight) >= 90 <==> weight >= 900_000,
{
    let w = weight as int;
    if w > 0 {
        assert((w * 100) / 1_000_000 >= 90 <==> w >= 900_000) by (nonlinear_arith)
            requires
                w > 0,
        ;
        assert(0 <= (w * 100) / 1_000_000 <= 0x7fff_ffff_ffff_ffff) by (nonlinear_arith)
            requires
                0 < w <= 0x7fff_ffff_ffff_ffff,
        ;
    }
}

} // verus!
