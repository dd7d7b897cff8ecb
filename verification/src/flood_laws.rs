//! How floods spread: said of the packets that come in and go out.
use crate::client1::{first_request, ClientView};
use crate::client2::{doubled, last_of, packet_handled2, Client2View, ClientGlobals, NewsView};
use crate::known_network::NetView;
use crate::packet::{
    lemma_without_id, response_to, to_each, trace_ids, without_id, BodyView, FloodRequestView,
    FloodResponseView, HeaderView, NodeId, NodeType, OutgoingView, PacketView,
};
use crate::server::ServerView;
use crate::server_control::packet_handled;
use crate::wg_drone::{spread_response, PlainView};
use vstd::prelude::*;

verus! {

/// `q` starts a flood under `flood_id`: node `id` stands alone on the trace.
pub open spec fn starts_flood(id: NodeId, t: NodeType, flood_id: u64, q: PacketView) -> bool {
    match q.body {
        BodyView::FloodRequest(x) => {
            &&& x.flood_id == flood_id
            &&& x.initiator_id == id
            &&& x.path_trace.len() == 1
            &&& x.path_trace[0] == (id, t)
        },
        _ => false,
    }
}

/// `q` carries the flood request `r` on, with node `id` at the end of the trace.
pub open spec fn carries_on(id: NodeId, t: NodeType, r: FloodRequestView, q: PacketView) -> bool {
    match q.body {
        BodyView::FloodRequest(x) => {
            &&& x.flood_id == r.flood_id
            &&& x.path_trace.len() == r.path_trace.len() + 1
            &&& x.path_trace.last() == (id, t)
            &&& forall|k: int|
                0 <= k < r.path_trace.len() ==> #[trigger] x.path_trace[k] == r.path_trace[k]
        },
        _ => false,
    }
}

/// `q` answers the flood request `r`: the trace has node `id` at its end, and the hops lead
/// from that node back along the trace.
pub open spec fn leads_back(id: NodeId, t: NodeType, r: FloodRequestView, q: PacketView) -> bool {
    match q.body {
        BodyView::FloodResponse(x) => {
            &&& x.flood_id == r.flood_id
            &&& x.path_trace.len() == r.path_trace.len() + 1
            &&& x.path_trace.last() == (id, t)
            &&& forall|k: int|
                0 <= k < r.path_trace.len() ==> #[trigger] x.path_trace[k] == r.path_trace[k]
            &&& q.header.hop_index == 1
            &&& q.header.hops.len() >= x.path_trace.len()
            &&& q.header.hops[0] == id
            &&& forall|k: int|
                1 <= k < x.path_trace.len() ==> #[trigger] q.header.hops[k]
                    == r.path_trace[r.path_trace.len() - k].0
        },
        _ => false,
    }
}

/// The packets go to every node of a list but one, each of them `P`, and to nobody else.
pub open spec fn goes_to_all(
    out: Seq<OutgoingView>,
    ids: Seq<NodeId>,
    but: Option<NodeId>,
    good: spec_fn(PacketView) -> bool,
) -> bool {
    &&& forall|n: NodeId| #[trigger]
        ids.contains(n) && Some(n) != but ==> exists|k: int|
            0 <= k < out.len() && (#[trigger] out[k]).to == n && good(out[k].packet)
    &&& forall|k: int|
        0 <= k < out.len() ==> ids.contains((#[trigger] out[k]).to) && good(out[k].packet)
}

/// The packets of `out` go to different nodes.
pub open spec fn each_once(out: Seq<OutgoingView>) -> bool {
    forall|j: int, k: int|
        0 <= j < k < out.len() ==> (#[trigger] out[j]).to != (#[trigger] out[k]).to
}

/// No packet of `out` goes to `id`.
pub open spec fn none_to(out: Seq<OutgoingView>, id: NodeId) -> bool {
    forall|k: int| 0 <= k < out.len() ==> (#[trigger] out[k]).to != id
}

pub proof fn lemma_to_each(ids: Seq<NodeId>, q: PacketView, good: spec_fn(PacketView) -> bool)
    requires
        good(q),
    ensures
        goes_to_all(to_each(ids, q), ids, None, good),
        to_each(ids, q).len() == ids.len(),
        ids.no_duplicates() ==> each_once(to_each(ids, q)),
{
    let out = to_each(ids, q);
    assert forall|n: NodeId| #[trigger] ids.contains(n) && Some(n) != None::<NodeId> implies exists|
        k: int,
    | 0 <= k < out.len() && (#[trigger] out[k]).to == n && good(out[k].packet) by {
        let k = ids.index_of(n);
        assert(out[k].to == n);
    }
    assert forall|k: int| 0 <= k < out.len() implies ids.contains((#[trigger] out[k]).to) && good(
        out[k].packet,
    ) by {
        assert(ids.contains(ids[k]));
    }
}

proof fn lemma_to_others(
    ids: Seq<NodeId>,
    but: NodeId,
    q: PacketView,
    good: spec_fn(PacketView) -> bool,
)
    requires
        good(q),
    ensures
        ({
            let out = to_each(without_id(ids, but), q);
            &&& goes_to_all(out, ids, Some(but), good)
            &&& none_to(out, but)
            &&& ids.no_duplicates() ==> each_once(out)
        }),
{
    let others = without_id(ids, but);
    lemma_without_id(ids, but);
    lemma_to_each(others, q, good);
    let out = to_each(others, q);
    assert forall|n: NodeId| #[trigger] ids.contains(n) && Some(n) != Some(but) implies exists|k: int|
        0 <= k < out.len() && (#[trigger] out[k]).to == n && good(out[k].packet) by {
        assert(others.contains(n));
    }
    assert forall|k: int| 0 <= k < out.len() implies (#[trigger] out[k]).to != but && ids.contains(
        out[k].to,
    ) && good(out[k].packet) by {
        assert(others.contains(out[k].to));
    }
}

/// A client of the first make that starts a flood asks every neighbour, each one once,
/// under an id that the counter has not given before, and keeps the flood open.
pub proof fn law_first_clients_ask_every_neighbour(v: ClientView, counter: u64, now: u64)
    requires
        v.wf(),
        counter < u64::MAX,
    ensures
        ({
            let id = (counter + 1) as u64;
            let out = v.flood_requests(counter);
            let w = v.flooding(counter, now);
            &&& goes_to_all(
                out,
                v.neighbours,
                None,
                |q: PacketView| starts_flood(v.id, NodeType::Client, id, q),
            )
            &&& each_once(out)
            &&& w.floods.contains_key(id)
            &&& w.floods[id].initiator == v.id
            &&& w.floods[id].start == now
            &&& w.floods[id].responses.len() == 0
            &&& forall|f: u64|
                f != id ==> (#[trigger] w.floods.contains_key(f) <==> v.floods.contains_key(f))
                    && w.floods[f] == v.floods[f]
            &&& w.net == v.net && w.neighbours == v.neighbours && w.sent == v.sent && w.server
                == v.server && w.pending == v.pending && w.received == v.received && w.seen
                == v.seen
        }),
{
    let id = (counter + 1) as u64;
    let good = |q: PacketView| starts_flood(v.id, NodeType::Client, id, q);
    let q = first_request(v.id, id);
    assert(good(q));
    lemma_to_each(v.neighbours, q, good);
}

/// A client of the second make that starts a flood asks every neighbour, each one once,
/// under an id that the counter has not given before.
pub proof fn law_second_clients_ask_every_neighbour(v: Client2View, g: ClientGlobals)
    requires
        v.wf(),
        g.flood_ids < u64::MAX,
    ensures
        goes_to_all(
            v.flood_requests(g),
            v.neighbours,
            None,
            |q: PacketView| starts_flood(v.id, NodeType::Client, (g.flood_ids + 1) as u64, q),
        ),
        each_once(v.flood_requests(g)),
        g.next_flood().flood_ids == g.flood_ids + 1,
        g.next_flood().server == g.server && g.next_flood().peer == g.peer
            && g.next_flood().chatting == g.chatting,
{
    let id = (g.flood_ids + 1) as u64;
    let good = |q: PacketView| starts_flood(v.id, NodeType::Client, id, q);
    let first = PacketView {
        body: BodyView::FloodRequest(
            FloodRequestView {
                flood_id: id,
                initiator_id: v.id,
                path_trace: seq![(v.id, NodeType::Client)],
            },
        ),
        header: HeaderView { hop_index: 0, hops: seq![v.id] },
        session_id: g.session_ids,
    };
    assert(good(first));
    lemma_to_each(v.neighbours, first, good);
}

/// Every neighbour whose role the server knows is asked under an id, and nobody else.
pub open spec fn asked_by(v: ServerView, flood: u64, added: Seq<OutgoingView>) -> bool {
    &&& forall|n: NodeId|
        v.neighbours.contains(n) && #[trigger] v.net.types.contains_key(n) ==> exists|k: int|
            0 <= k < added.len() && (#[trigger] added[k]).to == n && starts_flood(
                v.id,
                NodeType::Server,
                flood,
                added[k].packet,
            )
    &&& forall|k: int|
        0 <= k < added.len() ==> #[trigger] starts_flood(
            v.id,
            NodeType::Server,
            flood,
            added[k].packet,
        ) && v.neighbours.contains(added[k].to) && v.net.types.contains_key(added[k].to)
}

/// A server that starts a flood asks every neighbour whose role it knows, each one once,
/// and nobody else.
pub proof fn law_servers_ask_the_neighbours_they_know(v: ServerView, added: Seq<OutgoingView>)
    requires
        v.is_discovery(added),
        v.neighbours.no_duplicates(),
    ensures
        exists|flood: u64| #[trigger] asked_by(v, flood, added),
        each_once(added),
{
    let flood = choose|flood: u64| added == #[trigger] v.discovery(flood);
    let known = |id: NodeId| v.net.types.contains_key(id);
    let ids = v.neighbours.filter(known);
    lemma_filtered(v.neighbours, known);
    assert(ids == v.typed_neighbours());
    let good = |q: PacketView| starts_flood(v.id, NodeType::Server, flood, q);
    let q = PacketView {
        body: BodyView::FloodRequest(
            FloodRequestView {
                flood_id: flood,
                initiator_id: v.id,
                path_trace: seq![(v.id, NodeType::Server)],
            },
        ),
        header: HeaderView { hop_index: 0, hops: Seq::empty() },
        session_id: flood,
    };
    assert(good(q));
    lemma_to_each(ids, q, good);
    assert forall|n: NodeId|
        v.neighbours.contains(n) && #[trigger] v.net.types.contains_key(n) implies exists|k: int|
        0 <= k < added.len() && (#[trigger] added[k]).to == n && starts_flood(
            v.id,
            NodeType::Server,
            flood,
            added[k].packet,
        ) by {
        assert(ids.contains(n));
        let k = choose|k: int|
            0 <= k < added.len() && (#[trigger] added[k]).to == n && good(added[k].packet);
        assert(added[k].to == n);
    }
    assert forall|k: int| 0 <= k < added.len() implies #[trigger] starts_flood(
        v.id,
        NodeType::Server,
        flood,
        added[k].packet,
    ) && v.neighbours.contains(added[k].to) && v.net.types.contains_key(added[k].to) by {
        assert(ids.contains(added[k].to) && good(added[k].packet));
    }
    assert(asked_by(v, flood, added));
}

/// What is left of a list by a property.
proof fn lemma_filtered(ids: Seq<NodeId>, p: spec_fn(NodeId) -> bool)
    ensures
        forall|n: NodeId| #[trigger] ids.filter(p).contains(n) <==> ids.contains(n) && p(n),
        ids.no_duplicates() ==> ids.filter(p).no_duplicates(),
    decreases ids.len(),
{
    reveal(Seq::filter);
    if ids.len() > 0 {
        let init = ids.drop_last();
        lemma_filtered(init, p);
        let f = init.filter(p);
        let r = ids.filter(p);
        assert(r == if p(ids.last()) {
            f.push(ids.last())
        } else {
            f
        });
        assert forall|n: NodeId| #[trigger] r.contains(n) <==> ids.contains(n) && p(n) by {
            if ids.contains(n) && p(n) {
                if n == ids.last() {
                    assert(r[f.len() as int] == n);
                } else {
                    assert(init[ids.index_of(n)] == n);
                    assert(f.contains(n));
                    assert(r[f.index_of(n)] == n);
                }
            }
            if r.contains(n) {
                let k = r.index_of(n);
                if k < f.len() {
                    assert(f[k] == n);
                    assert(f.contains(n));
                    assert(ids[init.index_of(n)] == n);
                } else {
                    assert(ids[ids.len() - 1] == n);
                }
            }
        }
        if ids.no_duplicates() {
            assert(init.no_duplicates());
            assert forall|i: int, j: int| 0 <= i < j < r.len() implies r[i] != r[j] by {
                if j == f.len() {
                    assert(f.contains(f[i]));
                    assert(init.contains(r[i]));
                    let k = init.index_of(r[i]);
                    assert(ids[k] != ids[ids.len() - 1]);
                }
            }
        }
    }
}

/// A client of the first make hands a flood request that is new to it to every neighbour
/// but the one that it came from, with itself at the end of the trace, each one once; it
/// remembers the flood. Where it has seen the flood, or has one neighbour only, it answers
/// along the trace.
pub proof fn law_first_clients_take_part_in_floods(v: ClientView, net: NetView, p: PacketView)
    requires
        v.wf(),
        p.body is FloodRequest,
        p.body->FloodRequest_0.path_trace.len() > 0,
        v.packet_net(net, p),
    ensures
        ({
            let r = p.body->FloodRequest_0;
            let from = r.path_trace.last().0;
            let out = v.packet_answer(p);
            let known = v.seen.contains((r.flood_id, r.initiator_id));
            let w = v.after_packet(net, p);
            &&& !known && v.neighbours.len() != 1 ==> goes_to_all(
                out,
                v.neighbours,
                Some(from),
                |q: PacketView|
                    carries_on(v.id, NodeType::Client, r, q)
                        && q.body->FloodRequest_0.initiator_id == r.initiator_id,
            ) && none_to(out, from) && each_once(out) && w.seen.contains(
                (r.flood_id, r.initiator_id),
            )
            &&& (known || v.neighbours.len() == 1) && v.neighbours.contains(from) ==> out.len() == 1
                && out[0].to == from && leads_back(v.id, NodeType::Client, r, out[0].packet)
            &&& (known || v.neighbours.len() == 1) && !v.neighbours.contains(from) ==> out.len()
                == 0
            &&& w.net == v.net && w.neighbours == v.neighbours && w.sent == v.sent && w.floods
                == v.floods && w.received == v.received && w.server == v.server
            &&& v.packet_notice(p) is None
        }),
{
    let r = p.body->FloodRequest_0;
    let from = r.path_trace.last().0;
    let t = r.path_trace.push((v.id, NodeType::Client));
    let good = |q: PacketView|
        carries_on(v.id, NodeType::Client, r, q) && q.body->FloodRequest_0.initiator_id
            == r.initiator_id;
    let q = PacketView {
        body: BodyView::FloodRequest(FloodRequestView { path_trace: t, ..r }),
        header: HeaderView { hop_index: 0, hops: Seq::empty() },
        session_id: r.flood_id,
    };
    assert(good(q)) by {
        assert forall|k: int| 0 <= k < r.path_trace.len() implies #[trigger] t[k]
            == r.path_trace[k] by {}
    }
    lemma_to_others(v.neighbours, from, q, good);
    lemma_back(v.id, NodeType::Client, r);
}

/// The ids of a trace backwards.
proof fn lemma_back(id: NodeId, t: NodeType, r: FloodRequestView)
    ensures
        ({
            let s = r.path_trace.push((id, t));
            let hops = trace_ids(s).reverse();
            &&& hops.len() == s.len()
            &&& hops[0] == id
            &&& forall|k: int|
                1 <= k < s.len() ==> #[trigger] hops[k] == r.path_trace[r.path_trace.len() - k].0
            &&& forall|k: int| 0 <= k < r.path_trace.len() ==> #[trigger] s[k] == r.path_trace[k]
        }),
{
    let s = r.path_trace.push((id, t));
    let ids = trace_ids(s);
    let hops = ids.reverse();
    assert(hops[0] == ids[ids.len() - 1]);
    assert forall|k: int| 1 <= k < s.len() implies #[trigger] hops[k] == r.path_trace[r.path_trace.len()
        - k].0 by {
        assert(hops[k] == ids[ids.len() - 1 - k]);
        assert(ids[ids.len() - 1 - k] == s[s.len() - 1 - k].0);
    }
}

proof fn lemma_doubled(
    ids: Seq<NodeId>,
    from: Option<NodeId>,
    q: PacketView,
    good: spec_fn(PacketView) -> bool,
)
    requires
        good(q),
    ensures
        goes_to_all(doubled(ids, from, q), ids, None, good),
    decreases ids.len(),
{
    let out = doubled(ids, from, q);
    if ids.len() > 0 {
        let init = ids.drop_last();
        let before = doubled(init, from, q);
        lemma_doubled(init, from, q, good);
        let n = before.len() as int;
        assert(out[n] == (OutgoingView { to: ids.last(), packet: q }));
        assert forall|x: NodeId| #[trigger] ids.contains(x) && Some(x) != None::<NodeId> implies exists|
            k: int,
        | 0 <= k < out.len() && (#[trigger] out[k]).to == x && good(out[k].packet) by {
            if x == ids.last() {
                assert(out[n].to == x);
            } else {
                assert(init[ids.index_of(x)] == x);
                assert(init.contains(x));
                let k = choose|k: int|
                    0 <= k < before.len() && (#[trigger] before[k]).to == x && good(before[k].packet);
                assert(out[k] == before[k]);
            }
        }
        assert forall|k: int| 0 <= k < out.len() implies ids.contains((#[trigger] out[k]).to)
            && good(out[k].packet) by {
            if k < n {
                assert(out[k] == before[k]);
                assert(init.contains(before[k].to));
                assert(ids[init.index_of(before[k].to)] == before[k].to);
            } else {
                assert(ids[ids.len() - 1] == out[k].to);
            }
        }
    }
}

/// A client of the second make hands a flood request that is new to it to every neighbour,
/// with itself at the end of the trace, and remembers the flood. Where it has seen the
/// flood, or has one neighbour only, it answers along the trace.
pub proof fn law_second_clients_take_part_in_floods(
    a: Client2View,
    b: Client2View,
    p: PacketView,
    g0: ClientGlobals,
    g1: ClientGlobals,
    added: Seq<OutgoingView>,
    news: Option<NewsView>,
    ok: bool,
)
    requires
        p.body is FloodRequest,
        p.body->FloodRequest_0.path_trace.len() > 0,
        packet_handled2(a, b, p, g0, g1, added, news, ok),
    ensures
        ({
            let r = p.body->FloodRequest_0;
            let from = r.path_trace.last().0;
            let known = a.seen.contains((r.flood_id, r.initiator_id));
            &&& !known && a.neighbours.len() != 1 ==> goes_to_all(
                added,
                a.neighbours,
                None,
                |q: PacketView|
                    carries_on(a.id, NodeType::Client, r, q)
                        && q.body->FloodRequest_0.initiator_id == r.path_trace[0].0,
            ) && b.seen.contains((r.flood_id, r.initiator_id))
            &&& known || a.neighbours.len() == 1 ==> added.len() == 1 && added[0].to == from
                && leads_back(a.id, NodeType::Client, r, added[0].packet)
                && added[0].packet.header.hops.last() == r.initiator_id
            &&& b.mesh == a.mesh && b.neighbours == a.neighbours && b.sent == a.sent && b.received
                == a.received
            &&& news is None
        }),
{
    let r = p.body->FloodRequest_0;
    let t = r.path_trace.push((a.id, NodeType::Client));
    let good = |q: PacketView|
        carries_on(a.id, NodeType::Client, r, q) && q.body->FloodRequest_0.initiator_id
            == r.path_trace[0].0;
    let q = PacketView {
        body: BodyView::FloodRequest(
            FloodRequestView { path_trace: t, initiator_id: t[0].0, ..r },
        ),
        header: HeaderView {
            hop_index: p.header.hop_index + 1,
            hops: p.header.hops.push(a.id),
        },
        session_id: g0.session_ids,
    };
    assert(good(q)) by {
        assert forall|k: int| 0 <= k < r.path_trace.len() implies #[trigger] t[k]
            == r.path_trace[k] by {}
    }
    lemma_doubled(a.neighbours, last_of(r.path_trace), q, good);
    lemma_back(a.id, NodeType::Client, r);
    if a.seen.contains((r.flood_id, r.initiator_id)) || a.neighbours.len() == 1 {
        lemma_response(a.id, NodeType::Client, r, g0.session_ids);
    }
}

/// The response to a request leads back along its trace to the initiator.
proof fn lemma_response(id: NodeId, t: NodeType, r: FloodRequestView, session: u64)
    requires
        r.path_trace.len() > 0,
    ensures
        ({
            let longer = FloodRequestView { path_trace: r.path_trace.push((id, t)), ..r };
            let q = response_to(longer, session, 1);
            leads_back(id, t, r, q) && q.header.hops.last() == r.initiator_id && q.header.hops[1]
                == r.path_trace.last().0
        }),
{
    lemma_back(id, t, r);
    let s = r.path_trace.push((id, t));
    let longer = FloodRequestView { path_trace: s, ..r };
    let q = response_to(longer, session, 1);
    let back = trace_ids(s).reverse();
    assert forall|k: int| 0 <= k < back.len() implies #[trigger] q.header.hops[k] == back[k] by {}
    assert forall|k: int| 1 <= k < s.len() implies #[trigger] q.header.hops[k]
        == r.path_trace[r.path_trace.len() - k].0 by {
        assert(q.header.hops[k] == back[k]);
    }
    assert(q.header.hops[1] == back[1]);
    assert(q.header.hops[0] == back[0]);
}

/// A server hands a flood request that is new to it to every neighbour but the one that it
/// came from, with itself at the end of the trace, each one once. A flood that it has seen
/// is answered along the trace. It remembers every flood.
pub proof fn law_servers_take_part_in_floods(
    a: ServerView,
    b: ServerView,
    p: PacketView,
    added: Seq<OutgoingView>,
    lines: Seq<Seq<char>>,
)
    requires
        a.wf(),
        p.body is FloodRequest,
        p.body->FloodRequest_0.path_trace.len() > 0,
        packet_handled(a, b, p, added, lines),
    ensures
        ({
            let r = p.body->FloodRequest_0;
            let from = r.path_trace.last().0;
            let known = a.seen.contains((r.flood_id, r.initiator_id));
            &&& !known ==> goes_to_all(
                added,
                a.neighbours,
                Some(from),
                |q: PacketView|
                    carries_on(a.id, NodeType::Server, r, q)
                        && q.body->FloodRequest_0.initiator_id == r.initiator_id,
            ) && none_to(added, from) && each_once(added)
            &&& known && a.neighbours.contains(from) ==> added.len() == 1 && added[0].to == from
                && leads_back(a.id, NodeType::Server, r, added[0].packet)
                && added[0].packet.header.hops.last() == r.initiator_id
            &&& known && !a.neighbours.contains(from) ==> added.len() == 0
            &&& b.seen.contains((r.flood_id, r.initiator_id))
            &&& b == (ServerView { seen: b.seen, ..a })
            &&& lines.len() == 0
        }),
{
    let r = p.body->FloodRequest_0;
    let from = r.path_trace.last().0;
    let t = r.path_trace.push((a.id, NodeType::Server));
    let good = |q: PacketView|
        carries_on(a.id, NodeType::Server, r, q) && q.body->FloodRequest_0.initiator_id
            == r.initiator_id;
    let q = PacketView {
        body: BodyView::FloodRequest(FloodRequestView { path_trace: t, ..r }),
        header: HeaderView { hop_index: 0, hops: Seq::empty() },
        session_id: p.session_id,
    };
    assert(good(q)) by {
        assert forall|k: int| 0 <= k < r.path_trace.len() implies #[trigger] t[k]
            == r.path_trace[k] by {}
    }
    lemma_to_others(a.neighbours, from, q, good);
    lemma_response(a.id, NodeType::Server, r, p.session_id);
}

/// A plain drone hands a flood request that is new to it, as it is, to every neighbour but
/// the initiator, each one once. It remembers the flood.
pub proof fn law_plain_drones_spread_floods(v: PlainView, p: PacketView, drop: bool)
    requires
        v.wf(),
        p.body is FloodRequest,
        !v.seen.contains(p.body->FloodRequest_0.flood_id),
    ensures
        ({
            let r = p.body->FloodRequest_0;
            let out = v.handled(p, drop);
            &&& v.fits(p, drop)
            &&& goes_to_all(out, v.neighbours, Some(r.initiator_id), |q: PacketView| q.body == p.body)
            &&& none_to(out, r.initiator_id)
            &&& each_once(out)
            &&& forall|k: int|
                0 <= k < out.len() ==> (#[trigger] out[k]).packet.header.hops == seq![v.id, out[k].to]
            &&& v.after_packet(p).seen == v.seen.insert(r.flood_id)
            &&& v.after_packet(p).neighbours == v.neighbours
        }),
{
    let r = p.body->FloodRequest_0;
    let out = v.handled(p, drop);
    let others = without_id(v.neighbours, r.initiator_id);
    lemma_without_id(v.neighbours, r.initiator_id);
    assert forall|k: int| 0 <= k < out.len() implies (#[trigger] out[k]).to == others[k]
        && out[k].packet.body == p.body && out[k].packet.header.hops == seq![v.id, others[k]] by {}
    assert forall|n: NodeId| #[trigger]
        v.neighbours.contains(n) && Some(n) != Some(r.initiator_id) implies exists|k: int|
        0 <= k < out.len() && (#[trigger] out[k]).to == n && out[k].packet.body == p.body by {
        assert(others.contains(n));
        let k = others.index_of(n);
        assert(out[k].to == n);
    }
    assert forall|k: int| 0 <= k < out.len() implies v.neighbours.contains((#[trigger] out[k]).to)
        && out[k].to != r.initiator_id by {
        assert(others.contains(others[k]));
    }
}

/// A plain drone answers a flood request that it has seen: every neighbour gets a response
/// whose trace is that of the request with the drone at its end, and whose hops lead back
/// along it.
pub proof fn law_plain_drones_answer_known_floods(v: PlainView, p: PacketView, drop: bool)
    requires
        v.wf(),
        p.body is FloodRequest,
        v.seen.contains(p.body->FloodRequest_0.flood_id),
    ensures
        ({
            let r = p.body->FloodRequest_0;
            let out = v.handled(p, drop);
            &&& goes_to_all(
                out,
                v.neighbours,
                None,
                |q: PacketView|
                    {
                        &&& q.body is FloodResponse
                        &&& q.body->FloodResponse_0.flood_id == r.flood_id
                        &&& q.body->FloodResponse_0.path_trace == r.path_trace.push(
                            (v.id, NodeType::Drone),
                        )
                        &&& q.header.hops.len() == r.path_trace.len() + 1
                        &&& q.header.hops[0] == v.id
                        &&& forall|k: int|
                            1 <= k <= r.path_trace.len() ==> #[trigger] q.header.hops[k]
                                == r.path_trace[r.path_trace.len() - k].0
                    },
            )
            &&& each_once(out)
        }),
{
    let r = p.body->FloodRequest_0;
    let good = |q: PacketView|
        {
            &&& q.body is FloodResponse
            &&& q.body->FloodResponse_0.flood_id == r.flood_id
            &&& q.body->FloodResponse_0.path_trace == r.path_trace.push((v.id, NodeType::Drone))
            &&& q.header.hops.len() == r.path_trace.len() + 1
            &&& q.header.hops[0] == v.id
            &&& forall|k: int|
                1 <= k <= r.path_trace.len() ==> #[trigger] q.header.hops[k]
                    == r.path_trace[r.path_trace.len() - k].0
        };
    let q = spread_response(
        FloodResponseView {
            flood_id: r.flood_id,
            path_trace: r.path_trace.push((v.id, NodeType::Drone)),
        },
    );
    lemma_back(v.id, NodeType::Drone, r);
    assert(good(q));
    lemma_to_each(v.neighbours, q, good);
}

/// A plain drone hands a flood response that is new to it to every neighbour but the last
/// node of its trace, with its hops leading back along the trace; one of a flood that it
/// knows goes nowhere.
pub proof fn law_plain_drones_spread_responses(v: PlainView, p: PacketView, drop: bool)
    requires
        v.wf(),
        p.body is FloodResponse,
        p.body->FloodResponse_0.path_trace.len() > 0,
    ensures
        ({
            let r = p.body->FloodResponse_0;
            let last = r.path_trace.last().0;
            let out = v.handled(p, drop);
            &&& v.seen.contains(r.flood_id) ==> out.len() == 0
            &&& !v.seen.contains(r.flood_id) ==> goes_to_all(
                out,
                v.neighbours,
                Some(last),
                |q: PacketView| q.body == p.body && q.header.hops.len() > 0 && q.header.hops[0] == last,
            ) && none_to(out, last) && each_once(out)
            &&& v.after_packet(p).seen == v.seen.insert(r.flood_id)
        }),
{
    let r = p.body->FloodResponse_0;
    let last = r.path_trace.last().0;
    let good = |q: PacketView|
        q.body == p.body && q.header.hops.len() > 0 && q.header.hops[0] == last;
    let q = spread_response(r);
    let ids = trace_ids(r.path_trace);
    assert(ids.reverse()[0] == ids[ids.len() - 1]);
    assert(good(q));
    lemma_to_others(v.neighbours, last, q, good);
}

}
