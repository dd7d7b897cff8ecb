//! What drones do with packets, said of the packets that come in and go out.
use crate::drone::{tried, ActionView, DroneCommand, DroneView, EventView};
use crate::packet::{
    lemma_without_id, without_id, Ack, BodyView, FloodRequestView, FloodResponseView, HeaderView,
    Nack, NackType, NodeId, NodeType, PacketView,
};
use vstd::prelude::*;

verus! {

/// A packet that has come to a hop of its route, with at least one more behind it.
pub open spec fn under_way(p: PacketView) -> bool {
    0 <= p.header.hop_index && p.header.hop_index + 1 < p.header.hops.len()
}

/// `q` is `p`, bound for the hop behind.
pub open spec fn one_further(p: PacketView, q: PacketView) -> bool {
    &&& q.body == p.body
    &&& q.session_id == p.session_id
    &&& q.header.hops == p.header.hops
    &&& q.header.hop_index == p.header.hop_index + 1
}

/// `n` reports to the source of `p` what became of it at node `id`: it names the fragment
/// and takes the hops of `p` backwards.
pub open spec fn reports(id: NodeId, p: PacketView, t: NackType, n: PacketView) -> bool {
    let pos = p.header.hop_index;
    &&& n.session_id == p.session_id
    &&& n.header.hop_index == 1
    &&& n.header.hops.len() == pos + 1
    &&& n.header.hops[0] == id
    &&& forall|k: int| 1 <= k <= pos ==> #[trigger] n.header.hops[k] == p.header.hops[pos - k]
    &&& match n.body {
        BodyView::Nack(x) => x.nack_type == t && (p.body is MsgFragment ==> x.fragment_index
            == p.body->MsgFragment_0.fragment_index) && (!(p.body is MsgFragment)
            ==> x.fragment_index == 0),
        _ => false,
    }
}

/// `q` carries on a flood request that drone `id` has signed.
pub open spec fn spreads(id: NodeId, r: FloodRequestView, q: PacketView) -> bool {
    match q.body {
        BodyView::FloodRequest(x) => {
            &&& x.flood_id == r.flood_id
            &&& x.initiator_id == r.path_trace[0].0
            &&& x.path_trace.len() == r.path_trace.len() + 1
            &&& x.path_trace.last() == (id, NodeType::Drone)
            &&& forall|k: int|
                0 <= k < r.path_trace.len() ==> #[trigger] x.path_trace[k] == r.path_trace[k]
            &&& q.header.hop_index == r.path_trace.len()
            &&& q.header.hops.len() == x.path_trace.len()
            &&& forall|k: int|
                0 <= k < x.path_trace.len() ==> #[trigger] q.header.hops[k] == x.path_trace[k].0
        },
        _ => false,
    }
}

/// `q` answers a flood request: its trace is that of the request backwards, from drone
/// `id` on.
pub open spec fn answers(id: NodeId, r: FloodRequestView, q: PacketView) -> bool {
    match q.body {
        BodyView::FloodResponse(x) => {
            &&& x.flood_id == r.flood_id
            &&& x.path_trace.len() == r.path_trace.len() + 1
            &&& x.path_trace[0] == (id, NodeType::Drone)
            &&& forall|k: int|
                1 <= k < x.path_trace.len() ==> #[trigger] x.path_trace[k]
                    == r.path_trace[r.path_trace.len() - k]
        },
        _ => false,
    }
}

/// A drone hands a fragment that it does not lose to the next hop, and to nobody else;
/// the controller is told.
pub proof fn law_fragments_are_handed_on(d: DroneView, p: PacketView)
    requires
        under_way(p),
        p.header.hops[p.header.hop_index] == d.id,
        d.neighbours.contains(p.header.hops[p.header.hop_index + 1]),
        p.body is MsgFragment,
    ensures
        d.fits(p),
        d.after_packet(p) == d,
        exists|q: PacketView|
            {
                &&& #[trigger] one_further(p, q)
                &&& d.handled(p, false).contains(
                    ActionView::Send(p.header.hops[p.header.hop_index + 1], q),
                )
                &&& d.handled(p, false).contains(ActionView::Report(EventView::PacketSent(q)))
                &&& !d.neighbours.contains(d.id) ==> d.handled(p, false).len() == 2
            },
        forall|to: NodeId, q: PacketView| #[trigger]
            d.handled(p, false).contains(ActionView::Send(to, q)) ==> one_further(p, q) && to
                == p.header.hops[p.header.hop_index + 1],
{
    let next = p.header.hops[p.header.hop_index + 1];
    let h = d.handled(p, false);
    let q = PacketView {
        header: HeaderView { hop_index: p.header.hop_index + 1, ..p.header },
        ..p
    };
    assert(one_further(p, q));
    assert(h[0] == ActionView::Send(next, q));
    assert(h[h.len() - 1] == ActionView::Report(EventView::PacketSent(q)));
    assert(h.contains(h[0]) && h.contains(h[h.len() - 1]));
}

/// A drone that loses a fragment sends it to nobody. The controller is told, and where
/// the node before is a neighbour, it gets the report of the loss.
pub proof fn law_lost_fragments_go_nowhere(d: DroneView, p: PacketView)
    requires
        under_way(p),
        p.header.hops[p.header.hop_index] == d.id,
        d.neighbours.contains(p.header.hops[p.header.hop_index + 1]),
        p.body is MsgFragment,
    ensures
        d.fits(p),
        d.after_packet(p) == d,
        exists|q: PacketView|
            {
                &&& #[trigger] one_further(p, q)
                &&& d.handled(p, true).contains(ActionView::Report(EventView::PacketDropped(q)))
            },
        forall|to: NodeId, q: PacketView|
            !(#[trigger] d.handled(p, true).contains(ActionView::Send(to, q))),
        forall|to: NodeId, q: PacketView|
            p.header.hop_index > 0 && #[trigger] d.handled(p, true).contains(
                ActionView::Try(to, q),
            ) ==> reports(d.id, p, NackType::Dropped, q) && to == p.header.hops[p.header.hop_index
                - 1],
        p.header.hop_index > 0 && d.neighbours.contains(p.header.hops[p.header.hop_index - 1])
            ==> exists|n: PacketView|
            {
                &&& #[trigger] reports(d.id, p, NackType::Dropped, n)
                &&& d.handled(p, true).contains(
                    ActionView::Try(p.header.hops[p.header.hop_index - 1], n),
                )
            },
{
    let h = d.handled(p, true);
    let q = PacketView {
        header: HeaderView { hop_index: p.header.hop_index + 1, ..p.header },
        ..p
    };
    assert(one_further(p, q));
    assert(h[0] == ActionView::Report(EventView::PacketDropped(q)));
    assert(h.contains(h[0]));
    lemma_nacked(d, p, NackType::Dropped);
    let n = d.nacked(p, NackType::Dropped);
    assert(h =~= seq![h[0]] + n);
    assert forall|a: ActionView| h.contains(a) && a != h[0] implies n.contains(a) by {
        let k = h.index_of(a);
        assert(n[k - 1] == a);
    }
    if n.len() > 0 {
        assert(h[1] == n[0]);
        assert(h.contains(h[1]));
    }
}

/// The nack of a drone reports to the node before, where that is a neighbour.
proof fn lemma_nacked(d: DroneView, p: PacketView, t: NackType)
    requires
        0 <= p.header.hop_index < p.header.hops.len(),
    ensures
        d.nacked(p, t).len() <= 1,
        p.header.hop_index > 0 ==> (d.nacked(p, t).len() == 1 <==> d.neighbours.contains(
            p.header.hops[p.header.hop_index - 1],
        )),
        p.header.hop_index > 0 && d.nacked(p, t).len() == 1 ==> ({
            &&& d.nacked(p, t)[0] is Try
            &&& d.nacked(p, t)[0]->Try_0 == p.header.hops[p.header.hop_index - 1]
            &&& reports(d.id, p, t, d.nacked(p, t)[0]->Try_1)
        }),
        forall|k: int| 0 <= k < d.nacked(p, t).len() ==> (#[trigger] d.nacked(p, t)[k]) is Try,
{
    let pos = p.header.hop_index;
    let back = p.header.hops.subrange(0, pos).reverse();
    let hops = seq![d.id] + back;
    assert forall|k: int| 1 <= k <= pos implies #[trigger] hops[k] == p.header.hops[pos - k] by {
        assert(hops[k] == back[k - 1]);
    }
}

/// What came of a packet that a drone cannot hand on: where the node before is a
/// neighbour, it gets the report, and nothing else happens.
pub open spec fn only_reported(d: DroneView, p: PacketView, t: NackType, h: Seq<ActionView>) -> bool {
    let before = p.header.hops[p.header.hop_index - 1];
    if d.neighbours.contains(before) {
        &&& h.len() == 1
        &&& h[0] is Try
        &&& h[0]->Try_0 == before
        &&& reports(d.id, p, t, h[0]->Try_1)
    } else {
        h.len() == 0
    }
}

/// A packet that a drone cannot hand on is reported, with the reason: it is not for the
/// drone, it ends at the drone, or the next hop is no neighbour.
pub proof fn law_packets_without_a_way_are_reported(d: DroneView, p: PacketView, drop: bool)
    requires
        0 < p.header.hop_index < p.header.hops.len(),
        d.fits(p),
    ensures
        ({
            let pos = p.header.hop_index;
            let hops = p.header.hops;
            let h = d.handled(p, drop);
            &&& hops[pos] != d.id ==> only_reported(
                d,
                p,
                NackType::UnexpectedRecipient(d.id),
                h,
            )
            &&& hops[pos] == d.id && pos + 1 == hops.len() ==> only_reported(
                d,
                p,
                NackType::DestinationIsDrone,
                h,
            )
            &&& hops[pos] == d.id && pos + 1 < hops.len() && !d.neighbours.contains(hops[pos + 1])
                ==> only_reported(d, p, NackType::ErrorInRouting(hops[pos + 1]), h)
            &&& hops[pos] != d.id || pos + 1 == hops.len() || !d.neighbours.contains(hops[pos + 1])
                ==> d.after_packet(p) == d
        }),
{
    let pos = p.header.hop_index;
    lemma_nacked(d, p, NackType::UnexpectedRecipient(d.id));
    lemma_nacked(d, p, NackType::DestinationIsDrone);
    if pos + 1 < p.header.hops.len() {
        lemma_nacked(d, p, NackType::ErrorInRouting(p.header.hops[pos + 1]));
    }
}

/// A drone hands acks and nacks to the next hop, and does nothing else with them.
pub proof fn law_receipts_are_handed_on(d: DroneView, p: PacketView, drop: bool)
    requires
        under_way(p),
        p.header.hops[p.header.hop_index] == d.id,
        d.neighbours.contains(p.header.hops[p.header.hop_index + 1]),
        p.body is Ack || p.body is Nack,
    ensures
        d.fits(p),
        d.after_packet(p) == d,
        d.handled(p, drop).len() == 1,
        d.handled(p, drop)[0] is Try,
        d.handled(p, drop)[0]->Try_0 == p.header.hops[p.header.hop_index + 1],
        one_further(p, d.handled(p, drop)[0]->Try_1),
{
}

/// An action is the answer of drone `d` to a flood request, for the node that the request
/// came from. It goes through the controller where that is no neighbour.
pub open spec fn is_answer(d: DroneView, r: FloodRequestView, a: ActionView) -> bool {
    let from = r.path_trace.last().0;
    if d.neighbours.contains(from) {
        a is Send && a->Send_0 == from && answers(d.id, r, a->Send_1)
    } else {
        a is Report && a->Report_0 is ControllerShortcut && answers(
            d.id,
            r,
            a->Report_0->ControllerShortcut_0,
        )
    }
}

proof fn lemma_answer(d: DroneView, r: FloodRequestView)
    requires
        r.path_trace.len() >= 1,
    ensures
        ({
            let s = r.path_trace.push((d.id, NodeType::Drone)).reverse();
            let x = FloodResponseView { flood_id: r.flood_id, path_trace: s };
            let h = d.responded(x);
            &&& h.len() == 1
            &&& is_answer(d, r, h[0])
        }),
{
    let t = r.path_trace.push((d.id, NodeType::Drone));
    let s = t.reverse();
    assert forall|k: int| 1 <= k < s.len() implies #[trigger] s[k] == r.path_trace[r.path_trace.len()
        - k] by {
        assert(s[k] == t[t.len() - 1 - k]);
    }
    assert(s[0] == t[t.len() - 1]);
    assert(s[1] == r.path_trace.last());
}

/// A flood request that is new to a drone goes on to every neighbour but the one that it
/// came from, signed by the drone, and to nobody else; each one gets it once. It is
/// answered, too, and the drone remembers the flood.
pub proof fn law_new_floods_reach_every_neighbour(d: DroneView, p: PacketView, drop: bool)
    requires
        under_way(p),
        p.header.hops[p.header.hop_index] == d.id,
        d.neighbours.contains(p.header.hops[p.header.hop_index + 1]),
        p.body is FloodRequest,
        p.body->FloodRequest_0.path_trace.len() >= 1,
        !d.seen.contains(p.body->FloodRequest_0.flood_id),
    ensures
        ({
            let r = p.body->FloodRequest_0;
            let from = r.path_trace.last().0;
            let h = d.handled(p, drop);
            &&& d.fits(p)
            &&& forall|n: NodeId| #[trigger]
                d.neighbours.contains(n) && n != from ==> exists|q: PacketView| #[trigger]
                    h.contains(ActionView::Send(n, q)) && spreads(d.id, r, q)
            &&& forall|k: int|
                0 <= k < h.len() ==> is_answer(d, r, #[trigger] h[k]) || (h[k] is Send && spreads(
                    d.id,
                    r,
                    h[k]->Send_1,
                ) && h[k]->Send_0 != from && d.neighbours.contains(h[k]->Send_0))
            &&& d.neighbours.no_duplicates() ==> forall|j: int, k: int|
                0 <= j < k < h.len() && spreads(d.id, r, (#[trigger] h[j])->Send_1) && spreads(
                    d.id,
                    r,
                    (#[trigger] h[k])->Send_1,
                ) && h[j] is Send && h[k] is Send ==> h[j]->Send_0 != h[k]->Send_0
            &&& h.len() > 0 && is_answer(d, r, h[0])
            &&& d.after_packet(p).seen.contains(r.flood_id)
            &&& forall|f: u64| f != r.flood_id ==> (#[trigger] d.after_packet(p).seen.contains(f)
                <==> d.seen.contains(f))
            &&& d.after_packet(p).neighbours == d.neighbours
            &&& d.after_packet(p).id == d.id
        }),
{
    let r = p.body->FloodRequest_0;
    let from = r.path_trace.last().0;
    let h = d.handled(p, drop);
    let t = r.path_trace.push((d.id, NodeType::Drone));
    let answer = d.responded(
        FloodResponseView { flood_id: r.flood_id, path_trace: t.reverse() },
    );
    lemma_answer(d, r);
    let others = without_id(d.neighbours, from);
    lemma_without_id(d.neighbours, from);
    let hops = t.map_values(|n: (NodeId, NodeType)| n.0);
    let q = PacketView {
        body: BodyView::FloodRequest(
            FloodRequestView { initiator_id: t[0].0, path_trace: t, ..r },
        ),
        header: HeaderView { hop_index: t.len() - 1, hops },
        session_id: 0,
    };
    assert(spreads(d.id, r, q)) by {
        assert forall|k: int| 0 <= k < r.path_trace.len() implies #[trigger] t[k]
            == r.path_trace[k] by {}
        assert forall|k: int| 0 <= k < t.len() implies #[trigger] hops[k] == t[k].0 by {}
    }
    let n0 = answer.len() as int;
    assert(n0 == 1);
    assert forall|k: int| 0 <= k < others.len() implies #[trigger] h[1 + k] == ActionView::Send(
        others[k],
        q,
    ) by {}
    assert forall|n: NodeId| #[trigger] d.neighbours.contains(n) && n != from implies exists|
        q: PacketView,
    | #[trigger] h.contains(ActionView::Send(n, q)) && spreads(d.id, r, q) by {
        assert(others.contains(n));
        let k = others.index_of(n);
        assert(h[1 + k] == ActionView::Send(n, q));
        assert(h.contains(ActionView::Send(n, q)));
    }
    assert forall|k: int| 0 <= k < h.len() implies is_answer(d, r, #[trigger] h[k]) || (h[k] is Send
        && spreads(d.id, r, h[k]->Send_1) && h[k]->Send_0 != from && d.neighbours.contains(
        h[k]->Send_0,
    )) by {
        if k == 0 {
            assert(h[k] == answer[0]);
        } else if k <= others.len() {
            assert(h[1 + (k - 1)] == ActionView::Send(others[k - 1], q));
            assert(others.contains(others[k - 1]));
        } else {
            assert(h[k] == answer[0]);
        }
    }
    if d.neighbours.no_duplicates() {
        assert forall|j: int, k: int|
            0 <= j < k < h.len() && spreads(d.id, r, (#[trigger] h[j])->Send_1) && spreads(
                d.id,
                r,
                (#[trigger] h[k])->Send_1,
            ) && h[j] is Send && h[k] is Send implies h[j]->Send_0 != h[k]->Send_0 by {
            if j == 0 {
                assert(h[j] == answer[0]);
            } else if k > others.len() {
                assert(h[k] == answer[0]);
            } else {
                assert(h[1 + (j - 1)] == ActionView::Send(others[j - 1], q));
                assert(h[1 + (k - 1)] == ActionView::Send(others[k - 1], q));
            }
        }
    }
    assert(h[0] == answer[0]);
}

/// A flood request that a drone has seen before is answered and goes to nobody else.
pub proof fn law_known_floods_are_only_answered(d: DroneView, p: PacketView, drop: bool)
    requires
        under_way(p),
        p.header.hops[p.header.hop_index] == d.id,
        d.neighbours.contains(p.header.hops[p.header.hop_index + 1]),
        p.body is FloodRequest,
        p.body->FloodRequest_0.path_trace.len() >= 1,
        d.seen.contains(p.body->FloodRequest_0.flood_id),
    ensures
        ({
            let r = p.body->FloodRequest_0;
            let h = d.handled(p, drop);
            &&& d.fits(p)
            &&& h.len() > 0
            &&& forall|k: int| 0 <= k < h.len() ==> is_answer(d, r, #[trigger] h[k])
            &&& d.after_packet(p) == d
        }),
{
    let r = p.body->FloodRequest_0;
    lemma_answer(d, r);
    assert(d.seen.insert(r.flood_id) =~= d.seen);
    assert(d.after_packet(p) =~= d);
}

/// A flood response goes to the second node on its trace and to nobody else, with the
/// trace as it came; the controller gets it where that node is no neighbour.
pub proof fn law_flood_responses_are_handed_on(d: DroneView, p: PacketView, drop: bool)
    requires
        under_way(p),
        p.header.hops[p.header.hop_index] == d.id,
        d.neighbours.contains(p.header.hops[p.header.hop_index + 1]),
        p.body is FloodResponse,
        p.body->FloodResponse_0.path_trace.len() >= 2,
    ensures
        ({
            let to = p.body->FloodResponse_0.path_trace[1].0;
            let h = d.handled(p, drop);
            &&& d.fits(p)
            &&& d.after_packet(p) == d
            &&& h.len() == 1
            &&& d.neighbours.contains(to) ==> h[0] is Send && h[0]->Send_0 == to
                && h[0]->Send_1.body == p.body
            &&& !d.neighbours.contains(to) ==> h[0] is Report && h[0]->Report_0
                is ControllerShortcut && h[0]->Report_0->ControllerShortcut_0.body == p.body
        }),
{
}

/// A crashing drone reports every fragment that still waits as undeliverable, and hands
/// acks, nacks and flood responses on where it can. Flood requests are lost.
pub proof fn law_crashing_drones_clear_their_queue(d: DroneView, p: PacketView)
    requires
        0 < p.header.hop_index < p.header.hops.len(),
        d.fits(p),
    ensures
        ({
            let pos = p.header.hop_index;
            let h = d.drained(p);
            &&& p.body is FloodRequest ==> h.len() == 0
            &&& p.body is MsgFragment && d.neighbours.contains(p.header.hops[pos - 1]) ==> exists|
                n: PacketView,
            |
                {
                    &&& #[trigger] reports(d.id, p, NackType::ErrorInRouting(d.id), n)
                    &&& h.contains(ActionView::Try(p.header.hops[pos - 1], n))
                }
            &&& p.body is MsgFragment ==> forall|to: NodeId, q: PacketView|
                !(#[trigger] h.contains(ActionView::Send(to, q)))
            &&& (p.body is Ack || p.body is Nack || p.body is FloodResponse) && under_way(p)
                && d.neighbours.contains(p.header.hops[pos + 1]) ==> exists|q: PacketView|
                #[trigger] one_further(p, q) && h.contains(
                    ActionView::Try(p.header.hops[pos + 1], q),
                )
            &&& !(p.body is FloodRequest) ==> h.len() > 0 && h.last() is Report
                && h.last()->Report_0 is PacketSent
        }),
{
    let pos = p.header.hop_index;
    let h = d.drained(p);
    if p.body is MsgFragment {
        let t = NackType::ErrorInRouting(d.id);
        lemma_nacked(d, p, t);
        let n = d.nacked(p, t);
        if d.neighbours.contains(p.header.hops[pos - 1]) {
            assert(h[0] == n[0]);
            assert(h.contains(h[0]));
            assert(reports(d.id, p, t, n[0]->Try_1));
        }
        assert forall|to: NodeId, q: PacketView| !(#[trigger] h.contains(
            ActionView::Send(to, q),
        )) by {
            if h.contains(ActionView::Send(to, q)) {
                let k = h.index_of(ActionView::Send(to, q));
                if k < n.len() {
                    assert(h[k] == n[k]);
                }
            }
        }
    } else if !(p.body is FloodRequest) {
        let q = PacketView { header: HeaderView { hop_index: pos + 1, ..p.header }, ..p };
        if under_way(p) && d.neighbours.contains(p.header.hops[pos + 1]) {
            assert(one_further(p, q));
            assert(h[0] == ActionView::Try(p.header.hops[pos + 1], q));
            assert(h.contains(h[0]));
        }
    }
}

/// A drone that is told of a new neighbour has it and all that it had; one that is told
/// to drop a neighbour has all the others; a crashed one has none. A drone keeps its id
/// and the floods that it knows.
pub proof fn law_drones_obey(d: DroneView, id: NodeId, n: NodeId)
    ensures
        d.after_command(DroneCommand::AddSender(id)).neighbours.contains(n) <==> n == id
            || d.neighbours.contains(n),
        d.after_command(DroneCommand::RemoveSender(id)).neighbours.contains(n) <==> n != id
            && d.neighbours.contains(n),
        !d.after_command(DroneCommand::Crash).neighbours.contains(n),
        forall|c: DroneCommand| (#[trigger] d.after_command(c)).id == d.id,
        forall|c: DroneCommand| (#[trigger] d.after_command(c)).seen == d.seen,
{
    lemma_without_id(d.neighbours, id);
    let v = d.neighbours.push(id);
    assert(v[d.neighbours.len() as int] == id);
    if d.neighbours.contains(n) {
        assert(v[d.neighbours.index_of(n)] == n);
    }
    if v.contains(n) && n != id {
        assert(d.neighbours[v.index_of(n)] == n);
    }
}

/// A packet whose channel has taken it stays with the neighbour; one whose channel has
/// not goes to the controller, unchanged.
pub proof fn law_untaken_packets_take_the_shortcut(to: NodeId, p: PacketView)
    ensures
        tried(to, p, true) == ActionView::Send(to, p),
        tried(to, p, false) == ActionView::Report(EventView::ControllerShortcut(p)),
{
}

}
