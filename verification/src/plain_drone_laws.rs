//! What plain drones do with fragments and receipts.
use crate::packet::{NackType, OutgoingView, PacketView};
use crate::wg_drone::PlainView;
use vstd::prelude::*;

verus! {

/// A packet goes to one node: the hop of the packet at place `i`, with that place marked.
pub open spec fn hands_over(o: OutgoingView, p: PacketView, i: int) -> bool {
    &&& o.to == p.header.hops[i]
    &&& o.packet.header.hop_index == i
    &&& o.packet.header.hops == p.header.hops
}

/// A fragment that is not lost goes on to its next hop as it is, where that is a neighbour.
/// The node that it stands at is told under the next session, where that is a neighbour.
pub proof fn law_plain_drones_hand_fragments_on(v: PlainView, p: PacketView)
    requires
        p.body is MsgFragment,
        0 <= p.header.hop_index,
        p.header.hop_index + 1 < p.header.hops.len(),
        v.neighbours.contains(p.header.hops[p.header.hop_index + 1]),
        p.session_id < u64::MAX,
    ensures
        ({
            let out = v.handled(p, false);
            let i = p.header.hop_index as int;
            &&& v.fits(p, false)
            &&& out.len() >= 1
            &&& hands_over(out[0], p, i + 1)
            &&& out[0].packet.body == p.body
            &&& out[0].packet.session_id == p.session_id
            &&& if v.neighbours.contains(p.header.hops[i]) {
                &&& out.len() == 2
                &&& hands_over(out[1], p, i)
                &&& out[1].packet.body is Ack
                &&& out[1].packet.body->Ack_0.fragment_index == p.session_id
                &&& out[1].packet.session_id == p.session_id + 1
            } else {
                out.len() == 1
            }
            &&& v.after_packet(p) == v
        }),
{
}

/// The nack that goes back for a packet.
pub open spec fn tells_why(out: Seq<OutgoingView>, v: PlainView, p: PacketView, t: NackType) -> bool {
    let i = p.header.hop_index - 1;
    if v.neighbours.contains(p.header.hops[i]) {
        &&& out.len() == 1
        &&& hands_over(out[0], p, i)
        &&& out[0].packet.body is Nack
        &&& out[0].packet.body->Nack_0.nack_type == t
        &&& out[0].packet.body->Nack_0.fragment_index == p.session_id
        &&& out[0].packet.session_id == p.session_id + 1
    } else {
        out.len() == 0
    }
}

/// A fragment that is lost, that has no next hop, or whose next hop is no neighbour, goes
/// nowhere; the hop before is told why.
pub proof fn law_plain_drones_tell_of_fragments_that_stay(v: PlainView, p: PacketView, drop: bool)
    requires
        p.body is MsgFragment,
        1 <= p.header.hop_index <= p.header.hops.len(),
        p.session_id < u64::MAX,
        drop || p.header.hop_index + 1 >= p.header.hops.len() || !v.neighbours.contains(
            p.header.hops[p.header.hop_index + 1],
        ),
    ensures
        v.fits(p, drop),
        tells_why(
            v.handled(p, drop),
            v,
            p,
            if drop {
                NackType::Dropped
            } else if p.header.hop_index + 1 >= p.header.hops.len() {
                NackType::DestinationIsDrone
            } else {
                NackType::ErrorInRouting(p.header.hops[p.header.hop_index + 1])
            },
        ),
        v.after_packet(p) == v,
{
}

/// Acks and nacks go back one hop as they are, where that is a neighbour.
pub proof fn law_plain_drones_hand_receipts_back(v: PlainView, p: PacketView, drop: bool)
    requires
        p.body is Ack || p.body is Nack,
        1 <= p.header.hop_index <= p.header.hops.len(),
    ensures
        ({
            let out = v.handled(p, drop);
            let i = p.header.hop_index - 1;
            if v.neighbours.contains(p.header.hops[i]) {
                &&& out.len() == 1
                &&& hands_over(out[0], p, i)
                &&& out[0].packet.body == p.body
                &&& out[0].packet.session_id == p.session_id
            } else {
                out.len() == 0
            }
        }),
        v.after_packet(p) == v,
{
}

}
