//! Messages on their way: said of the packets that carry them.
use crate::client1::fragment_packet;
use crate::fragment::{are_chunks, is_chunk};
use crate::packet::{BodyView, Fragment, NodeId, OutgoingView};
use crate::server::{after_search, all_sent, chat_sent, kept_fragments, ServerView};
use crate::server_network::GraphView;
use vstd::prelude::*;
use vstd::utf8::encode_utf8;

verus! {

/// A fragment is piece `k` of `n` pieces of some bytes: it holds up to 128 of them, from
/// byte `128 * k` on, and zeros behind them.
pub open spec fn is_piece(f: Fragment, k: int, n: int, bytes: Seq<u8>) -> bool {
    &&& f.fragment_index == k
    &&& f.total_n_fragments == n
    &&& f.length as int == (if bytes.len() - 128 * k < 128 {
        bytes.len() - 128 * k
    } else {
        128
    })
    &&& forall|j: int|
        0 <= j < f.length ==> #[trigger] f.data@[j] == bytes[128 * k + j]
}

/// The packet at place `from + k` carries piece `k` of `n` along some hops, to the second
/// one first.
pub open spec fn carries_piece(
    out: Seq<OutgoingView>,
    from: int,
    k: int,
    n: int,
    hops: Seq<NodeId>,
    session: u64,
    bytes: Seq<u8>,
) -> bool {
    let o = out[from + k];
    &&& o.to == hops[1]
    &&& o.packet.session_id == session
    &&& o.packet.header.hops == hops
    &&& o.packet.header.hop_index == 1
    &&& o.packet.body is MsgFragment
    &&& is_piece(o.packet.body->MsgFragment_0, k, n, bytes)
}

/// The packets at the places `from..to` carry some bytes along some hops, piece by piece,
/// and nothing else.
pub open spec fn carries_bytes(
    out: Seq<OutgoingView>,
    from: int,
    to: int,
    hops: Seq<NodeId>,
    session: u64,
    bytes: Seq<u8>,
) -> bool {
    &&& 0 <= from <= to <= out.len()
    &&& bytes.len() <= 128 * (to - from) < bytes.len() + 128
    &&& forall|k: int|
        0 <= k < to - from ==> #[trigger] carries_piece(
            out,
            from,
            k,
            to - from,
            hops,
            session,
            bytes,
        )
}

/// The fragments of bytes are their pieces.
pub proof fn lemma_pieces(fragments: Seq<Fragment>, bytes: Seq<u8>)
    requires
        are_chunks(fragments, bytes),
    ensures
        bytes.len() <= 128 * fragments.len() < bytes.len() + 128,
        forall|k: int|
            0 <= k < fragments.len() ==> is_piece(
                #[trigger] fragments[k],
                k,
                fragments.len() as int,
                bytes,
            ),
{
    assert forall|k: int| 0 <= k < fragments.len() implies is_piece(
        #[trigger] fragments[k],
        k,
        fragments.len() as int,
        bytes,
    ) by {
        assert(is_chunk(fragments[k], bytes, k));
    }
}

/// The fragments of a message along a path carry its bytes.
pub proof fn lemma_fragments_carry(
    out: Seq<OutgoingView>,
    path: Seq<NodeId>,
    fragments: Seq<Fragment>,
    session: u64,
    bytes: Seq<u8>,
)
    requires
        are_chunks(fragments, bytes),
        out == fragments.map_values(
            |f: Fragment| OutgoingView { to: path[1], packet: fragment_packet(path, f, session) },
        ),
    ensures
        carries_bytes(out, 0, out.len() as int, path, session, bytes),
{
    lemma_pieces(fragments, bytes);
    assert forall|k: int| 0 <= k < out.len() implies #[trigger] carries_piece(
        out,
        0,
        k,
        out.len() as int,
        path,
        session,
        bytes,
    ) by {
        assert(out[0 + k].packet.body == BodyView::MsgFragment(fragments[k]));
    }
}

proof fn lemma_carried_shifted(
    out: Seq<OutgoingView>,
    from: int,
    to: int,
    x: int,
    y: int,
    hops: Seq<NodeId>,
    session: u64,
    bytes: Seq<u8>,
)
    requires
        0 <= x <= y <= out.len(),
        carries_bytes(out.subrange(x, y), from, to, hops, session, bytes),
    ensures
        carries_bytes(out, x + from, x + to, hops, session, bytes),
{
    let part = out.subrange(x, y);
    assert forall|k: int| 0 <= k < to - from implies #[trigger] carries_piece(
        out,
        x + from,
        k,
        to - from,
        hops,
        session,
        bytes,
    ) by {
        assert(carries_piece(part, from, k, to - from, hops, session, bytes));
        assert(part[from + k] == out[x + from + k]);
    }
}

/// The packets at the places `from..to` are what a server sends of a message: its bytes
/// along a route to the target, where there is one by way of a neighbour, and nothing
/// otherwise. A graph that goes by no channels is the same at every search.
pub open spec fn message_at(
    a: ServerView,
    target: NodeId,
    text: Seq<char>,
    session: u64,
    out: Seq<OutgoingView>,
    from: int,
    to: int,
) -> bool {
    &&& 0 <= from <= to <= out.len()
    &&& exists|net: GraphView, path: Option<Seq<NodeId>>|
        {
            &&& #[trigger] net.best_path_is(a.id, target, a.known_channels(), path)
            &&& a.known_channels() is None ==> net == a.net
            &&& if path is Some && path->0.len() > 1 && a.neighbours.contains(path->0[1]) {
                carries_bytes(out, from, to, path->0, session, encode_utf8(text))
            } else {
                from == to
            }
        }
}

/// The packets are those of some messages, one after the other; `cuts` tells where each
/// one begins.
pub open spec fn in_turn(
    a: ServerView,
    list: Seq<(NodeId, Seq<char>)>,
    session: u64,
    out: Seq<OutgoingView>,
    cuts: Seq<int>,
) -> bool {
    &&& cuts.len() == list.len() + 1
    &&& cuts[0] == 0
    &&& cuts[list.len() as int] == out.len()
    &&& forall|i: int|
        0 <= i < list.len() ==> message_at(
            a,
            (#[trigger] list[i]).0,
            list[i].1,
            session,
            out,
            cuts[i],
            cuts[i + 1],
        )
}

/// The packets are those of some messages, one after the other.
pub open spec fn sent_in_turn(
    a: ServerView,
    list: Seq<(NodeId, Seq<char>)>,
    session: u64,
    out: Seq<OutgoingView>,
) -> bool {
    exists|cuts: Seq<int>| #[trigger] in_turn(a, list, session, out, cuts)
}

/// Nothing but the graph and the sent fragments is different.
pub open spec fn only_sent(a: ServerView, b: ServerView) -> bool {
    &&& b == (ServerView { net: b.net, sent: b.sent, ..a })
    &&& a.known_channels() is None ==> b.net == a.net
}

/// A search changes nothing but the graph.
pub proof fn lemma_search_keeps(a: ServerView, target: NodeId)
    ensures
        only_sent(a, after_search(a, target)),
{
    if a.known_channels() is None {
        assert(a.net.unshared(None, a.net.edges.len() as int) =~= Seq::empty());
    }
}

/// A message that a server sends leaves in pieces along a route to its target, and nothing
/// else leaves.
pub proof fn lemma_chat_sent(
    a: ServerView,
    m: ServerView,
    b: ServerView,
    session: u64,
    target: NodeId,
    text: Seq<char>,
    added: Seq<OutgoingView>,
)
    requires
        only_sent(a, m),
        chat_sent(m, b, session, target, text, added),
    ensures
        only_sent(a, b),
        message_at(a, target, text, session, added, 0, added.len() as int),
{
    let s = after_search(m, target);
    lemma_search_keeps(m, target);
    let path = choose|path: Option<Seq<NodeId>>|
        {
            &&& #[trigger] m.net.best_path_is(m.id, target, m.known_channels(), path)
            &&& match path {
                None => b == s && added == Seq::<OutgoingView>::empty(),
                Some(p) => exists|fragments: Seq<Fragment>|
                    {
                        &&& #[trigger] are_chunks(fragments, encode_utf8(text))
                        &&& b == s.message_sent(session, target, fragments)
                        &&& added == s.fragment_packets(p, fragments, session)
                    },
            }
        };
    if let Some(p) = path {
        let fragments = choose|fragments: Seq<Fragment>|
            {
                &&& #[trigger] are_chunks(fragments, encode_utf8(text))
                &&& b == s.message_sent(session, target, fragments)
                &&& added == s.fragment_packets(p, fragments, session)
            };
        if p.len() > 1 && a.neighbours.contains(p[1]) {
            lemma_fragments_carry(added, p, fragments, session, encode_utf8(text));
        }
    }
    assert(m.net.best_path_is(a.id, target, a.known_channels(), path));
}

/// Messages that a server sends leave one after the other.
pub proof fn lemma_all_sent(
    a: ServerView,
    b: ServerView,
    session: u64,
    list: Seq<(NodeId, Seq<char>)>,
    added: Seq<OutgoingView>,
)
    requires
        all_sent(a, b, session, list, added),
    ensures
        only_sent(a, b),
        sent_in_turn(a, list, session, added),
    decreases list.len(),
{
    if list.len() == 0 {
        assert(in_turn(a, list, session, added, seq![0int]));
    } else {
        let init = list.drop_last();
        let (m, cut) = choose|m: ServerView, cut: int|
            {
                &&& 0 <= cut <= added.len()
                &&& all_sent(a, m, session, init, added.subrange(0, cut))
                &&& #[trigger] chat_sent(
                    m,
                    b,
                    session,
                    list.last().0,
                    list.last().1,
                    added.subrange(cut, added.len() as int),
                )
            };
        let part = added.subrange(0, cut);
        let rest = added.subrange(cut, added.len() as int);
        lemma_all_sent(a, m, session, init, part);
        lemma_chat_sent(a, m, b, session, list.last().0, list.last().1, rest);
        lemma_turn_on(a, list, session, added, cut);
    }
}

/// One more message after those that were sent.
pub proof fn lemma_turn_on(
    a: ServerView,
    list: Seq<(NodeId, Seq<char>)>,
    session: u64,
    added: Seq<OutgoingView>,
    cut: int,
)
    requires
        list.len() > 0,
        0 <= cut <= added.len(),
        sent_in_turn(a, list.drop_last(), session, added.subrange(0, cut)),
        message_at(
            a,
            list.last().0,
            list.last().1,
            session,
            added.subrange(cut, added.len() as int),
            0,
            added.len() - cut,
        ),
    ensures
        sent_in_turn(a, list, session, added),
{
    let init = list.drop_last();
    let part = added.subrange(0, cut);
    let rest = added.subrange(cut, added.len() as int);
    let before = choose|cuts: Seq<int>| #[trigger] in_turn(a, init, session, part, cuts);
    let cuts = before.push(added.len() as int);
    assert forall|i: int| 0 <= i < list.len() implies message_at(
        a,
        (#[trigger] list[i]).0,
        list[i].1,
        session,
        added,
        cuts[i],
        cuts[i + 1],
    ) by {
        if i < init.len() {
            assert(init[i] == list[i]);
            assert(cuts[i] == before[i] && cuts[i + 1] == before[i + 1]);
            lemma_message_within(
                a,
                list[i].0,
                list[i].1,
                session,
                added,
                0,
                cut,
                cuts[i],
                cuts[i + 1],
            );
        } else {
            lemma_message_within(
                a,
                list[i].0,
                list[i].1,
                session,
                added,
                cut,
                added.len() as int,
                0,
                rest.len() as int,
            );
        }
    }
    assert(in_turn(a, list, session, added, cuts));
}

proof fn lemma_message_within(
    a: ServerView,
    target: NodeId,
    text: Seq<char>,
    session: u64,
    out: Seq<OutgoingView>,
    x: int,
    y: int,
    from: int,
    to: int,
)
    requires
        0 <= x <= y <= out.len(),
        message_at(a, target, text, session, out.subrange(x, y), from, to),
    ensures
        message_at(a, target, text, session, out, x + from, x + to),
{
    let part = out.subrange(x, y);
    let (net, path) = choose|net: GraphView, path: Option<Seq<NodeId>>|
        {
            &&& #[trigger] net.best_path_is(a.id, target, a.known_channels(), path)
            &&& a.known_channels() is None ==> net == a.net
            &&& if path is Some && path->0.len() > 1 && a.neighbours.contains(path->0[1]) {
                carries_bytes(part, from, to, path->0, session, encode_utf8(text))
            } else {
                from == to
            }
        };
    if path is Some && path->0.len() > 1 && a.neighbours.contains(path->0[1]) {
        lemma_carried_shifted(out, from, to, x, y, path->0, session, encode_utf8(text));
    }
    assert(net.best_path_is(a.id, target, a.known_channels(), path));
}

/// A server keeps the pieces of a message that it has sent, with the target, for the case
/// that one is lost; what it has sent under other sessions stays.
pub proof fn law_sent_pieces_are_kept(
    a: ServerView,
    b: ServerView,
    session: u64,
    target: NodeId,
    text: Seq<char>,
    added: Seq<OutgoingView>,
    k: int,
)
    requires
        chat_sent(a, b, session, target, text, added),
        0 <= k < added.len(),
        k <= u64::MAX,
    ensures
        b.sent.contains_key((session, k as u64)),
        b.sent[(session, k as u64)].1 == target,
        added[k].packet.body == BodyView::MsgFragment(b.sent[(session, k as u64)].0),
        forall|s: u64, i: u64|
            s != session ==> (#[trigger] b.sent.contains_key((s, i)) <==> a.sent.contains_key(
                (s, i),
            )) && (a.sent.contains_key((s, i)) ==> b.sent[(s, i)] == a.sent[(s, i)]),
{
    let s = after_search(a, target);
    let path = choose|path: Option<Seq<NodeId>>|
        {
            &&& #[trigger] a.net.best_path_is(a.id, target, a.known_channels(), path)
            &&& match path {
                None => b == s && added == Seq::<OutgoingView>::empty(),
                Some(p) => exists|fragments: Seq<Fragment>|
                    {
                        &&& #[trigger] are_chunks(fragments, encode_utf8(text))
                        &&& b == s.message_sent(session, target, fragments)
                        &&& added == s.fragment_packets(p, fragments, session)
                    },
            }
        };
    let p = path->0;
    let fragments = choose|fragments: Seq<Fragment>|
        {
            &&& #[trigger] are_chunks(fragments, encode_utf8(text))
            &&& b == s.message_sent(session, target, fragments)
            &&& added == s.fragment_packets(p, fragments, session)
        };
    assert(is_chunk(fragments[k], encode_utf8(text), k));
    assert(is_chunk(fragments[fragments.len() - 1], encode_utf8(text), fragments.len() - 1));
    lemma_kept(a.sent, session, target, fragments, fragments.len() as int);
}

proof fn lemma_kept(
    sent: Map<(u64, u64), (Fragment, NodeId)>,
    session: u64,
    target: NodeId,
    fragments: Seq<Fragment>,
    n: int,
)
    requires
        0 <= n <= fragments.len() <= u64::MAX,
    ensures
        ({
            let r = kept_fragments(sent, session, target, fragments, n);
            &&& forall|k: int|
                0 <= k < n ==> r.contains_key((session, k as u64)) && r[(session, k as u64)] == (
                    #[trigger] fragments[k],
                    target,
                )
            &&& forall|s: u64, i: u64|
                s != session ==> (#[trigger] r.contains_key((s, i)) <==> sent.contains_key((s, i)))
                    && (sent.contains_key((s, i)) ==> r[(s, i)] == sent[(s, i)])
        }),
    decreases n,
{
    if n > 0 {
        lemma_kept(sent, session, target, fragments, n - 1);
        let before = kept_fragments(sent, session, target, fragments, n - 1);
        let r = kept_fragments(sent, session, target, fragments, n);
        assert(r == before.insert((session, (n - 1) as u64), (fragments[n - 1], target)));
        assert forall|k: int| 0 <= k < n implies r.contains_key((session, k as u64)) && r[(
            session,
            k as u64,
        )] == (#[trigger] fragments[k], target) by {
            if k < n - 1 {
                assert((k as u64) != ((n - 1) as u64));
            }
        }
        assert forall|s: u64, i: u64| s != session implies (#[trigger] r.contains_key((s, i))
            <==> sent.contains_key((s, i))) && (sent.contains_key((s, i)) ==> r[(s, i)] == sent[(
            s,
            i,
        )]) by {
            assert(before.contains_key((s, i)) <==> sent.contains_key((s, i)));
        }
    }
}

}
