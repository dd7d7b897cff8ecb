//! What clients of the second make do with commands, packets and changes.
use crate::changes::ChangeView;
use crate::client1::fragment_packet;
use crate::client2::{
    after_search2, change_handled2, command_handled2, first_position, news_of, packet_handled2,
    resent_all, resent_one, route_step_done, sent_along2, Client2View, ClientGlobals, CommandError,
    CommandResult, NewsView, RouteStep,
};
use crate::client_laws::{
    asks_all, gained, lemma_command_tags, lemma_gained, lemma_plain_tokens, lemma_tokens_one,
    lemma_tokens_two, lost, plain_command, tag_id,
};
use crate::delivery::{law_clients_put_messages_together, received_after};
use crate::discovery_laws::link_between;
use crate::flood_laws::{lemma_to_each, starts_flood};
use crate::fragment::{are_chunks, chunk_count, is_chunk};
use crate::graphs::{edge_between, listed_at};
use crate::mesh::{has_link, mesh_node_removed, MeshView};
use crate::packet::{
    lemma_without_id, to_each, Ack, BodyView, FloodRequestView, Fragment, HeaderView, Nack,
    NackType, NodeId, NodeType, OutgoingView, PacketView,
};
use crate::route_laws::law_meshes_lose_one_link;
use crate::sending_laws::{carries_bytes, lemma_fragments_carry};
use crate::text::{decimal, trim_back};
use crate::wording::lemma_id_reads_back;
use vstd::prelude::*;
use vstd::utf8::{encode_utf8, encode_utf8_decode_utf8, encode_utf8_valid_utf8};

verus! {

/// The command is refused for a reason.
pub open spec fn refused(r: CommandResult, e: CommandError) -> bool {
    r is Refused && r->Refused_0 == e
}

/// Nothing but the user's chat has changed.
pub open spec fn same_but_chat(g0: ClientGlobals, g1: ClientGlobals) -> bool {
    g1.server == g0.server && g1.session_ids == g0.session_ids && g1.flood_ids == g0.flood_ids
}

/// A user who is in a chat cannot log out, and neither can one who has not logged in;
/// anyone else can.
pub proof fn law_second_logouts(
    a: Client2View,
    b: Client2View,
    g0: ClientGlobals,
    g1: ClientGlobals,
    added: Seq<OutgoingView>,
    r: CommandResult,
)
    requires
        command_handled2(a, b, "[Logout]"@, g0, g1, added, r),
    ensures
        b == a,
        added.len() == 0,
        g1 == g0,
        g0.chatting ==> refused(r, CommandError::StillChatting),
        !g0.chatting && g0.server == 0 ==> refused(r, CommandError::NotLoggedIn),
        !g0.chatting && g0.server != 0 ==> r is Send,
{
    lemma_command_tags();
    lemma_tokens_one("[Logout]"@);
}

/// A user who logs in is connected to the server and in no chat, and the login goes there.
pub proof fn law_second_logins(
    a: Client2View,
    b: Client2View,
    server: NodeId,
    g0: ClientGlobals,
    g1: ClientGlobals,
    added: Seq<OutgoingView>,
    r: CommandResult,
)
    requires
        command_handled2(a, b, tag_id("[Login]"@, server), g0, g1, added, r),
    ensures
        b == a,
        added.len() == 0,
        r is Send,
        g1.server == server,
        !g1.chatting,
        g1.peer == 0,
        g1.session_ids == g0.session_ids && g1.flood_ids == g0.flood_ids,
{
    lemma_command_tags();
    lemma_id_reads_back(server);
    lemma_tokens_two("[Login]"@, decimal(server as nat));
}

/// A chat request goes to the server unless the user is in a chat; from then on the user is
/// in a chat with the peer.
pub proof fn law_second_chat_requests(
    a: Client2View,
    b: Client2View,
    peer: NodeId,
    g0: ClientGlobals,
    g1: ClientGlobals,
    added: Seq<OutgoingView>,
    r: CommandResult,
)
    requires
        command_handled2(a, b, tag_id("[ChatRequest]"@, peer), g0, g1, added, r),
    ensures
        b == a,
        added.len() == 0,
        g0.chatting || g0.peer != 0 ==> refused(r, CommandError::AlreadyChatting) && g1 == g0,
        !g0.chatting && g0.peer == 0 ==> r is Send && g1.chatting && g1.peer == peer
            && same_but_chat(g0, g1),
{
    lemma_command_tags();
    lemma_id_reads_back(peer);
    lemma_tokens_two("[ChatRequest]"@, decimal(peer as nat));
}

/// The end of a chat goes to the server where the user is in one, and then there is none.
pub proof fn law_second_chat_ends(
    a: Client2View,
    b: Client2View,
    peer: NodeId,
    g0: ClientGlobals,
    g1: ClientGlobals,
    added: Seq<OutgoingView>,
    r: CommandResult,
)
    requires
        command_handled2(a, b, tag_id("[ChatFinish]"@, peer), g0, g1, added, r),
    ensures
        b == a,
        added.len() == 0,
        !g0.chatting ==> refused(r, CommandError::NotChatting) && g1 == g0,
        g0.chatting ==> r is Send && !g1.chatting && g1.peer == 0 && same_but_chat(g0, g1),
{
    lemma_command_tags();
    lemma_id_reads_back(peer);
    lemma_tokens_two("[ChatFinish]"@, decimal(peer as nat));
}

/// All other commands go to the server, whatever the user is doing.
pub proof fn law_second_commands_go_to_the_server(
    a: Client2View,
    b: Client2View,
    command: Seq<char>,
    g0: ClientGlobals,
    g1: ClientGlobals,
    added: Seq<OutgoingView>,
    r: CommandResult,
)
    requires
        plain_command(command),
        command_handled2(a, b, command, g0, g1, added, r),
    ensures
        b == a,
        added.len() == 0,
        g1 == g0,
        r is Send,
{
    lemma_command_tags();
    lemma_plain_tokens(command);
}

/// A message that has a route leaves in pieces along it, white space at its end aside, and
/// the pieces are kept under the session behind those that were there.
pub proof fn law_second_messages_are_sent(
    a: Client2View,
    b: Client2View,
    input: Seq<char>,
    hops: Seq<NodeId>,
    session: u64,
    added: Seq<OutgoingView>,
)
    requires
        sent_along2(a, b, input, hops, session, added),
        hops.len() > 1,
        a.neighbours.contains(hops[1]),
    ensures
        carries_bytes(
            added,
            0,
            added.len() as int,
            hops,
            session,
            encode_utf8(trim_back(input)),
        ),
        added.len() > 0 && !a.sent.contains_key(session) ==> b.sent.contains_key(session)
            && b.sent[session].len() == added.len() && forall|k: int|
            0 <= k < added.len() ==> (#[trigger] added[k]).packet.body == BodyView::MsgFragment(
                b.sent[session][k],
            ),
        forall|s: u64|
            s != session ==> (#[trigger] b.sent.contains_key(s) <==> a.sent.contains_key(s))
                && b.sent[s] == a.sent[s],
        b.mesh == a.mesh && b.neighbours == a.neighbours && b.received == a.received,
{
    let bytes = encode_utf8(trim_back(input));
    let fragments = choose|fragments: Seq<Fragment>|
        {
            &&& #[trigger] are_chunks(fragments, bytes)
            &&& b == (if fragments.len() > 0 {
                Client2View {
                    sent: a.sent.insert(
                        session,
                        (if a.sent.contains_key(session) {
                            a.sent[session]
                        } else {
                            Seq::empty()
                        }) + fragments,
                    ),
                    ..a
                }
            } else {
                a
            })
            &&& added == (if hops.len() > 1 && a.neighbours.contains(hops[1]) {
                fragments.map_values(
                    |f: Fragment|
                        OutgoingView { to: hops[1], packet: fragment_packet(hops, f, session) },
                )
            } else {
                Seq::<OutgoingView>::empty()
            })
        };
    lemma_fragments_carry(added, hops, fragments, session, bytes);
    assert(Seq::<Fragment>::empty() + fragments =~= fragments);
}

proof fn lemma_second_asks(neighbours: Seq<NodeId>, id: NodeId, q: PacketView, flood_id: u64)
    requires
        starts_flood(id, NodeType::Client, flood_id, q),
    ensures
        asks_all(to_each(neighbours, q), neighbours, id, flood_id),
{
    let good = |p: PacketView| starts_flood(id, NodeType::Client, flood_id, p);
    assert(good(q));
    lemma_to_each(neighbours, q, good);
}

proof fn lemma_second_flood(v: Client2View, g: ClientGlobals)
    requires
        g.flood_ids < u64::MAX,
    ensures
        asks_all(v.flood_requests(g), v.neighbours, v.id, (g.flood_ids + 1) as u64),
        g.next_flood().flood_ids == g.flood_ids + 1,
{
    let q = PacketView {
        body: BodyView::FloodRequest(
            FloodRequestView {
                flood_id: (g.flood_ids + 1) as u64,
                initiator_id: v.id,
                path_trace: seq![(v.id, NodeType::Client)],
            },
        ),
        header: HeaderView { hop_index: 0, hops: seq![v.id] },
        session_id: g.session_ids,
    };
    lemma_second_asks(v.neighbours, v.id, q, (g.flood_ids + 1) as u64);
}

/// The search for a route goes through at most five stages. The first one asks all
/// neighbours where there is no route, and waits a tenth of a second; each of the last three
/// takes a route where there is one, and else asks all neighbours and waits a little longer.
/// After them the message is given up.
pub proof fn law_second_searches_for_routes(
    a: Client2View,
    b: Client2View,
    stage: u8,
    target: NodeId,
    g0: ClientGlobals,
    g1: ClientGlobals,
    step: RouteStep,
    added: Seq<OutgoingView>,
)
    requires
        g0.flood_ids < u64::MAX,
        route_step_done(a, b, stage, target, g0, g1, step, added),
    ensures
        stage >= 5 ==> step is GiveUp && added.len() == 0 && b == a && g1 == g0,
        stage < 5 ==> exists|path: Option<Seq<NodeId>>|
            {
                &&& #[trigger] a.mesh.best_path_is(a.id, target, a.channels, path)
                &&& stage == 0 && path is Some || stage == 1 ==> step == RouteStep::Continue(2)
                    && added.len() == 0 && g1 == g0
                &&& stage >= 2 && path is Some ==> step is Ready && step->Ready_0@ == path->0
                    && added.len() == 0 && g1 == g0
                &&& stage != 1 && path is None ==> asks_all(
                    added,
                    a.neighbours,
                    a.id,
                    (g0.flood_ids + 1) as u64,
                ) && g1.flood_ids == g0.flood_ids + 1
                &&& stage == 0 && path is None ==> step == RouteStep::Wait(100, 1)
                &&& stage >= 2 && path is None ==> step == RouteStep::Wait(150, (stage + 1) as u8)
            },
{
    lemma_second_flood(after_search2(a, target), g0);
}

/// Every link at a node costs one more, up to 255; the other links stay as they are.
pub open spec fn dearer_links(
    before: Seq<(u32, u32, u8)>,
    after: Seq<(u32, u32, u8)>,
    i: u32,
) -> bool {
    &&& after.len() == before.len()
    &&& forall|e: int|
        0 <= e < before.len() ==> (#[trigger] after[e]).0 == before[e].0 && after[e].1
            == before[e].1 && after[e].2 == before[e].2 + (if (before[e].0 == i || before[e].1 == i)
            && before[e].2 < 255 {
            1int
        } else {
            0int
        })
}

/// A loss makes every link at the node that reports it dearer.
pub proof fn law_losses_make_links_dearer(v: Client2View, h: HeaderView)
    requires
        h.hops.len() > 0,
        v.mesh.map.contains_key(h.hops[0]),
    ensures
        dearer_links(v.mesh.edges, v.after_loss(h).mesh.edges, v.mesh.map[h.hops[0]].0),
        v.after_loss(h) == (Client2View { mesh: v.after_loss(h).mesh, ..v }),
        v.after_loss(h).mesh.nodes == v.mesh.nodes,
        v.after_loss(h).mesh.map == v.mesh.map,
{
}

proof fn lemma_nothing_resent(
    a: Client2View,
    b: Client2View,
    fragments: Seq<Fragment>,
    index: u64,
    session: u64,
    server: NodeId,
    added: Seq<OutgoingView>,
    ok: bool,
)
    requires
        resent_all(a, b, fragments, index, session, server, added, ok),
        forall|k: int| 0 <= k < fragments.len() ==> (#[trigger] fragments[k]).fragment_index != index,
    ensures
        b == a,
        added.len() == 0,
        ok,
    decreases fragments.len(),
{
    if fragments.len() > 0 {
        assert(fragments[fragments.len() - 1].fragment_index != index);
        let init = fragments.drop_last();
        assert forall|k: int| 0 <= k < init.len() implies (#[trigger] init[k]).fragment_index
            != index by {
            assert(init[k] == fragments[k]);
        }
        lemma_nothing_resent(a, b, init, index, session, server, added, ok);
    }
}

/// One packet, with one fragment of a session, along a path.
pub open spec fn carries_one(
    added: Seq<OutgoingView>,
    f: Fragment,
    path: Seq<NodeId>,
    session: u64,
) -> bool {
    &&& added.len() == 1
    &&& path.len() > 1
    &&& added[0].to == path[1]
    &&& added[0].packet.body == BodyView::MsgFragment(f)
    &&& added[0].packet.header.hops == path
    &&& added[0].packet.header.hop_index == 1
    &&& added[0].packet.session_id == session
}

/// The fragment has been sent along a least-cost route where there is one with a neighbour
/// as its next hop, and `ok` says whether there was.
pub open spec fn sent_again(
    a: Client2View,
    f: Fragment,
    session: u64,
    server: NodeId,
    added: Seq<OutgoingView>,
    ok: bool,
) -> bool {
    exists|path: Option<Seq<NodeId>>|
        {
            &&& #[trigger] a.mesh.best_path_is(a.id, server, a.channels, path)
            &&& ok <==> path is Some && path->0.len() > 1 && a.neighbours.contains(path->0[1])
            &&& ok ==> carries_one(added, f, path->0, session)
            &&& !ok ==> added.len() == 0
        }
}

proof fn lemma_one_resent(
    a: Client2View,
    b: Client2View,
    fragments: Seq<Fragment>,
    k: int,
    session: u64,
    server: NodeId,
    added: Seq<OutgoingView>,
    ok: bool,
)
    requires
        0 <= k < fragments.len(),
        forall|j: int|
            0 <= j < fragments.len() && j != k ==> (#[trigger] fragments[j]).fragment_index
                != fragments[k].fragment_index,
        resent_all(a, b, fragments, fragments[k].fragment_index, session, server, added, ok),
    ensures
        sent_again(a, fragments[k], session, server, added, ok),
        b == after_search2(a, server),
    decreases fragments.len(),
{
    let index = fragments[k].fragment_index;
    let init = fragments.drop_last();
    if k < fragments.len() - 1 {
        assert(fragments[fragments.len() - 1].fragment_index != index);
        assert(init[k] == fragments[k]);
        assert forall|j: int| 0 <= j < init.len() && j != k implies (
        #[trigger] init[j]).fragment_index != init[k].fragment_index by {
            assert(init[j] == fragments[j]);
        }
        lemma_one_resent(a, b, init, k, session, server, added, ok);
    } else {
        assert forall|j: int| 0 <= j < init.len() implies (#[trigger] init[j]).fragment_index
            != index by {
            assert(init[j] == fragments[j]);
        }
        if !ok && resent_all(a, b, init, index, session, server, added, false) {
            lemma_nothing_resent(a, b, init, index, session, server, added, false);
        } else {
            let (m, cut) = choose|m: Client2View, cut: int|
                {
                    &&& 0 <= cut <= added.len()
                    &&& resent_all(
                        a,
                        m,
                        init,
                        index,
                        session,
                        server,
                        added.subrange(0, cut),
                        true,
                    )
                    &&& #[trigger] resent_one(
                        m,
                        b,
                        fragments.last(),
                        session,
                        server,
                        added.subrange(cut, added.len() as int),
                        ok,
                    )
                };
            lemma_nothing_resent(
                a,
                m,
                init,
                index,
                session,
                server,
                added.subrange(0, cut),
                true,
            );
            assert(cut == 0);
            assert(added.subrange(cut, added.len() as int) =~= added);
        }
    }
}

/// A fragment that was lost is sent once more, along a least-cost route to the server that
/// takes the loss into account; only where there is no such route nothing leaves, and the
/// client says so.
pub proof fn law_second_clients_send_again(
    a: Client2View,
    b: Client2View,
    p: PacketView,
    g0: ClientGlobals,
    g1: ClientGlobals,
    added: Seq<OutgoingView>,
    news: Option<NewsView>,
    ok: bool,
    k: int,
)
    requires
        p.body is Nack,
        p.body->Nack_0.nack_type == NackType::Dropped,
        a.nack_fits(p.body->Nack_0, p.header),
        a.sent.contains_key(p.session_id),
        0 <= k < a.sent[p.session_id].len(),
        a.sent[p.session_id][k].fragment_index == p.body->Nack_0.fragment_index,
        forall|j: int|
            0 <= j < a.sent[p.session_id].len() && j != k ==> (
            #[trigger] a.sent[p.session_id][j]).fragment_index != p.body->Nack_0.fragment_index,
        packet_handled2(a, b, p, g0, g1, added, news, ok),
    ensures
        exists|m: Client2View|
            {
                &&& m == (Client2View { mesh: m.mesh, ..a })
                &&& m.mesh.nodes == a.mesh.nodes && m.mesh.map == a.mesh.map
                &&& dearer_links(
                    a.mesh.edges,
                    m.mesh.edges,
                    a.mesh.map[p.header.hops[0]].0,
                )
                &&& #[trigger] sent_again(
                    m,
                    a.sent[p.session_id][k],
                    p.session_id,
                    g0.server,
                    added,
                    ok,
                )
            },
        g1 == g0,
        b.sent == a.sent,
{
    let m = a.after_loss(p.header);
    law_losses_make_links_dearer(a, p.header);
    lemma_one_resent(
        m,
        b,
        a.sent[p.session_id],
        k,
        p.session_id,
        g0.server,
        added,
        ok,
    );
}

/// Where a hop has failed, the client asks all its neighbours anew. Where a channel still
/// names the node, the link to it from the node before it is gone, and no other one.
pub proof fn law_second_clients_avoid_failed_hops(
    a: Client2View,
    b: Client2View,
    p: PacketView,
    node: NodeId,
    g0: ClientGlobals,
    g1: ClientGlobals,
    added: Seq<OutgoingView>,
    news: Option<NewsView>,
    ok: bool,
    k: int,
)
    requires
        a.wf(),
        g0.flood_ids < u64::MAX,
        p.body is Nack,
        p.body->Nack_0.nack_type == NackType::ErrorInRouting(node),
        0 < k < p.header.hops.len(),
        p.header.hops[k] == node,
        forall|j: int| 0 <= j < k ==> #[trigger] p.header.hops[j] != node,
        packet_handled2(a, b, p, g0, g1, added, news, ok),
    ensures
        ok,
        asks_all(added, a.neighbours, a.id, (g0.flood_ids + 1) as u64),
        g1.flood_ids == g0.flood_ids + 1,
        b.neighbours == a.neighbours && b.sent == a.sent,
        ({
            let still = a.channels is Some && exists|c: (NodeId, NodeId)| #[trigger]
                a.channels->0.contains(c) && (c.0 == node || c.1 == node);
            let from = p.header.hops[k - 1];
            &&& still && a.mesh.map.contains_key(from) && a.mesh.map.contains_key(node)
                ==> only_unlinked(a.mesh, b.mesh, a.mesh.map[from].0, a.mesh.map[node].0)
            &&& still && !(a.mesh.map.contains_key(from) && a.mesh.map.contains_key(node)) ==> b.mesh
                == a.mesh
            &&& !still ==> !b.mesh.map.contains_key(node)
            &&& !still ==> forall|id: NodeId|
                id != node ==> (#[trigger] b.mesh.map.contains_key(id)
                    <==> a.mesh.map.contains_key(id)) && b.mesh.map[id] == a.mesh.map[id]
        }),
{
    lemma_second_flood(a, g0);
    let h = p.header;
    lemma_first_position(h.hops, node, k);
    let from = h.hops[k - 1];
    if a.mesh.map.contains_key(from) && a.mesh.map.contains_key(node) {
        law_meshes_lose_one_link(a.mesh, a.mesh.map[from].0, a.mesh.map[node].0);
    }
    if a.mesh.map.contains_key(node) {
        let m = MeshView { map: a.mesh.map.remove(node), ..a.mesh };
        lemma_edges_out_keep(m, listed_at(m.edges, m.ages, a.mesh.map[node].0));
    }
}

proof fn lemma_edges_out_keep(m: MeshView, list: Seq<u32>)
    ensures
        m.without_edges(list).map == m.map,
        m.without_edges(list).nodes == m.nodes,
    decreases list.len(),
{
    if list.len() > 0 {
        lemma_edges_out_keep(m, list.drop_last());
    }
}

proof fn lemma_first_position(hops: Seq<NodeId>, id: NodeId, k: int)
    requires
        0 <= k < hops.len(),
        hops[k] == id,
        forall|j: int| 0 <= j < k ==> #[trigger] hops[j] != id,
    ensures
        first_position(hops, id) == Some(k),
{
    assert(hops.contains(id));
    hops.index_of_first_ensures(id);
    let j = hops.index_of_first(id)->0;
    if j < k {
        assert(hops[j] != id);
    }
}

/// The link between two indices is gone, and nothing else.
pub open spec fn only_unlinked(a: MeshView, b: MeshView, x: u32, y: u32) -> bool {
    &&& b.nodes == a.nodes
    &&& b.map == a.map
    &&& forall|e: (u32, u32, u8)| #[trigger]
        b.edges.contains(e) <==> a.edges.contains(e) && !((e.0 == x && e.1 == y) || (e.0 == y && e.1
            == x))
}

/// A client that hears of a new link of its own has the other end as a neighbour where a
/// channel leads there, and knows it; a link joins the two. It asks all its neighbours.
pub proof fn law_second_clients_hear_of_new_links(
    a: Client2View,
    b: Client2View,
    peer: NodeId,
    from_here: bool,
    g0: ClientGlobals,
    g1: ClientGlobals,
    added: Seq<OutgoingView>,
)
    requires
        a.wf(),
        a.mesh.map.contains_key(a.id),
        a.mesh.map[a.id].0 < a.mesh.nodes.len(),
        a.mesh.map.contains_key(peer) ==> a.mesh.map[peer].0 < a.mesh.nodes.len(),
        peer != a.id,
        g0.flood_ids < u64::MAX,
        a.channels is Some,
        change_handled2(
            a,
            b,
            if from_here {
                ChangeView::AddSender(a.id, peer)
            } else {
                ChangeView::AddSender(peer, a.id)
            },
            g0,
            g1,
            added,
        ),
    ensures
        a.channels->0.contains((a.id, peer)) ==> gained(a.neighbours, b.neighbours, peer),
        a.channels->0.contains((a.id, peer)) && a.mesh.room(2) ==> b.mesh.map.contains_key(peer)
            && link_between(b.mesh.edges, b.mesh.map[a.id].0, b.mesh.map[peer].0),
        !a.channels->0.contains((a.id, peer)) ==> b.neighbours == a.neighbours && b.mesh == a.mesh,
        asks_all(added, b.neighbours, a.id, (g0.flood_ids + 1) as u64),
        g1.flood_ids == g0.flood_ids + 1,
        b.sent == a.sent && b.received == a.received,
{
    lemma_gained(a.neighbours, peer);
    lemma_second_flood(b, g0);
    if a.channels->0.contains((a.id, peer)) && a.mesh.room(2) {
        let m = a.mesh.with_node(peer, NodeType::Drone);
        let x = a.mesh.map[a.id].0;
        let y = m.map[peer].0;
        lemma_link_put(m, x, y, 1);
    }
}

proof fn lemma_link_put(m: MeshView, x: u32, y: u32, w: u8)
    requires
        x < m.nodes.len(),
        y < m.nodes.len(),
    ensures
        link_between(m.with_link(x, y, w).edges, x, y),
{
    let r = m.with_link(x, y, w).edges;
    if has_link(m.edges, x, y) {
        let e = choose|e: int| edge_between(m.edges, e, x, y);
        assert(r[e].0 == x || r[e].0 == y);
    } else {
        assert(r[m.edges.len() as int].0 == x);
    }
}

/// A client that hears that one of its links is gone has the other end as a neighbour no
/// more, and no link joins the two; all other links stay. It asks the neighbours that are
/// left.
pub proof fn law_second_clients_hear_of_removed_links(
    a: Client2View,
    b: Client2View,
    peer: NodeId,
    from_here: bool,
    g0: ClientGlobals,
    g1: ClientGlobals,
    added: Seq<OutgoingView>,
)
    requires
        a.wf(),
        peer != a.id,
        a.mesh.map.contains_key(a.id),
        a.mesh.map.contains_key(peer),
        g0.flood_ids < u64::MAX,
        change_handled2(
            a,
            b,
            if from_here {
                ChangeView::RemoveSender(a.id, peer)
            } else {
                ChangeView::RemoveSender(peer, a.id)
            },
            g0,
            g1,
            added,
        ),
    ensures
        lost(a.neighbours, b.neighbours, peer),
        only_unlinked(a.mesh, b.mesh, a.mesh.map[a.id].0, a.mesh.map[peer].0),
        asks_all(added, b.neighbours, a.id, (g0.flood_ids + 1) as u64),
        g1.flood_ids == g0.flood_ids + 1,
        b.sent == a.sent && b.received == a.received,
{
    lemma_without_id(a.neighbours, peer);
    lemma_second_flood(b, g0);
    let x = a.mesh.map[a.id].0;
    let y = a.mesh.map[peer].0;
    law_meshes_lose_one_link(a.mesh, x, y);
    law_meshes_lose_one_link(a.mesh, y, x);
}

/// A client that hears of a crash does not know the node any more and has it as a neighbour
/// no more; what it knows of the other ids stays. It asks the neighbours that are left.
pub proof fn law_second_clients_hear_of_crashes(
    a: Client2View,
    b: Client2View,
    node: NodeId,
    g0: ClientGlobals,
    g1: ClientGlobals,
    added: Seq<OutgoingView>,
)
    requires
        a.wf(),
        g0.flood_ids < u64::MAX,
        change_handled2(a, b, ChangeView::Crash(node), g0, g1, added),
    ensures
        lost(a.neighbours, b.neighbours, node),
        !b.mesh.map.contains_key(node),
        forall|id: NodeId|
            id != node ==> (#[trigger] b.mesh.map.contains_key(id) <==> a.mesh.map.contains_key(id))
                && b.mesh.map[id] == a.mesh.map[id],
        asks_all(added, b.neighbours, a.id, (g0.flood_ids + 1) as u64),
        g1.flood_ids == g0.flood_ids + 1,
        b.sent == a.sent && b.received == a.received,
{
    lemma_without_id(a.neighbours, node);
    lemma_second_flood(b, g0);
    if a.mesh.map.contains_key(node) {
        let i = a.mesh.map[node].0;
        let m = choose|m: MeshView| #[trigger]
            mesh_node_removed(MeshView { map: a.mesh.map.remove(node), ..a.mesh }, m, i) && b.mesh
                == m.without_links_at(i);
        lemma_edges_out_keep(m, listed_at(m.edges, m.ages, i));
    }
}

/// A client that hears of a new drone with which it shares a channel has it as a neighbour
/// and knows it. It asks all its neighbours.
pub proof fn law_second_clients_hear_of_new_drones(
    a: Client2View,
    b: Client2View,
    drone: NodeId,
    peers: Seq<NodeId>,
    g0: ClientGlobals,
    g1: ClientGlobals,
    added: Seq<OutgoingView>,
)
    requires
        a.wf(),
        g0.flood_ids < u64::MAX,
        change_handled2(a, b, ChangeView::SpawnDrone(drone, peers), g0, g1, added),
    ensures
        ({
            let shared = a.channels is Some && (a.channels->0.contains((drone, a.id))
                || a.channels->0.contains((a.id, drone)));
            &&& shared ==> gained(a.neighbours, b.neighbours, drone)
            &&& shared && a.mesh.room(1) ==> b.mesh.map.contains_key(drone)
            &&& shared && a.mesh.room(1) && !a.mesh.map.contains_key(drone)
                ==> b.mesh.nodes[b.mesh.map[drone].0 as int] == drone && b.mesh.map[drone].1
                == NodeType::Drone
            &&& !shared ==> b.neighbours == a.neighbours && b.mesh == a.mesh
        }),
        b.mesh.edges == a.mesh.edges,
        asks_all(added, b.neighbours, a.id, (g0.flood_ids + 1) as u64),
        g1.flood_ids == g0.flood_ids + 1,
{
    lemma_gained(a.neighbours, drone);
    lemma_second_flood(b, g0);
}

/// A fragment is acknowledged along the route of its packet, to the next hop, where that is
/// a neighbour.
pub proof fn law_second_clients_acknowledge(
    a: Client2View,
    b: Client2View,
    p: PacketView,
    g0: ClientGlobals,
    g1: ClientGlobals,
    added: Seq<OutgoingView>,
    news: Option<NewsView>,
    ok: bool,
)
    requires
        p.body is MsgFragment,
        0 <= p.header.hop_index < p.header.hops.len(),
        packet_handled2(a, b, p, g0, g1, added, news, ok),
    ensures
        added.len() > 0 <==> a.neighbours.contains(p.header.hops[p.header.hop_index]),
        forall|k: int|
            0 <= k < added.len() ==> (#[trigger] added[k]).to
                == p.header.hops[p.header.hop_index] && added[k].packet.session_id == p.session_id
                && added[k].packet.body == BodyView::Ack(
                Ack { fragment_index: p.body->MsgFragment_0.fragment_index },
            ) && added[k].packet.header == p.header,
        ok,
{
}

/// A message puts the user in a chat with its sender; a chat that could not begin leaves the
/// user in none; other news change nothing.
pub proof fn law_news_set_the_status(
    a: Client2View,
    b: Client2View,
    p: PacketView,
    g0: ClientGlobals,
    g1: ClientGlobals,
    added: Seq<OutgoingView>,
    news: Option<NewsView>,
    ok: bool,
)
    requires
        p.body is MsgFragment,
        packet_handled2(a, b, p, g0, g1, added, news, ok),
    ensures
        news is Some && news->0 is Message ==> g1.chatting && g1.peer == news->0->Message_0
            && same_but_chat(g0, g1),
        news is Some && news->0 is ChatFailed ==> !g1.chatting && g1.peer == 0 && same_but_chat(
            g0,
            g1,
        ),
        !(news is Some && (news->0 is Message || news->0 is ChatFailed)) ==> g1 == g0,
{
}

/// A text that reaches a client in fragments, one after the other, is read when the last one
/// arrives, and not before. A text with a zero byte in it is left out.
pub proof fn law_second_clients_read_whole_texts(
    v: Client2View,
    b: Client2View,
    p: PacketView,
    text: Seq<char>,
    frags: Seq<Fragment>,
    k: int,
    g0: ClientGlobals,
    g1: ClientGlobals,
    added: Seq<OutgoingView>,
    news: Option<NewsView>,
    ok: bool,
)
    requires
        !v.received.contains_key(p.session_id),
        frags.len() == chunk_count(encode_utf8(text).len() as int),
        forall|i: int|
            0 <= i < frags.len() ==> is_chunk(#[trigger] frags[i], encode_utf8(text), i),
        forall|i: int|
            0 <= i < encode_utf8(text).len() ==> #[trigger] encode_utf8(text)[i] != 0,
        0 <= k < frags.len(),
        p.body == BodyView::MsgFragment(frags[k]),
        packet_handled2(
            received_after(v, p.session_id, frags, k),
            b,
            p,
            g0,
            g1,
            added,
            news,
            ok,
        ),
    ensures
        k == frags.len() - 1 ==> news == Some(news_of(text)),
        k < frags.len() - 1 ==> news is None && g1 == g0,
{
    let bytes = encode_utf8(text);
    law_clients_put_messages_together(v, p.session_id, bytes, frags, k);
    encode_utf8_valid_utf8(text);
    encode_utf8_decode_utf8(text);
}

}
