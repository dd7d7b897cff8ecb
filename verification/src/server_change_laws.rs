//! What servers make of changes of the network and of packets that did not arrive.
use crate::changes::json_ids;
use crate::client1::fragment_packet;
use crate::client_laws::{gained, lost};
use crate::delivery::{all_arrived, chunks_of, fed, law_servers_put_messages_together};
use crate::discovery_laws::{edge_known, grown_from, lemma_grown_twice, lemma_with_link};
use crate::flood_laws::{asked_by, law_servers_ask_the_neighbours_they_know};
use crate::fragment::{chunk_count, received_text};
use crate::graphs::{edge_at, edges_taken_out, touches};
use crate::laws::lemma_id_list_plain;
use crate::packet::{
    lemma_without_id, Ack, BodyView, Fragment, NackType, NodeId, NodeType, OutgoingView, PacketView,
};
use crate::sc_changes::{crash_note, link_note, spawn_note};
use crate::sending_laws::only_sent;
use crate::server::{after_search, ServerView};
use crate::server_control::{
    gui_handled, packet_handled, server_change_handled, server_change_of, spawned_channels,
    spawned_links, ServerChangeView,
};
use crate::server_laws::{lemma_answered, lemma_request_tags};
use crate::server_network::{
    edge_cut, edge_pos, edge_raised, ends_differ, has_edge, in_place, lemma_edge_cut_keeps,
    node_removed, GraphView,
};
use crate::server_requests::{ids_text, message_handled};
use crate::text::{after, all_parts, begins_with, decimal, parts, trim_both};
use crate::text_laws::law_trimming_twice;
use crate::wording::{
    coupled, lemma_colons, lemma_coupled_parts, lemma_id_reads_back, lemma_single_part, plain,
};
use vstd::prelude::*;
use vstd::utf8::{encode_utf8, encode_utf8_decode_utf8, encode_utf8_valid_utf8};

verus! {

proof fn lemma_behind(prefix: Seq<char>, s: Seq<char>)
    ensures
        begins_with(prefix + s, prefix),
        after(prefix + s, prefix.len() as int) == s,
{
    assert((prefix + s).subrange(0, prefix.len() as int) =~= prefix);
    assert(after(prefix + s, prefix.len() as int) =~= s);
}

proof fn lemma_not_beginning(s: Seq<char>, prefix: Seq<char>, k: int)
    requires
        0 <= k < prefix.len(),
        k < s.len(),
        s[k] != prefix[k],
    ensures
        !begins_with(s, prefix),
{
    if begins_with(s, prefix) {
        assert(s.subrange(0, prefix.len() as int)[k] == s[k]);
    }
}

proof fn lemma_three_parts(tag: Seq<char>, a: NodeId, b: NodeId)
    requires
        plain(tag),
    ensures
        all_parts(tag + "::"@ + (decimal(a as nat) + "::"@ + decimal(b as nat))) == seq![
            tag,
            decimal(a as nat),
            decimal(b as nat),
        ],
{
    lemma_colons();
    lemma_id_reads_back(a);
    lemma_id_reads_back(b);
    let x = decimal(a as nat);
    let y = decimal(b as nat);
    let s = coupled(tag, coupled(x, y));
    let n = (s.len() + 1) as nat;
    lemma_coupled_parts(tag, coupled(x, y), n);
    lemma_coupled_parts(x, y, (n - 1) as nat);
    lemma_single_part(y, (n - 2) as nat);
    assert(seq![tag] + (seq![x] + seq![y]) =~= seq![tag, x, y]);
}

/// What the controller announces of links and crashes, a server reads as it was meant.
pub proof fn law_servers_understand_announcements(
    v: ServerView,
    w: ServerView,
    x: NodeId,
    y: NodeId,
    added: Seq<OutgoingView>,
)
    ensures
        gui_handled(v, w, link_note("[FloodRequired]::AddSender::"@, x, y), added)
            <==> server_change_handled(v, w, ServerChangeView::AddSender(x, y), added),
        gui_handled(v, w, link_note("[FloodRequired]::RemoveSender::"@, x, y), added)
            <==> server_change_handled(v, w, ServerChangeView::RemoveSender(x, y), added),
        gui_handled(v, w, crash_note(x), added) <==> server_change_handled(
            v,
            w,
            ServerChangeView::Crash(Some(x)),
            added,
        ),
{
    reveal_strlit("::");
    reveal_strlit("[MediaBroadcast]::");
    reveal_strlit("[FloodRequired]::");
    reveal_strlit("[FloodRequired]::AddSender::");
    reveal_strlit("[FloodRequired]::RemoveSender::");
    reveal_strlit("[FloodRequired]::Crash::");
    reveal_strlit("AddSender::");
    reveal_strlit("RemoveSender::");
    reveal_strlit("SpawnDrone::");
    reveal_strlit("AddSender");
    reveal_strlit("RemoveSender");
    reveal_strlit("Crash");
    lemma_id_reads_back(x);
    lemma_id_reads_back(y);
    let dx = decimal(x as nat);
    let dy = decimal(y as nat);
    let two = dx + "::"@ + dy;
    let flood = "[FloodRequired]::"@;

    let add = "AddSender"@ + "::"@ + two;
    assert(link_note("[FloodRequired]::AddSender::"@, x, y) =~= flood + add);
    lemma_behind(flood, add);
    assert((flood + add)[1] == 'F');
    lemma_not_beginning(flood + add, "[MediaBroadcast]::"@, 1);
    assert(plain("AddSender"@));
    lemma_three_parts("AddSender"@, x, y);
    assert(add =~= "AddSender::"@ + two);
    lemma_behind("AddSender::"@, two);
    assert(add[0] == 'A');
    lemma_not_beginning(add, "RemoveSender::"@, 0);
    assert(server_change_of(add) == ServerChangeView::AddSender(x, y));

    let remove = "RemoveSender"@ + "::"@ + two;
    assert(link_note("[FloodRequired]::RemoveSender::"@, x, y) =~= flood + remove);
    lemma_behind(flood, remove);
    assert((flood + remove)[1] == 'F');
    lemma_not_beginning(flood + remove, "[MediaBroadcast]::"@, 1);
    assert(plain("RemoveSender"@));
    lemma_three_parts("RemoveSender"@, x, y);
    assert(remove =~= "RemoveSender::"@ + two);
    lemma_behind("RemoveSender::"@, two);
    assert(server_change_of(remove) == ServerChangeView::RemoveSender(x, y));

    let crash = "Crash"@ + ("::"@ + dx);
    assert(crash_note(x) =~= flood + crash);
    lemma_behind(flood, crash);
    assert((flood + crash)[1] == 'F');
    lemma_not_beginning(flood + crash, "[MediaBroadcast]::"@, 1);
    lemma_behind("Crash"@, "::"@ + dx);
    assert(crash[0] == 'C');
    lemma_not_beginning(crash, "RemoveSender::"@, 0);
    lemma_not_beginning(crash, "AddSender::"@, 0);
    lemma_not_beginning(crash, "SpawnDrone::"@, 0);
    assert(plain("Crash"@));
    assert(crash =~= coupled("Crash"@, dx));
    let n = (crash.len() + 1) as nat;
    lemma_colons();
    lemma_coupled_parts("Crash"@, dx, n);
    lemma_single_part(dx, (n - 1) as nat);
    assert(all_parts(crash) =~= seq!["Crash"@, dx]);
    assert(server_change_of(crash) == ServerChangeView::Crash(Some(x)));
}

/// What the controller announces of a new drone, a server reads as it was meant, as far as
/// the list of its connections can be read.
pub proof fn law_servers_understand_new_drones(
    v: ServerView,
    w: ServerView,
    id: NodeId,
    connections: Seq<NodeId>,
    added: Seq<OutgoingView>,
)
    ensures
        gui_handled(v, w, spawn_note(id, connections), added) <==> match json_ids(
            ids_text(connections),
        ) {
            Some(peers) => server_change_handled(
                v,
                w,
                ServerChangeView::SpawnDrone(id, peers),
                added,
            ),
            None => server_change_handled(v, w, ServerChangeView::Unknown, added),
        },
{
    reveal_strlit("::");
    reveal_strlit("[MediaBroadcast]::");
    reveal_strlit("[FloodRequired]::");
    reveal_strlit("[FloodRequired]::SpawnDrone::");
    reveal_strlit("AddSender::");
    reveal_strlit("RemoveSender::");
    reveal_strlit("SpawnDrone::");
    reveal_strlit("SpawnDrone");
    lemma_colons();
    lemma_id_reads_back(id);
    lemma_id_list_plain(connections);
    let x = decimal(id as nat);
    let list = ids_text(connections);
    let two = coupled(x, list);
    let spawn = coupled("SpawnDrone"@, two);
    let flood = "[FloodRequired]::"@;
    assert(spawn_note(id, connections) =~= flood + spawn);
    lemma_behind(flood, spawn);
    assert((flood + spawn)[1] == 'F');
    lemma_not_beginning(flood + spawn, "[MediaBroadcast]::"@, 1);
    assert(spawn =~= "SpawnDrone::"@ + two);
    lemma_behind("SpawnDrone::"@, two);
    assert(spawn[0] == 'S');
    lemma_not_beginning(spawn, "RemoveSender::"@, 0);
    lemma_not_beginning(spawn, "AddSender::"@, 0);
    assert(plain("SpawnDrone"@));
    let n = (spawn.len() + 1) as nat;
    lemma_coupled_parts("SpawnDrone"@, two, n);
    lemma_coupled_parts(x, list, (n - 1) as nat);
    lemma_single_part(list, (n - 2) as nat);
    assert(all_parts(spawn) =~= seq!["SpawnDrone"@, x, list]);
}

/// The server has asked the neighbours that it knows.
pub open spec fn asked(v: ServerView, added: Seq<OutgoingView>) -> bool {
    exists|flood: u64| #[trigger] asked_by(v, flood, added)
}

proof fn lemma_pushed(v: Seq<NodeId>, id: NodeId)
    ensures
        gained(v, v.push(id), id),
{
    let w = v.push(id);
    assert forall|x: NodeId| #[trigger] w.contains(x) <==> v.contains(x) || x == id by {
        if v.contains(x) {
            let k = v.index_of(x);
            assert(w[k] == x);
        }
        assert(w[v.len() as int] == id);
    }
}

/// A server that hears of a new link knows it afterwards, both ways and without losses, and
/// all that it knew; where the link is its own and a channel leads to the other end, that
/// one is a neighbour. It asks the neighbours that it knows.
pub proof fn law_servers_hear_of_new_links(
    a: ServerView,
    b: ServerView,
    x: NodeId,
    y: NodeId,
    added: Seq<OutgoingView>,
)
    requires
        a.wf(),
        b.wf(),
        a.net.room(),
        server_change_handled(a, b, ServerChangeView::AddSender(x, y), added),
    ensures
        edge_known(b.net, x, y),
        edge_known(b.net, y, x),
        grown_from(a.net, b.net),
        b.net.types.contains_key(x) && b.net.types.contains_key(y),
        ({
            let own = x == a.id || y == a.id;
            let peer = if x == a.id {
                y
            } else {
                x
            };
            let open = b.channels is Some && b.channels->0.contains((a.id, peer));
            &&& own && open ==> gained(a.neighbours, b.neighbours, peer)
            &&& !(own && open) ==> b.neighbours == a.neighbours
        }),
        a.channels is Some ==> b.channels is Some && a.channels->0.subset_of(b.channels->0),
        asked(b, added),
        b.clients == a.clients && b.media == a.media && b.sent == a.sent,
{
    lemma_with_link(a.net, (x, a.type_or_drone(x)), (y, a.type_or_drone(y)));
    lemma_pushed(
        a.neighbours,
        if x == a.id {
            y
        } else {
            x
        },
    );
    law_servers_ask_the_neighbours_they_know(b, added);
}

/// A server that hears that a link is gone does not know it any more, either way, and knows
/// all others; where the link was its own, the other end is no neighbour any more. It asks
/// the neighbours that are left.
pub proof fn law_servers_hear_of_removed_links(
    a: ServerView,
    b: ServerView,
    x: NodeId,
    y: NodeId,
    added: Seq<OutgoingView>,
)
    requires
        a.wf(),
        b.wf(),
        server_change_handled(a, b, ServerChangeView::RemoveSender(x, y), added),
    ensures
        only_cut(a.net, b.net, x, y),
        x == a.id ==> lost(a.neighbours, b.neighbours, y),
        y == a.id && x != a.id ==> lost(a.neighbours, b.neighbours, x),
        x != a.id && y != a.id ==> b.neighbours == a.neighbours && b.channels == a.channels,
        x == a.id || y == a.id ==> (a.channels is Some ==> b.channels is Some && forall|
            c: (NodeId, NodeId),
        | #[trigger]
            b.channels->0.contains(c) <==> a.channels->0.contains(c) && c != (x, y) && c != (y, x)),
        asked(b, added),
        b.clients == a.clients && b.media == a.media && b.sent == a.sent,
{
    lemma_without_id(a.neighbours, x);
    lemma_without_id(a.neighbours, y);
    lemma_only_cut(a.net, x, y);
    law_servers_ask_the_neighbours_they_know(b, added);
}

/// The edges between the nodes of two ids are gone, and nothing else.
pub open spec fn only_cut(a: GraphView, b: GraphView, x: NodeId, y: NodeId) -> bool {
    &&& b.nodes == a.nodes
    &&& b.index == a.index
    &&& b.types == a.types
    &&& forall|e: (u32, u32, usize)| #[trigger]
        b.edges.contains(e) <==> a.edges.contains(e) && !(a.index.contains_key(x)
            && a.index.contains_key(y) && ((e.0 == a.index[x] && e.1 == a.index[y]) || (e.0
            == a.index[y] && e.1 == a.index[x])))
}

proof fn lemma_only_cut(a: GraphView, x: NodeId, y: NodeId)
    requires
        a.wf(),
    ensures
        only_cut(a, a.without_link(x, y), x, y),
{
    if a.index.contains_key(x) && a.index.contains_key(y) {
        let n = a.nodes.len() as int;
        lemma_edge_cut_keeps(a.edges, n, a.index[x], a.index[y]);
        lemma_edge_cut_keeps(
            edge_cut(a.edges, a.index[x], a.index[y]),
            n,
            a.index[y],
            a.index[x],
        );
    }
}

/// The graph does not know a node any more; the indices and roles of the other ids stay.
pub open spec fn forgotten(a: GraphView, b: GraphView, id: NodeId) -> bool {
    &&& !b.index.contains_key(id)
    &&& a.index.contains_key(id) ==> !b.types.contains_key(id)
    &&& forall|x: NodeId|
        x != id ==> (#[trigger] b.index.contains_key(x) <==> a.index.contains_key(x)) && b.index[x]
            == a.index[x]
    &&& forall|x: NodeId|
        x != id ==> (#[trigger] b.types.contains_key(x) <==> a.types.contains_key(x)) && b.types[x]
            == a.types[x]
}

/// A server that hears of a crash forgets the node, which is no neighbour any more, and asks
/// the neighbours that are left, twice.
pub proof fn law_servers_hear_of_crashes(
    a: ServerView,
    b: ServerView,
    id: NodeId,
    added: Seq<OutgoingView>,
)
    requires
        a.wf(),
        b.wf(),
        server_change_handled(a, b, ServerChangeView::Crash(Some(id)), added),
    ensures
        forgotten(a.net, b.net, id),
        lost(a.neighbours, b.neighbours, id),
        exists|cut: int|
            0 <= cut <= added.len() && #[trigger] asked(b, added.subrange(0, cut)) && asked(
                b,
                added.subrange(cut, added.len() as int),
            ),
        b.clients == a.clients && b.media == a.media && b.sent == a.sent && b.channels
            == a.channels,
{
    lemma_without_id(a.neighbours, id);
    let cut = choose|cut: int|
        0 <= cut <= added.len() && #[trigger] b.is_discovery(added.subrange(0, cut))
            && b.is_discovery(added.subrange(cut, added.len() as int));
    law_servers_ask_the_neighbours_they_know(b, added.subrange(0, cut));
    law_servers_ask_the_neighbours_they_know(b, added.subrange(cut, added.len() as int));
    assert(asked(b, added.subrange(0, cut)));
}

/// A drone is linked to each of the first `n` peers whose role was known.
pub open spec fn joined_to(
    old_net: GraphView,
    net: GraphView,
    drone: NodeId,
    peers: Seq<NodeId>,
    n: int,
) -> bool {
    forall|k: int|
        0 <= k < n && old_net.types.contains_key(#[trigger] peers[k]) ==> edge_known(
            net,
            drone,
            peers[k],
        ) && edge_known(net, peers[k], drone)
}

proof fn lemma_spawned_links(net: GraphView, drone: NodeId, peers: Seq<NodeId>, n: int)
    requires
        0 <= n <= peers.len(),
        spawned_links(net, drone, peers, n).room(),
    ensures
        grown_from(net, spawned_links(net, drone, peers, n)),
        joined_to(net, spawned_links(net, drone, peers, n), drone, peers, n),
    decreases n,
{
    if n > 0 {
        let m = spawned_links(net, drone, peers, n - 1);
        let peer = peers[n - 1];
        let h = spawned_links(net, drone, peers, n);
        if m.types.contains_key(peer) {
            if m.room() {
                lemma_spawned_links(net, drone, peers, n - 1);
                lemma_with_link(m, (drone, NodeType::Drone), (peer, m.types[peer]));
                lemma_grown_twice(net, m, h);
            }
        } else {
            lemma_spawned_links(net, drone, peers, n - 1);
        }
        assert forall|k: int|
            0 <= k < n && net.types.contains_key(#[trigger] peers[k]) implies edge_known(
            h,
            drone,
            peers[k],
        ) && edge_known(h, peers[k], drone) by {
            if k < n - 1 {
                assert(edge_known(m, drone, peers[k]) && edge_known(m, peers[k], drone));
            }
        }
    }
}

/// The drone has channels to and from those of the first `n` peers that are neighbours, and
/// no other channels are new.
pub open spec fn opened(
    c: Set<(NodeId, NodeId)>,
    d: Set<(NodeId, NodeId)>,
    neighbours: Seq<NodeId>,
    drone: NodeId,
    peers: Seq<NodeId>,
    n: int,
) -> bool {
    &&& forall|k: int|
        0 <= k < n && neighbours.contains(#[trigger] peers[k]) ==> d.contains((drone, peers[k]))
            && d.contains((peers[k], drone))
    &&& c.subset_of(d)
    &&& forall|q: (NodeId, NodeId)| #[trigger]
        d.contains(q) && !c.contains(q) ==> (q.0 == drone && neighbours.contains(q.1)) || (q.1
            == drone && neighbours.contains(q.0))
}

proof fn lemma_spawned_channels(
    c: Set<(NodeId, NodeId)>,
    neighbours: Seq<NodeId>,
    drone: NodeId,
    peers: Seq<NodeId>,
    n: int,
)
    requires
        0 <= n <= peers.len(),
    ensures
        opened(
            c,
            spawned_channels(c, neighbours, drone, peers, n),
            neighbours,
            drone,
            peers,
            n,
        ),
    decreases n,
{
    if n > 0 {
        lemma_spawned_channels(c, neighbours, drone, peers, n - 1);
        let before = spawned_channels(c, neighbours, drone, peers, n - 1);
        let d = spawned_channels(c, neighbours, drone, peers, n);
        assert forall|k: int| 0 <= k < n && neighbours.contains(#[trigger] peers[k]) implies d.contains(
            (drone, peers[k]),
        ) && d.contains((peers[k], drone)) by {
            if k < n - 1 {
                assert(before.contains((drone, peers[k])) && before.contains((peers[k], drone)));
            }
        }
    }
}

/// A server that hears of a new drone knows it as a drone where it had no role for it, and
/// knows its links to all peers whose role it knows. Where a channel leads to the drone, it
/// is a neighbour. The server asks the neighbours that it knows. A graph that has run out of
/// indices is left out.
pub proof fn law_servers_hear_of_new_drones(
    a: ServerView,
    b: ServerView,
    drone: NodeId,
    peers: Seq<NodeId>,
    added: Seq<OutgoingView>,
)
    requires
        a.wf(),
        b.wf(),
        b.net.room(),
        server_change_handled(a, b, ServerChangeView::SpawnDrone(drone, peers), added),
    ensures
        b.net.types.contains_key(drone),
        joined_to(a.net, b.net, drone, peers, peers.len() as int),
        grown_from(a.net, b.net),
        a.channels is Some ==> b.channels is Some && opened(
            a.channels->0,
            b.channels->0,
            a.neighbours,
            drone,
            peers,
            peers.len() as int,
        ),
        ({
            let open = b.channels is Some && b.channels->0.contains((a.id, drone));
            &&& open ==> gained(a.neighbours, b.neighbours, drone)
            &&& !open ==> b.neighbours == a.neighbours
        }),
        asked(b, added),
        b.clients == a.clients && b.media == a.media && b.sent == a.sent,
{
    let typed = if a.net.types.contains_key(drone) {
        a.net
    } else {
        GraphView { types: a.net.types.insert(drone, NodeType::Drone), ..a.net }
    };
    let n = peers.len() as int;
    lemma_spawned_links(typed, drone, peers, n);
    assert(grown_from(a.net, typed));
    lemma_grown_twice(a.net, typed, b.net);
    assert(typed.types.contains_key(drone));
    assert(b.net.types.contains_key(drone));
    assert forall|k: int|
        0 <= k < n && a.net.types.contains_key(#[trigger] peers[k]) implies edge_known(
        b.net,
        drone,
        peers[k],
    ) && edge_known(b.net, peers[k], drone) by {
        assert(typed.types.contains_key(peers[k]));
    }
    if let Some(c) = a.channels {
        lemma_spawned_channels(c, a.neighbours, drone, peers, n);
    }
    lemma_pushed(a.neighbours, drone);
    law_servers_ask_the_neighbours_they_know(b, added);
}

/// The edge joins the nodes of two ids, in either direction.
pub open spec fn on_link(g: GraphView, e: int, x: NodeId, y: NodeId) -> bool {
    &&& g.index.contains_key(x)
    &&& g.index.contains_key(y)
    &&& (g.edges[e].0 == g.index[x] && g.edges[e].1 == g.index[y]) || (g.edges[e].0 == g.index[y]
        && g.edges[e].1 == g.index[x])
}

/// The edges between two nodes count one more loss, as far as the number fits; all else
/// stays.
pub open spec fn loss_noted(a: GraphView, b: GraphView, x: NodeId, y: NodeId) -> bool {
    &&& b.nodes == a.nodes
    &&& b.index == a.index
    &&& b.types == a.types
    &&& b.edges.len() == a.edges.len()
    &&& forall|e: int|
        0 <= e < a.edges.len() ==> (#[trigger] b.edges[e]).0 == a.edges[e].0 && b.edges[e].1
            == a.edges[e].1 && b.edges[e].2 == a.edges[e].2 + (if on_link(a, e, x, y)
            && a.edges[e].2 < usize::MAX {
            1int
        } else {
            0int
        })
}

proof fn lemma_raised(edges: Seq<(u32, u32, usize)>, i: u32, j: u32)
    requires
        ends_differ(edges),
    ensures
        edge_raised(edges, i, j).len() == edges.len(),
        ends_differ(edge_raised(edges, i, j)),
        forall|e: int|
            0 <= e < edges.len() ==> (#[trigger] edge_raised(edges, i, j)[e]).0 == edges[e].0
                && edge_raised(edges, i, j)[e].1 == edges[e].1 && edge_raised(edges, i, j)[e].2
                == edges[e].2 + (if edges[e].0 == i && edges[e].1 == j && edges[e].2 < usize::MAX {
                1int
            } else {
                0int
            }),
{
    let r = edge_raised(edges, i, j);
    if has_edge(edges, i, j) {
        let p = edge_pos(edges, i, j);
        assert(edge_at(edges, p, i, j));
        assert forall|e: int| 0 <= e < edges.len() implies (#[trigger] r[e]).0 == edges[e].0
            && r[e].1 == edges[e].1 && r[e].2 == edges[e].2 + (if edges[e].0 == i && edges[e].1 == j
            && edges[e].2 < usize::MAX {
            1int
        } else {
            0int
        }) by {
            if edges[e].0 == i && edges[e].1 == j {
                assert(edges[e].0 == edges[p].0);
            }
        }
        assert forall|k: int, l: int|
            0 <= k < r.len() && 0 <= l < r.len() && (#[trigger] r[k]).0 == (#[trigger] r[l]).0
                && r[k].1 == r[l].1 implies k == l by {
            assert(edges[k].0 == edges[l].0);
        }
    } else {
        assert forall|e: int| 0 <= e < edges.len() implies !(edges[e].0 == i && (
        #[trigger] edges[e]).1 == j) by {
            assert(!edge_at(edges, e, i, j));
        }
    }
}

proof fn lemma_loss_noted(a: GraphView, x: NodeId, y: NodeId)
    requires
        a.wf(),
        a.index.contains_key(x) && a.index.contains_key(y) ==> a.index[x] != a.index[y],
    ensures
        loss_noted(a, a.with_loss(x, y), x, y),
{
    if a.index.contains_key(x) && a.index.contains_key(y) {
        let i = a.index[x];
        let j = a.index[y];
        lemma_raised(a.edges, i, j);
        lemma_raised(edge_raised(a.edges, i, j), j, i);
        let m = edge_raised(a.edges, i, j);
        let b = a.with_loss(x, y);
        assert forall|e: int| 0 <= e < a.edges.len() implies (#[trigger] b.edges[e]).0
            == a.edges[e].0 && b.edges[e].1 == a.edges[e].1 && b.edges[e].2 == a.edges[e].2 + (
        if on_link(a, e, x, y) && a.edges[e].2 < usize::MAX {
            1int
        } else {
            0int
        }) by {
            assert(m[e].0 == a.edges[e].0);
        }
    }
}

/// A fragment that was lost is sent once more to the node that it was meant for, along a
/// least-cost route that takes the loss into account, under its session. The link on which
/// it was lost counts one more loss, both ways.
pub proof fn law_servers_send_again(
    a: ServerView,
    b: ServerView,
    p: PacketView,
    added: Seq<OutgoingView>,
    lines: Seq<Seq<char>>,
)
    requires
        a.wf(),
        p.body is Nack,
        p.body->Nack_0.nack_type == NackType::Dropped,
        a.sent.contains_key((p.session_id, p.body->Nack_0.fragment_index)),
        1 <= p.header.hop_index < p.header.hops.len(),
        ({
            let x = p.header.hops[p.header.hop_index - 1];
            let y = p.header.hops[p.header.hop_index];
            a.net.index.contains_key(x) && a.net.index.contains_key(y) ==> a.net.index[x]
                != a.net.index[y]
        }),
        packet_handled(a, b, p, added, lines),
    ensures
        ({
            let (fragment, target) = a.sent[(p.session_id, p.body->Nack_0.fragment_index)];
            exists|m: GraphView, path: Option<Seq<NodeId>>|
                {
                    &&& #[trigger] m.best_path_is(a.id, target, a.known_channels(), path)
                    &&& loss_noted(
                        a.net,
                        m,
                        p.header.hops[p.header.hop_index - 1],
                        p.header.hops[p.header.hop_index],
                    )
                    &&& if path is Some && path->0.len() > 1 && a.neighbours.contains(path->0[1]) {
                        &&& added.len() == 1
                        &&& added[0].to == path->0[1]
                        &&& added[0].packet.body == BodyView::MsgFragment(fragment)
                        &&& added[0].packet.header.hops == path->0
                        &&& added[0].packet.header.hop_index == 1
                        &&& added[0].packet.session_id == p.session_id
                    } else {
                        added.len() == 0
                    }
                }
        }),
        b.sent == a.sent && b.neighbours == a.neighbours && b.clients == a.clients,
{
    let h = p.header;
    lemma_loss_noted(a.net, h.hops[h.hop_index - 1], h.hops[h.hop_index]);
    let m = a.loss_counted(h);
    let (fragment, target) = a.sent[(p.session_id, p.body->Nack_0.fragment_index)];
    let path = choose|path: Option<Seq<NodeId>>|
        {
            &&& #[trigger] m.net.best_path_is(m.id, target, m.known_channels(), path)
            &&& b == after_search(m, target)
            &&& added == (match path {
                Some(q) => m.forwarding(fragment_packet(q, fragment, p.session_id)),
                None => Seq::<OutgoingView>::empty(),
            })
        };
    assert(m.net.best_path_is(a.id, target, a.known_channels(), path));
}

/// Where a hop has failed and no channel names the node any more, the server forgets the
/// node, which is no neighbour any more. Otherwise only the link to it is gone; where the
/// server is one of its ends, the other one is no neighbour any more.
pub proof fn law_servers_avoid_failed_hops(
    a: ServerView,
    b: ServerView,
    p: PacketView,
    node: NodeId,
    added: Seq<OutgoingView>,
    lines: Seq<Seq<char>>,
)
    requires
        a.wf(),
        a.channels is Some,
        p.body is Nack,
        p.body->Nack_0.nack_type == NackType::ErrorInRouting(node),
        1 <= p.header.hop_index <= p.header.hops.len(),
        packet_handled(a, b, p, added, lines),
    ensures
        ({
            let from = p.header.hops[p.header.hop_index - 1];
            let still = exists|c: (NodeId, NodeId)| #[trigger]
                a.channels->0.contains(c) && (c.0 == node || c.1 == node);
            &&& !still ==> forgotten(a.net, b.net, node) && lost(a.neighbours, b.neighbours, node)
            &&& still ==> only_cut(a.net, b.net, from, node)
            &&& still && from == a.id ==> lost(a.neighbours, b.neighbours, node)
            &&& still && node == a.id && from != a.id ==> lost(a.neighbours, b.neighbours, from)
            &&& still && from != a.id && node != a.id ==> b.neighbours == a.neighbours
        }),
        added.len() == 0,
        b.sent == a.sent && b.clients == a.clients && b.channels == a.channels,
{
    let from = p.header.hops[p.header.hop_index - 1];
    lemma_without_id(a.neighbours, node);
    lemma_without_id(a.neighbours, from);
    lemma_only_cut(a.net, from, node);
}

/// A packet that went astray is followed by a flood request back along its hops.
pub proof fn law_servers_ask_after_astray_packets(
    a: ServerView,
    b: ServerView,
    p: PacketView,
    added: Seq<OutgoingView>,
    lines: Seq<Seq<char>>,
)
    requires
        p.body is Nack,
        p.body->Nack_0.nack_type is DestinationIsDrone || p.body->Nack_0.nack_type
            is UnexpectedRecipient,
        p.header.hops.len() > 1,
        packet_handled(a, b, p, added, lines),
    ensures
        b == a,
        ({
            let n = p.header.hops.len();
            let next = p.header.hops[n - 2];
            if a.neighbours.contains(next) {
                &&& added.len() == 1
                &&& added[0].to == next
                &&& added[0].packet.body is FloodRequest
                &&& added[0].packet.body->FloodRequest_0.initiator_id == a.id
                &&& added[0].packet.body->FloodRequest_0.flood_id == p.session_id
                &&& added[0].packet.body->FloodRequest_0.path_trace == seq![
                    (a.id, NodeType::Server),
                ]
                &&& added[0].packet.header.hop_index == 1
                &&& added[0].packet.header.hops.len() == n
                &&& forall|k: int|
                    0 <= k < n ==> #[trigger] added[0].packet.header.hops[k]
                        == p.header.hops[n - 1 - k]
            } else {
                added.len() == 0
            }
        }),
{
    let n = p.header.hops.len();
    assert(p.header.hops.reverse()[1] == p.header.hops[n - 2]);
}

/// A server acknowledges every fragment first of all, to the node that it came from and
/// back along its hops.
pub proof fn law_servers_acknowledge(
    a: ServerView,
    b: ServerView,
    p: PacketView,
    added: Seq<OutgoingView>,
    lines: Seq<Seq<char>>,
)
    requires
        p.body is MsgFragment,
        p.header.hops.len() > 1,
        a.neighbours.contains(p.header.hops[p.header.hops.len() - 2]),
        packet_handled(a, b, p, added, lines),
    ensures
        ({
            let n = p.header.hops.len();
            &&& added.len() >= 1
            &&& added[0].to == p.header.hops[n - 2]
            &&& added[0].packet.body == BodyView::Ack(
                Ack { fragment_index: p.body->MsgFragment_0.fragment_index },
            )
            &&& added[0].packet.session_id == p.session_id
            &&& added[0].packet.header.hop_index == 1
            &&& added[0].packet.header.hops.len() == n
            &&& forall|k: int|
                0 <= k < n ==> #[trigger] added[0].packet.header.hops[k] == p.header.hops[n - 1 - k]
        }),
{
    let n = p.header.hops.len();
    assert(p.header.hops.reverse()[1] == p.header.hops[n - 2]);
    let ack = a.ack(p, p.body->MsgFragment_0.fragment_index);
    assert(ack.len() == 1);
    assert(added.subrange(0, ack.len() as int)[0] == added[0]);
}

/// Two servers differ at most in the messages that are under way.
pub open spec fn same_but_under_way(v: ServerView, w: ServerView) -> bool {
    w == (ServerView { partial: w.partial, lengths: w.lengths, ..v })
}

proof fn lemma_fed_keeps(v: ServerView, key: (u64, u8), frags: Seq<Fragment>)
    ensures
        same_but_under_way(v, fed(v, key, frags)),
    decreases frags.len(),
{
    if frags.len() > 0 {
        lemma_fed_keeps(v, key, frags.drop_last());
    }
}

/// A text whose fragments reach a server, in whatever order and however often they arrive,
/// is handled as a message of the client when the last missing one arrives, behind the
/// receipt for it, and nothing is done before but that receipts leave.
pub proof fn law_whole_messages_are_handled(
    v: ServerView,
    b: ServerView,
    p: PacketView,
    text: Seq<char>,
    frags: Seq<Fragment>,
    added: Seq<OutgoingView>,
    lines: Seq<Seq<char>>,
)
    requires
        p.header.hops.len() > 0,
        frags.len() > 0,
        p.body == BodyView::MsgFragment(frags.last()),
        !v.partial.contains_key((p.session_id, p.header.hops[0])),
        !v.lengths.contains_key((p.session_id, p.header.hops[0])),
        chunks_of(frags, encode_utf8(text)),
        chunk_count(encode_utf8(text).len() as int) <= u64::MAX,
        !all_arrived(frags.drop_last(), encode_utf8(text)),
        packet_handled(
            fed(v, (p.session_id, p.header.hops[0]), frags.drop_last()),
            b,
            p,
            added,
            lines,
        ),
    ensures
        all_arrived(frags, encode_utf8(text)) ==> exists|m: ServerView, cut: int|
            {
                &&& same_but_under_way(v, m)
                &&& 0 <= cut <= 1
                &&& cut <= added.len()
                &&& #[trigger] message_handled(
                    m,
                    b,
                    p.header.hops[0],
                    p.session_id,
                    text,
                    added.subrange(cut, added.len() as int),
                    lines,
                )
            },
        !all_arrived(frags, encode_utf8(text)) ==> same_but_under_way(v, b) && added.len() <= 1
            && lines.len() == 0,
{
    let key = (p.session_id, p.header.hops[0]);
    let bytes = encode_utf8(text);
    let f = frags.last();
    let u = fed(v, key, frags.drop_last());
    lemma_fed_keeps(v, key, frags.drop_last());
    law_servers_put_messages_together(v, key, bytes, frags);
    let ack = u.ack(p, f.fragment_index);
    assert(ack.len() <= 1);
    let rest = added.subrange(ack.len() as int, added.len() as int);
    let m = u.after_fragment(key, f);
    assert(same_but_under_way(v, m));
    if all_arrived(frags, bytes) {
        encode_utf8_valid_utf8(text);
        encode_utf8_decode_utf8(text);
        assert(received_text(u.completed(key, f)) == text);
        assert(message_handled(m, b, key.1, p.session_id, text, rest, lines));
    } else {
        assert(rest.len() == 0);
    }
}

/// White space around a message does not matter to a server.
pub proof fn law_white_space_around_messages(
    a: ServerView,
    b: ServerView,
    client: NodeId,
    session: u64,
    text: Seq<char>,
    added: Seq<OutgoingView>,
    lines: Seq<Seq<char>>,
)
    ensures
        message_handled(a, b, client, session, trim_both(text), added, lines) <==> message_handled(
            a,
            b,
            client,
            session,
            text,
            added,
            lines,
        ),
{
    law_trimming_twice(text);
}

/// A message of a kind that a server does not know is passed over: nothing changes, and
/// nothing leaves.
pub proof fn law_unknown_messages_are_passed_over(
    a: ServerView,
    b: ServerView,
    client: NodeId,
    session: u64,
    text: Seq<char>,
    added: Seq<OutgoingView>,
    lines: Seq<Seq<char>>,
)
    requires
        parts(trim_both(text), 3)[0].len() < 7 || parts(trim_both(text), 3)[0].len() > 22,
        message_handled(a, b, client, session, text, added, lines),
    ensures
        only_sent(a, b),
        added.len() == 0,
        lines.len() == 0,
{
    lemma_request_tags();
    let t = parts(trim_both(text), 3);
    let list = lemma_answered(a, b, client, session, text, t, added, lines);
    assert(list.len() == 0);
}

/// Edge `e` leads from the node with one id to the node with another, and counts some losses.
pub open spec fn joins_ids(g: GraphView, e: int, x: NodeId, y: NodeId, w: usize) -> bool {
    &&& 0 <= e < g.edges.len()
    &&& g.nodes[g.edges[e].0 as int] == x
    &&& g.nodes[g.edges[e].1 as int] == y
    &&& g.edges[e].2 == w
}

/// An edge leads from the node with one id to the node with another, and counts some losses.
pub open spec fn ids_joined(g: GraphView, x: NodeId, y: NodeId, w: usize) -> bool {
    exists|e: int| #[trigger] joins_ids(g, e, x, y, w)
}

/// A node that is taken out of the graph is gone with all its edges; the other nodes are
/// there, and so are the edges between them, with their losses.
pub proof fn law_forgotten_nodes_leave_the_graph(
    a: GraphView,
    b: GraphView,
    id: NodeId,
    x: NodeId,
    y: NodeId,
    w: usize,
)
    requires
        a.wf(),
        in_place(a),
        a.placed(id),
        node_removed(a, b, id),
    ensures
        b.nodes.len() == a.nodes.len() - 1,
        b.nodes.contains(x) <==> a.nodes.contains(x) && x != id,
        ids_joined(b, x, y, w) <==> ids_joined(a, x, y, w) && x != id && y != id,
{
    let i = a.index[id];
    let n = a.nodes.len();
    let last = n - 1;
    assert(a.nodes[i as int] == id);
    assert forall|k: int| 0 <= k < b.nodes.len() implies #[trigger] b.nodes[k] == (if k == i {
        a.nodes[last]
    } else {
        a.nodes[k]
    }) by {}
    assert forall|k: int| 0 <= k < n && k != i implies #[trigger] a.nodes[k] != id by {
        assert(a.index[a.nodes[k]] == k);
    }
    if b.nodes.contains(x) {
        let k = b.nodes.index_of(x);
        if k == i {
            assert(a.nodes[last] == x);
        } else {
            assert(a.nodes[k] == x);
        }
    }
    if a.nodes.contains(x) && x != id {
        let k = a.nodes.index_of(x);
        if k == last {
            assert(b.nodes[i as int] == x);
        } else {
            assert(b.nodes[k] == x);
        }
    }
    let order = choose|order: Seq<int>| #[trigger]
        edges_taken_out(a.edges, b.edges, n, i, order);
    if ids_joined(b, x, y, w) {
        let e = choose|e: int| #[trigger] joins_ids(b, e, x, y, w);
        let f = order[e];
        assert(!touches(a.edges, f, i));
        assert(a.edges[f].0 < n && a.edges[f].1 < n);
        assert(joins_ids(a, f, x, y, w));
        assert(a.nodes[a.edges[f].0 as int] != id && a.nodes[a.edges[f].1 as int] != id);
    }
    if ids_joined(a, x, y, w) && x != id && y != id {
        let f = choose|f: int| #[trigger] joins_ids(a, f, x, y, w);
        assert(a.edges[f].0 < n && a.edges[f].1 < n);
        assert(!touches(a.edges, f, i));
        assert(order.contains(f));
        let e = order.index_of(f);
        assert(order[e] == f);
        assert(joins_ids(b, e, x, y, w));
    }
}

}
