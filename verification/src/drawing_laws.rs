//! What the drawn network shows of a configuration, and how changes of it go back there.
use crate::client1::with_neighbour;
use crate::client_laws::{gained, lemma_gained};
use crate::config::{
    adding, entry_ids, first_index, lemma_first_index, relinked, struck, ConfigView, EntryView,
};
use crate::config_laws::lemma_filter;
use crate::control_laws::{
    lemma_joined_twice, lemma_kept_by_joining, lemma_listed, lemma_relinked, listed, listed_with,
    only_joined,
};
use crate::packet::{lemma_without_id, NodeId, NodeType};
use crate::renderer::{
    all_lines, any_drone, built, cleared, clients_placed, completed, grid_node, gridded, is_side,
    laid_out, level_width, lines, lines_from, placed, servers_placed, shape_drone, shape_seats,
    shape_spot, shaped, was_active, Node, RendererView, Spot,
};
use crate::renderer_changes::{
    clear_of, connected_as, drawn_at, drawn_ids, drone_drawn, drone_set, drones_linked_to,
    drones_parted, first_spot, hosts_seated, is_down, lines_to, links_words, live_lines, max_id,
    new_places, new_spot, newcomers, peers_named, rebuilt, removing, was_drawn, with_all,
    without_lines, NewSpotView,
};
use crate::sc_backend::ControllerView;
use crate::text::{decimal, joined_with};
use crate::topology::{shape_of, Topology};
use vstd::prelude::*;

verus! {

/// A node is listed in its role.
pub open spec fn listed_as(c: ConfigView, t: NodeType, id: NodeId) -> bool {
    match t {
        NodeType::Drone => listed(c.drone, id),
        NodeType::Client => listed(c.client, id),
        NodeType::Server => listed(c.server, id),
    }
}

/// A node is listed in its role with a connection.
pub open spec fn linked_as(c: ConfigView, t: NodeType, id: NodeId, peer: NodeId) -> bool {
    match t {
        NodeType::Drone => listed_with(c.drone, id, peer),
        NodeType::Client => listed_with(c.client, id, peer),
        NodeType::Server => listed_with(c.server, id, peer),
    }
}

proof fn lemma_nothing_joined(s: Seq<EntryView>, a: NodeId, b: NodeId)
    ensures
        only_joined(s, s, a, b),
{
}

/// Two nodes of which one is a drone and the other a drone, a client or a server are listed
/// with each other once they are connected; no other connection is added, and none is lost.
/// Two hosts are not connected.
pub proof fn law_connected_nodes_list_each_other(
    c: ConfigView,
    ta: NodeType,
    tb: NodeType,
    a: NodeId,
    b: NodeId,
)
    requires
        a != b,
        listed_as(c, ta, a),
        listed_as(c, tb, b),
    ensures
        ({
            let d = connected_as(c, ta, tb, a, b);
            &&& ta == NodeType::Drone || tb == NodeType::Drone ==> linked_as(d, ta, a, b)
                && linked_as(d, tb, b, a)
            &&& ta != NodeType::Drone && tb != NodeType::Drone ==> d == c
            &&& only_joined(c.drone, d.drone, a, b)
            &&& only_joined(c.client, d.client, a, b)
            &&& only_joined(c.server, d.server, a, b)
        }),
{
    lemma_nothing_joined(c.drone, a, b);
    lemma_nothing_joined(c.client, a, b);
    lemma_nothing_joined(c.server, a, b);
    lemma_relinked(c.drone, a, b);
    lemma_relinked(c.drone, b, a);
    lemma_relinked(c.client, a, b);
    lemma_relinked(c.client, b, a);
    lemma_relinked(c.server, a, b);
    lemma_relinked(c.server, b, a);
    if ta == NodeType::Drone && tb == NodeType::Drone {
        let once = relinked(c.drone, a, adding(b));
        lemma_relinked(once, b, a);
        let k = choose|k: int| 0 <= k < c.drone.len() && (#[trigger] c.drone[k]).id == b;
        assert(once[k].id == b);
        assert(listed(once, b));
        lemma_kept_by_joining(once, relinked(once, b, adding(a)), b, a, a, b);
        lemma_joined_twice(c.drone, once, relinked(once, b, adding(a)), a, b);
    }
}

/// The drones up to `n` of a list have a connection to a drone, as far as they are listed;
/// other lists are as before, and so is the drone itself.
proof fn lemma_drones_linked_to(c: ConfigView, ids: Seq<NodeId>, id: NodeId, n: int)
    requires
        0 <= n <= ids.len(),
        !ids.contains(id),
    ensures
        ({
            let d = drones_linked_to(c, ids, id, n);
            &&& d.client == c.client && d.server == c.server
            &&& d.drone.len() == c.drone.len()
            &&& forall|k: int|
                0 <= k < c.drone.len() ==> (#[trigger] d.drone[k]).id == c.drone[k].id
                    && d.drone[k].pdr == c.drone[k].pdr
            &&& forall|k: int|
                0 <= k < c.drone.len() && c.drone[k].id == id ==> #[trigger] d.drone[k]
                    == c.drone[k]
            &&& forall|k: int, x: NodeId|
                0 <= k < c.drone.len() && #[trigger] c.drone[k].links.contains(x)
                    ==> d.drone[k].links.contains(x)
            &&& forall|k: int, x: NodeId|
                0 <= k < c.drone.len() && #[trigger] d.drone[k].links.contains(x)
                    ==> c.drone[k].links.contains(x) || (x == id && ids.contains(c.drone[k].id))
            &&& forall|k: int|
                0 <= k < n && listed(c.drone, #[trigger] ids[k]) ==> listed_with(
                    d.drone,
                    ids[k],
                    id,
                )
        }),
    decreases n,
{
    if n > 0 {
        lemma_drones_linked_to(c, ids, id, n - 1);
        let m = drones_linked_to(c, ids, id, n - 1);
        let peer = ids[n - 1];
        assert(ids.contains(peer));
        let d = drones_linked_to(c, ids, id, n);
        lemma_relinked(m.drone, peer, id);
        assert(only_joined(m.drone, d.drone, peer, id));
        assert forall|k: int| 0 <= k < c.drone.len() implies (#[trigger] d.drone[k]).id
            == c.drone[k].id && d.drone[k].pdr == c.drone[k].pdr by {
            assert(m.drone[k].id == c.drone[k].id);
        }
        assert forall|k: int| 0 <= k < c.drone.len() && c.drone[k].id == id implies
            #[trigger] d.drone[k] == c.drone[k] by {
            assert(m.drone[k] == c.drone[k]);
            lemma_listed(m.drone, peer);
            if entry_ids(m.drone).contains(peer) {
                lemma_first_index(m.drone, peer);
                assert(first_index(m.drone, peer) != k);
            }
        }
        assert forall|k: int, x: NodeId| 0 <= k < c.drone.len() && #[trigger] c.drone[k].links.contains(
            x,
        ) implies d.drone[k].links.contains(x) by {
            assert(m.drone[k].links.contains(x));
        }
        assert forall|k: int, x: NodeId| 0 <= k < c.drone.len() && #[trigger] d.drone[k].links.contains(
            x,
        ) implies c.drone[k].links.contains(x) || (x == id && ids.contains(c.drone[k].id)) by {
            assert(m.drone[k].id == c.drone[k].id);
            if !m.drone[k].links.contains(x) && x != id {
                assert(m.drone[k].id == id);
                assert(d.drone[k] == c.drone[k]);
                assert(m.drone[k] == c.drone[k]);
            }
        }
        assert forall|k: int| 0 <= k < n && listed(c.drone, #[trigger] ids[k]) implies listed_with(
            d.drone,
            ids[k],
            id,
        ) by {
            if k < n - 1 {
                assert(listed_with(m.drone, ids[k], id));
                lemma_kept_by_joining(m.drone, d.drone, peer, id, ids[k], id);
            } else {
                let j = choose|j: int| 0 <= j < c.drone.len() && (#[trigger] c.drone[j]).id == peer;
                assert(m.drone[j].id == peer);
                assert(listed(m.drone, peer));
            }
        }
    }
}

/// A drone that is set up is listed with its drop rate and its connections, and every drone
/// among those is connected to it; the other nodes keep what they had.
pub proof fn law_new_drones_are_configured(
    c: ConfigView,
    id: NodeId,
    pdr: u32,
    ids: Seq<NodeId>,
    k: int,
)
    requires
        0 <= k < c.drone.len(),
        c.drone[k].id == id,
        forall|j: int| 0 <= j < c.drone.len() && j != k ==> (#[trigger] c.drone[j]).id != id,
        !ids.contains(id),
    ensures
        ({
            let d = drone_set(c, id, pdr, ids);
            &&& d.drone.len() == c.drone.len()
            &&& d.drone[k].id == id
            &&& d.drone[k].pdr == pdr
            &&& d.drone[k].links == ids
            &&& d.client == c.client && d.server == c.server
            &&& forall|j: int|
                0 <= j < ids.len() && listed(c.drone, #[trigger] ids[j]) ==> listed_with(
                    d.drone,
                    ids[j],
                    id,
                )
            &&& forall|j: int|
                0 <= j < c.drone.len() && j != k ==> (#[trigger] d.drone[j]).id == c.drone[j].id
                    && d.drone[j].pdr == c.drone[j].pdr
            &&& forall|j: int, x: NodeId|
                0 <= j < c.drone.len() && j != k && #[trigger] c.drone[j].links.contains(x)
                    ==> d.drone[j].links.contains(x)
            &&& forall|j: int, x: NodeId|
                0 <= j < c.drone.len() && j != k && #[trigger] d.drone[j].links.contains(x)
                    ==> c.drone[j].links.contains(x) || (x == id && ids.contains(c.drone[j].id))
        }),
{
    lemma_listed(c.drone, id);
    assert(listed(c.drone, id));
    lemma_first_index(c.drone, id);
    assert(first_index(c.drone, id) == k);
    let rated = c.drone_rated(id, pdr);
    assert(rated.drone[k].id == id);
    lemma_listed(rated.drone, id);
    assert(listed(rated.drone, id));
    lemma_first_index(rated.drone, id);
    let i = first_index(rated.drone, id);
    assert(i == k) by {
        if i != k {
            assert(rated.drone[i].id == c.drone[i].id);
        }
    }
    let m = rated.drone_replaced(id, ids);
    assert(m.drone[k] == EntryView { id, pdr, links: ids });
    lemma_drones_linked_to(m, ids, id, ids.len() as int);
    let d = drone_set(c, id, pdr, ids);
    assert forall|j: int| 0 <= j < c.drone.len() && j != k implies #[trigger] m.drone[j]
        == c.drone[j] by {}
    assert forall|j: int| 0 <= j < ids.len() && listed(c.drone, #[trigger] ids[j]) implies listed_with(
        d.drone,
        ids[j],
        id,
    ) by {
        let l = choose|l: int| 0 <= l < c.drone.len() && (#[trigger] c.drone[l]).id == ids[j];
        assert(m.drone[l].id == ids[j]);
        assert(listed(m.drone, ids[j]));
    }
    assert forall|j: int, x: NodeId|
        0 <= j < c.drone.len() && j != k && #[trigger] c.drone[j].links.contains(x) implies d.drone[j].links.contains(
        x,
    ) by {
        assert(m.drone[j].links.contains(x));
    }
    assert forall|j: int, x: NodeId|
        0 <= j < c.drone.len() && j != k && #[trigger] d.drone[j].links.contains(x) implies c.drone[j].links.contains(
        x,
    ) || (x == id && ids.contains(c.drone[j].id)) by {
        assert(m.drone[j] == c.drone[j]);
    }
}

/// The id of a node that is added is larger than all that are drawn.
pub proof fn law_new_ids_are_larger(nodes: Seq<Node>, k: int)
    requires
        0 <= k < nodes.len(),
    ensures
        nodes[k].id <= max_id(nodes),
    decreases nodes.len(),
{
    if k < nodes.len() - 1 {
        law_new_ids_are_larger(nodes.drop_last(), k);
    }
}

/// A node is drawn in a role.
pub open spec fn drawn_in(nodes: Seq<Node>, k: int, t: NodeType, active: bool, id: NodeId) -> bool {
    &&& 0 <= k < nodes.len()
    &&& nodes[k].node_type == t
    &&& active ==> nodes[k].active
    &&& nodes[k].id % 256 == id
}

/// The ids that are drawn in a role are listed, and no others.
pub proof fn law_drawn_ids(nodes: Seq<Node>, t: NodeType, active: bool, id: NodeId)
    ensures
        drawn_ids(nodes, t, active).contains(id) <==> exists|k: int| #[trigger]
            drawn_in(nodes, k, t, active, id),
    decreases nodes.len(),
{
    if nodes.len() > 0 {
        let init = nodes.drop_last();
        law_drawn_ids(init, t, active, id);
        let before = drawn_ids(init, t, active);
        let n = nodes.last();
        let mine = (n.id % 256) as NodeId;
        let all = drawn_ids(nodes, t, active);
        if all.contains(id) {
            let k = all.index_of(id);
            if k < before.len() {
                assert(before[k] == id);
                let j = choose|j: int| #[trigger] drawn_in(init, j, t, active, id);
                assert(drawn_in(nodes, j, t, active, id));
            } else {
                assert(drawn_in(nodes, nodes.len() - 1, t, active, id));
            }
        }
        if exists|k: int| #[trigger] drawn_in(nodes, k, t, active, id) {
            let k = choose|k: int| #[trigger] drawn_in(nodes, k, t, active, id);
            if k < init.len() {
                assert(drawn_in(init, k, t, active, id));
                let j = before.index_of(id);
                assert(all[j] == id);
            } else {
                assert(all[before.len() as int] == mine);
            }
        }
    }
}

/// Of the lines exactly those stay whose ends are both up.
pub proof fn law_lines_of_inactive_nodes_go(
    k: ControllerView,
    nodes: Seq<Node>,
    edges: Seq<(usize, usize)>,
    e: (usize, usize),
)
    ensures
        live_lines(k, nodes, edges).contains(e) <==> edges.contains(e) && !is_down(
            k,
            (nodes[e.0 as int].id % 256) as NodeId,
        ) && !is_down(k, (nodes[e.1 as int].id % 256) as NodeId),
{
    let f = |e: (usize, usize)|
        !is_down(k, (nodes[e.0 as int].id % 256) as NodeId) && !is_down(
            k,
            (nodes[e.1 as int].id % 256) as NodeId,
        );
    lemma_filter(edges, f, e);
}

/// Of the lines exactly those go that end at a node.
pub proof fn law_lines_of_a_node_go(edges: Seq<(usize, usize)>, at: usize, e: (usize, usize))
    ensures
        without_lines(edges, at).contains(e) <==> edges.contains(e) && e.0 != at && e.1 != at,
{
    lemma_filter(edges, clear_of(at), e);
}

/// Lines lead from a node to each node of a list that is drawn, and to no other.
pub proof fn law_lines_to(v: RendererView, at: usize, ids: Seq<NodeId>, n: int, e: (usize, usize))
    requires
        0 <= n <= ids.len(),
    ensures
        lines_to(v, at, ids, n).contains(e) <==> e.0 == at && exists|k: int|
            0 <= k < n && v.index.contains_key(#[trigger] ids[k]) && v.index[ids[k]] == e.1,
    decreases n,
{
    if n > 0 {
        law_lines_to(v, at, ids, n - 1, e);
        let before = lines_to(v, at, ids, n - 1);
        let all = lines_to(v, at, ids, n);
        if all.contains(e) {
            let k = all.index_of(e);
            if k < before.len() {
                assert(before[k] == e);
                assert(before.contains(e));
            } else {
                assert(v.index.contains_key(ids[n - 1]));
            }
        }
        if e.0 == at && exists|k: int|
            0 <= k < n && v.index.contains_key(#[trigger] ids[k]) && v.index[ids[k]] == e.1 {
            let k = choose|k: int|
                0 <= k < n && v.index.contains_key(#[trigger] ids[k]) && v.index[ids[k]] == e.1;
            if k < n - 1 {
                let j = before.index_of(e);
                assert(all[j] == e);
            } else {
                assert(all[before.len() as int] == e);
            }
        }
    }
}

/// A drone that is drawn anew keeps its place and gets its drop rate; its lines are those to
/// the connections that are drawn, and the other lines stay.
pub proof fn law_drones_are_drawn_anew(
    v: RendererView,
    id: NodeId,
    pdr: u32,
    connections: Seq<NodeId>,
    e: (usize, usize),
)
    requires
        v.wf(),
        v.index.contains_key(id),
    ensures
        ({
            let w = drone_drawn(v, id, pdr, connections);
            let at = v.index[id];
            &&& w.nodes.len() == v.nodes.len()
            &&& w.nodes[at as int].pdr == pdr
            &&& w.nodes[at as int].id == v.nodes[at as int].id
            &&& forall|k: int|
                0 <= k < v.nodes.len() && k != at ==> #[trigger] w.nodes[k] == v.nodes[k]
            &&& w.edges.contains(e) <==> (v.edges.contains(e) && e.0 != at && e.1 != at) || (e.0
                == at && exists|k: int|
                0 <= k < connections.len() && v.index.contains_key(#[trigger] connections[k])
                    && v.index[connections[k]] == e.1)
        }),
{
    let at = v.index[id];
    let kept = without_lines(v.edges, at);
    let new = lines_to(v, at, connections, connections.len() as int);
    law_lines_of_a_node_go(v.edges, at, e);
    law_lines_to(v, at, connections, connections.len() as int, e);
    lemma_either(kept, new, e);
}

pub proof fn lemma_either<A>(s: Seq<A>, t: Seq<A>, x: A)
    ensures
        (s + t).contains(x) <==> s.contains(x) || t.contains(x),
{
    if (s + t).contains(x) {
        let k = (s + t).index_of(x);
        if k < s.len() {
            assert(s[k] == x);
        } else {
            assert(t[k - s.len()] == x);
        }
    }
    if s.contains(x) {
        assert((s + t)[s.index_of(x)] == x);
    }
    if t.contains(x) {
        assert((s + t)[s.len() + t.index_of(x)] == x);
    }
}

/// A node is drawn in a role.
pub open spec fn shown(v: RendererView, id: NodeId, t: NodeType) -> bool {
    &&& v.index.contains_key(id)
    &&& v.index[id] < v.nodes.len()
    &&& v.nodes[v.index[id] as int].id == id
    &&& v.nodes[v.index[id] as int].node_type == t
}

/// A drone is drawn with a drop rate.
pub open spec fn shown_drone(v: RendererView, e: EntryView) -> bool {
    shown(v, e.id, NodeType::Drone) && v.nodes[v.index[e.id] as int].pdr == e.pdr
}

proof fn lemma_placed(v: RendererView, n: Node, id: NodeId, t: NodeType)
    requires
        v.nodes.len() < usize::MAX,
    ensures
        n.id == id && n.node_type == t ==> shown(placed(v, n), id, t),
        n.id % 256 != id && shown(v, id, t) ==> shown(placed(v, n), id, t) && placed(
            v,
            n,
        ).nodes[placed(v, n).index[id] as int] == v.nodes[v.index[id] as int],
{
}

/// The first `n` drones of a list with distinct ids are drawn.
proof fn lemma_shaped(
    v: RendererView,
    old: Seq<Node>,
    t: Topology,
    s: Seq<EntryView>,
    n: int,
)
    requires
        0 <= n <= s.len(),
        v.nodes.len() + n < usize::MAX,
        entry_ids(s).no_duplicates(),
    ensures
        shaped(v, old, t, s, n).nodes.len() == v.nodes.len() + n,
        shaped(v, old, t, s, n).edges == v.edges,
        forall|k: int| 0 <= k < n ==> shown_drone(shaped(v, old, t, s, n), #[trigger] s[k]),
        n > 0 ==> any_drone(shaped(v, old, t, s, n).nodes),
    decreases n,
{
    if n > 0 {
        lemma_shaped(v, old, t, s, n - 1);
        let m = shaped(v, old, t, s, n - 1);
        let node = shape_drone(v, old, t, s[n - 1], n - 1);
        let w = placed(m, node);
        assert forall|k: int| 0 <= k < n implies shown_drone(w, #[trigger] s[k]) by {
            if k < n - 1 {
                assert(entry_ids(s)[k] != entry_ids(s)[n - 1]);
                assert(shown_drone(m, s[k]));
            }
            lemma_placed(m, node, s[k].id, NodeType::Drone);
        }
        assert(w.nodes[m.nodes.len() as int].node_type == NodeType::Drone);
    }
}

proof fn lemma_clients(v: RendererView, s: Seq<EntryView>, n: int, id: NodeId, t: NodeType)
    requires
        0 <= n <= s.len(),
        v.nodes.len() + n < usize::MAX,
    ensures
        clients_placed(v, s, n).nodes.len() == v.nodes.len() + n,
        clients_placed(v, s, n).edges == v.edges,
        (forall|k: int| 0 <= k < n ==> (#[trigger] s[k]).id != id) && shown(v, id, t) ==> shown(
            clients_placed(v, s, n),
            id,
            t,
        ) && clients_placed(v, s, n).nodes[clients_placed(v, s, n).index[id] as int]
            == v.nodes[v.index[id] as int],
        (exists|k: int| 0 <= k < n && (#[trigger] s[k]).id == id) ==> shown(
            clients_placed(v, s, n),
            id,
            NodeType::Client,
        ),
    decreases n,
{
    if n > 0 {
        lemma_clients(v, s, n - 1, id, t);
        let m = clients_placed(v, s, n - 1);
        let node = Node::a_client(
            s[n - 1].id as usize,
            Spot::Below((n - 1) as usize),
        );
        lemma_placed(m, node, id, t);
        lemma_placed(m, node, id, NodeType::Client);
    }
}

proof fn lemma_servers(v: RendererView, s: Seq<EntryView>, n: int, id: NodeId, t: NodeType)
    requires
        0 <= n <= s.len(),
        v.nodes.len() + n < usize::MAX,
    ensures
        servers_placed(v, s, n).nodes.len() == v.nodes.len() + n,
        servers_placed(v, s, n).edges == v.edges,
        (forall|k: int| 0 <= k < n ==> (#[trigger] s[k]).id != id) && shown(v, id, t) ==> shown(
            servers_placed(v, s, n),
            id,
            t,
        ) && servers_placed(v, s, n).nodes[servers_placed(v, s, n).index[id] as int]
            == v.nodes[v.index[id] as int],
        (exists|k: int| 0 <= k < n && (#[trigger] s[k]).id == id) ==> shown(
            servers_placed(v, s, n),
            id,
            NodeType::Server,
        ),
    decreases n,
{
    if n > 0 {
        lemma_servers(v, s, n - 1, id, t);
        let m = servers_placed(v, s, n - 1);
        let node = Node::a_server(
            s[n - 1].id as usize,
            Spot::Above((n - 1) as usize),
        );
        lemma_placed(m, node, id, t);
        lemma_placed(m, node, id, NodeType::Server);
    }
}

/// A line joins the drawn ends of a connection that is listed.
pub open spec fn line_of(
    index: Map<NodeId, usize>,
    s: Seq<EntryView>,
    k: int,
    j: int,
    e: (usize, usize),
) -> bool {
    &&& 0 <= k < s.len()
    &&& 0 <= j < s[k].links.len()
    &&& index.contains_key(s[k].id)
    &&& index.contains_key(s[k].links[j])
    &&& e == (index[s[k].id], index[s[k].links[j]])
}

proof fn lemma_lines_from(
    index: Map<NodeId, usize>,
    s: Seq<EntryView>,
    k: int,
    n: int,
    e: (usize, usize),
)
    requires
        0 <= k < s.len(),
        0 <= n <= s[k].links.len(),
    ensures
        lines_from(index, s[k], n).contains(e) <==> exists|j: int| #[trigger]
            line_of(index, s, k, j, e) && j < n,
    decreases n,
{
    if n > 0 {
        lemma_lines_from(index, s, k, n - 1, e);
        let before = lines_from(index, s[k], n - 1);
        let all = lines_from(index, s[k], n);
        if all.contains(e) {
            let i = all.index_of(e);
            if i < before.len() {
                assert(before[i] == e);
                assert(before.contains(e));
            } else {
                assert(line_of(index, s, k, n - 1, e));
            }
        }
        if exists|j: int| #[trigger] line_of(index, s, k, j, e) && j < n {
            let j = choose|j: int| #[trigger] line_of(index, s, k, j, e) && j < n;
            if j < n - 1 {
                assert(before.contains(e));
                let i = before.index_of(e);
                assert(all[i] == e);
            } else {
                assert(all[before.len() as int] == e);
            }
        }
    }
}

proof fn lemma_lines(index: Map<NodeId, usize>, s: Seq<EntryView>, n: int, e: (usize, usize))
    requires
        0 <= n <= s.len(),
    ensures
        lines(index, s, n).contains(e) <==> exists|k: int, j: int| #[trigger]
            line_of(index, s, k, j, e) && k < n,
    decreases n,
{
    if n > 0 {
        lemma_lines(index, s, n - 1, e);
        let m = s[n - 1].links.len() as int;
        lemma_lines_from(index, s, n - 1, m, e);
        lemma_either(lines(index, s, n - 1), lines_from(index, s[n - 1], m), e);
        if exists|k: int, j: int| #[trigger] line_of(index, s, k, j, e) && k < n {
            let (k, j) = choose|k: int, j: int| #[trigger] line_of(index, s, k, j, e) && k < n;
            if k == n - 1 {
                assert(line_of(index, s, n - 1, j, e) && j < m);
            } else {
                assert(line_of(index, s, k, j, e) && k < n - 1);
            }
        }
        if lines_from(index, s[n - 1], m).contains(e) {
            let j = choose|j: int| #[trigger] line_of(index, s, n - 1, j, e) && j < m;
            assert(line_of(index, s, n - 1, j, e));
        }
    } else {
        assert(!exists|k: int, j: int| #[trigger] line_of(index, s, k, j, e) && k < n);
    }
}

/// Some line of the drawing belongs to a connection that the configuration lists.
pub open spec fn line_listed(index: Map<NodeId, usize>, c: ConfigView, e: (usize, usize)) -> bool {
    ||| exists|k: int, j: int| #[trigger] line_of(index, c.drone, k, j, e)
    ||| exists|k: int, j: int| #[trigger] line_of(index, c.client, k, j, e)
    ||| exists|k: int, j: int| #[trigger] line_of(index, c.server, k, j, e)
}

/// Lines join the drawn ends of the connections that the configuration lists, and no others.
pub proof fn law_lines_follow_connections(index: Map<NodeId, usize>, c: ConfigView, e: (usize, usize))
    ensures
        all_lines(index, c).contains(e) <==> line_listed(index, c, e),
{
    let d = lines(index, c.drone, c.drone.len() as int);
    let h = lines(index, c.client, c.client.len() as int);
    let s = lines(index, c.server, c.server.len() as int);
    lemma_lines(index, c.drone, c.drone.len() as int, e);
    lemma_lines(index, c.client, c.client.len() as int, e);
    lemma_lines(index, c.server, c.server.len() as int, e);
    lemma_either(d, h, e);
    lemma_either(d + h, s, e);
    if exists|k: int, j: int| #[trigger] line_of(index, c.drone, k, j, e) {
        let (k, j) = choose|k: int, j: int| #[trigger] line_of(index, c.drone, k, j, e);
        assert(line_of(index, c.drone, k, j, e) && k < c.drone.len());
    }
    if exists|k: int, j: int| #[trigger] line_of(index, c.client, k, j, e) {
        let (k, j) = choose|k: int, j: int| #[trigger] line_of(index, c.client, k, j, e);
        assert(line_of(index, c.client, k, j, e) && k < c.client.len());
    }
    if exists|k: int, j: int| #[trigger] line_of(index, c.server, k, j, e) {
        let (k, j) = choose|k: int, j: int| #[trigger] line_of(index, c.server, k, j, e);
        assert(line_of(index, c.server, k, j, e) && k < c.server.len());
    }
}

/// The network is drawn in a shape: every drone with its drop rate, every client and every
/// server, and a line for each connection between nodes that are drawn, and no other.
pub open spec fn all_drawn(w: RendererView, c: ConfigView, drones: int) -> bool {
    &&& forall|k: int| 0 <= k < drones ==> shown_drone(w, #[trigger] c.drone[k])
    &&& forall|k: int|
        0 <= k < c.client.len() ==> shown(w, (#[trigger] c.client[k]).id, NodeType::Client)
    &&& forall|k: int|
        0 <= k < c.server.len() ==> shown(w, (#[trigger] c.server[k]).id, NodeType::Server)
    &&& forall|e: (usize, usize)| #[trigger] w.edges.contains(e) <==> line_listed(w.index, c, e)
}

proof fn lemma_apart(c: ConfigView)
    requires
        entry_ids(c.nodes()).no_duplicates(),
    ensures
        entry_ids(c.drone).no_duplicates(),
        forall|j: int, k: int|
            0 <= j < c.drone.len() && 0 <= k < c.client.len() ==> (#[trigger] c.drone[j]).id != (
            #[trigger] c.client[k]).id,
        forall|j: int, k: int|
            0 <= j < c.drone.len() && 0 <= k < c.server.len() ==> (#[trigger] c.drone[j]).id != (
            #[trigger] c.server[k]).id,
        forall|j: int, k: int|
            0 <= j < c.client.len() && 0 <= k < c.server.len() ==> (#[trigger] c.client[j]).id != (
            #[trigger] c.server[k]).id,
{
    let ids = entry_ids(c.nodes());
    let d = c.drone.len() as int;
    let h = c.client.len() as int;
    assert forall|j: int| 0 <= j < d implies #[trigger] c.drone[j].id == ids[j] by {}
    assert forall|j: int| 0 <= j < h implies #[trigger] c.client[j].id == ids[d + j] by {}
    assert forall|j: int| 0 <= j < c.server.len() implies #[trigger] c.server[j].id == ids[d + h
        + j] by {}
    assert forall|i: int, j: int| 0 <= i < j < entry_ids(c.drone).len() implies entry_ids(
        c.drone,
    )[i] != entry_ids(c.drone)[j] by {
        assert(ids[i] != ids[j]);
    }
}

proof fn lemma_completed(v: RendererView, c: ConfigView, drones: int)
    requires
        entry_ids(c.nodes()).no_duplicates(),
        0 <= drones <= c.drone.len(),
        v.edges.len() == 0,
        v.nodes.len() + c.client.len() + c.server.len() < usize::MAX,
        any_drone(v.nodes),
        forall|k: int| 0 <= k < drones ==> shown_drone(v, #[trigger] c.drone[k]),
    ensures
        all_drawn(completed(v, c), c, drones),
{
    lemma_apart(c);
    let m = clients_placed(v, c.client, c.client.len() as int);
    let w = servers_placed(m, c.server, c.server.len() as int);
    let r = completed(v, c);
    assert forall|k: int| 0 <= k < drones implies shown_drone(r, #[trigger] c.drone[k]) by {
        let id = c.drone[k].id;
        assert(shown_drone(v, c.drone[k]));
        lemma_clients(v, c.client, c.client.len() as int, id, NodeType::Drone);
        lemma_servers(m, c.server, c.server.len() as int, id, NodeType::Drone);
    }
    assert forall|k: int| 0 <= k < c.client.len() implies shown(
        r,
        (#[trigger] c.client[k]).id,
        NodeType::Client,
    ) by {
        let id = c.client[k].id;
        lemma_clients(v, c.client, c.client.len() as int, id, NodeType::Client);
        lemma_servers(m, c.server, c.server.len() as int, id, NodeType::Client);
    }
    assert forall|k: int| 0 <= k < c.server.len() implies shown(
        r,
        (#[trigger] c.server[k]).id,
        NodeType::Server,
    ) by {
        let id = c.server[k].id;
        lemma_clients(v, c.client, c.client.len() as int, id, NodeType::Server);
        lemma_servers(m, c.server, c.server.len() as int, id, NodeType::Server);
    }
    assert forall|e: (usize, usize)| #[trigger] r.edges.contains(e) <==> line_listed(
        r.index,
        c,
        e,
    ) by {
        law_lines_follow_connections(w.index, c, e);
        assert(v.edges + all_lines(w.index, c) =~= all_lines(w.index, c));
    }
}

proof fn lemma_gridded(
    v: RendererView,
    old: Seq<Node>,
    c: ConfigView,
    side: int,
    n: int,
)
    requires
        0 <= n <= c.nodes().len(),
        v.nodes.len() + n < usize::MAX,
        entry_ids(c.nodes()).no_duplicates(),
    ensures
        gridded(v, old, c, side, n).nodes.len() == v.nodes.len() + n,
        gridded(v, old, c, side, n).edges == v.edges,
        forall|k: int|
            0 <= k < n && k < c.drone.len() ==> shown_drone(
                gridded(v, old, c, side, n),
                #[trigger] c.drone[k],
            ),
        forall|k: int|
            0 <= k < c.client.len() && c.drone.len() + k < n ==> shown(
                gridded(v, old, c, side, n),
                (#[trigger] c.client[k]).id,
                NodeType::Client,
            ),
        forall|k: int|
            0 <= k < c.server.len() && c.drone.len() + c.client.len() + k < n ==> shown(
                gridded(v, old, c, side, n),
                (#[trigger] c.server[k]).id,
                NodeType::Server,
            ),
        n > 0 && c.drone.len() > 0 ==> any_drone(gridded(v, old, c, side, n).nodes),
    decreases n,
{
    if n > 0 {
        lemma_gridded(v, old, c, side, n - 1);
        let m = gridded(v, old, c, side, n - 1);
        let node = grid_node(old, c, n - 1, side);
        let w = placed(m, node);
        let d = c.drone.len() as int;
        let h = c.client.len() as int;
        let ids = entry_ids(c.nodes());
        assert(node.id == c.nodes()[n - 1].id);
        assert(ids[n - 1] == c.nodes()[n - 1].id);
        assert forall|k: int| 0 <= k < n && k < d implies shown_drone(w, #[trigger] c.drone[k]) by {
            assert(c.nodes()[k] == c.drone[k]);
            assert(ids[k] == c.drone[k].id);
            lemma_placed(m, node, c.drone[k].id, NodeType::Drone);
            if k < n - 1 {
                assert(shown_drone(m, c.drone[k]));
                assert(ids[k] != ids[n - 1]);
            }
        }
        assert forall|k: int| 0 <= k < h && d + k < n implies shown(
            w,
            (#[trigger] c.client[k]).id,
            NodeType::Client,
        ) by {
            assert(c.nodes()[d + k] == c.client[k]);
            assert(ids[d + k] == c.client[k].id);
            lemma_placed(m, node, c.client[k].id, NodeType::Client);
            if d + k < n - 1 {
                assert(ids[d + k] != ids[n - 1]);
            }
        }
        assert forall|k: int| 0 <= k < c.server.len() && d + h + k < n implies shown(
            w,
            (#[trigger] c.server[k]).id,
            NodeType::Server,
        ) by {
            assert(c.nodes()[d + h + k] == c.server[k]);
            assert(ids[d + h + k] == c.server[k].id);
            lemma_placed(m, node, c.server[k].id, NodeType::Server);
            if d + h + k < n - 1 {
                assert(ids[d + h + k] != ids[n - 1]);
            }
        }
        if d > 0 {
            if n == 1 {
                assert(c.nodes()[0] == c.drone[0]);
                assert(w.nodes[m.nodes.len() as int].node_type == NodeType::Drone);
            } else {
                let i = choose|i: int|
                    0 <= i < m.nodes.len() && (#[trigger] m.nodes[i]).node_type == NodeType::Drone;
                assert(w.nodes[i].node_type == NodeType::Drone);
            }
        }
    }
}

/// A network that is built anew is drawn whole. Where neither the network nor the drawing
/// has a shape, its nodes stand in a grid without lines. A shape of ten drones shows ten.
pub proof fn law_networks_are_drawn_whole(v: RendererView, w: RendererView, c: ConfigView)
    requires
        built(v, w, c),
        c.drone.len() > 0,
        entry_ids(c.nodes()).no_duplicates(),
        c.nodes().len() + c.client.len() + c.server.len() < usize::MAX,
    ensures
        ({
            let known = shape_of(c.drone) is Some || v.topology is Some;
            let t = if shape_of(c.drone) is Some {
                shape_of(c.drone)->0
            } else {
                v.topology->0
            };
            let seats = if !known || t == Topology::Custom || t == Topology::Star || t
                == Topology::DoubleChain || c.drone.len() < 10 {
                c.drone.len() as int
            } else {
                10
            };
            &&& known ==> all_drawn(w, c, seats)
            &&& !known ==> w.edges.len() == 0 && forall|k: int|
                0 <= k < c.drone.len() ==> shown_drone(w, #[trigger] c.drone[k])
            &&& !known ==> forall|k: int|
                0 <= k < c.client.len() ==> shown(w, (#[trigger] c.client[k]).id, NodeType::Client)
            &&& !known ==> forall|k: int|
                0 <= k < c.server.len() ==> shown(w, (#[trigger] c.server[k]).id, NodeType::Server)
        }),
{
    lemma_apart(c);
    let empty = cleared(v);
    let n = c.nodes().len() as int;
    let known = shape_of(c.drone) is Some || v.topology is Some;
    if known {
        let t = if shape_of(c.drone) is Some {
            shape_of(c.drone)->0
        } else {
            v.topology->0
        };
        let u = if shape_of(c.drone) is Some {
            RendererView { topology: shape_of(c.drone), ..empty }
        } else {
            empty
        };
        assert(laid_out(u, w, v.nodes, t, c));
        if t == Topology::Custom {
            let side = choose|side: int| #[trigger]
                is_side(n, side) && w == completed(gridded(u, v.nodes, c, side, n), c);
            lemma_gridded(u, v.nodes, c, side, n);
            lemma_completed(gridded(u, v.nodes, c, side, n), c, c.drone.len() as int);
        } else {
            let seats = shape_seats(t, c.drone.len() as int);
            lemma_shaped(u, v.nodes, t, c.drone, seats);
            lemma_completed(shaped(u, v.nodes, t, c.drone, seats), c, seats);
        }
    } else {
        let side = choose|side: int| #[trigger]
            is_side(n, side) && w == gridded(empty, v.nodes, c, side, n);
        lemma_gridded(empty, v.nodes, c, side, n);
    }
}

/// Once a drawn node has crashed no drone is connected to it, and a host has no connections
/// of its own; the other connections of drones stay.
pub proof fn law_crashed_nodes_are_struck(v: RendererView, c: ConfigView, id: NodeId, k: int, x: NodeId)
    requires
        0 <= k < c.drone.len(),
        v.index.contains_key(id),
    ensures
        ({
            let d = v.config_struck(c, id);
            let t = v.nodes[v.index[id] as int].node_type;
            &&& d.drone.len() == c.drone.len()
            &&& d.drone[k].id == c.drone[k].id
            &&& d.drone[k].links.contains(x) <==> c.drone[k].links.contains(x) && x != id
            &&& t == NodeType::Client && listed(c.client, id) ==> d.client[first_index(
                c.client,
                id,
            )].links.len() == 0
            &&& t == NodeType::Server && listed(c.server, id) ==> d.server[first_index(
                c.server,
                id,
            )].links.len() == 0
        }),
{
    lemma_without_id(c.drone[k].links, id);
    lemma_without_id(struck(c.drone, id)[k].links, id);
    lemma_listed(c.client, id);
    lemma_listed(c.server, id);
    if listed(c.client, id) {
        lemma_first_index(c.client, id);
        lemma_without_id(Seq::empty(), id);
    }
    if listed(c.server, id) {
        lemma_first_index(c.server, id);
        lemma_without_id(Seq::empty(), id);
    }
}

/// The number of nodes of a role among the first `n`.
pub open spec fn how_many_before(nodes: Seq<Node>, t: NodeType, n: int) -> nat
    decreases n,
{
    if n <= 0 {
        0
    } else {
        how_many_before(nodes, t, n - 1) + (if nodes[n - 1].node_type == t {
            1nat
        } else {
            0nat
        })
    }
}

proof fn lemma_rank(nodes: Seq<Node>, t: NodeType, n: int)
    requires
        0 <= n <= nodes.len(),
    ensures
        drawn_ids(nodes.subrange(0, n), t, false).len() == how_many_before(nodes, t, n),
    decreases n,
{
    if n > 0 {
        lemma_rank(nodes, t, n - 1);
        assert(nodes.subrange(0, n).drop_last() =~= nodes.subrange(0, n - 1));
        assert(nodes.subrange(0, n).last() == nodes[n - 1]);
    }
}

/// Where any drone is drawn, the servers stand above the drones and the clients below them,
/// each in its turn out of all of them, and the drones stay.
pub proof fn law_hosts_take_their_seats(v: RendererView, k: int)
    requires
        0 <= k < v.nodes.len() < usize::MAX,
    ensures
        ({
            let w = hosts_seated(v);
            let n = v.nodes[k];
            let all = v.nodes.len() as int;
            &&& w.nodes.len() == v.nodes.len()
            &&& w.edges == v.edges && w.index == v.index
            &&& n.node_type == NodeType::Drone ==> w.nodes[k] == n
            &&& w.nodes[k].id == n.id && w.nodes[k].node_type == n.node_type && w.nodes[k].pdr
                == n.pdr && w.nodes[k].active == n.active
            &&& any_drone(v.nodes) && n.node_type == NodeType::Server ==> w.nodes[k].spot
                == Spot::AboveOf(
                (how_many_before(v.nodes, NodeType::Server, k) + 1) as usize,
                how_many_before(v.nodes, NodeType::Server, all) as usize,
            )
            &&& any_drone(v.nodes) && n.node_type == NodeType::Client ==> w.nodes[k].spot
                == Spot::BelowOf(
                (how_many_before(v.nodes, NodeType::Client, k) + 1) as usize,
                how_many_before(v.nodes, NodeType::Client, all) as usize,
            )
            &&& !any_drone(v.nodes) ==> w == v
        }),
{
    let t = v.nodes[k].node_type;
    let all = v.nodes.len() as int;
    lemma_rank(v.nodes, t, k);
    lemma_rank(v.nodes, t, all);
    assert(v.nodes.subrange(0, all) =~= v.nodes);
}

/// A drone that has connections and was not drawn before.
pub open spec fn is_new(old: Seq<Node>, e: EntryView) -> bool {
    e.links.len() > 0 && forall|i: int| 0 <= i < old.len() ==> (#[trigger] old[i]).id % 256 != e.id
}

/// A place is given to a drone among those in a list.
pub open spec fn given_place(places: Seq<(NodeId, NewSpotView)>, id: NodeId) -> bool {
    exists|j: int| 0 <= j < places.len() && (#[trigger] places[j]).0 == id
}

/// A place is given to every drone that is new, and to no other one.
pub proof fn law_new_drones_get_places(
    v: RendererView,
    old: Seq<Node>,
    s: Seq<EntryView>,
    n: int,
    id: NodeId,
)
    requires
        0 <= n <= s.len(),
    ensures
        given_place(new_places(v, old, s, n), id) <==> exists|k: int|
            0 <= k < n && (#[trigger] s[k]).id == id && is_new(old, s[k]),
    decreases n,
{
    if n > 0 {
        law_new_drones_get_places(v, old, s, n - 1, id);
        let before = new_places(v, old, s, n - 1);
        let all = new_places(v, old, s, n);
        let d = s[n - 1];
        assert(is_new(old, d) <==> !was_drawn(old, d.id) && d.links.len() > 0);
        if given_place(all, id) {
            let j = choose|j: int| 0 <= j < all.len() && (#[trigger] all[j]).0 == id;
            if j < before.len() {
                assert(before[j].0 == id);
            } else {
                assert(s[n - 1].id == id && is_new(old, s[n - 1]));
            }
        }
        if exists|k: int| 0 <= k < n && (#[trigger] s[k]).id == id && is_new(old, s[k]) {
            let k = choose|k: int| 0 <= k < n && (#[trigger] s[k]).id == id && is_new(old, s[k]);
            if k < n - 1 {
                let j = choose|j: int| 0 <= j < before.len() && (#[trigger] before[j]).0 == id;
                assert(all[j].0 == id);
            } else {
                assert(all[before.len() as int].0 == id);
            }
        }
    }
}

/// The positions of those of the first `n` nodes of a list that are drawn.
pub proof fn law_drawn_positions(v: RendererView, ids: Seq<NodeId>, n: int, at: usize)
    requires
        0 <= n <= ids.len(),
    ensures
        drawn_at(v, ids, n).contains(at) <==> exists|k: int|
            0 <= k < n && v.index.contains_key(#[trigger] ids[k]) && v.index[ids[k]] == at,
    decreases n,
{
    if n > 0 {
        law_drawn_positions(v, ids, n - 1, at);
        let before = drawn_at(v, ids, n - 1);
        let all = drawn_at(v, ids, n);
        if all.contains(at) {
            let j = all.index_of(at);
            if j < before.len() {
                assert(before[j] == at);
                assert(before.contains(at));
            } else {
                assert(v.index.contains_key(ids[n - 1]));
            }
        }
        if exists|k: int|
            0 <= k < n && v.index.contains_key(#[trigger] ids[k]) && v.index[ids[k]] == at {
            let k = choose|k: int|
                0 <= k < n && v.index.contains_key(#[trigger] ids[k]) && v.index[ids[k]] == at;
            if k < n - 1 {
                let j = before.index_of(at);
                assert(all[j] == at);
            } else {
                assert(all[before.len() as int] == at);
            }
        }
    }
}

/// A new drone is put behind the last new one, where there was one; otherwise amid those of
/// its connections that are drawn, and anywhere where none is.
pub proof fn law_where_new_drones_are_put(v: RendererView, connections: Seq<NodeId>)
    ensures
        v.spawned ==> new_spot(v, connections) is AfterLast,
        !v.spawned && (forall|k: int|
            0 <= k < connections.len() ==> !v.index.contains_key(#[trigger] connections[k]))
            ==> new_spot(v, connections) is Free,
        !v.spawned && (exists|k: int|
            0 <= k < connections.len() && v.index.contains_key(#[trigger] connections[k])) ==> {
            &&& new_spot(v, connections) is Amid
            &&& forall|k: int|
                0 <= k < connections.len() && v.index.contains_key(#[trigger] connections[k])
                    ==> new_spot(v, connections)->Amid_0.contains(v.index[connections[k]])
        },
{
    let n = connections.len() as int;
    let at = drawn_at(v, connections, n);
    if at.len() > 0 {
        law_drawn_positions(v, connections, n, at[0]);
        assert(at.contains(at[0]));
    }
    assert forall|k: int|
        0 <= k < connections.len() && v.index.contains_key(
            #[trigger] connections[k],
        ) implies at.contains(v.index[connections[k]]) by {
        law_drawn_positions(v, connections, n, v.index[connections[k]]);
    }
    if exists|k: int| 0 <= k < n && v.index.contains_key(#[trigger] connections[k]) {
        let k = choose|k: int| 0 <= k < n && v.index.contains_key(#[trigger] connections[k]);
        assert(at.contains(v.index[connections[k]]));
        assert(at[at.index_of(v.index[connections[k]])] == v.index[connections[k]]);
    }
}

/// The nodes that a node can be connected to are all active ones but itself, each by its
/// role and its id.
pub proof fn law_peers_to_choose(nodes: Seq<Node>, id: NodeId, n: int, peer: NodeId, words: Seq<char>)
    requires
        0 <= n <= nodes.len(),
    ensures
        peers_named(nodes, id, n).contains((peer, words)) <==> exists|k: int|
            0 <= k < n && (#[trigger] nodes[k]).active && nodes[k].id % 256 != id && nodes[k].id
                % 256 == peer && words == role_word(nodes[k].node_type) + decimal(
                nodes[k].id as nat,
            ),
    decreases n,
{
    if n > 0 {
        law_peers_to_choose(nodes, id, n - 1, peer, words);
        let before = peers_named(nodes, id, n - 1);
        let all = peers_named(nodes, id, n);
        let e = (peer, words);
        let p = nodes[n - 1];
        if all.contains(e) {
            let j = all.index_of(e);
            if j < before.len() {
                assert(before[j] == e);
                assert(before.contains(e));
            } else {
                assert(nodes[n - 1].active);
            }
        }
        if exists|k: int|
            0 <= k < n && (#[trigger] nodes[k]).active && nodes[k].id % 256 != id && nodes[k].id
                % 256 == peer && words == role_word(nodes[k].node_type) + decimal(
                nodes[k].id as nat,
            ) {
            let k = choose|k: int|
                0 <= k < n && (#[trigger] nodes[k]).active && nodes[k].id % 256 != id && nodes[k].id
                    % 256 == peer && words == role_word(nodes[k].node_type) + decimal(
                    nodes[k].id as nat,
                );
            if k < n - 1 {
                assert(before.contains(e));
                let j = before.index_of(e);
                assert(all[j] == e);
            } else {
                assert(all[before.len() as int] == e);
            }
        }
    }
}

/// What a role is called.
pub open spec fn role_word(t: NodeType) -> Seq<char> {
    match t {
        NodeType::Drone => "Drone "@,
        NodeType::Client => "Client "@,
        NodeType::Server => "Server "@,
    }
}

/// A spot is on a level of a tree, which holds as many drones as it is wide; `i` counts the
/// drones from the top.
pub open spec fn on_level(spot: Spot, i: int, width: int, place: int) -> bool {
    &&& spot == Spot::Level(width as usize, place as usize)
    &&& 1 <= width <= 4
    &&& 0 <= place < width
    &&& i == width * (width - 1) / 2 + place
}

/// The places of the drones in a shape: on a ring, in two chains, on two wings, on the levels
/// of a tree, or in two sub-nets, each in its turn.
pub proof fn law_shape_places(i: int)
    requires
        0 <= i < 10,
    ensures
        shape_spot(Topology::Star, i) == Spot::Ring(i as usize),
        shape_spot(Topology::DoubleChain, i) == Spot::Chain(i as usize),
        shape_spot(Topology::Butterfly, i) == Spot::Wing(i as usize),
        shape_spot(Topology::SubNet, i) == Spot::SubNet(i as usize),
        exists|width: int, place: int| #[trigger]
            on_level(shape_spot(Topology::Tree, i), i, width, place),
{
    let width = level_width(i);
    let place = i - width * (width - 1) / 2;
    assert(width * (width - 1) / 2 == (if width == 1 {
        0int
    } else if width == 2 {
        1
    } else if width == 3 {
        3
    } else {
        6
    }));
    assert(on_level(shape_spot(Topology::Tree, i), i, width, place));
}

/// A node is drawn as active as it was: as the last one that was drawn with its id, and
/// active where none was.
pub proof fn law_activity_is_kept(nodes: Seq<Node>, id: usize)
    ensures
        (forall|k: int| 0 <= k < nodes.len() ==> (#[trigger] nodes[k]).id != id) ==> was_active(
            nodes,
            id,
        ),
        forall|k: int|
            0 <= k < nodes.len() && (#[trigger] nodes[k]).id == id && (forall|j: int|
                k < j < nodes.len() ==> (#[trigger] nodes[j]).id != id) ==> was_active(nodes, id)
                == nodes[k].active,
    decreases nodes.len(),
{
    if nodes.len() > 0 {
        let init = nodes.drop_last();
        law_activity_is_kept(init, id);
        assert(nodes[nodes.len() - 1] == nodes.last());
        if nodes.last().id != id {
            assert forall|k: int|
                0 <= k < nodes.len() && (#[trigger] nodes[k]).id == id && (forall|j: int|
                    k < j < nodes.len() ==> (#[trigger] nodes[j]).id != id) implies was_active(
                nodes,
                id,
            ) == nodes[k].active by {
                assert(init[k] == nodes[k]);
                assert forall|j: int| k < j < init.len() implies (#[trigger] init[j]).id != id by {
                    assert(init[j] == nodes[j]);
                }
            }
            if forall|k: int| 0 <= k < nodes.len() ==> (#[trigger] nodes[k]).id != id {
                assert forall|k: int| 0 <= k < init.len() implies (#[trigger] init[k]).id != id by {
                    assert(init[k] == nodes[k]);
                }
            }
        }
    }
}

proof fn lemma_shaped_nodes(
    v: RendererView,
    old: Seq<Node>,
    t: Topology,
    s: Seq<EntryView>,
    n: int,
)
    requires
        0 <= n <= s.len(),
        v.nodes.len() == 0,
    ensures
        shaped(v, old, t, s, n).nodes.len() == n,
        forall|k: int|
            0 <= k < n ==> #[trigger] shaped(v, old, t, s, n).nodes[k] == shape_drone(
                v,
                old,
                t,
                s[k],
                k,
            ),
    decreases n,
{
    if n > 0 {
        lemma_shaped_nodes(v, old, t, s, n - 1);
    }
}

proof fn lemma_nodes_stay(v: RendererView, c: ConfigView, k: int)
    requires
        0 <= k < v.nodes.len(),
    ensures
        k < completed(v, c).nodes.len(),
        completed(v, c).nodes[k] == v.nodes[k],
{
    lemma_clients_behind(v, c.client, c.client.len() as int, k);
    let m = clients_placed(v, c.client, c.client.len() as int);
    lemma_servers_behind(m, c.server, c.server.len() as int, k);
}

proof fn lemma_clients_behind(v: RendererView, s: Seq<EntryView>, n: int, k: int)
    requires
        0 <= n <= s.len(),
        0 <= k < v.nodes.len(),
    ensures
        clients_placed(v, s, n).nodes.len() == v.nodes.len() + n,
        clients_placed(v, s, n).nodes[k] == v.nodes[k],
    decreases n,
{
    if n > 0 {
        lemma_clients_behind(v, s, n - 1, k);
    }
}

proof fn lemma_servers_behind(v: RendererView, s: Seq<EntryView>, n: int, k: int)
    requires
        0 <= n <= s.len(),
        0 <= k < v.nodes.len(),
    ensures
        servers_placed(v, s, n).nodes.len() == v.nodes.len() + n,
        servers_placed(v, s, n).nodes[k] == v.nodes[k],
    decreases n,
{
    if n > 0 {
        lemma_servers_behind(v, s, n - 1, k);
    }
}

/// A drone of a network that has a shape stands in its place of the shape, unless the user
/// has put it elsewhere, and is as active as it was.
pub proof fn law_drones_stand_in_shape(v: RendererView, w: RendererView, c: ConfigView, k: int)
    requires
        built(v, w, c),
        shape_of(c.drone) is Some,
        0 <= k < c.drone.len(),
    ensures
        ({
            let n = w.nodes[k];
            let d = c.drone[k];
            &&& k < w.nodes.len()
            &&& n.id == d.id
            &&& n.node_type == NodeType::Drone
            &&& n.pdr == d.pdr
            &&& n.active == was_active(v.nodes, d.id as usize)
            &&& v.manual.contains(d.id) ==> n.spot == Spot::Kept && n.manual_position
            &&& !v.manual.contains(d.id) ==> n.spot == shape_spot(shape_of(c.drone)->0, k)
                && !n.manual_position
        }),
{
    let t = shape_of(c.drone)->0;
    let u = RendererView { topology: Some(t), ..cleared(v) };
    let seats = shape_seats(t, c.drone.len() as int);
    lemma_shaped_nodes(u, v.nodes, t, c.drone, seats);
    lemma_nodes_stay(shaped(u, v.nodes, t, c.drone, seats), c, k);
}

proof fn lemma_gridded_nodes(v: RendererView, old: Seq<Node>, c: ConfigView, side: int, n: int)
    requires
        0 <= n <= c.nodes().len(),
        v.nodes.len() == 0,
    ensures
        gridded(v, old, c, side, n).nodes.len() == n,
        forall|k: int|
            0 <= k < n ==> #[trigger] gridded(v, old, c, side, n).nodes[k] == grid_node(
                old,
                c,
                k,
                side,
            ),
    decreases n,
{
    if n > 0 {
        lemma_gridded_nodes(v, old, c, side, n - 1);
    }
}

/// A spot is a cell of the least square grid that holds `n` nodes, in the row and the column
/// of node `k`.
pub open spec fn in_cell(spot: Spot, k: int, side: int, n: int) -> bool {
    &&& side > 0
    &&& side * side >= n
    &&& (side - 1) * (side - 1) < n
    &&& spot == Spot::Cell((k % side) as usize, (k / side) as usize, side as usize)
}

/// A network without a shape stands in a grid, row by row, with as many columns as the least
/// square that holds all nodes has.
pub proof fn law_grids(v: RendererView, w: RendererView, c: ConfigView, k: int)
    requires
        built(v, w, c),
        shape_of(c.drone) is None,
        v.topology is None,
        0 <= k < c.nodes().len(),
    ensures
        w.nodes.len() == c.nodes().len(),
        w.nodes[k].id == c.nodes()[k].id,
        exists|side: int| #[trigger]
            in_cell(w.nodes[k].spot, k, side, c.nodes().len() as int),
{
    let n = c.nodes().len() as int;
    let empty = cleared(v);
    let side = choose|side: int| #[trigger]
        is_side(n, side) && w == gridded(empty, v.nodes, c, side, n);
    lemma_gridded_nodes(empty, v.nodes, c, side, n);
    assert(side > 0) by {
        if side == 0 {
            assert(side * side == 0);
        }
    }
    assert(in_cell(w.nodes[k].spot, k, side, n));
}

proof fn lemma_with_all(v: Seq<NodeId>, ids: Seq<NodeId>, x: NodeId)
    ensures
        with_all(v, ids).contains(x) <==> v.contains(x) || ids.contains(x),
    decreases ids.len(),
{
    if ids.len() > 0 {
        let init = ids.drop_last();
        lemma_with_all(v, init, x);
        lemma_gained(with_all(v, init), ids.last());
        if ids.contains(x) {
            let k = ids.index_of(x);
            if k < init.len() {
                assert(init[k] == x);
            }
        }
        if init.contains(x) {
            let k = init.index_of(x);
            assert(ids[k] == x);
        }
        assert(ids[ids.len() - 1] == ids.last());
        assert(gained(with_all(v, init), with_all(v, ids), ids.last()));
        assert(with_all(v, ids).contains(x) <==> with_all(v, init).contains(x) || x == ids.last());
    }
}

/// Some node is drawn in a role under an id.
pub open spec fn some_drawn(nodes: Seq<Node>, t: NodeType, id: NodeId) -> bool {
    exists|k: int| #[trigger] drawn_in(nodes, k, t, false, id)
}

/// Hosts that have taken their seats stay there from then on, and so does what stayed before;
/// nothing else does.
pub proof fn law_seated_hosts_stay(v: RendererView, x: NodeId)
    requires
        any_drone(v.nodes),
    ensures
        hosts_seated(v).manual.contains(x) <==> v.manual.contains(x) || some_drawn(
            v.nodes,
            NodeType::Server,
            x,
        ) || some_drawn(v.nodes, NodeType::Client, x),
{
    let servers = drawn_ids(v.nodes, NodeType::Server, false);
    let clients = drawn_ids(v.nodes, NodeType::Client, false);
    lemma_with_all(v.manual, servers, x);
    lemma_with_all(with_all(v.manual, servers), clients, x);
    law_drawn_ids(v.nodes, NodeType::Server, false, x);
    law_drawn_ids(v.nodes, NodeType::Client, false, x);
}

/// A drone that is drawn for the first time is drawn behind the other nodes, active and with
/// its drop rate, with lines to those of its connections that are drawn; the other lines stay.
pub proof fn law_new_drones_are_drawn(
    v: RendererView,
    id: NodeId,
    pdr: u32,
    connections: Seq<NodeId>,
    e: (usize, usize),
)
    requires
        v.wf(),
        !v.index.contains_key(id),
        !connections.contains(id),
        v.nodes.len() + 1 < usize::MAX,
    ensures
        ({
            let w = drone_drawn(v, id, pdr, connections);
            let at = v.nodes.len() as usize;
            &&& w.nodes.len() == at + 1
            &&& w.index.contains_key(id) && w.index[id] == at
            &&& w.nodes[at as int].id == id
            &&& w.nodes[at as int].node_type == NodeType::Drone
            &&& w.nodes[at as int].pdr == pdr
            &&& w.nodes[at as int].active
            &&& forall|k: int|
                0 <= k < at ==> (#[trigger] w.nodes[k]).id == v.nodes[k].id && w.nodes[k].node_type
                    == v.nodes[k].node_type && w.nodes[k].active == v.nodes[k].active
            &&& w.edges.contains(e) <==> v.edges.contains(e) || (e.0 == at && exists|k: int|
                0 <= k < connections.len() && v.index.contains_key(#[trigger] connections[k])
                    && v.index[connections[k]] == e.1)
        }),
{
    let at = v.nodes.len() as usize;
    let n = connections.len() as int;
    let node = Node {
        manual_position: true,
        ..Node::a_drone(id as usize, first_spot(v, id, connections), pdr)
    };
    let u = placed(v, node);
    let m = RendererView {
        manual: with_neighbour(v.manual, id),
        edges: v.edges + lines_to(u, at, connections, n),
        ..u
    };
    law_lines_to(u, at, connections, n, e);
    lemma_either(v.edges, lines_to(u, at, connections, n), e);
    law_hosts_take_their_seats(m, at as int);
    assert forall|k: int| 0 <= k < at implies (#[trigger] hosts_seated(m).nodes[k]).id
        == v.nodes[k].id && hosts_seated(m).nodes[k].node_type == v.nodes[k].node_type
        && hosts_seated(m).nodes[k].active == v.nodes[k].active by {
        law_hosts_take_their_seats(m, k);
        assert(m.nodes[k] == v.nodes[k]);
    }
    assert forall|k: int| 0 <= k < n implies (u.index.contains_key(#[trigger] connections[k])
        <==> v.index.contains_key(connections[k])) && u.index[connections[k]]
        == v.index[connections[k]] by {
        assert(connections.contains(connections[k]));
    }
}

/// Two drones that were parted list each other no more; all other connections stay.
pub proof fn law_parted_drones(c: ConfigView, a: NodeId, b: NodeId, k: int, x: NodeId)
    requires
        a != b,
        0 <= k < c.drone.len(),
        forall|i: int, j: int|
            0 <= i < j < c.drone.len() ==> (#[trigger] c.drone[i]).id != (#[trigger] c.drone[j]).id,
    ensures
        ({
            let d = drones_parted(c, a, b);
            &&& d.drone.len() == c.drone.len()
            &&& d.drone[k].id == c.drone[k].id
            &&& d.drone[k].pdr == c.drone[k].pdr
            &&& d.drone[k].links.contains(x) <==> c.drone[k].links.contains(x) && !(c.drone[k].id
                == a && x == b) && !(c.drone[k].id == b && x == a)
            &&& d.client == c.client && d.server == c.server
        }),
{
    let m = relinked(c.drone, a, removing(b));
    let d = drones_parted(c, a, b).drone;
    lemma_without_id(c.drone[k].links, b);
    lemma_without_id(c.drone[k].links, a);
    lemma_listed(c.drone, a);
    if entry_ids(c.drone).contains(a) {
        lemma_first_index(c.drone, a);
    }
    if c.drone[k].id == a {
        assert(entry_ids(c.drone)[k] == a);
        assert(first_index(c.drone, a) == k) by {
            let i = first_index(c.drone, a);
            if i != k {
                assert(c.drone[i].id != c.drone[k].id);
            }
        }
    }
    assert forall|i: int, j: int| 0 <= i < j < m.len() implies (#[trigger] m[i]).id != (
    #[trigger] m[j]).id by {
        assert(m[i].id == c.drone[i].id && m[j].id == c.drone[j].id);
    }
    assert(m[k].id == c.drone[k].id);
    if entry_ids(m).contains(b) {
        lemma_first_index(m, b);
    }
    if m[k].id == b {
        assert(entry_ids(m)[k] == b);
        assert(first_index(m, b) == k) by {
            let i = first_index(m, b);
            if i != k {
                assert(m[i].id != m[k].id);
            }
        }
        lemma_without_id(m[k].links, a);
    }
}

/// The connections of a node in words: all of them in order, or that there are none.
pub proof fn law_connections_in_words(links: Seq<NodeId>)
    ensures
        links.len() == 0 ==> links_words(links) == "Connected to: "@ + "[(none)]"@,
        links.len() > 0 ==> links_words(links) == "Connected to: "@ + ("["@ + joined_with(
            links.map_values(|id: NodeId| decimal(id as nat)),
            ", "@,
        ) + "]"@),
{
}

proof fn lemma_newcomers(v: RendererView, old: Seq<Node>, s: Seq<EntryView>, n: int)
    requires
        0 <= n <= s.len(),
    ensures
        newcomers(v, old, s, n).edges == v.edges,
        newcomers(v, old, s, n).nodes.len() <= v.nodes.len() + n,
    decreases n,
{
    if n > 0 {
        lemma_newcomers(v, old, s, n - 1);
    }
}

/// A network that is built anew in the shape that it had is drawn whole, too. A shape of ten
/// drones shows ten.
pub proof fn law_rebuilt_networks_are_drawn_whole(
    v: RendererView,
    w: RendererView,
    c: ConfigView,
    t: Topology,
)
    requires
        rebuilt(v, w, c),
        v.topology == Some(t),
        c.drone.len() > 0,
        entry_ids(c.nodes()).no_duplicates(),
        2 * c.nodes().len() + c.client.len() + c.server.len() < usize::MAX,
    ensures
        all_drawn(
            w,
            c,
            if t == Topology::Custom || t == Topology::Star || t == Topology::DoubleChain
                || c.drone.len() < 10 {
                c.drone.len() as int
            } else {
                10
            },
        ),
{
    lemma_apart(c);
    let n = c.nodes().len() as int;
    let u = newcomers(cleared(v), v.nodes, c.drone, c.drone.len() as int);
    lemma_newcomers(cleared(v), v.nodes, c.drone, c.drone.len() as int);
    assert(laid_out(u, w, v.nodes, t, c));
    if t == Topology::Custom {
        let side = choose|side: int| #[trigger]
            is_side(n, side) && w == completed(gridded(u, v.nodes, c, side, n), c);
        lemma_gridded(u, v.nodes, c, side, n);
        lemma_completed(gridded(u, v.nodes, c, side, n), c, c.drone.len() as int);
    } else {
        let seats = shape_seats(t, c.drone.len() as int);
        lemma_shaped(u, v.nodes, t, c.drone, seats);
        lemma_completed(shaped(u, v.nodes, t, c.drone, seats), c, seats);
    }
}

}
