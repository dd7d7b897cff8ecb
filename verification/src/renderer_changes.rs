//! Changes to the drawn network.
use crate::client1::with_neighbour;
use crate::config::{
    entry_ids, find_entry, first_index, law_struck_nodes_are_cut_off, relinked, replacing, struck,
    ConfigView, DroneConfig, EntryView, ParsedConfig,
};
use crate::packet::{copy_ids, has_id, remove_id, without_id, NodeId, NodeType};
use crate::renderer::{
    any_drone, built, cleared, in_grid, laid_out, lemma_lines_left, node_id, placed,
    NetworkRenderer, Node, RendererView, Spot, HALF_LOST,
};
use crate::sc_backend::{ControllerView, NodeState, SimulationController};
use crate::server_requests::{id_list_text, ids_text};
use crate::text::{decimal, join2};
use vstd::prelude::*;

verus! {

broadcast use vstd::std_specs::hash::group_hash_axioms;

/// Where a drone is put that was not drawn before.
#[derive(Debug)]
pub enum NewSpot {
    /// Next to the drone that was put last.
    AfterLast,
    /// The next free place.
    Free,
    /// Amid some nodes.
    Amid(Vec<usize>),
}

#[verifier::ext_equal]
pub enum NewSpotView {
    AfterLast,
    Free,
    Amid(Seq<usize>),
}

impl View for NewSpot {
    type V = NewSpotView;

    open spec fn view(&self) -> NewSpotView {
        match self {
            NewSpot::AfterLast => NewSpotView::AfterLast,
            NewSpot::Free => NewSpotView::Free,
            NewSpot::Amid(v) => NewSpotView::Amid(v@),
        }
    }
}

/// The positions of the first `n` nodes of a list, as far as they are drawn.
pub open spec fn drawn_at(v: RendererView, ids: Seq<NodeId>, n: int) -> Seq<usize>
    decreases n,
{
    if n <= 0 {
        Seq::empty()
    } else {
        let before = drawn_at(v, ids, n - 1);
        if v.index.contains_key(ids[n - 1]) {
            before.push(v.index[ids[n - 1]])
        } else {
            before
        }
    }
}

/// Where a drone with some connections is put.
pub open spec fn new_spot(v: RendererView, connections: Seq<NodeId>) -> NewSpotView {
    let at = drawn_at(v, connections, connections.len() as int);
    if v.spawned {
        NewSpotView::AfterLast
    } else if at.len() == 0 {
        NewSpotView::Free
    } else {
        NewSpotView::Amid(at)
    }
}

/// Some node of a list has an id.
pub open spec fn was_drawn(nodes: Seq<Node>, id: NodeId) -> bool {
    exists|i: int| 0 <= i < nodes.len() && (#[trigger] nodes[i]).id % 256 == id
}

/// A drone that was not drawn before, in its new place.
pub open spec fn newcomer(v: RendererView, d: EntryView) -> RendererView {
    let w = placed(v, Node::a_drone(d.id as usize, Spot::Kept, d.pdr));
    RendererView { manual: with_neighbour(v.manual, d.id), spawned: true, ..w }
}

/// The renderer with those of the first `n` drones that have connections and were not
/// drawn before.
pub open spec fn newcomers(v: RendererView, old: Seq<Node>, s: Seq<EntryView>, n: int) -> RendererView
    decreases n,
{
    if n <= 0 {
        v
    } else {
        let w = newcomers(v, old, s, n - 1);
        let d = s[n - 1];
        if !was_drawn(old, d.id) && d.links.len() > 0 {
            newcomer(w, d)
        } else {
            w
        }
    }
}

/// The places of those of the first `n` drones that have connections and were not drawn
/// before.
pub open spec fn new_places(v: RendererView, old: Seq<Node>, s: Seq<EntryView>, n: int) -> Seq<
    (NodeId, NewSpotView),
>
    decreases n,
{
    if n <= 0 {
        Seq::empty()
    } else {
        let before = new_places(v, old, s, n - 1);
        let d = s[n - 1];
        if !was_drawn(old, d.id) && d.links.len() > 0 {
            before.push((d.id, new_spot(newcomers(v, old, s, n - 1), d.links)))
        } else {
            before
        }
    }
}

/// Places by their views.
pub open spec fn places(v: Seq<(NodeId, NewSpot)>) -> Seq<(NodeId, NewSpotView)> {
    v.map_values(|p: (NodeId, NewSpot)| (p.0, p.1@))
}

/// The renderer after it was built anew in the shape that it had: new drones get a place
/// of their own.
pub open spec fn rebuilt(v: RendererView, w: RendererView, c: ConfigView) -> bool {
    let u = newcomers(cleared(v), v.nodes, c.drone, c.drone.len() as int);
    match v.topology {
        Some(t) => laid_out(u, w, v.nodes, t, c),
        None => in_grid(u, w, v.nodes, c),
    }
}

/// The largest id of some nodes, and 0 where there is none.
pub open spec fn max_id(nodes: Seq<Node>) -> usize
    decreases nodes.len(),
{
    if nodes.len() == 0 {
        0
    } else {
        let m = max_id(nodes.drop_last());
        if nodes.last().id > m {
            nodes.last().id
        } else {
            m
        }
    }
}

/// A new node of a role.
pub open spec fn node_of(t: NodeType, id: usize) -> Node {
    match t {
        NodeType::Drone => Node::a_drone(id, Spot::Free, HALF_LOST),
        NodeType::Server => Node::a_server(id, Spot::Free),
        NodeType::Client => Node::a_client(id, Spot::Free),
    }
}

/// A line does not end at a node.
pub open spec fn clear_of(at: usize) -> spec_fn((usize, usize)) -> bool {
    |e: (usize, usize)| e.0 != at && e.1 != at
}

/// The lines that do not end at a node.
pub open spec fn without_lines(edges: Seq<(usize, usize)>, at: usize) -> Seq<(usize, usize)> {
    edges.filter(clear_of(at))
}

/// No node of these is connected to `id`.
pub open spec fn none_linked(s: Seq<EntryView>, id: NodeId) -> bool {
    forall|k: int| 0 <= k < s.len() ==> !(#[trigger] s[k]).links.contains(id)
}

/// Nothing is connected to a node.
pub open spec fn unconnected(c: ConfigView, id: NodeId) -> bool {
    none_linked(c.drone, id) && none_linked(c.client, id) && none_linked(c.server, id)
}

proof fn lemma_struck_unconnected(c: ConfigView, id: NodeId)
    ensures
        unconnected(c.struck(id), id),
{
    lemma_struck_none_linked(c.drone, id);
    lemma_struck_none_linked(c.client, id);
    lemma_struck_none_linked(c.server, id);
}

proof fn lemma_struck_none_linked(s: Seq<EntryView>, id: NodeId)
    ensures
        none_linked(struck(s, id), id),
{
    assert forall|k: int| 0 <= k < s.len() implies !(#[trigger] struck(s, id)[k]).links.contains(
        id,
    ) by {
        law_struck_nodes_are_cut_off(s, id, k, id);
    }
}

/// A client has two connections or more.
pub open spec fn client_taken(c: ConfigView, id: NodeId) -> bool {
    entry_ids(c.client).contains(id) && c.client[first_index(c.client, id)].links.len() >= 2
}

/// The configuration with a connection between nodes that are drawn in some roles.
pub open spec fn connected_as(
    c: ConfigView,
    ta: NodeType,
    tb: NodeType,
    a: NodeId,
    b: NodeId,
) -> ConfigView {
    match (ta, tb) {
        (NodeType::Drone, NodeType::Drone) => c.drone_linked(a, b).drone_linked(b, a),
        (NodeType::Drone, NodeType::Server) => c.drone_linked(a, b).server_linked(b, a),
        (NodeType::Server, NodeType::Drone) => c.drone_linked(b, a).server_linked(a, b),
        (NodeType::Drone, NodeType::Client) => c.drone_linked(a, b).client_linked(b, a),
        (NodeType::Client, NodeType::Drone) => c.drone_linked(b, a).client_linked(a, b),
        _ => c,
    }
}

impl RendererView {
    /// Two nodes can be connected: both are drawn, no line joins them, and a client that
    /// is one of them has fewer than two drones.
    pub open spec fn connectable(self, c: ConfigView, a: NodeId, b: NodeId) -> bool {
        &&& self.index.contains_key(a)
        &&& self.index.contains_key(b)
        &&& {
            let i = self.index[a];
            let j = self.index[b];
            let ta = self.nodes[i as int].node_type;
            let tb = self.nodes[j as int].node_type;
            &&& !self.edges.contains((i, j))
            &&& !self.edges.contains((j, i))
            &&& ta == NodeType::Client && tb == NodeType::Drone ==> !client_taken(c, a)
            &&& ta == NodeType::Drone && tb == NodeType::Client ==> !client_taken(c, b)
        }
    }

    /// The configuration after two nodes were connected.
    pub open spec fn config_connected(self, c: ConfigView, a: NodeId, b: NodeId) -> ConfigView {
        connected_as(
            c,
            self.nodes[self.index[a] as int].node_type,
            self.nodes[self.index[b] as int].node_type,
            a,
            b,
        )
    }

    /// The configuration after a node that is drawn has crashed: nothing is connected to
    /// it, and a host has no connections of its own.
    pub open spec fn config_struck(self, c: ConfigView, id: NodeId) -> ConfigView {
        match self.nodes[self.index[id] as int].node_type {
            NodeType::Drone => c,
            NodeType::Client => ConfigView {
                drone: struck(c.drone, id),
                client: relinked(c.client, id, replacing(Seq::<NodeId>::empty())),
                ..c
            },
            NodeType::Server => ConfigView {
                drone: struck(c.drone, id),
                server: relinked(c.server, id, replacing(Seq::<NodeId>::empty())),
                ..c
            },
        }.struck(id)
    }
}

/// The ids of the nodes of a role, in the order in which they are drawn; `active` asks
/// for active ones.
pub open spec fn drawn_ids(nodes: Seq<Node>, t: NodeType, active: bool) -> Seq<NodeId>
    decreases nodes.len(),
{
    if nodes.len() == 0 {
        Seq::empty()
    } else {
        let before = drawn_ids(nodes.drop_last(), t, active);
        let n = nodes.last();
        if n.node_type == t && (!active || n.active) {
            before.push((n.id % 256) as NodeId)
        } else {
            before
        }
    }
}

/// A list with the ids of another one that it does not hold yet.
pub open spec fn with_all(v: Seq<NodeId>, ids: Seq<NodeId>) -> Seq<NodeId>
    decreases ids.len(),
{
    if ids.len() == 0 {
        v
    } else {
        with_neighbour(with_all(v, ids.drop_last()), ids.last())
    }
}

/// The node at `k` after the hosts were put above and below the drones.
pub open spec fn host_seated(nodes: Seq<Node>, k: int) -> Node {
    let n = nodes[k];
    let rank = drawn_ids(nodes.subrange(0, k), n.node_type, false).len();
    let count = drawn_ids(nodes, n.node_type, false).len();
    match n.node_type {
        NodeType::Server => Node { spot: Spot::AboveOf((rank + 1) as usize, count as usize), ..n },
        NodeType::Client => Node { spot: Spot::BelowOf((rank + 1) as usize, count as usize), ..n },
        NodeType::Drone => n,
    }
}

/// The renderer after the hosts were put above and below the drones.
pub open spec fn hosts_seated(v: RendererView) -> RendererView {
    if any_drone(v.nodes) {
        RendererView {
            nodes: Seq::new(v.nodes.len(), |k: int| host_seated(v.nodes, k)),
            manual: with_all(
                with_all(v.manual, drawn_ids(v.nodes, NodeType::Server, false)),
                drawn_ids(v.nodes, NodeType::Client, false),
            ),
            ..v
        }
    } else {
        v
    }
}

/// The lines from a node to the first `n` nodes of a list, as far as they are drawn.
pub open spec fn lines_to(v: RendererView, at: usize, ids: Seq<NodeId>, n: int) -> Seq<(usize, usize)>
    decreases n,
{
    if n <= 0 {
        Seq::empty()
    } else {
        let before = lines_to(v, at, ids, n - 1);
        if v.index.contains_key(ids[n - 1]) {
            before.push((at, v.index[ids[n - 1]]))
        } else {
            before
        }
    }
}

/// The configuration in which the first `n` nodes of a list are connected to a drone, as
/// far as they are drones.
pub open spec fn drones_linked_to(c: ConfigView, ids: Seq<NodeId>, id: NodeId, n: int) -> ConfigView
    decreases n,
{
    if n <= 0 {
        c
    } else {
        drones_linked_to(c, ids, id, n - 1).drone_linked(ids[n - 1], id)
    }
}

/// The configuration in which a drone has a drop rate and connections.
pub open spec fn drone_set(c: ConfigView, id: NodeId, pdr: u32, ids: Seq<NodeId>) -> ConfigView {
    drones_linked_to(
        c.drone_rated(id, pdr).drone_replaced(id, ids),
        ids,
        id,
        ids.len() as int,
    )
}

/// The place of a drone that is drawn for the first time.
pub open spec fn first_spot(v: RendererView, id: NodeId, connections: Seq<NodeId>) -> Spot {
    if v.manual.contains(id) {
        Spot::Kept
    } else if connections.len() > 0 && v.index.contains_key(connections[0]) {
        Spot::Beside(v.index[connections[0]])
    } else {
        Spot::Free
    }
}

/// The renderer with a drone: one that is drawn is drawn anew with its lines, another one
/// is added, and the hosts make room for it.
pub open spec fn drone_drawn(
    v: RendererView,
    id: NodeId,
    pdr: u32,
    connections: Seq<NodeId>,
) -> RendererView {
    let n = connections.len() as int;
    if v.index.contains_key(id) {
        let at = v.index[id];
        RendererView {
            nodes: v.nodes.update(at as int, Node { pdr, ..v.nodes[at as int] }),
            edges: without_lines(v.edges, at) + lines_to(v, at, connections, n),
            ..v
        }
    } else {
        let at = v.nodes.len() as usize;
        let node = Node {
            manual_position: true,
            ..Node::a_drone(id as usize, first_spot(v, id, connections), pdr)
        };
        let w = placed(v, node);
        hosts_seated(
            RendererView {
                manual: with_neighbour(v.manual, id),
                edges: v.edges + lines_to(w, at, connections, n),
                ..w
            },
        )
    }
}

/// A node as the controller sees it.
pub open spec fn refreshed(k: ControllerView, n: Node) -> Node {
    match k.state_of((n.id % 256) as NodeId) {
        Some(s) => Node { active: s.active, spot: Spot::Origin, ..n },
        None => n,
    }
}

/// A node that the controller knows to be inactive.
pub open spec fn is_down(k: ControllerView, id: NodeId) -> bool {
    match k.state_of(id) {
        Some(s) => !s.active,
        None => false,
    }
}

/// The ids of the first `n` nodes that are inactive.
pub open spec fn down_ids(k: ControllerView, nodes: Seq<Node>, n: int) -> Seq<NodeId>
    decreases n,
{
    if n <= 0 {
        Seq::empty()
    } else {
        let id = (nodes[n - 1].id % 256) as NodeId;
        let before = down_ids(k, nodes, n - 1);
        if is_down(k, id) {
            before.push(id)
        } else {
            before
        }
    }
}

/// The lines without those of the first `n` nodes of a list.
pub open spec fn lines_struck(v: RendererView, ids: Seq<NodeId>, n: int) -> Seq<(usize, usize)>
    decreases n,
{
    if n <= 0 {
        v.edges
    } else {
        let before = lines_struck(v, ids, n - 1);
        if v.index.contains_key(ids[n - 1]) {
            without_lines(before, v.index[ids[n - 1]])
        } else {
            before
        }
    }
}

/// The configuration without the connections of the first `n` nodes of a list.
pub open spec fn configs_struck(v: RendererView, c: ConfigView, ids: Seq<NodeId>, n: int) -> ConfigView
    decreases n,
{
    if n <= 0 {
        c
    } else {
        let before = configs_struck(v, c, ids, n - 1);
        if v.index.contains_key(ids[n - 1]) {
            v.config_struck(before, ids[n - 1])
        } else {
            before
        }
    }
}

/// The lines whose ends are not inactive.
pub open spec fn live_lines(
    k: ControllerView,
    nodes: Seq<Node>,
    edges: Seq<(usize, usize)>,
) -> Seq<(usize, usize)> {
    edges.filter(
        |e: (usize, usize)|
            !is_down(k, (nodes[e.0 as int].id % 256) as NodeId) && !is_down(
                k,
                (nodes[e.1 as int].id % 256) as NodeId,
            ),
    )
}

/// The renderer with the nodes as the controller sees them.
pub open spec fn with_states(v: RendererView, k: ControllerView) -> RendererView {
    RendererView { nodes: v.nodes.map_values(|n: Node| refreshed(k, n)), ..v }
}

/// The controller after the connections of inactive nodes were removed.
pub open spec fn synced_controller(v: RendererView, k: ControllerView) -> ControllerView {
    let down = down_ids(k, v.nodes, v.nodes.len() as int);
    ControllerView {
        config: configs_struck(with_states(v, k), k.config, down, down.len() as int),
        ..k
    }
}

/// The renderer after the lines of inactive nodes were removed.
pub open spec fn synced(v: RendererView, k: ControllerView) -> RendererView {
    let u = with_states(v, k);
    let down = down_ids(k, v.nodes, v.nodes.len() as int);
    RendererView {
        edges: live_lines(
            synced_controller(v, k),
            u.nodes,
            lines_struck(u, down, down.len() as int),
        ),
        ..u
    }
}

/// The connections that a node of a role is listed with.
pub open spec fn listed_links(c: ConfigView, t: NodeType, id: NodeId) -> Seq<NodeId> {
    let s = match t {
        NodeType::Drone => c.drone,
        NodeType::Client => c.client,
        NodeType::Server => c.server,
    };
    if entry_ids(s).contains(id) {
        s[first_index(s, id)].links
    } else {
        Seq::empty()
    }
}

/// The connections of a node in words.
pub open spec fn links_words(links: Seq<NodeId>) -> Seq<char> {
    "Connected to: "@ + (if links.len() == 0 {
        "[(none)]"@
    } else {
        ids_text(links)
    })
}

/// A node in words.
pub open spec fn node_words(n: Node) -> Seq<char> {
    (match n.node_type {
        NodeType::Drone => "Drone "@,
        NodeType::Client => "Client "@,
        NodeType::Server => "Server "@,
    }) + decimal(n.id as nat)
}

/// Takes a connection out.
pub open spec fn removing(id: NodeId) -> spec_fn(Seq<NodeId>) -> Seq<NodeId> {
    |links: Seq<NodeId>| without_id(links, id)
}

/// The configuration in which two drones are not connected.
pub open spec fn drones_parted(c: ConfigView, a: NodeId, b: NodeId) -> ConfigView {
    let d = ConfigView { drone: relinked(c.drone, a, removing(b)), ..c };
    ConfigView { drone: relinked(d.drone, b, removing(a)), ..d }
}

fn was_node(nodes: &Vec<Node>, id: NodeId) -> (r: bool)
    ensures
        r == was_drawn(nodes@, id),
{
    let mut i: usize = 0;
    while i < nodes.len()
        invariant
            i <= nodes@.len(),
            forall|j: int| 0 <= j < i ==> (#[trigger] nodes@[j]).id % 256 != id,
        decreases nodes@.len() - i,
    {
        if node_id(nodes[i].id) == id {
            assert(nodes@[i as int].id % 256 == id);
            return true;
        }
        i = i + 1;
    }
    false
}

/// Removes the lines of a node.
fn strike_lines(edges: &Vec<(usize, usize)>, at: usize) -> (r: Vec<(usize, usize)>)
    ensures
        r@ == without_lines(edges@, at),
{
    let ghost keep = clear_of(at);
    let mut r: Vec<(usize, usize)> = Vec::new();
    let mut i: usize = 0;
    assert(edges@.subrange(0, 0).filter(keep) =~= Seq::empty()) by {
        reveal(Seq::filter);
    }
    while i < edges.len()
        invariant
            i <= edges@.len(),
            keep == clear_of(at),
            r@ == edges@.subrange(0, i as int).filter(keep),
        decreases edges@.len() - i,
    {
        proof {
            reveal(Seq::filter);
            let t = edges@.subrange(0, i + 1);
            assert(t.drop_last() =~= edges@.subrange(0, i as int));
            assert(t.last() == edges@[i as int]);
        }
        let e: (usize, usize) = edges[i];
        if e.0 != at && e.1 != at {
            r.push(e);
        }
        i = i + 1;
    }
    assert(edges@.subrange(0, i as int) =~= edges@);
    r
}

fn has_line(edges: &Vec<(usize, usize)>, a: usize, b: usize) -> (r: bool)
    ensures
        r == edges@.contains((a, b)),
{
    let mut i: usize = 0;
    while i < edges.len()
        invariant
            i <= edges@.len(),
            forall|j: int| 0 <= j < i ==> edges@[j] != (a, b),
        decreases edges@.len() - i,
    {
        let e: (usize, usize) = edges[i];
        if e.0 == a && e.1 == b {
            assert(edges@[i as int] == (a, b));
            return true;
        }
        i = i + 1;
    }
    false
}

fn add_manual(v: &mut Vec<NodeId>, ids: &Vec<NodeId>)
    ensures
        final(v)@ == with_all(old(v)@, ids@),
{
    let ghost a = v@;
    let mut i: usize = 0;
    assert(ids@.subrange(0, 0) =~= Seq::empty());
    while i < ids.len()
        invariant
            i <= ids@.len(),
            v@ == with_all(a, ids@.subrange(0, i as int)),
        decreases ids@.len() - i,
    {
        proof {
            let t = ids@.subrange(0, i + 1);
            assert(t.drop_last() =~= ids@.subrange(0, i as int));
            assert(t.last() == ids@[i as int]);
        }
        if !has_id(v, ids[i]) {
            v.push(ids[i]);
        }
        i = i + 1;
    }
    assert(ids@.subrange(0, i as int) =~= ids@);
}

fn is_client_taken(config: &ParsedConfig, id: NodeId) -> (r: bool)
    ensures
        r == client_taken(config@, id),
{
    match find_entry(&config.client, id) {
        Some(k) => {
            assert(config@.client[k as int] == config.client@[k as int]@);
            config.client[k].connected_drone_ids.len() >= 2
        },
        None => false,
    }
}

fn connect_as(config: &mut ParsedConfig, ta: NodeType, tb: NodeType, a: NodeId, b: NodeId)
    ensures
        final(config)@ == connected_as(old(config)@, ta, tb, a, b),
{
    match (ta, tb) {
        (NodeType::Drone, NodeType::Drone) => {
            config.append_drone_connection(a, b);
            config.append_drone_connection(b, a);
        },
        (NodeType::Drone, NodeType::Server) => {
            config.append_drone_connection(a, b);
            config.append_server_connection(b, a);
        },
        (NodeType::Server, NodeType::Drone) => {
            config.append_drone_connection(b, a);
            config.append_server_connection(a, b);
        },
        (NodeType::Drone, NodeType::Client) => {
            config.append_drone_connection(a, b);
            config.append_client_connection(b, a);
        },
        (NodeType::Client, NodeType::Drone) => {
            config.append_drone_connection(b, a);
            config.append_client_connection(a, b);
        },
        _ => {},
    }
}

/// Sets the drop rate and the connections of a drone.
pub fn set_drone(config: &mut ParsedConfig, id: NodeId, pdr: u32, connections: &Vec<NodeId>)
    ensures
        final(config)@ == drone_set(old(config)@, id, pdr, connections@),
{
    config.set_drone_pdr(id, pdr);
    config.set_drone_connections(id, connections);
    let ghost c = config@;
    let mut i: usize = 0;
    while i < connections.len()
        invariant
            i <= connections@.len(),
            config@ == drones_linked_to(c, connections@, id, i as int),
        decreases connections@.len() - i,
    {
        config.append_drone_connection(connections[i], id);
        i = i + 1;
    }
}

impl NetworkRenderer {
    /// Picks a place for a drone that was not drawn before.
    pub fn position_new_drone(&mut self, connections: &Vec<NodeId>) -> (r: NewSpot)
        ensures
            r@ == new_spot(old(self)@, connections@),
            final(self)@ == (RendererView { spawned: true, ..old(self)@ }),
    {
        let ghost v = self@;
        if self.last_spawned {
            assert(self@ =~= RendererView { spawned: true, ..v });
            return NewSpot::AfterLast;
        }
        let mut at: Vec<usize> = Vec::new();
        let mut i: usize = 0;
        while i < connections.len()
            invariant
                i <= connections@.len(),
                v == self@,
                at@ == drawn_at(v, connections@, i as int),
            decreases connections@.len() - i,
        {
            if let Some(k) = self.node_id_to_index.get(&connections[i]) {
                at.push(*k);
            }
            i = i + 1;
        }
        self.last_spawned = true;
        assert(self@ =~= RendererView { spawned: true, ..v });
        if at.len() == 0 {
            NewSpot::Free
        } else {
            NewSpot::Amid(at)
        }
    }

    /// Draws a network anew in the shape that it had; tells the places of new drones.
    pub fn rebuild_preserving_topology(&mut self, config: &ParsedConfig) -> (r: Vec<
        (NodeId, NewSpot),
    >)
        requires
            old(self)@.wf(),
            config@.nodes().len() <= usize::MAX,
        ensures
            final(self)@.wf(),
            rebuilt(old(self)@, final(self)@, config@),
            places(r@) == new_places(
                cleared(old(self)@),
                old(self)@.nodes,
                config@.drone,
                config@.drone.len() as int,
            ),
    {
        let ghost v = self@;
        let ghost s = config@.drone;
        let old_nodes: Vec<Node> = self.take_down();
        let ghost start = self@;
        let mut r: Vec<(NodeId, NewSpot)> = Vec::new();
        let mut i: usize = 0;
        assert(places(r@) =~= Seq::empty());
        while i < config.drone.len()
            invariant
                i <= config.drone@.len(),
                s == config@.drone,
                self@.wf(),
                self@.topology == v.topology,
                self@ == newcomers(start, old_nodes@, s, i as int),
                places(r@) == new_places(start, old_nodes@, s, i as int),
            decreases config.drone@.len() - i,
        {
            let d: &DroneConfig = &config.drone[i];
            assert(s[i as int] == config.drone@[i as int]@);
            if !was_node(&old_nodes, d.id) && d.connected_node_ids.len() > 0 {
                let ghost w = self@;
                let ghost before = r@;
                let spot: NewSpot = self.position_new_drone(&d.connected_node_ids);
                let ghost sv = spot@;
                self.place(Node::drone(d.id as usize, Spot::Kept, d.pdr));
                if !has_id(&self.manual_positions, d.id) {
                    self.manual_positions.push(d.id);
                }
                assert(self@ =~= newcomer(w, s[i as int]));
                r.push((d.id, spot));
                assert(places(r@) =~= places(before).push((d.id, sv)));
            }
            i = i + 1;
        }
        match self.current_topology {
            Some(t) => self.build_topology_layout(t, config, &old_nodes),
            None => self.build_grid(config, &old_nodes),
        }
        r
    }

    /// Adds a node with the next id; a drone is added to the configuration too.
    pub fn add_new_node(&mut self, node_type: NodeType, config: &mut ParsedConfig) -> (r: usize)
        requires
            old(self)@.wf(),
            max_id(old(self)@.nodes) < usize::MAX,
        ensures
            r == max_id(old(self)@.nodes) + 1,
            final(self)@.wf(),
            final(self)@ == placed(old(self)@, node_of(node_type, r)),
            final(config)@ == (if node_type == NodeType::Drone {
                old(config)@.drone_added((r % 256) as NodeId)
            } else {
                old(config)@
            }),
    {
        let mut max: usize = 0;
        let mut i: usize = 0;
        while i < self.nodes.len()
            invariant
                i <= self.nodes@.len(),
                max == max_id(self.nodes@.subrange(0, i as int)),
            decreases self.nodes@.len() - i,
        {
            proof {
                let t = self.nodes@.subrange(0, i + 1);
                assert(t.drop_last() =~= self.nodes@.subrange(0, i as int));
                assert(t.last() == self.nodes@[i as int]);
            }
            if self.nodes[i].id > max {
                max = self.nodes[i].id;
            }
            i = i + 1;
        }
        assert(self.nodes@.subrange(0, i as int) =~= self.nodes@);
        let id: usize = max + 1;
        let n: Node = match node_type {
            NodeType::Drone => Node::drone(id, Spot::Free, HALF_LOST),
            NodeType::Server => Node::server(id, Spot::Free),
            NodeType::Client => Node::client(id, Spot::Free),
        };
        self.place(n);
        if node_type == NodeType::Drone {
            config.add_drone(node_id(id));
        }
        id
    }

    /// Connects two nodes, where that is possible.
    pub fn add_connection(
        &mut self,
        source_id: NodeId,
        target_id: NodeId,
        config: &mut ParsedConfig,
    ) -> (r: bool)
        requires
            old(self)@.wf(),
        ensures
            final(self)@.wf(),
            r == old(self)@.connectable(old(config)@, source_id, target_id),
            if r {
                &&& final(config)@ == old(self)@.config_connected(
                    old(config)@,
                    source_id,
                    target_id,
                )
                &&& final(self)@ == (RendererView {
                    edges: old(self)@.edges.push(
                        (old(self)@.index[source_id], old(self)@.index[target_id]),
                    ),
                    ..old(self)@
                })
            } else {
                final(config)@ == old(config)@ && final(self)@ == old(self)@
            },
    {
        let i: usize = match self.node_id_to_index.get(&source_id) {
            Some(i) => *i,
            None => {
                return false;
            },
        };
        let j: usize = match self.node_id_to_index.get(&target_id) {
            Some(j) => *j,
            None => {
                return false;
            },
        };
        assert(i < self.nodes@.len() && j < self.nodes@.len()) by {
            assert(self@.index.contains_key(source_id));
            assert(self@.index.contains_key(target_id));
        }
        if has_line(&self.edges, i, j) || has_line(&self.edges, j, i) {
            return false;
        }
        let ta: NodeType = self.nodes[i].node_type;
        let tb: NodeType = self.nodes[j].node_type;
        if ta == NodeType::Client && tb == NodeType::Drone && is_client_taken(config, source_id) {
            return false;
        }
        if ta == NodeType::Drone && tb == NodeType::Client && is_client_taken(config, target_id) {
            return false;
        }
        connect_as(config, ta, tb, source_id, target_id);
        self.edges.push((i, j));
        assert(self@ =~= RendererView {
            edges: old(self)@.edges.push((i, j)),
            ..old(self)@
        });
        true
    }

    /// Removes the lines of a node that has crashed, and its connections. Nothing happens
    /// where the node is not drawn.
    pub fn remove_edges_of_crashed_node(&mut self, node_id: NodeId, config: &mut ParsedConfig)
        requires
            old(self)@.wf(),
        ensures
            final(self)@.wf(),
            old(self)@.index.contains_key(node_id) ==> final(self)@ == (RendererView {
                edges: without_lines(old(self)@.edges, old(self)@.index[node_id]),
                ..old(self)@
            }) && final(config)@ == old(self)@.config_struck(old(config)@, node_id)
                && unconnected(final(config)@, node_id),
            !old(self)@.index.contains_key(node_id) ==> final(self)@ == old(self)@,
            !old(self)@.index.contains_key(node_id) ==> final(config)@ == old(config)@,
    {
        let found: Option<usize> = match self.node_id_to_index.get(&node_id) {
            Some(at) => Some(*at),
            None => None,
        };
        if let Some(idx) = found {
            proof {
                lemma_lines_left(self@.edges, clear_of(idx), self@.nodes.len());
            }
            self.edges = strike_lines(&self.edges, idx);
            match self.nodes[idx].node_type {
                NodeType::Drone => {},
                NodeType::Client => config.remove_client_connections(node_id),
                NodeType::Server => config.remove_server_connections(node_id),
            }
            let ghost middle = config@;
            config.remove_drone_connections(node_id);
            proof {
                assert(config@ =~= old(self)@.config_struck(old(config)@, node_id));
                lemma_struck_unconnected(middle, node_id);
            }
            assert(self@ =~= RendererView {
                edges: without_lines(old(self)@.edges, idx),
                ..old(self)@
            });
        }
    }

    /// The ids of the nodes of a role.
    fn ids_of(&self, t: NodeType, active: bool) -> (r: Vec<NodeId>)
        ensures
            r@ == drawn_ids(self@.nodes, t, active),
    {
        let mut r: Vec<NodeId> = Vec::new();
        let mut i: usize = 0;
        assert(self.nodes@.subrange(0, 0) =~= Seq::empty());
        while i < self.nodes.len()
            invariant
                i <= self.nodes@.len(),
                r@ == drawn_ids(self.nodes@.subrange(0, i as int), t, active),
            decreases self.nodes@.len() - i,
        {
            proof {
                let s = self.nodes@.subrange(0, i + 1);
                assert(s.drop_last() =~= self.nodes@.subrange(0, i as int));
                assert(s.last() == self.nodes@[i as int]);
            }
            if self.nodes[i].node_type == t && (!active || self.nodes[i].active) {
                r.push(node_id(self.nodes[i].id));
            }
            i = i + 1;
        }
        assert(self.nodes@.subrange(0, i as int) =~= self.nodes@);
        r
    }

    /// The active drones.
    pub fn get_drone_ids(&self) -> (r: Vec<NodeId>)
        ensures
            r@ == drawn_ids(self@.nodes, NodeType::Drone, true),
    {
        self.ids_of(NodeType::Drone, true)
    }

    /// The clients.
    pub fn get_client_ids(&self) -> (r: Vec<NodeId>)
        ensures
            r@ == drawn_ids(self@.nodes, NodeType::Client, false),
    {
        self.ids_of(NodeType::Client, false)
    }

    /// The servers.
    pub fn get_server_ids(&self) -> (r: Vec<NodeId>)
        ensures
            r@ == drawn_ids(self@.nodes, NodeType::Server, false),
    {
        self.ids_of(NodeType::Server, false)
    }

    /// Puts the hosts above and below the drones.
    pub fn reposition_hosts(&mut self)
        requires
            old(self)@.wf(),
        ensures
            final(self)@.wf(),
            final(self)@ == hosts_seated(old(self)@),
    {
        let ghost v = self@;
        let mut found: bool = false;
        let mut j: usize = 0;
        while j < self.nodes.len()
            invariant
                j <= self.nodes@.len(),
                self@ == v,
                found <==> exists|k: int|
                    0 <= k < j && (#[trigger] v.nodes[k]).node_type == NodeType::Drone,
            decreases self.nodes@.len() - j,
        {
            if self.nodes[j].node_type == NodeType::Drone {
                assert(v.nodes[j as int].node_type == NodeType::Drone);
                found = true;
            }
            j = j + 1;
        }
        assert(found == any_drone(v.nodes));
        if !found {
            return;
        }
        let servers: Vec<NodeId> = self.get_server_ids();
        let clients: Vec<NodeId> = self.get_client_ids();
        let s_count: usize = servers.len();
        let c_count: usize = clients.len();
        let size: usize = self.nodes.len();
        let mut nodes: Vec<Node> = Vec::new();
        let mut s: usize = 0;
        let mut c: usize = 0;
        let mut i: usize = 0;
        assert(v.nodes.subrange(0, 0) =~= Seq::empty());
        while i < size
            invariant
                i <= size == v.nodes.len(),
                self@ == v,
                s <= i,
                c <= i,
                s == drawn_ids(v.nodes.subrange(0, i as int), NodeType::Server, false).len(),
                c == drawn_ids(v.nodes.subrange(0, i as int), NodeType::Client, false).len(),
                s_count == drawn_ids(v.nodes, NodeType::Server, false).len(),
                c_count == drawn_ids(v.nodes, NodeType::Client, false).len(),
                nodes@.len() == i,
                forall|k: int| 0 <= k < i ==> #[trigger] nodes@[k] == host_seated(v.nodes, k),
            decreases size - i,
        {
            proof {
                let t = v.nodes.subrange(0, i + 1);
                assert(t.drop_last() =~= v.nodes.subrange(0, i as int));
                assert(t.last() == v.nodes[i as int]);
            }
            let n: Node = self.nodes[i];
            match n.node_type {
                NodeType::Server => {
                    s = s + 1;
                    nodes.push(Node { spot: Spot::AboveOf(s, s_count), ..n });
                },
                NodeType::Client => {
                    c = c + 1;
                    nodes.push(Node { spot: Spot::BelowOf(c, c_count), ..n });
                },
                NodeType::Drone => {
                    nodes.push(n);
                },
            }
            assert(nodes@[i as int] == host_seated(v.nodes, i as int));
            i = i + 1;
        }
        self.nodes = nodes;
        assert(self.nodes@ =~= Seq::new(v.nodes.len(), |k: int| host_seated(v.nodes, k)));
        add_manual(&mut self.manual_positions, &servers);
        add_manual(&mut self.manual_positions, &clients);
        assert(self@ =~= hosts_seated(v));
    }

    /// Adds lines from a node to some others, as far as they are drawn.
    fn draw_lines_to(&mut self, at: usize, ids: &Vec<NodeId>)
        requires
            old(self)@.wf(),
            at < old(self)@.nodes.len(),
        ensures
            final(self)@.wf(),
            final(self)@ == (RendererView {
                edges: old(self)@.edges + lines_to(old(self)@, at, ids@, ids@.len() as int),
                ..old(self)@
            }),
    {
        let ghost v = self@;
        let mut i: usize = 0;
        assert(self@ =~= RendererView { edges: v.edges + lines_to(v, at, ids@, 0), ..v });
        while i < ids.len()
            invariant
                i <= ids@.len(),
                v.wf(),
                self@.wf(),
                at < v.nodes.len(),
                self@ == (RendererView {
                    edges: v.edges + lines_to(v, at, ids@, i as int),
                    ..v
                }),
            decreases ids@.len() - i,
        {
            if let Some(k) = self.node_id_to_index.get(&ids[i]) {
                let k: usize = *k;
                self.edges.push((at, k));
            }
            i = i + 1;
            assert(self@ =~= RendererView {
                edges: v.edges + lines_to(v, at, ids@, i as int),
                ..v
            });
        }
    }

    /// Draws a drone with its connections.
    pub fn add_drone(
        &mut self,
        id: NodeId,
        pdr: u32,
        connections: &Vec<NodeId>,
        config: &mut ParsedConfig,
    )
        requires
            old(self)@.wf(),
        ensures
            final(self)@.wf(),
            final(self)@ == drone_drawn(old(self)@, id, pdr, connections@),
            final(config)@ == (if old(self)@.index.contains_key(id) {
                drone_set(old(config)@, id, pdr, connections@)
            } else {
                drone_set(old(config)@.drone_added(id), id, pdr, connections@)
            }),
    {
        let ghost v = self@;
        if let Some(at) = self.node_id_to_index.get(&id) {
            let at: usize = *at;
            assert(v.index.contains_key(id));
            let n: Node = self.nodes[at];
            self.nodes.set(at, Node { pdr, ..n });
            proof {
                lemma_lines_left(self@.edges, clear_of(at), self@.nodes.len());
            }
            self.edges = strike_lines(&self.edges, at);
            let ghost w = self@;
            self.draw_lines_to(at, connections);
            proof {
                lemma_lines_to(v, w, at, connections@, connections@.len() as int);
                assert(self@ =~= drone_drawn(v, id, pdr, connections@));
            }
            set_drone(config, id, pdr, connections);
            return;
        }
        let spot: Spot = if has_id(&self.manual_positions, id) {
            Spot::Kept
        } else if connections.len() > 0 {
            match self.node_id_to_index.get(&connections[0]) {
                Some(k) => Spot::Beside(*k),
                None => Spot::Free,
            }
        } else {
            Spot::Free
        };
        assert(spot == first_spot(v, id, connections@));
        let at: usize = self.nodes.len();
        let node: Node = Node::drone(id as usize, spot, pdr);
        self.place(Node { manual_position: true, ..node });
        let ghost w = self@;
        if !has_id(&self.manual_positions, id) {
            self.manual_positions.push(id);
        }
        let ghost u = self@;
        config.add_drone(id);
        set_drone(config, id, pdr, connections);
        self.draw_lines_to(at, connections);
        proof {
            lemma_lines_to(w, u, at, connections@, connections@.len() as int);
            assert(self@ =~= RendererView {
                manual: with_neighbour(v.manual, id),
                edges: v.edges + lines_to(w, at, connections@, connections@.len() as int),
                ..w
            });
        }
        self.reposition_hosts();
    }

    /// Marks a drone as crashed, and removes its lines and connections.
    pub fn node_crashed(&mut self, idx: usize, config: &mut ParsedConfig)
        requires
            old(self)@.wf(),
            idx < old(self)@.nodes.len(),
        ensures
            final(self)@.wf(),
            final(self)@ == hosts_seated(
                RendererView {
                    nodes: old(self)@.nodes.update(
                        idx as int,
                        Node { active: false, ..old(self)@.nodes[idx as int] },
                    ),
                    edges: without_lines(old(self)@.edges, idx),
                    ..old(self)@
                },
            ),
            final(config)@ == old(config)@.struck(
                (old(self)@.nodes[idx as int].id % 256) as NodeId,
            ),
    {
        let n: Node = self.nodes[idx];
        self.nodes.set(idx, Node { active: false, ..n });
        proof {
            lemma_lines_left(self@.edges, clear_of(idx), self@.nodes.len());
        }
        self.edges = strike_lines(&self.edges, idx);
        config.remove_drone_connections(node_id(n.id));
        assert(self@ =~= RendererView {
            nodes: old(self)@.nodes.update(
                idx as int,
                Node { active: false, ..old(self)@.nodes[idx as int] },
            ),
            edges: without_lines(old(self)@.edges, idx),
            ..old(self)@
        });
        self.reposition_hosts();
    }

    /// Parts two drones in the configuration, and draws the network anew.
    pub fn sender_removed(&mut self, a: NodeId, b: NodeId, config: &mut ParsedConfig)
        requires
            old(self)@.wf(),
            old(config)@.nodes().len() <= usize::MAX,
        ensures
            final(self)@.wf(),
            final(config)@ == drones_parted(old(config)@, a, b),
            built(old(self)@, final(self)@, final(config)@),
    {
        let ghost c = config@;
        part(config, a, b);
        let ghost d = config@;
        part(config, b, a);
        proof {
            lemma_parting_keeps_length(c.drone, a, b);
            lemma_parting_keeps_length(d.drone, b, a);
            assert(config@ =~= drones_parted(c, a, b));
        }
        self.build_from_config(config);
    }

    /// The nodes that a node can be connected to, with what they are called.
    pub fn peer_options(&self, id: NodeId) -> (r: Vec<(NodeId, String)>)
        ensures
            r@.map_values(|p: (NodeId, String)| (p.0, p.1@)) == peers_named(
                self@.nodes,
                id,
                self@.nodes.len() as int,
            ),
    {
        let mut r: Vec<(NodeId, String)> = Vec::new();
        let ghost f = |p: (NodeId, String)| (p.0, p.1@);
        let mut i: usize = 0;
        assert(r@.map_values(f) =~= Seq::empty());
        while i < self.nodes.len()
            invariant
                i <= self.nodes@.len(),
                f == (|p: (NodeId, String)| (p.0, p.1@)),
                r@.map_values(f) == peers_named(self.nodes@, id, i as int),
            decreases self.nodes@.len() - i,
        {
            let n: Node = self.nodes[i];
            if n.active && node_id(n.id) != id {
                let ghost before = r@;
                let label: String = node_label(&n);
                let ghost words = label@;
                r.push((node_id(n.id), label));
                assert(r@.map_values(f) =~= before.map_values(f).push(
                    ((n.id % 256) as NodeId, words),
                ));
            }
            i = i + 1;
        }
        r
    }
}

/// The active ones of the first `n` nodes but a node itself, with what they are called.
pub open spec fn peers_named(nodes: Seq<Node>, id: NodeId, n: int) -> Seq<(NodeId, Seq<char>)>
    decreases n,
{
    if n <= 0 {
        Seq::empty()
    } else {
        let before = peers_named(nodes, id, n - 1);
        let p = nodes[n - 1];
        if p.active && p.id % 256 != id {
            before.push(((p.id % 256) as NodeId, node_words(p)))
        } else {
            before
        }
    }
}

/// What a node is called.
pub fn node_label(n: &Node) -> (r: String)
    ensures
        r@ == node_words(*n),
{
    let number: String = crate::text::decimal_text(n.id as u64);
    match n.node_type {
        NodeType::Drone => join2("Drone ", number.as_str()),
        NodeType::Client => join2("Client ", number.as_str()),
        NodeType::Server => join2("Server ", number.as_str()),
    }
}

/// Takes a connection from a drone.
fn part(config: &mut ParsedConfig, a: NodeId, b: NodeId)
    ensures
        final(config)@ == (ConfigView {
            drone: relinked(old(config)@.drone, a, removing(b)),
            ..old(config)@
        }),
{
    let ghost c = config@;
    if let Some(k) = find_entry(&config.drone, a) {
        assert(c.drone[k as int] == config.drone@[k as int]@);
        let links: Vec<NodeId> = remove_id(&config.drone[k].connected_node_ids, b);
        assert(links@ == removing(b)(c.drone[k as int].links));
        config.set_drone_connections(a, &links);
        assert(config@.drone =~= relinked(c.drone, a, removing(b)));
    }
}

proof fn lemma_parting_keeps_length(s: Seq<EntryView>, a: NodeId, b: NodeId)
    ensures
        relinked(s, a, removing(b)).len() == s.len(),
{
    if entry_ids(s).contains(a) {
        crate::config::lemma_first_index(s, a);
    }
}

/// Lines go by the index alone.
proof fn lemma_lines_to(v: RendererView, w: RendererView, at: usize, ids: Seq<NodeId>, n: int)
    requires
        v.index == w.index,
    ensures
        lines_to(v, at, ids, n) == lines_to(w, at, ids, n),
    decreases n,
{
    if n > 0 {
        lemma_lines_to(v, w, at, ids, n - 1);
    }
}

/// The connections that a node of a role is listed with.
fn links_listed(config: &ParsedConfig, node_type: NodeType, id: NodeId) -> (r: Vec<NodeId>)
    ensures
        r@ == listed_links(config@, node_type, id),
{
    match node_type {
        NodeType::Drone => match find_entry(&config.drone, id) {
            Some(k) => {
                assert(config@.drone[k as int] == config.drone@[k as int]@);
                copy_ids(&config.drone[k].connected_node_ids)
            },
            None => Vec::new(),
        },
        NodeType::Client => match find_entry(&config.client, id) {
            Some(k) => {
                assert(config@.client[k as int] == config.client@[k as int]@);
                copy_ids(&config.client[k].connected_drone_ids)
            },
            None => Vec::new(),
        },
        NodeType::Server => match find_entry(&config.server, id) {
            Some(k) => {
                assert(config@.server[k as int] == config.server@[k as int]@);
                copy_ids(&config.server[k].connected_drone_ids)
            },
            None => Vec::new(),
        },
    }
}

/// The connections of a node in words.
pub fn neighbours_text(config: &ParsedConfig, node_type: NodeType, id: NodeId) -> (r: String)
    ensures
        r@ == links_words(listed_links(config@, node_type, id)),
{
    let links: Vec<NodeId> = links_listed(config, node_type, id);
    if links.len() == 0 {
        join2("Connected to: ", "[(none)]")
    } else {
        join2("Connected to: ", id_list_text(&links).as_str())
    }
}

fn node_down(ctrl: &SimulationController, id: NodeId) -> (r: bool)
    requires
        ctrl.wf(),
    ensures
        r == is_down(ctrl@, id),
{
    match ctrl.get_node_state(id) {
        Some(s) => !s.active,
        None => false,
    }
}

impl NetworkRenderer {
    /// Removes the lines whose ends are inactive.
    pub fn prune_inactive_edges(&mut self, ctrl: &SimulationController)
        requires
            old(self)@.wf(),
            ctrl.wf(),
        ensures
            final(self)@.wf(),
            final(self)@ == (RendererView {
                edges: live_lines(ctrl@, old(self)@.nodes, old(self)@.edges),
                ..old(self)@
            }),
    {
        let ghost v = self@;
        let ghost keep = |e: (usize, usize)|
            !is_down(ctrl@, (v.nodes[e.0 as int].id % 256) as NodeId) && !is_down(
                ctrl@,
                (v.nodes[e.1 as int].id % 256) as NodeId,
            );
        let mut r: Vec<(usize, usize)> = Vec::new();
        let mut i: usize = 0;
        assert(v.edges.subrange(0, 0).filter(keep) =~= Seq::empty()) by {
            reveal(Seq::filter);
        }
        while i < self.edges.len()
            invariant
                i <= self.edges@.len(),
                self@ == v,
                ctrl.wf(),
                v.wf(),
                keep == (|e: (usize, usize)|
                    !is_down(ctrl@, (v.nodes[e.0 as int].id % 256) as NodeId) && !is_down(
                        ctrl@,
                        (v.nodes[e.1 as int].id % 256) as NodeId,
                    )),
                r@ == v.edges.subrange(0, i as int).filter(keep),
            decreases self.edges@.len() - i,
        {
            proof {
                reveal(Seq::filter);
                let t = v.edges.subrange(0, i + 1);
                assert(t.drop_last() =~= v.edges.subrange(0, i as int));
                assert(t.last() == v.edges[i as int]);
            }
            let e: (usize, usize) = self.edges[i];
            assert(v.edges[i as int] == e);
            let a: NodeId = node_id(self.nodes[e.0].id);
            let b: NodeId = node_id(self.nodes[e.1].id);
            if !node_down(ctrl, a) && !node_down(ctrl, b) {
                r.push(e);
            }
            i = i + 1;
        }
        assert(v.edges.subrange(0, i as int) =~= v.edges);
        proof {
            lemma_lines_left(v.edges, keep, v.nodes.len());
        }
        self.edges = r;
        assert(self@ =~= RendererView { edges: live_lines(ctrl@, v.nodes, v.edges), ..v });
    }

    /// Takes over which nodes are active, and removes the lines and connections of those
    /// that are not.
    pub fn sync_with_simulation_controller(&mut self, ctrl: &mut SimulationController)
        requires
            old(self)@.wf(),
            old(ctrl).wf(),
        ensures
            final(self)@.wf(),
            final(ctrl).wf(),
            final(ctrl)@ == synced_controller(old(self)@, old(ctrl)@),
            final(self)@ == synced(old(self)@, old(ctrl)@),
    {
        let ghost v = self@;
        let ghost k = ctrl@;
        let ghost all = v.nodes.map_values(|n: Node| refreshed(k, n));
        let mut down: Vec<NodeId> = Vec::new();
        let mut nodes: Vec<Node> = Vec::new();
        let mut i: usize = 0;
        while i < self.nodes.len()
            invariant
                i <= self.nodes@.len(),
                self@ == v,
                ctrl.wf(),
                ctrl@ == k,
                all == v.nodes.map_values(|n: Node| refreshed(k, n)),
                nodes@ == all.subrange(0, i as int),
                down@ == down_ids(k, v.nodes, i as int),
            decreases self.nodes@.len() - i,
        {
            let n: Node = self.nodes[i];
            let id: NodeId = node_id(n.id);
            let state: Option<NodeState> = ctrl.get_node_state(id);
            match state {
                Some(s) => {
                    nodes.push(Node { active: s.active, spot: Spot::Origin, ..n });
                    if !s.active {
                        down.push(id);
                    }
                },
                None => {
                    nodes.push(n);
                },
            }
            i = i + 1;
            assert(nodes@ =~= all.subrange(0, i as int));
        }
        assert(nodes@ =~= all);
        self.nodes = nodes;
        let ghost u = self@;
        assert(u =~= with_states(v, k));
        let mut j: usize = 0;
        assert(ctrl@ =~= ControllerView { config: k.config, ..k });
        while j < down.len()
            invariant
                j <= down@.len(),
                u.wf(),
                ctrl.wf(),
                ctrl@ == (ControllerView {
                    config: configs_struck(u, k.config, down@, j as int),
                    ..k
                }),
                self@.wf(),
                self@ == (RendererView { edges: lines_struck(u, down@, j as int), ..u }),
            decreases down@.len() - j,
        {
            self.remove_edges_of_crashed_node(down[j], &mut ctrl.config);
            j = j + 1;
            assert(self@ =~= RendererView { edges: lines_struck(u, down@, j as int), ..u });
            assert(ctrl@ =~= ControllerView {
                config: configs_struck(u, k.config, down@, j as int),
                ..k
            });
        }
        self.prune_inactive_edges(ctrl);
    }
}

}
