//! The drawn network: which nodes stand where, and which of them are joined by lines.
use crate::config::{entries, ConfigView, DroneConfig, EntryView, Linked, ParsedConfig};
use crate::packet::{has_id, NodeId, NodeType};
use crate::topology::{shape_of, Topology};
use std::collections::HashMap;
use vstd::prelude::*;

verus! {

broadcast use vstd::std_specs::hash::group_hash_axioms;

/// Where a node stands.
#[derive(Clone, Copy, PartialEq, Eq, Structural, Debug)]
pub enum Spot {
    /// A seat on a ring of ten.
    Ring(usize),
    /// A seat in two rows of five.
    Chain(usize),
    /// A seat on the wings of a butterfly.
    Wing(usize),
    /// A seat on a level of a tree, told by the width of the level.
    Level(usize, usize),
    /// A seat in a sub-net.
    SubNet(usize),
    /// A column and a row of a grid, with the number of columns.
    Cell(usize, usize, usize),
    /// A seat below all drones.
    Below(usize),
    /// A seat above all drones.
    Above(usize),
    /// A seat below all drones, spread evenly among some.
    BelowOf(usize, usize),
    /// A seat above all drones, spread evenly among some.
    AboveOf(usize, usize),
    /// A seat in a preset network.
    Preset(usize),
    /// Where the node was put before.
    Kept,
    /// The next free place.
    Free,
    /// Beside another node, in the corner that is nearest to it.
    Beside(usize),
    /// The origin.
    Origin,
}

/// A node as it is drawn; the drop rate is kept by the bits of its floating-point
/// number.
#[derive(Clone, Copy, PartialEq, Eq, Structural, Debug)]
pub struct Node {
    pub id: usize,
    pub node_type: NodeType,
    pub pdr: u32,
    pub active: bool,
    pub spot: Spot,
    pub manual_position: bool,
}

/// The bits of a drop rate of one.
pub const ALL_LOST: u32 = 0x3f80_0000;

/// The bits of a drop rate of one half.
pub const HALF_LOST: u32 = 0x3f00_0000;

impl Node {
    /// An active drone.
    pub open spec fn a_drone(id: usize, spot: Spot, pdr: u32) -> Node {
        Node { id, node_type: NodeType::Drone, pdr, active: true, spot, manual_position: false }
    }

    /// An active server.
    pub open spec fn a_server(id: usize, spot: Spot) -> Node {
        Node {
            id,
            node_type: NodeType::Server,
            pdr: ALL_LOST,
            active: true,
            spot,
            manual_position: false,
        }
    }

    /// An active client.
    pub open spec fn a_client(id: usize, spot: Spot) -> Node {
        Node {
            id,
            node_type: NodeType::Client,
            pdr: ALL_LOST,
            active: true,
            spot,
            manual_position: false,
        }
    }

    /// An active drone.
    pub fn drone(id: usize, spot: Spot, pdr: u32) -> (r: Node)
        ensures
            r == Node::a_drone(id, spot, pdr),
    {
        Node { id, node_type: NodeType::Drone, pdr, active: true, spot, manual_position: false }
    }

    /// An active server.
    pub fn server(id: usize, spot: Spot) -> (r: Node)
        ensures
            r == Node::a_server(id, spot),
    {
        Node {
            id,
            node_type: NodeType::Server,
            pdr: ALL_LOST,
            active: true,
            spot,
            manual_position: false,
        }
    }

    /// An active client.
    pub fn client(id: usize, spot: Spot) -> (r: Node)
        ensures
            r == Node::a_client(id, spot),
    {
        Node {
            id,
            node_type: NodeType::Client,
            pdr: ALL_LOST,
            active: true,
            spot,
            manual_position: false,
        }
    }
}

#[verifier::ext_equal]
pub struct RendererView {
    pub nodes: Seq<Node>,
    pub edges: Seq<(usize, usize)>,
    pub index: Map<NodeId, usize>,
    pub topology: Option<Topology>,
    pub manual: Seq<NodeId>,
    pub spawned: bool,
}

/// The activity of a node: that of the last one with its id, and otherwise active.
pub open spec fn was_active(nodes: Seq<Node>, id: usize) -> bool
    decreases nodes.len(),
{
    if nodes.len() == 0 {
        true
    } else if nodes.last().id == id {
        nodes.last().active
    } else {
        was_active(nodes.drop_last(), id)
    }
}

/// The width of the level of a tree that drone `i` stands on.
pub open spec fn level_width(i: int) -> int {
    if i < 1 {
        1
    } else if i < 3 {
        2
    } else if i < 6 {
        3
    } else {
        4
    }
}

/// The number of drones on the levels above a level of some width.
pub open spec fn above_level(width: int) -> int {
    width * (width - 1) / 2
}

/// The place of drone `i` in a shape.
pub open spec fn shape_spot(t: Topology, i: int) -> Spot {
    match t {
        Topology::Star => Spot::Ring(i as usize),
        Topology::DoubleChain => Spot::Chain(i as usize),
        Topology::Butterfly => Spot::Wing(i as usize),
        Topology::Tree => Spot::Level(
            level_width(i) as usize,
            (i - above_level(level_width(i))) as usize,
        ),
        _ => Spot::SubNet(i as usize),
    }
}

/// The number of drones out of `n` that have a place in a shape.
pub open spec fn shape_seats(t: Topology, n: int) -> int {
    match t {
        Topology::Star => n,
        Topology::DoubleChain => n,
        _ => if n < 10 {
            n
        } else {
            10
        },
    }
}

/// A drone in a shape: it stays where it was put before, or takes its place.
pub open spec fn shape_drone(v: RendererView, old: Seq<Node>, t: Topology, d: EntryView, i: int) -> Node {
    let kept = v.manual.contains(d.id);
    Node {
        id: d.id as usize,
        node_type: NodeType::Drone,
        pdr: d.pdr,
        active: was_active(old, d.id as usize),
        spot: if kept {
            Spot::Kept
        } else {
            shape_spot(t, i)
        },
        manual_position: kept,
    }
}

/// A renderer with another node.
pub open spec fn placed(v: RendererView, n: Node) -> RendererView {
    RendererView {
        nodes: v.nodes.push(n),
        index: v.index.insert((n.id % 256) as NodeId, v.nodes.len() as usize),
        ..v
    }
}

/// A renderer with the first `n` drones in a shape.
pub open spec fn shaped(
    v: RendererView,
    old: Seq<Node>,
    t: Topology,
    drones: Seq<EntryView>,
    n: int,
) -> RendererView
    decreases n,
{
    if n <= 0 {
        v
    } else {
        let before = shaped(v, old, t, drones, n - 1);
        placed(before, shape_drone(v, old, t, drones[n - 1], n - 1))
    }
}

/// A renderer with the first `n` clients below the drones.
pub open spec fn clients_placed(v: RendererView, s: Seq<EntryView>, n: int) -> RendererView
    decreases n,
{
    if n <= 0 {
        v
    } else {
        placed(
            clients_placed(v, s, n - 1),
            Node::a_client(s[n - 1].id as usize, Spot::Below((n - 1) as usize)),
        )
    }
}

/// A renderer with the first `n` servers above the drones.
pub open spec fn servers_placed(v: RendererView, s: Seq<EntryView>, n: int) -> RendererView
    decreases n,
{
    if n <= 0 {
        v
    } else {
        placed(
            servers_placed(v, s, n - 1),
            Node::a_server(s[n - 1].id as usize, Spot::Above((n - 1) as usize)),
        )
    }
}

/// The lines from a node, as far as both ends are drawn.
pub open spec fn lines_from(index: Map<NodeId, usize>, e: EntryView, n: int) -> Seq<(usize, usize)>
    decreases n,
{
    if n <= 0 || !index.contains_key(e.id) {
        Seq::empty()
    } else {
        let l = e.links[n - 1];
        let before = lines_from(index, e, n - 1);
        if index.contains_key(l) {
            before.push((index[e.id], index[l]))
        } else {
            before
        }
    }
}

/// The lines from the first `n` nodes of a list.
pub open spec fn lines(index: Map<NodeId, usize>, s: Seq<EntryView>, n: int) -> Seq<(usize, usize)>
    decreases n,
{
    if n <= 0 {
        Seq::empty()
    } else {
        lines(index, s, n - 1) + lines_from(index, s[n - 1], s[n - 1].links.len() as int)
    }
}

/// The lines of a network.
pub open spec fn all_lines(index: Map<NodeId, usize>, c: ConfigView) -> Seq<(usize, usize)> {
    lines(index, c.drone, c.drone.len() as int) + lines(index, c.client, c.client.len() as int)
        + lines(index, c.server, c.server.len() as int)
}

/// `side` is the number of columns of a grid for `n` nodes: the least whose square is
/// not below `n`.
pub open spec fn is_side(n: int, side: int) -> bool {
    side >= 0 && side * side >= n && (side > 0 ==> (side - 1) * (side - 1) < n)
}

/// The cell of node `k` in a grid.
pub open spec fn cell(k: int, side: int) -> Spot {
    Spot::Cell((k % side) as usize, (k / side) as usize, side as usize)
}

/// Node `k` of a network in a grid.
pub open spec fn grid_node(old: Seq<Node>, c: ConfigView, k: int, side: int) -> Node {
    let e = c.nodes()[k];
    let id = e.id as usize;
    if k < c.drone.len() {
        Node {
            id,
            node_type: NodeType::Drone,
            pdr: e.pdr,
            active: was_active(old, id),
            spot: cell(k, side),
            manual_position: false,
        }
    } else if k < c.drone.len() + c.client.len() {
        Node::a_client(id, cell(k, side))
    } else {
        Node::a_server(id, cell(k, side))
    }
}

/// A renderer with the first `n` nodes of a network in a grid.
pub open spec fn gridded(
    v: RendererView,
    old: Seq<Node>,
    c: ConfigView,
    side: int,
    n: int,
) -> RendererView
    decreases n,
{
    if n <= 0 {
        v
    } else {
        placed(gridded(v, old, c, side, n - 1), grid_node(old, c, n - 1, side))
    }
}

/// Some drone is drawn.
pub open spec fn any_drone(nodes: Seq<Node>) -> bool {
    exists|i: int| 0 <= i < nodes.len() && (#[trigger] nodes[i]).node_type == NodeType::Drone
}

/// A renderer with hosts and lines, where any drone is drawn.
pub open spec fn completed(v: RendererView, c: ConfigView) -> RendererView {
    if any_drone(v.nodes) {
        let w = servers_placed(
            clients_placed(v, c.client, c.client.len() as int),
            c.server,
            c.server.len() as int,
        );
        RendererView { edges: v.edges + all_lines(w.index, c), ..w }
    } else {
        v
    }
}

/// `w` is a renderer with a network laid out in a shape; for a shape without places, the
/// nodes stand in a grid first.
pub open spec fn laid_out(
    v: RendererView,
    w: RendererView,
    old: Seq<Node>,
    t: Topology,
    c: ConfigView,
) -> bool {
    if t == Topology::Custom {
        exists|side: int| #[trigger]
            is_side(c.nodes().len() as int, side) && w == completed(
                gridded(v, old, c, side, c.nodes().len() as int),
                c,
            )
    } else {
        w == completed(shaped(v, old, t, c.drone, shape_seats(t, c.drone.len() as int)), c)
    }
}

/// `w` is a renderer with a network in a grid, without lines.
pub open spec fn in_grid(v: RendererView, w: RendererView, old: Seq<Node>, c: ConfigView) -> bool {
    exists|side: int| #[trigger]
        is_side(c.nodes().len() as int, side) && w == gridded(
            v,
            old,
            c,
            side,
            c.nodes().len() as int,
        )
}

/// A renderer without nodes and lines.
pub open spec fn cleared(v: RendererView) -> RendererView {
    RendererView { nodes: Seq::empty(), edges: Seq::empty(), index: Map::empty(), ..v }
}

/// `w` is the renderer after it was built anew: in the shape that the network has, or
/// else in the last shape, or else in a grid.
pub open spec fn built(v: RendererView, w: RendererView, c: ConfigView) -> bool {
    let empty = cleared(v);
    match shape_of(c.drone) {
        Some(t) => laid_out(RendererView { topology: Some(t), ..empty }, w, v.nodes, t, c),
        None => match v.topology {
            Some(t) => laid_out(empty, w, v.nodes, t, c),
            None => in_grid(empty, w, v.nodes, c),
        },
    }
}

/// The drawn network.
#[derive(Debug)]
pub struct NetworkRenderer {
    pub nodes: Vec<Node>,
    pub edges: Vec<(usize, usize)>,
    pub node_id_to_index: HashMap<NodeId, usize>,
    pub current_topology: Option<Topology>,
    pub manual_positions: Vec<NodeId>,
    pub last_spawned: bool,
}

impl View for NetworkRenderer {
    type V = RendererView;

    open spec fn view(&self) -> RendererView {
        RendererView {
            nodes: self.nodes@,
            edges: self.edges@,
            index: self.node_id_to_index@,
            topology: self.current_topology,
            manual: self.manual_positions@,
            spawned: self.last_spawned,
        }
    }
}

impl RendererView {
    /// Every index is that of a node, and every line joins nodes that are drawn.
    pub open spec fn wf(self) -> bool {
        &&& index_within(self.index, self.nodes.len())
        &&& lines_within(self.edges, self.nodes.len())
    }
}

/// Every index is below `n`.
pub open spec fn index_within(index: Map<NodeId, usize>, n: nat) -> bool {
    forall|id: NodeId| #[trigger] index.contains_key(id) ==> index[id] < n
}

/// Both ends of every line are below `n`.
pub open spec fn lines_within(edges: Seq<(usize, usize)>, n: nat) -> bool {
    forall|i: int| 0 <= i < edges.len() ==> (#[trigger] edges[i]).0 < n && edges[i].1 < n
}

/// Lines that are put together end where they did.
pub proof fn lemma_lines_together(a: Seq<(usize, usize)>, b: Seq<(usize, usize)>, n: nat)
    requires
        lines_within(a, n),
        lines_within(b, n),
    ensures
        lines_within(a + b, n),
{
    let c = a + b;
    assert forall|i: int| 0 <= i < c.len() implies (#[trigger] c[i]).0 < n && c[i].1 < n by {
        if i < a.len() {
            assert(c[i] == a[i]);
        } else {
            assert(c[i] == b[i - a.len()]);
        }
    }
}

/// Lines that are left end where they did.
pub proof fn lemma_lines_left(
    a: Seq<(usize, usize)>,
    keep: spec_fn((usize, usize)) -> bool,
    n: nat,
)
    requires
        lines_within(a, n),
    ensures
        lines_within(a.filter(keep), n),
    decreases a.len(),
{
    reveal(Seq::filter);
    if a.len() > 0 {
        let b = a.drop_last();
        lemma_lines_left(b, keep, n);
        assert(a[a.len() - 1] == a.last());
        assert(lines_within(seq![a.last()], n));
        lemma_lines_together(b.filter(keep), seq![a.last()], n);
        assert(b.filter(keep).push(a.last()) =~= b.filter(keep) + seq![a.last()]);
    }
}

proof fn lemma_lines_from_within(index: Map<NodeId, usize>, e: EntryView, k: int, n: nat)
    requires
        index_within(index, n),
    ensures
        lines_within(lines_from(index, e, k), n),
    decreases k,
{
    if k > 0 && index.contains_key(e.id) {
        lemma_lines_from_within(index, e, k - 1, n);
    }
}

proof fn lemma_lines_within(index: Map<NodeId, usize>, s: Seq<EntryView>, k: int, n: nat)
    requires
        index_within(index, n),
    ensures
        lines_within(lines(index, s, k), n),
    decreases k,
{
    if k > 0 {
        lemma_lines_within(index, s, k - 1, n);
        let e = s[k - 1];
        lemma_lines_from_within(index, e, e.links.len() as int, n);
        lemma_lines_together(
            lines(index, s, k - 1),
            lines_from(index, e, e.links.len() as int),
            n,
        );
    }
}

/// The lines of a network join nodes that are drawn.
pub proof fn lemma_all_lines_within(index: Map<NodeId, usize>, c: ConfigView, n: nat)
    requires
        index_within(index, n),
    ensures
        lines_within(all_lines(index, c), n),
{
    let a = lines(index, c.drone, c.drone.len() as int);
    let b = lines(index, c.client, c.client.len() as int);
    let d = lines(index, c.server, c.server.len() as int);
    lemma_lines_within(index, c.drone, c.drone.len() as int, n);
    lemma_lines_within(index, c.client, c.client.len() as int, n);
    lemma_lines_within(index, c.server, c.server.len() as int, n);
    lemma_lines_together(a, b, n);
    lemma_lines_together(a + b, d, n);
}

/// The node id of a drawn node.
pub fn node_id(id: usize) -> (r: NodeId)
    ensures
        r == id % 256,
{
    (id % 256) as NodeId
}

fn active_before(nodes: &Vec<Node>, id: usize) -> (r: bool)
    ensures
        r == was_active(nodes@, id),
{
    let mut i: usize = nodes.len();
    assert(nodes@.subrange(0, nodes@.len() as int) =~= nodes@);
    while i > 0
        invariant
            i <= nodes@.len(),
            was_active(nodes@, id) == was_active(nodes@.subrange(0, i as int), id),
        decreases i,
    {
        i = i - 1;
        proof {
            let t = nodes@.subrange(0, i + 1);
            assert(t.drop_last() =~= nodes@.subrange(0, i as int));
            assert(t.last() == nodes@[i as int]);
        }
        if nodes[i].id == id {
            return nodes[i].active;
        }
    }
    true
}

/// The number of columns of a grid.
fn grid_side(n: usize) -> (r: usize)
    ensures
        is_side(n as int, r as int),
        r <= n,
{
    let mut side: usize = 0;
    while side < n && (n as u128) > (side as u128) * (side as u128)
        invariant
            side <= n,
            side > 0 ==> (side - 1) * (side - 1) < n,
            side as u128 * side as u128 <= u128::MAX,
        decreases n - side,
    {
        assert(side as int * side as int >= 0) by (nonlinear_arith);
        side = side + 1;
        assert(side as int * side as int <= u64::MAX as int * u64::MAX as int) by (nonlinear_arith)
            requires
                side <= u64::MAX,
        ;
    }
    proof {
        if side >= n {
            assert(side as int * side as int >= n as int) by (nonlinear_arith)
                requires
                    side == n,
                    n >= 0,
            ;
        }
    }
    side
}

/// Adds the lines from the nodes of a list.
fn append_lines<T: Linked>(
    edges: &mut Vec<(usize, usize)>,
    index: &HashMap<NodeId, usize>,
    v: &Vec<T>,
)
    ensures
        final(edges)@ == old(edges)@ + lines(index@, entries(v@), v@.len() as int),
{
    let ghost s = entries(v@);
    let ghost before = edges@;
    let mut i: usize = 0;
    assert(edges@ =~= before + lines(index@, s, 0));
    while i < v.len()
        invariant
            i <= v@.len(),
            s == entries(v@),
            edges@ == before + lines(index@, s, i as int),
        decreases v@.len() - i,
    {
        let ghost e = s[i as int];
        let ghost mid = edges@;
        assert(e == v@[i as int].entry());
        if let Some(source) = index.get(&v[i].node_id()) {
            let source: usize = *source;
            let links: &Vec<NodeId> = v[i].links();
            let mut k: usize = 0;
            assert(edges@ =~= mid + lines_from(index@, e, 0));
            while k < links.len()
                invariant
                    k <= links@.len(),
                    links@ == e.links,
                    index@.contains_key(e.id),
                    source == index@[e.id],
                    edges@ == mid + lines_from(index@, e, k as int),
                decreases links@.len() - k,
            {
                if let Some(target) = index.get(&links[k]) {
                    edges.push((source, *target));
                }
                k = k + 1;
                assert(edges@ =~= mid + lines_from(index@, e, k as int));
            }
        } else {
            assert(edges@ =~= mid + lines_from(index@, e, e.links.len() as int));
        }
        i = i + 1;
        assert(edges@ =~= before + lines(index@, s, i as int));
    }
}

impl NetworkRenderer {
    /// An empty drawing.
    pub fn new() -> (r: Self)
        ensures
            r@ == (RendererView {
                nodes: Seq::empty(),
                edges: Seq::empty(),
                index: Map::empty(),
                topology: None,
                manual: Seq::empty(),
                spawned: false,
            }),
            r@.wf(),
    {
        NetworkRenderer {
            nodes: Vec::new(),
            edges: Vec::new(),
            node_id_to_index: HashMap::new(),
            current_topology: None,
            manual_positions: Vec::new(),
            last_spawned: false,
        }
    }

    /// Draws another node.
    pub fn place(&mut self, n: Node)
        requires
            old(self)@.wf(),
        ensures
            final(self)@.wf(),
            final(self)@ == placed(old(self)@, n),
    {
        let at: usize = self.nodes.len();
        self.nodes.push(n);
        self.node_id_to_index.insert(node_id(n.id), at);
        assert(self@ =~= placed(old(self)@, n));
    }

    /// Draws the lines of a network.
    fn draw_lines(&mut self, config: &ParsedConfig)
        requires
            old(self)@.wf(),
        ensures
            final(self)@.wf(),
            final(self)@ == (RendererView {
                edges: old(self)@.edges + all_lines(old(self)@.index, config@),
                ..old(self)@
            }),
    {
        append_lines(&mut self.edges, &self.node_id_to_index, &config.drone);
        append_lines(&mut self.edges, &self.node_id_to_index, &config.client);
        append_lines(&mut self.edges, &self.node_id_to_index, &config.server);
        proof {
            let v = old(self)@;
            lemma_all_lines_within(v.index, config@, v.nodes.len());
            lemma_lines_together(v.edges, all_lines(v.index, config@), v.nodes.len());
        }
        assert(self@ =~= RendererView {
            edges: old(self)@.edges + all_lines(old(self)@.index, config@),
            ..old(self)@
        });
    }

    /// Draws the lines of a network in place of those that are drawn.
    pub fn sync_connections_with_config(&mut self, config: &ParsedConfig)
        requires
            old(self)@.wf(),
        ensures
            final(self)@.wf(),
            final(self)@ == (RendererView {
                edges: all_lines(old(self)@.index, config@),
                ..old(self)@
            }),
    {
        self.edges = Vec::new();
        let ghost a = self@;
        self.draw_lines(config);
        assert(self@ =~= RendererView {
            edges: all_lines(old(self)@.index, config@),
            ..old(self)@
        });
    }

    /// Draws a network in a grid, without lines.
    pub fn build_grid(&mut self, config: &ParsedConfig, old_nodes: &Vec<Node>)
        requires
            old(self)@.wf(),
            config@.nodes().len() <= usize::MAX,
        ensures
            final(self)@.wf(),
            in_grid(old(self)@, final(self)@, old_nodes@, config@),
    {
        let ghost v = self@;
        let ghost c = config@;
        let ghost all = c.nodes();
        let drones: usize = config.drone.len();
        let clients: usize = config.client.len();
        let servers: usize = config.server.len();
        let total: usize = drones + clients + servers;
        let side: usize = grid_side(total);
        let mut k: usize = 0;
        while k < total
            invariant
                k <= total,
                c == config@,
                all == c.nodes(),
                total == all.len(),
                drones == c.drone.len(),
                clients == c.client.len(),
                servers == c.server.len(),
                total == drones + clients + servers,
                is_side(total as int, side as int),
                self@.wf(),
                self@ == gridded(v, old_nodes@, c, side as int, k as int),
            decreases total - k,
        {
            assert(side > 0) by {
                if side == 0 {
                    assert(side * side == 0);
                }
            }
            let spot = Spot::Cell(k % side, k / side, side);
            let n: Node = if k < drones {
                assert(all[k as int] == config.drone@[k as int]@);
                let d: &DroneConfig = &config.drone[k];
                Node {
                    id: d.id as usize,
                    node_type: NodeType::Drone,
                    pdr: d.pdr,
                    active: active_before(old_nodes, d.id as usize),
                    spot,
                    manual_position: false,
                }
            } else if k - drones < clients {
                assert(all[k as int] == config.client@[k - drones]@);
                Node::client(config.client[k - drones].id as usize, spot)
            } else {
                assert(all[k as int] == config.server@[k - drones - clients]@);
                Node::server(config.server[k - drones - clients].id as usize, spot)
            };
            assert(n == grid_node(old_nodes@, c, k as int, side as int));
            self.place(n);
            k = k + 1;
        }
        assert(is_side(all.len() as int, side as int));
    }

    /// Draws the drones of a network in a shape.
    fn place_drones(&mut self, t: Topology, config: &ParsedConfig, old_nodes: &Vec<Node>)
        requires
            old(self)@.wf(),
        ensures
            final(self)@.wf(),
            final(self)@ == shaped(
                old(self)@,
                old_nodes@,
                t,
                config@.drone,
                shape_seats(t, config@.drone.len() as int),
            ),
    {
        let ghost v = self@;
        let ghost s = config@.drone;
        let all: bool = t == Topology::Star || t == Topology::DoubleChain;
        let n: usize = if all || config.drone.len() < 10 {
            config.drone.len()
        } else {
            10
        };
        let mut i: usize = 0;
        while i < n
            invariant
                i <= n <= config.drone@.len(),
                n <= 10 || all,
                all == (t == Topology::Star || t == Topology::DoubleChain),
                s == config@.drone,
                self@.wf(),
                self@ == shaped(v, old_nodes@, t, s, i as int),
                self@.manual == v.manual,
            decreases n - i,
        {
            assert(s[i as int] == config.drone@[i as int]@);
            let d: &DroneConfig = &config.drone[i];
            let kept: bool = has_id(&self.manual_positions, d.id);
            let spot: Spot = match t {
                Topology::Star => Spot::Ring(i),
                Topology::DoubleChain => Spot::Chain(i),
                Topology::Butterfly => Spot::Wing(i),
                Topology::Tree => {
                    if i < 1 {
                        Spot::Level(1, i)
                    } else if i < 3 {
                        Spot::Level(2, i - 1)
                    } else if i < 6 {
                        Spot::Level(3, i - 3)
                    } else {
                        Spot::Level(4, i - 6)
                    }
                },
                _ => Spot::SubNet(i),
            };
            proof {
                assert(above_level(1) == 0 && above_level(2) == 1 && above_level(3) == 3
                    && above_level(4) == 6);
                assert(spot == shape_spot(t, i as int));
            }
            let node = Node {
                id: d.id as usize,
                node_type: NodeType::Drone,
                pdr: d.pdr,
                active: active_before(old_nodes, d.id as usize),
                spot: if kept {
                    Spot::Kept
                } else {
                    spot
                },
                manual_position: kept,
            };
            assert(node == shape_drone(v, old_nodes@, t, s[i as int], i as int));
            self.place(node);
            i = i + 1;
        }
    }

    /// Draws the hosts and the lines, where any drone is drawn.
    fn complete(&mut self, config: &ParsedConfig)
        requires
            old(self)@.wf(),
        ensures
            final(self)@.wf(),
            final(self)@ == completed(old(self)@, config@),
    {
        let ghost v = self@;
        let ghost c = config@;
        let mut found: bool = false;
        let mut i: usize = 0;
        while i < self.nodes.len()
            invariant
                i <= self.nodes@.len(),
                self@ == v,
                found <==> exists|j: int|
                    0 <= j < i && (#[trigger] v.nodes[j]).node_type == NodeType::Drone,
            decreases self.nodes@.len() - i,
        {
            if self.nodes[i].node_type == NodeType::Drone {
                assert(v.nodes[i as int].node_type == NodeType::Drone);
                found = true;
            }
            i = i + 1;
        }
        assert(found == any_drone(v.nodes));
        if !found {
            return;
        }
        let mut j: usize = 0;
        while j < config.client.len()
            invariant
                j <= config.client@.len(),
                c == config@,
                self@.wf(),
                self@ == clients_placed(v, c.client, j as int),
                self@.edges == v.edges,
            decreases config.client@.len() - j,
        {
            assert(c.client[j as int] == config.client@[j as int]@);
            self.place(Node::client(config.client[j].id as usize, Spot::Below(j)));
            j = j + 1;
        }
        let ghost u = self@;
        let mut k: usize = 0;
        while k < config.server.len()
            invariant
                k <= config.server@.len(),
                c == config@,
                self@.wf(),
                self@ == servers_placed(u, c.server, k as int),
                self@.edges == v.edges,
            decreases config.server@.len() - k,
        {
            assert(c.server[k as int] == config.server@[k as int]@);
            self.place(Node::server(config.server[k].id as usize, Spot::Above(k)));
            k = k + 1;
        }
        self.draw_lines(config);
        assert(self@ =~= completed(v, c));
    }

    /// Draws a network in a shape.
    pub fn build_topology_layout(
        &mut self,
        topology: Topology,
        config: &ParsedConfig,
        previous_nodes: &Vec<Node>,
    )
        requires
            old(self)@.wf(),
            config@.nodes().len() <= usize::MAX,
        ensures
            final(self)@.wf(),
            laid_out(old(self)@, final(self)@, previous_nodes@, topology, config@),
    {
        let ghost v = self@;
        if topology == Topology::Custom {
            self.build_grid(config, previous_nodes);
            let ghost w = self@;
            self.complete(config);
            proof {
                let n = config@.nodes().len() as int;
                let side = choose|side: int| #[trigger]
                    is_side(n, side) && w == gridded(v, previous_nodes@, config@, side, n);
                assert(is_side(n, side) && self@ == completed(
                    gridded(v, previous_nodes@, config@, side, n),
                    config@,
                ));
            }
        } else {
            self.place_drones(topology, config, previous_nodes);
            self.complete(config);
        }
    }

    /// Draws a network anew.
    pub fn build_from_config(&mut self, config: &ParsedConfig)
        requires
            old(self)@.wf(),
            config@.nodes().len() <= usize::MAX,
        ensures
            final(self)@.wf(),
            built(old(self)@, final(self)@, config@),
    {
        let ghost v = self@;
        let old_nodes: Vec<Node> = self.take_down();
        match config.detect_shape() {
            Some(t) => {
                self.current_topology = Some(t);
                assert(self@ =~= RendererView { topology: Some(t), ..cleared(v) });
                self.build_topology_layout(t, config, &old_nodes);
            },
            None => match self.current_topology {
                Some(t) => self.build_topology_layout(t, config, &old_nodes),
                None => self.build_grid(config, &old_nodes),
            },
        }
    }

    /// Clears the drawing; gives the nodes that were drawn.
    pub(crate) fn take_down(&mut self) -> (r: Vec<Node>)
        ensures
            r@ == old(self)@.nodes,
            final(self)@ == cleared(old(self)@),
            final(self)@.wf(),
    {
        let mut r: Vec<Node> = Vec::new();
        r.append(&mut self.nodes);
        assert(r@ =~= old(self)@.nodes);
        self.edges = Vec::new();
        self.node_id_to_index = HashMap::new();
        assert(self@ =~= cleared(old(self)@));
        r
    }
}

}
