//! Networks that are drawn without a configuration, and how nodes and lines look.
use crate::packet::NodeType;
use crate::renderer::{Node, Spot, ALL_LOST};
use crate::topology::Topology;
use vstd::prelude::*;

verus! {

/// A network as it is drawn: nodes, and lines between the ids of nodes.
#[derive(Debug)]
pub struct Preset {
    pub nodes: Vec<Node>,
    pub edges: Vec<(usize, usize)>,
}

#[verifier::ext_equal]
pub struct PresetView {
    pub nodes: Seq<Node>,
    pub edges: Seq<(usize, usize)>,
}

impl View for Preset {
    type V = PresetView;

    open spec fn view(&self) -> PresetView {
        PresetView { nodes: self.nodes@, edges: self.edges@ }
    }
}

/// Ten drones whose ids start at `first`.
pub open spec fn ten_drones(first: int) -> Seq<Node> {
    Seq::new(
        10,
        |i: int| Node::a_drone((i + first) as usize, Spot::Preset(i as usize), ALL_LOST),
    )
}

/// A ring of ten drones, each joined to the third one on; two clients and a server.
pub open spec fn star_preset() -> PresetView {
    PresetView {
        nodes: ten_drones(1) + seq![
            Node::a_client(100, Spot::Preset(10)),
            Node::a_client(101, Spot::Preset(11)),
            Node::a_server(102, Spot::Preset(12)),
        ],
        edges: Seq::new(10, |i: int| ((i + 1) as usize, ((i + 3) % 10 + 1) as usize)) + seq![
            (100usize, 1usize),
            (101usize, 5usize),
            (102usize, 3usize),
            (102usize, 7usize),
        ],
    }
}

/// Two chains of five drones, joined like a ladder; a server and two clients.
pub open spec fn double_chain_preset() -> PresetView {
    PresetView {
        nodes: ten_drones(1) + seq![
            Node::a_server(102, Spot::Preset(10)),
            Node::a_client(100, Spot::Preset(11)),
            Node::a_client(101, Spot::Preset(12)),
        ],
        edges: Seq::new(4, |i: int| ((i + 1) as usize, (i + 2) as usize)) + Seq::new(
            4,
            |i: int| ((i + 6) as usize, (i + 7) as usize),
        ) + Seq::new(5, |i: int| ((i + 1) as usize, (i + 6) as usize)) + seq![
            (102usize, 1usize),
            (100usize, 6usize),
            (101usize, 10usize),
        ],
    }
}

/// Line `k` between the wings of a butterfly: each pair of drones after the first is
/// joined, and both are joined to those of the pair before.
pub open spec fn wing_line(k: int) -> (usize, usize) {
    let i = 1 + k / 3;
    if k % 3 == 0 {
        ((2 * i) as usize, (2 * i + 1) as usize)
    } else if k % 3 == 1 {
        ((2 * i) as usize, (2 * i - 2) as usize)
    } else {
        ((2 * i + 1) as usize, (2 * i - 1) as usize)
    }
}

/// Two wings of five drones; a server and two clients.
pub open spec fn butterfly_preset() -> PresetView {
    PresetView {
        nodes: ten_drones(0) + seq![
            Node::a_server(10, Spot::Preset(10)),
            Node::a_client(11, Spot::Preset(11)),
            Node::a_client(12, Spot::Preset(12)),
        ],
        edges: Seq::new(12, |k: int| wing_line(k)) + seq![
            (10usize, 0usize),
            (10usize, 1usize),
            (11usize, 1usize),
            (12usize, 0usize),
        ],
    }
}

/// Levels of one, two, three and four drones, each joined to all of the level above; a
/// server and two clients.
pub open spec fn tree_preset() -> PresetView {
    PresetView {
        nodes: ten_drones(0) + seq![
            Node::a_server(10, Spot::Preset(10)),
            Node::a_client(11, Spot::Preset(11)),
            Node::a_client(12, Spot::Preset(12)),
        ],
        edges: Seq::new(2, |k: int| (0usize, (1 + k) as usize)) + Seq::new(
            6,
            |k: int| ((1 + k % 2) as usize, (3 + k / 2) as usize),
        ) + Seq::new(12, |k: int| ((3 + k % 3) as usize, (6 + k / 3) as usize)) + seq![
            (10usize, 0usize),
            (10usize, 1usize),
            (11usize, 6usize),
            (12usize, 9usize),
        ],
    }
}

/// Two stars of five drones with two bridges; a server and two clients.
pub open spec fn subnet_preset() -> PresetView {
    PresetView {
        nodes: ten_drones(0) + seq![
            Node::a_server(10, Spot::Preset(10)),
            Node::a_client(11, Spot::Preset(11)),
            Node::a_client(12, Spot::Preset(12)),
        ],
        edges: Seq::new(5, |i: int| (i as usize, ((i + 2) % 5) as usize)) + Seq::new(
            5,
            |i: int| ((i + 5) as usize, (5 + (i + 7) % 5) as usize),
        ) + seq![
            (0usize, 5usize),
            (2usize, 7usize),
            (10usize, 0usize),
            (10usize, 5usize),
            (11usize, 3usize),
            (12usize, 8usize),
        ],
    }
}

/// The preset network that a text names; others are empty.
pub open spec fn preset_of(name: Seq<char>) -> PresetView {
    match Topology::named(name) {
        Some(Topology::Star) => star_preset(),
        Some(Topology::DoubleChain) => double_chain_preset(),
        Some(Topology::Butterfly) => butterfly_preset(),
        Some(Topology::Tree) => tree_preset(),
        Some(Topology::SubNet) => subnet_preset(),
        _ => PresetView { nodes: Seq::empty(), edges: Seq::empty() },
    }
}

fn drones_from(first: usize) -> (r: Vec<Node>)
    requires
        first <= 1,
    ensures
        r@ == ten_drones(first as int),
{
    let mut r: Vec<Node> = Vec::new();
    let mut i: usize = 0;
    while i < 10
        invariant
            i <= 10,
            first <= 1,
            r@ == ten_drones(first as int).subrange(0, i as int),
        decreases 10 - i,
    {
        r.push(Node::drone(i + first, Spot::Preset(i), ALL_LOST));
        i = i + 1;
        assert(r@ =~= ten_drones(first as int).subrange(0, i as int));
    }
    assert(r@ =~= ten_drones(first as int));
    r
}

/// A server and two clients behind the drones.
fn with_hosts(nodes: &mut Vec<Node>)
    ensures
        final(nodes)@ == old(nodes)@ + seq![
            Node::a_server(10, Spot::Preset(10)),
            Node::a_client(11, Spot::Preset(11)),
            Node::a_client(12, Spot::Preset(12)),
        ],
{
    nodes.push(Node::server(10, Spot::Preset(10)));
    nodes.push(Node::client(11, Spot::Preset(11)));
    nodes.push(Node::client(12, Spot::Preset(12)));
    assert(nodes@ =~= old(nodes)@ + seq![
        Node::a_server(10, Spot::Preset(10)),
        Node::a_client(11, Spot::Preset(11)),
        Node::a_client(12, Spot::Preset(12)),
    ]);
}

/// The star.
pub fn setup_star() -> (r: Preset)
    ensures
        r@ == star_preset(),
{
    let mut nodes: Vec<Node> = drones_from(1);
    nodes.push(Node::client(100, Spot::Preset(10)));
    nodes.push(Node::client(101, Spot::Preset(11)));
    nodes.push(Node::server(102, Spot::Preset(12)));
    let mut edges: Vec<(usize, usize)> = Vec::new();
    let ghost ring = Seq::new(10, |i: int| ((i + 1) as usize, ((i + 3) % 10 + 1) as usize));
    let mut i: usize = 0;
    while i < 10
        invariant
            i <= 10,
            ring == Seq::new(10, |i: int| ((i + 1) as usize, ((i + 3) % 10 + 1) as usize)),
            edges@ == ring.subrange(0, i as int),
        decreases 10 - i,
    {
        edges.push((i + 1, (i + 3) % 10 + 1));
        i = i + 1;
        assert(edges@ =~= ring.subrange(0, i as int));
    }
    edges.push((100, 1));
    edges.push((101, 5));
    edges.push((102, 3));
    edges.push((102, 7));
    let r = Preset { nodes, edges };
    assert(r@.nodes =~= star_preset().nodes);
    assert(r@.edges =~= star_preset().edges);
    r
}

/// The double chain.
pub fn setup_double_chain() -> (r: Preset)
    ensures
        r@ == double_chain_preset(),
{
    let mut nodes: Vec<Node> = drones_from(1);
    nodes.push(Node::server(102, Spot::Preset(10)));
    nodes.push(Node::client(100, Spot::Preset(11)));
    nodes.push(Node::client(101, Spot::Preset(12)));
    let mut edges: Vec<(usize, usize)> = Vec::new();
    let ghost want = double_chain_preset().edges;
    let mut i: usize = 0;
    while i < 4
        invariant
            i <= 4,
            want == double_chain_preset().edges,
            edges@ == want.subrange(0, i as int),
        decreases 4 - i,
    {
        edges.push((i + 1, i + 2));
        i = i + 1;
        assert(edges@ =~= want.subrange(0, i as int));
    }
    let mut j: usize = 0;
    while j < 4
        invariant
            j <= 4,
            want == double_chain_preset().edges,
            edges@ == want.subrange(0, 4 + j),
        decreases 4 - j,
    {
        edges.push((j + 6, j + 7));
        j = j + 1;
        assert(edges@ =~= want.subrange(0, 4 + j));
    }
    let mut k: usize = 0;
    while k < 5
        invariant
            k <= 5,
            want == double_chain_preset().edges,
            edges@ == want.subrange(0, 8 + k),
        decreases 5 - k,
    {
        edges.push((k + 1, k + 6));
        k = k + 1;
        assert(edges@ =~= want.subrange(0, 8 + k));
    }
    edges.push((102, 1));
    edges.push((100, 6));
    edges.push((101, 10));
    let r = Preset { nodes, edges };
    assert(r@.nodes =~= double_chain_preset().nodes);
    assert(r@.edges =~= want);
    r
}

/// The butterfly.
pub fn setup_butterfly() -> (r: Preset)
    ensures
        r@ == butterfly_preset(),
{
    let mut nodes: Vec<Node> = drones_from(0);
    with_hosts(&mut nodes);
    let mut edges: Vec<(usize, usize)> = Vec::new();
    let ghost want = butterfly_preset().edges;
    let mut i: usize = 1;
    while i < 5
        invariant
            1 <= i <= 5,
            want == butterfly_preset().edges,
            edges@ == want.subrange(0, 3 * (i - 1)),
        decreases 5 - i,
    {
        proof {
            assert(want[3 * (i - 1)] == wing_line(3 * (i - 1)));
            assert(want[3 * (i - 1) + 1] == wing_line(3 * (i - 1) + 1));
            assert(want[3 * (i - 1) + 2] == wing_line(3 * (i - 1) + 2));
        }
        edges.push((2 * i, 2 * i + 1));
        edges.push((2 * i, 2 * i - 2));
        edges.push((2 * i + 1, 2 * i - 1));
        i = i + 1;
        assert(edges@ =~= want.subrange(0, 3 * (i - 1)));
    }
    edges.push((10, 0));
    edges.push((10, 1));
    edges.push((11, 1));
    edges.push((12, 0));
    let r = Preset { nodes, edges };
    assert(r@.edges =~= want);
    r
}

/// The tree.
pub fn setup_tree() -> (r: Preset)
    ensures
        r@ == tree_preset(),
{
    let mut nodes: Vec<Node> = drones_from(0);
    with_hosts(&mut nodes);
    let mut edges: Vec<(usize, usize)> = Vec::new();
    let ghost want = tree_preset().edges;
    edges.push((0, 1));
    edges.push((0, 2));
    assert(edges@ =~= want.subrange(0, 2));
    let mut k: usize = 0;
    while k < 6
        invariant
            k <= 6,
            want == tree_preset().edges,
            edges@ == want.subrange(0, 2 + k),
        decreases 6 - k,
    {
        edges.push((1 + k % 2, 3 + k / 2));
        k = k + 1;
        assert(edges@ =~= want.subrange(0, 2 + k));
    }
    let mut j: usize = 0;
    while j < 12
        invariant
            j <= 12,
            want == tree_preset().edges,
            edges@ == want.subrange(0, 8 + j),
        decreases 12 - j,
    {
        edges.push((3 + j % 3, 6 + j / 3));
        j = j + 1;
        assert(edges@ =~= want.subrange(0, 8 + j));
    }
    edges.push((10, 0));
    edges.push((10, 1));
    edges.push((11, 6));
    edges.push((12, 9));
    let r = Preset { nodes, edges };
    assert(r@.edges =~= want);
    r
}

/// The sub-nets.
pub fn setup_subnet() -> (r: Preset)
    ensures
        r@ == subnet_preset(),
{
    let mut nodes: Vec<Node> = drones_from(0);
    with_hosts(&mut nodes);
    let mut edges: Vec<(usize, usize)> = Vec::new();
    let ghost want = subnet_preset().edges;
    let mut i: usize = 0;
    while i < 5
        invariant
            i <= 5,
            want == subnet_preset().edges,
            edges@ == want.subrange(0, i as int),
        decreases 5 - i,
    {
        edges.push((i, (i + 2) % 5));
        i = i + 1;
        assert(edges@ =~= want.subrange(0, i as int));
    }
    let mut j: usize = 5;
    while j < 10
        invariant
            5 <= j <= 10,
            want == subnet_preset().edges,
            edges@ == want.subrange(0, j as int),
        decreases 10 - j,
    {
        edges.push((j, 5 + (j + 2) % 5));
        j = j + 1;
        assert(edges@ =~= want.subrange(0, j as int));
    }
    edges.push((0, 5));
    edges.push((2, 7));
    edges.push((10, 0));
    edges.push((10, 5));
    edges.push((11, 3));
    edges.push((12, 8));
    let r = Preset { nodes, edges };
    assert(r@.edges =~= want);
    r
}

/// The preset network that a text names; others are empty.
pub fn preset(name: &str) -> (r: Preset)
    ensures
        r@ == preset_of(name@),
{
    match Topology::from_str(name) {
        Some(Topology::Star) => setup_star(),
        Some(Topology::DoubleChain) => setup_double_chain(),
        Some(Topology::Butterfly) => setup_butterfly(),
        Some(Topology::Tree) => setup_tree(),
        Some(Topology::SubNet) => setup_subnet(),
        _ => Preset { nodes: Vec::new(), edges: Vec::new() },
    }
}

/// Colours.
#[derive(Clone, Copy, PartialEq, Eq, Structural, Debug)]
pub enum Shade {
    Blue,
    Yellow,
    Gray,
    Green,
    Red,
}

/// The colour of a line, and whether it is bent: lines of servers are blue, other lines
/// of clients yellow, and lines of clients are bent.
pub open spec fn line_look(a: NodeType, b: NodeType) -> (Shade, bool) {
    let server = a == NodeType::Server || b == NodeType::Server;
    let client = a == NodeType::Client || b == NodeType::Client;
    (
        if server {
            Shade::Blue
        } else if client {
            Shade::Yellow
        } else {
            Shade::Gray
        },
        client,
    )
}

/// The colour of a line, and whether it is bent.
pub fn look_of_line(a: NodeType, b: NodeType) -> (r: (Shade, bool))
    ensures
        r == line_look(a, b),
{
    let server: bool = a == NodeType::Server || b == NodeType::Server;
    let client: bool = a == NodeType::Client || b == NodeType::Client;
    let shade = if server {
        Shade::Blue
    } else if client {
        Shade::Yellow
    } else {
        Shade::Gray
    };
    (shade, client)
}

/// The colour of a node.
pub open spec fn node_shade(n: Node) -> Shade {
    match n.node_type {
        NodeType::Server => Shade::Blue,
        NodeType::Client => Shade::Yellow,
        NodeType::Drone => if n.active {
            Shade::Green
        } else {
            Shade::Red
        },
    }
}

/// The colour of a node.
pub fn shade_of(n: &Node) -> (r: Shade)
    ensures
        r == node_shade(*n),
{
    match n.node_type {
        NodeType::Server => Shade::Blue,
        NodeType::Client => Shade::Yellow,
        NodeType::Drone => if n.active {
            Shade::Green
        } else {
            Shade::Red
        },
    }
}

}
