//! Which lines the preset networks have.
use crate::drawing_laws::lemma_either;
use crate::packet::NodeType;
use crate::presets::{
    butterfly_preset, double_chain_preset, preset_of, star_preset, subnet_preset, tree_preset,
    wing_line, PresetView,
};
use vstd::prelude::*;

verus! {

/// A line joins two nodes.
pub open spec fn joined_in(p: PresetView, a: int, b: int) -> bool {
    has_line(p.edges, a, b) || has_line(p.edges, b, a)
}

/// A line leads from one node to another.
pub open spec fn has_line(edges: Seq<(usize, usize)>, a: int, b: int) -> bool {
    edges.contains((a as usize, b as usize))
}

/// Ten drones whose ids begin at `first` are drawn, then three hosts.
pub open spec fn ten_and_three(p: PresetView, first: int) -> bool {
    &&& p.nodes.len() == 13
    &&& forall|k: int|
        0 <= k < 10 ==> (#[trigger] p.nodes[k]).id == first + k && p.nodes[k].node_type
            == NodeType::Drone && p.nodes[k].active
    &&& forall|k: int| 10 <= k < 13 ==> (#[trigger] p.nodes[k]).node_type != NodeType::Drone
}

/// A host of a role is drawn.
pub open spec fn host(p: PresetView, k: int, id: int, t: NodeType) -> bool {
    p.nodes[k].id == id && p.nodes[k].node_type == t
}

proof fn lemma_new(n: nat, f: spec_fn(int) -> (usize, usize), e: (usize, usize))
    ensures
        Seq::new(n, f).contains(e) <==> exists|k: int| 0 <= k < n && #[trigger] f(k) == e,
{
    let s = Seq::new(n, f);
    if s.contains(e) {
        let k = s.index_of(e);
        assert(f(k) == e);
    }
    if exists|k: int| 0 <= k < n && #[trigger] f(k) == e {
        let k = choose|k: int| 0 <= k < n && #[trigger] f(k) == e;
        assert(s[k] == e);
    }
}

proof fn lemma_three(a: (usize, usize), b: (usize, usize), c: (usize, usize), e: (usize, usize))
    ensures
        seq![a, b, c].contains(e) <==> e == a || e == b || e == c,
{
    let s = seq![a, b, c];
    assert(s[0] == a && s[1] == b && s[2] == c);
}

proof fn lemma_four(
    a: (usize, usize),
    b: (usize, usize),
    c: (usize, usize),
    d: (usize, usize),
    e: (usize, usize),
)
    ensures
        seq![a, b, c, d].contains(e) <==> e == a || e == b || e == c || e == d,
{
    let s = seq![a, b, c, d];
    assert(s[0] == a && s[1] == b && s[2] == c && s[3] == d);
}

proof fn lemma_star_line(a: int, b: int)
    requires
        1 <= a <= 10,
        1 <= b <= 10,
    ensures
        has_line(star_preset().edges, a, b) <==> b - a == 3 || a - b == 7,
{
    let e = (a as usize, b as usize);
    let f = |i: int| ((i + 1) as usize, ((i + 3) % 10 + 1) as usize);
    let ring = Seq::new(10, f);
    let hosts = seq![
        (100usize, 1usize),
        (101usize, 5usize),
        (102usize, 3usize),
        (102usize, 7usize),
    ];
    assert(star_preset().edges =~= ring + hosts);
    lemma_either(ring, hosts, e);
    lemma_four((100, 1), (101, 5), (102, 3), (102, 7), e);
    lemma_new(10, f, e);
    if b - a == 3 || a - b == 7 {
        assert((a - 1 + 3) % 10 + 1 == b);
        assert(f(a - 1) == e);
    }
}

/// In the star every drone is joined to the third one on either side, and to no other one;
/// the clients are joined to the first and the fifth drone, and the server to the third and
/// the seventh.
pub proof fn law_the_star(a: int, b: int)
    requires
        1 <= a < b <= 10,
    ensures
        ten_and_three(star_preset(), 1),
        host(star_preset(), 10, 100, NodeType::Client),
        host(star_preset(), 11, 101, NodeType::Client),
        host(star_preset(), 12, 102, NodeType::Server),
        joined_in(star_preset(), a, b) <==> b - a == 3 || b - a == 7,
        has_line(star_preset().edges, 100, 1),
        has_line(star_preset().edges, 101, 5),
        has_line(star_preset().edges, 102, 3),
        has_line(star_preset().edges, 102, 7),
        star_preset().edges.len() == 14,
        preset_of("star"@) == star_preset(),
{
    lemma_star_line(a, b);
    lemma_star_line(b, a);
    let s = star_preset().edges;
    assert(s[10] == (100usize, 1usize));
    assert(s[11] == (101usize, 5usize));
    assert(s[12] == (102usize, 3usize));
    assert(s[13] == (102usize, 7usize));
    lemma_names();
}

proof fn lemma_names()
    ensures
        preset_of("star"@) == star_preset(),
        preset_of("double_chain"@) == double_chain_preset(),
        preset_of("butterfly"@) == butterfly_preset(),
        preset_of("tree"@) == tree_preset(),
        preset_of("sub-net"@) == subnet_preset(),
{
    reveal_strlit("star");
    reveal_strlit("double_chain");
    reveal_strlit("butterfly");
    reveal_strlit("tree");
    reveal_strlit("sub-net");
    assert("star"@.len() == 4 && "double_chain"@.len() == 12 && "butterfly"@.len() == 9);
    assert("tree"@.len() == 4 && "sub-net"@.len() == 7);
    assert("star"@[0] == 's' && "tree"@[0] == 't');
}

proof fn lemma_chain_line(a: int, b: int)
    requires
        1 <= a <= 10,
        1 <= b <= 10,
    ensures
        has_line(double_chain_preset().edges, a, b) <==> (b - a == 1 && a != 5) || b - a == 5,
{
    let e = (a as usize, b as usize);
    let f = |i: int| ((i + 1) as usize, (i + 2) as usize);
    let g = |i: int| ((i + 6) as usize, (i + 7) as usize);
    let h = |i: int| ((i + 1) as usize, (i + 6) as usize);
    let x = Seq::new(4, f);
    let y = Seq::new(4, g);
    let z = Seq::new(5, h);
    let hosts = seq![(102usize, 1usize), (100usize, 6usize), (101usize, 10usize)];
    assert(double_chain_preset().edges =~= x + y + z + hosts);
    lemma_either(x + y + z, hosts, e);
    lemma_either(x + y, z, e);
    lemma_either(x, y, e);
    lemma_three((102, 1), (100, 6), (101, 10), e);
    lemma_new(4, f, e);
    lemma_new(4, g, e);
    lemma_new(5, h, e);
    if b - a == 1 && a < 5 {
        assert(f(a - 1) == e);
    }
    if b - a == 1 && a > 5 {
        assert(g(a - 6) == e);
    }
    if b - a == 5 {
        assert(h(a - 1) == e);
    }
}

/// The double chain has two chains of five drones, joined one by one; the server is joined to
/// the first drone, and the clients to both ends of the second chain.
pub proof fn law_the_double_chain(a: int, b: int)
    requires
        1 <= a < b <= 10,
    ensures
        ten_and_three(double_chain_preset(), 1),
        host(double_chain_preset(), 10, 102, NodeType::Server),
        host(double_chain_preset(), 11, 100, NodeType::Client),
        host(double_chain_preset(), 12, 101, NodeType::Client),
        joined_in(double_chain_preset(), a, b) <==> (b - a == 1 && a != 5) || b - a == 5,
        has_line(double_chain_preset().edges, 102, 1),
        has_line(double_chain_preset().edges, 100, 6),
        has_line(double_chain_preset().edges, 101, 10),
        double_chain_preset().edges.len() == 16,
        preset_of("double_chain"@) == double_chain_preset(),
{
    lemma_chain_line(a, b);
    lemma_chain_line(b, a);
    let s = double_chain_preset().edges;
    assert(s[13] == (102usize, 1usize));
    assert(s[14] == (100usize, 6usize));
    assert(s[15] == (101usize, 10usize));
    lemma_names();
}

proof fn lemma_wing_line(a: int, b: int)
    requires
        0 <= a < 10,
        0 <= b < 10,
    ensures
        has_line(butterfly_preset().edges, a, b) <==> (a % 2 == 0 && a >= 2 && b == a + 1) || a - b
            == 2,
{
    let e = (a as usize, b as usize);
    let f = |k: int| wing_line(k);
    let x = Seq::new(12, f);
    let hosts = seq![(10usize, 0usize), (10usize, 1usize), (11usize, 1usize), (12usize, 0usize)];
    assert(butterfly_preset().edges =~= x + hosts);
    lemma_either(x, hosts, e);
    lemma_four((10, 0), (10, 1), (11, 1), (12, 0), e);
    lemma_new(12, f, e);
    if a % 2 == 0 && a >= 2 && b == a + 1 {
        let k = 3 * (a / 2 - 1);
        assert(k % 3 == 0 && k / 3 == a / 2 - 1);
        assert(f(k) == e);
    }
    if a - b == 2 {
        let k = 3 * (a / 2 - 1) + 1 + a % 2;
        assert(k % 3 == 1 + a % 2 && k / 3 == a / 2 - 1);
        assert(f(k) == e);
    }
}

/// The butterfly has two wings of five drones: each drone is joined to the next one of its
/// wing, and to the one across but for the first pair. The server is joined to the first
/// pair, and each client to one of it.
pub proof fn law_the_butterfly(a: int, b: int)
    requires
        0 <= a < b < 10,
    ensures
        ten_and_three(butterfly_preset(), 0),
        host(butterfly_preset(), 10, 10, NodeType::Server),
        host(butterfly_preset(), 11, 11, NodeType::Client),
        host(butterfly_preset(), 12, 12, NodeType::Client),
        joined_in(butterfly_preset(), a, b) <==> (a % 2 == 0 && a >= 2 && b == a + 1) || b - a == 2,
        has_line(butterfly_preset().edges, 10, 0),
        has_line(butterfly_preset().edges, 10, 1),
        has_line(butterfly_preset().edges, 11, 1),
        has_line(butterfly_preset().edges, 12, 0),
        butterfly_preset().edges.len() == 16,
        preset_of("butterfly"@) == butterfly_preset(),
{
    lemma_wing_line(a, b);
    lemma_wing_line(b, a);
    let s = butterfly_preset().edges;
    assert(s[12] == (10usize, 0usize));
    assert(s[13] == (10usize, 1usize));
    assert(s[14] == (11usize, 1usize));
    assert(s[15] == (12usize, 0usize));
    lemma_names();
}

proof fn lemma_tree_line(a: int, b: int)
    requires
        0 <= a < 10,
        0 <= b < 10,
    ensures
        has_line(tree_preset().edges, a, b) <==> (a == 0 && 1 <= b <= 2) || (1 <= a <= 2 && 3 <= b
            <= 5) || (3 <= a <= 5 && 6 <= b),
{
    let e = (a as usize, b as usize);
    let f = |k: int| (0usize, (1 + k) as usize);
    let g = |k: int| ((1 + k % 2) as usize, (3 + k / 2) as usize);
    let h = |k: int| ((3 + k % 3) as usize, (6 + k / 3) as usize);
    let x = Seq::new(2, f);
    let y = Seq::new(6, g);
    let z = Seq::new(12, h);
    let hosts = seq![(10usize, 0usize), (10usize, 1usize), (11usize, 6usize), (12usize, 9usize)];
    assert(tree_preset().edges =~= x + y + z + hosts);
    lemma_either(x + y + z, hosts, e);
    lemma_either(x + y, z, e);
    lemma_either(x, y, e);
    lemma_four((10, 0), (10, 1), (11, 6), (12, 9), e);
    lemma_new(2, f, e);
    lemma_new(6, g, e);
    lemma_new(12, h, e);
    if a == 0 && 1 <= b <= 2 {
        assert(f(b - 1) == e);
    }
    if 1 <= a <= 2 && 3 <= b <= 5 {
        let k = 2 * (b - 3) + (a - 1);
        assert(k % 2 == a - 1 && k / 2 == b - 3);
        assert(g(k) == e);
    }
    if 3 <= a <= 5 && 6 <= b {
        let k = 3 * (b - 6) + (a - 3);
        assert(k % 3 == a - 3 && k / 3 == b - 6);
        assert(h(k) == e);
    }
}

/// The tree has levels of one, two, three and four drones, each drone joined to all of the
/// level below and to no other. The server is joined to the first two drones, and the clients
/// to both ends of the last level.
pub proof fn law_the_tree(a: int, b: int)
    requires
        0 <= a < b < 10,
    ensures
        ten_and_three(tree_preset(), 0),
        host(tree_preset(), 10, 10, NodeType::Server),
        host(tree_preset(), 11, 11, NodeType::Client),
        host(tree_preset(), 12, 12, NodeType::Client),
        joined_in(tree_preset(), a, b) <==> (a == 0 && b <= 2) || (1 <= a <= 2 && 3 <= b <= 5) || (3
            <= a <= 5 && 6 <= b),
        has_line(tree_preset().edges, 10, 0),
        has_line(tree_preset().edges, 10, 1),
        has_line(tree_preset().edges, 11, 6),
        has_line(tree_preset().edges, 12, 9),
        tree_preset().edges.len() == 24,
        preset_of("tree"@) == tree_preset(),
{
    lemma_tree_line(a, b);
    lemma_tree_line(b, a);
    let s = tree_preset().edges;
    assert(s[20] == (10usize, 0usize));
    assert(s[21] == (10usize, 1usize));
    assert(s[22] == (11usize, 6usize));
    assert(s[23] == (12usize, 9usize));
    lemma_names();
}

proof fn lemma_subnet_line(a: int, b: int)
    requires
        0 <= a < 10,
        0 <= b < 10,
    ensures
        has_line(subnet_preset().edges, a, b) <==> (((a < 5 && b < 5) || (a >= 5 && b >= 5)) && (b
            - a == 2 || a - b == 3)) || (a == 0 && b == 5) || (a == 2 && b == 7),
{
    let e = (a as usize, b as usize);
    let f = |i: int| (i as usize, ((i + 2) % 5) as usize);
    let g = |i: int| ((i + 5) as usize, (5 + (i + 7) % 5) as usize);
    let x = Seq::new(5, f);
    let y = Seq::new(5, g);
    let bridges = seq![(0usize, 5usize), (2usize, 7usize)];
    let hosts = seq![(10usize, 0usize), (10usize, 5usize), (11usize, 3usize), (12usize, 8usize)];
    assert(subnet_preset().edges =~= x + y + bridges + hosts);
    lemma_either(x + y + bridges, hosts, e);
    lemma_either(x + y, bridges, e);
    lemma_either(x, y, e);
    lemma_four((10, 0), (10, 5), (11, 3), (12, 8), e);
    assert(bridges[0] == (0usize, 5usize) && bridges[1] == (2usize, 7usize));
    lemma_new(5, f, e);
    lemma_new(5, g, e);
    if a < 5 && b < 5 && (b - a == 2 || a - b == 3) {
        assert((a + 2) % 5 == b);
        assert(f(a) == e);
    }
    if a >= 5 && b >= 5 && (b - a == 2 || a - b == 3) {
        assert(5 + (a - 5 + 7) % 5 == b);
        assert(g(a - 5) == e);
    }
}

/// The sub-net has two stars of five drones with two bridges between them. The server is
/// joined to both stars, and each client to one of them.
pub proof fn law_the_sub_net(a: int, b: int)
    requires
        0 <= a < b < 10,
    ensures
        ten_and_three(subnet_preset(), 0),
        host(subnet_preset(), 10, 10, NodeType::Server),
        host(subnet_preset(), 11, 11, NodeType::Client),
        host(subnet_preset(), 12, 12, NodeType::Client),
        joined_in(subnet_preset(), a, b) <==> (((b < 5) || (a >= 5)) && (b - a == 2 || b - a == 3))
            || (a == 0 && b == 5) || (a == 2 && b == 7),
        has_line(subnet_preset().edges, 10, 0),
        has_line(subnet_preset().edges, 10, 5),
        has_line(subnet_preset().edges, 11, 3),
        has_line(subnet_preset().edges, 12, 8),
        subnet_preset().edges.len() == 16,
        preset_of("sub-net"@) == subnet_preset(),
{
    lemma_subnet_line(a, b);
    lemma_subnet_line(b, a);
    let s = subnet_preset().edges;
    assert(s[12] == (10usize, 0usize));
    assert(s[13] == (10usize, 5usize));
    assert(s[14] == (11usize, 3usize));
    assert(s[15] == (12usize, 8usize));
    lemma_names();
}

}
