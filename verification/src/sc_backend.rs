//! The simulation controller: it changes the network while it runs, and refuses
//! changes that would break it.
use crate::adjacency::{
    has_link, ids_where, leads, lemma_ids_where, lists, marks_from, with_link, without_both,
    Adjacency, Links,
};
use crate::channels::SharedSenders;
use crate::client1::with_neighbour;
use crate::config::{
    entry_ids, find_entry, first_index, has_entry, ids_in_order, ConfigView, EntryView,
    ParsedConfig,
};
use crate::config_check::about_two;
use crate::packet::{has_id, NodeId, NodeType};
use crate::reach::ID_COUNT;
use crate::text::{decimal, id_text, join3};
use crate::topology::how_many;
use vstd::prelude::*;

verus! {

/// A command for a drone. A new neighbour comes with a channel, which is told by the
/// node that it leads from and the node that it leads to.
#[derive(Clone, Copy, PartialEq, Eq, Structural, Debug)]
pub enum Command {
    AddSender(NodeId, NodeId, NodeId),
    RemoveSender(NodeId),
    Crash,
}

/// A command with the drone that it is for.
#[derive(Clone, Copy, PartialEq, Eq, Structural, Debug)]
pub struct Order {
    pub to: NodeId,
    pub command: Command,
}

/// Why a change was refused.
#[derive(Clone, Copy, PartialEq, Eq, Structural, Debug)]
pub enum ControlError {
    AlreadyInactive(NodeId),
    NotFound(NodeId),
    CrashForbidden,
    NoLink(NodeId, NodeId),
    NotInGraph(NodeId),
    RemovalForbidden,
    NoCommandSender(NodeId),
    NoPacketSender(NodeId),
    ClientFull,
    IdTaken,
    ConnectionMissing(NodeId),
    ClientFullFor(NodeId, NodeId),
    DroneNotFound,
}

fn about(before: &str, id: NodeId, after: &str) -> (r: String)
    ensures
        r@ == before@ + decimal(id as nat) + after@,
{
    join3(before, id_text(id).as_str(), after)
}

fn about_both(before: &str, a: NodeId, between: &str, b: NodeId, after: &str) -> (r: String)
    ensures
        r@ == about_two(before@, a, between@, b, after@),
{
    let first: String = join3(before, id_text(a).as_str(), between);
    join3(first.as_str(), id_text(b).as_str(), after)
}

impl ControlError {
    /// The refusal in words.
    pub open spec fn words(self) -> Seq<char> {
        match self {
            ControlError::AlreadyInactive(id) => "Drone "@ + decimal(id as nat)
                + " is already inactive"@,
            ControlError::NotFound(id) => "Drone "@ + decimal(id as nat) + " not found"@,
            ControlError::CrashForbidden => "Crashing this drone would violate network constraints"@,
            ControlError::NoLink(a, b) => about_two(
                "No link exists between nodes "@,
                a,
                " and "@,
                b,
                ""@,
            ),
            ControlError::NotInGraph(id) => "Node "@ + decimal(id as nat)
                + " not found in network graph"@,
            ControlError::RemovalForbidden => "Removing this link would violate network constraints"@,
            ControlError::NoCommandSender(id) => "No command sender for node "@ + decimal(id as nat)
                + ""@,
            ControlError::NoPacketSender(id) => "No packet sender for node "@ + decimal(id as nat)
                + ""@,
            ControlError::ClientFull => "Client connection constraint violated"@,
            ControlError::IdTaken => "Drone ID already exists"@,
            ControlError::ConnectionMissing(id) => "Connection node "@ + decimal(id as nat)
                + " does not exist"@,
            ControlError::ClientFullFor(c, d) => about_two(
                "Client "@,
                c,
                " already has 2 drone connections. Cannot connect new drone "@,
                d,
                "."@,
            ),
            ControlError::DroneNotFound => "Drone not found"@,
        }
    }

    /// The refusal in words.
    pub fn message(&self) -> (r: String)
        ensures
            r@ == self.words(),
    {
        match *self {
            ControlError::AlreadyInactive(id) => about("Drone ", id, " is already inactive"),
            ControlError::NotFound(id) => about("Drone ", id, " not found"),
            ControlError::CrashForbidden => "Crashing this drone would violate network constraints".to_owned(),
            ControlError::NoLink(a, b) => about_both(
                "No link exists between nodes ",
                a,
                " and ",
                b,
                "",
            ),
            ControlError::NotInGraph(id) => about("Node ", id, " not found in network graph"),
            ControlError::RemovalForbidden => "Removing this link would violate network constraints".to_owned(),
            ControlError::NoCommandSender(id) => about("No command sender for node ", id, ""),
            ControlError::NoPacketSender(id) => about("No packet sender for node ", id, ""),
            ControlError::ClientFull => "Client connection constraint violated".to_owned(),
            ControlError::IdTaken => "Drone ID already exists".to_owned(),
            ControlError::ConnectionMissing(id) => about("Connection node ", id, " does not exist"),
            ControlError::ClientFullFor(c, d) => about_both(
                "Client ",
                c,
                " already has 2 drone connections. Cannot connect new drone ",
                d,
                ".",
            ),
            ControlError::DroneNotFound => "Drone not found".to_owned(),
        }
    }
}

/// The bits of the drop rate of nodes that are no drones, which is one.
pub const FULL_RATE: u32 = 0x3f80_0000;

/// What the controller knows of a node; the drop rate is kept by the bits of its
/// floating-point number.
#[derive(Clone, Copy, PartialEq, Eq, Structural, Debug)]
pub struct NodeState {
    pub id: NodeId,
    pub node_type: NodeType,
    pub pdr: u32,
    pub active: bool,
}

#[verifier::ext_equal]
pub struct ControllerView {
    pub config: ConfigView,
    pub graph: Links,
    pub commands: Seq<NodeId>,
    pub packets: Links,
    pub shared: Set<(NodeId, NodeId)>,
    pub hosts: Seq<NodeId>,
}

/// The links of the drones: those of the last one with an id count.
pub open spec fn drone_rows(s: Seq<EntryView>) -> Links
    decreases s.len(),
{
    if s.len() == 0 {
        Map::empty()
    } else {
        drone_rows(s.drop_last()).insert(s.last().id, s.last().links.to_set())
    }
}

/// `m` with a link from each node of a list to `id`.
pub open spec fn linked_back(m: Links, links: Seq<NodeId>, id: NodeId) -> Links
    decreases links.len(),
{
    if links.len() == 0 {
        m
    } else {
        with_link(linked_back(m, links.drop_last(), id), links.last(), id)
    }
}

/// `m` with the links of hosts and their reverses.
pub open spec fn host_rows(m: Links, s: Seq<EntryView>) -> Links
    decreases s.len(),
{
    if s.len() == 0 {
        m
    } else {
        let e = s.last();
        linked_back(host_rows(m, s.drop_last()), e.links, e.id).insert(e.id, e.links.to_set())
    }
}

/// The links of a network.
pub open spec fn network_links(c: ConfigView) -> Links {
    host_rows(host_rows(drone_rows(c.drone), c.client), c.server)
}

/// One step along a link to a node that is there and not left out. Where there is a
/// target, the step leads to it or to a drone.
pub open spec fn step_within(
    c: ConfigView,
    g: Links,
    target: Option<NodeId>,
    without: Option<NodeId>,
) -> spec_fn(NodeId, NodeId) -> bool {
    |a: NodeId, b: NodeId|
        {
            &&& has_link(g, a, b)
            &&& Some(b) != without
            &&& g.contains_key(b)
            &&& target is None || target == Some(b) || c.node_type(b) == Some(NodeType::Drone)
        }
}

/// The drones that a node is linked to; `inside` asks that the network has them.
pub open spec fn drone_of(c: ConfigView, g: Links, id: NodeId, inside: bool) -> spec_fn(
    NodeId,
) -> bool {
    |d: NodeId|
        {
            &&& has_link(g, id, d)
            &&& !inside || g.contains_key(d)
            &&& c.node_type(d) == Some(NodeType::Drone)
        }
}

impl ControllerView {
    /// No drone is listed twice.
    pub open spec fn wf(self) -> bool {
        self.commands.no_duplicates()
    }

    /// A node that has been configured and is in the network.
    pub open spec fn active(self, id: NodeId) -> bool {
        self.config.node_type(id) is Some && self.graph.contains_key(id)
    }

    /// What is known of a node.
    pub open spec fn state_of(self, id: NodeId) -> Option<NodeState> {
        match self.config.node_type(id) {
            Some(t) => Some(
                NodeState {
                    id,
                    node_type: t,
                    pdr: if t == NodeType::Drone {
                        self.config.drone[first_index(self.config.drone, id)].pdr
                    } else {
                        FULL_RATE
                    },
                    active: self.graph.contains_key(id),
                },
            ),
            None => None,
        }
    }

    /// Links through drones lead from one node to another.
    pub open spec fn can_reach(
        self,
        g: Links,
        from: NodeId,
        to: NodeId,
        without: Option<NodeId>,
    ) -> bool {
        from == to || (g.contains_key(from) && g.contains_key(to) && leads(
            step_within(self.config, g, Some(to), without),
            from,
            to,
        ))
    }

    /// The number of drones of the network that a node is linked to.
    pub open spec fn drones_at(self, g: Links, id: NodeId) -> nat {
        how_many(drone_of(self.config, g, id, true), ID_COUNT as int)
    }

    /// Every server is linked to two drones or more.
    pub open spec fn servers_served(self, g: Links) -> bool {
        forall|s: NodeId| #[trigger]
            entry_ids(self.config.server).contains(s) ==> self.drones_at(g, s) >= 2
    }

    /// A node takes part in a network.
    pub open spec fn takes_part(self, g: Links, id: NodeId, without: Option<NodeId>) -> bool {
        Some(id) != without && g.contains_key(id)
    }

    /// A client and a server reach each other.
    pub open spec fn pair_joined(
        self,
        g: Links,
        c: NodeId,
        s: NodeId,
        without: Option<NodeId>,
    ) -> bool {
        self.takes_part(g, c, without) && self.takes_part(g, s, without) ==> self.can_reach(
            g,
            c,
            s,
            without,
        ) && self.can_reach(g, s, c, without)
    }

    /// Every client and every server that take part reach each other.
    pub open spec fn all_mutual(self, g: Links, without: Option<NodeId>) -> bool {
        forall|c: NodeId, s: NodeId|
            entry_ids(self.config.client).contains(c) && entry_ids(self.config.server).contains(s)
                ==> #[trigger] self.pair_joined(g, c, s, without)
    }

    /// As many nodes are reached from `start` as are active.
    pub open spec fn connected_from(self, g: Links, start: NodeId, without: Option<NodeId>) -> bool {
        how_many(
            |x: NodeId| leads(step_within(self.config, g, None, without), start, x),
            ID_COUNT as int,
        ) == how_many(
            |x: NodeId| self.takes_part(g, x, without) && self.active(x),
            ID_COUNT as int,
        )
    }

    /// `ok` says whether the network is in one piece, as seen from some node of it.
    pub open spec fn connected(self, g: Links, without: Option<NodeId>, ok: bool) -> bool {
        if exists|x: NodeId| #[trigger] self.takes_part(g, x, without) {
            exists|start: NodeId| #[trigger]
                self.takes_part(g, start, without) && ok == self.connected_from(g, start, without)
        } else {
            ok
        }
    }

    /// `ok` says whether a network is valid.
    pub open spec fn valid(self, g: Links, without: Option<NodeId>, ok: bool) -> bool {
        if self.servers_served(g) && self.all_mutual(g, without) {
            self.connected(g, without, ok)
        } else {
            !ok
        }
    }

    /// `ok` says whether the network stays valid without a node.
    pub open spec fn crash_allowed(self, id: NodeId, ok: bool) -> bool {
        self.valid(self.graph.remove(id), Some(id), ok)
    }

    /// `ok` says whether the network stays valid without a link.
    pub open spec fn removal_allowed(self, a: NodeId, b: NodeId, ok: bool) -> bool {
        self.valid(without_both(self.graph, a, b), None, ok)
    }

    /// The number of drones that a client is linked to.
    pub open spec fn client_drones(self, id: NodeId) -> nat {
        how_many(drone_of(self.config, self.graph, id, false), ID_COUNT as int)
    }
}

/// The simulation controller.
#[derive(Debug)]
pub struct SimulationController {
    pub config: ParsedConfig,
    pub network_graph: Adjacency,
    pub command_senders: Vec<NodeId>,
    pub packet_senders: Adjacency,
    pub shared_senders: SharedSenders,
    pub host_senders: Vec<NodeId>,
}

impl View for SimulationController {
    type V = ControllerView;

    open spec fn view(&self) -> ControllerView {
        ControllerView {
            config: self.config@,
            graph: self.network_graph@,
            commands: self.command_senders@,
            packets: self.packet_senders@,
            shared: self.shared_senders@,
            hosts: self.host_senders@,
        }
    }
}

impl SimulationController {
    /// The tables are complete, and no drone is listed twice.
    pub open spec fn wf(&self) -> bool {
        self.network_graph.wf() && self.packet_senders.wf() && self@.wf()
    }
}

/// Counts the ids that are marked.
fn count(v: &Vec<bool>, Ghost(p): Ghost<spec_fn(NodeId) -> bool>) -> (r: usize)
    requires
        v@.len() == ID_COUNT,
        forall|x: NodeId| #[trigger] v@[x as int] == p(x),
    ensures
        r == how_many(p, ID_COUNT as int),
{
    let mut n: usize = 0;
    let mut i: usize = 0;
    while i < ID_COUNT
        invariant
            i <= ID_COUNT,
            n <= i,
            v@.len() == ID_COUNT,
            forall|x: NodeId| #[trigger] v@[x as int] == p(x),
            n == how_many(p, i as int),
        decreases ID_COUNT - i,
    {
        let id: NodeId = i as NodeId;
        assert(v@[id as int] == p(id));
        if v[i] {
            n = n + 1;
        }
        i = i + 1;
    }
    n
}

/// Fills the graph with the links of a network.
fn links_of(config: &ParsedConfig) -> (r: Adjacency)
    ensures
        r.wf(),
        r@ == network_links(config@),
{
    let ghost c = config@;
    let mut g: Adjacency = Adjacency::new();
    let mut i: usize = 0;
    assert(c.drone.subrange(0, 0) =~= Seq::empty());
    while i < config.drone.len()
        invariant
            i <= config.drone@.len(),
            c == config@,
            g.wf(),
            g@ == drone_rows(c.drone.subrange(0, i as int)),
        decreases config.drone@.len() - i,
    {
        proof {
            let t = c.drone.subrange(0, i + 1);
            assert(t.drop_last() =~= c.drone.subrange(0, i as int));
            assert(t.last() == config.drone@[i as int]@);
        }
        g.put(config.drone[i].id, &config.drone[i].connected_node_ids);
        i = i + 1;
    }
    assert(c.drone.subrange(0, i as int) =~= c.drone);
    let mut j: usize = 0;
    assert(c.client.subrange(0, 0) =~= Seq::empty());
    while j < config.client.len()
        invariant
            j <= config.client@.len(),
            c == config@,
            g.wf(),
            g@ == host_rows(drone_rows(c.drone), c.client.subrange(0, j as int)),
        decreases config.client@.len() - j,
    {
        proof {
            let t = c.client.subrange(0, j + 1);
            assert(t.drop_last() =~= c.client.subrange(0, j as int));
            assert(t.last() == config.client@[j as int]@);
        }
        link_host(&mut g, config.client[j].id, &config.client[j].connected_drone_ids);
        j = j + 1;
    }
    assert(c.client.subrange(0, j as int) =~= c.client);
    let mut k: usize = 0;
    assert(c.server.subrange(0, 0) =~= Seq::empty());
    while k < config.server.len()
        invariant
            k <= config.server@.len(),
            c == config@,
            g.wf(),
            g@ == host_rows(
                host_rows(drone_rows(c.drone), c.client),
                c.server.subrange(0, k as int),
            ),
        decreases config.server@.len() - k,
    {
        proof {
            let t = c.server.subrange(0, k + 1);
            assert(t.drop_last() =~= c.server.subrange(0, k as int));
            assert(t.last() == config.server@[k as int]@);
        }
        link_host(&mut g, config.server[k].id, &config.server[k].connected_drone_ids);
        k = k + 1;
    }
    assert(c.server.subrange(0, k as int) =~= c.server);
    g
}

fn link_host(g: &mut Adjacency, id: NodeId, links: &Vec<NodeId>)
    requires
        old(g).wf(),
    ensures
        final(g).wf(),
        final(g)@ == linked_back(old(g)@, links@, id).insert(id, links@.to_set()),
{
    let ghost m = g@;
    let mut i: usize = 0;
    assert(links@.subrange(0, 0) =~= Seq::empty());
    while i < links.len()
        invariant
            i <= links@.len(),
            g.wf(),
            g@ == linked_back(m, links@.subrange(0, i as int), id),
        decreases links@.len() - i,
    {
        proof {
            let t = links@.subrange(0, i + 1);
            assert(t.drop_last() =~= links@.subrange(0, i as int));
            assert(t.last() == links@[i as int]);
        }
        g.add_link(links[i], id);
        i = i + 1;
    }
    assert(links@.subrange(0, i as int) =~= links@);
    g.put(id, links);
}

/// `a` comes before `b`, row by row.
spec fn before(x: NodeId, y: NodeId, a: int, b: int) -> bool {
    x < a || (x == a && y < b)
}

impl SimulationController {
    /// A controller for a network whose channels have been set up: every node has
    /// channels to its neighbours, and every drone takes commands.
    pub fn new(
        config: ParsedConfig,
        command_senders: Vec<NodeId>,
        packet_senders: Adjacency,
        shared_senders: SharedSenders,
        host_senders: Vec<NodeId>,
    ) -> (r: Self)
        requires
            packet_senders.wf(),
            command_senders@.no_duplicates(),
        ensures
            r.wf(),
            r@ == (ControllerView {
                config: config@,
                graph: network_links(config@),
                commands: command_senders@,
                packets: packet_senders@,
                shared: shared_senders@,
                hosts: host_senders@,
            }),
    {
        let network_graph: Adjacency = links_of(&config);
        SimulationController {
            config,
            network_graph,
            command_senders,
            packet_senders,
            shared_senders,
            host_senders,
        }
    }

    /// The role of a node.
    pub fn get_node_type(&self, id: NodeId) -> (r: Option<NodeType>)
        ensures
            r == self@.config.node_type(id),
    {
        self.config.node_type(id)
    }

    /// Whether a node is a drone.
    fn is_drone(&self, id: NodeId) -> (r: bool)
        ensures
            r == (self@.config.node_type(id) == Some(NodeType::Drone)),
    {
        has_entry(&self.config.drone, id)
    }

    /// The drones.
    pub fn get_all_drone_ids(&self) -> (r: Vec<NodeId>)
        ensures
            r@ == entry_ids(self@.config.drone),
    {
        ids_in_order(&self.config.drone)
    }

    /// The clients.
    pub fn get_all_client_ids(&self) -> (r: Vec<NodeId>)
        ensures
            r@ == entry_ids(self@.config.client),
    {
        ids_in_order(&self.config.client)
    }

    /// The servers.
    pub fn get_all_server_ids(&self) -> (r: Vec<NodeId>)
        ensures
            r@ == entry_ids(self@.config.server),
    {
        ids_in_order(&self.config.server)
    }

    /// What is known of a node.
    pub fn get_node_state(&self, node_id: NodeId) -> (r: Option<NodeState>)
        requires
            self.wf(),
        ensures
            r == self@.state_of(node_id),
    {
        let active: bool = self.network_graph.contains_key(node_id);
        if let Some(k) = find_entry(&self.config.drone, node_id) {
            assert(self@.config.drone[k as int] == self.config.drone@[k as int]@);
            return Some(
                NodeState {
                    id: node_id,
                    node_type: NodeType::Drone,
                    pdr: self.config.drone[k].pdr,
                    active,
                },
            );
        }
        match self.config.node_type(node_id) {
            Some(node_type) => Some(NodeState { id: node_id, node_type, pdr: FULL_RATE, active }),
            None => None,
        }
    }

    /// Whether a channel leads from one node to another.
    pub fn get_packet_sender(&self, from: NodeId, to: NodeId) -> (r: bool)
        requires
            self.wf(),
        ensures
            r == has_link(self@.packets, from, to),
    {
        self.packet_senders.linked(from, to)
    }

    /// Makes a node take commands.
    pub fn register_command_sender(&mut self, node_id: NodeId)
        requires
            old(self).wf(),
        ensures
            final(self).wf(),
            final(self)@ == (ControllerView {
                commands: with_neighbour(old(self)@.commands, node_id),
                ..old(self)@
            }),
    {
        if !has_id(&self.command_senders, node_id) {
            self.command_senders.push(node_id);
        }
        assert(self@ =~= ControllerView {
            commands: with_neighbour(old(self)@.commands, node_id),
            ..old(self)@
        });
    }

    /// Adds a channel.
    pub fn register_packet_sender(&mut self, from: NodeId, to: NodeId)
        requires
            old(self).wf(),
        ensures
            final(self).wf(),
            final(self)@ == (ControllerView {
                packets: with_link(old(self)@.packets, from, to),
                ..old(self)@
            }),
    {
        self.packet_senders.add_link(from, to);
    }

    /// The nodes that have channels.
    pub fn registered_nodes(&self) -> (r: Vec<NodeId>)
        requires
            self.wf(),
        ensures
            r@.no_duplicates(),
            forall|id: NodeId| #[trigger] r@.contains(id) <==> self@.packets.contains_key(id),
    {
        let ghost p = |id: NodeId| self@.packets.contains_key(id);
        let mut r: Vec<NodeId> = Vec::new();
        let mut i: usize = 0;
        while i < ID_COUNT
            invariant
                i <= ID_COUNT,
                self.wf(),
                p == (|id: NodeId| self@.packets.contains_key(id)),
                r@ == ids_where(p, i as int),
            decreases ID_COUNT - i,
        {
            if self.packet_senders.contains_key(i as NodeId) {
                r.push(i as NodeId);
            }
            i = i + 1;
        }
        proof {
            lemma_ids_where(p, ID_COUNT as int);
            assert forall|id: NodeId| #[trigger] r@.contains(id) <==> self@.packets.contains_key(id) by {
                assert(p(id) == self@.packets.contains_key(id));
            }
        }
        r
    }

    /// The steps within a network.
    fn list_steps(&self, g: &Adjacency, target: Option<NodeId>, without: Option<NodeId>) -> (r: Vec<
        (NodeId, NodeId),
    >)
        requires
            g.wf(),
        ensures
            lists(r@, step_within(self@.config, g@, target, without)),
    {
        let ghost step = step_within(self@.config, g@, target, without);
        let mut r: Vec<(NodeId, NodeId)> = Vec::new();
        let mut b: usize = 0;
        while b < ID_COUNT
            invariant
                b <= ID_COUNT,
                g.wf(),
                step == step_within(self@.config, g@, target, without),
                forall|x: NodeId, y: NodeId| #[trigger]
                    r@.contains((x, y)) <==> y < b && step(x, y),
            decreases ID_COUNT - b,
        {
            let to: NodeId = b as NodeId;
            let left_out: bool = match without {
                Some(w) => w == to,
                None => false,
            };
            let open: bool = match target {
                Some(t) => t == to || self.is_drone(to),
                None => true,
            };
            let ok: bool = !left_out && open && g.contains_key(to);
            let mut a: usize = 0;
            while a < ID_COUNT
                invariant
                    a <= ID_COUNT,
                    b < ID_COUNT,
                    to == b,
                    g.wf(),
                    step == step_within(self@.config, g@, target, without),
                    ok == (Some(to) != without && g@.contains_key(to) && (target is None || target
                        == Some(to) || self@.config.node_type(to) == Some(NodeType::Drone))),
                    forall|x: NodeId, y: NodeId| #[trigger]
                        r@.contains((x, y)) <==> (y < b || (y == b && x < a)) && step(x, y),
                decreases ID_COUNT - a,
            {
                let from: NodeId = a as NodeId;
                let ghost mid = r@;
                if ok && g.linked(from, to) {
                    assert(step(from, to));
                    r.push((from, to));
                    assert(r@[mid.len() as int] == (from, to));
                } else {
                    assert(!step(from, to));
                }
                proof {
                    assert forall|x: NodeId, y: NodeId| #[trigger] r@.contains((x, y)) <==> (y < b
                        || (y == b && x < a + 1)) && step(x, y) by {
                        if mid.contains((x, y)) {
                            let k = mid.index_of((x, y));
                            assert(r@[k] == (x, y));
                        }
                        if r@.contains((x, y)) && (x, y) != (from, to) {
                            let k = r@.index_of((x, y));
                            assert(mid[k] == (x, y));
                        }
                    }
                }
                a = a + 1;
            }
            b = b + 1;
        }
        r
    }

    /// Whether links through drones lead from one node to another.
    pub fn can_reach(
        &self,
        graph: &Adjacency,
        from: NodeId,
        to: NodeId,
        excluded_node: Option<NodeId>,
    ) -> (r: bool)
        requires
            graph.wf(),
        ensures
            r == self@.can_reach(graph@, from, to, excluded_node),
    {
        if from == to {
            return true;
        }
        if !graph.contains_key(from) || !graph.contains_key(to) {
            return false;
        }
        let ghost step = step_within(self@.config, graph@, Some(to), excluded_node);
        let links: Vec<(NodeId, NodeId)> = self.list_steps(graph, Some(to), excluded_node);
        let marks: Vec<bool> = marks_from(&links, from, Ghost(step));
        assert(marks@[to as int] == leads(step, from, to));
        marks[to as usize]
    }

    /// The number of drones that a node is linked to; `inside` asks that the network
    /// has them.
    fn count_drones(&self, graph: &Adjacency, id: NodeId, inside: bool) -> (r: usize)
        requires
            graph.wf(),
        ensures
            r == how_many(drone_of(self@.config, graph@, id, inside), ID_COUNT as int),
    {
        let ghost p = drone_of(self@.config, graph@, id, inside);
        let mut marks: Vec<bool> = Vec::new();
        let mut i: usize = 0;
        while i < ID_COUNT
            invariant
                i <= ID_COUNT,
                graph.wf(),
                marks@.len() == i,
                p == drone_of(self@.config, graph@, id, inside),
                forall|x: NodeId| x < i ==> #[trigger] marks@[x as int] == p(x),
            decreases ID_COUNT - i,
        {
            let d: NodeId = i as NodeId;
            marks.push(
                graph.linked(id, d) && (!inside || graph.contains_key(d)) && self.is_drone(d),
            );
            i = i + 1;
        }
        count(&marks, Ghost(p))
    }

    /// The number of drones that a client is linked to.
    pub fn count_client_drones(&self, id: NodeId) -> (r: usize)
        requires
            self.wf(),
        ensures
            r == self@.client_drones(id),
    {
        self.count_drones(&self.network_graph, id, false)
    }

    /// Whether every server is linked to two drones or more.
    fn all_servers_served(&self, graph: &Adjacency) -> (r: bool)
        requires
            graph.wf(),
        ensures
            r == self@.servers_served(graph@),
    {
        let ids: Vec<NodeId> = self.get_all_server_ids();
        let mut i: usize = 0;
        while i < ids.len()
            invariant
                i <= ids@.len(),
                graph.wf(),
                ids@ == entry_ids(self@.config.server),
                forall|j: int| 0 <= j < i ==> self@.drones_at(graph@, #[trigger] ids@[j]) >= 2,
            decreases ids@.len() - i,
        {
            let n: usize = self.count_drones(graph, ids[i], true);
            if n < 2 {
                assert(entry_ids(self@.config.server).contains(ids@[i as int]));
                return false;
            }
            i = i + 1;
        }
        assert forall|s: NodeId| #[trigger] entry_ids(self@.config.server).contains(s) implies self@.drones_at(
            graph@,
            s,
        ) >= 2 by {
            let k = ids@.index_of(s);
            assert(ids@[k] == s);
        }
        true
    }

    /// Whether every client and every server that take part reach each other.
    pub fn all_clients_and_servers_mutually_reachable(
        &self,
        graph: &Adjacency,
        excluded_node: Option<NodeId>,
    ) -> (r: bool)
        requires
            graph.wf(),
        ensures
            r == self@.all_mutual(graph@, excluded_node),
    {
        let clients: Vec<NodeId> = self.get_all_client_ids();
        let servers: Vec<NodeId> = self.get_all_server_ids();
        let mut i: usize = 0;
        while i < clients.len()
            invariant
                i <= clients@.len(),
                graph.wf(),
                clients@ == entry_ids(self@.config.client),
                servers@ == entry_ids(self@.config.server),
                forall|j: int, k: int|
                    0 <= j < i && 0 <= k < servers@.len() ==> #[trigger] self@.pair_joined(
                        graph@,
                        clients@[j],
                        servers@[k],
                        excluded_node,
                    ),
            decreases clients@.len() - i,
        {
            let c: NodeId = clients[i];
            let client_in: bool = self.is_in(graph, c, excluded_node);
            let mut k: usize = 0;
            while k < servers.len()
                invariant
                    i < clients@.len(),
                    k <= servers@.len(),
                    c == clients@[i as int],
                    graph.wf(),
                    client_in == self@.takes_part(graph@, c, excluded_node),
                    clients@ == entry_ids(self@.config.client),
                    servers@ == entry_ids(self@.config.server),
                    forall|m: int|
                        0 <= m < k ==> #[trigger] self@.pair_joined(
                            graph@,
                            c,
                            servers@[m],
                            excluded_node,
                        ),
                decreases servers@.len() - k,
            {
                let s: NodeId = servers[k];
                if client_in && self.is_in(graph, s, excluded_node) {
                    if !self.can_reach(graph, c, s, excluded_node) || !self.can_reach(
                        graph,
                        s,
                        c,
                        excluded_node,
                    ) {
                        assert(entry_ids(self@.config.client).contains(clients@[i as int]));
                        assert(entry_ids(self@.config.server).contains(servers@[k as int]));
                        assert(!self@.pair_joined(graph@, c, s, excluded_node));
                        return false;
                    }
                }
                k = k + 1;
            }
            i = i + 1;
        }
        assert forall|c: NodeId, s: NodeId|
            entry_ids(self@.config.client).contains(c) && entry_ids(self@.config.server).contains(
                s,
            ) implies #[trigger] self@.pair_joined(graph@, c, s, excluded_node) by {
            let j = clients@.index_of(c);
            let k = servers@.index_of(s);
            assert(clients@[j] == c && servers@[k] == s);
        }
        true
    }

    fn is_in(&self, graph: &Adjacency, id: NodeId, without: Option<NodeId>) -> (r: bool)
        requires
            graph.wf(),
        ensures
            r == self@.takes_part(graph@, id, without),
    {
        let left_out: bool = match without {
            Some(w) => w == id,
            None => false,
        };
        !left_out && graph.contains_key(id)
    }

    /// Whether as many nodes are reached from `start` as are active.
    pub fn is_connected_from(
        &self,
        graph: &Adjacency,
        start: NodeId,
        excluded_node: Option<NodeId>,
    ) -> (r: bool)
        requires
            self.wf(),
            graph.wf(),
        ensures
            r == self@.connected_from(graph@, start, excluded_node),
    {
        let ghost step = step_within(self@.config, graph@, None, excluded_node);
        let ghost p = |x: NodeId| leads(step, start, x);
        let ghost q = |x: NodeId| self@.takes_part(graph@, x, excluded_node) && self@.active(x);
        let links: Vec<(NodeId, NodeId)> = self.list_steps(graph, None, excluded_node);
        let reached: Vec<bool> = marks_from(&links, start, Ghost(step));
        let mut active: Vec<bool> = Vec::new();
        let mut i: usize = 0;
        while i < ID_COUNT
            invariant
                i <= ID_COUNT,
                self.wf(),
                graph.wf(),
                active@.len() == i,
                q == (|x: NodeId|
                    self@.takes_part(graph@, x, excluded_node) && self@.active(x)),
                forall|x: NodeId| x < i ==> #[trigger] active@[x as int] == q(x),
            decreases ID_COUNT - i,
        {
            let x: NodeId = i as NodeId;
            active.push(
                self.is_in(graph, x, excluded_node) && self.config.node_type(x).is_some()
                    && self.network_graph.contains_key(x),
            );
            i = i + 1;
        }
        proof {
            lemma_same_count(
                p,
                |x: NodeId|
                    leads(step_within(self@.config, graph@, None, excluded_node), start, x),
                ID_COUNT as int,
            );
        }
        let a: usize = count(&reached, Ghost(p));
        let b: usize = count(&active, Ghost(q));
        a == b
    }

    /// Whether the network is in one piece, as seen from some node of it.
    pub fn is_connected(&self, graph: &Adjacency, excluded_node: Option<NodeId>) -> (r: bool)
        requires
            self.wf(),
            graph.wf(),
        ensures
            self@.connected(graph@, excluded_node, r),
    {
        let mut i: usize = 0;
        while i < ID_COUNT
            invariant
                i <= ID_COUNT,
                self.wf(),
                graph.wf(),
                forall|x: NodeId| x < i ==> !(#[trigger] self@.takes_part(graph@, x, excluded_node)),
            decreases ID_COUNT - i,
        {
            let start: NodeId = i as NodeId;
            if self.is_in(graph, start, excluded_node) {
                assert(self@.takes_part(graph@, start, excluded_node));
                return self.is_connected_from(graph, start, excluded_node);
            }
            i = i + 1;
        }
        true
    }

    /// Whether a network is valid.
    fn is_topology_valid(&self, graph: &Adjacency, excluded_node: Option<NodeId>) -> (r: bool)
        requires
            self.wf(),
            graph.wf(),
        ensures
            self@.valid(graph@, excluded_node, r),
    {
        if !self.all_servers_served(graph) {
            return false;
        }
        if !self.all_clients_and_servers_mutually_reachable(graph, excluded_node) {
            return false;
        }
        self.is_connected(graph, excluded_node)
    }

    /// Whether the network stays valid without a node.
    pub fn is_crash_allowed(&self, crashing_node: NodeId) -> (r: bool)
        requires
            self.wf(),
        ensures
            self@.crash_allowed(crashing_node, r),
    {
        let mut test_graph: Adjacency = self.network_graph.duplicate();
        test_graph.remove_key(crashing_node);
        self.is_topology_valid(&test_graph, Some(crashing_node))
    }

    /// Whether the network stays valid without a link.
    pub fn is_removal_allowed(&self, node_a: NodeId, node_b: NodeId) -> (r: bool)
        requires
            self.wf(),
        ensures
            self@.removal_allowed(node_a, node_b, r),
    {
        let mut test_graph: Adjacency = self.network_graph.duplicate();
        test_graph.remove_link(node_a, node_b);
        test_graph.remove_link(node_b, node_a);
        self.is_topology_valid(&test_graph, None)
    }

    /// The servers that links lead to from a node.
    pub fn bfs_reachable_servers(&self, start_id: NodeId, graph: &Adjacency) -> (r: Vec<NodeId>)
        requires
            graph.wf(),
        ensures
            r@.no_duplicates(),
            forall|s: NodeId| #[trigger]
                r@.contains(s) <==> self@.config.node_type(s) == Some(NodeType::Server)
                    && graph@.contains_key(s) && leads(
                    |a: NodeId, b: NodeId| has_link(graph@, a, b),
                    start_id,
                    s,
                ),
    {
        let ghost step = |a: NodeId, b: NodeId| has_link(graph@, a, b);
        let mut links: Vec<(NodeId, NodeId)> = Vec::new();
        let mut a: usize = 0;
        while a < ID_COUNT
            invariant
                a <= ID_COUNT,
                graph.wf(),
                step == (|a: NodeId, b: NodeId| has_link(graph@, a, b)),
                forall|x: NodeId, y: NodeId| #[trigger]
                    links@.contains((x, y)) <==> x < a && step(x, y),
            decreases ID_COUNT - a,
        {
            let mut b: usize = 0;
            while b < ID_COUNT
                invariant
                    a < ID_COUNT,
                    b <= ID_COUNT,
                    graph.wf(),
                    step == (|a: NodeId, b: NodeId| has_link(graph@, a, b)),
                    forall|x: NodeId, y: NodeId| #[trigger]
                        links@.contains((x, y)) <==> (x < a || (x == a && y < b)) && step(x, y),
                decreases ID_COUNT - b,
            {
                let from: NodeId = a as NodeId;
                let to: NodeId = b as NodeId;
                let ghost mid = links@;
                if graph.linked(from, to) {
                    assert(step(from, to));
                    links.push((from, to));
                    assert(links@[mid.len() as int] == (from, to));
                } else {
                    assert(!step(from, to));
                }
                proof {
                    assert forall|x: NodeId, y: NodeId| #[trigger] links@.contains((x, y)) <==> (x
                        < a || (x == a && y < b + 1)) && step(x, y) by {
                        if mid.contains((x, y)) {
                            let k = mid.index_of((x, y));
                            assert(links@[k] == (x, y));
                        }
                        if links@.contains((x, y)) && (x, y) != (from, to) {
                            let k = links@.index_of((x, y));
                            assert(mid[k] == (x, y));
                        }
                    }
                }
                b = b + 1;
            }
            a = a + 1;
        }
        let marks: Vec<bool> = marks_from(&links, start_id, Ghost(step));
        let ghost p = |s: NodeId|
            self@.config.node_type(s) == Some(NodeType::Server) && graph@.contains_key(s) && leads(
                step,
                start_id,
                s,
            );
        let mut r: Vec<NodeId> = Vec::new();
        let mut i: usize = 0;
        while i < ID_COUNT
            invariant
                i <= ID_COUNT,
                graph.wf(),
                marks@.len() == ID_COUNT,
                forall|x: NodeId| #[trigger] marks@[x as int] == leads(step, start_id, x),
                p == (|s: NodeId|
                    self@.config.node_type(s) == Some(NodeType::Server) && graph@.contains_key(s)
                        && leads(step, start_id, s)),
                r@ == ids_where(p, i as int),
            decreases ID_COUNT - i,
        {
            let s: NodeId = i as NodeId;
            assert(marks@[s as int] == leads(step, start_id, s));
            let server: bool = match self.config.node_type(s) {
                Some(t) => t == NodeType::Server,
                None => false,
            };
            if server && marks[i] && graph.contains_key(s) {
                r.push(s);
            }
            i = i + 1;
        }
        proof {
            lemma_ids_where(p, ID_COUNT as int);
            assert forall|s: NodeId| #[trigger] r@.contains(s) <==> self@.config.node_type(s) == Some(
                NodeType::Server,
            ) && graph@.contains_key(s) && leads(
                |a: NodeId, b: NodeId| has_link(graph@, a, b),
                start_id,
                s,
            ) by {
                assert(p(s) == (self@.config.node_type(s) == Some(NodeType::Server)
                    && graph@.contains_key(s) && leads(step, start_id, s)));
            }
        }
        r
    }
}

/// Equal properties hold of equally many ids.
proof fn lemma_same_count(p: spec_fn(NodeId) -> bool, q: spec_fn(NodeId) -> bool, upto: int)
    requires
        0 <= upto <= ID_COUNT,
        forall|x: NodeId| #[trigger] p(x) == q(x),
    ensures
        how_many(p, upto) == how_many(q, upto),
    decreases upto,
{
    if upto > 0 {
        lemma_same_count(p, q, upto - 1);
        assert(p((upto - 1) as NodeId) == q((upto - 1) as NodeId));
    }
}

}
