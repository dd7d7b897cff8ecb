//! Changes that the simulation controller makes to a running network.
use crate::adjacency::{has_link, ids_where, with_both, without_both, Adjacency, Links};
use crate::client1::with_neighbour;
use crate::config::{
    adding, entry_ids, has_entry, lemma_first_index, relinked, ConfigView, EntryView,
};
use crate::gui_queue::{broadcast_to_hosts, GuiQueue};
use crate::packet::{
    has_id, lemma_without_id, remove_id, without_id, HeaderView, NodeId, NodeType, Packet,
    SourceRoutingHeader,
};
use crate::reach::ID_COUNT;
use crate::sc_backend::{
    drone_of, Command, ControlError, ControllerView, NodeState, Order, SimulationController,
};
use crate::server_requests::{id_list_text, ids_text};
use crate::text::{decimal, id_text, join2, join3};
use crate::topology::how_many;
use vstd::prelude::*;

verus! {

/// What a node that has crashed is announced with.
pub open spec fn crash_note(id: NodeId) -> Seq<char> {
    "[FloodRequired]::Crash::"@ + decimal(id as nat)
}

/// What a change of a link is announced with.
pub open spec fn link_note(tag: Seq<char>, a: NodeId, b: NodeId) -> Seq<char> {
    tag + decimal(a as nat) + ("::"@ + decimal(b as nat))
}

/// What a new drone is announced with.
pub open spec fn spawn_note(id: NodeId, connections: Seq<NodeId>) -> Seq<char> {
    "[FloodRequired]::SpawnDrone::"@ + decimal(id as nat) + ("::"@ + ids_text(connections))
}

/// The links without a node and without links between it and the nodes that it was
/// linked to.
pub open spec fn cut_out(g: Links, id: NodeId) -> Links {
    Map::new(
        |x: NodeId| g.contains_key(x) && x != id,
        |x: NodeId|
            if has_link(g, id, x) {
                g[x].remove(id)
            } else {
                g[x]
            },
    )
}

/// The links from the nodes below `upto` to `id` are gone, as far as it is linked to them.
spec fn cut_upto(g: Links, id: NodeId, upto: int) -> Links {
    Map::new(
        |x: NodeId| g.contains_key(x),
        |x: NodeId|
            if has_link(g, id, x) && x < upto {
                g[x].remove(id)
            } else {
                g[x]
            },
    )
}

/// Commands about one neighbour for some drones.
pub open spec fn removals(ids: Seq<NodeId>, gone: NodeId) -> Seq<Order> {
    ids.map_values(|n: NodeId| Order { to: n, command: Command::RemoveSender(gone) })
}

impl ControllerView {
    /// A drone that takes commands.
    pub open spec fn commanded(self, id: NodeId) -> bool {
        self.config.node_type(id) == Some(NodeType::Drone) && self.commands.contains(id)
    }

    /// The drones that a node is linked to and that take commands.
    pub open spec fn told_of(self, id: NodeId) -> spec_fn(NodeId) -> bool {
        |n: NodeId| has_link(self.graph, id, n) && self.commanded(n)
    }

    /// The commands for the crash of a node: the drones around it forget it, and it
    /// crashes.
    pub open spec fn crash_orders(self, id: NodeId) -> Seq<Order> {
        removals(ids_where(self.told_of(id), ID_COUNT as int), id) + (if self.commands.contains(
            id,
        ) {
            seq![Order { to: id, command: Command::Crash }]
        } else {
            Seq::empty()
        })
    }

    /// `r` is the decision on the crash of a node.
    pub open spec fn crash_decided(self, id: NodeId, r: Result<Seq<Order>, ControlError>) -> bool {
        match self.state_of(id) {
            None => r == Err::<Seq<Order>, ControlError>(ControlError::NotFound(id)),
            Some(s) => if !s.active {
                r == Err::<Seq<Order>, ControlError>(ControlError::AlreadyInactive(id))
            } else {
                exists|ok: bool| #[trigger]
                    self.crash_allowed(id, ok) && r == (if ok {
                        Ok::<Seq<Order>, ControlError>(self.crash_orders(id))
                    } else {
                        Err::<Seq<Order>, ControlError>(ControlError::CrashForbidden)
                    })
            },
        }
    }

    /// The controller after the crash of a node.
    pub open spec fn crashed(self, id: NodeId) -> ControllerView {
        ControllerView {
            config: self.config.struck(id),
            graph: cut_out(self.graph, id),
            commands: without_id(self.commands, id),
            packets: self.packets.remove(id),
            shared: self.shared.filter(|k: (NodeId, NodeId)| k.0 != id && k.1 != id),
            ..self
        }
    }

    /// A command for a drone, where it takes commands.
    pub open spec fn order(self, to: NodeId, command: Command) -> Seq<Order> {
        if self.commanded(to) {
            seq![Order { to, command }]
        } else {
            Seq::empty()
        }
    }

    /// `r` is the decision on the removal of a link.
    pub open spec fn removal_decided(
        self,
        a: NodeId,
        b: NodeId,
        r: Result<Seq<Order>, ControlError>,
    ) -> bool {
        if !self.graph.contains_key(a) {
            r == Err::<Seq<Order>, ControlError>(ControlError::NotInGraph(a))
        } else if !self.graph[a].contains(b) {
            r == Err::<Seq<Order>, ControlError>(ControlError::NoLink(a, b))
        } else {
            exists|ok: bool| #[trigger]
                self.removal_allowed(a, b, ok) && r == (if ok {
                    Ok::<Seq<Order>, ControlError>(
                        self.order(a, Command::RemoveSender(b)) + self.order(
                            b,
                            Command::RemoveSender(a),
                        ),
                    )
                } else {
                    Err::<Seq<Order>, ControlError>(ControlError::RemovalForbidden)
                })
        }
    }

    /// The controller after the removal of a link.
    pub open spec fn link_removed(self, a: NodeId, b: NodeId) -> ControllerView {
        ControllerView {
            config: self.config.unlinked(a, b),
            graph: without_both(self.graph, a, b),
            shared: self.shared.remove((a, b)).remove((b, a)),
            ..self
        }
    }

    /// Why a node cannot be linked.
    pub open spec fn unready(self, id: NodeId) -> Option<ControlError> {
        if self.config.node_type(id) == Some(NodeType::Drone) && !self.commands.contains(id) {
            Some(ControlError::NoCommandSender(id))
        } else if !self.packets.contains_key(id) {
            Some(ControlError::NoPacketSender(id))
        } else {
            None
        }
    }

    /// A client that is to be linked to a drone has two drones already.
    pub open spec fn client_full(self, client: NodeId, drone: NodeId) -> bool {
        &&& self.config.node_type(client) == Some(NodeType::Client)
        &&& self.config.node_type(drone) == Some(NodeType::Drone)
        &&& self.client_drones(client) >= 2
    }

    /// Why a link cannot be added.
    pub open spec fn add_fault(self, a: NodeId, b: NodeId) -> Option<ControlError> {
        if self.unready(a) is Some {
            self.unready(a)
        } else if self.unready(b) is Some {
            self.unready(b)
        } else if self.client_full(a, b) || self.client_full(b, a) {
            Some(ControlError::ClientFull)
        } else {
            None
        }
    }

    /// The commands for a new link.
    pub open spec fn link_orders(self, a: NodeId, b: NodeId) -> Seq<Order> {
        self.order(a, Command::AddSender(b, a, b)) + self.order(b, Command::AddSender(a, b, a))
    }

    /// The controller with channels for a new link.
    pub open spec fn channels_added(self, a: NodeId, b: NodeId) -> ControllerView {
        ControllerView { packets: with_both(self.packets, a, b), ..self }
    }

    /// The controller after a link has been added.
    pub open spec fn link_added(self, a: NodeId, b: NodeId) -> ControllerView {
        ControllerView {
            config: connected_in(self.config, a, b),
            graph: with_both(self.graph, a, b),
            shared: self.shared.insert((a, b)).insert((b, a)),
            ..self
        }
    }

    /// The connection `k` of a new drone leads to a client with two drones.
    pub open spec fn full_at(self, connections: Seq<NodeId>, k: int) -> bool {
        &&& 0 <= k < connections.len()
        &&& self.config.node_type(connections[k]) == Some(NodeType::Client)
        &&& self.client_drones(connections[k]) >= 2
    }

    /// `r` is the verdict on a new drone.
    pub open spec fn drone_validated(
        self,
        id: NodeId,
        connections: Seq<NodeId>,
        r: Result<bool, ControlError>,
    ) -> bool {
        if self.graph.contains_key(id) {
            r == Err::<bool, ControlError>(ControlError::IdTaken)
        } else if exists|k: int| #[trigger] self.missing_at(connections, k) {
            exists|k: int| #[trigger]
                self.missing_at(connections, k) && (forall|j: int|
                    0 <= j < k ==> !(#[trigger] self.missing_at(connections, j))) && r == Err::<
                    bool,
                    ControlError,
                >(ControlError::ConnectionMissing(connections[k]))
        } else if exists|k: int| #[trigger] self.full_at(connections, k) {
            exists|k: int| #[trigger]
                self.full_at(connections, k) && (forall|j: int|
                    0 <= j < k ==> !(#[trigger] self.full_at(connections, j))) && r == Err::<
                    bool,
                    ControlError,
                >(ControlError::ClientFullFor(connections[k], id))
        } else {
            r == Ok::<bool, ControlError>(true)
        }
    }

    /// The connection `k` of a new drone leads nowhere.
    pub open spec fn missing_at(self, connections: Seq<NodeId>, k: int) -> bool {
        0 <= k < connections.len() && !self.graph.contains_key(connections[k])
    }

    /// The commands for the peers of a new drone and for itself.
    pub open spec fn spawn_orders(self, id: NodeId, connections: Seq<NodeId>) -> Seq<Order>
        decreases connections.len(),
    {
        if connections.len() == 0 {
            Seq::empty()
        } else {
            let peer = connections.last();
            self.spawn_orders(id, connections.drop_last()) + self.order(
                peer,
                Command::AddSender(id, id, peer),
            ) + seq![Order { to: id, command: Command::AddSender(peer, peer, id) }]
        }
    }

    /// The controller with the channels of a new drone.
    pub open spec fn drone_joined(self, id: NodeId, pdr: u32, connections: Seq<NodeId>) -> ControllerView {
        ControllerView {
            config: spawned_in(self.config, id, pdr, connections),
            graph: linked_to_all(self.graph, id, connections),
            commands: with_neighbour(self.commands, id),
            packets: linked_to_all(self.packets.insert(id, Set::empty()), id, connections),
            ..self
        }
    }

    /// The controller after a new drone is known to all.
    pub open spec fn drone_shared(self, id: NodeId, connections: Seq<NodeId>) -> ControllerView {
        ControllerView { shared: shared_with_all(self.shared, id, connections), ..self }
    }
}

/// The configuration with a connection between two nodes. Only drones are connected to
/// any node; clients and servers are connected to drones.
pub open spec fn connected_in(c: ConfigView, a: NodeId, b: NodeId) -> ConfigView {
    match (c.node_type(a), c.node_type(b)) {
        (Some(NodeType::Drone), Some(NodeType::Drone)) => c.drone_linked(a, b).drone_linked(b, a),
        (Some(NodeType::Drone), Some(NodeType::Client)) => c.drone_linked(a, b).client_linked(b, a),
        (Some(NodeType::Client), Some(NodeType::Drone)) => c.drone_linked(b, a).client_linked(a, b),
        (Some(NodeType::Drone), Some(NodeType::Server)) => c.drone_linked(a, b).server_linked(b, a),
        (Some(NodeType::Server), Some(NodeType::Drone)) => c.drone_linked(b, a).server_linked(a, b),
        _ => c,
    }
}

/// The configuration in which `peer` is connected to a new drone.
pub open spec fn peer_linked(c: ConfigView, peer: NodeId, id: NodeId) -> ConfigView {
    let d = c.drone_linked(peer, id);
    if entry_ids(c.client).contains(peer) {
        d.client_linked(peer, id)
    } else if entry_ids(c.server).contains(peer) {
        d.server_linked(peer, id)
    } else {
        d
    }
}

/// The configuration in which all peers are connected to a new drone.
pub open spec fn peers_linked(c: ConfigView, connections: Seq<NodeId>, id: NodeId) -> ConfigView
    decreases connections.len(),
{
    if connections.len() == 0 {
        c
    } else {
        peer_linked(peers_linked(c, connections.drop_last(), id), connections.last(), id)
    }
}

/// The configuration with a new drone.
pub open spec fn spawned_in(
    c: ConfigView,
    id: NodeId,
    pdr: u32,
    connections: Seq<NodeId>,
) -> ConfigView {
    let d = if entry_ids(c.drone).contains(id) {
        c
    } else {
        c.drone_added(id)
    };
    peers_linked(d.drone_rated(id, pdr).drone_replaced(id, connections), connections, id)
}

/// The links with links both ways between a node and each of a list.
pub open spec fn linked_to_all(g: Links, id: NodeId, connections: Seq<NodeId>) -> Links
    decreases connections.len(),
{
    if connections.len() == 0 {
        g
    } else {
        with_both(linked_to_all(g, id, connections.drop_last()), id, connections.last())
    }
}

/// The channels with channels both ways between a node and each of a list.
pub open spec fn shared_with_all(
    s: Set<(NodeId, NodeId)>,
    id: NodeId,
    connections: Seq<NodeId>,
) -> Set<(NodeId, NodeId)>
    decreases connections.len(),
{
    if connections.len() == 0 {
        s
    } else {
        let peer = connections.last();
        shared_with_all(s, id, connections.drop_last()).insert((id, peer)).insert((peer, id))
    }
}

/// A result by the orders that it holds.
pub open spec fn orders_of(r: Result<Vec<Order>, ControlError>) -> Result<
    Seq<Order>,
    ControlError,
> {
    match r {
        Ok(v) => Ok(v@),
        Err(e) => Err(e),
    }
}

impl SimulationController {
    /// Whether a node is a drone that takes commands.
    fn takes_commands(&self, id: NodeId) -> (r: bool)
        ensures
            r == self@.commanded(id),
    {
        has_entry(&self.config.drone, id) && has_id(&self.command_senders, id)
    }

    /// Decides on the crash of a drone: the commands for it, which come before the
    /// network changes.
    pub fn crash_drone(&self, drone_id: NodeId) -> (r: Result<Vec<Order>, ControlError>)
        requires
            self.wf(),
        ensures
            self@.crash_decided(drone_id, orders_of(r)),
    {
        let state: Option<NodeState> = self.get_node_state(drone_id);
        match state {
            None => {
                return Err(ControlError::NotFound(drone_id));
            },
            Some(s) => {
                if !s.active {
                    return Err(ControlError::AlreadyInactive(drone_id));
                }
            },
        }
        let ok: bool = self.is_crash_allowed(drone_id);
        if !ok {
            let r = Err(ControlError::CrashForbidden);
            assert(self@.crash_allowed(drone_id, ok) && orders_of(r) == Err::<
                Seq<Order>,
                ControlError,
            >(ControlError::CrashForbidden));
            return r;
        }
        let ghost p = self@.told_of(drone_id);
        let mut orders: Vec<Order> = Vec::new();
        let mut i: usize = 0;
        assert(orders@ =~= removals(ids_where(p, 0), drone_id));
        while i < ID_COUNT
            invariant
                i <= ID_COUNT,
                self.wf(),
                p == self@.told_of(drone_id),
                orders@ == removals(ids_where(p, i as int), drone_id),
            decreases ID_COUNT - i,
        {
            let n: NodeId = i as NodeId;
            let ghost before = orders@;
            if self.network_graph.linked(drone_id, n) && self.takes_commands(n) {
                orders.push(Order { to: n, command: Command::RemoveSender(drone_id) });
                assert(p(n));
                assert(orders@ =~= removals(ids_where(p, i as int).push(n), drone_id));
            }
            i = i + 1;
        }
        if has_id(&self.command_senders, drone_id) {
            orders.push(Order { to: drone_id, command: Command::Crash });
        }
        assert(orders@ =~= self@.crash_orders(drone_id));
        assert(self@.crash_allowed(drone_id, ok));
        Ok(orders)
    }

    /// Takes a crashed drone out of the network, and announces it.
    pub fn drone_crashed(&mut self, drone_id: NodeId, queue: &mut GuiQueue)
        requires
            old(self).wf(),
        ensures
            final(self).wf(),
            final(self)@ == old(self)@.crashed(drone_id),
            final(queue)@ == broadcast_to_hosts(
                old(queue)@,
                final(self)@.config,
                crash_note(drone_id),
            ),
    {
        let ghost a = self@;
        let ghost g = self@.graph;
        let before: Adjacency = self.network_graph.duplicate();
        let mut i: usize = 0;
        assert(self.network_graph@ =~= cut_upto(g, drone_id, 0));
        while i < ID_COUNT
            invariant
                i <= ID_COUNT,
                before.wf(),
                before@ == g,
                self.wf(),
                self@ == (ControllerView { graph: cut_upto(g, drone_id, i as int), ..a }),
            decreases ID_COUNT - i,
        {
            let n: NodeId = i as NodeId;
            if before.linked(drone_id, n) {
                self.network_graph.remove_link(n, drone_id);
            }
            proof {
                let want = cut_upto(g, drone_id, i + 1);
                assert(self.network_graph@.dom() =~= want.dom());
                assert forall|x: NodeId| want.contains_key(x) implies #[trigger] want[x]
                    == self.network_graph@[x] by {
                    if x == n {
                    } else {
                        assert(x < i <==> x < i + 1);
                    }
                }
                assert(self.network_graph@ =~= want);
                assert(self@ =~= ControllerView { graph: want, ..a });
            }
            i = i + 1;
        }
        self.network_graph.remove_key(drone_id);
        assert(self.network_graph@ =~= cut_out(g, drone_id));
        self.config.remove_drone_connections(drone_id);
        self.command_senders = remove_id(&self.command_senders, drone_id);
        proof {
            lemma_without_id(a.commands, drone_id);
        }
        self.packet_senders.remove_key(drone_id);
        self.shared_senders.remove_mentions(drone_id);
        assert(self@ =~= a.crashed(drone_id));
        let note: String = join2("[FloodRequired]::Crash::", id_text(drone_id).as_str());
        queue.broadcast_topology_change(&self.config, note.as_str());
    }

    /// Decides on the removal of a link: the commands for it, which come before the
    /// network changes.
    pub fn remove_link(&self, a: NodeId, b: NodeId) -> (r: Result<Vec<Order>, ControlError>)
        requires
            self.wf(),
        ensures
            self@.removal_decided(a, b, orders_of(r)),
    {
        if !self.network_graph.contains_key(a) {
            return Err(ControlError::NotInGraph(a));
        }
        if !self.network_graph.linked(a, b) {
            return Err(ControlError::NoLink(a, b));
        }
        let ok: bool = self.is_removal_allowed(a, b);
        assert(self@.removal_allowed(a, b, ok));
        if !ok {
            return Err(ControlError::RemovalForbidden);
        }
        let mut orders: Vec<Order> = Vec::new();
        if self.takes_commands(a) {
            orders.push(Order { to: a, command: Command::RemoveSender(b) });
        }
        if self.takes_commands(b) {
            orders.push(Order { to: b, command: Command::RemoveSender(a) });
        }
        assert(orders@ =~= self@.order(a, Command::RemoveSender(b)) + self@.order(
            b,
            Command::RemoveSender(a),
        ));
        Ok(orders)
    }

    /// Takes a link out of the network, and announces it.
    pub fn link_removed(&mut self, a: NodeId, b: NodeId, queue: &mut GuiQueue)
        requires
            old(self).wf(),
        ensures
            final(self).wf(),
            final(self)@ == old(self)@.link_removed(a, b),
            final(queue)@ == broadcast_to_hosts(
                old(queue)@,
                final(self)@.config,
                link_note("[FloodRequired]::RemoveSender::"@, a, b),
            ),
    {
        self.network_graph.remove_link(a, b);
        self.network_graph.remove_link(b, a);
        self.config.remove_connection(a, b);
        self.shared_senders.remove(a, b);
        self.shared_senders.remove(b, a);
        assert(self@ =~= old(self)@.link_removed(a, b));
        let tail: String = join2("::", id_text(b).as_str());
        let note: String = join3(
            "[FloodRequired]::RemoveSender::",
            id_text(a).as_str(),
            tail.as_str(),
        );
        queue.broadcast_topology_change(&self.config, note.as_str());
    }

    fn check_ready(&self, id: NodeId) -> (r: Option<ControlError>)
        requires
            self.wf(),
        ensures
            r == self@.unready(id),
    {
        if has_entry(&self.config.drone, id) && !has_id(&self.command_senders, id) {
            Some(ControlError::NoCommandSender(id))
        } else if !self.packet_senders.contains_key(id) {
            Some(ControlError::NoPacketSender(id))
        } else {
            None
        }
    }

    fn is_client_full(&self, client: NodeId, drone: NodeId) -> (r: bool)
        requires
            self.wf(),
        ensures
            r == self@.client_full(client, drone),
    {
        self.config.node_type(client) == Some(NodeType::Client) && self.config.node_type(drone)
            == Some(NodeType::Drone) && self.count_client_drones(client) >= 2
    }

    /// Decides on a new link: the commands for it, which come before the network
    /// changes. The channels are there from now on.
    pub fn add_link(&mut self, a: NodeId, b: NodeId) -> (r: Result<Vec<Order>, ControlError>)
        requires
            old(self).wf(),
        ensures
            final(self).wf(),
            match old(self)@.add_fault(a, b) {
                Some(e) => final(self)@ == old(self)@ && orders_of(r) == Err::<
                    Seq<Order>,
                    ControlError,
                >(e),
                None => final(self)@ == old(self)@.channels_added(a, b) && orders_of(r) == Ok::<
                    Seq<Order>,
                    ControlError,
                >(old(self)@.link_orders(a, b)),
            },
    {
        let ghost v = self@;
        if let Some(e) = self.check_ready(a) {
            return Err(e);
        }
        if let Some(e) = self.check_ready(b) {
            return Err(e);
        }
        if self.is_client_full(a, b) || self.is_client_full(b, a) {
            return Err(ControlError::ClientFull);
        }
        let mut orders: Vec<Order> = Vec::new();
        if self.takes_commands(a) {
            orders.push(Order { to: a, command: Command::AddSender(b, a, b) });
        }
        if self.takes_commands(b) {
            orders.push(Order { to: b, command: Command::AddSender(a, b, a) });
        }
        assert(orders@ =~= v.link_orders(a, b));
        self.packet_senders.add_link(a, b);
        self.packet_senders.add_link(b, a);
        assert(self@ =~= v.channels_added(a, b));
        Ok(orders)
    }

    /// Connects two nodes in the configuration.
    fn connect(&mut self, a: NodeId, b: NodeId)
        requires
            old(self).wf(),
        ensures
            final(self).wf(),
            final(self)@ == (ControllerView {
                config: connected_in(old(self)@.config, a, b),
                ..old(self)@
            }),
    {
        match (self.config.node_type(a), self.config.node_type(b)) {
            (Some(NodeType::Drone), Some(NodeType::Drone)) => {
                self.config.append_drone_connection(a, b);
                self.config.append_drone_connection(b, a);
            },
            (Some(NodeType::Drone), Some(NodeType::Client)) => {
                self.config.append_drone_connection(a, b);
                self.config.append_client_connection(b, a);
            },
            (Some(NodeType::Client), Some(NodeType::Drone)) => {
                self.config.append_drone_connection(b, a);
                self.config.append_client_connection(a, b);
            },
            (Some(NodeType::Drone), Some(NodeType::Server)) => {
                self.config.append_drone_connection(a, b);
                self.config.append_server_connection(b, a);
            },
            (Some(NodeType::Server), Some(NodeType::Drone)) => {
                self.config.append_drone_connection(b, a);
                self.config.append_server_connection(a, b);
            },
            _ => {},
        }
        assert(self@ =~= ControllerView {
            config: connected_in(old(self)@.config, a, b),
            ..old(self)@
        });
    }

    /// Puts a link into the network, and announces it.
    pub fn link_added(&mut self, a: NodeId, b: NodeId, queue: &mut GuiQueue)
        requires
            old(self).wf(),
        ensures
            final(self).wf(),
            final(self)@ == old(self)@.link_added(a, b),
            final(queue)@ == broadcast_to_hosts(
                old(queue)@,
                final(self)@.config,
                link_note("[FloodRequired]::AddSender::"@, a, b),
            ),
    {
        self.add_connection(a, b);
        self.connect(a, b);
        self.shared_senders.insert(a, b);
        self.shared_senders.insert(b, a);
        assert(self@ =~= old(self)@.link_added(a, b));
        let tail: String = join2("::", id_text(b).as_str());
        let note: String = join3("[FloodRequired]::AddSender::", id_text(a).as_str(), tail.as_str());
        queue.broadcast_topology_change(&self.config, note.as_str());
    }

    /// Links two nodes in the graph.
    pub fn add_connection(&mut self, a: NodeId, b: NodeId)
        requires
            old(self).wf(),
        ensures
            final(self).wf(),
            final(self)@ == (ControllerView {
                graph: with_both(old(self)@.graph, a, b),
                ..old(self)@
            }),
    {
        self.network_graph.add_link(a, b);
        self.network_graph.add_link(b, a);
    }

    /// Decides whether a new drone may join.
    pub fn validate_new_drone(&self, id: NodeId, connections: &Vec<NodeId>) -> (r: Result<
        bool,
        ControlError,
    >)
        requires
            self.wf(),
        ensures
            self@.drone_validated(id, connections@, r),
    {
        if self.network_graph.contains_key(id) {
            return Err(ControlError::IdTaken);
        }
        let ghost c = connections@;
        let mut i: usize = 0;
        while i < connections.len()
            invariant
                i <= connections@.len(),
                c == connections@,
                self.wf(),
                !self@.graph.contains_key(id),
                forall|k: int| 0 <= k < i ==> !(#[trigger] self@.missing_at(c, k)),
            decreases connections@.len() - i,
        {
            if !self.network_graph.contains_key(connections[i]) {
                assert(self@.missing_at(c, i as int));
                return Err(ControlError::ConnectionMissing(connections[i]));
            }
            i = i + 1;
        }
        let mut j: usize = 0;
        while j < connections.len()
            invariant
                j <= connections@.len(),
                c == connections@,
                self.wf(),
                !self@.graph.contains_key(id),
                forall|k: int| !(#[trigger] self@.missing_at(c, k)),
                forall|k: int| 0 <= k < j ==> !(#[trigger] self@.full_at(c, k)),
            decreases connections@.len() - j,
        {
            let peer: NodeId = connections[j];
            if self.config.node_type(peer) == Some(NodeType::Client) && self.count_client_drones(
                peer,
            ) >= 2 {
                assert(self@.full_at(c, j as int));
                return Err(ControlError::ClientFullFor(peer, id));
            }
            j = j + 1;
        }
        Ok(true)
    }

    fn spawn_in_config(&mut self, id: NodeId, pdr: u32, connections: &Vec<NodeId>)
        requires
            old(self).wf(),
        ensures
            final(self).wf(),
            final(self)@ == (ControllerView {
                config: spawned_in(old(self)@.config, id, pdr, connections@),
                ..old(self)@
            }),
    {
        let ghost a = self@;
        if !has_entry(&self.config.drone, id) {
            self.config.add_drone(id);
        }
        self.config.set_drone_pdr(id, pdr);
        self.config.set_drone_connections(id, connections);
        let ghost c = self@.config;
        let mut i: usize = 0;
        assert(connections@.subrange(0, 0) =~= Seq::empty());
        assert(self@ =~= ControllerView { config: c, ..a });
        while i < connections.len()
            invariant
                i <= connections@.len(),
                self.wf(),
                self@ == (ControllerView {
                    config: peers_linked(c, connections@.subrange(0, i as int), id),
                    ..a
                }),
            decreases connections@.len() - i,
        {
            let peer: NodeId = connections[i];
            let ghost d = self@.config;
            proof {
                let t = connections@.subrange(0, i + 1);
                assert(t.drop_last() =~= connections@.subrange(0, i as int));
                assert(t.last() == peer);
            }
            self.config.append_drone_connection(peer, id);
            if has_entry(&self.config.client, peer) {
                self.config.append_client_connection(peer, id);
            } else if has_entry(&self.config.server, peer) {
                self.config.append_server_connection(peer, id);
            }
            assert(self@.config == peer_linked(d, peer, id));
            i = i + 1;
            assert(self@ =~= ControllerView {
                config: peers_linked(c, connections@.subrange(0, i as int), id),
                ..a
            });
        }
        assert(connections@.subrange(0, i as int) =~= connections@);
    }

    /// Decides on a new drone: the commands that tell it and its peers of each other.
    /// It is a part of the network from now on.
    pub fn spawn_drone(&mut self, id: NodeId, pdr: u32, connections: &Vec<NodeId>) -> (r: Result<
        Vec<Order>,
        ControlError,
    >)
        requires
            old(self).wf(),
        ensures
            final(self).wf(),
            exists|verdict: Result<bool, ControlError>| #[trigger]
                old(self)@.drone_validated(id, connections@, verdict) && match verdict {
                    Ok(_) => final(self)@ == old(self)@.drone_joined(id, pdr, connections@)
                        && orders_of(r) == Ok::<Seq<Order>, ControlError>(
                        final(self)@.spawn_orders(id, connections@),
                    ),
                    Err(e) => final(self)@ == old(self)@ && orders_of(r) == Err::<
                        Seq<Order>,
                        ControlError,
                    >(e),
                },
    {
        let ghost a = self@;
        let verdict: Result<bool, ControlError> = self.validate_new_drone(id, connections);
        assert(a.drone_validated(id, connections@, verdict));
        if let Err(e) = verdict {
            return Err(e);
        }
        self.spawn_in_config(id, pdr, connections);
        self.register_command_sender(id);
        let none: Vec<NodeId> = Vec::new();
        assert(none@.to_set() =~= Set::empty());
        self.packet_senders.put(id, &none);
        let ghost b = self@;
        let mut i: usize = 0;
        assert(connections@.subrange(0, 0) =~= Seq::empty());
        while i < connections.len()
            invariant
                i <= connections@.len(),
                self.wf(),
                self@ == (ControllerView {
                    graph: linked_to_all(b.graph, id, connections@.subrange(0, i as int)),
                    packets: linked_to_all(b.packets, id, connections@.subrange(0, i as int)),
                    ..b
                }),
            decreases connections@.len() - i,
        {
            let peer: NodeId = connections[i];
            proof {
                let t = connections@.subrange(0, i + 1);
                assert(t.drop_last() =~= connections@.subrange(0, i as int));
                assert(t.last() == peer);
            }
            self.add_connection(id, peer);
            self.register_packet_sender(id, peer);
            self.register_packet_sender(peer, id);
            i = i + 1;
            assert(self@ =~= ControllerView {
                graph: linked_to_all(b.graph, id, connections@.subrange(0, i as int)),
                packets: linked_to_all(b.packets, id, connections@.subrange(0, i as int)),
                ..b
            });
        }
        assert(connections@.subrange(0, i as int) =~= connections@);
        assert(self@ =~= a.drone_joined(id, pdr, connections@));
        let mut orders: Vec<Order> = Vec::new();
        let mut k: usize = 0;
        while k < connections.len()
            invariant
                k <= connections@.len(),
                orders@ == self@.spawn_orders(id, connections@.subrange(0, k as int)),
            decreases connections@.len() - k,
        {
            let peer: NodeId = connections[k];
            proof {
                let t = connections@.subrange(0, k + 1);
                assert(t.drop_last() =~= connections@.subrange(0, k as int));
                assert(t.last() == peer);
            }
            if self.takes_commands(peer) {
                orders.push(Order { to: peer, command: Command::AddSender(id, id, peer) });
            }
            orders.push(Order { to: id, command: Command::AddSender(peer, peer, id) });
            k = k + 1;
            assert(orders@ =~= self@.spawn_orders(id, connections@.subrange(0, k as int)));
        }
        assert(connections@.subrange(0, k as int) =~= connections@);
        Ok(orders)
    }

    /// Shares the channels of a new drone, and announces it.
    pub fn drone_spawned(&mut self, id: NodeId, connections: &Vec<NodeId>, queue: &mut GuiQueue)
        requires
            old(self).wf(),
        ensures
            final(self).wf(),
            final(self)@ == old(self)@.drone_shared(id, connections@),
            final(queue)@ == broadcast_to_hosts(
                old(queue)@,
                final(self)@.config,
                spawn_note(id, connections@),
            ),
    {
        let ghost a = self@;
        let mut i: usize = 0;
        assert(connections@.subrange(0, 0) =~= Seq::empty());
        while i < connections.len()
            invariant
                i <= connections@.len(),
                self.wf(),
                self@ == (ControllerView {
                    shared: shared_with_all(a.shared, id, connections@.subrange(0, i as int)),
                    ..a
                }),
            decreases connections@.len() - i,
        {
            proof {
                let t = connections@.subrange(0, i + 1);
                assert(t.drop_last() =~= connections@.subrange(0, i as int));
                assert(t.last() == connections@[i as int]);
            }
            self.shared_senders.insert(id, connections[i]);
            self.shared_senders.insert(connections[i], id);
            i = i + 1;
            assert(self@ =~= ControllerView {
                shared: shared_with_all(a.shared, id, connections@.subrange(0, i as int)),
                ..a
            });
        }
        assert(connections@.subrange(0, i as int) =~= connections@);
        let tail: String = join2("::", id_list_text(connections).as_str());
        let note: String = join3(
            "[FloodRequired]::SpawnDrone::",
            id_text(id).as_str(),
            tail.as_str(),
        );
        queue.broadcast_topology_change(&self.config, note.as_str());
    }

    /// Announces another drop rate, which then goes to the drone.
    pub fn set_packet_drop_rate(&self, drone_id: NodeId, queue: &mut GuiQueue) -> (r: Result<
        (),
        ControlError,
    >)
        ensures
            if self@.commands.contains(drone_id) {
                r is Ok && final(queue)@ == broadcast_to_hosts(
                    old(queue)@,
                    self@.config,
                    "[FloodRequired]::newpdr"@,
                )
            } else {
                r == Err::<(), ControlError>(ControlError::DroneNotFound) && final(queue)@ == old(
                    queue,
                )@
            },
    {
        if has_id(&self.command_senders, drone_id) {
            queue.broadcast_topology_change(&self.config, "[FloodRequired]::newpdr");
            Ok(())
        } else {
            Err(ControlError::DroneNotFound)
        }
    }

    /// The host that a packet goes to by way of the controller: its destination, where
    /// there is a channel to it.
    pub fn shortcut_target(&self, packet: &Packet) -> (r: Option<NodeId>)
        ensures
            r == (if packet@.header.hops.len() > 0 && self@.hosts.contains(
                packet@.header.hops.last(),
            ) {
                Some(packet@.header.hops.last())
            } else {
                None
            }),
    {
        let n: usize = packet.routing_header.hops.len();
        if n == 0 {
            return None;
        }
        let to: NodeId = packet.routing_header.hops[n - 1];
        if has_id(&self.host_senders, to) {
            Some(to)
        } else {
            None
        }
    }
}

/// The node that a packet comes from and the node that it goes to, as far as its header
/// tells.
pub open spec fn hop_of(h: HeaderView) -> Option<(NodeId, Option<NodeId>)> {
    if 0 < h.hop_index < h.hops.len() {
        Some((h.hops[h.hop_index - 1], Some(h.hops[h.hop_index])))
    } else if h.hop_index == 0 && h.hops.len() > 0 {
        Some(
            (
                h.hops[0],
                if h.hops.len() > 1 {
                    Some(h.hops[1])
                } else {
                    None
                },
            ),
        )
    } else {
        None
    }
}

/// The node that a packet comes from and the node that it goes to.
pub fn current_hop(header: &SourceRoutingHeader) -> (r: Option<(NodeId, Option<NodeId>)>)
    ensures
        r == hop_of(header@),
{
    let i: usize = header.hop_index;
    let n: usize = header.hops.len();
    if 0 < i && i < n {
        Some((header.hops[i - 1], Some(header.hops[i])))
    } else if i == 0 && n > 0 {
        let to: Option<NodeId> = if n > 1 {
            Some(header.hops[1])
        } else {
            None
        };
        Some((header.hops[0], to))
    } else {
        None
    }
}

/// A change that is allowed leaves every server with two drones or more, and every
/// client and server within reach of each other.
pub proof fn law_allowed_crashes_keep_the_network_usable(v: ControllerView, id: NodeId)
    requires
        v.crash_allowed(id, true),
    ensures
        v.servers_served(v.graph.remove(id)),
        v.all_mutual(v.graph.remove(id), Some(id)),
{
}

/// The removal of a link that is allowed leaves every server with two drones or more,
/// and every client and server within reach of each other.
pub proof fn law_allowed_removals_keep_the_network_usable(v: ControllerView, a: NodeId, b: NodeId)
    requires
        v.removal_allowed(a, b, true),
    ensures
        v.servers_served(v.link_removed(a, b).graph),
        v.all_mutual(v.link_removed(a, b).graph, None),
{
}

/// A crashed node is gone from the graph, from the channels and from the configuration's
/// connections.
pub proof fn law_a_crashed_drone_is_gone(v: ControllerView, id: NodeId, x: NodeId)
    ensures
        !v.crashed(id).graph.contains_key(id),
        !v.crashed(id).packets.contains_key(id),
        !v.crashed(id).commands.contains(id),
        !v.crashed(id).shared.contains((id, x)) && !v.crashed(id).shared.contains((x, id)),
        has_link(v.graph, id, x) ==> !has_link(v.crashed(id).graph, x, id),
{
    lemma_without_id(v.commands, id);
}

/// A link that is added can be removed again: nodes that were not linked are not
/// linked afterwards, and all other links are as before.
pub proof fn law_removing_undoes_adding(g: Links, a: NodeId, b: NodeId)
    requires
        a != b,
        g.contains_key(a),
        g.contains_key(b),
        !g[a].contains(b),
        !g[b].contains(a),
    ensures
        without_both(with_both(g, a, b), a, b) == g,
{
    let h = without_both(with_both(g, a, b), a, b);
    assert(h[a] =~= g[a]);
    assert(h[b] =~= g[b]);
    assert(h =~= g);
}

/// A property that holds of at most one more id holds of at most one id more.
proof fn lemma_one_more(
    p: spec_fn(NodeId) -> bool,
    q: spec_fn(NodeId) -> bool,
    x: NodeId,
    upto: int,
)
    requires
        0 <= upto <= ID_COUNT,
        forall|y: NodeId| y != x ==> #[trigger] q(y) == p(y),
    ensures
        how_many(q, upto) <= how_many(p, upto) + (if x < upto {
            1int
        } else {
            0int
        }),
    decreases upto,
{
    if upto > 0 {
        lemma_one_more(p, q, x, upto - 1);
        let y = (upto - 1) as NodeId;
        if y != x {
            assert(q(y) == p(y));
        }
    }
}

/// Connecting nodes changes no node's role.
pub proof fn lemma_connecting_keeps_types(c: ConfigView, a: NodeId, b: NodeId, id: NodeId)
    ensures
        connected_in(c, a, b).node_type(id) == c.node_type(id),
{
    let d = connected_in(c, a, b);
    lemma_relinking_keeps_ids(c.drone, a, b);
    lemma_relinking_keeps_ids(c.drone, b, a);
    lemma_relinking_keeps_ids(relinked(c.drone, a, adding(b)), b, a);
    lemma_relinking_keeps_ids(c.client, a, b);
    lemma_relinking_keeps_ids(c.client, b, a);
    lemma_relinking_keeps_ids(c.server, a, b);
    lemma_relinking_keeps_ids(c.server, b, a);
}

pub proof fn lemma_relinking_keeps_ids(s: Seq<EntryView>, id: NodeId, peer: NodeId)
    ensures
        entry_ids(relinked(s, id, adding(peer))) == entry_ids(s),
{
    if entry_ids(s).contains(id) {
        lemma_first_index(s, id);
    }
    assert(entry_ids(relinked(s, id, adding(peer))) =~= entry_ids(s));
}

/// A client has two drones at most after a link to a drone has been added.
pub proof fn law_clients_stay_within_two_drones(v: ControllerView, a: NodeId, b: NodeId)
    requires
        v.add_fault(a, b) is None,
        v.config.node_type(a) == Some(NodeType::Client),
        v.config.node_type(b) == Some(NodeType::Drone),
    ensures
        v.channels_added(a, b).link_added(a, b).client_drones(a) <= 2,
{
    let w = v.channels_added(a, b).link_added(a, b);
    let p = drone_of(v.config, v.graph, a, false);
    let q = drone_of(w.config, w.graph, a, false);
    assert forall|y: NodeId| y != b implies #[trigger] q(y) == p(y) by {
        lemma_connecting_keeps_types(v.config, a, b, y);
        assert(a != b);
        assert(has_link(w.graph, a, y) == has_link(v.graph, a, y));
    }
    lemma_one_more(p, q, b, ID_COUNT as int);
}

}
