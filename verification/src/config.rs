//! The configuration of a network: its nodes and their connections.
use crate::client1::with_neighbour;
use crate::packet::{copy_ids, has_id, remove_id, without_id, NodeId, NodeType};
use vstd::prelude::*;

verus! {

/// A drone. The packet drop rate is kept by the bits of its floating-point number.
#[derive(PartialEq, Eq, Debug)]
pub struct DroneConfig {
    pub id: NodeId,
    pub connected_node_ids: Vec<NodeId>,
    pub pdr: u32,
}

/// A client.
#[derive(PartialEq, Eq, Debug)]
pub struct ClientConfig {
    pub id: NodeId,
    pub connected_drone_ids: Vec<NodeId>,
}

/// A server.
#[derive(PartialEq, Eq, Debug)]
pub struct ServerConfig {
    pub id: NodeId,
    pub connected_drone_ids: Vec<NodeId>,
}

/// The drones, clients and servers of a network.
#[derive(PartialEq, Eq, Debug)]
pub struct ParsedConfig {
    pub drone: Vec<DroneConfig>,
    pub client: Vec<ClientConfig>,
    pub server: Vec<ServerConfig>,
}

/// A node with its connections; only a drone has a packet drop rate.
#[verifier::ext_equal]
pub struct EntryView {
    pub id: NodeId,
    pub pdr: u32,
    pub links: Seq<NodeId>,
}

#[verifier::ext_equal]
pub struct ConfigView {
    pub drone: Seq<EntryView>,
    pub client: Seq<EntryView>,
    pub server: Seq<EntryView>,
}

impl View for DroneConfig {
    type V = EntryView;

    open spec fn view(&self) -> EntryView {
        EntryView { id: self.id, pdr: self.pdr, links: self.connected_node_ids@ }
    }
}

impl View for ClientConfig {
    type V = EntryView;

    open spec fn view(&self) -> EntryView {
        EntryView { id: self.id, pdr: 0, links: self.connected_drone_ids@ }
    }
}

impl View for ServerConfig {
    type V = EntryView;

    open spec fn view(&self) -> EntryView {
        EntryView { id: self.id, pdr: 0, links: self.connected_drone_ids@ }
    }
}

/// A node that is listed with its connections.
pub trait Linked: Sized {
    spec fn entry(&self) -> EntryView;

    fn node_id(&self) -> (r: NodeId)
        ensures
            r == self.entry().id,
    ;

    fn links(&self) -> (r: &Vec<NodeId>)
        ensures
            r@ == self.entry().links,
    ;

    fn set_links(&mut self, links: Vec<NodeId>)
        ensures
            final(self).entry() == (EntryView { links: links@, ..old(self).entry() }),
    ;
}

impl Linked for DroneConfig {
    open spec fn entry(&self) -> EntryView {
        self@
    }

    fn node_id(&self) -> (r: NodeId) {
        self.id
    }

    fn links(&self) -> (r: &Vec<NodeId>) {
        &self.connected_node_ids
    }

    fn set_links(&mut self, links: Vec<NodeId>) {
        self.connected_node_ids = links;
    }
}

impl Linked for ClientConfig {
    open spec fn entry(&self) -> EntryView {
        self@
    }

    fn node_id(&self) -> (r: NodeId) {
        self.id
    }

    fn links(&self) -> (r: &Vec<NodeId>) {
        &self.connected_drone_ids
    }

    fn set_links(&mut self, links: Vec<NodeId>) {
        self.connected_drone_ids = links;
    }
}

impl Linked for ServerConfig {
    open spec fn entry(&self) -> EntryView {
        self@
    }

    fn node_id(&self) -> (r: NodeId) {
        self.id
    }

    fn links(&self) -> (r: &Vec<NodeId>) {
        &self.connected_drone_ids
    }

    fn set_links(&mut self, links: Vec<NodeId>) {
        self.connected_drone_ids = links;
    }
}

/// The entries of a list of nodes.
pub open spec fn entries<T: Linked>(v: Seq<T>) -> Seq<EntryView> {
    v.map_values(|x: T| x.entry())
}

impl View for ParsedConfig {
    type V = ConfigView;

    open spec fn view(&self) -> ConfigView {
        ConfigView {
            drone: entries(self.drone@),
            client: entries(self.client@),
            server: entries(self.server@),
        }
    }
}

/// The ids of some entries.
pub open spec fn entry_ids(s: Seq<EntryView>) -> Seq<NodeId> {
    s.map_values(|e: EntryView| e.id)
}

/// The first entry `k` has the id `id`.
pub open spec fn first_is(s: Seq<EntryView>, id: NodeId, k: int) -> bool {
    &&& 0 <= k < s.len()
    &&& s[k].id == id
    &&& forall|j: int| 0 <= j < k ==> (#[trigger] s[j]).id != id
}

/// An entry with other connections.
pub open spec fn with_links(e: EntryView, links: Seq<NodeId>) -> EntryView {
    EntryView { links, ..e }
}

/// The position of the first entry for `id`.
pub open spec fn first_index(s: Seq<EntryView>, id: NodeId) -> int {
    choose|k: int| first_is(s, id, k)
}

/// The connections of the first entry for `id` are replaced by what `f` makes of them;
/// where there is no such entry nothing changes.
pub open spec fn relinked(
    s: Seq<EntryView>,
    id: NodeId,
    f: spec_fn(Seq<NodeId>) -> Seq<NodeId>,
) -> Seq<EntryView> {
    let k = first_index(s, id);
    if entry_ids(s).contains(id) {
        s.update(k, with_links(s[k], f(s[k].links)))
    } else {
        s
    }
}

/// The entries without any connection to `id`.
pub open spec fn struck(s: Seq<EntryView>, id: NodeId) -> Seq<EntryView> {
    s.map_values(|e: EntryView| with_links(e, without_id(e.links, id)))
}

/// Appends a connection where it is not there yet.
pub open spec fn adding(peer: NodeId) -> spec_fn(Seq<NodeId>) -> Seq<NodeId> {
    |links: Seq<NodeId>| with_neighbour(links, peer)
}

/// Puts other connections in the place of all.
pub open spec fn replacing(by: Seq<NodeId>) -> spec_fn(Seq<NodeId>) -> Seq<NodeId> {
    |links: Seq<NodeId>| by
}

/// The position of the first node with an id.
pub fn find_entry<T: Linked>(v: &Vec<T>, id: NodeId) -> (r: Option<usize>)
    ensures
        match r {
            Some(k) => k < v@.len() && first_is(entries(v@), id, k as int) && entry_ids(
                entries(v@),
            ).contains(id),
            None => !entry_ids(entries(v@)).contains(id),
        },
        r is Some ==> r->0 == first_index(entries(v@), id),
{
    let ghost s = entries(v@);
    let mut i: usize = 0;
    while i < v.len()
        invariant
            i <= v@.len(),
            s == entries(v@),
            forall|j: int| 0 <= j < i ==> (#[trigger] s[j]).id != id,
        decreases v@.len() - i,
    {
        if v[i].node_id() == id {
            assert(s[i as int].id == id);
            assert(entry_ids(s)[i as int] == id);
            proof {
                assert(first_is(s, id, i as int));
                lemma_first_is_unique(s, id, i as int, first_index(s, id));
            }
            return Some(i);
        }
        i = i + 1;
    }
    proof {
        if entry_ids(s).contains(id) {
            let j = entry_ids(s).index_of(id);
            assert(s[j].id == id);
        }
    }
    None
}

/// Whether some node has an id.
pub fn has_entry<T: Linked>(v: &Vec<T>, id: NodeId) -> (r: bool)
    ensures
        r == entry_ids(entries(v@)).contains(id),
{
    find_entry(v, id).is_some()
}

/// Replaces the connections of a node.
fn relink<T: Linked>(v: &mut Vec<T>, k: usize, links: Vec<NodeId>)
    requires
        k < old(v)@.len(),
    ensures
        entries(final(v)@) == entries(old(v)@).update(
            k as int,
            with_links(entries(old(v)@)[k as int], links@),
        ),
{
    v[k].set_links(links);
    assert(entries(v@) =~= entries(old(v)@).update(
        k as int,
        with_links(entries(old(v)@)[k as int], links@),
    ));
}

/// Appends a connection to the first node with an id, where it is not there yet.
pub fn append_link<T: Linked>(v: &mut Vec<T>, id: NodeId, peer: NodeId)
    ensures
        entries(final(v)@) == relinked(entries(old(v)@), id, adding(peer)),
{
    let ghost s = entries(v@);
    if let Some(k) = find_entry(v, id) {
        let mut links: Vec<NodeId> = copy_ids(v[k].links());
        assert(links@ == s[k as int].links);
        if !has_id(&links, peer) {
            links.push(peer);
        }
        assert(links@ == with_neighbour(s[k as int].links, peer));
        relink(v, k, links);
        assert(first_is(s, id, k as int) && entries(v@) == s.update(
            k as int,
            with_links(s[k as int], adding(peer)(s[k as int].links)),
        ));
    }
}

/// Replaces the connections of the first node with an id.
pub fn replace_links<T: Linked>(v: &mut Vec<T>, id: NodeId, links: &Vec<NodeId>)
    ensures
        entries(final(v)@) == relinked(entries(old(v)@), id, replacing(links@)),
{
    let ghost s = entries(v@);
    if let Some(k) = find_entry(v, id) {
        relink(v, k, copy_ids(links));
        assert(first_is(s, id, k as int) && entries(v@) == s.update(
            k as int,
            with_links(s[k as int], replacing(links@)(s[k as int].links)),
        ));
    }
}

/// Removes every connection to a node.
pub fn strike<T: Linked>(v: &mut Vec<T>, id: NodeId)
    ensures
        entries(final(v)@) == struck(entries(old(v)@), id),
{
    let ghost s = entries(v@);
    let ghost t = struck(s, id);
    let size: usize = v.len();
    let mut i: usize = 0;
    assert(entries(v@) =~= t.subrange(0, 0) + s.subrange(0, s.len() as int));
    while i < size
        invariant
            i <= size,
            size == v@.len(),
            size == s.len(),
            t == struck(s, id),
            entries(v@) == t.subrange(0, i as int) + s.subrange(i as int, s.len() as int),
        decreases size - i,
    {
        assert(entries(v@)[i as int] == s[i as int]);
        let links: Vec<NodeId> = remove_id(v[i].links(), id);
        relink(v, i, links);
        i = i + 1;
        assert(entries(v@) =~= t.subrange(0, i as int) + s.subrange(i as int, s.len() as int));
    }
    assert(entries(v@) =~= t);
}

/// The ids of some nodes.
pub fn ids_in_order<T: Linked>(v: &Vec<T>) -> (r: Vec<NodeId>)
    ensures
        r@ == entry_ids(entries(v@)),
{
    let mut r: Vec<NodeId> = Vec::new();
    let mut i: usize = 0;
    while i < v.len()
        invariant
            i <= v@.len(),
            r@ == entry_ids(entries(v@)).subrange(0, i as int),
        decreases v@.len() - i,
    {
        r.push(v[i].node_id());
        i = i + 1;
        assert(r@ =~= entry_ids(entries(v@)).subrange(0, i as int));
    }
    assert(r@ =~= entry_ids(entries(v@)));
    r
}

/// The entries with the connection between `a` and `b` taken out of those for either.
pub open spec fn unlinked(s: Seq<EntryView>, a: NodeId, b: NodeId) -> Seq<EntryView> {
    s.map_values(|e: EntryView| without_link_of(e, a, b))
}

/// An entry for `a` or `b` without its connection to the other.
pub open spec fn without_link_of(e: EntryView, a: NodeId, b: NodeId) -> EntryView {
    let once = if e.id == a {
        without_id(e.links, b)
    } else {
        e.links
    };
    with_links(
        e,
        if e.id == b {
            without_id(once, a)
        } else {
            once
        },
    )
}

/// Removes the connection between two nodes.
pub fn unlink<T: Linked>(v: &mut Vec<T>, a: NodeId, b: NodeId)
    ensures
        entries(final(v)@) == unlinked(entries(old(v)@), a, b),
{
    let ghost s = entries(v@);
    let ghost t = unlinked(s, a, b);
    let size: usize = v.len();
    let mut i: usize = 0;
    assert(entries(v@) =~= t.subrange(0, 0) + s.subrange(0, s.len() as int));
    while i < size
        invariant
            i <= size,
            size == v@.len(),
            size == s.len(),
            t == unlinked(s, a, b),
            entries(v@) == t.subrange(0, i as int) + s.subrange(i as int, s.len() as int),
        decreases size - i,
    {
        assert(entries(v@)[i as int] == s[i as int]);
        let id: NodeId = v[i].node_id();
        let mut links: Vec<NodeId> = copy_ids(v[i].links());
        if id == a {
            links = remove_id(&links, b);
        }
        if id == b {
            links = remove_id(&links, a);
        }
        relink(v, i, links);
        i = i + 1;
        assert(entries(v@) =~= t.subrange(0, i as int) + s.subrange(i as int, s.len() as int));
    }
    assert(entries(v@) =~= t);
}

impl ConfigView {
    /// The role of a node.
    pub open spec fn node_type(self, id: NodeId) -> Option<NodeType> {
        if entry_ids(self.drone).contains(id) {
            Some(NodeType::Drone)
        } else if entry_ids(self.client).contains(id) {
            Some(NodeType::Client)
        } else if entry_ids(self.server).contains(id) {
            Some(NodeType::Server)
        } else {
            None
        }
    }

    /// The drones, the clients and the servers in one list.
    pub open spec fn nodes(self) -> Seq<EntryView> {
        self.drone + self.client + self.server
    }

    /// The configuration without any connection to a node.
    pub open spec fn struck(self, id: NodeId) -> ConfigView {
        ConfigView {
            drone: struck(self.drone, id),
            client: struck(self.client, id),
            server: struck(self.server, id),
        }
    }

    /// The configuration without the connection between two nodes.
    pub open spec fn unlinked(self, a: NodeId, b: NodeId) -> ConfigView {
        ConfigView {
            drone: unlinked(self.drone, a, b),
            client: unlinked(self.client, a, b),
            server: unlinked(self.server, a, b),
        }
    }
}

impl ConfigView {
    /// The configuration with a connection of a drone.
    pub open spec fn drone_linked(self, id: NodeId, peer: NodeId) -> ConfigView {
        ConfigView { drone: relinked(self.drone, id, adding(peer)), ..self }
    }

    /// The configuration with a connection of a client.
    pub open spec fn client_linked(self, id: NodeId, peer: NodeId) -> ConfigView {
        ConfigView { client: relinked(self.client, id, adding(peer)), ..self }
    }

    /// The configuration with a connection of a server.
    pub open spec fn server_linked(self, id: NodeId, peer: NodeId) -> ConfigView {
        ConfigView { server: relinked(self.server, id, adding(peer)), ..self }
    }

    /// The configuration with other connections of a drone.
    pub open spec fn drone_replaced(self, id: NodeId, links: Seq<NodeId>) -> ConfigView {
        ConfigView { drone: relinked(self.drone, id, replacing(links)), ..self }
    }

    /// The configuration with another drop rate of a drone.
    pub open spec fn drone_rated(self, id: NodeId, pdr: u32) -> ConfigView {
        let k = first_index(self.drone, id);
        if entry_ids(self.drone).contains(id) {
            ConfigView {
                drone: self.drone.update(k, EntryView { pdr, ..self.drone[k] }),
                ..self
            }
        } else {
            self
        }
    }

    /// The configuration with another drone, which has no connections and loses nothing.
    pub open spec fn drone_added(self, id: NodeId) -> ConfigView {
        ConfigView {
            drone: self.drone.push(EntryView { id, pdr: 0, links: Seq::empty() }),
            ..self
        }
    }
}

impl ParsedConfig {
    /// A network without nodes.
    pub fn new() -> (r: Self)
        ensures
            r@ == (ConfigView { drone: Seq::empty(), client: Seq::empty(), server: Seq::empty() }),
    {
        let r = ParsedConfig { drone: Vec::new(), client: Vec::new(), server: Vec::new() };
        assert(r@ =~= ConfigView {
            drone: Seq::empty(),
            client: Seq::empty(),
            server: Seq::empty(),
        });
        r
    }

    /// The role of a node.
    pub fn node_type(&self, id: NodeId) -> (r: Option<NodeType>)
        ensures
            r == self@.node_type(id),
    {
        if has_entry(&self.drone, id) {
            Some(NodeType::Drone)
        } else if has_entry(&self.client, id) {
            Some(NodeType::Client)
        } else if has_entry(&self.server, id) {
            Some(NodeType::Server)
        } else {
            None
        }
    }

    /// Adds a drone without connections that loses nothing.
    pub fn add_drone(&mut self, id: NodeId)
        ensures
            final(self)@ == old(self)@.drone_added(id),
    {
        let d = DroneConfig { id, connected_node_ids: Vec::new(), pdr: 0 };
        assert(d@ =~= EntryView { id, pdr: 0, links: Seq::empty() });
        self.drone.push(d);
        assert(self@ =~= old(self)@.drone_added(id));
    }

    /// Sets the connections of a drone.
    pub fn set_drone_connections(&mut self, drone_id: NodeId, connections: &Vec<NodeId>)
        ensures
            final(self)@ == old(self)@.drone_replaced(drone_id, connections@),
    {
        replace_links(&mut self.drone, drone_id, connections);
    }

    /// Sets the drop rate of a drone.
    pub fn set_drone_pdr(&mut self, drone_id: NodeId, pdr: u32)
        ensures
            final(self)@ == old(self)@.drone_rated(drone_id, pdr),
    {
        let ghost s = self@.drone;
        if let Some(k) = find_entry(&self.drone, drone_id) {
            let links: Vec<NodeId> = copy_ids(&self.drone[k].connected_node_ids);
            let d = DroneConfig { id: drone_id, connected_node_ids: links, pdr };
            self.drone.set(k, d);
            assert(self@.drone =~= s.update(k as int, EntryView { pdr, ..s[k as int] }));
            assert(self@ =~= old(self)@.drone_rated(drone_id, pdr));
        }
    }

    /// Removes every connection to a drone.
    pub fn remove_drone_connections(&mut self, drone_id: NodeId)
        ensures
            final(self)@ == old(self)@.struck(drone_id),
    {
        strike(&mut self.drone, drone_id);
        strike(&mut self.client, drone_id);
        strike(&mut self.server, drone_id);
    }

    /// Removes the connections between drones and a client.
    pub fn remove_client_connections(&mut self, client_id: NodeId)
        ensures
            final(self)@.drone == struck(old(self)@.drone, client_id),
            final(self)@.client == relinked(
                old(self)@.client,
                client_id,
                replacing(Seq::<NodeId>::empty()),
            ),
            final(self)@.server == old(self)@.server,
    {
        strike(&mut self.drone, client_id);
        let none: Vec<NodeId> = Vec::new();
        assert(none@ =~= Seq::<NodeId>::empty());
        replace_links(&mut self.client, client_id, &none);
    }

    /// Removes the connections between drones and a server.
    pub fn remove_server_connections(&mut self, server_id: NodeId)
        ensures
            final(self)@.drone == struck(old(self)@.drone, server_id),
            final(self)@.server == relinked(
                old(self)@.server,
                server_id,
                replacing(Seq::<NodeId>::empty()),
            ),
            final(self)@.client == old(self)@.client,
    {
        strike(&mut self.drone, server_id);
        let none: Vec<NodeId> = Vec::new();
        assert(none@ =~= Seq::<NodeId>::empty());
        replace_links(&mut self.server, server_id, &none);
    }

    /// Removes the connection between two nodes.
    pub fn remove_connection(&mut self, a: NodeId, b: NodeId)
        ensures
            final(self)@ == old(self)@.unlinked(a, b),
    {
        unlink(&mut self.drone, a, b);
        unlink(&mut self.client, a, b);
        unlink(&mut self.server, a, b);
    }

    /// Connects a drone to a node.
    pub fn append_drone_connection(&mut self, drone_id: NodeId, peer: NodeId)
        ensures
            final(self)@ == old(self)@.drone_linked(drone_id, peer),
    {
        append_link(&mut self.drone, drone_id, peer);
    }

    /// Connects a server to a drone.
    pub fn append_server_connection(&mut self, server_id: NodeId, drone: NodeId)
        ensures
            final(self)@ == old(self)@.server_linked(server_id, drone),
    {
        append_link(&mut self.server, server_id, drone);
    }

    /// Connects a client to a drone.
    pub fn append_client_connection(&mut self, client_id: NodeId, drone: NodeId)
        ensures
            final(self)@ == old(self)@.client_linked(client_id, drone),
    {
        append_link(&mut self.client, client_id, drone);
    }
}

/// There is only one first entry for an id.
pub proof fn lemma_first_is_unique(s: Seq<EntryView>, id: NodeId, j: int, k: int)
    requires
        first_is(s, id, j),
        first_is(s, id, k),
    ensures
        j == k,
{
    if j < k {
        assert(s[j].id != id);
    } else if k < j {
        assert(s[k].id != id);
    }
}

/// An entry for `id` that is there has a first position.
pub proof fn lemma_first_index(s: Seq<EntryView>, id: NodeId)
    requires
        entry_ids(s).contains(id),
    ensures
        first_is(s, id, first_index(s, id)),
    decreases s.len(),
{
    let n = s.len() - 1;
    let t = s.drop_last();
    if entry_ids(t).contains(id) {
        lemma_first_index(t, id);
        let k = first_index(t, id);
        assert(first_is(s, id, k)) by {
            assert(s[k] == t[k]);
            assert forall|j: int| 0 <= j < k implies (#[trigger] s[j]).id != id by {
                assert(t[j].id != id);
            }
        }
    } else {
        let j = entry_ids(s).index_of(id);
        assert(s[j].id == id);
        if j < n {
            assert(entry_ids(t)[j] == id);
        }
        assert(first_is(s, id, n)) by {
            assert forall|i: int| 0 <= i < n implies (#[trigger] s[i]).id != id by {
                assert(entry_ids(t)[i] == s[i].id);
            }
        }
    }
}

/// Connecting two nodes once more changes nothing.
pub proof fn law_connecting_twice_changes_nothing(s: Seq<EntryView>, id: NodeId, peer: NodeId)
    ensures
        relinked(relinked(s, id, adding(peer)), id, adding(peer)) == relinked(s, id, adding(peer)),
{
    if entry_ids(s).contains(id) {
        let t = relinked(s, id, adding(peer));
        lemma_first_index(s, id);
        let k = first_index(s, id);
        assert(entry_ids(t)[k] == id);
        assert(first_is(t, id, k));
        lemma_first_is_unique(t, id, k, first_index(t, id));
        let links = s[k].links;
        if !links.contains(peer) {
            assert(links.push(peer)[links.len() as int] == peer);
        }
        assert(with_neighbour(links, peer).contains(peer));
        assert(t[k].links == with_neighbour(links, peer));
        assert(relinked(t, id, adding(peer)) =~= t);
    }
}

/// Once the connections to a node are removed, no node is connected to it, and the
/// other connections are there as before.
pub proof fn law_struck_nodes_are_cut_off(s: Seq<EntryView>, id: NodeId, k: int, x: NodeId)
    requires
        0 <= k < s.len(),
    ensures
        struck(s, id)[k].links.contains(x) <==> s[k].links.contains(x) && x != id,
        struck(s, id)[k].id == s[k].id,
{
    crate::packet::lemma_without_id(s[k].links, id);
}

}
