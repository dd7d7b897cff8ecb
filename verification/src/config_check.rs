//! What makes a configuration a valid network, and how its nodes are set up.
use crate::channels::SharedSenders;
use crate::config::{
    entries, entry_ids, find_entry, first_is, has_entry, ids_in_order, lemma_first_is_unique,
    ClientConfig, ConfigView, DroneConfig, EntryView, Linked, ParsedConfig, ServerConfig,
};
use crate::packet::{copy_ids, has_id, NodeId};
use crate::reach::{
    all_joined, both_ways, joined_from, lemma_joined_from_any, reaches_all,
};
use crate::text::{decimal, id_text, join3};
use vstd::prelude::*;

verus! {

/// What is wrong with a configuration.
#[derive(Clone, Copy, PartialEq, Eq, Structural, Debug)]
pub enum ConfigError {
    DuplicateId,
    ClientWithTooManyDrones,
    ClientWithoutDrone,
    DuplicateClientConnection,
    ClientConnectedToItself,
    ServerWithTooFewDrones,
    DuplicateServerConnection,
    ServerConnectedToItself,
    ClientLinkOneWay(NodeId, NodeId),
    ClientDroneMissing(NodeId, NodeId),
    ServerLinkOneWay(NodeId, NodeId),
    ServerDroneMissing(NodeId, NodeId),
    NotConnected,
    DronesNotConnected,
}

/// A message about two nodes.
pub open spec fn about_two(
    before: Seq<char>,
    a: NodeId,
    between: Seq<char>,
    b: NodeId,
    after: Seq<char>,
) -> Seq<char> {
    before + decimal(a as nat) + between + decimal(b as nat) + after
}

fn text_about_two(before: &str, a: NodeId, between: &str, b: NodeId, after: &str) -> (r: String)
    ensures
        r@ == about_two(before@, a, between@, b, after@),
{
    let first: String = join3(before, id_text(a).as_str(), between);
    join3(first.as_str(), id_text(b).as_str(), after)
}

impl ConfigError {
    /// The error in words.
    pub open spec fn words(self) -> Seq<char> {
        match self {
            ConfigError::DuplicateId => "Duplicate node ID found"@,
            ConfigError::ClientWithTooManyDrones => "Client cannot connect to more than 2 drones"@,
            ConfigError::ClientWithoutDrone => "Client must connect to at least 1 drone"@,
            ConfigError::DuplicateClientConnection => "Duplicate connection in client.connected_drone_ids"@,
            ConfigError::ClientConnectedToItself => "Client cannot connect to itself"@,
            ConfigError::ServerWithTooFewDrones => "Server must connect to at least 2 drones"@,
            ConfigError::DuplicateServerConnection => "Duplicate connection in server.connected_drone_ids"@,
            ConfigError::ServerConnectedToItself => "Server cannot connect to itself"@,
            ConfigError::ClientLinkOneWay(c, d) => about_two(
                "Connection between client "@,
                c,
                " and drone "@,
                d,
                " is not bidirectional"@,
            ),
            ConfigError::ClientDroneMissing(c, d) => about_two(
                "Client "@,
                c,
                " connects to non-existent drone "@,
                d,
                ""@,
            ),
            ConfigError::ServerLinkOneWay(s, d) => about_two(
                "Connection between server "@,
                s,
                " and drone "@,
                d,
                " is not bidirectional"@,
            ),
            ConfigError::ServerDroneMissing(s, d) => about_two(
                "Server "@,
                s,
                " connects to non-existent drone "@,
                d,
                ""@,
            ),
            ConfigError::NotConnected => "Graph is not connected"@,
            ConfigError::DronesNotConnected => "Drone-only graph is not connected (clients and servers must be at edges)"@,
        }
    }

    /// The error in words.
    pub fn message(&self) -> (r: String)
        ensures
            r@ == self.words(),
    {
        match *self {
            ConfigError::DuplicateId => "Duplicate node ID found".to_owned(),
            ConfigError::ClientWithTooManyDrones => "Client cannot connect to more than 2 drones".to_owned(),
            ConfigError::ClientWithoutDrone => "Client must connect to at least 1 drone".to_owned(),
            ConfigError::DuplicateClientConnection => "Duplicate connection in client.connected_drone_ids".to_owned(),
            ConfigError::ClientConnectedToItself => "Client cannot connect to itself".to_owned(),
            ConfigError::ServerWithTooFewDrones => "Server must connect to at least 2 drones".to_owned(),
            ConfigError::DuplicateServerConnection => "Duplicate connection in server.connected_drone_ids".to_owned(),
            ConfigError::ServerConnectedToItself => "Server cannot connect to itself".to_owned(),
            ConfigError::ClientLinkOneWay(c, d) => text_about_two(
                "Connection between client ",
                c,
                " and drone ",
                d,
                " is not bidirectional",
            ),
            ConfigError::ClientDroneMissing(c, d) => text_about_two(
                "Client ",
                c,
                " connects to non-existent drone ",
                d,
                "",
            ),
            ConfigError::ServerLinkOneWay(s, d) => text_about_two(
                "Connection between server ",
                s,
                " and drone ",
                d,
                " is not bidirectional",
            ),
            ConfigError::ServerDroneMissing(s, d) => text_about_two(
                "Server ",
                s,
                " connects to non-existent drone ",
                d,
                "",
            ),
            ConfigError::NotConnected => "Graph is not connected".to_owned(),
            ConfigError::DronesNotConnected => "Drone-only graph is not connected (clients and servers must be at edges)".to_owned(),
        }
    }
}

/// The first fault that `f` finds from `from` up to `to`.
pub open spec fn first_fault(
    f: spec_fn(int) -> Option<ConfigError>,
    from: int,
    to: int,
) -> Option<ConfigError>
    decreases to - from,
{
    if to <= from {
        None
    } else {
        match first_fault(f, from, to - 1) {
            Some(e) => Some(e),
            None => f(to - 1),
        }
    }
}

proof fn lemma_first_fault_stays(f: spec_fn(int) -> Option<ConfigError>, from: int, k: int, to: int)
    requires
        from <= k <= to,
        first_fault(f, from, k) is Some,
    ensures
        first_fault(f, from, to) == first_fault(f, from, k),
    decreases to - k,
{
    if k < to {
        lemma_first_fault_stays(f, from, k, to - 1);
    }
}

proof fn lemma_no_fault(f: spec_fn(int) -> Option<ConfigError>, from: int, to: int, k: int)
    requires
        first_fault(f, from, to) is None,
        from <= k < to,
    ensures
        f(k) is None,
    decreases to - from,
{
    if k < to - 1 {
        lemma_no_fault(f, from, to - 1, k);
    }
}

/// The fault of a client on its own.
pub open spec fn client_fault(e: EntryView) -> Option<ConfigError> {
    if e.links.len() > 2 {
        Some(ConfigError::ClientWithTooManyDrones)
    } else if e.links.len() == 0 {
        Some(ConfigError::ClientWithoutDrone)
    } else if !e.links.no_duplicates() {
        Some(ConfigError::DuplicateClientConnection)
    } else if e.links.contains(e.id) {
        Some(ConfigError::ClientConnectedToItself)
    } else {
        None
    }
}

/// The fault of a server on its own.
pub open spec fn server_fault(e: EntryView) -> Option<ConfigError> {
    if e.links.len() < 2 {
        Some(ConfigError::ServerWithTooFewDrones)
    } else if !e.links.no_duplicates() {
        Some(ConfigError::DuplicateServerConnection)
    } else if e.links.contains(e.id) {
        Some(ConfigError::ServerConnectedToItself)
    } else {
        None
    }
}

/// The nodes `j` up to `i` with the id `id` include one that is connected to `peer`.
pub open spec fn linked_up_to(all: Seq<EntryView>, i: int, id: NodeId, peer: NodeId) -> bool {
    exists|j: int| 0 <= j <= i && (#[trigger] all[j]).id == id && all[j].links.contains(peer)
}

impl ConfigView {
    /// The fault of node `i`: a node of the same id before it, or one of its own.
    pub open spec fn node_fault(self, i: int) -> Option<ConfigError> {
        let all = self.nodes();
        if entry_ids(all).subrange(0, i).contains(all[i].id) {
            Some(ConfigError::DuplicateId)
        } else if i < self.drone.len() {
            None
        } else if i < self.drone.len() + self.client.len() {
            client_fault(all[i])
        } else {
            server_fault(all[i])
        }
    }

    /// The fault of connection `k` of node `i`: its other end is missing or does not
    /// know of it.
    pub open spec fn link_fault(self, i: int, k: int) -> Option<ConfigError> {
        let all = self.nodes();
        let id = all[i].id;
        let d = all[i].links[k];
        let client = i < self.drone.len() + self.client.len();
        if !entry_ids(all).subrange(0, i + 1).contains(d) {
            Some(
                if client {
                    ConfigError::ClientDroneMissing(id, d)
                } else {
                    ConfigError::ServerDroneMissing(id, d)
                },
            )
        } else if !linked_up_to(all, i, d, id) {
            Some(
                if client {
                    ConfigError::ClientLinkOneWay(id, d)
                } else {
                    ConfigError::ServerLinkOneWay(id, d)
                },
            )
        } else {
            None
        }
    }

    /// The first fault among the connections of node `i`.
    pub open spec fn links_fault(self, i: int) -> Option<ConfigError> {
        first_fault(|k: int| self.link_fault(i, k), 0, self.nodes()[i].links.len() as int)
    }

    /// The first fault of a node on its own.
    pub open spec fn own_fault(self) -> Option<ConfigError> {
        first_fault(|i: int| self.node_fault(i), 0, self.nodes().len() as int)
    }

    /// The first connection of a client or a server that is not there both ways.
    pub open spec fn one_way_fault(self) -> Option<ConfigError> {
        first_fault(
            |i: int| self.links_fault(i),
            self.drone.len() as int,
            self.nodes().len() as int,
        )
    }

    /// The first fault, apart from what the drones are like among themselves.
    pub open spec fn fault(self) -> Option<ConfigError> {
        match self.own_fault() {
            Some(e) => Some(e),
            None => match self.one_way_fault() {
                Some(e) => Some(e),
                None => if connected(self.nodes()) {
                    None
                } else {
                    Some(ConfigError::NotConnected)
                },
            },
        }
    }
}

/// The connections of some nodes.
pub open spec fn out_links(s: Seq<EntryView>) -> Seq<(NodeId, NodeId)>
    decreases s.len(),
{
    if s.len() == 0 {
        Seq::empty()
    } else {
        out_links(s.drop_last()) + s.last().links.map_values(|l: NodeId| (s.last().id, l))
    }
}

/// The links with their reverses.
pub open spec fn with_reverses(links: Seq<(NodeId, NodeId)>) -> Seq<(NodeId, NodeId)> {
    links + links.map_values(|p: (NodeId, NodeId)| (p.1, p.0))
}

/// The ids of some nodes and of those that they are connected to.
pub open spec fn network_ids(s: Seq<EntryView>) -> Seq<NodeId> {
    entry_ids(s) + out_links(s).map_values(|p: (NodeId, NodeId)| p.1)
}

/// Connections, taken both ways, lead from each node to every other one.
pub open spec fn connected(s: Seq<EntryView>) -> bool {
    all_joined(with_reverses(out_links(s)), network_ids(s))
}

/// The connections between drones.
pub open spec fn drone_links(s: Seq<EntryView>) -> Seq<(NodeId, NodeId)> {
    out_links(s).filter(|p: (NodeId, NodeId)| entry_ids(s).contains(p.1))
}

/// The connections between drones lead from `start` to every drone.
pub open spec fn drones_joined(s: Seq<EntryView>, start: NodeId) -> bool {
    joined_from(drone_links(s), entry_ids(s), start)
}

proof fn lemma_with_reverses(links: Seq<(NodeId, NodeId)>)
    ensures
        both_ways(with_reverses(links)),
{
    let all = with_reverses(links);
    let back = links.map_values(|p: (NodeId, NodeId)| (p.1, p.0));
    assert forall|a: NodeId, b: NodeId| #[trigger] all.contains((a, b)) implies all.contains((b, a)) by {
        let i = all.index_of((a, b));
        if i < links.len() {
            assert(back[i] == (b, a));
            assert(all[i + links.len()] == (b, a));
        } else {
            assert(back[i - links.len()] == (a, b));
            assert(links[i - links.len()] == (b, a));
            assert(all[i - links.len()] == (b, a));
        }
    }
}

/// A copy of some nodes, behind those of a list.
fn list_nodes<T: Linked>(all: &mut Vec<DroneConfig>, v: &Vec<T>)
    requires
        forall|i: int| 0 <= i < v@.len() ==> (#[trigger] v@[i]).entry().pdr == 0,
    ensures
        entries(final(all)@) == entries(old(all)@) + entries(v@),
{
    let ghost s = entries(all@);
    let ghost t = entries(v@);
    let mut i: usize = 0;
    assert(entries(all@) =~= s + t.subrange(0, 0));
    while i < v.len()
        invariant
            i <= v@.len(),
            t == entries(v@),
            forall|j: int| 0 <= j < v@.len() ==> (#[trigger] v@[j]).entry().pdr == 0,
            entries(all@) == s + t.subrange(0, i as int),
        decreases v@.len() - i,
    {
        assert(v@[i as int].entry().pdr == 0);
        let ghost before = all@;
        let d = DroneConfig {
            id: v[i].node_id(),
            connected_node_ids: copy_ids(v[i].links()),
            pdr: 0,
        };
        assert(d@ =~= t[i as int]);
        all.push(d);
        i = i + 1;
        assert(entries(all@) =~= entries(before).push(d@));
        assert(entries(all@) =~= s + t.subrange(0, i as int));
    }
    assert(t.subrange(0, i as int) =~= t);
}

fn distinct(v: &Vec<NodeId>) -> (r: bool)
    ensures
        r == v@.no_duplicates(),
{
    let mut i: usize = 0;
    while i < v.len()
        invariant
            i <= v@.len(),
            v@.subrange(0, i as int).no_duplicates(),
        decreases v@.len() - i,
    {
        let mut j: usize = 0;
        while j < i
            invariant
                j <= i < v@.len(),
                forall|k: int| 0 <= k < j ==> v@[k] != v@[i as int],
            decreases i - j,
        {
            if v[j] == v[i] {
                assert(!v@.no_duplicates());
                return false;
            }
            j = j + 1;
        }
        i = i + 1;
    }
    assert(v@.subrange(0, i as int) =~= v@);
    true
}

fn check_client(id: NodeId, links: &Vec<NodeId>, Ghost(e): Ghost<EntryView>) -> (r: Option<ConfigError>)
    requires
        e.id == id,
        e.links == links@,
    ensures
        r == client_fault(e),
{
    if links.len() > 2 {
        Some(ConfigError::ClientWithTooManyDrones)
    } else if links.len() == 0 {
        Some(ConfigError::ClientWithoutDrone)
    } else if !distinct(links) {
        Some(ConfigError::DuplicateClientConnection)
    } else if has_id(links, id) {
        Some(ConfigError::ClientConnectedToItself)
    } else {
        None
    }
}

fn check_server(id: NodeId, links: &Vec<NodeId>, Ghost(e): Ghost<EntryView>) -> (r: Option<ConfigError>)
    requires
        e.id == id,
        e.links == links@,
    ensures
        r == server_fault(e),
{
    if links.len() < 2 {
        Some(ConfigError::ServerWithTooFewDrones)
    } else if !distinct(links) {
        Some(ConfigError::DuplicateServerConnection)
    } else if has_id(links, id) {
        Some(ConfigError::ServerConnectedToItself)
    } else {
        None
    }
}

/// The links of some nodes.
fn list_links(all: &Vec<DroneConfig>) -> (r: Vec<(NodeId, NodeId)>)
    ensures
        r@ == out_links(entries(all@)),
{
    let ghost s = entries(all@);
    let mut r: Vec<(NodeId, NodeId)> = Vec::new();
    let mut i: usize = 0;
    while i < all.len()
        invariant
            i <= all@.len(),
            s == entries(all@),
            r@ == out_links(s.subrange(0, i as int)),
        decreases all@.len() - i,
    {
        let ghost before = r@;
        let ghost e = s[i as int];
        let ghost more = e.links.map_values(|l: NodeId| (e.id, l));
        let id: NodeId = all[i].id;
        let links: &Vec<NodeId> = &all[i].connected_node_ids;
        let mut k: usize = 0;
        assert(r@ =~= before + more.subrange(0, 0));
        while k < links.len()
            invariant
                k <= links@.len(),
                e.id == id,
                e.links == links@,
                more == e.links.map_values(|l: NodeId| (e.id, l)),
                r@ == before + more.subrange(0, k as int),
            decreases links@.len() - k,
        {
            r.push((id, links[k]));
            k = k + 1;
            assert(r@ =~= before + more.subrange(0, k as int));
        }
        proof {
            assert(more.subrange(0, k as int) =~= more);
            let t = s.subrange(0, i + 1);
            assert(t.drop_last() =~= s.subrange(0, i as int));
            assert(t.last() == e);
        }
        i = i + 1;
    }
    assert(s.subrange(0, i as int) =~= s);
    r
}

impl ParsedConfig {
    /// All nodes in one list.
    fn all_nodes(&self) -> (r: Vec<DroneConfig>)
        ensures
            entries(r@) == self@.nodes(),
    {
        let mut r: Vec<DroneConfig> = Vec::new();
        let ghost t = entries(self.drone@);
        let mut i: usize = 0;
        while i < self.drone.len()
            invariant
                i <= self.drone@.len(),
                t == entries(self.drone@),
                entries(r@) == t.subrange(0, i as int),
            decreases self.drone@.len() - i,
        {
            let ghost before = r@;
            let d = DroneConfig {
                id: self.drone[i].id,
                connected_node_ids: copy_ids(&self.drone[i].connected_node_ids),
                pdr: self.drone[i].pdr,
            };
            assert(d@ =~= t[i as int]);
            r.push(d);
            i = i + 1;
            assert(entries(r@) =~= entries(before).push(d@));
            assert(entries(r@) =~= t.subrange(0, i as int));
        }
        assert(t.subrange(0, i as int) =~= t);
        list_nodes(&mut r, &self.client);
        list_nodes(&mut r, &self.server);
        r
    }

    /// Checks the nodes on their own.
    fn check_nodes(&self, all: &Vec<DroneConfig>) -> (r: Option<ConfigError>)
        requires
            entries(all@) == self@.nodes(),
        ensures
            r == self@.own_fault(),
    {
        let ghost c = self@;
        let ghost s = c.nodes();
        let ghost f = |i: int| c.node_fault(i);
        let ids: Vec<NodeId> = ids_in_order(all);
        let drones: usize = self.drone.len();
        let clients: usize = self.client.len();
        let mut i: usize = 0;
        while i < all.len()
            invariant
                i <= all@.len(),
                all@.len() == s.len(),
                c == self@,
                s == c.nodes(),
                s == entries(all@),
                c.drone.len() == drones,
                c.client.len() == clients,
                c.server.len() + drones + clients == all@.len(),
                ids@ == entry_ids(s),
                f == (|i: int| c.node_fault(i)),
                first_fault(f, 0, i as int) is None,
            decreases all@.len() - i,
        {
            let id: NodeId = all[i].id;
            let ghost e = s[i as int];
            assert(all@[i as int].entry() == e);
            let mut known: bool = false;
            let mut j: usize = 0;
            while j < i
                invariant
                    j <= i < all@.len(),
                    ids@ == entry_ids(s),
                    ids@.len() == all@.len(),
                    known == ids@.subrange(0, j as int).contains(id),
                decreases i - j,
            {
                proof {
                    let a = ids@.subrange(0, j as int);
                    let b = ids@.subrange(0, j + 1);
                    assert(b =~= a.push(ids@[j as int]));
                    assert(b[j as int] == ids@[j as int]);
                    if a.contains(id) {
                        let k = a.index_of(id);
                        assert(b[k] == id);
                    }
                    if b.contains(id) && ids@[j as int] != id {
                        let k = b.index_of(id);
                        assert(a[k] == id);
                    }
                }
                if ids[j] == id {
                    known = true;
                }
                j = j + 1;
            }
            let fault: Option<ConfigError> = if known {
                Some(ConfigError::DuplicateId)
            } else if i < drones {
                None
            } else if i - drones < clients {
                check_client(id, &all[i].connected_node_ids, Ghost(e))
            } else {
                check_server(id, &all[i].connected_node_ids, Ghost(e))
            };
            assert(fault == f(i as int));
            if fault.is_some() {
                proof {
                    assert(first_fault(f, 0, i + 1) == fault);
                    lemma_first_fault_stays(f, 0, i + 1, all@.len() as int);
                }
                return fault;
            }
            i = i + 1;
        }
        None
    }

    /// Checks one connection of a client or a server.
    fn check_link(&self, all: &Vec<DroneConfig>, i: usize, k: usize) -> (r: Option<ConfigError>)
        requires
            entries(all@) == self@.nodes(),
            self@.drone.len() <= i < all@.len(),
            k < all@[i as int].connected_node_ids@.len(),
        ensures
            r == self@.link_fault(i as int, k as int),
    {
        let ghost c = self@;
        let ghost s = c.nodes();
        let id: NodeId = all[i].id;
        let d: NodeId = all[i].connected_node_ids[k];
        assert(all@[i as int].entry() == s[i as int]);
        let client: bool = i - self.drone.len() < self.client.len();
        let mut known: bool = false;
        let mut linked: bool = false;
        let size: usize = all.len();
        let mut j: usize = 0;
        while j <= i
            invariant
                j <= i + 1,
                i < size == all@.len(),
                s == entries(all@),
                known <==> exists|m: int| 0 <= m < j && (#[trigger] s[m]).id == d,
                linked <==> exists|m: int|
                    0 <= m < j && (#[trigger] s[m]).id == d && s[m].links.contains(id),
            decreases i + 1 - j,
        {
            assert(all@[j as int].entry() == s[j as int]);
            if all[j].id == d {
                known = true;
                if has_id(&all[j].connected_node_ids, id) {
                    linked = true;
                }
            }
            j = j + 1;
        }
        proof {
            let ids = entry_ids(s).subrange(0, i + 1);
            if known {
                let m = choose|m: int| 0 <= m < j && (#[trigger] s[m]).id == d;
                assert(ids[m] == d);
            }
            if ids.contains(d) {
                let m = ids.index_of(d);
                assert(s[m].id == d);
            }
            assert(known == ids.contains(d));
            assert(linked == linked_up_to(s, i as int, d, id));
        }
        if !known {
            if client {
                Some(ConfigError::ClientDroneMissing(id, d))
            } else {
                Some(ConfigError::ServerDroneMissing(id, d))
            }
        } else if !linked {
            if client {
                Some(ConfigError::ClientLinkOneWay(id, d))
            } else {
                Some(ConfigError::ServerLinkOneWay(id, d))
            }
        } else {
            None
        }
    }

    /// Checks that the connections of clients and servers are there both ways.
    fn check_bidirectional_connections(&self, all: &Vec<DroneConfig>) -> (r: Option<ConfigError>)
        requires
            entries(all@) == self@.nodes(),
        ensures
            r == self@.one_way_fault(),
    {
        let ghost c = self@;
        let ghost s = c.nodes();
        let ghost f = |i: int| c.links_fault(i);
        let from: usize = self.drone.len();
        let mut i: usize = from;
        while i < all.len()
            invariant
                from <= i <= all@.len(),
                c == self@,
                s == c.nodes(),
                s == entries(all@),
                from == c.drone.len(),
                f == (|i: int| c.links_fault(i)),
                first_fault(f, from as int, i as int) is None,
            decreases all@.len() - i,
        {
            let ghost g = |k: int| c.link_fault(i as int, k);
            assert(all@[i as int].entry() == s[i as int]);
            let mut k: usize = 0;
            while k < all[i].connected_node_ids.len()
                invariant
                    from <= i < all@.len(),
                    c == self@,
                    s == c.nodes(),
                    s == entries(all@),
                    from == c.drone.len(),
                    all@[i as int].connected_node_ids@ == s[i as int].links,
                    f == (|i: int| c.links_fault(i)),
                    first_fault(f, from as int, i as int) is None,
                    g == (|k: int| c.link_fault(i as int, k)),
                    k <= all@[i as int].connected_node_ids@.len(),
                    first_fault(g, 0, k as int) is None,
                decreases all@[i as int].connected_node_ids@.len() - k,
            {
                let fault: Option<ConfigError> = self.check_link(all, i, k);
                assert(fault == g(k as int));
                if fault.is_some() {
                    proof {
                        assert(first_fault(g, 0, k + 1) == fault);
                        lemma_first_fault_stays(g, 0, k + 1, s[i as int].links.len() as int);
                        assert(f(i as int) == fault);
                        assert(first_fault(f, from as int, i + 1) == fault);
                        lemma_first_fault_stays(f, from as int, i + 1, s.len() as int);
                    }
                    return fault;
                }
                k = k + 1;
            }
            assert(f(i as int) is None);
            i = i + 1;
        }
        None
    }

    /// Checks that the network is in one piece.
    fn check_connected_graph(&self, all: &Vec<DroneConfig>) -> (r: bool)
        requires
            entries(all@) == self@.nodes(),
        ensures
            r == connected(self@.nodes()),
    {
        let ghost s = self@.nodes();
        let mut links: Vec<(NodeId, NodeId)> = list_links(all);
        let mut ids: Vec<NodeId> = ids_in_order(all);
        let ghost forward = links@;
        let ghost back = forward.map_values(|p: (NodeId, NodeId)| (p.1, p.0));
        let ghost ends = forward.map_values(|p: (NodeId, NodeId)| p.1);
        let n: usize = links.len();
        let mut i: usize = 0;
        assert(links@ =~= forward + back.subrange(0, 0));
        assert(ids@ =~= entry_ids(s) + ends.subrange(0, 0));
        while i < n
            invariant
                i <= n,
                n == forward.len(),
                back == forward.map_values(|p: (NodeId, NodeId)| (p.1, p.0)),
                ends == forward.map_values(|p: (NodeId, NodeId)| p.1),
                links@ == forward + back.subrange(0, i as int),
                ids@ == entry_ids(s) + ends.subrange(0, i as int),
            decreases n - i,
        {
            let p: (NodeId, NodeId) = links[i];
            assert(p == forward[i as int]);
            links.push((p.1, p.0));
            ids.push(p.1);
            i = i + 1;
            assert(links@ =~= forward + back.subrange(0, i as int));
            assert(ids@ =~= entry_ids(s) + ends.subrange(0, i as int));
        }
        assert(links@ =~= with_reverses(forward));
        assert(ids@ =~= network_ids(s));
        if ids.len() == 0 {
            return true;
        }
        let start: NodeId = ids[0];
        proof {
            assert(ids@.contains(start));
            lemma_with_reverses(forward);
            lemma_joined_from_any(links@, ids@, start);
        }
        reaches_all(&links, &ids, start)
    }

    /// Checks that the connections between drones lead from `start` to all drones.
    pub fn check_edges_property(&self, start: NodeId) -> (r: bool)
        requires
            entry_ids(self@.drone).no_duplicates(),
        ensures
            r == drones_joined(self@.drone, start),
    {
        let ids: Vec<NodeId> = ids_in_order(&self.drone);
        let all: Vec<(NodeId, NodeId)> = list_links(&self.drone);
        let ghost keep = |p: (NodeId, NodeId)| entry_ids(self@.drone).contains(p.1);
        let mut links: Vec<(NodeId, NodeId)> = Vec::new();
        let mut i: usize = 0;
        assert(all@.subrange(0, 0).filter(keep) =~= Seq::empty()) by {
            reveal(Seq::filter);
        }
        while i < all.len()
            invariant
                i <= all@.len(),
                ids@ == entry_ids(self@.drone),
                keep == (|p: (NodeId, NodeId)| entry_ids(self@.drone).contains(p.1)),
                links@ == all@.subrange(0, i as int).filter(keep),
            decreases all@.len() - i,
        {
            proof {
                reveal(Seq::filter);
                let t = all@.subrange(0, i + 1);
                assert(t.drop_last() =~= all@.subrange(0, i as int));
                assert(t.last() == all@[i as int]);
            }
            let p: (NodeId, NodeId) = all[i];
            if has_id(&ids, p.1) {
                links.push(p);
            }
            i = i + 1;
        }
        assert(all@.subrange(0, i as int) =~= all@);
        assert(links@ == drone_links(self@.drone));
        reaches_all(&links, &ids, start)
    }

    /// Checks a configuration. Which drone the last check starts from is left open.
    pub fn validate_config(&self) -> (r: Result<(), ConfigError>)
        ensures
            match self@.fault() {
                Some(e) => r == Err::<(), ConfigError>(e),
                None => if self@.drone.len() == 0 {
                    r is Ok
                } else {
                    exists|start: NodeId| #[trigger]
                        entry_ids(self@.drone).contains(start) && r == (if drones_joined(
                            self@.drone,
                            start,
                        ) {
                            Ok::<(), ConfigError>(())
                        } else {
                            Err::<(), ConfigError>(ConfigError::DronesNotConnected)
                        })
                },
            },
    {
        let all: Vec<DroneConfig> = self.all_nodes();
        if let Some(e) = self.check_nodes(&all) {
            return Err(e);
        }
        if let Some(e) = self.check_bidirectional_connections(&all) {
            return Err(e);
        }
        if !self.check_connected_graph(&all) {
            return Err(ConfigError::NotConnected);
        }
        if self.drone.len() == 0 {
            return Ok(());
        }
        let start: NodeId = self.drone[0].id;
        proof {
            lemma_distinct_ids(self@);
            let ids = entry_ids(self@.drone);
            assert forall|a: int, b: int| 0 <= a < b < ids.len() implies ids[a] != ids[b] by {
                assert(entry_ids(self@.nodes())[a] == ids[a]);
                assert(entry_ids(self@.nodes())[b] == ids[b]);
            }
        }
        assert(entry_ids(self@.drone)[0] == start);
        assert(entry_ids(self@.drone).contains(start));
        if self.check_edges_property(start) {
            Ok(())
        } else {
            Err(ConfigError::DronesNotConnected)
        }
    }
}

/// Nodes without a fault of their own have distinct ids.
proof fn lemma_distinct_ids(c: ConfigView)
    requires
        c.own_fault() is None,
    ensures
        entry_ids(c.nodes()).no_duplicates(),
{
    let s = c.nodes();
    let ids = entry_ids(s);
    let f = |i: int| c.node_fault(i);
    assert forall|a: int, b: int| 0 <= a < b < ids.len() implies ids[a] != ids[b] by {
        lemma_no_fault(f, 0, s.len() as int, b);
        assert(f(b) is None);
        if ids[a] == ids[b] {
            assert(ids.subrange(0, b)[a] == s[b].id);
        }
    }
}

/// A configuration without a fault is a network with distinct ids, whose clients have
/// one or two drones and whose servers have two or more, all of them different nodes
/// that know of the connection, and it is in one piece.
pub proof fn law_valid_configurations(c: ConfigView, i: int)
    requires
        c.fault() is None,
        0 <= i < c.nodes().len(),
    ensures
        connected(c.nodes()),
        entry_ids(c.nodes()).no_duplicates(),
        c.drone.len() <= i ==> {
            let e = c.nodes()[i];
            &&& e.links.no_duplicates()
            &&& !e.links.contains(e.id)
            &&& if i < c.drone.len() + c.client.len() {
                1 <= e.links.len() <= 2
            } else {
                2 <= e.links.len()
            }
            &&& forall|k: int|
                0 <= k < e.links.len() ==> linked_up_to(
                    c.nodes(),
                    c.nodes().len() - 1,
                    #[trigger] e.links[k],
                    e.id,
                )
        },
{
    let s = c.nodes();
    let f = |i: int| c.node_fault(i);
    let g = |i: int| c.links_fault(i);
    lemma_distinct_ids(c);
    if c.drone.len() <= i {
        lemma_no_fault(f, 0, s.len() as int, i);
        assert(f(i) is None);
        lemma_no_fault(g, c.drone.len() as int, s.len() as int, i);
        assert(g(i) is None);
        let e = s[i];
        let h = |k: int| c.link_fault(i, k);
        assert forall|k: int| 0 <= k < e.links.len() implies linked_up_to(
            s,
            s.len() - 1,
            #[trigger] e.links[k],
            e.id,
        ) by {
            lemma_no_fault(h, 0, e.links.len() as int, k);
            assert(h(k) is None);
            let j = choose|j: int|
                0 <= j <= i && (#[trigger] s[j]).id == e.links[k] && s[j].links.contains(e.id);
            assert(s[j].id == e.links[k]);
        }
    }
}

/// Drones, clients and servers as they stand in a file.
#[derive(PartialEq, Eq, Debug)]
pub struct NetworkConfig {
    pub drones: Vec<DroneConfig>,
    pub clients: Vec<ClientConfig>,
    pub servers: Vec<ServerConfig>,
}

impl View for NetworkConfig {
    type V = ConfigView;

    open spec fn view(&self) -> ConfigView {
        ConfigView {
            drone: entries(self.drones@),
            client: entries(self.clients@),
            server: entries(self.servers@),
        }
    }
}

/// Entry `k` is the first with more than `most` connections.
pub open spec fn first_over(s: Seq<EntryView>, most: nat, k: int) -> bool {
    &&& 0 <= k < s.len()
    &&& s[k].links.len() > most
    &&& forall|j: int| 0 <= j < k ==> (#[trigger] s[j]).links.len() <= most
}

/// Entry `k` is the first with fewer than `least` connections.
pub open spec fn first_under(s: Seq<EntryView>, least: nat, k: int) -> bool {
    &&& 0 <= k < s.len()
    &&& s[k].links.len() < least
    &&& forall|j: int| 0 <= j < k ==> (#[trigger] s[j]).links.len() >= least
}

/// No entry has more than `most` connections.
pub open spec fn none_over(s: Seq<EntryView>, most: nat) -> bool {
    forall|j: int| 0 <= j < s.len() ==> (#[trigger] s[j]).links.len() <= most
}

/// No entry has fewer than `least` connections.
pub open spec fn none_under(s: Seq<EntryView>, least: nat) -> bool {
    forall|j: int| 0 <= j < s.len() ==> (#[trigger] s[j]).links.len() >= least
}

/// The complaint about the number of connections of a client.
pub open spec fn client_complaint(id: NodeId) -> Seq<char> {
    "Client "@ + decimal(id as nat) + " is connected to more than 2 drones"@
}

/// The complaint about the number of connections of a server.
pub open spec fn server_complaint(id: NodeId) -> Seq<char> {
    "Server "@ + decimal(id as nat) + " must connect to at least 2 drones"@
}

/// `r` is the verdict on a configuration: distinct ids, clients with at most two
/// drones, servers with at least two.
pub open spec fn verdict(c: ConfigView, r: Result<(), Seq<char>>) -> bool {
    if !entry_ids(c.nodes()).no_duplicates() {
        r == Err::<(), Seq<char>>("Duplicate node IDs found"@)
    } else if !none_over(c.client, 2) {
        exists|k: int| #[trigger]
            first_over(c.client, 2, k) && r == Err::<(), Seq<char>>(
                client_complaint(c.client[k].id),
            )
    } else if !none_under(c.server, 2) {
        exists|k: int| #[trigger]
            first_under(c.server, 2, k) && r == Err::<(), Seq<char>>(
                server_complaint(c.server[k].id),
            )
    } else {
        r is Ok
    }
}

/// A result by the text of its error.
pub open spec fn result_text(r: Result<(), String>) -> Result<(), Seq<char>> {
    match r {
        Ok(_) => Ok(()),
        Err(s) => Err(s@),
    }
}

fn append_ids<T: Linked>(ids: &mut Vec<NodeId>, v: &Vec<T>)
    ensures
        final(ids)@ == old(ids)@ + entry_ids(entries(v@)),
{
    let mut more: Vec<NodeId> = ids_in_order(v);
    ids.append(&mut more);
}

impl NetworkConfig {
    /// Checks a configuration.
    pub fn validate(&self) -> (r: Result<(), String>)
        ensures
            verdict(self@, result_text(r)),
    {
        let ghost c = self@;
        let mut ids: Vec<NodeId> = Vec::new();
        append_ids(&mut ids, &self.drones);
        append_ids(&mut ids, &self.clients);
        append_ids(&mut ids, &self.servers);
        assert(ids@ =~= entry_ids(c.nodes()));
        if !distinct(&ids) {
            return Err("Duplicate node IDs found".to_owned());
        }
        let mut i: usize = 0;
        while i < self.clients.len()
            invariant
                i <= self.clients@.len(),
                c == self@,
                entry_ids(c.nodes()).no_duplicates(),
                forall|j: int| 0 <= j < i ==> (#[trigger] c.client[j]).links.len() <= 2,
            decreases self.clients@.len() - i,
        {
            assert(c.client[i as int] == self.clients@[i as int]@);
            if self.clients[i].connected_drone_ids.len() > 2 {
                assert(first_over(c.client, 2, i as int));
                return Err(
                    join3(
                        "Client ",
                        id_text(self.clients[i].id).as_str(),
                        " is connected to more than 2 drones",
                    ),
                );
            }
            i = i + 1;
        }
        let mut k: usize = 0;
        while k < self.servers.len()
            invariant
                k <= self.servers@.len(),
                c == self@,
                entry_ids(c.nodes()).no_duplicates(),
                none_over(c.client, 2),
                forall|j: int| 0 <= j < k ==> (#[trigger] c.server[j]).links.len() >= 2,
            decreases self.servers@.len() - k,
        {
            assert(c.server[k as int] == self.servers@[k as int]@);
            if self.servers[k].connected_drone_ids.len() < 2 {
                assert(first_under(c.server, 2, k as int));
                return Err(
                    join3(
                        "Server ",
                        id_text(self.servers[k].id).as_str(),
                        " must connect to at least 2 drones",
                    ),
                );
            }
            k = k + 1;
        }
        Ok(())
    }
}

/// The two makes of client.
#[derive(Clone, Copy, PartialEq, Eq, Structural, Debug)]
pub enum ClientMake {
    First,
    Second,
}

/// The make of client `i` of `count`: where there are two, an even id gives the second
/// make; otherwise the makes take turns.
pub open spec fn make_of(count: int, i: int, id: NodeId) -> ClientMake {
    let even = if count == 2 {
        id % 2 == 0
    } else {
        i % 2 == 0
    };
    if even {
        ClientMake::Second
    } else {
        ClientMake::First
    }
}

/// The make of a client.
pub fn client_make(count: usize, i: usize, id: NodeId) -> (r: ClientMake)
    ensures
        r == make_of(count as int, i as int, id),
{
    let even: bool = if count == 2 {
        id % 2 == 0
    } else {
        i % 2 == 0
    };
    if even {
        ClientMake::Second
    } else {
        ClientMake::First
    }
}

/// The first of `drones` drones that group `g` of `groups` gets: every group gets the
/// same number, and the first ones get one more as far as some are left over.
pub open spec fn share_start(drones: int, groups: int, g: int) -> int {
    g * (drones / groups) + (if g < drones % groups {
        g
    } else {
        drones % groups
    })
}

/// Shares drones out among groups: the group of each drone.
pub fn share_out(drones: usize, groups: usize) -> (r: Vec<usize>)
    requires
        groups > 0,
    ensures
        r@.len() == drones,
        forall|k: int|
            0 <= k < drones ==> (#[trigger] r@[k]) < groups && share_start(
                drones as int,
                groups as int,
                r@[k] as int,
            ) <= k < share_start(drones as int, groups as int, r@[k] + 1),
{
    let each: usize = drones / groups;
    let over: usize = drones % groups;
    let mut r: Vec<usize> = Vec::new();
    let mut g: usize = 0;
    let mut count: usize = 0;
    let mut k: usize = 0;
    let ghost d = drones as int;
    let ghost m = groups as int;
    proof {
        assert(share_start(d, m, m) == d) by (nonlinear_arith)
            requires
                m > 0,
                d >= 0,
                share_start(d, m, m) == m * (d / m) + d % m,
        ;
    }
    assert(0 * each == 0);
    while k < drones
        invariant
            k <= drones,
            d == drones,
            m == groups,
            m > 0,
            each == d / m,
            over == d % m,
            share_start(d, m, m) == d,
            g < groups,
            count <= share_start(d, m, g + 1) - share_start(d, m, g as int),
            share_start(d, m, g as int) + count == k,
            r@.len() == k,
            forall|j: int|
                0 <= j < k ==> (#[trigger] r@[j]) < groups && share_start(d, m, r@[j] as int) <= j
                    < share_start(d, m, r@[j] + 1),
        decreases drones - k,
    {
        proof {
            lemma_share(d, m, g as int);
            lemma_share(d, m, g + 1);
        }
        assert(d % m > 0 ==> d / m + 1 <= d) by (nonlinear_arith)
            requires
                m > 0,
                d >= 0,
        ;
        let size: usize = if g < over {
            each + 1
        } else {
            each
        };
        if count >= size {
            proof {
                lemma_share_ends(d, m, g as int, k as int);
            }
            g = g + 1;
            count = 0;
        }
        proof {
            lemma_share_fits(d, m, g as int, k as int);
        }
        r.push(g);
        count = count + 1;
        k = k + 1;
    }
    r
}

/// The size of a share.
proof fn lemma_share(d: int, m: int, g: int)
    requires
        m > 0,
        d >= 0,
        g >= 0,
    ensures
        share_start(d, m, g + 1) - share_start(d, m, g) == d / m + (if g < d % m {
            1int
        } else {
            0int
        }),
{
    assert((g + 1) * (d / m) == g * (d / m) + d / m) by (nonlinear_arith);
}

/// Shares that all come before `k` are not the last one.
proof fn lemma_share_ends(d: int, m: int, g: int, k: int)
    requires
        m > 0,
        0 <= g < m,
        share_start(d, m, g + 1) <= k < d,
        share_start(d, m, m) == d,
    ensures
        g + 1 < m,
{
}

/// A share that begins before the last drone is not empty.
proof fn lemma_share_fits(d: int, m: int, g: int, k: int)
    requires
        m > 0,
        0 <= g < m,
        0 <= k < d,
        share_start(d, m, g) <= k,
        share_start(d, m, m) == d,
    ensures
        share_start(d, m, g + 1) > share_start(d, m, g),
{
    lemma_share(d, m, g);
    assert(d / m >= 0) by (nonlinear_arith)
        requires
            m > 0,
            d >= 0,
    ;
    if d / m == 0 && g >= d % m {
        assert(g * (d / m) == 0);
        assert(m * (d / m) == 0);
        assert(share_start(d, m, g) == d % m);
        assert(d % m < m) by (nonlinear_arith)
            requires
                m > 0,
        ;
        assert(share_start(d, m, m) == d % m);
    }
}

/// Every group gets as many drones as any other, or one more.
pub proof fn law_shares_are_even(drones: int, groups: int, g: int, h: int)
    requires
        groups > 0,
        drones >= 0,
        0 <= g <= h < groups,
    ensures
        ({
            let a = share_start(drones, groups, g + 1) - share_start(drones, groups, g);
            let b = share_start(drones, groups, h + 1) - share_start(drones, groups, h);
            b <= a <= b + 1
        }),
{
    lemma_share(drones, groups, g);
    lemma_share(drones, groups, h);
}

impl ConfigView {
    /// A channel leads from `a` to `b`: the first node with the id `a` is connected to
    /// `b`, and that is a node.
    pub open spec fn has_channel(self, a: NodeId, b: NodeId) -> bool {
        exists|k: int| #[trigger]
            first_is(self.nodes(), a, k) && self.nodes()[k].links.contains(b) && entry_ids(
                self.nodes(),
            ).contains(b)
    }
}

impl ParsedConfig {
    /// The nodes that channels lead to from a node, each one once.
    pub fn channels_from(&self, id: NodeId) -> (r: Vec<NodeId>)
        ensures
            r@.no_duplicates(),
            forall|b: NodeId| #[trigger] r@.contains(b) <==> self@.has_channel(id, b),
    {
        let all: Vec<DroneConfig> = self.all_nodes();
        let ghost s = self@.nodes();
        let mut r: Vec<NodeId> = Vec::new();
        match find_entry(&all, id) {
            Some(k) => {
                let links: &Vec<NodeId> = &all[k].connected_node_ids;
                assert(all@[k as int].entry() == s[k as int]);
                let mut i: usize = 0;
                while i < links.len()
                    invariant
                        i <= links@.len(),
                        s == entries(all@),
                        r@.no_duplicates(),
                        forall|b: NodeId| #[trigger]
                            r@.contains(b) <==> links@.subrange(0, i as int).contains(b)
                                && entry_ids(s).contains(b),
                    decreases links@.len() - i,
                {
                    let b: NodeId = links[i];
                    let ghost before = r@;
                    if has_entry(&all, b) && !has_id(&r, b) {
                        r.push(b);
                    }
                    proof {
                        let t = links@.subrange(0, i as int);
                        let u = links@.subrange(0, i + 1);
                        assert(u =~= t.push(b));
                        assert forall|x: NodeId| #[trigger] r@.contains(x) <==> u.contains(x)
                            && entry_ids(s).contains(x) by {
                            assert(u[i as int] == b);
                            if t.contains(x) {
                                let j = t.index_of(x);
                                assert(u[j] == x);
                            }
                            if u.contains(x) && x != b {
                                let j = u.index_of(x);
                                assert(t[j] == x);
                            }
                            if before.contains(x) {
                                let j = before.index_of(x);
                                assert(r@[j] == x);
                            }
                            if r@.contains(x) && x != b {
                                let j = r@.index_of(x);
                                assert(before[j] == x);
                            }
                            if r@.len() > before.len() {
                                assert(r@[before.len() as int] == b);
                            }
                            assert(before.contains(x) <==> t.contains(x) && entry_ids(s).contains(
                                x,
                            ));
                            assert(before.contains(b) <==> t.contains(b) && entry_ids(s).contains(
                                b,
                            ));
                        }
                    }
                    i = i + 1;
                }
                proof {
                    assert(links@.subrange(0, i as int) =~= links@);
                    assert forall|b: NodeId| #[trigger] r@.contains(b) <==> self@.has_channel(id, b) by {
                        if self@.has_channel(id, b) {
                            let j = choose|j: int| #[trigger]
                                first_is(s, id, j) && s[j].links.contains(b) && entry_ids(
                                    s,
                                ).contains(b);
                            lemma_first_is_unique(s, id, j, k as int);
                        }
                        if r@.contains(b) {
                            assert(first_is(s, id, k as int) && s[k as int].links.contains(b)
                                && entry_ids(s).contains(b));
                        }
                    }
                }
            },
            None => {
                assert forall|b: NodeId| #[trigger] r@.contains(b) <==> self@.has_channel(id, b) by {
                    if self@.has_channel(id, b) {
                        let j = choose|j: int| #[trigger]
                            first_is(s, id, j) && s[j].links.contains(b) && entry_ids(s).contains(
                                b,
                            );
                        assert(entry_ids(s)[j] == id);
                    }
                }
            },
        }
        r
    }

    /// The channels of the network.
    pub fn setup_channels(&self) -> (r: SharedSenders)
        ensures
            forall|p: (NodeId, NodeId)| #[trigger] r@.contains(p) <==> self@.has_channel(p.0, p.1),
    {
        let all: Vec<DroneConfig> = self.all_nodes();
        let ids: Vec<NodeId> = ids_in_order(&all);
        let ghost c = self@;
        let mut r: SharedSenders = SharedSenders::new();
        let mut i: usize = 0;
        while i < ids.len()
            invariant
                i <= ids@.len(),
                c == self@,
                forall|p: (NodeId, NodeId)| #[trigger]
                    r@.contains(p) <==> c.has_channel(p.0, p.1) && ids@.subrange(
                        0,
                        i as int,
                    ).contains(p.0),
            decreases ids@.len() - i,
        {
            let a: NodeId = ids[i];
            let to: Vec<NodeId> = self.channels_from(a);
            let ghost before = r@;
            let mut k: usize = 0;
            while k < to.len()
                invariant
                    k <= to@.len(),
                    forall|p: (NodeId, NodeId)| #[trigger]
                        r@.contains(p) <==> before.contains(p) || (p.0 == a && to@.subrange(
                            0,
                            k as int,
                        ).contains(p.1)),
                decreases to@.len() - k,
            {
                let ghost mid = r@;
                r.insert(a, to[k]);
                proof {
                    let t = to@.subrange(0, k as int);
                    let u = to@.subrange(0, k + 1);
                    assert(u =~= t.push(to@[k as int]));
                    assert forall|p: (NodeId, NodeId)| #[trigger] r@.contains(p)
                        <==> before.contains(p) || (p.0 == a && u.contains(p.1)) by {
                        assert(mid.contains(p) <==> before.contains(p) || (p.0 == a && t.contains(
                            p.1,
                        )));
                        assert(u[k as int] == to@[k as int]);
                        if t.contains(p.1) {
                            let j = t.index_of(p.1);
                            assert(u[j] == p.1);
                        }
                        if u.contains(p.1) && p.1 != to@[k as int] {
                            let j = u.index_of(p.1);
                            assert(t[j] == p.1);
                        }
                    }
                }
                k = k + 1;
            }
            proof {
                assert(to@.subrange(0, k as int) =~= to@);
                let t = ids@.subrange(0, i as int);
                let u = ids@.subrange(0, i + 1);
                assert(u =~= t.push(a));
                assert forall|p: (NodeId, NodeId)| #[trigger] r@.contains(p) <==> c.has_channel(
                    p.0,
                    p.1,
                ) && u.contains(p.0) by {
                    assert(u[i as int] == a);
                    assert(to@.contains(p.1) <==> c.has_channel(a, p.1));
                    assert(before.contains(p) <==> c.has_channel(p.0, p.1) && t.contains(p.0));
                    if t.contains(p.0) {
                        let j = t.index_of(p.0);
                        assert(u[j] == p.0);
                    }
                    if u.contains(p.0) && p.0 != a {
                        let j = u.index_of(p.0);
                        assert(t[j] == p.0);
                    }
                }
            }
            i = i + 1;
        }
        proof {
            assert(ids@.subrange(0, i as int) =~= ids@);
            assert forall|p: (NodeId, NodeId)| #[trigger] r@.contains(p) <==> c.has_channel(p.0, p.1) by {
                if c.has_channel(p.0, p.1) {
                    let s = c.nodes();
                    let j = choose|j: int| #[trigger]
                        first_is(s, p.0, j) && s[j].links.contains(p.1) && entry_ids(s).contains(
                            p.1,
                        );
                    assert(entry_ids(s)[j] == p.0);
                }
            }
        }
        r
    }
}

}
