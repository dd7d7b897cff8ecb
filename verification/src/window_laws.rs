//! What the window shows after a change, and what it lets the user do.
use crate::config::{
    adding, entry_ids, first_index, lemma_first_index, relinked, replacing, struck, ConfigView,
    EntryView,
};
use crate::control_laws::{
    law_added_links_lead_both_ways, leads_to, lemma_kept_by_joining, lemma_listed, lemma_relinked,
    listed, listed_with,
};
use crate::drawing_laws::{
    law_lines_of_a_node_go, law_lines_of_inactive_nodes_go, law_new_drones_are_configured,
};
use crate::network_app::{flood_lines, is_single_fragment, typed_ids, AppView, SpawnFault};
use crate::packet::{lemma_without_id, Fragment, NodeId};
use crate::renderer::{Node, RendererView};
use crate::renderer_changes::{
    configs_struck, down_ids, is_down, lines_struck, synced, synced_controller, with_states,
};
use crate::sc_backend::ControllerView;
use crate::text::{decimal, joined_with};
use crate::wording::lemma_ids_read_back;
use vstd::prelude::*;

verus! {

/// A drone can be spawned where its id is not drawn, where it has a connection, and where all
/// its connections are drawn; otherwise the window says which of these fails first.
pub proof fn law_who_can_be_spawned(v: AppView, id: NodeId, connections: Seq<NodeId>)
    ensures
        v.spawn_fault(id, connections) is None <==> {
            &&& !v.renderer.index.contains_key(id)
            &&& connections.len() > 0
            &&& forall|i: int|
                0 <= i < connections.len() ==> v.renderer.index.contains_key(
                    #[trigger] connections[i],
                )
        },
        v.renderer.index.contains_key(id) ==> v.spawn_fault(id, connections) == Some(
            SpawnFault::IdInUse(id),
        ),
        !v.renderer.index.contains_key(id) && connections.len() == 0 ==> v.spawn_fault(
            id,
            connections,
        ) == Some(SpawnFault::NoConnection),
{
}

/// Ids that are typed in with commas between them are read as they were typed.
pub proof fn law_typed_ids_are_read(ids: Seq<NodeId>)
    ensures
        typed_ids(joined_with(ids.map_values(|id: NodeId| decimal(id as nat)), ", "@)) == ids,
{
    lemma_ids_read_back(ids);
}

/// When a drone has crashed the window says so at the end of its log, the controller has it
/// neither in the graph nor among those that take commands, and no link leads to it from the
/// nodes that it had links to.
pub proof fn law_crashes_are_shown(v: AppView, w: AppView, id: NodeId)
    requires
        v.crash_shown(w, id),
    ensures
        w.log.len() == v.log.len() + 1,
        w.log.last() == "\u{2705} Drone "@ + decimal(id as nat) + " crashed successfully"@,
        forall|k: int| 0 <= k < v.log.len() ==> #[trigger] w.log[k] == v.log[k],
        !w.controller.graph.contains_key(id),
        !w.controller.commands.contains(id),
        forall|x: NodeId| #[trigger]
            leads_to(v.controller.graph, id, x) ==> !leads_to(w.controller.graph, x, id),
        forall|x: NodeId|
            x != id ==> (#[trigger] w.controller.graph.contains_key(x)
                <==> v.controller.graph.contains_key(x)),
{
    lemma_without_id(v.controller.commands, id);
}

/// When two drones were linked the window says so at the end of its log, links lead both
/// ways between them, and both are listed with each other.
pub proof fn law_links_are_shown(v: AppView, w: AppView, a: NodeId, b: NodeId)
    requires
        a != b,
        listed(v.controller.config.drone, a),
        listed(v.controller.config.drone, b),
        v.link_shown(w, a, b),
    ensures
        w.log.len() == v.log.len() + 1,
        w.log.last() == "\u{1f517} Connected "@ + decimal(a as nat) + " \u{2194} "@ + decimal(
            b as nat,
        ),
        leads_to(w.controller.graph, a, b),
        leads_to(w.controller.graph, b, a),
        listed_with(w.controller.config.drone, a, b),
        listed_with(w.controller.config.drone, b, a),
        w.controller.shared.contains((a, b)) && w.controller.shared.contains((b, a)),
{
    law_added_links_lead_both_ways(v.controller, a, b);
    let k = v.controller.link_added(a, b);
    lemma_relinked(k.config.drone, a, b);
    let once = k.config.drone_linked(a, b).drone;
    lemma_kept_by_joining(k.config.drone, once, a, b, a, b);
    lemma_kept_by_joining(k.config.drone, once, a, b, b, a);
    lemma_relinked(once, b, a);
    let twice = relinked(once, b, adding(a));
    lemma_kept_by_joining(once, twice, b, a, a, b);
    lemma_kept_by_joining(once, twice, b, a, b, a);
}

/// When a drone has joined it is listed once with its drop rate and its connections, and the
/// drones among those are connected to it; the window says so at the end of its log.
pub proof fn law_spawned_drones_are_shown(
    v: AppView,
    w: AppView,
    id: NodeId,
    pdr: u32,
    connections: Seq<NodeId>,
)
    requires
        !listed(v.controller.config.drone, id),
        !connections.contains(id),
        v.spawn_shown(w, id, pdr, connections),
    ensures
        ({
            let n = v.controller.config.drone.len() as int;
            let s = w.controller.config.drone;
            &&& s.len() == n + 1
            &&& s[n] == (EntryView { id, pdr, links: connections })
            &&& forall|j: int|
                0 <= j < connections.len() && listed(
                    v.controller.config.drone,
                    #[trigger] connections[j],
                ) ==> listed_with(s, connections[j], id)
            &&& forall|j: int|
                0 <= j < n ==> (#[trigger] s[j]).id == v.controller.config.drone[j].id && s[j].pdr
                    == v.controller.config.drone[j].pdr
        }),
        w.log.len() == v.log.len() + 1,
        w.log.last() == "\u{1f389} Spawned drone "@ + decimal(id as nat) + ""@,
{
    let c = v.controller.config;
    let n = c.drone.len() as int;
    lemma_listed(c.drone, id);
    let d = c.drone_added(id);
    assert(d.drone[n].id == id);
    assert forall|j: int| 0 <= j < d.drone.len() && j != n implies (#[trigger] d.drone[j]).id
        != id by {
        assert(d.drone[j] == c.drone[j]);
        if c.drone[j].id == id {
            assert(listed(c.drone, id));
        }
    }
    law_new_drones_are_configured(d, id, pdr, connections, n);
    assert forall|j: int|
        0 <= j < connections.len() && listed(c.drone, #[trigger] connections[j]) implies listed_with(
        w.controller.config.drone,
        connections[j],
        id,
    ) by {
        let l = choose|l: int|
            0 <= l < c.drone.len() && (#[trigger] c.drone[l]).id == connections[j];
        assert(d.drone[l].id == connections[j]);
        assert(listed(d.drone, connections[j]));
    }
}

/// A drop rate is set for a drone that takes commands, and for no other; the window says
/// which of these was the case.
pub proof fn law_drop_rates_are_set(v: AppView, id: NodeId, pdr: u32, rate: Seq<char>, k: int)
    requires
        0 <= k < v.controller.config.drone.len(),
        v.controller.config.drone[k].id == id,
        forall|j: int|
            0 <= j < v.controller.config.drone.len() && j != k ==> (
            #[trigger] v.controller.config.drone[j]).id != id,
    ensures
        ({
            let w = v.rate_set(id, pdr, rate);
            &&& w.log.len() == v.log.len() + 1
            &&& v.controller.commands.contains(id) ==> w.log.last() == "Set PDR for drone "@
                + decimal(id as nat) + " to "@ + rate
            &&& !v.controller.commands.contains(id) ==> w.controller == v.controller && w.renderer
                == v.renderer && w.log.last() == "Failed to set PDR "@ + decimal(id as nat)
                + "\u{2192}"@ + rate + ": Drone not found"@
            &&& v.controller.commands.contains(id) ==> {
                &&& w.controller.config.drone.len() == v.controller.config.drone.len()
                &&& w.controller.config.drone[k].id == id
                &&& w.controller.config.drone[k].pdr == pdr
                &&& forall|j: int|
                    0 <= j < v.controller.config.drone.len() && j != k ==> (
                    #[trigger] w.controller.config.drone[j]).id == v.controller.config.drone[j].id
                        && w.controller.config.drone[j].pdr == v.controller.config.drone[j].pdr
            }
        }),
{
    let s = v.controller.config.drone;
    assert(entry_ids(s)[k] == id);
    lemma_first_index(s, id);
    assert(first_index(s, id) == k);
    if v.controller.commands.contains(id) {
        let c = v.controller.config.drone_rated(id, pdr);
        let m = ControllerView { config: c, ..v.controller };
        let u = with_states(v.renderer, m);
        let ids = down_ids(m, v.renderer.nodes, v.renderer.nodes.len() as int);
        lemma_all_struck_rates(u, c, ids, ids.len() as int);
        assert forall|j: int| 0 <= j < s.len() && j != k implies #[trigger] c.drone[j] == s[j] by {}
    }
}

proof fn lemma_all_struck_rates(v: RendererView, c: ConfigView, ids: Seq<NodeId>, n: int)
    requires
        0 <= n <= ids.len(),
    ensures
        configs_struck(v, c, ids, n).drone.len() == c.drone.len(),
        forall|j: int|
            0 <= j < c.drone.len() ==> (#[trigger] configs_struck(v, c, ids, n).drone[j]).id
                == c.drone[j].id && configs_struck(v, c, ids, n).drone[j].pdr == c.drone[j].pdr,
    decreases n,
{
    if n > 0 {
        lemma_all_struck_rates(v, c, ids, n - 1);
        let m = configs_struck(v, c, ids, n - 1);
        let d = configs_struck(v, c, ids, n);
        assert forall|j: int| 0 <= j < c.drone.len() implies (#[trigger] d.drone[j]).id
            == c.drone[j].id && d.drone[j].pdr == c.drone[j].pdr by {
            assert(m.drone[j].id == c.drone[j].id);
        }
    }
}

proof fn lemma_relinked_ids(s: Seq<EntryView>, id: NodeId, f: spec_fn(Seq<NodeId>) -> Seq<NodeId>)
    ensures
        entry_ids(relinked(s, id, f)) == entry_ids(s),
{
    if entry_ids(s).contains(id) {
        lemma_first_index(s, id);
    }
    assert(entry_ids(relinked(s, id, f)) =~= entry_ids(s));
}

proof fn lemma_struck_ids(v: RendererView, c: ConfigView, id: NodeId)
    ensures
        entry_ids(v.config_struck(c, id).drone) == entry_ids(c.drone),
        entry_ids(v.config_struck(c, id).client) == entry_ids(c.client),
        entry_ids(v.config_struck(c, id).server) == entry_ids(c.server),
{
    let none = replacing(Seq::<NodeId>::empty());
    lemma_relinked_ids(c.client, id, none);
    lemma_relinked_ids(c.server, id, none);
    let d = v.config_struck(c, id);
    assert(entry_ids(struck(c.drone, id)) =~= entry_ids(c.drone));
    assert(entry_ids(d.drone) =~= entry_ids(c.drone));
    assert(entry_ids(d.client) =~= entry_ids(c.client));
    assert(entry_ids(d.server) =~= entry_ids(c.server));
}

proof fn lemma_all_struck_ids(v: RendererView, c: ConfigView, ids: Seq<NodeId>, n: int)
    requires
        0 <= n <= ids.len(),
    ensures
        entry_ids(configs_struck(v, c, ids, n).drone) == entry_ids(c.drone),
        entry_ids(configs_struck(v, c, ids, n).client) == entry_ids(c.client),
        entry_ids(configs_struck(v, c, ids, n).server) == entry_ids(c.server),
    decreases n,
{
    if n > 0 {
        lemma_all_struck_ids(v, c, ids, n - 1);
        lemma_struck_ids(v, configs_struck(v, c, ids, n - 1), ids[n - 1]);
    }
}

/// A node has a role, and is not in the network.
pub open spec fn down(k: ControllerView, id: NodeId) -> bool {
    &&& listed(k.config.drone, id) || listed(k.config.client, id) || listed(k.config.server, id)
    &&& !k.graph.contains_key(id)
}

proof fn lemma_down(k: ControllerView, id: NodeId)
    ensures
        is_down(k, id) <==> down(k, id),
{
    lemma_listed(k.config.drone, id);
    lemma_listed(k.config.client, id);
    lemma_listed(k.config.server, id);
}

proof fn lemma_lines_struck(v: RendererView, ids: Seq<NodeId>, n: int, e: (usize, usize))
    requires
        0 <= n <= ids.len(),
    ensures
        lines_struck(v, ids, n).contains(e) <==> v.edges.contains(e) && forall|j: int|
            0 <= j < n && v.index.contains_key(#[trigger] ids[j]) ==> v.index[ids[j]] != e.0
                && v.index[ids[j]] != e.1,
    decreases n,
{
    if n > 0 {
        lemma_lines_struck(v, ids, n - 1, e);
        let before = lines_struck(v, ids, n - 1);
        if v.index.contains_key(ids[n - 1]) {
            law_lines_of_a_node_go(before, v.index[ids[n - 1]], e);
        }
    }
}

proof fn lemma_down_ids(k: ControllerView, nodes: Seq<Node>, n: int, id: NodeId)
    requires
        0 <= n <= nodes.len(),
    ensures
        down_ids(k, nodes, n).contains(id) ==> is_down(k, id),
    decreases n,
{
    if n > 0 {
        lemma_down_ids(k, nodes, n - 1, id);
        let before = down_ids(k, nodes, n - 1);
        let all = down_ids(k, nodes, n);
        if all.contains(id) {
            let j = all.index_of(id);
            if j < before.len() {
                assert(before[j] == id);
                assert(before.contains(id));
            }
        }
    }
}

/// Once the drawing follows the controller, exactly the lines are left whose ends are both
/// in the network, or have no role.
pub proof fn law_lines_follow_the_controller(v: RendererView, k: ControllerView, e: (usize, usize))
    requires
        v.wf(),
        forall|id: NodeId| #[trigger]
            v.index.contains_key(id) ==> v.nodes[v.index[id] as int].id % 256 == id,
        v.edges.contains(e) ==> e.0 < v.nodes.len() && e.1 < v.nodes.len(),
    ensures
        synced(v, k).edges.contains(e) <==> v.edges.contains(e) && !down(
            k,
            (v.nodes[e.0 as int].id % 256) as NodeId,
        ) && !down(k, (v.nodes[e.1 as int].id % 256) as NodeId),
{
    let u = with_states(v, k);
    let ids = down_ids(k, v.nodes, v.nodes.len() as int);
    let n = ids.len() as int;
    let w = synced_controller(v, k);
    let struck_lines = lines_struck(u, ids, n);
    lemma_lines_struck(u, ids, n, e);
    law_lines_of_inactive_nodes_go(w, u.nodes, struck_lines, e);
    lemma_all_struck_ids(u, k.config, ids, n);
    assert forall|id: NodeId| #[trigger] is_down(w, id) <==> down(k, id) by {
        lemma_down(w, id);
        lemma_listed(k.config.drone, id);
        lemma_listed(k.config.client, id);
        lemma_listed(k.config.server, id);
        lemma_listed(w.config.drone, id);
        lemma_listed(w.config.client, id);
        lemma_listed(w.config.server, id);
    }
    if v.edges.contains(e) {
        assert(u.nodes[e.0 as int].id == v.nodes[e.0 as int].id);
        assert(u.nodes[e.1 as int].id == v.nodes[e.1 as int].id);
        let x = (v.nodes[e.0 as int].id % 256) as NodeId;
        let y = (v.nodes[e.1 as int].id % 256) as NodeId;
        if !down(k, x) && !down(k, y) {
            assert forall|j: int| 0 <= j < n && u.index.contains_key(#[trigger] ids[j]) implies
                u.index[ids[j]] != e.0 && u.index[ids[j]] != e.1 by {
                assert(ids.contains(ids[j]));
                lemma_down_ids(k, v.nodes, v.nodes.len() as int, ids[j]);
                lemma_down(k, ids[j]);
                assert(v.index.contains_key(ids[j]));
            }
        }
    }
}

/// A flood is logged with a line for every server and one for every client, in order.
pub proof fn law_floods_are_logged(c: ConfigView, k: int)
    ensures
        flood_lines(c).len() == c.server.len() + c.client.len() + 2,
        flood_lines(c)[0] == "Flood Network initiated"@,
        0 <= k < c.server.len() ==> flood_lines(c)[1 + k] == "Sending flood request to server "@
            + decimal(c.server[k].id as nat) + ""@,
        0 <= k < c.client.len() ==> flood_lines(c)[1 + c.server.len() + k]
            == "Sending flood request to client "@ + decimal(c.client[k].id as nat) + ""@,
        flood_lines(c).last() == "Network flood completed"@,
{
}

/// A message of at most 128 bytes as a single fragment holds all of it.
pub proof fn law_short_messages_fit(bytes: Seq<u8>, f: Fragment)
    requires
        bytes.len() <= 128,
        is_single_fragment(bytes, f),
    ensures
        f.fragment_index == 0,
        f.total_n_fragments == 1,
        f.length == bytes.len(),
        forall|i: int| 0 <= i < bytes.len() ==> #[trigger] f.data@[i] == bytes[i],
{
    assert forall|i: int| 0 <= i < bytes.len() implies #[trigger] f.data@[i] == bytes[i] by {
        assert(f.data@.subrange(0, bytes.len() as int)[i] == bytes.subrange(
            0,
            bytes.len() as int,
        )[i]);
    }
}

}
