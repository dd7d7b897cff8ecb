//! What the user does in the network window.
use crate::config::{entry_ids, has_entry, ConfigView};
use crate::gui_queue::{broadcast_to_hosts, GuiQueue};
use crate::notices::{collect_ids, ids_in};
use crate::packet::{Fragment, NodeId};
use crate::renderer::{built, NetworkRenderer, RendererView};
use crate::renderer_changes::{
    drone_set, new_places, places, rebuilt, synced, synced_controller, NewSpot,
};
use crate::sc_backend::{ControlError, ControllerView, SimulationController};
use crate::sc_changes::{crash_note, link_note, spawn_note};
use crate::text::{decimal, id_text, join2, join3, pieces, slice_text, split_at_char, texts};
use crate::topology::shape_of;
use vstd::prelude::*;

verus! {

/// Why a drone cannot be spawned.
#[derive(Clone, Copy, PartialEq, Eq, Structural, Debug)]
pub enum SpawnFault {
    IdInUse(NodeId),
    NoConnection,
    InvalidConnection,
}

impl SpawnFault {
    /// The fault in words.
    pub open spec fn words(self) -> Seq<char> {
        match self {
            SpawnFault::IdInUse(id) => "Cannot spawn: ID "@ + decimal(id as nat)
                + " already in use"@,
            SpawnFault::NoConnection => "Cannot spawn: need at least one connection"@,
            SpawnFault::InvalidConnection => "Cannot spawn: invalid connection IDs"@,
        }
    }

    /// The fault in words.
    pub fn message(&self) -> (r: String)
        ensures
            r@ == self.words(),
    {
        match *self {
            SpawnFault::IdInUse(id) => join3(
                "Cannot spawn: ID ",
                id_text(id).as_str(),
                " already in use",
            ),
            SpawnFault::NoConnection => "Cannot spawn: need at least one connection".to_owned(),
            SpawnFault::InvalidConnection => "Cannot spawn: invalid connection IDs".to_owned(),
        }
    }
}

#[verifier::ext_equal]
pub struct AppView {
    pub controller: ControllerView,
    pub renderer: RendererView,
    pub log: Seq<Seq<char>>,
    pub topology: Option<Seq<char>>,
    pub selected: bool,
}

/// The network window: the controller, the drawn network and the log.
#[derive(Debug)]
pub struct NetworkApp {
    pub controller: SimulationController,
    pub network_renderer: NetworkRenderer,
    pub simulation_log: Vec<String>,
    pub selected_topology: Option<String>,
    pub topology_selected: bool,
}

impl View for NetworkApp {
    type V = AppView;

    open spec fn view(&self) -> AppView {
        AppView {
            controller: self.controller@,
            renderer: self.network_renderer@,
            log: texts(self.simulation_log@),
            topology: match self.selected_topology {
                Some(t) => Some(t@),
                None => None,
            },
            selected: self.topology_selected,
        }
    }
}

/// A message about a node.
pub open spec fn about_node(before: Seq<char>, id: NodeId, after: Seq<char>) -> Seq<char> {
    before + decimal(id as nat) + after
}

/// A line of the log for each node of a list.
pub open spec fn line_each(before: Seq<char>, ids: Seq<NodeId>) -> Seq<Seq<char>> {
    ids.map_values(|id: NodeId| about_node(before, id, ""@))
}

/// The lines of the log for a flood.
pub open spec fn flood_lines(c: ConfigView) -> Seq<Seq<char>> {
    seq!["Flood Network initiated"@] + line_each(
        "Sending flood request to server "@,
        entry_ids(c.server),
    ) + line_each("Sending flood request to client "@, entry_ids(c.client)) + seq![
        "Network flood completed"@,
    ]
}

impl AppView {
    /// Another line in the log.
    pub open spec fn logged(self, line: Seq<char>) -> AppView {
        AppView { log: self.log.push(line), ..self }
    }

    /// `w` is the window after a drone has crashed.
    pub open spec fn crash_shown(self, w: AppView, id: NodeId) -> bool {
        let k = self.controller.crashed(id);
        &&& w.controller == synced_controller(self.renderer, k)
        &&& built(synced(self.renderer, k), w.renderer, w.controller.config)
        &&& w.log == self.log.push(about_node("\u{2705} Drone "@, id, " crashed successfully"@))
        &&& w.topology == self.topology
        &&& w.selected == self.selected
    }

    /// `w` is the window after two nodes were linked.
    pub open spec fn link_shown(self, w: AppView, a: NodeId, b: NodeId) -> bool {
        let k = self.controller.link_added(a, b);
        let c = k.config.drone_linked(a, b).drone_linked(b, a);
        &&& w.controller == (ControllerView { config: c, ..k })
        &&& built(self.renderer, w.renderer, c)
        &&& w.log == self.log.push(
            about_node("\u{1f517} Connected "@, a, " \u{2194} "@) + decimal(b as nat),
        )
        &&& w.topology == self.topology
        &&& w.selected == self.selected
    }

    /// The configuration after a new drone has joined.
    pub open spec fn config_spawned(
        self,
        id: NodeId,
        pdr: u32,
        connections: Seq<NodeId>,
    ) -> ConfigView {
        let c = self.controller.config;
        drone_set(
            if entry_ids(c.drone).contains(id) {
                c
            } else {
                c.drone_added(id)
            },
            id,
            pdr,
            connections,
        )
    }

    /// `w` is the window after a new drone has joined.
    pub open spec fn spawn_shown(
        self,
        w: AppView,
        id: NodeId,
        pdr: u32,
        connections: Seq<NodeId>,
    ) -> bool {
        let k = self.controller.drone_shared(id, connections);
        let c = self.config_spawned(id, pdr, connections);
        &&& w.controller == (ControllerView { config: c, ..k })
        &&& rebuilt(self.renderer, w.renderer, c)
        &&& w.log == (if entry_ids(self.controller.config.drone).contains(id) {
            self.log.push(
                about_node(
                    "\u{26a0}\u{fe0f} Warning: Drone "@,
                    id,
                    " already present in config, updating."@,
                ),
            )
        } else {
            self.log
        }).push(about_node("\u{1f389} Spawned drone "@, id, ""@))
        &&& w.topology == self.topology
        &&& w.selected == self.selected
    }

    /// The window after the drop rate of a drone was set, where it takes commands.
    pub open spec fn rate_set(self, id: NodeId, pdr: u32, rate: Seq<char>) -> AppView {
        if self.controller.commands.contains(id) {
            let k = ControllerView {
                config: self.controller.config.drone_rated(id, pdr),
                ..self.controller
            };
            AppView {
                controller: synced_controller(self.renderer, k),
                renderer: synced(self.renderer, k),
                log: self.log.push(about_node("Set PDR for drone "@, id, " to "@) + rate),
                ..self
            }
        } else {
            self.logged(
                about_node("Failed to set PDR "@, id, "\u{2192}"@) + rate + ": Drone not found"@,
            )
        }
    }

    /// The window after the shape of the network was looked at.
    pub open spec fn topology_logged(self, path: Seq<char>) -> AppView {
        match shape_of(self.controller.config.drone) {
            Some(t) => AppView {
                log: self.log.push("Loaded topology from '"@ + path + "'"@).push(
                    "Detected topology: "@ + t.words(),
                ),
                topology: Some(t.words()),
                selected: true,
                ..self
            },
            None => AppView {
                log: self.log.push("Could not detect known topology from '"@ + path + "'"@),
                selected: true,
                ..self
            },
        }
    }

    /// Why a drone cannot be spawned, as far as the drawn network shows it.
    pub open spec fn spawn_fault(self, id: NodeId, connections: Seq<NodeId>) -> Option<SpawnFault> {
        if self.renderer.index.contains_key(id) {
            Some(SpawnFault::IdInUse(id))
        } else if connections.len() == 0 {
            Some(SpawnFault::NoConnection)
        } else if exists|i: int|
            0 <= i < connections.len() && !self.renderer.index.contains_key(
                #[trigger] connections[i],
            ) {
            Some(SpawnFault::InvalidConnection)
        } else {
            None
        }
    }
}

/// The node ids of a list that was typed in with commas.
pub open spec fn typed_ids(s: Seq<char>) -> Seq<NodeId> {
    ids_in(pieces(s, ','))
}

/// The node ids of a list that was typed in with commas.
pub fn parse_connections(s: &str) -> (r: Vec<NodeId>)
    ensures
        r@ == typed_ids(s@),
{
    let p: Vec<String> = split_at_char(s, ',');
    collect_ids(&p)
}

/// A text ends with another one.
pub open spec fn ends_with(s: Seq<char>, end: Seq<char>) -> bool {
    end.len() <= s.len() && s.subrange(s.len() - end.len(), s.len() as int) == end
}

/// `s` without any `end` at its end.
pub open spec fn cut_ends(s: Seq<char>, end: Seq<char>) -> Seq<char>
    decreases s.len(),
{
    if end.len() > 0 && ends_with(s, end) {
        cut_ends(s.subrange(0, s.len() - end.len()), end)
    } else {
        s
    }
}

fn ends_in(s: &str, end: &str) -> (r: bool)
    ensures
        r == ends_with(s@, end@),
{
    let n: usize = s.unicode_len();
    let k: usize = end.unicode_len();
    if k > n {
        return false;
    }
    crate::text::same_text(slice_text(s, n - k, n).as_str(), end)
}

/// The network that a file describes, by the name of the file.
pub fn topology_name(file_name: &str) -> (r: Option<String>)
    ensures
        match r {
            Some(t) => ends_with(file_name@, ".toml"@) && t@ == cut_ends(file_name@, ".toml"@),
            None => !ends_with(file_name@, ".toml"@),
        },
{
    if !ends_in(file_name, ".toml") {
        return None;
    }
    proof {
        reveal_strlit(".toml");
    }
    let mut t: String = file_name.to_owned();
    while ends_in(t.as_str(), ".toml")
        invariant
            ".toml"@.len() == 5,
            cut_ends(t@, ".toml"@) == cut_ends(file_name@, ".toml"@),
        decreases t@.len(),
    {
        let n: usize = t.as_str().unicode_len();
        t = slice_text(t.as_str(), 0, n - 5);
    }
    Some(t)
}

/// A message as a single fragment: as much of it as fits.
pub open spec fn is_single_fragment(bytes: Seq<u8>, f: Fragment) -> bool {
    let n = if bytes.len() < 128 {
        bytes.len() as int
    } else {
        128
    };
    &&& f.fragment_index == 0
    &&& f.total_n_fragments == 1
    &&& f.length == n
    &&& f.data@.subrange(0, n) == bytes.subrange(0, n)
    &&& forall|i: int| n <= i < 128 ==> #[trigger] f.data@[i] == 0
}

/// A message as a single fragment: as much of it as fits.
pub fn single_fragment(bytes: &[u8]) -> (r: Fragment)
    ensures
        is_single_fragment(bytes@, r),
{
    let n: usize = if bytes.len() < 128 {
        bytes.len()
    } else {
        128
    };
    let mut data: [u8; 128] = [0u8;128];
    let mut i: usize = 0;
    while i < n
        invariant
            i <= n <= 128,
            n <= bytes@.len(),
            forall|j: int| 0 <= j < i ==> #[trigger] data@[j] == bytes@[j],
            forall|j: int| i <= j < 128 ==> #[trigger] data@[j] == 0,
        decreases n - i,
    {
        data[i] = bytes[i];
        i = i + 1;
    }
    assert(data@.subrange(0, n as int) =~= bytes@.subrange(0, n as int));
    Fragment { fragment_index: 0, total_n_fragments: 1, length: n as u8, data }
}

fn note(before: &str, id: NodeId, after: &str) -> (r: String)
    ensures
        r@ == about_node(before@, id, after@),
{
    join3(before, id_text(id).as_str(), after)
}

impl NetworkApp {
    /// The tables of the controller are complete, and the drawing has no loose ends.
    pub open spec fn wf(&self) -> bool {
        self.controller.wf() && self.network_renderer@.wf()
    }

    /// The network fits on the machine.
    pub open spec fn fits(c: ConfigView) -> bool {
        c.nodes().len() < usize::MAX
    }

    /// A window for a network that nothing is drawn of yet.
    pub fn new(controller: SimulationController) -> (r: Self)
        requires
            controller.wf(),
        ensures
            r.wf(),
            r@.controller == controller@,
            r@.renderer.nodes == Seq::<crate::renderer::Node>::empty(),
            r@.log == seq!["Application started"@],
            r@.topology is None,
            !r@.selected,
    {
        let mut simulation_log: Vec<String> = Vec::new();
        simulation_log.push("Application started".to_owned());
        assert(texts(simulation_log@) =~= seq!["Application started"@]);
        NetworkApp {
            controller,
            network_renderer: NetworkRenderer::new(),
            simulation_log,
            selected_topology: None,
            topology_selected: false,
        }
    }

    /// Writes a line into the log.
    pub fn log(&mut self, line: String)
        requires
            old(self).wf(),
        ensures
            final(self).wf(),
            final(self)@ == old(self)@.logged(line@),
    {
        let ghost l = line@;
        self.simulation_log.push(line);
        assert(texts(self.simulation_log@) =~= texts(old(self).simulation_log@).push(l));
        assert(self@ =~= old(self)@.logged(l));
    }

    fn log_each(&mut self, before: &str, ids: &Vec<NodeId>)
        requires
            old(self).wf(),
        ensures
            final(self).wf(),
            final(self)@ == (AppView {
                log: old(self)@.log + line_each(before@, ids@),
                ..old(self)@
            }),
    {
        let ghost a = self@;
        let ghost all = line_each(before@, ids@);
        let mut i: usize = 0;
        assert(self@ =~= AppView { log: a.log + all.subrange(0, 0), ..a });
        while i < ids.len()
            invariant
                i <= ids@.len(),
                self.wf(),
                all == line_each(before@, ids@),
                self@ == (AppView { log: a.log + all.subrange(0, i as int), ..a }),
            decreases ids@.len() - i,
        {
            let line: String = note(before, ids[i], "");
            assert(line@ == all[i as int]);
            self.log(line);
            i = i + 1;
            assert(a.log + all.subrange(0, i - 1).push(all[i - 1]) =~= (a.log + all.subrange(
                0,
                i - 1,
            )).push(all[i - 1]));
            assert(all.subrange(0, i as int) =~= all.subrange(0, i - 1).push(all[i - 1]));
            assert(self@ =~= AppView { log: a.log + all.subrange(0, i as int), ..a });
        }
        assert(all.subrange(0, i as int) =~= all);
    }

    /// Notes that the network is being flooded.
    pub fn flood_network(&mut self)
        requires
            old(self).wf(),
        ensures
            final(self).wf(),
            final(self)@ == (AppView {
                log: old(self)@.log + flood_lines(old(self)@.controller.config),
                ..old(self)@
            }),
    {
        let ghost a = self@;
        self.log("Flood Network initiated".to_owned());
        let servers: Vec<NodeId> = self.controller.get_all_server_ids();
        self.log_each("Sending flood request to server ", &servers);
        let clients: Vec<NodeId> = self.controller.get_all_client_ids();
        self.log_each("Sending flood request to client ", &clients);
        self.log("Network flood completed".to_owned());
        assert(self@ =~= AppView { log: a.log + flood_lines(a.controller.config), ..a });
    }

    /// Shows that a drone has crashed.
    pub fn drone_crashed(&mut self, id: NodeId, queue: &mut GuiQueue)
        requires
            old(self).wf(),
            NetworkApp::fits(old(self)@.controller.config),
        ensures
            final(self).wf(),
            old(self)@.crash_shown(final(self)@, id),
            final(queue)@ == broadcast_to_hosts(
                old(queue)@,
                old(self)@.controller.crashed(id).config,
                crash_note(id),
            ),
    {
        let ghost a = self@;
        self.controller.drone_crashed(id, queue);
        let ghost k = self@.controller;
        self.log(note("\u{2705} Drone ", id, " crashed successfully"));
        self.network_renderer.sync_with_simulation_controller(&mut self.controller);
        proof {
            lemma_synced_size(a.renderer, k);
        }
        self.network_renderer.build_from_config(&self.controller.config);
    }

    /// Shows that two nodes were linked.
    pub fn link_added(&mut self, a: NodeId, b: NodeId, queue: &mut GuiQueue)
        requires
            old(self).wf(),
            NetworkApp::fits(old(self)@.controller.config),
        ensures
            final(self).wf(),
            old(self)@.link_shown(final(self)@, a, b),
            final(queue)@ == broadcast_to_hosts(
                old(queue)@,
                old(self)@.controller.link_added(a, b).config,
                link_note("[FloodRequired]::AddSender::"@, a, b),
            ),
    {
        let ghost v = self@;
        self.controller.link_added(a, b, queue);
        let ghost k = self@.controller;
        self.controller.config.append_drone_connection(a, b);
        self.controller.config.append_drone_connection(b, a);
        assert(self@.controller =~= ControllerView {
            config: k.config.drone_linked(a, b).drone_linked(b, a),
            ..k
        });
        proof {
            lemma_connected_size(v.controller.config, a, b);
            lemma_drone_linked_size(k.config, a, b);
            lemma_drone_linked_size(k.config.drone_linked(a, b), b, a);
        }
        self.network_renderer.build_from_config(&self.controller.config);
        let head: String = note("\u{1f517} Connected ", a, " \u{2194} ");
        self.log(join2(head.as_str(), id_text(b).as_str()));
    }

    /// Shows that a new drone has joined; tells the places of new drones.
    pub fn drone_spawned(
        &mut self,
        id: NodeId,
        pdr: u32,
        connections: &Vec<NodeId>,
        queue: &mut GuiQueue,
    ) -> (r: Vec<(NodeId, NewSpot)>)
        requires
            old(self).wf(),
            NetworkApp::fits(old(self)@.controller.config),
        ensures
            final(self).wf(),
            old(self)@.spawn_shown(final(self)@, id, pdr, connections@),
            ({
                let v = old(self)@.renderer;
                let s = final(self)@.controller.config.drone;
                places(r@) == new_places(
                    crate::renderer::cleared(v),
                    v.nodes,
                    s,
                    s.len() as int,
                )
            }),
            final(queue)@ == broadcast_to_hosts(
                old(queue)@,
                old(self)@.controller.config,
                spawn_note(id, connections@),
            ),
    {
        let ghost a = self@;
        self.controller.drone_spawned(id, connections, queue);
        let ghost c = self@.controller.config;
        if has_entry(&self.controller.config.drone, id) {
            self.log(
                note(
                    "\u{26a0}\u{fe0f} Warning: Drone ",
                    id,
                    " already present in config, updating.",
                ),
            );
        } else {
            self.controller.config.add_drone(id);
        }
        let ghost d = self@.controller.config;
        crate::renderer_changes::set_drone(&mut self.controller.config, id, pdr, connections);
        proof {
            lemma_drone_set_size(d, id, pdr, connections@);
        }
        let r: Vec<(NodeId, NewSpot)> = self.network_renderer.rebuild_preserving_topology(
            &self.controller.config,
        );
        self.log(note("\u{1f389} Spawned drone ", id, ""));
        r
    }

    /// Sets the drop rate of a drone.
    pub fn set_packet_drop_rate(
        &mut self,
        id: NodeId,
        pdr: u32,
        rate: &str,
        queue: &mut GuiQueue,
    ) -> (r: Result<(), ControlError>)
        requires
            old(self).wf(),
        ensures
            final(self).wf(),
            final(self)@ == old(self)@.rate_set(id, pdr, rate@),
            r == (if old(self)@.controller.commands.contains(id) {
                Ok::<(), ControlError>(())
            } else {
                Err::<(), ControlError>(ControlError::DroneNotFound)
            }),
            final(queue)@ == (if old(self)@.controller.commands.contains(id) {
                broadcast_to_hosts(
                    old(queue)@,
                    old(self)@.controller.config,
                    "[FloodRequired]::newpdr"@,
                )
            } else {
                old(queue)@
            }),
    {
        let ghost a = self@;
        match self.controller.set_packet_drop_rate(id, queue) {
            Err(e) => {
                let head: String = note("Failed to set PDR ", id, "\u{2192}");
                let line: String = join3(head.as_str(), rate, ": Drone not found");
                self.log(line);
                Err(e)
            },
            Ok(()) => {
                let head: String = note("Set PDR for drone ", id, " to ");
                self.log(join2(head.as_str(), rate));
                self.controller.config.set_drone_pdr(id, pdr);
                self.network_renderer.sync_with_simulation_controller(&mut self.controller);
                assert(self@ =~= a.rate_set(id, pdr, rate@));
                Ok(())
            },
        }
    }

    /// Looks at the shape of the network.
    pub fn detect_and_log_topology(&mut self, path: &str)
        requires
            old(self).wf(),
        ensures
            final(self).wf(),
            final(self)@ == old(self)@.topology_logged(path@),
    {
        let ghost a = self@;
        match self.controller.config.detect_topology() {
            Some(name) => {
                self.log(join3("Loaded topology from '", path, "'"));
                self.log(join2("Detected topology: ", name.as_str()));
                self.selected_topology = Some(name);
            },
            None => {
                self.log(join3("Could not detect known topology from '", path, "'"));
            },
        }
        self.topology_selected = true;
        assert(self@ =~= a.topology_logged(path@));
    }

    /// Why a drone cannot be spawned.
    pub fn check_spawn(&self, id: NodeId, connections: &Vec<NodeId>) -> (r: Option<SpawnFault>)
        ensures
            r == self@.spawn_fault(id, connections@),
    {
        broadcast use vstd::std_specs::hash::group_hash_axioms;

        if self.network_renderer.node_id_to_index.contains_key(&id) {
            return Some(SpawnFault::IdInUse(id));
        }
        if connections.len() == 0 {
            return Some(SpawnFault::NoConnection);
        }
        let mut i: usize = 0;
        while i < connections.len()
            invariant
                i <= connections@.len(),
                connections@.len() > 0,
                !self@.renderer.index.contains_key(id),
                forall|j: int|
                    0 <= j < i ==> self@.renderer.index.contains_key(#[trigger] connections@[j]),
            decreases connections@.len() - i,
        {
            if !self.network_renderer.node_id_to_index.contains_key(&connections[i]) {
                assert(!self@.renderer.index.contains_key(connections@[i as int]));
                return Some(SpawnFault::InvalidConnection);
            }
            i = i + 1;
        }
        None
    }
}

/// Connecting a drone adds no node.
proof fn lemma_drone_linked_size(c: ConfigView, a: NodeId, b: NodeId)
    ensures
        c.drone_linked(a, b).nodes().len() == c.nodes().len(),
        c.client_linked(a, b).nodes().len() == c.nodes().len(),
        c.server_linked(a, b).nodes().len() == c.nodes().len(),
{
    if entry_ids(c.drone).contains(a) {
        crate::config::lemma_first_index(c.drone, a);
    }
    if entry_ids(c.client).contains(a) {
        crate::config::lemma_first_index(c.client, a);
    }
    if entry_ids(c.server).contains(a) {
        crate::config::lemma_first_index(c.server, a);
    }
}

proof fn lemma_connected_size(c: ConfigView, a: NodeId, b: NodeId)
    ensures
        crate::sc_changes::connected_in(c, a, b).nodes().len() == c.nodes().len(),
{
    lemma_drone_linked_size(c, a, b);
    lemma_drone_linked_size(c, b, a);
    lemma_drone_linked_size(c.drone_linked(a, b), b, a);
    lemma_drone_linked_size(c.drone_linked(b, a), a, b);
}

proof fn lemma_linked_all_size(c: ConfigView, ids: Seq<NodeId>, id: NodeId, n: int)
    ensures
        crate::renderer_changes::drones_linked_to(c, ids, id, n).nodes().len() == c.nodes().len(),
    decreases n,
{
    if n > 0 {
        lemma_linked_all_size(c, ids, id, n - 1);
        lemma_drone_linked_size(
            crate::renderer_changes::drones_linked_to(c, ids, id, n - 1),
            ids[n - 1],
            id,
        );
    }
}

proof fn lemma_drone_set_size(c: ConfigView, id: NodeId, pdr: u32, ids: Seq<NodeId>)
    ensures
        drone_set(c, id, pdr, ids).nodes().len() == c.nodes().len(),
{
    if entry_ids(c.drone).contains(id) {
        crate::config::lemma_first_index(c.drone, id);
    }
    let d = c.drone_rated(id, pdr);
    if entry_ids(d.drone).contains(id) {
        crate::config::lemma_first_index(d.drone, id);
    }
    lemma_linked_all_size(d.drone_replaced(id, ids), ids, id, ids.len() as int);
}

/// Removing connections removes no node.
proof fn lemma_synced_size(v: RendererView, k: ControllerView)
    ensures
        synced_controller(v, k).config.nodes().len() == k.config.nodes().len(),
{
    let u = crate::renderer_changes::with_states(v, k);
    let down = crate::renderer_changes::down_ids(k, v.nodes, v.nodes.len() as int);
    lemma_struck_size(u, k.config, down, down.len() as int);
}

proof fn lemma_struck_size(v: RendererView, c: ConfigView, ids: Seq<NodeId>, n: int)
    ensures
        crate::renderer_changes::configs_struck(v, c, ids, n).nodes().len() == c.nodes().len(),
    decreases n,
{
    if n > 0 {
        lemma_struck_size(v, c, ids, n - 1);
        let d = crate::renderer_changes::configs_struck(v, c, ids, n - 1);
        if v.index.contains_key(ids[n - 1]) {
            let id = ids[n - 1];
            if entry_ids(d.client).contains(id) {
                crate::config::lemma_first_index(d.client, id);
            }
            if entry_ids(d.server).contains(id) {
                crate::config::lemma_first_index(d.server, id);
            }
        }
    }
}

}
