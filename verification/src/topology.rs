//! The shapes that ten drones can form.
use crate::config::{entries, entry_ids, has_entry, ids_in_order, EntryView, Linked, ParsedConfig};
use crate::packet::{has_id, NodeId};
use crate::reach::ID_COUNT;
use crate::text::same_text;
use vstd::prelude::*;
use vstd::relations::{sorted_by, total_ordering};

verus! {

/// Shapes of a network.
#[derive(Clone, Copy, PartialEq, Eq, Structural, Debug)]
pub enum Topology {
    Star,
    DoubleChain,
    Butterfly,
    Tree,
    SubNet,
    Custom,
}

impl Topology {
    /// The shape that a text names.
    pub open spec fn named(s: Seq<char>) -> Option<Topology> {
        if s == "star"@ {
            Some(Topology::Star)
        } else if s == "double_chain"@ {
            Some(Topology::DoubleChain)
        } else if s == "butterfly"@ {
            Some(Topology::Butterfly)
        } else if s == "tree"@ {
            Some(Topology::Tree)
        } else if s == "sub-net"@ {
            Some(Topology::SubNet)
        } else if s == "custom"@ {
            Some(Topology::Custom)
        } else {
            None
        }
    }

    /// The shape that a text names.
    pub fn from_str(s: &str) -> (r: Option<Topology>)
        ensures
            r == Topology::named(s@),
    {
        if same_text(s, "star") {
            Some(Topology::Star)
        } else if same_text(s, "double_chain") {
            Some(Topology::DoubleChain)
        } else if same_text(s, "butterfly") {
            Some(Topology::Butterfly)
        } else if same_text(s, "tree") {
            Some(Topology::Tree)
        } else if same_text(s, "sub-net") {
            Some(Topology::SubNet)
        } else if same_text(s, "custom") {
            Some(Topology::Custom)
        } else {
            None
        }
    }

    /// The shape in words.
    pub open spec fn words(self) -> Seq<char> {
        match self {
            Topology::Star => "Star"@,
            Topology::DoubleChain => "Double Chain"@,
            Topology::Butterfly => "Butterfly"@,
            Topology::Tree => "Tree"@,
            Topology::SubNet => "Sub-Net"@,
            Topology::Custom => "Custom"@,
        }
    }

    /// The shape in words.
    pub fn title(&self) -> (r: String)
        ensures
            r@ == self.words(),
    {
        match self {
            Topology::Star => "Star".to_owned(),
            Topology::DoubleChain => "Double Chain".to_owned(),
            Topology::Butterfly => "Butterfly".to_owned(),
            Topology::Tree => "Tree".to_owned(),
            Topology::SubNet => "Sub-Net".to_owned(),
            Topology::Custom => "Custom".to_owned(),
        }
    }
}

/// How many ids below `upto` have a property.
pub open spec fn how_many(p: spec_fn(NodeId) -> bool, upto: int) -> nat
    decreases upto,
{
    if upto <= 0 {
        0
    } else {
        how_many(p, upto - 1) + (if p((upto - 1) as NodeId) {
            1nat
        } else {
            0nat
        })
    }
}

/// The sum of `f` over the ids below `upto`.
pub open spec fn total(f: spec_fn(NodeId) -> nat, upto: int) -> nat
    decreases upto,
{
    if upto <= 0 {
        0
    } else {
        total(f, upto - 1) + f((upto - 1) as NodeId)
    }
}

/// Entry `k` is the last one for `id`.
pub open spec fn last_is(s: Seq<EntryView>, id: NodeId, k: int) -> bool {
    &&& 0 <= k < s.len()
    &&& s[k].id == id
    &&& forall|j: int| k < j < s.len() ==> (#[trigger] s[j]).id != id
}

/// Drone `a` is connected to drone `b`. Of entries with the same id the last one counts.
pub open spec fn drones_linked(s: Seq<EntryView>, a: NodeId, b: NodeId) -> bool {
    &&& entry_ids(s).contains(b)
    &&& exists|k: int| #[trigger] last_is(s, a, k) && s[k].links.contains(b)
}

/// The number of drones that a drone is connected to.
pub open spec fn degree(s: Seq<EntryView>, a: NodeId) -> nat {
    how_many(|b: NodeId| drones_linked(s, a, b), ID_COUNT as int)
}

/// The number of drones that are connected to `n` drones.
pub open spec fn with_degree(s: Seq<EntryView>, n: nat) -> nat {
    how_many(|a: NodeId| entry_ids(s).contains(a) && degree(s, a) == n, ID_COUNT as int)
}

/// The number of drones that are connected to `n` drones or more.
pub open spec fn with_degree_from(s: Seq<EntryView>, n: nat) -> nat {
    how_many(|a: NodeId| entry_ids(s).contains(a) && degree(s, a) >= n, ID_COUNT as int)
}

/// The number of drones that are connected to drone `a` and it to them.
pub open spec fn mutual_degree(s: Seq<EntryView>, a: NodeId) -> nat {
    how_many(|b: NodeId| drones_linked(s, a, b) && drones_linked(s, b, a), ID_COUNT as int)
}

/// The number of connections to drones that an entry lists.
pub open spec fn listed_degree(s: Seq<EntryView>, e: EntryView) -> nat {
    e.links.filter(|b: NodeId| entry_ids(s).contains(b)).len()
}

/// The number of entries that list `n` connections to drones.
pub open spec fn listing(s: Seq<EntryView>, n: nat) -> nat {
    s.filter(|e: EntryView| listed_degree(s, e) == n).len()
}

/// The ids of some entries in ascending order.
pub open spec fn ordered_ids(s: Seq<EntryView>) -> Seq<NodeId> {
    entry_ids(s).sort_by(|a: NodeId, b: NodeId| a <= b)
}

/// Drone `i` of a ring of ten is connected to the third one on either side and to no
/// other one.
pub open spec fn third_neighbours(s: Seq<EntryView>, v: Seq<NodeId>, i: int) -> bool {
    &&& degree(s, v[i]) == 2
    &&& drones_linked(s, v[i], v[(i + 3) % 10])
    &&& drones_linked(s, v[i], v[(i + 7) % 10])
}

/// Ten drones in a ring, each connected to the third one on either side.
pub open spec fn is_star(s: Seq<EntryView>) -> bool {
    forall|i: int| 0 <= i < 10 ==> #[trigger] third_neighbours(s, ordered_ids(s), i)
}

/// Two chains of five drones side by side.
pub open spec fn is_double_chain(s: Seq<EntryView>) -> bool {
    &&& with_degree(s, 2) == 4
    &&& with_degree(s, 3) == 6
    &&& total(|a: NodeId| mutual_degree(s, a), ID_COUNT as int) / 2 >= 13
}

/// Two wings joined by drones 9 and 10.
pub open spec fn is_butterfly(s: Seq<EntryView>) -> bool {
    &&& listing(s, 2) == 4
    &&& listing(s, 3) == 6
    &&& drones_linked(s, 9, 5)
    &&& drones_linked(s, 9, 7)
    &&& drones_linked(s, 9, 10)
    &&& drones_linked(s, 10, 6)
    &&& drones_linked(s, 10, 8)
    &&& drones_linked(s, 10, 9)
}

/// Levels of one, two, three and four drones.
pub open spec fn is_tree(s: Seq<EntryView>) -> bool {
    &&& with_degree(s, 2) == 1
    &&& with_degree(s, 4) == 2
    &&& with_degree(s, 6) == 3
    &&& with_degree(s, 3) == 4
}

/// At least three drones with four connections or more.
pub open spec fn is_subnet(s: Seq<EntryView>) -> bool {
    with_degree_from(s, 4) >= 3
}

/// The shape of a network: ten drones that form one of the known shapes.
pub open spec fn shape_of(s: Seq<EntryView>) -> Option<Topology> {
    if s.len() != 10 {
        None
    } else if is_tree(s) {
        Some(Topology::Tree)
    } else if is_subnet(s) {
        Some(Topology::SubNet)
    } else if is_star(s) {
        Some(Topology::Star)
    } else if is_butterfly(s) {
        Some(Topology::Butterfly)
    } else if is_double_chain(s) {
        Some(Topology::DoubleChain)
    } else {
        None
    }
}

/// The connections between drones as a table.
struct LinkTable {
    rows: Vec<Vec<bool>>,
    drones: Vec<bool>,
}

impl LinkTable {
    spec fn wf(self, s: Seq<EntryView>) -> bool {
        &&& self.rows@.len() == ID_COUNT
        &&& self.drones@.len() == ID_COUNT
        &&& forall|a: NodeId| (#[trigger] self.rows@[a as int])@.len() == ID_COUNT
        &&& forall|a: NodeId, b: NodeId| #[trigger]
            self.rows@[a as int]@[b as int] == drones_linked(s, a, b)
        &&& forall|a: NodeId| #[trigger] self.drones@[a as int] == entry_ids(s).contains(a)
    }
}

fn last_entry<T: Linked>(v: &Vec<T>, id: NodeId) -> (r: Option<usize>)
    ensures
        match r {
            Some(k) => k < v@.len() && last_is(entries(v@), id, k as int),
            None => forall|k: int| !last_is(entries(v@), id, k),
        },
{
    let ghost s = entries(v@);
    let mut i: usize = v.len();
    while i > 0
        invariant
            i <= v@.len(),
            s == entries(v@),
            forall|j: int| i <= j < s.len() ==> (#[trigger] s[j]).id != id,
        decreases i,
    {
        i = i - 1;
        if v[i].node_id() == id {
            assert(s[i as int].id == id);
            return Some(i);
        }
    }
    None
}

proof fn lemma_last_is_unique(s: Seq<EntryView>, id: NodeId, j: int, k: int)
    requires
        last_is(s, id, j),
        last_is(s, id, k),
    ensures
        j == k,
{
    if j < k {
        assert(s[k].id != id);
    } else if k < j {
        assert(s[j].id != id);
    }
}

impl ParsedConfig {
    fn link_row(&self, a: NodeId) -> (r: Vec<bool>)
        ensures
            r@.len() == ID_COUNT,
            forall|b: NodeId| #[trigger] r@[b as int] == drones_linked(self@.drone, a, b),
    {
        let ghost s = self@.drone;
        let mut r: Vec<bool> = Vec::new();
        let at: Option<usize> = last_entry(&self.drone, a);
        let mut b: usize = 0;
        while b < ID_COUNT
            invariant
                b <= ID_COUNT,
                r@.len() == b,
                s == entries(self.drone@),
                match at {
                    Some(k) => k < self.drone@.len() && last_is(s, a, k as int),
                    None => forall|k: int| !last_is(s, a, k),
                },
                forall|x: NodeId| x < b ==> #[trigger] r@[x as int] == drones_linked(s, a, x),
            decreases ID_COUNT - b,
        {
            let id: NodeId = b as NodeId;
            let linked: bool = match at {
                Some(k) => {
                    assert(s[k as int] == self.drone@[k as int].entry());
                    has_id(&self.drone[k].connected_node_ids, id) && has_entry(&self.drone, id)
                },
                None => false,
            };
            proof {
                if drones_linked(s, a, id) {
                    let j = choose|j: int| #[trigger] last_is(s, a, j) && s[j].links.contains(id);
                    assert(at is Some);
                    lemma_last_is_unique(s, a, j, at->0 as int);
                }
                if linked {
                    assert(last_is(s, a, at->0 as int) && s[at->0 as int].links.contains(id));
                }
            }
            r.push(linked);
            b = b + 1;
        }
        r
    }

    fn link_table(&self) -> (r: LinkTable)
        ensures
            r.wf(self@.drone),
    {
        let ghost s = self@.drone;
        let mut rows: Vec<Vec<bool>> = Vec::new();
        let mut drones: Vec<bool> = Vec::new();
        let mut a: usize = 0;
        while a < ID_COUNT
            invariant
                a <= ID_COUNT,
                rows@.len() == a,
                drones@.len() == a,
                s == self@.drone,
                forall|x: NodeId| x < a ==> (#[trigger] rows@[x as int])@.len() == ID_COUNT,
                forall|x: NodeId, b: NodeId|
                    x < a ==> #[trigger] rows@[x as int]@[b as int] == drones_linked(s, x, b),
                forall|x: NodeId| x < a ==> #[trigger] drones@[x as int] == entry_ids(s).contains(x),
            decreases ID_COUNT - a,
        {
            let id: NodeId = a as NodeId;
            rows.push(self.link_row(id));
            drones.push(has_entry(&self.drone, id));
            a = a + 1;
        }
        LinkTable { rows, drones }
    }
}

/// Counts the ids that are marked.
fn count_marks(v: &Vec<bool>, Ghost(p): Ghost<spec_fn(NodeId) -> bool>) -> (r: usize)
    requires
        v@.len() == ID_COUNT,
        forall|x: NodeId| #[trigger] v@[x as int] == p(x),
    ensures
        r == how_many(p, ID_COUNT as int),
        r <= ID_COUNT,
{
    let mut n: usize = 0;
    let mut i: usize = 0;
    while i < ID_COUNT
        invariant
            i <= ID_COUNT,
            n <= i,
            v@.len() == ID_COUNT,
            forall|x: NodeId| #[trigger] v@[x as int] == p(x),
            n == how_many(p, i as int),
        decreases ID_COUNT - i,
    {
        let id: NodeId = i as NodeId;
        assert(v@[id as int] == p(id));
        if v[i] {
            n = n + 1;
        }
        i = i + 1;
    }
    n
}

impl LinkTable {
    /// The number of drones that each id is connected to.
    fn degrees(&self, Ghost(s): Ghost<Seq<EntryView>>) -> (r: Vec<usize>)
        requires
            self.wf(s),
        ensures
            r@.len() == ID_COUNT,
            forall|a: NodeId| #[trigger] r@[a as int] == degree(s, a),
    {
        let mut r: Vec<usize> = Vec::new();
        let mut i: usize = 0;
        while i < ID_COUNT
            invariant
                i <= ID_COUNT,
                r@.len() == i,
                self.wf(s),
                forall|a: NodeId| a < i ==> #[trigger] r@[a as int] == degree(s, a),
            decreases ID_COUNT - i,
        {
            let ghost a = i as NodeId;
            let ghost p = |b: NodeId| drones_linked(s, a, b);
            assert(self.rows@[a as int]@.len() == ID_COUNT);
            assert forall|x: NodeId| #[trigger] self.rows@[i as int]@[x as int] == p(x) by {
                assert(self.rows@[a as int]@[x as int] == drones_linked(s, a, x));
            }
            let n: usize = count_marks(&self.rows[i], Ghost(p));
            r.push(n);
            i = i + 1;
        }
        r
    }

    /// The sum of the mutual degrees.
    fn mutual_links(&self, Ghost(s): Ghost<Seq<EntryView>>) -> (r: usize)
        requires
            self.wf(s),
        ensures
            r == total(|a: NodeId| mutual_degree(s, a), ID_COUNT as int),
    {
        let ghost f = |a: NodeId| mutual_degree(s, a);
        let mut r: usize = 0;
        let mut i: usize = 0;
        while i < ID_COUNT
            invariant
                i <= ID_COUNT,
                r <= i * ID_COUNT,
                self.wf(s),
                f == (|a: NodeId| mutual_degree(s, a)),
                r == total(f, i as int),
            decreases ID_COUNT - i,
        {
            let ghost a = i as NodeId;
            let ghost p = |b: NodeId| drones_linked(s, a, b) && drones_linked(s, b, a);
            let mut marks: Vec<bool> = Vec::new();
            let mut k: usize = 0;
            while k < ID_COUNT
                invariant
                    k <= ID_COUNT,
                    i < ID_COUNT,
                    a == i,
                    marks@.len() == k,
                    self.wf(s),
                    p == (|b: NodeId| drones_linked(s, a, b) && drones_linked(s, b, a)),
                    forall|x: NodeId| x < k ==> #[trigger] marks@[x as int] == p(x),
                decreases ID_COUNT - k,
            {
                let ghost b = k as NodeId;
                assert(self.rows@[a as int]@.len() == ID_COUNT);
                assert(self.rows@[b as int]@.len() == ID_COUNT);
                assert(self.rows@[a as int]@[b as int] == drones_linked(s, a, b));
                assert(self.rows@[b as int]@[a as int] == drones_linked(s, b, a));
                marks.push(self.rows[i][k] && self.rows[k][i]);
                k = k + 1;
            }
            let n: usize = count_marks(&marks, Ghost(p));
            assert(f(a) == n);
            r = r + n;
            i = i + 1;
        }
        r
    }
}

/// Counts the drones with a degree, or with that degree or more.
fn count_degrees(
    drones: &Vec<bool>,
    degrees: &Vec<usize>,
    n: usize,
    or_more: bool,
    Ghost(s): Ghost<Seq<EntryView>>,
) -> (r: usize)
    requires
        drones@.len() == ID_COUNT,
        degrees@.len() == ID_COUNT,
        forall|a: NodeId| #[trigger] drones@[a as int] == entry_ids(s).contains(a),
        forall|a: NodeId| #[trigger] degrees@[a as int] == degree(s, a),
    ensures
        r == (if or_more {
            with_degree_from(s, n as nat)
        } else {
            with_degree(s, n as nat)
        }),
{
    let ghost p = if or_more {
        |a: NodeId| entry_ids(s).contains(a) && degree(s, a) >= n as nat
    } else {
        |a: NodeId| entry_ids(s).contains(a) && degree(s, a) == n as nat
    };
    let mut marks: Vec<bool> = Vec::new();
    let mut i: usize = 0;
    while i < ID_COUNT
        invariant
            i <= ID_COUNT,
            marks@.len() == i,
            drones@.len() == ID_COUNT,
            degrees@.len() == ID_COUNT,
            forall|a: NodeId| #[trigger] drones@[a as int] == entry_ids(s).contains(a),
            forall|a: NodeId| #[trigger] degrees@[a as int] == degree(s, a),
            p == (if or_more {
                |a: NodeId| entry_ids(s).contains(a) && degree(s, a) >= n as nat
            } else {
                |a: NodeId| entry_ids(s).contains(a) && degree(s, a) == n as nat
            }),
            forall|x: NodeId| x < i ==> #[trigger] marks@[x as int] == p(x),
        decreases ID_COUNT - i,
    {
        let ghost a = i as NodeId;
        assert(drones@[a as int] == entry_ids(s).contains(a));
        assert(degrees@[a as int] == degree(s, a));
        marks.push(drones[i] && (degrees[i] == n || (or_more && degrees[i] > n)));
        i = i + 1;
    }
    count_marks(&marks, Ghost(p))
}

/// The ids of a list in ascending order.
fn in_order(ids: &Vec<NodeId>) -> (r: Vec<NodeId>)
    ensures
        r@ == ids@.sort_by(|a: NodeId, b: NodeId| a <= b),
        r@.len() == ids@.len(),
{
    broadcast use vstd::seq_lib::group_to_multiset_ensures;

    let ghost leq = |a: NodeId, b: NodeId| a <= b;
    let mut r: Vec<NodeId> = Vec::new();
    let mut i: usize = 0;
    assert(ids@.subrange(0, 0) =~= r@);
    while i < ids.len()
        invariant
            i <= ids@.len(),
            leq == (|a: NodeId, b: NodeId| a <= b),
            r@.len() == i,
            sorted_by(r@, leq),
            r@.to_multiset() == ids@.subrange(0, i as int).to_multiset(),
        decreases ids@.len() - i,
    {
        let x: NodeId = ids[i];
        let ghost before = r@;
        let mut k: usize = r.len();
        while k > 0 && r[k - 1] > x
            invariant
                k <= r@.len(),
                leq == (|a: NodeId, b: NodeId| a <= b),
                sorted_by(r@, leq),
                forall|j: int| k <= j < r@.len() ==> #[trigger] r@[j] > x,
            decreases k,
        {
            k = k - 1;
        }
        r.insert(k, x);
        proof {
            assert(r@ == before.insert(k as int, x));
            vstd::seq_lib::to_multiset_insert(before, k as int, x);
            assert(ids@.subrange(0, i + 1) =~= ids@.subrange(0, i as int).push(x));
            ids@.subrange(0, i as int).to_multiset_ensures();
            assert forall|a: int, b: int| 0 <= a < b < r@.len() implies #[trigger] leq(r@[a], r@[b]) by {
                if b < k {
                    assert(leq(before[a], before[b]));
                } else if b == k {
                    if k > 0 {
                        if a < k - 1 {
                            assert(leq(before[a], before[k - 1]));
                        }
                    }
                } else if a < k {
                    assert(leq(before[a], before[b - 1]));
                } else if a == k {
                    assert(before[b - 1] > x);
                } else {
                    assert(leq(before[a - 1], before[b - 1]));
                }
            }
        }
        i = i + 1;
    }
    proof {
        assert(ids@.subrange(0, i as int) =~= ids@);
        assert(total_ordering(leq));
        ids@.lemma_sort_by_ensures(leq);
        vstd::seq_lib::lemma_sorted_unique(r@, ids@.sort_by(leq), leq);
    }
    r
}

impl ParsedConfig {
    /// The number of connections to drones that a drone lists.
    fn drone_links_listed(&self, k: usize) -> (r: usize)
        requires
            k < self.drone@.len(),
        ensures
            r == listed_degree(self@.drone, self@.drone[k as int]),
    {
        let ghost s = self@.drone;
        let ghost keep = |b: NodeId| entry_ids(s).contains(b);
        let links: &Vec<NodeId> = &self.drone[k].connected_node_ids;
        let size: usize = links.len();
        let mut n: usize = 0;
        let mut i: usize = 0;
        proof {
            reveal(Seq::filter);
            assert(links@.subrange(0, 0).filter(keep).len() == 0);
        }
        while i < size
            invariant
                i <= size,
                n <= i,
                size == links@.len(),
                s == entries(self.drone@),
                keep == (|b: NodeId| entry_ids(s).contains(b)),
                n == links@.subrange(0, i as int).filter(keep).len(),
            decreases size - i,
        {
            proof {
                reveal(Seq::filter);
                let t = links@.subrange(0, i + 1);
                assert(t.drop_last() =~= links@.subrange(0, i as int));
                assert(t.last() == links@[i as int]);
            }
            if has_entry(&self.drone, links[i]) {
                n = n + 1;
            }
            i = i + 1;
        }
        assert(links@.subrange(0, i as int) =~= links@);
        n
    }

    /// The number of drones that list some number of connections to drones.
    fn drones_listing(&self, n: usize) -> (r: usize)
        ensures
            r == listing(self@.drone, n as nat),
    {
        let ghost s = self@.drone;
        let ghost keep = |e: EntryView| listed_degree(s, e) == n as nat;
        let size: usize = self.drone.len();
        let mut c: usize = 0;
        let mut i: usize = 0;
        proof {
            reveal(Seq::filter);
            assert(s.subrange(0, 0).filter(keep).len() == 0);
        }
        while i < size
            invariant
                i <= size,
                c <= i,
                size == self.drone@.len(),
                s == entries(self.drone@),
                s == self@.drone,
                keep == (|e: EntryView| listed_degree(s, e) == n as nat),
                c == s.subrange(0, i as int).filter(keep).len(),
            decreases size - i,
        {
            proof {
                reveal(Seq::filter);
                let t = s.subrange(0, i + 1);
                assert(t.drop_last() =~= s.subrange(0, i as int));
                assert(t.last() == s[i as int]);
            }
            if self.drone_links_listed(i) == n {
                c = c + 1;
            }
            i = i + 1;
        }
        assert(s.subrange(0, i as int) =~= s);
        c
    }

    /// Whether the drones form a star.
    fn forms_star(&self, table: &LinkTable, degrees: &Vec<usize>) -> (r: bool)
        requires
            self.drone@.len() == 10,
            table.wf(self@.drone),
            degrees@.len() == ID_COUNT,
            forall|a: NodeId| #[trigger] degrees@[a as int] == degree(self@.drone, a),
        ensures
            r == is_star(self@.drone),
    {
        let ghost s = self@.drone;
        let ids: Vec<NodeId> = ids_in_order(&self.drone);
        let v: Vec<NodeId> = in_order(&ids);
        assert(v@ == ordered_ids(s));
        let mut i: usize = 0;
        while i < 10
            invariant
                i <= 10,
                s == self@.drone,
                v@.len() == 10,
                v@ == ordered_ids(s),
                table.wf(s),
                degrees@.len() == ID_COUNT,
                forall|a: NodeId| #[trigger] degrees@[a as int] == degree(s, a),
                forall|j: int| 0 <= j < i ==> #[trigger] third_neighbours(s, v@, j),
            decreases 10 - i,
        {
            let a: NodeId = v[i];
            let x: NodeId = v[(i + 3) % 10];
            let y: NodeId = v[(i + 7) % 10];
            assert(degrees@[a as int] == degree(s, a));
            assert(table.rows@[a as int]@.len() == ID_COUNT);
            assert(table.rows@[a as int]@[x as int] == drones_linked(s, a, x));
            assert(table.rows@[a as int]@[y as int] == drones_linked(s, a, y));
            if degrees[a as usize] != 2 || !table.rows[a as usize][x as usize]
                || !table.rows[a as usize][y as usize] {
                assert(!third_neighbours(s, v@, i as int));
                return false;
            }
            i = i + 1;
        }
        true
    }

    /// The shape of the network.
    pub fn detect_shape(&self) -> (r: Option<Topology>)
        ensures
            r == shape_of(self@.drone),
    {
        if self.drone.len() != 10 {
            return None;
        }
        let ghost s = self@.drone;
        let table: LinkTable = self.link_table();
        let degrees: Vec<usize> = table.degrees(Ghost(s));
        let two: usize = count_degrees(&table.drones, &degrees, 2, false, Ghost(s));
        let three: usize = count_degrees(&table.drones, &degrees, 3, false, Ghost(s));
        let four: usize = count_degrees(&table.drones, &degrees, 4, false, Ghost(s));
        let six: usize = count_degrees(&table.drones, &degrees, 6, false, Ghost(s));
        if two == 1 && four == 2 && six == 3 && three == 4 {
            return Some(Topology::Tree);
        }
        if count_degrees(&table.drones, &degrees, 4, true, Ghost(s)) >= 3 {
            return Some(Topology::SubNet);
        }
        if self.forms_star(&table, &degrees) {
            return Some(Topology::Star);
        }
        proof {
            assert(table.rows@[9]@.len() == ID_COUNT && table.rows@[10]@.len() == ID_COUNT) by {
                assert(table.rows@[9u8 as int]@.len() == ID_COUNT);
                assert(table.rows@[10u8 as int]@.len() == ID_COUNT);
            }
            assert(table.rows@[9u8 as int]@[5u8 as int] == drones_linked(s, 9, 5));
            assert(table.rows@[9u8 as int]@[7u8 as int] == drones_linked(s, 9, 7));
            assert(table.rows@[9u8 as int]@[10u8 as int] == drones_linked(s, 9, 10));
            assert(table.rows@[10u8 as int]@[6u8 as int] == drones_linked(s, 10, 6));
            assert(table.rows@[10u8 as int]@[8u8 as int] == drones_linked(s, 10, 8));
            assert(table.rows@[10u8 as int]@[9u8 as int] == drones_linked(s, 10, 9));
        }
        let core: bool = table.rows[9][5] && table.rows[9][7] && table.rows[9][10]
            && table.rows[10][6] && table.rows[10][8] && table.rows[10][9];
        if self.drones_listing(2) == 4 && self.drones_listing(3) == 6 && core {
            return Some(Topology::Butterfly);
        }
        let links: usize = table.mutual_links(Ghost(s));
        if two == 4 && three == 6 && links / 2 >= 13 {
            return Some(Topology::DoubleChain);
        }
        None
    }

    /// The shape of the network, in words.
    pub fn detect_topology(&self) -> (r: Option<String>)
        ensures
            match r {
                Some(t) => shape_of(self@.drone) is Some && t@ == (shape_of(
                    self@.drone,
                )->0).words(),
                None => shape_of(self@.drone) is None,
            },
    {
        match self.detect_shape() {
            Some(t) => Some(t.title()),
            None => None,
        }
    }
}

}
