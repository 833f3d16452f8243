//! The global view of the mesh topology and the shortest-path forwarding
//! trees that publications travel along.
use vstd::prelude::*;
use petgraph::graph::Graph;
use petgraph::Directed;
use crate::shortest_paths::{
    as_ints, group_by_relay, collect_path_edges, is_shortest_path_tree, lemma_seq_elems_push, on_parent_path,
    parents_descend, path_edges, seq_elems, shortest_path_tree, tight_edge, CostEdge,
    EDGE_COST_LIMIT,
};
use crate::link_graph::{
    graph_add_node, graph_edge_count, graph_edge_list, graph_edges, graph_find_edge, graph_new, graph_node_count,
    graph_node_name, graph_node_names, graph_remove_edge, graph_remove_node, graph_update_edge,
    has_edge_between, index_before_removal,
};

verus! {

/// Routing weights of a communication link between two nodes.
#[derive(Clone, Copy, Debug, PartialEq, Eq)]
pub struct LinkWeight {
    /// The logical cost of traversing the link.
    pub hop_cost: u32,
    /// The measured round-trip time of the link in microseconds.
    pub rtt_micros: u64,
}

/// The role a node plays in the mesh. Links into an aggregator cost an
/// extra penalty, so that routes avoid relaying through aggregators.
#[derive(Clone, Copy, Debug, PartialEq, Eq, Structural)]
pub enum NodeRole {
    Flow,
    Aggregator,
}

/// The cost added to every link that leads into an aggregator.
pub const AGGREGATOR_PENALTY: u64 = 10000u64;

/// Metadata that a node announces about itself.
#[derive(Clone, Debug)]
pub struct NodeDescriptor {
    pub node_id: String,
    pub role: NodeRole,
    /// Key/value capabilities; a key `sub:<pattern>` announces a subscription.
    pub capabilities: Vec<(String, String)>,
    /// When the node was last heard of, in milliseconds since the Unix epoch.
    pub last_seen: u64,
}

/// The value of a node descriptor.
#[verifier::ext_equal]
pub struct DescriptorView {
    pub node_id: Seq<char>,
    pub role: NodeRole,
    pub capabilities: Seq<(Seq<char>, Seq<char>)>,
    pub last_seen: u64,
}

impl View for NodeDescriptor {
    type V = DescriptorView;

    open spec fn view(&self) -> DescriptorView {
        DescriptorView {
            node_id: self.node_id@,
            role: self.role,
            capabilities: self.capabilities@.map_values(|c: (String, String)| (c.0@, c.1@)),
            last_seen: self.last_seen,
        }
    }
}

impl NodeDescriptor {
    /// A copy of this descriptor.
    pub fn copy(&self) -> (c: NodeDescriptor)
        ensures
            c@ == self@,
    {
        let mut caps: Vec<(String, String)> = Vec::new();
        let mut i: usize = 0;
        while i < self.capabilities.len()
            invariant
                i <= self.capabilities@.len(),
                caps@.len() == i,
                forall|j: int| 0 <= j < i ==> #[trigger] caps@[j] == self.capabilities@[j],
            decreases self.capabilities@.len() - i,
        {
            let k = self.capabilities[i].0.clone();
            let v = self.capabilities[i].1.clone();
            caps.push((k, v));
            i = i + 1;
        }
        assert(caps@ =~= self.capabilities@);
        NodeDescriptor {
            node_id: self.node_id.clone(),
            role: self.role,
            capabilities: caps,
            last_seen: self.last_seen,
        }
    }
}

/// A symmetric link between two nodes, as exchanged between peers.
#[derive(Clone, Debug)]
pub struct LinkDescriptor {
    pub node_a: String,
    pub node_b: String,
    pub hop_cost: u32,
    pub rtt_micros: u64,
}

/// A batch of topology changes received from the network.
#[derive(Clone, Debug)]
pub struct TopologyUpdate {
    pub nodes_added: Vec<NodeDescriptor>,
    pub nodes_removed: Vec<String>,
    pub links_added: Vec<LinkDescriptor>,
    pub links_removed: Vec<LinkDescriptor>,
}

/// The next hops a relay forwards a publication to.
#[derive(Clone, Debug)]
pub struct ForwardingTargets {
    pub send_to: Vec<String>,
}

/// A directed link between two named nodes with its weight: source, target,
/// hop cost, round-trip time.
pub type NamedLink = (Seq<char>, Seq<char>, u32, u64);

/// The abstract topology: the known nodes, the directed links between them,
/// and the metadata announced by nodes.
#[verifier::ext_equal]
pub struct GraphView {
    pub nodes: Set<Seq<char>>,
    pub links: Set<NamedLink>,
    pub metadata: Map<Seq<char>, DescriptorView>,
}

/// The global view of the mesh topology as a directed graph.
pub struct GlobalGraph {
    graph: Graph<String, LinkWeight, Directed, u32>,
    node_metadata: Vec<NodeDescriptor>,
}

/// An index-level edge read with node names.
pub open spec fn named_edge(names: Seq<Seq<char>>, e: (u32, u32, u32, u64)) -> NamedLink {
    (names[e.0 as int], names[e.1 as int], e.2, e.3)
}

/// The named links of an index-level edge list.
pub open spec fn named_links(names: Seq<Seq<char>>, edges: Seq<(u32, u32, u32, u64)>) -> Set<
    NamedLink,
> {
    Set::new(|q: NamedLink| exists|i: int| 0 <= i < edges.len() && named_edge(names, edges[i]) == q)
}

/// The metadata held in a descriptor list with distinct identifiers, by
/// identifier.
pub open spec fn metadata_map(meta: Seq<NodeDescriptor>) -> Map<Seq<char>, DescriptorView> {
    Map::new(
        |k: Seq<char>| exists|j: int| 0 <= j < meta.len() && meta[j].node_id@ == k,
        |k: Seq<char>| meta[choose|j: int| 0 <= j < meta.len() && meta[j].node_id@ == k]@,
    )
}

/// Links without those from `x` to `y`.
pub open spec fn without_link(links: Set<NamedLink>, x: Seq<char>, y: Seq<char>) -> Set<NamedLink> {
    links.filter(|q: NamedLink| !(q.0 == x && q.1 == y))
}

impl GraphView {
    /// The topology after a node announces `d`.
    pub open spec fn with_node(self, d: DescriptorView) -> GraphView {
        GraphView {
            nodes: self.nodes.insert(d.node_id),
            links: self.links,
            metadata: self.metadata.insert(d.node_id, d),
        }
    }

    /// The topology after node `id` and all of its links are removed.
    pub open spec fn without_node(self, id: Seq<char>) -> GraphView {
        GraphView {
            nodes: self.nodes.remove(id),
            links: self.links.filter(|q: NamedLink| q.0 != id && q.1 != id),
            metadata: self.metadata.remove(id),
        }
    }

    /// The topology after a symmetric link between `a` and `b` is added or
    /// updated: both nodes become known and both directions carry the weight.
    pub open spec fn with_link(self, a: Seq<char>, b: Seq<char>, hop_cost: u32, rtt_micros: u64) -> GraphView {
        GraphView {
            nodes: self.nodes.insert(a).insert(b),
            links: without_link(without_link(self.links, a, b), b, a).insert(
                (a, b, hop_cost, rtt_micros),
            ).insert((b, a, hop_cost, rtt_micros)),
            metadata: self.metadata,
        }
    }

    /// The topology after the nodes of `ds` announce themselves, in order.
    pub open spec fn with_nodes(self, ds: Seq<DescriptorView>) -> GraphView
        decreases ds.len(),
    {
        if ds.len() == 0 {
            self
        } else {
            self.with_nodes(ds.drop_last()).with_node(ds.last())
        }
    }

    /// The topology after the nodes `ids` are removed, in order; unknown
    /// identifiers change nothing.
    pub open spec fn without_nodes(self, ids: Seq<Seq<char>>) -> GraphView
        decreases ids.len(),
    {
        if ids.len() == 0 {
            self
        } else {
            let v = self.without_nodes(ids.drop_last());
            if v.nodes.contains(ids.last()) {
                v.without_node(ids.last())
            } else {
                v
            }
        }
    }

    /// The topology after the links `ls` are added, in order.
    pub open spec fn with_links(self, ls: Seq<NamedLink>) -> GraphView
        decreases ls.len(),
    {
        if ls.len() == 0 {
            self
        } else {
            let l = ls.last();
            self.with_links(ls.drop_last()).with_link(l.0, l.1, l.2, l.3)
        }
    }

    /// The topology after the links between the pairs `ps` are removed, in
    /// order.
    pub open spec fn without_links(self, ps: Seq<(Seq<char>, Seq<char>)>) -> GraphView
        decreases ps.len(),
    {
        if ps.len() == 0 {
            self
        } else {
            let p = ps.last();
            self.without_links(ps.drop_last()).without_link_between(p.0, p.1)
        }
    }

    /// The topology after a batch update: nodes added, nodes removed, links
    /// added, links removed, each list in order.
    pub open spec fn apply(self, u: TopologyUpdate) -> GraphView {
        self.with_nodes(u.nodes_added@.map_values(|d: NodeDescriptor| d@)).without_nodes(
            u.nodes_removed@.map_values(|s: String| s@),
        ).with_links(
            u.links_added@.map_values(
                |l: LinkDescriptor| (l.node_a@, l.node_b@, l.hop_cost, l.rtt_micros),
            ),
        ).without_links(u.links_removed@.map_values(|l: LinkDescriptor| (l.node_a@, l.node_b@)))
    }

    /// The topology after the link between `a` and `b` is removed in both
    /// directions.
    pub open spec fn without_link_between(self, a: Seq<char>, b: Seq<char>) -> GraphView {
        GraphView {
            nodes: self.nodes,
            links: without_link(without_link(self.links, a, b), b, a),
            metadata: self.metadata,
        }
    }
}

proof fn lemma_named_links_names_push(
    names: Seq<Seq<char>>,
    x: Seq<char>,
    edges: Seq<(u32, u32, u32, u64)>,
)
    requires
        forall|k: int| 0 <= k < edges.len() ==> (#[trigger] edges[k]).0 < names.len() && edges[k].1 < names.len(),
    ensures
        named_links(names.push(x), edges) == named_links(names, edges),
{
    assert forall|k: int| 0 <= k < edges.len() implies named_edge(names.push(x), #[trigger] edges[k])
        == named_edge(names, edges[k]) by {
        assert(names.push(x)[edges[k].0 as int] == names[edges[k].0 as int]);
        assert(names.push(x)[edges[k].1 as int] == names[edges[k].1 as int]);
    }
    assert(named_links(names.push(x), edges) =~= named_links(names, edges));
}

proof fn lemma_metadata_lookup(meta: Seq<NodeDescriptor>, j: int)
    requires
        forall|a: int, b: int|
            0 <= a < meta.len() && 0 <= b < meta.len() && a != b ==> (#[trigger] meta[a]).node_id@ != (#[trigger] meta[b]).node_id@,
        0 <= j < meta.len(),
    ensures
        metadata_map(meta).contains_key(meta[j].node_id@),
        metadata_map(meta)[meta[j].node_id@] == meta[j]@,
{
    let k = meta[j].node_id@;
    assert(exists|i: int| 0 <= i < meta.len() && meta[i].node_id@ == k);
    let c = choose|i: int| 0 <= i < meta.len() && meta[i].node_id@ == k;
    assert(c == j);
}

proof fn lemma_metadata_push(meta: Seq<NodeDescriptor>, d: NodeDescriptor)
    requires
        forall|a: int, b: int|
            0 <= a < meta.len() && 0 <= b < meta.len() && a != b ==> (#[trigger] meta[a]).node_id@ != (#[trigger] meta[b]).node_id@,
        forall|a: int| 0 <= a < meta.len() ==> (#[trigger] meta[a]).node_id@ != d.node_id@,
    ensures
        metadata_map(meta.push(d)) == metadata_map(meta).insert(d.node_id@, d@),
{
    let m2 = meta.push(d);
    assert forall|a: int, b: int|
        0 <= a < m2.len() && 0 <= b < m2.len() && a != b implies (#[trigger] m2[a]).node_id@ != (#[trigger] m2[b]).node_id@ by {
    }
    assert forall|k: Seq<char>| #[trigger] metadata_map(m2).contains_key(k) <==> metadata_map(meta).insert(d.node_id@, d@).contains_key(k) by {
        if metadata_map(meta).contains_key(k) {
            let i = choose|i: int| 0 <= i < meta.len() && meta[i].node_id@ == k;
            assert(m2[i].node_id@ == k);
        }
        if k == d.node_id@ {
            assert(m2[meta.len() as int].node_id@ == k);
        }
        if metadata_map(m2).contains_key(k) {
            let i = choose|i: int| 0 <= i < m2.len() && m2[i].node_id@ == k;
            if i < meta.len() {
                assert(meta[i].node_id@ == k);
            }
        }
    }
    assert forall|k: Seq<char>| #[trigger] metadata_map(m2).contains_key(k) implies metadata_map(m2)[k] == metadata_map(meta).insert(d.node_id@, d@)[k] by {
        let i = choose|i: int| 0 <= i < m2.len() && m2[i].node_id@ == k;
        lemma_metadata_lookup(m2, i);
        if i < meta.len() {
            lemma_metadata_lookup(meta, i);
        }
    }
    assert(metadata_map(m2) =~= metadata_map(meta).insert(d.node_id@, d@));
}

proof fn lemma_metadata_update(meta: Seq<NodeDescriptor>, j: int, d: NodeDescriptor)
    requires
        forall|a: int, b: int|
            0 <= a < meta.len() && 0 <= b < meta.len() && a != b ==> (#[trigger] meta[a]).node_id@ != (#[trigger] meta[b]).node_id@,
        0 <= j < meta.len(),
        meta[j].node_id@ == d.node_id@,
    ensures
        metadata_map(meta.update(j, d)) == metadata_map(meta).insert(d.node_id@, d@),
        forall|a: int, b: int|
            0 <= a < meta.len() && 0 <= b < meta.len() && a != b ==> (#[trigger] meta.update(j, d)[a]).node_id@ != (#[trigger] meta.update(j, d)[b]).node_id@,
{
    let m2 = meta.update(j, d);
    assert forall|a: int, b: int|
        0 <= a < m2.len() && 0 <= b < m2.len() && a != b implies (#[trigger] m2[a]).node_id@ != (#[trigger] m2[b]).node_id@ by {
        assert(m2[a].node_id@ == meta[a].node_id@);
        assert(m2[b].node_id@ == meta[b].node_id@);
    }
    assert forall|k: Seq<char>| #[trigger] metadata_map(m2).contains_key(k) <==> metadata_map(meta).insert(d.node_id@, d@).contains_key(k) by {
        if metadata_map(meta).contains_key(k) {
            let i = choose|i: int| 0 <= i < meta.len() && meta[i].node_id@ == k;
            assert(m2[i].node_id@ == k);
        }
        if k == d.node_id@ {
            assert(m2[j].node_id@ == k);
        }
        if metadata_map(m2).contains_key(k) {
            let i = choose|i: int| 0 <= i < m2.len() && m2[i].node_id@ == k;
            assert(meta[i].node_id@ == k);
        }
    }
    assert forall|k: Seq<char>| #[trigger] metadata_map(m2).contains_key(k) implies metadata_map(m2)[k] == metadata_map(meta).insert(d.node_id@, d@)[k] by {
        let i = choose|i: int| 0 <= i < m2.len() && m2[i].node_id@ == k;
        lemma_metadata_lookup(m2, i);
        if i != j {
            lemma_metadata_lookup(meta, i);
        }
    }
    assert(metadata_map(m2) =~= metadata_map(meta).insert(d.node_id@, d@));
}

proof fn lemma_metadata_remove(meta: Seq<NodeDescriptor>, j: int)
    requires
        forall|a: int, b: int|
            0 <= a < meta.len() && 0 <= b < meta.len() && a != b ==> (#[trigger] meta[a]).node_id@ != (#[trigger] meta[b]).node_id@,
        0 <= j < meta.len(),
    ensures
        metadata_map(meta.remove(j)) == metadata_map(meta).remove(meta[j].node_id@),
        forall|a: int, b: int|
            0 <= a < meta.len() - 1 && 0 <= b < meta.len() - 1 && a != b ==> (#[trigger] meta.remove(j)[a]).node_id@ != (#[trigger] meta.remove(j)[b]).node_id@,
{
    let m2 = meta.remove(j);
    let id = meta[j].node_id@;
    assert forall|a: int| 0 <= a < m2.len() implies #[trigger] m2[a] == meta[if a < j { a } else { a + 1 }] by {
    }
    assert forall|a: int, b: int|
        0 <= a < m2.len() && 0 <= b < m2.len() && a != b implies (#[trigger] m2[a]).node_id@ != (#[trigger] m2[b]).node_id@ by {
        assert(m2[a] == meta[if a < j { a } else { a + 1 }]);
        assert(m2[b] == meta[if b < j { b } else { b + 1 }]);
    }
    assert forall|k: Seq<char>| #[trigger] metadata_map(m2).contains_key(k) <==> metadata_map(meta).remove(id).contains_key(k) by {
        if metadata_map(meta).contains_key(k) && k != id {
            let i = choose|i: int| 0 <= i < meta.len() && meta[i].node_id@ == k;
            assert(i != j);
            let i2 = if i < j { i } else { i - 1 };
            assert(m2[i2] == meta[i]);
        }
        if metadata_map(m2).contains_key(k) {
            let i = choose|i: int| 0 <= i < m2.len() && m2[i].node_id@ == k;
            let i1 = if i < j { i } else { i + 1 };
            assert(m2[i] == meta[i1]);
            assert(i1 != j);
        }
    }
    assert forall|k: Seq<char>| #[trigger] metadata_map(m2).contains_key(k) implies metadata_map(m2)[k] == metadata_map(meta).remove(id)[k] by {
        let i = choose|i: int| 0 <= i < m2.len() && m2[i].node_id@ == k;
        lemma_metadata_lookup(m2, i);
        let i1 = if i < j { i } else { i + 1 };
        assert(m2[i] == meta[i1]);
        lemma_metadata_lookup(meta, i1);
    }
    assert(metadata_map(m2) =~= metadata_map(meta).remove(id));
}

/// Node names are distinct, edges join existing nodes, and at most one edge
/// leads from one node to another.
pub open spec fn edges_ok(names: Seq<Seq<char>>, edges: Seq<(u32, u32, u32, u64)>) -> bool {
    &&& forall|i: int, j: int| 0 <= i < names.len() && 0 <= j < names.len() && i != j ==> names[i] != names[j]
    &&& forall|k: int| 0 <= k < edges.len() ==> (#[trigger] edges[k]).0 < names.len() && edges[k].1 < names.len()
    &&& forall|k: int, l: int|
        0 <= k < edges.len() && 0 <= l < edges.len() && k != l ==> !((#[trigger] edges[k]).0 == (#[trigger] edges[l]).0
            && edges[k].1 == edges[l].1)
}

proof fn lemma_links_between_known_nodes(names: Seq<Seq<char>>, edges: Seq<(u32, u32, u32, u64)>, q: NamedLink)
    requires
        edges_ok(names, edges),
        named_links(names, edges).contains(q),
    ensures
        seq_elems(names).contains(q.0),
        seq_elems(names).contains(q.1),
{
    let k = choose|k: int| 0 <= k < edges.len() && named_edge(names, edges[k]) == q;
    assert(names[edges[k].0 as int] == q.0);
    assert(names[edges[k].1 as int] == q.1);
}

/// Whether the links hold one from `x` to `y`, of any weight.
pub open spec fn linked(links: Set<NamedLink>, x: Seq<char>, y: Seq<char>) -> bool {
    exists|h: u32, r: u64| #[trigger] links.contains((x, y, h, r))
}

/// How many of the endpoints of a link between `a` and `b` the topology
/// does not know yet (`a` and `b` counted once when they are the same).
pub open spec fn new_endpoints(v: GraphView, a: Seq<char>, b: Seq<char>) -> nat {
    (if v.nodes.contains(a) {
        0nat
    } else {
        1nat
    }) + (if v.nodes.contains(b) || a == b {
        0nat
    } else {
        1nat
    })
}

/// How many of the two directions of a link between `a` and `b` the
/// topology has no link for yet (one direction only when `a` and `b` are
/// the same).
pub open spec fn missing_directions(v: GraphView, a: Seq<char>, b: Seq<char>) -> nat {
    (if linked(v.links, a, b) {
        0nat
    } else {
        1nat
    }) + (if linked(v.links, b, a) || a == b {
        0nat
    } else {
        1nat
    })
}

/// Distinct positions of a list of distinct names hold distinct names.
proof fn lemma_index_unique(names: Seq<Seq<char>>, i: int, j: int)
    requires
        forall|a: int, b: int| 0 <= a < names.len() && 0 <= b < names.len() && a != b ==> names[a] != names[b],
        0 <= i < names.len(),
        0 <= j < names.len(),
        names[i] == names[j],
    ensures
        i == j,
{
}

/// An index-level edge between two nodes exists exactly when a named link
/// joins their names.
proof fn lemma_has_edge_linked(names: Seq<Seq<char>>, edges: Seq<(u32, u32, u32, u64)>, a: u32, b: u32)
    requires
        edges_ok(names, edges),
        a < names.len(),
        b < names.len(),
    ensures
        has_edge_between(edges, a, b) <==> linked(named_links(names, edges), names[a as int], names[b as int]),
{
    let l = named_links(names, edges);
    if has_edge_between(edges, a, b) {
        let i = choose|i: int| 0 <= i < edges.len() && (#[trigger] edges[i]).0 == a && edges[i].1 == b;
        assert(named_edge(names, edges[i]) == (names[a as int], names[b as int], edges[i].2, edges[i].3));
        assert(l.contains((names[a as int], names[b as int], edges[i].2, edges[i].3)));
    }
    if linked(l, names[a as int], names[b as int]) {
        let (h, r) = choose|h: u32, r: u64| #[trigger] l.contains((names[a as int], names[b as int], h, r));
        let k = choose|k: int| 0 <= k < edges.len() && named_edge(names, edges[k]) == (names[a as int], names[b as int], h, r);
        assert(edges[k].0 < names.len() && edges[k].1 < names.len());
        assert(edges[k].0 == a);
        assert(edges[k].1 == b);
    }
}

proof fn lemma_set_edge(
    names: Seq<Seq<char>>,
    edges: Seq<(u32, u32, u32, u64)>,
    edges2: Seq<(u32, u32, u32, u64)>,
    a: u32,
    b: u32,
    h: u32,
    r: u64,
    e: u32,
)
    requires
        edges_ok(names, edges),
        a < names.len(),
        b < names.len(),
        has_edge_between(edges, a, b) ==> {
            &&& e < edges.len()
            &&& edges[e as int].0 == a
            &&& edges[e as int].1 == b
            &&& edges2 == edges.update(e as int, (a, b, h, r))
        },
        !has_edge_between(edges, a, b) ==> edges2 == edges.push((a, b, h, r)),
    ensures
        edges_ok(names, edges2),
        edges2.len() <= edges.len() + 1,
        named_links(names, edges2) == without_link(named_links(names, edges), names[a as int], names[b as int]).insert(
            (names[a as int], names[b as int], h, r),
        ),
{
    let na = names[a as int];
    let nb = names[b as int];
    let l1 = named_links(names, edges);
    let l2 = named_links(names, edges2);
    let target = without_link(l1, na, nb).insert((na, nb, h, r));
    if has_edge_between(edges, a, b) {
        assert forall|k: int, l: int|
            0 <= k < edges2.len() && 0 <= l < edges2.len() && k != l implies !((#[trigger] edges2[k]).0
                == (#[trigger] edges2[l]).0 && edges2[k].1 == edges2[l].1) by {
            if k != e && l != e {
                assert(edges2[k] == edges[k] && edges2[l] == edges[l]);
            } else if k == e {
                assert(edges2[l] == edges[l]);
            } else {
                assert(edges2[k] == edges[k]);
            }
        }
        assert forall|q: NamedLink| l2.contains(q) <==> target.contains(q) by {
            if l2.contains(q) {
                let k = choose|k: int| 0 <= k < edges2.len() && named_edge(names, edges2[k]) == q;
                if k != e {
                    assert(edges2[k] == edges[k]);
                    assert(l1.contains(q));
                    if q.0 == na && q.1 == nb {
                        assert(edges[k].0 == a && edges[k].1 == b);
                    }
                }
            }
            if target.contains(q) {
                if q == (na, nb, h, r) {
                    assert(named_edge(names, edges2[e as int]) == q);
                } else {
                    let k = choose|k: int| 0 <= k < edges.len() && named_edge(names, edges[k]) == q;
                    assert(k != e);
                    assert(edges2[k] == edges[k]);
                }
            }
        }
    } else {
        assert forall|k: int, l: int|
            0 <= k < edges2.len() && 0 <= l < edges2.len() && k != l implies !((#[trigger] edges2[k]).0
                == (#[trigger] edges2[l]).0 && edges2[k].1 == edges2[l].1) by {
            if k < edges.len() && l < edges.len() {
                assert(edges2[k] == edges[k] && edges2[l] == edges[l]);
            } else if k < edges.len() {
                assert(edges2[k] == edges[k]);
            } else {
                assert(edges2[l] == edges[l]);
            }
        }
        assert forall|q: NamedLink| l2.contains(q) <==> target.contains(q) by {
            if l2.contains(q) {
                let k = choose|k: int| 0 <= k < edges2.len() && named_edge(names, edges2[k]) == q;
                if k < edges.len() {
                    assert(edges2[k] == edges[k]);
                    assert(l1.contains(q));
                    if q.0 == na && q.1 == nb {
                        assert(edges[k].0 == a && edges[k].1 == b);
                    }
                }
            }
            if target.contains(q) {
                if q == (na, nb, h, r) {
                    assert(named_edge(names, edges2[edges.len() as int]) == q);
                } else {
                    let k = choose|k: int| 0 <= k < edges.len() && named_edge(names, edges[k]) == q;
                    assert(edges2[k] == edges[k]);
                }
            }
        }
    }
    assert(l2 =~= target);
}

proof fn lemma_drop_edge(
    names: Seq<Seq<char>>,
    edges: Seq<(u32, u32, u32, u64)>,
    e: int,
)
    requires
        edges_ok(names, edges),
        0 <= e < edges.len(),
    ensures
        edges_ok(names, edges.update(e, edges.last()).drop_last()),
        named_links(names, edges.update(e, edges.last()).drop_last()) == without_link(
            named_links(names, edges),
            names[edges[e].0 as int],
            names[edges[e].1 as int],
        ),
{
    let edges2 = edges.update(e, edges.last()).drop_last();
    let last = edges.len() - 1;
    let orig = |k: int| if k == e { last } else { k };
    assert forall|k: int| 0 <= k < edges2.len() implies #[trigger] edges2[k] == edges[orig(k)] && orig(k) != e by {
    }
    assert forall|k: int, l: int|
        0 <= k < edges2.len() && 0 <= l < edges2.len() && k != l implies !((#[trigger] edges2[k]).0 == (#[trigger] edges2[l]).0
            && edges2[k].1 == edges2[l].1) by {
        assert(edges2[k] == edges[orig(k)]);
        assert(edges2[l] == edges[orig(l)]);
    }
    let na = names[edges[e].0 as int];
    let nb = names[edges[e].1 as int];
    let l1 = named_links(names, edges);
    let l2 = named_links(names, edges2);
    let target = without_link(l1, na, nb);
    assert forall|q: NamedLink| l2.contains(q) <==> target.contains(q) by {
        if l2.contains(q) {
            let k = choose|k: int| 0 <= k < edges2.len() && named_edge(names, edges2[k]) == q;
            assert(edges2[k] == edges[orig(k)]);
            assert(l1.contains(q));
            if q.0 == na && q.1 == nb {
                assert(edges[orig(k)].0 == edges[e].0 && edges[orig(k)].1 == edges[e].1);
            }
        }
        if target.contains(q) {
            let k = choose|k: int| 0 <= k < edges.len() && named_edge(names, edges[k]) == q;
            assert(k != e);
            if k == last {
                assert(edges2[e] == edges[k]);
            } else {
                assert(edges2[k] == edges[k]);
            }
        }
    }
    assert(l2 =~= target);
}

proof fn lemma_remove_node(
    names: Seq<Seq<char>>,
    edges: Seq<(u32, u32, u32, u64)>,
    names2: Seq<Seq<char>>,
    edges2: Seq<(u32, u32, u32, u64)>,
    a: u32,
)
    requires
        edges_ok(names, edges),
        a < names.len(),
        names.len() <= u32::MAX,
        names2 == names.update(a as int, names.last()).drop_last(),
        forall|q: (u32, u32, u32, u64)|
            #[trigger] edges2.to_multiset().count(q) == if q.0 < names.len() - 1 && q.1 < names.len() - 1 {
                edges.to_multiset().count(
                    (
                        index_before_removal(q.0, a, names.len()),
                        index_before_removal(q.1, a, names.len()),
                        q.2,
                        q.3,
                    ),
                )
            } else {
                0
            },
    ensures
        edges_ok(names2, edges2),
        seq_elems(names2) == seq_elems(names).remove(names[a as int]),
        named_links(names2, edges2) == named_links(names, edges).filter(
            |q: NamedLink| q.0 != names[a as int] && q.1 != names[a as int],
        ),
{
    broadcast use vstd::seq_lib::group_to_multiset_ensures;
    let n = names.len();
    let na = names[a as int];
    let orig = |x: u32| index_before_removal(x, a, n);
    let renum = |x: u32| if x as int == n - 1 { a } else { x };
    assert forall|x: u32| x < n - 1 implies #[trigger] names2[x as int] == names[orig(x) as int] && orig(x) != a
        && orig(x) < n by {
    }
    // names
    assert forall|y: Seq<char>| seq_elems(names2).contains(y) <==> seq_elems(names).remove(na).contains(y) by {
        if seq_elems(names2).contains(y) {
            let i = choose|i: int| 0 <= i < names2.len() && names2[i] == y;
            assert(names2[i] == names[orig(i as u32) as int]);
        }
        if seq_elems(names).remove(na).contains(y) {
            let i = choose|i: int| 0 <= i < names.len() && names[i] == y;
            assert(i != a);
            let j = renum(i as u32);
            assert(names2[j as int] == y);
        }
    }
    assert(seq_elems(names2) =~= seq_elems(names).remove(na));
    // the old edge list has no repeated edge
    assert(edges.no_duplicates()) by {
        assert forall|i: int, j: int| 0 <= i < edges.len() && 0 <= j < edges.len() && i != j implies edges[i] != edges[j] by {
            assert(!(edges[i].0 == edges[j].0 && edges[i].1 == edges[j].1));
        }
    }
    edges.lemma_multiset_has_no_duplicates();
    assert forall|q: (u32, u32, u32, u64)| edges2.to_multiset().contains(q) implies edges2.to_multiset().count(q) == 1 by {
        let q0 = (orig(q.0), orig(q.1), q.2, q.3);
        assert(edges.to_multiset().count(q0) > 0);
        assert(edges.to_multiset().contains(q0));
    }
    edges2.lemma_multiset_has_no_duplicates_conv();
    // membership of new edges
    assert forall|k: int| 0 <= k < edges2.len() implies (#[trigger] edges2[k]).0 < n - 1 && edges2[k].1 < n - 1
        && edges.contains((orig(edges2[k].0), orig(edges2[k].1), edges2[k].2, edges2[k].3)) by {
        assert(edges2.contains(edges2[k]));
        assert(edges2.to_multiset().count(edges2[k]) > 0);
    }
    // edges_ok
    assert forall|i: int, j: int| 0 <= i < names2.len() && 0 <= j < names2.len() && i != j implies names2[i] != names2[j] by {
        assert(names2[i] == names[orig(i as u32) as int]);
        assert(names2[j] == names[orig(j as u32) as int]);
    }
    assert forall|k: int, l: int|
        0 <= k < edges2.len() && 0 <= l < edges2.len() && k != l implies !((#[trigger] edges2[k]).0 == (#[trigger] edges2[l]).0
            && edges2[k].1 == edges2[l].1) by {
        if edges2[k].0 == edges2[l].0 && edges2[k].1 == edges2[l].1 {
            assert(edges2[k] != edges2[l]);
            let qk = (orig(edges2[k].0), orig(edges2[k].1), edges2[k].2, edges2[k].3);
            let ql = (orig(edges2[l].0), orig(edges2[l].1), edges2[l].2, edges2[l].3);
            let ik = choose|i: int| 0 <= i < edges.len() && edges[i] == qk;
            let il = choose|i: int| 0 <= i < edges.len() && edges[i] == ql;
            assert(qk != ql);
            assert(ik != il);
        }
    }
    // links
    let l1 = named_links(names, edges);
    let l2 = named_links(names2, edges2);
    let target = l1.filter(|q: NamedLink| q.0 != na && q.1 != na);
    assert forall|q: NamedLink| l2.contains(q) <==> target.contains(q) by {
        if l2.contains(q) {
            let k = choose|k: int| 0 <= k < edges2.len() && named_edge(names2, edges2[k]) == q;
            let e = edges2[k];
            let q0 = (orig(e.0), orig(e.1), e.2, e.3);
            assert(edges.contains(q0));
            let i = choose|i: int| 0 <= i < edges.len() && edges[i] == q0;
            assert(names2[e.0 as int] == names[orig(e.0) as int]);
            assert(names2[e.1 as int] == names[orig(e.1) as int]);
            assert(named_edge(names, edges[i]) == q);
            assert(orig(e.0) != a && orig(e.1) != a);
        }
        if target.contains(q) {
            let i = choose|i: int| 0 <= i < edges.len() && named_edge(names, edges[i]) == q;
            let e = edges[i];
            assert(e.0 != a && e.1 != a);
            let q2 = (renum(e.0), renum(e.1), e.2, e.3);
            assert(orig(q2.0) == e.0 && orig(q2.1) == e.1);
            assert(edges.contains(e));
            assert(edges.to_multiset().count(e) > 0);
            assert(edges2.to_multiset().count(q2) > 0);
            assert(edges2.contains(q2));
            let k = choose|k: int| 0 <= k < edges2.len() && edges2[k] == q2;
            assert(names2[q2.0 as int] == names[e.0 as int]);
            assert(names2[q2.1 as int] == names[e.1 as int]);
            assert(named_edge(names2, edges2[k]) == q);
        }
    }
    assert(l2 =~= target);
}

/// The cost of following a link with hop cost `hop_cost` into `target`:
/// links into an aggregator carry an extra penalty.
pub open spec fn link_cost(v: GraphView, target: Seq<char>, hop_cost: u32) -> int {
    hop_cost + if v.metadata.contains_key(target) && v.metadata[target].role == NodeRole::Aggregator {
        AGGREGATOR_PENALTY as int
    } else {
        0int
    }
}

/// A shortest-path tree of the topology rooted at `source`: `dist` holds
/// exactly the nodes that `source` reaches, no link out of a reached node
/// leads to a shorter distance, and every reached node but the source has a
/// parent whose link reaches it at exactly its distance. `rank` grows from
/// parent to child, so that parents always lead back to the source.
pub open spec fn is_routing_tree(
    v: GraphView,
    source: Seq<char>,
    dist: Map<Seq<char>, int>,
    parent: Map<Seq<char>, Seq<char>>,
    rank: Map<Seq<char>, nat>,
) -> bool {
    &&& dist.contains_key(source)
    &&& dist[source] == 0
    &&& forall|x: Seq<char>| #[trigger] dist.contains_key(x) ==> v.nodes.contains(x) && rank.contains_key(x)
    &&& forall|q: NamedLink|
        #[trigger] v.links.contains(q) && dist.contains_key(q.0) ==> dist.contains_key(q.1) && dist[q.1]
            <= dist[q.0] + link_cost(v, q.1, q.2)
    &&& forall|y: Seq<char>| #[trigger] parent.contains_key(y) <==> (dist.contains_key(y) && y != source)
    &&& forall|y: Seq<char>|
        #[trigger] parent.contains_key(y) ==> dist.contains_key(parent[y]) && rank[parent[y]] < rank[y]
            && exists|h: u32, r: u64|
            #[trigger] v.links.contains((parent[y], y, h, r)) && dist[y] == dist[parent[y]] + link_cost(v, y, h)
}

/// Whether `y` lies on the tree path that climbs from `from` through
/// parents.
pub open spec fn on_tree_path(
    parent: Map<Seq<char>, Seq<char>>,
    rank: Map<Seq<char>, nat>,
    from: Seq<char>,
    y: Seq<char>,
) -> bool
    decreases rank[from],
{
    if from == y {
        true
    } else if parent.contains_key(from) && rank[parent[from]] < rank[from] {
        on_tree_path(parent, rank, parent[from], y)
    } else {
        false
    }
}

/// Whether `relay` forwards to `next` in the tree: `next` lies on the path
/// from some subscriber to the root, and `relay` is its parent.
pub open spec fn forwards_to(
    parent: Map<Seq<char>, Seq<char>>,
    rank: Map<Seq<char>, nat>,
    subscribers: Set<Seq<char>>,
    relay: Seq<char>,
    next: Seq<char>,
) -> bool {
    &&& parent.contains_key(next)
    &&& parent[next] == relay
    &&& exists|s: Seq<char>| #[trigger] subscribers.contains(s) && on_tree_path(parent, rank, s, next)
}

/// Whether the forwarding table sends from `relay` to `next`.
pub open spec fn lists_target(table: Seq<(String, ForwardingTargets)>, relay: Seq<char>, next: Seq<char>) -> bool {
    exists|i: int, j: int|
        0 <= i < table.len() && 0 <= j < table[i].1.send_to@.len() && table[i].0@ == relay
            && (#[trigger] table[i].1.send_to@[j])@ == next
}

/// A forwarding table lists each relay once, and each relay's targets once
/// each, never none.
pub open spec fn table_well_formed(table: Seq<(String, ForwardingTargets)>) -> bool {
    &&& forall|i: int, j: int| 0 <= i < table.len() && 0 <= j < table.len() && i != j ==> (#[trigger] table[i]).0@ != (#[trigger] table[j]).0@
    &&& forall|i: int|
        0 <= i < table.len() ==> (#[trigger] table[i]).1.send_to@.len() > 0 && forall|a: int, b: int|
            0 <= a < table[i].1.send_to@.len() && 0 <= b < table[i].1.send_to@.len() && a != b
                ==> (#[trigger] table[i].1.send_to@[a])@ != (#[trigger] table[i].1.send_to@[b])@
}

/// The strings of a list, as a set.
pub open spec fn name_set(list: Seq<String>) -> Set<Seq<char>> {
    seq_elems(string_views(list))
}

/// The views of a list of strings.
pub open spec fn string_views(list: Seq<String>) -> Seq<Seq<char>> {
    list.map_values(|s: String| s@)
}

/// The position of the node named `x`.
pub open spec fn index_of(names: Seq<Seq<char>>, x: Seq<char>) -> int {
    choose|i: int| 0 <= i < names.len() && names[i] == x
}

/// Index-level distances read by node name.
pub open spec fn dist_by_name(names: Seq<Seq<char>>, dist: Seq<Option<u128>>) -> Map<Seq<char>, int> {
    Map::new(
        |x: Seq<char>| exists|i: int| 0 <= i < names.len() && names[i] == x && dist[i] is Some,
        |x: Seq<char>| dist[index_of(names, x)]->0 as int,
    )
}

/// Index-level parents read by node name.
pub open spec fn parent_by_name(names: Seq<Seq<char>>, pred: Seq<Option<usize>>) -> Map<Seq<char>, Seq<char>> {
    Map::new(
        |x: Seq<char>| exists|i: int| 0 <= i < names.len() && names[i] == x && pred[i] is Some,
        |x: Seq<char>| names[pred[index_of(names, x)]->0 as int],
    )
}

/// Index-level ranks read by node name.
pub open spec fn rank_by_name(names: Seq<Seq<char>>, rank: Seq<nat>) -> Map<Seq<char>, nat> {
    Map::new(
        |x: Seq<char>| exists|i: int| 0 <= i < names.len() && names[i] == x,
        |x: Seq<char>| rank[index_of(names, x)],
    )
}

proof fn lemma_index_of(names: Seq<Seq<char>>, i: int)
    requires
        forall|a: int, b: int| 0 <= a < names.len() && 0 <= b < names.len() && a != b ==> names[a] != names[b],
        0 <= i < names.len(),
    ensures
        index_of(names, names[i]) == i,
{
    assert(0 <= i < names.len() && names[i] == names[i]);
    assert(exists|j: int| 0 <= j < names.len() && names[j] == names[i]);
    let c = index_of(names, names[i]);
    assert(0 <= c < names.len() && names[c] == names[i]);
}

proof fn lemma_tree_by_name(
    v: GraphView,
    names: Seq<Seq<char>>,
    edges: Seq<(u32, u32, u32, u64)>,
    cost_edges: Seq<CostEdge>,
    src: nat,
    dist: Seq<Option<u128>>,
    pred: Seq<Option<usize>>,
    rank: Seq<nat>,
)
    requires
        edges_ok(names, edges),
        v.nodes == seq_elems(names),
        v.links == named_links(names, edges),
        is_shortest_path_tree(names.len(), cost_edges, src, dist, pred, rank),
        cost_edges.len() == edges.len(),
        forall|k: int|
            0 <= k < edges.len() ==> (#[trigger] cost_edges[k]).0 == edges[k].0 && cost_edges[k].1 == edges[k].1
                && cost_edges[k].2 == link_cost(v, names[edges[k].1 as int], edges[k].2),
    ensures
        is_routing_tree(
            v,
            names[src as int],
            dist_by_name(names, dist),
            parent_by_name(names, pred),
            rank_by_name(names, rank),
        ),
        forall|s: int, y: int|
            0 <= s < names.len() && 0 <= y < names.len() ==> on_tree_path(
                parent_by_name(names, pred),
                rank_by_name(names, rank),
                #[trigger] names[s],
                #[trigger] names[y],
            ) == on_parent_path(pred, rank, s, y),
        forall|x: Seq<char>, y: Seq<char>|
            !v.nodes.contains(x) && #[trigger] on_tree_path(parent_by_name(names, pred), rank_by_name(names, rank), x, y) ==> x == y,
{
    let n = names.len();
    let dn = dist_by_name(names, dist);
    let pn = parent_by_name(names, pred);
    let rn = rank_by_name(names, rank);
    assert forall|i: int| 0 <= i < n implies index_of(names, #[trigger] names[i]) == i by {
        lemma_index_of(names, i);
    }
    assert(dn.contains_key(names[src as int]));
    assert forall|q: NamedLink| #[trigger] v.links.contains(q) && dn.contains_key(q.0) implies dn.contains_key(q.1)
        && dn[q.1] <= dn[q.0] + link_cost(v, q.1, q.2) by {
        let k = choose|k: int| 0 <= k < edges.len() && named_edge(names, edges[k]) == q;
        let a = edges[k].0 as int;
        let b = edges[k].1 as int;
        assert(cost_edges[k].0 == a && cost_edges[k].1 == b);
        assert(names[a] == q.0);
        assert(names[b] == q.1);
        assert(dist[b] is Some);
    }
    assert forall|y: Seq<char>| #[trigger] pn.contains_key(y) <==> (dn.contains_key(y) && y != names[src as int]) by {
        if dn.contains_key(y) {
            let i = choose|i: int| 0 <= i < n && names[i] == y && dist[i] is Some;
            if y != names[src as int] {
                assert(i != src);
                assert(pred[i] is Some);
            }
        }
        if pn.contains_key(y) {
            let i = choose|i: int| 0 <= i < n && names[i] == y && pred[i] is Some;
            assert(i != src);
        }
    }
    assert forall|y: Seq<char>| #[trigger] pn.contains_key(y) implies dn.contains_key(pn[y]) && rn[pn[y]] < rn[y]
        && exists|h: u32, r: u64|
        #[trigger] v.links.contains((pn[y], y, h, r)) && dn[y] == dn[pn[y]] + link_cost(v, y, h) by {
        let i = choose|i: int| 0 <= i < n && names[i] == y && pred[i] is Some;
        let p = pred[i]->0 as int;
        assert(pn[y] == names[p]);
        assert(dist[p] is Some);
        assert(dn.contains_key(names[p]));
        assert(rn.contains_key(names[p]));
        let k = choose|k: int|
            0 <= k < cost_edges.len() && (#[trigger] cost_edges[k]).0 == p && cost_edges[k].1 == i
                && dist[i]->0 == dist[p]->0 + cost_edges[k].2;
        assert(named_edge(names, edges[k]) == (names[p], y, edges[k].2, edges[k].3));
        assert(v.links.contains((names[p], y, edges[k].2, edges[k].3)));
    }
    assert forall|x: Seq<char>| #[trigger] dn.contains_key(x) implies v.nodes.contains(x) && rn.contains_key(x) by {
    }
    // paths
    assert forall|s: int, y: int|
        0 <= s < n && 0 <= y < n implies on_tree_path(pn, rn, #[trigger] names[s], #[trigger] names[y]) == on_parent_path(pred, rank, s, y) by {
        lemma_path_by_name(names, pred, rank, s, y);
    }
    assert forall|x: Seq<char>, y: Seq<char>|
        !v.nodes.contains(x) && #[trigger] on_tree_path(pn, rn, x, y) implies x == y by {
        if x != y {
            assert(pn.contains_key(x));
        }
    }
}

proof fn lemma_path_by_name(
    names: Seq<Seq<char>>,
    pred: Seq<Option<usize>>,
    rank: Seq<nat>,
    s: int,
    y: int,
)
    requires
        forall|a: int, b: int| 0 <= a < names.len() && 0 <= b < names.len() && a != b ==> names[a] != names[b],
        pred.len() == names.len(),
        rank.len() == names.len(),
        forall|i: int| 0 <= i < names.len() && #[trigger] pred[i] is Some ==> pred[i]->0 < names.len(),
        0 <= s < names.len(),
        0 <= y < names.len(),
    ensures
        on_tree_path(parent_by_name(names, pred), rank_by_name(names, rank), names[s], names[y])
            == on_parent_path(pred, rank, s, y),
    decreases rank[s],
{
    let pn = parent_by_name(names, pred);
    let rn = rank_by_name(names, rank);
    lemma_index_of(names, s);
    if s != y {
        assert(names[s] != names[y]);
        if pred[s] is Some {
            let p = pred[s]->0 as int;
            lemma_index_of(names, p);
            assert(pn.contains_key(names[s]));
            assert(pn[names[s]] == names[p]);
            assert(rn[names[p]] == rank[p]);
            assert(rn[names[s]] == rank[s]);
            if rank[p] < rank[s] {
                lemma_path_by_name(names, pred, rank, p, y);
            }
        } else {
            assert(!pn.contains_key(names[s]));
        }
    }
}

/// `walk` lists links that lead one after the other from `from` to `to`.
pub open spec fn is_link_walk(v: GraphView, from: Seq<char>, to: Seq<char>, walk: Seq<NamedLink>) -> bool
    decreases walk.len(),
{
    if walk.len() == 0 {
        from == to
    } else {
        &&& v.links.contains(walk.last())
        &&& walk.last().1 == to
        &&& is_link_walk(v, from, walk.last().0, walk.drop_last())
    }
}

/// The total routing cost of the links of a walk.
pub open spec fn link_walk_cost(v: GraphView, walk: Seq<NamedLink>) -> int
    decreases walk.len(),
{
    if walk.len() == 0 {
        0
    } else {
        link_walk_cost(v, walk.drop_last()) + link_cost(v, walk.last().1, walk.last().2)
    }
}

/// In a routing tree, every node that a walk from the source reaches has a
/// distance, and no walk is cheaper than that distance.
pub proof fn law_routing_tree_is_shortest(
    v: GraphView,
    source: Seq<char>,
    dist: Map<Seq<char>, int>,
    parent: Map<Seq<char>, Seq<char>>,
    rank: Map<Seq<char>, nat>,
    to: Seq<char>,
    walk: Seq<NamedLink>,
)
    requires
        is_routing_tree(v, source, dist, parent, rank),
        is_link_walk(v, source, to, walk),
    ensures
        dist.contains_key(to),
        dist[to] <= link_walk_cost(v, walk),
    decreases walk.len(),
{
    if walk.len() > 0 {
        law_routing_tree_is_shortest(v, source, dist, parent, rank, walk.last().0, walk.drop_last());
    }
}

/// In a routing tree, the parent links from any reached node lead back to
/// the source at exactly that node's distance.
pub proof fn law_routing_tree_paths_reach_source(
    v: GraphView,
    source: Seq<char>,
    dist: Map<Seq<char>, int>,
    parent: Map<Seq<char>, Seq<char>>,
    rank: Map<Seq<char>, nat>,
    y: Seq<char>,
)
    requires
        is_routing_tree(v, source, dist, parent, rank),
        dist.contains_key(y),
    ensures
        exists|walk: Seq<NamedLink>| #[trigger] is_link_walk(v, source, y, walk) && link_walk_cost(v, walk) == dist[y],
    decreases rank[y],
{
    if y == source {
        let walk = Seq::<NamedLink>::empty();
        assert(is_link_walk(v, source, y, walk) && link_walk_cost(v, walk) == dist[y]);
    } else {
        assert(parent.contains_key(y));
        let p = parent[y];
        law_routing_tree_paths_reach_source(v, source, dist, parent, rank, p);
        let w0 = choose|walk: Seq<NamedLink>| #[trigger] is_link_walk(v, source, p, walk) && link_walk_cost(v, walk) == dist[p];
        let (h, r) = choose|h: u32, r: u64| #[trigger] v.links.contains((p, y, h, r)) && dist[y] == dist[p] + link_cost(v, y, h);
        let walk = w0.push((p, y, h, r));
        assert(walk.drop_last() =~= w0);
        assert(is_link_walk(v, source, y, walk) && link_walk_cost(v, walk) == dist[y]);
    }
}

/// Whether some walk of links leads from `from` to `to`.
pub open spec fn reaches(v: GraphView, from: Seq<char>, to: Seq<char>) -> bool {
    exists|walk: Seq<NamedLink>| #[trigger] is_link_walk(v, from, to, walk)
}

/// `table` is the forwarding table from `source` to `subscribers` in `v`: it
/// is well formed, empty when there is no subscriber or the source is
/// unknown, and otherwise lists exactly the parent links of a shortest-path
/// tree rooted at `source` that lie on the path from some subscriber up to
/// the source.
pub open spec fn is_forwarding_table(
    v: GraphView,
    source: Seq<char>,
    subscribers: Seq<String>,
    table: Seq<(String, ForwardingTargets)>,
) -> bool {
    &&& table_well_formed(table)
    &&& (subscribers.len() == 0 || !v.nodes.contains(source) ==> table.len() == 0)
    &&& (subscribers.len() > 0 && v.nodes.contains(source) ==> exists|
        dist: Map<Seq<char>, int>,
        parent: Map<Seq<char>, Seq<char>>,
        rank: Map<Seq<char>, nat>,
    |
        #[trigger] is_routing_tree(v, source, dist, parent, rank) && forall|u: Seq<char>, y: Seq<char>|
            #[trigger] forwards_to(parent, rank, name_set(subscribers), u, y) <==> lists_target(table, u, y))
}

/// Climbing past a node's parent stays on the same tree path.
proof fn lemma_path_climbs_to_parent(
    parent: Map<Seq<char>, Seq<char>>,
    rank: Map<Seq<char>, nat>,
    s: Seq<char>,
    y: Seq<char>,
)
    requires
        on_tree_path(parent, rank, s, y),
        parent.contains_key(y),
        rank[parent[y]] < rank[y],
    ensures
        on_tree_path(parent, rank, s, parent[y]),
    decreases rank[s],
{
    if s != y {
        lemma_path_climbs_to_parent(parent, rank, parent[s], y);
    } else {
        assert(on_tree_path(parent, rank, parent[y], parent[y]));
    }
}

/// A node strictly above `s` on its tree path has a child on that path.
proof fn lemma_path_child(
    parent: Map<Seq<char>, Seq<char>>,
    rank: Map<Seq<char>, nat>,
    s: Seq<char>,
    y: Seq<char>,
) -> (c: Seq<char>)
    requires
        on_tree_path(parent, rank, s, y),
        s != y,
    ensures
        parent.contains_key(c),
        parent[c] == y,
        on_tree_path(parent, rank, s, c),
    decreases rank[s],
{
    let p = parent[s];
    if p == y {
        s
    } else {
        let c = lemma_path_child(parent, rank, p, y);
        if s != c {
            assert(on_tree_path(parent, rank, s, c) == on_tree_path(parent, rank, p, c));
        }
        c
    }
}

/// The tree path from a subscriber's ancestor `y` back to the source is a
/// walk of distance `dist[y]` whose every link is a forwarding link.
proof fn lemma_forwarding_walk(
    v: GraphView,
    source: Seq<char>,
    dist: Map<Seq<char>, int>,
    parent: Map<Seq<char>, Seq<char>>,
    rank: Map<Seq<char>, nat>,
    subs: Set<Seq<char>>,
    s: Seq<char>,
    y: Seq<char>,
) -> (walk: Seq<NamedLink>)
    requires
        is_routing_tree(v, source, dist, parent, rank),
        subs.contains(s),
        dist.contains_key(y),
        on_tree_path(parent, rank, s, y),
    ensures
        is_link_walk(v, source, y, walk),
        link_walk_cost(v, walk) == dist[y],
        forall|k: int| 0 <= k < walk.len() ==> forwards_to(parent, rank, subs, (#[trigger] walk[k]).0, walk[k].1),
    decreases rank[y],
{
    if y == source {
        Seq::<NamedLink>::empty()
    } else {
        assert(parent.contains_key(y));
        let p = parent[y];
        lemma_path_climbs_to_parent(parent, rank, s, y);
        let w0 = lemma_forwarding_walk(v, source, dist, parent, rank, subs, s, p);
        let (h, r) = choose|h: u32, r: u64| #[trigger] v.links.contains((p, y, h, r)) && dist[y] == dist[p] + link_cost(v, y, h);
        let walk = w0.push((p, y, h, r));
        assert(walk.drop_last() =~= w0);
        assert(forwards_to(parent, rank, subs, p, y));
        assert forall|k: int| 0 <= k < walk.len() implies forwards_to(parent, rank, subs, (#[trigger] walk[k]).0, walk[k].1) by {
            if k < w0.len() {
                assert(walk[k] == w0[k]);
            }
        }
        walk
    }
}

/// The forwarding table is empty exactly when no subscriber other than the
/// source can be reached from a known source.
pub proof fn law_forwarding_table_empty_iff_unreachable(
    v: GraphView,
    source: Seq<char>,
    subscribers: Seq<String>,
    table: Seq<(String, ForwardingTargets)>,
)
    requires
        is_forwarding_table(v, source, subscribers, table),
    ensures
        table.len() == 0 <==> !(v.nodes.contains(source) && exists|s: Seq<char>|
            #[trigger] name_set(subscribers).contains(s) && s != source && reaches(v, source, s)),
{
    let subs = name_set(subscribers);
    if subscribers.len() > 0 && v.nodes.contains(source) {
        let (dist, parent, rank) = choose|
            dist: Map<Seq<char>, int>,
            parent: Map<Seq<char>, Seq<char>>,
            rank: Map<Seq<char>, nat>,
        |
            #[trigger] is_routing_tree(v, source, dist, parent, rank) && forall|u: Seq<char>, y: Seq<char>|
                #[trigger] forwards_to(parent, rank, subs, u, y) <==> lists_target(table, u, y);
        if table.len() > 0 {
            let u0 = table[0].0@;
            let t0 = table[0].1.send_to@[0]@;
            assert(table[0].1.send_to@.len() > 0);
            assert(lists_target(table, u0, t0));
            assert(forwards_to(parent, rank, subs, u0, t0));
            let s = choose|s: Seq<char>| #[trigger] subs.contains(s) && on_tree_path(parent, rank, s, t0);
            assert(parent.contains_key(s));
            law_routing_tree_paths_reach_source(v, source, dist, parent, rank, s);
            let w = choose|walk: Seq<NamedLink>| #[trigger] is_link_walk(v, source, s, walk) && link_walk_cost(v, walk) == dist[s];
            assert(reaches(v, source, s));
            assert(subs.contains(s) && s != source && reaches(v, source, s));
        } else {
            assert forall|s: Seq<char>| #[trigger] subs.contains(s) && s != source implies !reaches(v, source, s) by {
                if reaches(v, source, s) {
                    let w = choose|walk: Seq<NamedLink>| #[trigger] is_link_walk(v, source, s, walk);
                    law_routing_tree_is_shortest(v, source, dist, parent, rank, s, w);
                    assert(parent.contains_key(s));
                    assert(on_tree_path(parent, rank, s, s));
                    assert(forwards_to(parent, rank, subs, parent[s], s));
                    assert(lists_target(table, parent[s], s));
                }
            }
        }
    } else if subscribers.len() == 0 {
        assert forall|s: Seq<char>| !(#[trigger] subs.contains(s)) by {
            if subs.contains(s) {
                let i = choose|i: int| 0 <= i < string_views(subscribers).len() && string_views(subscribers)[i] == s;
            }
        }
    }
}

/// Following the forwarding table from the source reaches every reachable
/// subscriber along a cheapest walk: its links are all listed in the table,
/// and no walk from the source to the subscriber costs less.
pub proof fn law_forwarding_chains_are_shortest(
    v: GraphView,
    source: Seq<char>,
    subscribers: Seq<String>,
    table: Seq<(String, ForwardingTargets)>,
    s: Seq<char>,
)
    requires
        is_forwarding_table(v, source, subscribers, table),
        v.nodes.contains(source),
        name_set(subscribers).contains(s),
        reaches(v, source, s),
    ensures
        exists|walk: Seq<NamedLink>|
            #[trigger] is_link_walk(v, source, s, walk) && (forall|k: int|
                0 <= k < walk.len() ==> lists_target(table, (#[trigger] walk[k]).0, walk[k].1)) && forall|
                other: Seq<NamedLink>,
            | #[trigger] is_link_walk(v, source, s, other) ==> link_walk_cost(v, walk) <= link_walk_cost(v, other),
{
    let subs = name_set(subscribers);
    let i = choose|i: int| 0 <= i < string_views(subscribers).len() && string_views(subscribers)[i] == s;
    assert(subscribers.len() > 0);
    let (dist, parent, rank) = choose|
        dist: Map<Seq<char>, int>,
        parent: Map<Seq<char>, Seq<char>>,
        rank: Map<Seq<char>, nat>,
    |
        #[trigger] is_routing_tree(v, source, dist, parent, rank) && forall|u: Seq<char>, y: Seq<char>|
            #[trigger] forwards_to(parent, rank, subs, u, y) <==> lists_target(table, u, y);
    let w0 = choose|walk: Seq<NamedLink>| #[trigger] is_link_walk(v, source, s, walk);
    law_routing_tree_is_shortest(v, source, dist, parent, rank, s, w0);
    assert(on_tree_path(parent, rank, s, s));
    let walk = lemma_forwarding_walk(v, source, dist, parent, rank, subs, s, s);
    assert forall|k: int| 0 <= k < walk.len() implies lists_target(table, (#[trigger] walk[k]).0, walk[k].1) by {
        assert(forwards_to(parent, rank, subs, walk[k].0, walk[k].1));
    }
    assert forall|other: Seq<NamedLink>| #[trigger] is_link_walk(v, source, s, other) implies link_walk_cost(v, walk)
        <= link_walk_cost(v, other) by {
        law_routing_tree_is_shortest(v, source, dist, parent, rank, s, other);
    }
}

/// The sum of the hop costs of the links of a walk, with no penalty.
pub open spec fn hop_walk_cost(walk: Seq<NamedLink>) -> int
    decreases walk.len(),
{
    if walk.len() == 0 {
        0
    } else {
        hop_walk_cost(walk.drop_last()) + walk.last().2
    }
}

/// Entering a flow node, or a node that announced nothing, costs the link's
/// hop cost alone; entering an aggregator costs 10000 more.
pub proof fn law_link_cost_penalises_aggregators_only(v: GraphView, target: Seq<char>, hop_cost: u32)
    ensures
        !v.metadata.contains_key(target) ==> link_cost(v, target, hop_cost) == hop_cost,
        v.metadata.contains_key(target) && v.metadata[target].role == NodeRole::Flow ==> link_cost(v, target, hop_cost)
            == hop_cost,
        v.metadata.contains_key(target) && v.metadata[target].role == NodeRole::Aggregator ==> link_cost(
            v,
            target,
            hop_cost,
        ) == hop_cost + 10000,
{
}

/// Without aggregators, a walk's routing cost is its plain hop cost.
proof fn lemma_walk_cost_without_aggregators(v: GraphView, walk: Seq<NamedLink>)
    requires
        forall|n: Seq<char>| #[trigger] v.metadata.contains_key(n) ==> v.metadata[n].role != NodeRole::Aggregator,
    ensures
        link_walk_cost(v, walk) == hop_walk_cost(walk),
    decreases walk.len(),
{
    if walk.len() > 0 {
        lemma_walk_cost_without_aggregators(v, walk.drop_last());
        let t = walk.last().1;
        if v.metadata.contains_key(t) {
            assert(v.metadata[t].role != NodeRole::Aggregator);
        }
    }
}

/// When no node is an aggregator, the forwarding table reaches every
/// reachable subscriber along a walk of least total hop cost.
pub proof fn law_forwarding_chains_minimise_hop_cost_without_aggregators(
    v: GraphView,
    source: Seq<char>,
    subscribers: Seq<String>,
    table: Seq<(String, ForwardingTargets)>,
    s: Seq<char>,
)
    requires
        is_forwarding_table(v, source, subscribers, table),
        v.nodes.contains(source),
        name_set(subscribers).contains(s),
        reaches(v, source, s),
        forall|n: Seq<char>| #[trigger] v.metadata.contains_key(n) ==> v.metadata[n].role != NodeRole::Aggregator,
    ensures
        exists|walk: Seq<NamedLink>|
            #[trigger] is_link_walk(v, source, s, walk) && (forall|k: int|
                0 <= k < walk.len() ==> lists_target(table, (#[trigger] walk[k]).0, walk[k].1)) && forall|
                other: Seq<NamedLink>,
            | #[trigger] is_link_walk(v, source, s, other) ==> hop_walk_cost(walk) <= hop_walk_cost(other),
{
    law_forwarding_chains_are_shortest(v, source, subscribers, table, s);
    let walk = choose|walk: Seq<NamedLink>|
        #[trigger] is_link_walk(v, source, s, walk) && (forall|k: int|
            0 <= k < walk.len() ==> lists_target(table, (#[trigger] walk[k]).0, walk[k].1)) && forall|
            other: Seq<NamedLink>,
        | #[trigger] is_link_walk(v, source, s, other) ==> link_walk_cost(v, walk) <= link_walk_cost(v, other);
    lemma_walk_cost_without_aggregators(v, walk);
    assert forall|other: Seq<NamedLink>| #[trigger] is_link_walk(v, source, s, other) implies hop_walk_cost(walk)
        <= hop_walk_cost(other) by {
        lemma_walk_cost_without_aggregators(v, other);
    }
}

/// The forwarding table forms a tree hanging from the source with no dead
/// branches: the source is never a target, every target has one relay,
/// every listed hop follows a graph link, every relay is the source or
/// itself a target, and every target is a subscriber or relays further.
pub proof fn law_forwarding_table_is_tree(
    v: GraphView,
    source: Seq<char>,
    subscribers: Seq<String>,
    table: Seq<(String, ForwardingTargets)>,
)
    requires
        is_forwarding_table(v, source, subscribers, table),
    ensures
        forall|u: Seq<char>| !(#[trigger] lists_target(table, u, source)),
        forall|u1: Seq<char>, u2: Seq<char>, y: Seq<char>|
            #[trigger] lists_target(table, u1, y) && #[trigger] lists_target(table, u2, y) ==> u1 == u2,
        forall|u: Seq<char>, y: Seq<char>|
            #[trigger] lists_target(table, u, y) ==> exists|h: u32, r: u64| #[trigger] v.links.contains((u, y, h, r)),
        forall|i: int|
            0 <= i < table.len() ==> (#[trigger] table[i]).0@ == source || exists|u: Seq<char>|
                #[trigger] lists_target(table, u, table[i].0@),
        forall|u: Seq<char>, y: Seq<char>|
            #[trigger] lists_target(table, u, y) ==> name_set(subscribers).contains(y) || exists|z: Seq<char>|
                #[trigger] lists_target(table, y, z),
{
    let subs = name_set(subscribers);
    if subscribers.len() > 0 && v.nodes.contains(source) {
        let (dist, parent, rank) = choose|
            dist: Map<Seq<char>, int>,
            parent: Map<Seq<char>, Seq<char>>,
            rank: Map<Seq<char>, nat>,
        |
            #[trigger] is_routing_tree(v, source, dist, parent, rank) && forall|u: Seq<char>, y: Seq<char>|
                #[trigger] forwards_to(parent, rank, subs, u, y) <==> lists_target(table, u, y);
        assert forall|u: Seq<char>| !(#[trigger] lists_target(table, u, source)) by {
            if lists_target(table, u, source) {
                assert(forwards_to(parent, rank, subs, u, source));
            }
        }
        assert forall|u1: Seq<char>, u2: Seq<char>, y: Seq<char>|
            #[trigger] lists_target(table, u1, y) && #[trigger] lists_target(table, u2, y) implies u1 == u2 by {
            assert(forwards_to(parent, rank, subs, u1, y));
            assert(forwards_to(parent, rank, subs, u2, y));
        }
        assert forall|u: Seq<char>, y: Seq<char>| #[trigger] lists_target(table, u, y) implies exists|h: u32, r: u64|
            #[trigger] v.links.contains((u, y, h, r)) by {
            assert(forwards_to(parent, rank, subs, u, y));
        }
        assert forall|i: int| 0 <= i < table.len() implies (#[trigger] table[i]).0@ == source || exists|u: Seq<char>|
            #[trigger] lists_target(table, u, table[i].0@) by {
            let r = table[i].0@;
            let t0 = table[i].1.send_to@[0]@;
            assert(table[i].1.send_to@.len() > 0);
            assert(lists_target(table, r, t0));
            assert(forwards_to(parent, rank, subs, r, t0));
            if r != source {
                let s = choose|s: Seq<char>| #[trigger] subs.contains(s) && on_tree_path(parent, rank, s, t0);
                assert(parent.contains_key(r));
                lemma_path_climbs_to_parent(parent, rank, s, t0);
                assert(forwards_to(parent, rank, subs, parent[r], r));
                assert(lists_target(table, parent[r], r));
            }
        }
        assert forall|u: Seq<char>, y: Seq<char>| #[trigger] lists_target(table, u, y) implies subs.contains(y) || exists|
            z: Seq<char>,
        | #[trigger] lists_target(table, y, z) by {
            assert(forwards_to(parent, rank, subs, u, y));
            let s = choose|s: Seq<char>| #[trigger] subs.contains(s) && on_tree_path(parent, rank, s, y);
            if s != y {
                let c = lemma_path_child(parent, rank, s, y);
                assert(forwards_to(parent, rank, subs, y, c));
                assert(lists_target(table, y, c));
            }
        }
    }
}

/// A graph holds at most one link from one node to another.
pub proof fn law_one_link_per_direction(g: &GlobalGraph, q1: NamedLink, q2: NamedLink)
    requires
        g.wf(),
        g@.links.contains(q1),
        g@.links.contains(q2),
        q1.0 == q2.0,
        q1.1 == q2.1,
    ensures
        q1 == q2,
{
    let names = graph_node_names(g.graph);
    let edges = graph_edge_list(g.graph);
    let k = choose|k: int| 0 <= k < edges.len() && named_edge(names, edges[k]) == q1;
    let l = choose|l: int| 0 <= l < edges.len() && named_edge(names, edges[l]) == q2;
    if k != l {
        assert(edges[k].0 == edges[l].0);
        assert(edges[k].1 == edges[l].1);
    }
}

/// Links only join known nodes, and only known nodes have metadata.
pub proof fn law_links_and_metadata_name_known_nodes(g: &GlobalGraph, q: NamedLink, id: Seq<char>)
    requires
        g.wf(),
    ensures
        g@.links.contains(q) ==> g@.nodes.contains(q.0) && g@.nodes.contains(q.1),
        g@.metadata.contains_key(id) ==> g@.nodes.contains(id),
{
    if g@.links.contains(q) {
        lemma_links_between_known_nodes(graph_node_names(g.graph), graph_edge_list(g.graph), q);
    }
}

/// Removing the link between two nodes right after adding it leaves no
/// link between them, and every other link as it was.
pub proof fn law_remove_link_undoes_add_link(v: GraphView, a: Seq<char>, b: Seq<char>, h: u32, r: u64)
    ensures
        v.with_link(a, b, h, r).without_link_between(a, b).links == without_link(without_link(v.links, a, b), b, a),
{
    let l = v.with_link(a, b, h, r).without_link_between(a, b).links;
    assert(l =~= without_link(without_link(v.links, a, b), b, a));
}

/// Every link has its reverse, with the same weight.
pub open spec fn links_symmetric(v: GraphView) -> bool {
    forall|q: NamedLink| #[trigger] v.links.contains(q) ==> v.links.contains((q.1, q.0, q.2, q.3))
}

/// Links come in pairs: every operation on the topology that `GlobalGraph`
/// performs keeps each link next to its reverse of the same weight, and the
/// empty topology has no links at all.
pub proof fn law_operations_keep_links_symmetric(
    v: GraphView,
    d: DescriptorView,
    id: Seq<char>,
    a: Seq<char>,
    b: Seq<char>,
    h: u32,
    r: u64,
    u: TopologyUpdate,
)
    requires
        links_symmetric(v),
    ensures
        links_symmetric(v.with_node(d)),
        links_symmetric(v.without_node(id)),
        links_symmetric(v.with_link(a, b, h, r)),
        links_symmetric(v.without_link_between(a, b)),
        links_symmetric(v.apply(u)),
        links_symmetric(GraphView { nodes: Set::empty(), links: Set::empty(), metadata: Map::empty() }),
{
    lemma_with_link_symmetric(v, a, b, h, r);
    lemma_without_link_between_symmetric(v, a, b);
    lemma_without_node_symmetric(v, id);
    lemma_apply_symmetric(v, u);
}

proof fn lemma_with_link_symmetric(v: GraphView, a: Seq<char>, b: Seq<char>, h: u32, r: u64)
    requires
        links_symmetric(v),
    ensures
        links_symmetric(v.with_link(a, b, h, r)),
{
    let w = v.with_link(a, b, h, r);
    assert forall|q: NamedLink| #[trigger] w.links.contains(q) implies w.links.contains((q.1, q.0, q.2, q.3)) by {
        if q != (a, b, h, r) && q != (b, a, h, r) {
            assert(v.links.contains(q));
            assert(v.links.contains((q.1, q.0, q.2, q.3)));
        }
    }
}

proof fn lemma_without_link_between_symmetric(v: GraphView, a: Seq<char>, b: Seq<char>)
    requires
        links_symmetric(v),
    ensures
        links_symmetric(v.without_link_between(a, b)),
{
    let w = v.without_link_between(a, b);
    assert forall|q: NamedLink| #[trigger] w.links.contains(q) implies w.links.contains((q.1, q.0, q.2, q.3)) by {
        assert(v.links.contains(q));
        assert(v.links.contains((q.1, q.0, q.2, q.3)));
    }
}

proof fn lemma_without_node_symmetric(v: GraphView, id: Seq<char>)
    requires
        links_symmetric(v),
    ensures
        links_symmetric(v.without_node(id)),
{
    let w = v.without_node(id);
    assert forall|q: NamedLink| #[trigger] w.links.contains(q) implies w.links.contains((q.1, q.0, q.2, q.3)) by {
        assert(v.links.contains(q));
        assert(v.links.contains((q.1, q.0, q.2, q.3)));
    }
}

proof fn lemma_with_nodes_symmetric(v: GraphView, ds: Seq<DescriptorView>)
    requires
        links_symmetric(v),
    ensures
        links_symmetric(v.with_nodes(ds)),
        v.with_nodes(ds).links == v.links,
    decreases ds.len(),
{
    if ds.len() > 0 {
        lemma_with_nodes_symmetric(v, ds.drop_last());
    }
}

proof fn lemma_without_nodes_symmetric(v: GraphView, ids: Seq<Seq<char>>)
    requires
        links_symmetric(v),
    ensures
        links_symmetric(v.without_nodes(ids)),
    decreases ids.len(),
{
    if ids.len() > 0 {
        lemma_without_nodes_symmetric(v, ids.drop_last());
        lemma_without_node_symmetric(v.without_nodes(ids.drop_last()), ids.last());
    }
}

proof fn lemma_with_links_symmetric(v: GraphView, ls: Seq<NamedLink>)
    requires
        links_symmetric(v),
    ensures
        links_symmetric(v.with_links(ls)),
    decreases ls.len(),
{
    if ls.len() > 0 {
        lemma_with_links_symmetric(v, ls.drop_last());
        let l = ls.last();
        lemma_with_link_symmetric(v.with_links(ls.drop_last()), l.0, l.1, l.2, l.3);
    }
}

proof fn lemma_without_links_symmetric(v: GraphView, ps: Seq<(Seq<char>, Seq<char>)>)
    requires
        links_symmetric(v),
    ensures
        links_symmetric(v.without_links(ps)),
    decreases ps.len(),
{
    if ps.len() > 0 {
        lemma_without_links_symmetric(v, ps.drop_last());
        let p = ps.last();
        lemma_without_link_between_symmetric(v.without_links(ps.drop_last()), p.0, p.1);
    }
}

proof fn lemma_apply_symmetric(v: GraphView, u: TopologyUpdate)
    requires
        links_symmetric(v),
    ensures
        links_symmetric(v.apply(u)),
{
    let v1 = v.with_nodes(u.nodes_added@.map_values(|d: NodeDescriptor| d@));
    lemma_with_nodes_symmetric(v, u.nodes_added@.map_values(|d: NodeDescriptor| d@));
    let ids = u.nodes_removed@.map_values(|s: String| s@);
    lemma_without_nodes_symmetric(v1, ids);
    let v2 = v1.without_nodes(ids);
    let ls = u.links_added@.map_values(|l: LinkDescriptor| (l.node_a@, l.node_b@, l.hop_cost, l.rtt_micros));
    lemma_with_links_symmetric(v2, ls);
    lemma_without_links_symmetric(v2.with_links(ls), u.links_removed@.map_values(|l: LinkDescriptor| (l.node_a@, l.node_b@)));
}

/// Every link of a graph has its reverse, with the same weight.
pub proof fn law_links_symmetric(g: &GlobalGraph)
    requires
        g.wf(),
    ensures
        links_symmetric(g@),
{
}

/// Whether `nodes` and `links` describe the topology `v`, as
/// `get_descriptors` hands them out: each node's metadata once, and each
/// directed link once.
pub open spec fn describes(v: GraphView, nodes: Seq<NodeDescriptor>, links: Seq<LinkDescriptor>) -> bool {
    &&& forall|i: int|
        0 <= i < nodes.len() ==> v.metadata.contains_key((#[trigger] nodes[i]).node_id@) && v.metadata[nodes[i].node_id@]
            == nodes[i]@
    &&& forall|k: Seq<char>|
        #[trigger] v.metadata.contains_key(k) ==> exists|i: int| 0 <= i < nodes.len() && (#[trigger] nodes[i]).node_id@ == k
    &&& forall|i: int, j: int|
        0 <= i < nodes.len() && 0 <= j < nodes.len() && i != j ==> (#[trigger] nodes[i]).node_id@ != (#[trigger] nodes[j]).node_id@
    &&& forall|i: int|
        0 <= i < links.len() ==> v.links.contains(
            ((#[trigger] links[i]).node_a@, links[i].node_b@, links[i].hop_cost, links[i].rtt_micros),
        )
    &&& forall|q: NamedLink|
        #[trigger] v.links.contains(q) ==> exists|i: int|
            0 <= i < links.len() && (#[trigger] links[i]).node_a@ == q.0 && links[i].node_b@ == q.1
                && links[i].hop_cost == q.2 && links[i].rtt_micros == q.3
    &&& forall|i: int, j: int|
        0 <= i < links.len() && 0 <= j < links.len() && i != j ==> !((#[trigger] links[i]).node_a@
            == (#[trigger] links[j]).node_a@ && links[i].node_b@ == links[j].node_b@)
}

/// The topology without nodes, links or metadata.
pub open spec fn empty_view() -> GraphView {
    GraphView { nodes: Set::empty(), links: Set::empty(), metadata: Map::empty() }
}

/// Whether some descriptor of `ds` is for the node `n`.
spec fn id_listed(ds: Seq<DescriptorView>, n: Seq<char>) -> bool {
    exists|i: int| 0 <= i < ds.len() && (#[trigger] ds[i]).node_id == n
}

/// Whether some link of `ls` has the endpoint `n`.
spec fn endpoint_listed(ls: Seq<NamedLink>, n: Seq<char>) -> bool {
    exists|i: int| 0 <= i < ls.len() && ((#[trigger] ls[i]).0 == n || ls[i].1 == n)
}

/// Whether some link of `ls` joins the two endpoints of `q`, either way.
spec fn pair_hit(ls: Seq<NamedLink>, q: NamedLink) -> bool {
    exists|i: int| 0 <= i < ls.len() && (((#[trigger] ls[i]).0 == q.0 && ls[i].1 == q.1) || (ls[i].0 == q.1 && ls[i].1 == q.0))
}

/// The links of `t` between endpoints that some link of `ls` joins.
spec fn covered(t: Set<NamedLink>, ls: Seq<NamedLink>) -> Set<NamedLink> {
    Set::new(|q: NamedLink| t.contains(q) && pair_hit(ls, q))
}

proof fn lemma_with_nodes_from(s: GraphView, ds: Seq<DescriptorView>)
    requires
        forall|i: int, j: int| 0 <= i < j < ds.len() ==> (#[trigger] ds[i]).node_id != (#[trigger] ds[j]).node_id,
    ensures
        s.with_nodes(ds).links == s.links,
        forall|n: Seq<char>| #[trigger] s.with_nodes(ds).nodes.contains(n) <==> s.nodes.contains(n) || id_listed(ds, n),
        forall|n: Seq<char>|
            #[trigger] s.with_nodes(ds).metadata.contains_key(n) <==> s.metadata.contains_key(n) || id_listed(ds, n),
        forall|i: int| 0 <= i < ds.len() ==> s.with_nodes(ds).metadata[(#[trigger] ds[i]).node_id] == ds[i],
    decreases ds.len(),
{
    if ds.len() > 0 {
        let d = ds.drop_last();
        let l = ds.last();
        lemma_with_nodes_from(s, d);
        let w0 = s.with_nodes(d);
        let w = s.with_nodes(ds);
        assert(w == w0.with_node(l));
        assert forall|n: Seq<char>| id_listed(ds, n) <==> id_listed(d, n) || n == l.node_id by {
            if id_listed(ds, n) {
                let i = choose|i: int| 0 <= i < ds.len() && (#[trigger] ds[i]).node_id == n;
                if i < d.len() {
                    assert(d[i] == ds[i]);
                }
            }
            if id_listed(d, n) {
                let i = choose|i: int| 0 <= i < d.len() && (#[trigger] d[i]).node_id == n;
                assert(ds[i] == d[i]);
            }
            if n == l.node_id {
                assert(ds[ds.len() - 1].node_id == n);
            }
        }
        assert forall|i: int| 0 <= i < ds.len() implies w.metadata[(#[trigger] ds[i]).node_id] == ds[i] by {
            if i < d.len() {
                assert(d[i] == ds[i]);
                assert(ds[i].node_id != ds[ds.len() - 1].node_id);
            }
        }
    }
}

proof fn lemma_with_links_from(s: GraphView, t: Set<NamedLink>, ls: Seq<NamedLink>)
    requires
        s.links == Set::<NamedLink>::empty(),
        forall|i: int| 0 <= i < ls.len() ==> t.contains(#[trigger] ls[i]),
        forall|q: NamedLink| #[trigger] t.contains(q) ==> t.contains((q.1, q.0, q.2, q.3)),
        forall|q1: NamedLink, q2: NamedLink|
            #[trigger] t.contains(q1) && #[trigger] t.contains(q2) && q1.0 == q2.0 && q1.1 == q2.1 ==> q1 == q2,
    ensures
        s.with_links(ls).metadata == s.metadata,
        forall|n: Seq<char>| #[trigger] s.with_links(ls).nodes.contains(n) <==> s.nodes.contains(n) || endpoint_listed(ls, n),
        s.with_links(ls).links == covered(t, ls),
    decreases ls.len(),
{
    if ls.len() == 0 {
        assert(covered(t, ls) =~= Set::<NamedLink>::empty());
        assert forall|n: Seq<char>| !endpoint_listed(ls, n) by {}
    } else {
        let d = ls.drop_last();
        let l = ls.last();
        assert forall|i: int| 0 <= i < d.len() implies t.contains(#[trigger] d[i]) by {
            assert(d[i] == ls[i]);
        }
        lemma_with_links_from(s, t, d);
        let w0 = s.with_links(d);
        let w = s.with_links(ls);
        assert(w == w0.with_link(l.0, l.1, l.2, l.3));
        assert(t.contains(l)) by {
            assert(ls[ls.len() - 1] == l);
        }
        let rl = (l.1, l.0, l.2, l.3);
        assert(t.contains(rl));
        assert forall|n: Seq<char>| endpoint_listed(ls, n) <==> endpoint_listed(d, n) || n == l.0 || n == l.1 by {
            if endpoint_listed(ls, n) {
                let i = choose|i: int| 0 <= i < ls.len() && ((#[trigger] ls[i]).0 == n || ls[i].1 == n);
                if i < d.len() {
                    assert(d[i] == ls[i]);
                }
            }
            if endpoint_listed(d, n) {
                let i = choose|i: int| 0 <= i < d.len() && ((#[trigger] d[i]).0 == n || d[i].1 == n);
                assert(ls[i] == d[i]);
            }
            if n == l.0 || n == l.1 {
                assert(ls[ls.len() - 1] == l);
            }
        }
        assert forall|q: NamedLink| pair_hit(ls, q) <==> pair_hit(d, q) || (l.0 == q.0 && l.1 == q.1) || (l.0 == q.1
            && l.1 == q.0) by {
            if pair_hit(ls, q) {
                let i = choose|i: int|
                    0 <= i < ls.len() && (((#[trigger] ls[i]).0 == q.0 && ls[i].1 == q.1) || (ls[i].0 == q.1 && ls[i].1
                        == q.0));
                if i < d.len() {
                    assert(d[i] == ls[i]);
                }
            }
            if pair_hit(d, q) {
                let i = choose|i: int|
                    0 <= i < d.len() && (((#[trigger] d[i]).0 == q.0 && d[i].1 == q.1) || (d[i].0 == q.1 && d[i].1
                        == q.0));
                assert(ls[i] == d[i]);
            }
            if (l.0 == q.0 && l.1 == q.1) || (l.0 == q.1 && l.1 == q.0) {
                assert(ls[ls.len() - 1] == l);
            }
        }
        assert forall|q: NamedLink| #[trigger] w.links.contains(q) <==> covered(t, ls).contains(q) by {
            if w.links.contains(q) {
                if q != l && q != rl {
                    assert(w0.links.contains(q));
                }
            }
            if covered(t, ls).contains(q) {
                if l.0 == q.0 && l.1 == q.1 {
                    assert(q == l);
                } else if l.0 == q.1 && l.1 == q.0 {
                    assert(q == rl);
                } else {
                    assert(pair_hit(d, q));
                    assert(w0.links.contains(q));
                }
            }
        }
        assert(w.links =~= covered(t, ls));
    }
}

/// Feeding a graph's descriptors into a batch update of an empty graph
/// rebuilds the graph: the same nodes, metadata and weighted links, as long
/// as every node of the graph has metadata or a link (a node with neither
/// is not described).
pub proof fn law_descriptors_rebuild_graph(g: &GlobalGraph, u: TopologyUpdate)
    requires
        g.wf(),
        describes(g@, u.nodes_added@, u.links_added@),
        u.nodes_removed@.len() == 0,
        u.links_removed@.len() == 0,
        forall|n: Seq<char>|
            #[trigger] g@.nodes.contains(n) ==> g@.metadata.contains_key(n) || exists|q: NamedLink|
                #[trigger] g@.links.contains(q) && (q.0 == n || q.1 == n),
    ensures
        empty_view().apply(u) == g@,
{
    let v = g@;
    let ds = u.nodes_added@.map_values(|d: NodeDescriptor| d@);
    let ids = u.nodes_removed@.map_values(|s: String| s@);
    let ls = u.links_added@.map_values(|l: LinkDescriptor| (l.node_a@, l.node_b@, l.hop_cost, l.rtt_micros));
    let ps = u.links_removed@.map_values(|l: LinkDescriptor| (l.node_a@, l.node_b@));
    assert forall|i: int, j: int| 0 <= i < j < ds.len() implies (#[trigger] ds[i]).node_id != (#[trigger] ds[j]).node_id by {
        assert(ds[i].node_id == u.nodes_added@[i].node_id@);
        assert(ds[j].node_id == u.nodes_added@[j].node_id@);
    }
    lemma_with_nodes_from(empty_view(), ds);
    let a = empty_view().with_nodes(ds);
    assert(ids.len() == 0);
    assert(a.without_nodes(ids) == a);
    assert forall|i: int| 0 <= i < ls.len() implies v.links.contains(#[trigger] ls[i]) by {
        assert(ls[i] == (u.links_added@[i].node_a@, u.links_added@[i].node_b@, u.links_added@[i].hop_cost, u.links_added@[i].rtt_micros));
    }
    assert forall|q1: NamedLink, q2: NamedLink|
        #[trigger] v.links.contains(q1) && #[trigger] v.links.contains(q2) && q1.0 == q2.0 && q1.1 == q2.1 implies q1
            == q2 by {
        law_one_link_per_direction(g, q1, q2);
    }
    lemma_with_links_from(a, v.links, ls);
    let b = a.with_links(ls);
    assert(ps.len() == 0);
    assert(b.without_links(ps) == b);
    assert(empty_view().apply(u) == b);
    // every link of the graph is listed, so it is covered
    assert forall|q: NamedLink| #[trigger] b.links.contains(q) <==> v.links.contains(q) by {
        if v.links.contains(q) {
            let i = choose|i: int|
                0 <= i < u.links_added@.len() && (#[trigger] u.links_added@[i]).node_a@ == q.0 && u.links_added@[i].node_b@
                    == q.1 && u.links_added@[i].hop_cost == q.2 && u.links_added@[i].rtt_micros == q.3;
            assert(ls[i] == q);
            assert(pair_hit(ls, q));
        }
    }
    assert forall|n: Seq<char>| #[trigger] b.nodes.contains(n) <==> v.nodes.contains(n) by {
        if id_listed(ds, n) {
            let i = choose|i: int| 0 <= i < ds.len() && (#[trigger] ds[i]).node_id == n;
            assert(ds[i] == u.nodes_added@[i]@);
            assert(v.metadata.contains_key(n));
            law_links_and_metadata_name_known_nodes(g, (n, n, 0, 0), n);
        }
        if endpoint_listed(ls, n) {
            let i = choose|i: int| 0 <= i < ls.len() && ((#[trigger] ls[i]).0 == n || ls[i].1 == n);
            assert(v.links.contains(ls[i]));
            law_links_and_metadata_name_known_nodes(g, ls[i], n);
        }
        if v.nodes.contains(n) {
            if v.metadata.contains_key(n) {
                let i = choose|i: int| 0 <= i < u.nodes_added@.len() && (#[trigger] u.nodes_added@[i]).node_id@ == n;
                assert(ds[i].node_id == n);
            } else {
                let q = choose|q: NamedLink| #[trigger] v.links.contains(q) && (q.0 == n || q.1 == n);
                let i = choose|i: int|
                    0 <= i < u.links_added@.len() && (#[trigger] u.links_added@[i]).node_a@ == q.0 && u.links_added@[i].node_b@
                        == q.1 && u.links_added@[i].hop_cost == q.2 && u.links_added@[i].rtt_micros == q.3;
                assert(ls[i] == q);
            }
        }
    }
    assert forall|n: Seq<char>| #[trigger] b.metadata.contains_key(n) <==> v.metadata.contains_key(n) by {
        if id_listed(ds, n) {
            let i = choose|i: int| 0 <= i < ds.len() && (#[trigger] ds[i]).node_id == n;
            assert(ds[i] == u.nodes_added@[i]@);
        }
        if v.metadata.contains_key(n) {
            let i = choose|i: int| 0 <= i < u.nodes_added@.len() && (#[trigger] u.nodes_added@[i]).node_id@ == n;
            assert(ds[i].node_id == n);
        }
    }
    assert forall|n: Seq<char>| #[trigger] b.metadata.contains_key(n) implies b.metadata[n] == v.metadata[n] by {
        let i = choose|i: int| 0 <= i < u.nodes_added@.len() && (#[trigger] u.nodes_added@[i]).node_id@ == n;
        assert(ds[i] == u.nodes_added@[i]@);
        assert(a.metadata[ds[i].node_id] == ds[i]);
    }
    assert(b.nodes =~= v.nodes);
    assert(b.links =~= v.links);
    assert(b.metadata =~= v.metadata);
}

/// Adding the nodes `ds` to `v` one after another never adds a new node to
/// a topology that already holds `u32::MAX` nodes.
pub open spec fn nodes_fit(v: GraphView, ds: Seq<DescriptorView>) -> bool {
    forall|i: int|
        0 <= i < ds.len() ==> #[trigger] v.with_nodes(ds.take(i)).nodes.contains(ds[i].node_id) || v.with_nodes(
            ds.take(i),
        ).nodes.len() < u32::MAX
}

/// Adding the links `ls` to `v` one after another never takes the number of
/// nodes or of directed links past `u32::MAX`.
pub open spec fn links_fit(v: GraphView, ls: Seq<NamedLink>) -> bool {
    forall|i: int|
        0 <= i < ls.len() ==> {
            &&& #[trigger] v.with_links(ls.take(i)).nodes.len() + new_endpoints(v.with_links(ls.take(i)), ls[i].0, ls[i].1)
                <= u32::MAX
            &&& v.with_links(ls.take(i)).links.len() + missing_directions(v.with_links(ls.take(i)), ls[i].0, ls[i].1)
                <= u32::MAX
        }
}

/// Applying the batch `u` to `v` step by step keeps the number of nodes and
/// of directed links within `u32::MAX` at every addition.
pub open spec fn update_fits(v: GraphView, u: TopologyUpdate) -> bool {
    let ds = u.nodes_added@.map_values(|d: NodeDescriptor| d@);
    let ids = u.nodes_removed@.map_values(|s: String| s@);
    let ls = u.links_added@.map_values(|l: LinkDescriptor| (l.node_a@, l.node_b@, l.hop_cost, l.rtt_micros));
    nodes_fit(v, ds) && links_fit(v.with_nodes(ds).without_nodes(ids), ls)
}

/// Adding nodes one at a time adds at most one node each and no link.
proof fn lemma_with_nodes_growth(v: GraphView, ds: Seq<DescriptorView>, i: int)
    requires
        v.nodes.finite(),
        0 <= i <= ds.len(),
    ensures
        v.with_nodes(ds.take(i)).nodes.finite(),
        v.with_nodes(ds.take(i)).nodes.len() <= v.nodes.len() + i,
        v.with_nodes(ds.take(i)).links == v.links,
    decreases i,
{
    broadcast use vstd::set::group_set_axioms;
    if i == 0 {
        assert(ds.take(0) =~= Seq::<DescriptorView>::empty());
    } else {
        lemma_with_nodes_growth(v, ds, i - 1);
        assert(ds.take(i).drop_last() =~= ds.take(i - 1));
    }
}

/// Removing nodes never adds a node or a link.
proof fn lemma_without_nodes_shrink(v: GraphView, ids: Seq<Seq<char>>)
    requires
        v.nodes.finite(),
        v.links.finite(),
    ensures
        v.without_nodes(ids).nodes.finite(),
        v.without_nodes(ids).links.finite(),
        v.without_nodes(ids).nodes.len() <= v.nodes.len(),
        v.without_nodes(ids).links.len() <= v.links.len(),
    decreases ids.len(),
{
    broadcast use vstd::set::group_set_axioms;
    if ids.len() > 0 {
        lemma_without_nodes_shrink(v, ids.drop_last());
        let w = v.without_nodes(ids.drop_last());
        let id = ids.last();
        if w.nodes.contains(id) {
            let l = w.without_node(id).links;
            assert(l.subset_of(w.links));
            vstd::set_lib::lemma_len_subset(l, w.links);
        }
    }
}

/// Adding links one at a time adds at most two nodes and two directed links
/// each.
proof fn lemma_with_links_growth(v: GraphView, ls: Seq<NamedLink>, i: int)
    requires
        v.nodes.finite(),
        v.links.finite(),
        0 <= i <= ls.len(),
    ensures
        v.with_links(ls.take(i)).nodes.finite(),
        v.with_links(ls.take(i)).links.finite(),
        v.with_links(ls.take(i)).nodes.len() <= v.nodes.len() + 2 * i,
        v.with_links(ls.take(i)).links.len() <= v.links.len() + 2 * i,
    decreases i,
{
    broadcast use vstd::set::group_set_axioms;
    if i == 0 {
        assert(ls.take(0) =~= Seq::<NamedLink>::empty());
    } else {
        lemma_with_links_growth(v, ls, i - 1);
        assert(ls.take(i).drop_last() =~= ls.take(i - 1));
        let w = v.with_links(ls.take(i - 1));
        let l = ls.take(i).last();
        let kept = without_link(without_link(w.links, l.0, l.1), l.1, l.0);
        vstd::set_lib::lemma_len_subset(without_link(w.links, l.0, l.1), w.links);
        vstd::set_lib::lemma_len_subset(kept, without_link(w.links, l.0, l.1));
    }
}

impl View for GlobalGraph {
    type V = GraphView;

    closed spec fn view(&self) -> GraphView {
        GraphView {
            nodes: seq_elems(graph_node_names(self.graph)),
            links: named_links(graph_node_names(self.graph), graph_edge_list(self.graph)),
            metadata: metadata_map(self.node_metadata@),
        }
    }
}

impl GlobalGraph {
    /// The number of nodes in the graph.
    pub closed spec fn node_count(&self) -> nat {
        graph_node_names(self.graph).len()
    }

    /// The number of directed edges in the graph.
    pub closed spec fn edge_count(&self) -> nat {
        graph_edge_list(self.graph).len()
    }

    /// The graph's invariant: node identifiers are distinct, edges join
    /// existing nodes, at most one edge leads from one node to another,
    /// metadata is held once per identifier, for known nodes only, and every
    /// link has its reverse with the same weight.
    pub closed spec fn wf(&self) -> bool {
        self.inv() && links_symmetric(self@)
    }

    /// The representation's part of the invariant.
    closed spec fn inv(&self) -> bool {
        let names = graph_node_names(self.graph);
        let edges = graph_edge_list(self.graph);
        let meta = self.node_metadata@;
        &&& names.len() <= u32::MAX
        &&& edges.len() <= u32::MAX
        &&& edges_ok(names, edges)
        &&& forall|i: int, j: int|
            0 <= i < meta.len() && 0 <= j < meta.len() && i != j ==> (#[trigger] meta[i]).node_id@ != (#[trigger] meta[j]).node_id@
        &&& forall|j: int| 0 <= j < meta.len() ==> seq_elems(names).contains((#[trigger] meta[j]).node_id@)
    }

    /// The node and edge counts are the sizes of the node and link sets.
    proof fn lemma_counts(&self)
        requires
            self.inv(),
        ensures
            self.node_count() == self@.nodes.len(),
            self.edge_count() == self@.links.len(),
            self@.nodes.finite(),
            self@.links.finite(),
    {
        let names = graph_node_names(self.graph);
        let edges = graph_edge_list(self.graph);
        assert(seq_elems(names) =~= names.to_set());
        names.unique_seq_to_set();
        let m = edges.map_values(|e: (u32, u32, u32, u64)| named_edge(names, e));
        assert forall|i: int, j: int| 0 <= i < m.len() && 0 <= j < m.len() && i != j implies m[i] != m[j] by {
            if m[i] == m[j] {
                assert(edges[i].0 < names.len() && edges[j].0 < names.len());
                assert(edges[i].1 < names.len() && edges[j].1 < names.len());
                assert(edges[i].0 == edges[j].0);
                assert(edges[i].1 == edges[j].1);
            }
        }
        assert(m.no_duplicates());
        m.unique_seq_to_set();
        assert forall|q: NamedLink| named_links(names, edges).contains(q) <==> m.to_set().contains(q) by {
            if named_links(names, edges).contains(q) {
                let k = choose|k: int| 0 <= k < edges.len() && named_edge(names, edges[k]) == q;
                assert(m[k] == q);
            }
            if m.to_set().contains(q) {
                let k = choose|k: int| 0 <= k < m.len() && m[k] == q;
                assert(named_edge(names, edges[k]) == q);
            }
        }
        assert(named_links(names, edges) =~= m.to_set());
    }

    /// Whether the graph has room for the batch `update` counted crudely:
    /// every added node and every endpoint and direction of every added link
    /// counted as new. When it has, applying the batch keeps the node and
    /// link counts within `u32::MAX` at every step.
    pub fn update_has_room(&self, update: &TopologyUpdate) -> (ok: bool)
        requires
            self.wf(),
        ensures
            ok == (self.node_count() + update.nodes_added@.len() + 2 * update.links_added@.len() <= u32::MAX
                && self.edge_count() + 2 * update.links_added@.len() <= u32::MAX),
            ok ==> update_fits(self@, *update),
    {
        let n = graph_node_count(&self.graph) as u128;
        let e = graph_edge_count(&self.graph) as u128;
        let na = update.nodes_added.len() as u128;
        let nl = update.links_added.len() as u128;
        let max = u32::MAX as u128;
        let ok = n + na + 2 * nl <= max && e + 2 * nl <= max;
        proof {
            if ok {
                self.lemma_counts();
                let v = self@;
                let ds = update.nodes_added@.map_values(|d: NodeDescriptor| d@);
                let ids = update.nodes_removed@.map_values(|s: String| s@);
                let ls = update.links_added@.map_values(
                    |l: LinkDescriptor| (l.node_a@, l.node_b@, l.hop_cost, l.rtt_micros),
                );
                assert forall|i: int| 0 <= i < ds.len() implies #[trigger] v.with_nodes(ds.take(i)).nodes.contains(
                    ds[i].node_id,
                ) || v.with_nodes(ds.take(i)).nodes.len() < u32::MAX by {
                    lemma_with_nodes_growth(v, ds, i);
                }
                lemma_with_nodes_growth(v, ds, ds.len() as int);
                assert(ds.take(ds.len() as int) =~= ds);
                let v1 = v.with_nodes(ds);
                lemma_without_nodes_shrink(v1, ids);
                let v2 = v1.without_nodes(ids);
                assert forall|i: int| 0 <= i < ls.len() implies {
                    &&& #[trigger] v2.with_links(ls.take(i)).nodes.len() + new_endpoints(
                        v2.with_links(ls.take(i)),
                        ls[i].0,
                        ls[i].1,
                    ) <= u32::MAX
                    &&& v2.with_links(ls.take(i)).links.len() + missing_directions(
                        v2.with_links(ls.take(i)),
                        ls[i].0,
                        ls[i].1,
                    ) <= u32::MAX
                } by {
                    lemma_with_links_growth(v2, ls, i);
                }
            }
        }
        ok
    }

    /// Whether the graph knows the node `node_id`.
    pub fn has_node(&self, node_id: &str) -> (known: bool)
        requires
            self.wf(),
        ensures
            known == self@.nodes.contains(node_id@),
    {
        let key = node_id.to_owned();
        self.find_node(&key).is_some()
    }

    /// The number of nodes in the graph.
    pub fn num_nodes(&self) -> (n: usize)
        ensures
            n == self.node_count(),
    {
        graph_node_count(&self.graph)
    }

    /// The number of directed edges in the graph.
    pub fn num_edges(&self) -> (n: usize)
        ensures
            n == self.edge_count(),
    {
        graph_edge_count(&self.graph)
    }

    /// Creates a new, empty `GlobalGraph`.
    pub fn new() -> (g: Self)
        ensures
            g.wf(),
            g@.nodes == Set::<Seq<char>>::empty(),
            g@.links == Set::<NamedLink>::empty(),
            g@.metadata == Map::<Seq<char>, DescriptorView>::empty(),
            g.node_count() == 0,
            g.edge_count() == 0,
    {
        let g = GlobalGraph { graph: graph_new(), node_metadata: Vec::new() };
        assert(seq_elems(graph_node_names(g.graph)) =~= Set::<Seq<char>>::empty());
        assert(links_symmetric(GraphView { nodes: Set::empty(), links: Set::empty(), metadata: Map::empty() }));
        assert(named_links(graph_node_names(g.graph), graph_edge_list(g.graph)) =~= Set::<NamedLink>::empty());
        assert(metadata_map(g.node_metadata@) =~= Map::<Seq<char>, DescriptorView>::empty());
        g
    }

    /// Adds a node to the graph, or replaces the metadata of a known node.
    pub fn add_node(&mut self, descriptor: NodeDescriptor)
        requires
            old(self).wf(),
            old(self)@.nodes.contains(descriptor.node_id@) || old(self).node_count() < u32::MAX,
        ensures
            final(self).wf(),
            final(self)@ == old(self)@.with_node(descriptor@),
            final(self).node_count() == old(self).node_count() + if old(self)@.nodes.contains(
                descriptor.node_id@,
            ) {
                0nat
            } else {
                1nat
            },
            final(self).edge_count() == old(self).edge_count(),
    {
        assert(links_symmetric(old(self)@.with_node(descriptor@)));
        let node_id = descriptor.node_id.clone();
        let ghost names0 = graph_node_names(self.graph);
        let ghost edges0 = graph_edge_list(self.graph);
        if self.find_node(&node_id).is_none() {
            graph_add_node(&mut self.graph, node_id.clone());
            proof {
                lemma_seq_elems_push(names0, node_id@);
                lemma_named_links_names_push(names0, node_id@, edges0);
                let names = graph_node_names(self.graph);
                assert forall|i: int, j: int| 0 <= i < names.len() && 0 <= j < names.len() && i != j implies names[i] != names[j] by {
                    if i < names0.len() && j < names0.len() {
                        assert(names[i] == names0[i] && names[j] == names0[j]);
                    } else if i < names0.len() {
                        assert(names[i] == names0[i]);
                        assert(seq_elems(names0).contains(names[i]));
                    } else {
                        assert(names[j] == names0[j]);
                        assert(seq_elems(names0).contains(names[j]));
                    }
                }
            }
        } else {
            assert(seq_elems(names0).insert(node_id@) =~= seq_elems(names0));
        }
        let ghost meta0 = self.node_metadata@;
        match self.find_metadata(&node_id) {
            Some(j) => {
                self.node_metadata.set(j, descriptor);
                proof {
                    lemma_metadata_update(meta0, j as int, descriptor);
                }
            },
            None => {
                self.node_metadata.push(descriptor);
                proof {
                    lemma_metadata_push(meta0, descriptor);
                }
            },
        }
        proof {
            let names = graph_node_names(self.graph);
            let meta = self.node_metadata@;
            assert forall|j: int| 0 <= j < meta.len() implies seq_elems(names).contains((#[trigger] meta[j]).node_id@) by {
                if j < meta0.len() && meta[j] == meta0[j] {
                    assert(seq_elems(names0).contains(meta0[j].node_id@));
                }
            }
            assert forall|a: int, b: int|
                0 <= a < meta.len() && 0 <= b < meta.len() && a != b implies (#[trigger] meta[a]).node_id@ != (#[trigger] meta[b]).node_id@ by {
            }
        }
    }

    /// Removes a node and all of its links from the graph, together with its
    /// metadata. An unknown identifier leaves the graph unchanged.
    pub fn remove_node(&mut self, node_id: &str)
        requires
            old(self).wf(),
        ensures
            final(self).wf(),
            old(self)@.nodes.contains(node_id@) ==> final(self)@ == old(self)@.without_node(node_id@)
                && final(self).node_count() == old(self).node_count() - 1,
            !old(self)@.nodes.contains(node_id@) ==> final(self)@ == old(self)@
                && final(self).node_count() == old(self).node_count(),
            final(self).edge_count() <= old(self).edge_count(),
    {
        proof {
            lemma_without_node_symmetric(old(self)@, node_id@);
        }
        let key = node_id.to_owned();
        let ghost v0 = self@;
        let ghost names0 = graph_node_names(self.graph);
        let ghost edges0 = graph_edge_list(self.graph);
        if let Some(idx) = self.find_node(&key) {
            graph_remove_node(&mut self.graph, idx);
            proof {
                lemma_remove_node(names0, edges0, graph_node_names(self.graph), graph_edge_list(self.graph), idx);
            }
            let ghost meta0 = self.node_metadata@;
            match self.find_metadata(&key) {
                Some(j) => {
                    self.node_metadata.remove(j);
                    proof {
                        lemma_metadata_remove(meta0, j as int);
                    }
                },
                None => {
                    assert(metadata_map(meta0).remove(key@) =~= metadata_map(meta0));
                },
            }
            proof {
                let names = graph_node_names(self.graph);
                let meta = self.node_metadata@;
                assert forall|j: int| 0 <= j < meta.len() implies seq_elems(names).contains((#[trigger] meta[j]).node_id@) by {
                    let j0 = choose|j0: int| 0 <= j0 < meta0.len() && meta0[j0] == meta[j];
                    assert(seq_elems(names0).contains(meta0[j0].node_id@));
                    assert(meta0[j0].node_id@ != key@);
                }
                assert(self@ =~= v0.without_node(node_id@));
            }
        }
    }

    /// Applies a batch of updates: first the added nodes, then the removed
    /// nodes, then the added links, then the removed links. Each addition
    /// must leave the node and link counts within the graph's `u32`
    /// indices.
    pub fn apply_update(&mut self, update: TopologyUpdate)
        requires
            old(self).wf(),
            update_fits(old(self)@, update),
        ensures
            final(self).wf(),
            final(self)@ == old(self)@.apply(update),
    {
        let ghost v0 = self@;
        let ghost u = update;
        let TopologyUpdate { nodes_added, nodes_removed, links_added, links_removed } = update;
        let ghost ds = nodes_added@.map_values(|d: NodeDescriptor| d@);
        let ghost ids = nodes_removed@.map_values(|s: String| s@);
        let ghost ls = links_added@.map_values(
            |l: LinkDescriptor| (l.node_a@, l.node_b@, l.hop_cost, l.rtt_micros),
        );
        let ghost ps = links_removed@.map_values(|l: LinkDescriptor| (l.node_a@, l.node_b@));
        let mut i: usize = 0;
        let mut rest = nodes_added;
        let ghost all = rest@;
        let total = rest.len();
        assert(ds.take(0) =~= Seq::<DescriptorView>::empty());
        while i < total
            invariant
                total == all.len(),
                self.wf(),
                ds == all.map_values(|d: NodeDescriptor| d@),
                i <= all.len(),
                rest@ == all.skip(i as int),
                self@ == v0.with_nodes(ds.take(i as int)),
                nodes_fit(v0, ds),
            decreases all.len() - i,
        {
            let d = rest.remove(0);
            assert(d == all[i as int]);
            assert(ds.take(i + 1).drop_last() =~= ds.take(i as int));
            proof {
                self.lemma_counts();
                assert(v0.with_nodes(ds.take(i as int)).nodes.contains(ds[i as int].node_id) || v0.with_nodes(
                    ds.take(i as int),
                ).nodes.len() < u32::MAX);
            }
            self.add_node(d);
            assert(rest@ =~= all.skip(i + 1));
            i = i + 1;
        }
        assert(ds.take(all.len() as int) =~= ds);
        let ghost v1 = self@;
        let mut i: usize = 0;
        assert(ids.take(0) =~= Seq::<Seq<char>>::empty());
        while i < nodes_removed.len()
            invariant
                self.wf(),
                ids == nodes_removed@.map_values(|s: String| s@),
                i <= nodes_removed@.len(),
                self@ == v1.without_nodes(ids.take(i as int)),
            decreases nodes_removed@.len() - i,
        {
            assert(ids.take(i + 1).drop_last() =~= ids.take(i as int));
            self.remove_node(nodes_removed[i].as_str());
            i = i + 1;
        }
        assert(ids.take(nodes_removed@.len() as int) =~= ids);
        let ghost v2 = self@;
        let mut i: usize = 0;
        let mut rest = links_added;
        let ghost all = rest@;
        let total = rest.len();
        assert(ls.take(0) =~= Seq::<NamedLink>::empty());
        while i < total
            invariant
                total == all.len(),
                self.wf(),
                ls == all.map_values(
                    |l: LinkDescriptor| (l.node_a@, l.node_b@, l.hop_cost, l.rtt_micros),
                ),
                i <= all.len(),
                rest@ == all.skip(i as int),
                self@ == v2.with_links(ls.take(i as int)),
                links_fit(v2, ls),
            decreases all.len() - i,
        {
            let l = rest.remove(0);
            assert(l == all[i as int]);
            assert(ls.take(i + 1).drop_last() =~= ls.take(i as int));
            proof {
                self.lemma_counts();
                let w = v2.with_links(ls.take(i as int));
                assert(ls[i as int] == (l.node_a@, l.node_b@, l.hop_cost, l.rtt_micros));
                assert(w.nodes.len() + new_endpoints(w, ls[i as int].0, ls[i as int].1) <= u32::MAX);
            }
            self.add_link(l);
            assert(rest@ =~= all.skip(i + 1));
            i = i + 1;
        }
        assert(ls.take(all.len() as int) =~= ls);
        let ghost v3 = self@;
        let mut i: usize = 0;
        assert(ps.take(0) =~= Seq::<(Seq<char>, Seq<char>)>::empty());
        while i < links_removed.len()
            invariant
                self.wf(),
                ps == links_removed@.map_values(|l: LinkDescriptor| (l.node_a@, l.node_b@)),
                i <= links_removed@.len(),
                self@ == v3.without_links(ps.take(i as int)),
            decreases links_removed@.len() - i,
        {
            assert(ps.take(i + 1).drop_last() =~= ps.take(i as int));
            self.remove_link(links_removed[i].node_a.as_str(), links_removed[i].node_b.as_str());
            i = i + 1;
        }
        assert(ps.take(links_removed@.len() as int) =~= ps);
    }

    /// Computes the shortest-path forwarding table from `source` to the
    /// nodes of `subscribers`: for each relay along the forwarding tree, its
    /// downstream next hops.
    ///
    /// The tree is a shortest-path tree over the link hop costs, where every
    /// link into an aggregator costs an extra `AGGREGATOR_PENALTY`. A relay
    /// forwards to a node when that node lies on the tree path from a
    /// subscriber up to the source. Subscribers that are unknown or
    /// unreachable add nothing.
    pub fn compute_forwarding_table(&self, source: &str, subscribers: &Vec<String>) -> (table: Vec<
        (String, ForwardingTargets),
    >)
        requires
            self.wf(),
        ensures
            is_forwarding_table(self@, source@, subscribers@, table@),
    {
        if subscribers.len() == 0 {
            return Vec::new();
        }
        let src_key = source.to_owned();
        let src_idx = match self.find_node(&src_key) {
            Some(i) => i,
            None => {
                return Vec::new();
            },
        };
        let ghost names = graph_node_names(self.graph);
        let ghost v = self@;
        let n = graph_node_count(&self.graph);
        // the penalty of entering each node
        let mut penalty: Vec<u64> = Vec::new();
        let mut i: usize = 0;
        while i < n
            invariant
                self.wf(),
                v == self@,
                names == graph_node_names(self.graph),
                n == names.len(),
                n <= u32::MAX,
                i <= n,
                penalty@.len() == i,
                forall|l: int| 0 <= l < i ==> #[trigger] penalty@[l] as int == link_cost(v, names[l], 0u32),
            decreases n - i,
        {
            let name = graph_node_name(&self.graph, i as u32);
            let p: u64 = match self.find_metadata(&name) {
                Some(j) => {
                    proof {
                        lemma_metadata_lookup(self.node_metadata@, j as int);
                    }
                    if self.node_metadata[j].role == NodeRole::Aggregator {
                        AGGREGATOR_PENALTY
                    } else {
                        0
                    }
                },
                None => 0,
            };
            penalty.push(p);
            i = i + 1;
        }
        let edges = graph_edges(&self.graph);
        let mut cost_edges: Vec<CostEdge> = Vec::new();
        let mut k: usize = 0;
        while k < edges.len()
            invariant
                self.wf(),
                v == self@,
                names == graph_node_names(self.graph),
                edges@ == graph_edge_list(self.graph),
                n == names.len(),
                penalty@.len() == n,
                forall|l: int| 0 <= l < n ==> #[trigger] penalty@[l] as int == link_cost(v, names[l], 0u32),
                k <= edges@.len(),
                cost_edges@.len() == k,
                forall|l: int|
                    0 <= l < k ==> (#[trigger] cost_edges@[l]).0 == edges@[l].0 && cost_edges@[l].1 == edges@[l].1
                        && cost_edges@[l].2 == link_cost(v, names[edges@[l].1 as int], edges@[l].2)
                        && cost_edges@[l].0 < n && cost_edges@[l].1 < n && cost_edges@[l].2 < EDGE_COST_LIMIT,
            decreases edges@.len() - k,
        {
            let e = edges[k];
            assert(e.0 < n && e.1 < n);
            let c: u64 = e.2 as u64 + penalty[e.1 as usize];
            cost_edges.push((e.0 as usize, e.1 as usize, c));
            k = k + 1;
        }
        let (dist, pred) = shortest_path_tree(n, &cost_edges, src_idx as usize);
        let ghost rank = choose|r: Seq<nat>| is_shortest_path_tree(n as nat, cost_edges@, src_idx as nat, dist@, pred@, r);
        // the subscribers that the graph knows
        let ghost subs = name_set(subscribers@);
        let mut starts: Vec<usize> = Vec::new();
        let mut t: usize = 0;
        while t < subscribers.len()
            invariant
                self.wf(),
                names == graph_node_names(self.graph),
                n == names.len(),
                t <= subscribers@.len(),
                forall|l: int| 0 <= l < starts@.len() ==> #[trigger] starts@[l] < n,
                forall|i: int|
                    #[trigger] seq_elems(as_ints(starts@)).contains(i) <==> (0 <= i < n && exists|l: int|
                        0 <= l < t && subscribers@[l]@ == names[i]),
            decreases subscribers@.len() - t,
        {
            let ghost before = starts@;
            match self.find_node(&subscribers[t]) {
                Some(ix) => {
                    starts.push(ix as usize);
                    proof {
                        assert(as_ints(starts@) =~= as_ints(before).push(ix as int));
                        lemma_seq_elems_push(as_ints(before), ix as int);
                    }
                },
                None => {},
            }
            proof {
                assert forall|i: int|
                    #[trigger] seq_elems(as_ints(starts@)).contains(i) <==> (0 <= i < n && exists|l: int|
                        0 <= l < t + 1 && subscribers@[l]@ == names[i]) by {
                    if 0 <= i < n && subscribers@[t as int]@ == names[i] {
                        assert(seq_elems(names).contains(names[i]));
                    }
                    if seq_elems(as_ints(before)).contains(i) {
                        let l = choose|l: int| 0 <= l < before.len() && #[trigger] as_ints(before)[l] == i;
                        assert(as_ints(starts@)[l] == i);
                    }
                }
            }
            t = t + 1;
        }
        proof {
            assert(parents_descend(pred@, rank)) by {
                assert forall|y: int| 0 <= y < pred@.len() && #[trigger] pred@[y] is Some implies pred@[y]->0 < pred@.len()
                    && rank[pred@[y]->0 as int] < rank[y] by {
                }
            }
        }
        let pairs = collect_path_edges(&pred, src_idx as usize, &starts, Ghost(rank));
        let groups = group_by_relay(&pairs);
        proof {
            let starts_set = seq_elems(as_ints(starts@));
            assert forall|i: int| 0 <= i < groups@.len() implies (#[trigger] groups@[i]).0 < n && forall|j: int|
                0 <= j < groups@[i].1@.len() ==> #[trigger] groups@[i].1@[j] < n by {
                assert forall|j: int| 0 <= j < groups@[i].1@.len() implies #[trigger] groups@[i].1@[j] < n && groups@[i].0 < n by {
                    assert(seq_elems(pairs@).contains((groups@[i].0, groups@[i].1@[j])));
                    assert(path_edges(pred@, rank, starts_set).contains((groups@[i].0, groups@[i].1@[j])));
                }
                assert(groups@[i].1@[0] < n);
            }
        }
        let mut table: Vec<(String, ForwardingTargets)> = Vec::new();
        let mut g: usize = 0;
        while g < groups.len()
            invariant
                self.wf(),
                names == graph_node_names(self.graph),
                n == names.len(),
                g <= groups@.len(),
                forall|i: int| 0 <= i < groups@.len() ==> (#[trigger] groups@[i]).0 < n && forall|j: int|
                    0 <= j < groups@[i].1@.len() ==> #[trigger] groups@[i].1@[j] < n,
                table@.len() == g,
                forall|i: int|
                    0 <= i < g ==> (#[trigger] table@[i]).0@ == names[groups@[i].0 as int] && table@[i].1.send_to@.len()
                        == groups@[i].1@.len() && forall|j: int|
                        0 <= j < groups@[i].1@.len() ==> (#[trigger] table@[i].1.send_to@[j])@ == names[groups@[i].1@[j] as int],
            decreases groups@.len() - g,
        {
            let relay = graph_node_name(&self.graph, groups[g].0 as u32);
            let mut send_to: Vec<String> = Vec::new();
            let mut j: usize = 0;
            while j < groups[g].1.len()
                invariant
                    names == graph_node_names(self.graph),
                    n == names.len(),
                    n <= u32::MAX,
                    g < groups@.len(),
                    j <= groups@[g as int].1@.len(),
                    forall|j2: int| 0 <= j2 < groups@[g as int].1@.len() ==> #[trigger] groups@[g as int].1@[j2] < n,
                    send_to@.len() == j,
                    forall|j2: int| 0 <= j2 < j ==> (#[trigger] send_to@[j2])@ == names[groups@[g as int].1@[j2] as int],
                decreases groups@[g as int].1@.len() - j,
            {
                let name = graph_node_name(&self.graph, groups[g].1[j] as u32);
                send_to.push(name);
                j = j + 1;
            }
            table.push((relay, ForwardingTargets { send_to }));
            g = g + 1;
        }
        proof {
            let pn = parent_by_name(names, pred@);
            let rn = rank_by_name(names, rank);
            let dn = dist_by_name(names, dist@);
            let edges_v = graph_edge_list(self.graph);
            lemma_tree_by_name(v, names, edges_v, cost_edges@, src_idx as nat, dist@, pred@, rank);
            assert forall|i: int| 0 <= i < n implies index_of(names, #[trigger] names[i]) == i by {
                lemma_index_of(names, i);
            }
            let starts_set = seq_elems(as_ints(starts@));
            // well-formed table
            assert forall|i: int, j: int| 0 <= i < table@.len() && 0 <= j < table@.len() && i != j implies (#[trigger] table@[i]).0@ != (#[trigger] table@[j]).0@ by {
            }
            assert forall|i: int| 0 <= i < table@.len() implies (#[trigger] table@[i]).1.send_to@.len() > 0 && forall|a: int, b: int|
                0 <= a < table@[i].1.send_to@.len() && 0 <= b < table@[i].1.send_to@.len() && a != b
                    ==> (#[trigger] table@[i].1.send_to@[a])@ != (#[trigger] table@[i].1.send_to@[b])@ by {
                assert forall|a: int, b: int|
                    0 <= a < table@[i].1.send_to@.len() && 0 <= b < table@[i].1.send_to@.len() && a != b
                        implies (#[trigger] table@[i].1.send_to@[a])@ != (#[trigger] table@[i].1.send_to@[b])@ by {
                    assert(groups@[i].1@[a] != groups@[i].1@[b]);
                }
            }
            // the table lists exactly the tree edges
            assert forall|u: Seq<char>, y: Seq<char>|
                #[trigger] forwards_to(pn, rn, subs, u, y) <==> lists_target(table@, u, y) by {
                if forwards_to(pn, rn, subs, u, y) {
                    let iy = choose|i: int| 0 <= i < n && names[i] == y && pred@[i] is Some;
                    let iu = pred@[iy]->0 as int;
                    assert(u == names[iu]);
                    let sn = choose|sn: Seq<char>| #[trigger] subs.contains(sn) && on_tree_path(pn, rn, sn, y);
                    assert(seq_elems(names).contains(y));
                    assert(v.nodes.contains(sn));
                    let is = choose|i: int| 0 <= i < n && names[i] == sn;
                    assert(on_parent_path(pred@, rank, is, iy));
                    let l = choose|l: int| 0 <= l < subscribers@.len() && #[trigger] string_views(subscribers@)[l] == sn;
                    assert(subscribers@[l]@ == names[is]);
                    assert(starts_set.contains(is));
                    assert(path_edges(pred@, rank, starts_set).contains((iu as usize, iy as usize)));
                    assert(seq_elems(pairs@).contains((iu as usize, iy as usize)));
                    let (gi, gj) = choose|gi: int, gj: int|
                        0 <= gi < groups@.len() && 0 <= gj < groups@[gi].1@.len() && groups@[gi].0 == iu as usize
                            && #[trigger] groups@[gi].1@[gj] == iy as usize;
                    assert(table@[gi].1.send_to@[gj]@ == y);
                }
                if lists_target(table@, u, y) {
                    let (gi, gj) = choose|gi: int, gj: int|
                        0 <= gi < table@.len() && 0 <= gj < table@[gi].1.send_to@.len() && table@[gi].0@ == u
                            && (#[trigger] table@[gi].1.send_to@[gj])@ == y;
                    let iu = groups@[gi].0;
                    let iy = groups@[gi].1@[gj];
                    assert(seq_elems(pairs@).contains((iu, iy)));
                    assert(path_edges(pred@, rank, starts_set).contains((iu, iy)));
                    let is = choose|s: int| #[trigger] starts_set.contains(s) && on_parent_path(pred@, rank, s, iy as int);
                    let l = choose|l: int| 0 <= l < subscribers@.len() && subscribers@[l]@ == names[is];
                    assert(string_views(subscribers@)[l] == names[is]);
                    assert(subs.contains(names[is]));
                    assert(on_tree_path(pn, rn, names[is], names[iy as int]));
                    assert(pn.contains_key(names[iy as int]));
                    assert(pn[names[iy as int]] == names[iu as int]);
                }
            }
            assert(is_routing_tree(v, source@, dn, pn, rn));
        }
        table
    }

    /// The graph's node metadata and directed links, as descriptors, for
    /// synchronising a newly connected peer: each node's metadata once, and
    /// each directed link once.
    pub fn get_descriptors(&self) -> (res: (Vec<NodeDescriptor>, Vec<LinkDescriptor>))
        requires
            self.wf(),
        ensures
            forall|i: int|
                0 <= i < res.0@.len() ==> self@.metadata.contains_key((#[trigger] res.0@[i]).node_id@)
                    && self@.metadata[res.0@[i].node_id@] == res.0@[i]@,
            forall|k: Seq<char>|
                #[trigger] self@.metadata.contains_key(k) ==> exists|i: int| 0 <= i < res.0@.len() && (#[trigger] res.0@[i]).node_id@ == k,
            forall|i: int, j: int|
                0 <= i < res.0@.len() && 0 <= j < res.0@.len() && i != j ==> (#[trigger] res.0@[i]).node_id@ != (#[trigger] res.0@[j]).node_id@,
            forall|i: int|
                0 <= i < res.1@.len() ==> self@.links.contains(
                    (
                        (#[trigger] res.1@[i]).node_a@,
                        res.1@[i].node_b@,
                        res.1@[i].hop_cost,
                        res.1@[i].rtt_micros,
                    ),
                ),
            forall|q: NamedLink|
                #[trigger] self@.links.contains(q) ==> exists|i: int|
                    0 <= i < res.1@.len() && (#[trigger] res.1@[i]).node_a@ == q.0 && res.1@[i].node_b@ == q.1
                        && res.1@[i].hop_cost == q.2 && res.1@[i].rtt_micros == q.3,
            forall|i: int, j: int|
                0 <= i < res.1@.len() && 0 <= j < res.1@.len() && i != j ==> !((#[trigger] res.1@[i]).node_a@ == (#[trigger] res.1@[j]).node_a@
                    && res.1@[i].node_b@ == res.1@[j].node_b@),
            describes(self@, res.0@, res.1@),
    {
        let mut nodes: Vec<NodeDescriptor> = Vec::new();
        let mut i: usize = 0;
        while i < self.node_metadata.len()
            invariant
                i <= self.node_metadata@.len(),
                nodes@.len() == i,
                forall|j: int| 0 <= j < i ==> (#[trigger] nodes@[j])@ == self.node_metadata@[j]@,
            decreases self.node_metadata@.len() - i,
        {
            nodes.push(self.node_metadata[i].copy());
            i = i + 1;
        }
        let ghost names = graph_node_names(self.graph);
        let edges = graph_edges(&self.graph);
        let mut links: Vec<LinkDescriptor> = Vec::new();
        let mut k: usize = 0;
        while k < edges.len()
            invariant
                self.wf(),
                names == graph_node_names(self.graph),
                edges@ == graph_edge_list(self.graph),
                k <= edges@.len(),
                links@.len() == k,
                forall|l: int|
                    0 <= l < k ==> (#[trigger] links@[l]).node_a@ == names[edges@[l].0 as int] && links@[l].node_b@
                        == names[edges@[l].1 as int] && links@[l].hop_cost == edges@[l].2 && links@[l].rtt_micros
                        == edges@[l].3,
            decreases edges@.len() - k,
        {
            let e = edges[k];
            let a = graph_node_name(&self.graph, e.0);
            let b = graph_node_name(&self.graph, e.1);
            links.push(LinkDescriptor { node_a: a, node_b: b, hop_cost: e.2, rtt_micros: e.3 });
            k = k + 1;
        }
        proof {
            let meta = self.node_metadata@;
            assert forall|i: int| 0 <= i < nodes@.len() implies self@.metadata.contains_key((#[trigger] nodes@[i]).node_id@)
                && self@.metadata[nodes@[i].node_id@] == nodes@[i]@ by {
                lemma_metadata_lookup(meta, i);
            }
            assert forall|key: Seq<char>| #[trigger] self@.metadata.contains_key(key) implies exists|i: int|
                0 <= i < nodes@.len() && (#[trigger] nodes@[i]).node_id@ == key by {
                let j = choose|j: int| 0 <= j < meta.len() && meta[j].node_id@ == key;
                assert(nodes@[j].node_id@ == key);
            }
            assert forall|i: int, j: int| 0 <= i < nodes@.len() && 0 <= j < nodes@.len() && i != j implies (#[trigger] nodes@[i]).node_id@ != (#[trigger] nodes@[j]).node_id@ by {
                assert(nodes@[i].node_id@ == meta[i].node_id@);
                assert(nodes@[j].node_id@ == meta[j].node_id@);
            }
            assert forall|i: int| 0 <= i < links@.len() implies self@.links.contains(
                ((#[trigger] links@[i]).node_a@, links@[i].node_b@, links@[i].hop_cost, links@[i].rtt_micros),
            ) by {
                assert(named_edge(names, edges@[i]) == (links@[i].node_a@, links@[i].node_b@, links@[i].hop_cost, links@[i].rtt_micros));
            }
            assert forall|q: NamedLink| #[trigger] self@.links.contains(q) implies exists|i: int|
                0 <= i < links@.len() && (#[trigger] links@[i]).node_a@ == q.0 && links@[i].node_b@ == q.1
                    && links@[i].hop_cost == q.2 && links@[i].rtt_micros == q.3 by {
                let i = choose|i: int| 0 <= i < edges@.len() && named_edge(names, edges@[i]) == q;
                assert(links@[i].node_a@ == q.0);
            }
            assert forall|i: int, j: int| 0 <= i < links@.len() && 0 <= j < links@.len() && i != j implies !((#[trigger] links@[i]).node_a@ == (#[trigger] links@[j]).node_a@
                && links@[i].node_b@ == links@[j].node_b@) by {
                if links@[i].node_a@ == links@[j].node_a@ && links@[i].node_b@ == links@[j].node_b@ {
                    assert(edges@[i].0 == edges@[j].0);
                    assert(edges@[i].1 == edges@[j].1);
                }
            }
        }
        let ghost nv = nodes@;
        let ghost lv = links@;
        let res = (nodes, links);
        assert(res.0@ == nv && res.1@ == lv);
        res
    }

    /// The index of the node named `id`, added first if the graph does not
    /// know it.
    fn ensure_node(&mut self, id: &String) -> (ix: u32)
        requires
            old(self).inv(),
            old(self)@.nodes.contains(id@) || old(self).node_count() < u32::MAX,
        ensures
            final(self).inv(),
            final(self)@ == (GraphView { nodes: old(self)@.nodes.insert(id@), ..old(self)@ }),
            ix < graph_node_names(final(self).graph).len(),
            graph_node_names(final(self).graph)[ix as int] == id@,
            graph_node_names(old(self).graph).len() <= graph_node_names(final(self).graph).len(),
            forall|i: int| 0 <= i < graph_node_names(old(self).graph).len() ==> #[trigger] graph_node_names(final(self).graph)[i] == graph_node_names(old(self).graph)[i],
            final(self).node_count() == old(self).node_count() + if old(self)@.nodes.contains(id@) {
                0nat
            } else {
                1nat
            },
            final(self).edge_count() == old(self).edge_count(),
    {
        let ghost names0 = graph_node_names(self.graph);
        let ghost edges0 = graph_edge_list(self.graph);
        match self.find_node(id) {
            Some(i) => {
                assert(seq_elems(names0).contains(id@));
                assert(seq_elems(names0).insert(id@) =~= seq_elems(names0));
                i
            },
            None => {
                let i = graph_add_node(&mut self.graph, id.clone());
                proof {
                    lemma_seq_elems_push(names0, id@);
                    lemma_named_links_names_push(names0, id@, edges0);
                    let names = graph_node_names(self.graph);
                    assert forall|a: int, b: int| 0 <= a < names.len() && 0 <= b < names.len() && a != b implies names[a] != names[b] by {
                        if a < names0.len() && b < names0.len() {
                            assert(names[a] == names0[a] && names[b] == names0[b]);
                        } else if a < names0.len() {
                            assert(names[a] == names0[a]);
                            assert(seq_elems(names0).contains(names[a]));
                        } else {
                            assert(names[b] == names0[b]);
                            assert(seq_elems(names0).contains(names[b]));
                        }
                    }
                    let meta = self.node_metadata@;
                    assert forall|j: int| 0 <= j < meta.len() implies seq_elems(names).contains((#[trigger] meta[j]).node_id@) by {
                        assert(seq_elems(names0).contains(meta[j].node_id@));
                    }
                }
                i
            },
        }
    }

    /// Gives the edge from `a` to `b` the weight `w`, adding it if needed.
    fn set_edge(&mut self, a: u32, b: u32, w: LinkWeight)
        requires
            old(self).inv(),
            a < graph_node_names(old(self).graph).len(),
            b < graph_node_names(old(self).graph).len(),
            has_edge_between(graph_edge_list(old(self).graph), a, b) || old(self).edge_count() < u32::MAX,
        ensures
            final(self).inv(),
            graph_node_names(final(self).graph) == graph_node_names(old(self).graph),
            final(self)@ == (GraphView {
                links: without_link(
                    old(self)@.links,
                    graph_node_names(old(self).graph)[a as int],
                    graph_node_names(old(self).graph)[b as int],
                ).insert(
                    (
                        graph_node_names(old(self).graph)[a as int],
                        graph_node_names(old(self).graph)[b as int],
                        w.hop_cost,
                        w.rtt_micros,
                    ),
                ),
                ..old(self)@
            }),
            final(self).node_count() == old(self).node_count(),
            final(self).edge_count() == old(self).edge_count() + if has_edge_between(
                graph_edge_list(old(self).graph),
                a,
                b,
            ) {
                0nat
            } else {
                1nat
            },
    {
        let ghost names0 = graph_node_names(self.graph);
        let ghost edges0 = graph_edge_list(self.graph);
        let e = graph_update_edge(&mut self.graph, a, b, w);
        proof {
            lemma_set_edge(names0, edges0, graph_edge_list(self.graph), a, b, w.hop_cost, w.rtt_micros, e);
        }
    }

    /// Removes the edge from `a` to `b`, if there is one.
    fn drop_edge(&mut self, a: u32, b: u32)
        requires
            old(self).inv(),
            a < graph_node_names(old(self).graph).len(),
            b < graph_node_names(old(self).graph).len(),
        ensures
            final(self).inv(),
            graph_node_names(final(self).graph) == graph_node_names(old(self).graph),
            final(self)@ == (GraphView {
                links: without_link(
                    old(self)@.links,
                    graph_node_names(old(self).graph)[a as int],
                    graph_node_names(old(self).graph)[b as int],
                ),
                ..old(self)@
            }),
            final(self).node_count() == old(self).node_count(),
            final(self).edge_count() <= old(self).edge_count(),
    {
        let ghost names0 = graph_node_names(self.graph);
        let ghost edges0 = graph_edge_list(self.graph);
        match graph_find_edge(&self.graph, a, b) {
            Some(e) => {
                graph_remove_edge(&mut self.graph, e);
                proof {
                    lemma_drop_edge(names0, edges0, e as int);
                }
            },
            None => {
                proof {
                    let l1 = named_links(names0, edges0);
                    assert forall|q: NamedLink| l1.contains(q) implies without_link(l1, names0[a as int], names0[b as int]).contains(q) by {
                        let k = choose|k: int| 0 <= k < edges0.len() && named_edge(names0, edges0[k]) == q;
                        if q.0 == names0[a as int] && q.1 == names0[b as int] {
                            assert(edges0[k].0 == a && edges0[k].1 == b);
                        }
                    }
                    assert(without_link(l1, names0[a as int], names0[b as int]) =~= l1);
                }
            },
        }
    }

    /// Adds or updates a symmetric link between two nodes: directed edges in
    /// both directions carry the link's weight. Unknown endpoints are added
    /// as nodes without metadata.
    pub fn add_link(&mut self, link: LinkDescriptor)
        requires
            old(self).wf(),
            old(self).node_count() + new_endpoints(old(self)@, link.node_a@, link.node_b@) <= u32::MAX,
            old(self).edge_count() + missing_directions(old(self)@, link.node_a@, link.node_b@) <= u32::MAX,
        ensures
            final(self).wf(),
            final(self)@ == old(self)@.with_link(link.node_a@, link.node_b@, link.hop_cost, link.rtt_micros),
            final(self).node_count() == old(self).node_count() + new_endpoints(old(self)@, link.node_a@, link.node_b@),
            final(self).edge_count() == old(self).edge_count() + missing_directions(old(self)@, link.node_a@, link.node_b@),
    {
        proof {
            lemma_with_link_symmetric(old(self)@, link.node_a@, link.node_b@, link.hop_cost, link.rtt_micros);
        }
        let ghost v0 = self@;
        let ia = self.ensure_node(&link.node_a);
        let ib = self.ensure_node(&link.node_b);
        let w = LinkWeight { hop_cost: link.hop_cost, rtt_micros: link.rtt_micros };
        proof {
            let names = graph_node_names(self.graph);
            assert(names[ia as int] == link.node_a@ && names[ib as int] == link.node_b@);
            lemma_has_edge_linked(names, graph_edge_list(self.graph), ia, ib);
            lemma_has_edge_linked(names, graph_edge_list(self.graph), ib, ia);
            if ia == ib {
                assert(link.node_a@ == link.node_b@);
            }
            if link.node_a@ == link.node_b@ {
                lemma_index_unique(names, ia as int, ib as int);
            }
        }
        let ghost e1 = graph_edge_list(self.graph);
        self.set_edge(ia, ib, w);
        proof {
            let names = graph_node_names(self.graph);
            lemma_has_edge_linked(names, graph_edge_list(self.graph), ib, ia);
            lemma_has_edge_linked(names, e1, ib, ia);
            if link.node_a@ != link.node_b@ {
                assert(linked(self@.links, link.node_b@, link.node_a@) == linked(v0.links, link.node_b@, link.node_a@)) by {
                    if linked(self@.links, link.node_b@, link.node_a@) {
                        let (h, r) = choose|h: u32, r: u64| #[trigger] self@.links.contains((link.node_b@, link.node_a@, h, r));
                        assert(v0.links.contains((link.node_b@, link.node_a@, h, r)));
                    }
                    if linked(v0.links, link.node_b@, link.node_a@) {
                        let (h, r) = choose|h: u32, r: u64| #[trigger] v0.links.contains((link.node_b@, link.node_a@, h, r));
                        assert(self@.links.contains((link.node_b@, link.node_a@, h, r)));
                    }
                }
            } else {
                assert(self@.links.contains((link.node_a@, link.node_b@, link.hop_cost, link.rtt_micros)));
            }
        }
        self.set_edge(ib, ia, w);
        proof {
            let a = link.node_a@;
            let b = link.node_b@;
            let h = link.hop_cost;
            let r = link.rtt_micros;
            let mine = without_link(without_link(v0.links, a, b).insert((a, b, h, r)), b, a).insert((b, a, h, r));
            let spec = without_link(without_link(v0.links, a, b), b, a).insert((a, b, h, r)).insert((b, a, h, r));
            assert(mine =~= spec);
            assert(self@ =~= v0.with_link(a, b, h, r));
        }
    }

    /// Removes the link between two nodes, in both directions.
    pub fn remove_link(&mut self, node_a: &str, node_b: &str)
        requires
            old(self).wf(),
        ensures
            final(self).wf(),
            final(self)@ == old(self)@.without_link_between(node_a@, node_b@),
            final(self).node_count() == old(self).node_count(),
            final(self).edge_count() <= old(self).edge_count(),
    {
        proof {
            lemma_without_link_between_symmetric(old(self)@, node_a@, node_b@);
        }
        let ghost v0 = self@;
        let key_a = node_a.to_owned();
        let key_b = node_b.to_owned();
        match (self.find_node(&key_a), self.find_node(&key_b)) {
            (Some(ia), Some(ib)) => {
                self.drop_edge(ia, ib);
                self.drop_edge(ib, ia);
                assert(self@ =~= v0.without_link_between(node_a@, node_b@));
            },
            _ => {
                proof {
                    let names = graph_node_names(self.graph);
                    let edges = graph_edge_list(self.graph);
                    let l = v0.links;
                    let t = without_link(without_link(l, node_a@, node_b@), node_b@, node_a@);
                    assert forall|q: NamedLink| l.contains(q) implies t.contains(q) by {
                        lemma_links_between_known_nodes(names, edges, q);
                    }
                    assert(t =~= l);
                    assert(self@ =~= v0.without_link_between(node_a@, node_b@));
                }
            },
        }
    }

    /// The index of the node named `id`, if there is one.
    fn find_node(&self, id: &String) -> (ix: Option<u32>)
        requires
            self.inv(),
        ensures
            match ix {
                Some(i) => i < graph_node_names(self.graph).len() && graph_node_names(self.graph)[i as int] == id@,
                None => !seq_elems(graph_node_names(self.graph)).contains(id@),
            },
    {
        let n = graph_node_count(&self.graph);
        let mut i: usize = 0;
        while i < n
            invariant
                n == graph_node_names(self.graph).len(),
                n <= u32::MAX,
                i <= n,
                forall|j: int| 0 <= j < i ==> graph_node_names(self.graph)[j] != id@,
            decreases n - i,
        {
            let name = graph_node_name(&self.graph, i as u32);
            if name == *id {
                return Some(i as u32);
            }
            i = i + 1;
        }
        None
    }

    /// The position of the metadata of `id`, if there is any.
    fn find_metadata(&self, id: &String) -> (pos: Option<usize>)
        ensures
            match pos {
                Some(j) => j < self.node_metadata@.len() && self.node_metadata@[j as int].node_id@ == id@,
                None => forall|j: int| 0 <= j < self.node_metadata@.len() ==> (#[trigger] self.node_metadata@[j]).node_id@ != id@,
            },
    {
        let mut j: usize = 0;
        while j < self.node_metadata.len()
            invariant
                j <= self.node_metadata@.len(),
                forall|k: int| 0 <= k < j ==> (#[trigger] self.node_metadata@[k]).node_id@ != id@,
            decreases self.node_metadata@.len() - j,
        {
            if self.node_metadata[j].node_id == *id {
                return Some(j);
            }
            j = j + 1;
        }
        None
    }
}

} // verus!
