//! The tables of the graph and what writes to them.
//!
//! Nodes are unique by id, edges by source, target and relation. Every change of nodes,
//! edges, clusters or the state of a proposed relation raises the graph's version by one.

use crate::graph::model;
use crate::graph::model::{
    AiQueueItem, GraphAiCandidate, GraphEdge, GraphNode, GraphStatus, NodeType, Relation,
};
use crate::rows;
use crate::text;
use vstd::prelude::*;

verus! {

/// The version of the tables' layout.
pub const GRAPH_SCHEMA_VERSION: u32 = 4;

/// The property that holds the version of the tables' layout.
pub const SCHEMA_MARKER: &'static str = "graph_schema_version";

/// The property that holds the version of the graph.
pub const VERSION_MARKER: &'static str = "graph_version";

/// The limits of a query where none are given.
pub const DEFAULT_MAX_NODES: u32 = 200;

pub const DEFAULT_MAX_EDGES: u32 = 400;

pub const DEFAULT_DEPTH: u32 = 2;

pub const DEFAULT_WEIGHT_MIN: u32 = 300_000;

/// A row of the table of edges.
#[derive(Debug, PartialEq, Eq)]
pub struct EdgeRow {
    pub source: String,
    pub target: String,
    pub relation: Relation,
    pub weight: u32,
    pub confidence: u32,
    /// What the edge was made from; it goes when that goes.
    pub source_id: Option<String>,
    pub created_at: i64,
    pub updated_at: i64,
}

impl Clone for EdgeRow {
    fn clone(&self) -> (r: Self)
        ensures
            r == *self,
    {
        EdgeRow {
            source: self.source.clone(),
            target: self.target.clone(),
            relation: self.relation,
            weight: self.weight,
            confidence: self.confidence,
            source_id: model::clone_opt(&self.source_id),
            created_at: self.created_at,
            updated_at: self.updated_at,
        }
    }
}

/// A row of the table of clusters.
#[derive(Debug, PartialEq, Eq)]
pub struct ClusterRow {
    pub id: String,
    pub name: String,
    pub description: Option<String>,
    pub algorithm: String,
    pub centroid: Option<String>,
    pub node_count: u32,
    pub edge_count: u32,
    pub confidence: u32,
    pub created_at: i64,
    pub updated_at: i64,
}

impl Clone for ClusterRow {
    fn clone(&self) -> (r: Self)
        ensures
            r == *self,
    {
        ClusterRow {
            id: self.id.clone(),
            name: self.name.clone(),
            description: model::clone_opt(&self.description),
            algorithm: self.algorithm.clone(),
            centroid: model::clone_opt(&self.centroid),
            node_count: self.node_count,
            edge_count: self.edge_count,
            confidence: self.confidence,
            created_at: self.created_at,
            updated_at: self.updated_at,
        }
    }
}

/// A row of the table of cluster members.
#[derive(Debug, PartialEq, Eq)]
pub struct MemberRow {
    pub cluster_id: String,
    pub node_id: String,
}

impl Clone for MemberRow {
    fn clone(&self) -> (r: Self)
        ensures
            r == *self,
    {
        MemberRow { cluster_id: self.cluster_id.clone(), node_id: self.node_id.clone() }
    }
}

/// A row of the table of favourites.
#[derive(Debug, PartialEq, Eq)]
pub struct FavoriteRow {
    pub node_id: String,
    pub created_at: i64,
}

impl Clone for FavoriteRow {
    fn clone(&self) -> (r: Self)
        ensures
            r == *self,
    {
        FavoriteRow { node_id: self.node_id.clone(), created_at: self.created_at }
    }
}

/// A row of the table of counters.
#[derive(Debug, PartialEq, Eq)]
pub struct MetricRow {
    pub key: String,
    pub value: i64,
}

/// A row of the table of properties.
#[derive(Debug, PartialEq, Eq)]
pub struct PropertyRow {
    pub key: String,
    pub value: String,
}

/// The property that holds the version of the graph: it comes with the first change, and then
/// holds a number, or what it was set to.
#[derive(Debug, PartialEq, Eq)]
pub enum VersionMark {
    Unset,
    At(u64),
    Text(String),
}

impl VersionMark {
    /// The version of the graph.
    pub open spec fn value(self) -> u64 {
        match self {
            VersionMark::Unset => 0,
            VersionMark::At(n) => n,
            VersionMark::Text(t) => match text::u64_of(t@) {
                Some(n) => n,
                None => 0,
            },
        }
    }

    /// What the property holds, where it is there.
    pub open spec fn held(self) -> Option<Seq<char>> {
        match self {
            VersionMark::Unset => None,
            VersionMark::At(n) => Some(text::nat_text(n as nat)),
            VersionMark::Text(t) => Some(t@),
        }
    }

    pub fn number(&self) -> (r: u64)
        ensures
            r == self.value(),
    {
        match self {
            VersionMark::Unset => 0,
            VersionMark::At(n) => *n,
            VersionMark::Text(t) => match text::read_u64(t) {
                Some(n) => n,
                None => 0,
            },
        }
    }

    pub fn text(&self) -> (r: Option<String>)
        ensures
            opt_view(r) == self.held(),
    {
        match self {
            VersionMark::Unset => None,
            VersionMark::At(n) => Some(text::u64_text(*n)),
            VersionMark::Text(t) => Some(t.clone()),
        }
    }
}

/// The tables of one directory's graph.
#[derive(Debug)]
pub struct GraphStore {
    pub dir_path: String,
    pub nodes: Vec<GraphNode>,
    pub edges: Vec<EdgeRow>,
    pub clusters: Vec<ClusterRow>,
    pub members: Vec<MemberRow>,
    pub candidates: Vec<GraphAiCandidate>,
    pub queue: Vec<AiQueueItem>,
    /// The number of the next item of the queue.
    pub next_item: i64,
    pub favorites: Vec<FavoriteRow>,
    pub metrics: Vec<MetricRow>,
    /// The properties other than the version of the graph.
    pub properties: Vec<PropertyRow>,
    pub version: VersionMark,
}

pub open spec fn node_key() -> spec_fn(GraphNode) -> Seq<char> {
    |n: GraphNode| n.id@
}

pub open spec fn edge_key() -> spec_fn(EdgeRow) -> (Seq<char>, Seq<char>, Relation) {
    |e: EdgeRow| (e.source@, e.target@, e.relation)
}

pub open spec fn cluster_key() -> spec_fn(ClusterRow) -> Seq<char> {
    |c: ClusterRow| c.id@
}

pub open spec fn member_key() -> spec_fn(MemberRow) -> (Seq<char>, Seq<char>) {
    |m: MemberRow| (m.cluster_id@, m.node_id@)
}

pub open spec fn candidate_key() -> spec_fn(GraphAiCandidate) -> Seq<char> {
    |c: GraphAiCandidate| c.id@
}

pub open spec fn item_key() -> spec_fn(AiQueueItem) -> i64 {
    |q: AiQueueItem| q.id
}

pub open spec fn item_doc() -> spec_fn(AiQueueItem) -> (Seq<char>, Seq<char>) {
    |q: AiQueueItem| (q.dir_path@, q.rel_path@)
}

pub open spec fn favorite_key() -> spec_fn(FavoriteRow) -> Seq<char> {
    |f: FavoriteRow| f.node_id@
}

pub open spec fn metric_key() -> spec_fn(MetricRow) -> Seq<char> {
    |m: MetricRow| m.key@
}

pub open spec fn property_key() -> spec_fn(PropertyRow) -> Seq<char> {
    |p: PropertyRow| p.key@
}

/// The index of the node with the id.
pub open spec fn node_index(nodes: Seq<GraphNode>, id: Seq<char>) -> Option<int> {
    rows::row_index(nodes, node_key(), id, 0)
}

/// The index of the edge.
pub open spec fn edge_index(
    edges: Seq<EdgeRow>,
    source: Seq<char>,
    target: Seq<char>,
    relation: Relation,
) -> Option<int> {
    rows::row_index(edges, edge_key(), (source, target, relation), 0)
}

/// A version one higher, as long as there is one.
pub open spec fn next_version(v: VersionMark) -> VersionMark {
    VersionMark::At(
        if v.value() == u64::MAX {
            u64::MAX
        } else {
            (v.value() + 1) as u64
        },
    )
}

/// A version `n` higher, as long as there is one.
pub open spec fn version_after(v: VersionMark, n: nat) -> VersionMark
    decreases n,
{
    if n == 0 {
        v
    } else {
        next_version(version_after(v, (n - 1) as nat))
    }
}

/// The row that stands for a node in the table.
pub open spec fn stored(node: GraphNode, created_at: Option<i64>) -> GraphNode {
    GraphNode { degree: None, created_at, ..node }
}

/// The nodes with one added or replaced. A node keeps the time at which it came.
pub open spec fn with_node(nodes: Seq<GraphNode>, node: GraphNode, now: i64) -> Seq<GraphNode> {
    match node_index(nodes, node.id@) {
        Some(i) => nodes.update(i, stored(node, nodes[i].created_at)),
        None => nodes.push(stored(node, Some(now))),
    }
}

pub open spec fn or_whole(o: Option<u32>) -> u32 {
    match o {
        Some(x) => x,
        None => model::WHOLE,
    }
}

/// The sum of two weights, at most a whole.
pub open spec fn merged_weight(a: u32, b: u32) -> u32 {
    if a + b < model::WHOLE {
        (a + b) as u32
    } else {
        model::WHOLE
    }
}

pub open spec fn max_u32(a: u32, b: u32) -> u32 {
    if a >= b {
        a
    } else {
        b
    }
}

/// The row for a new edge.
pub open spec fn new_edge_row(e: GraphEdge, source_id: Option<String>, now: i64) -> EdgeRow {
    EdgeRow {
        source: e.source,
        target: e.target,
        relation: e.relation,
        weight: or_whole(e.weight),
        confidence: or_whole(e.confidence),
        source_id,
        created_at: now,
        updated_at: now,
    }
}

pub open spec fn opt_view(o: Option<String>) -> Option<Seq<char>> {
    match o {
        Some(s) => Some(s@),
        None => None,
    }
}

/// The edges with one added, or strengthened where it is there: the weights are added up
/// to a whole, the higher confidence counts.
pub open spec fn with_edge(
    edges: Seq<EdgeRow>,
    e: GraphEdge,
    source_id: Option<String>,
    now: i64,
) -> Seq<EdgeRow> {
    match edge_index(edges, e.source@, e.target@, e.relation) {
        Some(i) => edges.update(
            i,
            EdgeRow {
                weight: merged_weight(edges[i].weight, or_whole(e.weight)),
                confidence: max_u32(edges[i].confidence, or_whole(e.confidence)),
                updated_at: now,
                ..edges[i]
            },
        ),
        None => edges.push(new_edge_row(e, source_id, now)),
    }
}

/// The edges with the first `n` of `more` added or strengthened, one behind the other.
pub open spec fn with_edges(
    edges: Seq<EdgeRow>,
    more: Seq<GraphEdge>,
    n: int,
    source_id: Option<String>,
    now: i64,
) -> Seq<EdgeRow>
    decreases n,
{
    if n <= 0 {
        edges
    } else {
        with_edge(with_edges(edges, more, n - 1, source_id, now), more[n - 1], source_id, now)
    }
}

/// Whether an edge begins or ends at the node.
pub open spec fn touches(e: EdgeRow, id: Seq<char>) -> bool {
    e.source@ == id || e.target@ == id
}

pub open spec fn other_node(id: Seq<char>) -> spec_fn(GraphNode) -> bool {
    |n: GraphNode| n.id@ != id
}

pub open spec fn not_touching(id: Seq<char>) -> spec_fn(EdgeRow) -> bool {
    |e: EdgeRow| !touches(e, id)
}

impl GraphStore {
    /// Keys are unique in every table; rows of nodes know when they came and no degree.
    pub open spec fn wf(&self) -> bool {
        &&& rows::unique(self.nodes@, node_key())
        &&& rows::unique(self.edges@, edge_key())
        &&& rows::unique(self.clusters@, cluster_key())
        &&& rows::unique(self.members@, member_key())
        &&& rows::unique(self.candidates@, candidate_key())
        &&& rows::unique(self.queue@, item_key())
        &&& rows::unique(self.queue@, item_doc())
        &&& rows::unique(self.favorites@, favorite_key())
        &&& rows::unique(self.metrics@, metric_key())
        &&& rows::unique(self.properties@, property_key())
        &&& property_index(self.properties@, VERSION_MARKER@) is None
        &&& forall|i: int|
            0 <= i < self.nodes@.len() ==> (#[trigger] self.nodes@[i]).degree is None
                && self.nodes@[i].created_at is Some
        &&& forall|i: int|
            0 <= i < self.queue@.len() ==> (#[trigger] self.queue@[i]).id < self.next_item
    }

    /// Empty tables. A property tells their layout.
    pub fn new(dir_path: String) -> (r: Self)
        ensures
            r.wf(),
            r.dir_path == dir_path,
            r.nodes@.len() == 0,
            r.edges@.len() == 0,
            r.clusters@.len() == 0,
            r.members@.len() == 0,
            r.candidates@.len() == 0,
            r.queue@.len() == 0,
            r.next_item == 1,
            r.favorites@.len() == 0,
            r.metrics@.len() == 0,
            r.properties@.len() == 1,
            r.properties@[0].key@ == SCHEMA_MARKER@,
            r.properties@[0].value@ == text::nat_text(GRAPH_SCHEMA_VERSION as nat),
            r.version is Unset,
    {
        let mut properties: Vec<PropertyRow> = Vec::new();
        properties.push(
            PropertyRow {
                key: SCHEMA_MARKER.to_owned(),
                value: text::u64_text(GRAPH_SCHEMA_VERSION as u64),
            },
        );
        proof {
            reveal_strlit("graph_schema_version");
            reveal_strlit("graph_version");
            assert(properties@[0].key@.len() != VERSION_MARKER@.len());
            rows::lemma_row_index(properties@, property_key(), VERSION_MARKER@, 0);
        }
        GraphStore {
            dir_path,
            nodes: Vec::new(),
            edges: Vec::new(),
            clusters: Vec::new(),
            members: Vec::new(),
            candidates: Vec::new(),
            queue: Vec::new(),
            next_item: 1,
            favorites: Vec::new(),
            metrics: Vec::new(),
            properties,
            version: VersionMark::Unset,
        }
    }

    pub fn dir_path(&self) -> (r: &str)
        ensures
            r@ == self.dir_path@,
    {
        &self.dir_path
    }

    pub fn graph_version(&self) -> (r: u64)
        ensures
            r == self.version.value(),
    {
        self.version.number()
    }

    pub(crate) fn bump_version(&mut self)
        ensures
            *final(self) == (GraphStore {
                version: next_version(old(self).version),
                ..*old(self)
            }),
    {
        self.version = VersionMark::At(self.version.number().saturating_add(1));
    }

    pub(crate) fn find_node(&self, id: &String) -> (r: Option<usize>)
        ensures
            match r {
                Some(i) => node_index(self.nodes@, id@) == Some(i as int) && i < self.nodes@.len()
                    && self.nodes@[i as int].id@ == id@,
                None => node_index(self.nodes@, id@) is None,
            },
    {
        let mut i: usize = 0;
        while i < self.nodes.len()
            invariant
                i <= self.nodes.len(),
                node_index(self.nodes@, id@) == rows::row_index(
                    self.nodes@,
                    node_key(),
                    id@,
                    i as int,
                ),
            decreases self.nodes.len() - i,
        {
            if self.nodes[i].id == *id {
                return Some(i);
            }
            i += 1;
        }
        None
    }

    pub(crate) fn find_edge(&self, source: &String, target: &String, relation: Relation) -> (r: Option<
        usize,
    >)
        ensures
            match r {
                Some(i) => edge_index(self.edges@, source@, target@, relation) == Some(i as int)
                    && i < self.edges@.len(),
                None => edge_index(self.edges@, source@, target@, relation) is None,
            },
    {
        let mut i: usize = 0;
        while i < self.edges.len()
            invariant
                i <= self.edges.len(),
                edge_index(self.edges@, source@, target@, relation) == rows::row_index(
                    self.edges@,
                    edge_key(),
                    (source@, target@, relation),
                    i as int,
                ),
            decreases self.edges.len() - i,
        {
            if self.edges[i].source == *source && self.edges[i].target == *target
                && self.edges[i].relation == relation {
                return Some(i);
            }
            i += 1;
        }
        None
    }

    /// Adds a node, or replaces the one with its id.
    pub fn upsert_node(&mut self, node: &GraphNode, now: i64)
        requires
            old(self).wf(),
        ensures
            final(self).wf(),
            final(self).nodes@ == with_node(old(self).nodes@, *node, now),
            *final(self) == (GraphStore {
                nodes: final(self).nodes,
                version: next_version(old(self).version),
                ..*old(self)
            }),
    {
        let ghost before = self.nodes@;
        let mut row = node.clone();
        row.degree = None;
        match self.find_node(&node.id) {
            Some(i) => {
                row.created_at = self.nodes[i].created_at;
                let ghost r = row;
                self.nodes.set(i, row);
                proof {
                    rows::lemma_unique_update(before, node_key(), i as int, r);
                }
            },
            None => {
                row.created_at = Some(now);
                let ghost r = row;
                self.nodes.push(row);
                proof {
                    rows::lemma_unique_push(before, node_key(), r);
                }
            },
        }
        self.bump_version();
    }

    /// Adds or replaces several nodes, one behind the other.
    pub fn upsert_nodes(&mut self, nodes: &Vec<GraphNode>, now: i64)
        requires
            old(self).wf(),
        ensures
            final(self).wf(),
            final(self).nodes@ == with_nodes(
                old(self).nodes@,
                nodes@,
                nodes@.len() as int,
                now,
            ),
            *final(self) == (GraphStore {
                nodes: final(self).nodes,
                version: version_after(old(self).version, nodes@.len()),
                ..*old(self)
            }),
    {
        let mut i: usize = 0;
        while i < nodes.len()
            invariant
                i <= nodes.len(),
                self.wf(),
                self.nodes@ == with_nodes(old(self).nodes@, nodes@, i as int, now),
                *self == (GraphStore {
                    nodes: self.nodes,
                    version: version_after(old(self).version, i as nat),
                    ..*old(self)
                }),
            decreases nodes.len() - i,
        {
            self.upsert_node(&nodes[i], now);
            i += 1;
        }
    }

    /// The node with the id.
    pub fn get_node(&self, id: &str) -> (r: Option<GraphNode>)
        ensures
            match r {
                Some(n) => node_index(self.nodes@, id@) matches Some(i) && n == self.nodes@[i]
                    && n.id@ == id@,
                None => node_index(self.nodes@, id@) is None,
            },
    {
        match self.find_node(&id.to_owned()) {
            Some(i) => Some(self.nodes[i].clone()),
            None => None,
        }
    }

    pub(crate) fn remove_node_row(&mut self, id: &String)
        requires
            old(self).wf(),
        ensures
            final(self).wf(),
            final(self).nodes@ == rows::kept(old(self).nodes@, other_node(id@)),
            *final(self) == (GraphStore { nodes: final(self).nodes, ..*old(self) }),
    {
        let ghost all = self.nodes@;
        let mut out: Vec<GraphNode> = Vec::new();
        let mut i: usize = 0;
        while i < self.nodes.len()
            invariant
                i <= self.nodes.len(),
                *self == *old(self),
                all == self.nodes@,
                out@ == rows::kept(all.take(i as int), other_node(id@)),
            decreases self.nodes.len() - i,
        {
            proof {
                assert(all.take(i + 1) == all.take(i as int).push(all[i as int]));
                rows::lemma_kept_push(all.take(i as int), all[i as int], other_node(id@));
            }
            if self.nodes[i].id != *id {
                out.push(self.nodes[i].clone());
            }
            i += 1;
        }
        proof {
            assert(all.take(i as int) == all);
            rows::lemma_unique_kept(all, node_key(), other_node(id@));
            rows::lemma_kept(all, other_node(id@));
            assert forall|k: int| 0 <= k < out@.len() implies (#[trigger] out@[k]).degree is None
                && out@[k].created_at is Some by {
                let x = choose|x: int| 0 <= x < all.len() && all[x] == out@[k];
                assert(all[x].degree is None);
            }
        }
        self.nodes = out;
    }

    pub(crate) fn remove_edges_at(&mut self, id: &String)
        requires
            old(self).wf(),
        ensures
            final(self).wf(),
            final(self).edges@ == rows::kept(old(self).edges@, not_touching(id@)),
            *final(self) == (GraphStore { edges: final(self).edges, ..*old(self) }),
    {
        let ghost all = self.edges@;
        let mut out: Vec<EdgeRow> = Vec::new();
        let mut i: usize = 0;
        while i < self.edges.len()
            invariant
                i <= self.edges.len(),
                *self == *old(self),
                all == self.edges@,
                out@ == rows::kept(all.take(i as int), not_touching(id@)),
            decreases self.edges.len() - i,
        {
            proof {
                assert(all.take(i + 1) == all.take(i as int).push(all[i as int]));
                rows::lemma_kept_push(all.take(i as int), all[i as int], not_touching(id@));
            }
            if self.edges[i].source != *id && self.edges[i].target != *id {
                out.push(self.edges[i].clone());
            }
            i += 1;
        }
        proof {
            assert(all.take(i as int) == all);
            rows::lemma_unique_kept(all, edge_key(), not_touching(id@));
        }
        self.edges = out;
    }

    /// Removes a node and every edge that begins or ends at it.
    pub fn delete_node(&mut self, id: &str)
        requires
            old(self).wf(),
        ensures
            final(self).wf(),
            final(self).nodes@ == rows::kept(old(self).nodes@, other_node(id@)),
            final(self).edges@ == rows::kept(old(self).edges@, not_touching(id@)),
            *final(self) == (GraphStore {
                nodes: final(self).nodes,
                edges: final(self).edges,
                version: next_version(old(self).version),
                ..*old(self)
            }),
    {
        let key = id.to_owned();
        self.remove_node_row(&key);
        self.remove_edges_at(&key);
        self.bump_version();
    }

    /// Adds an edge, or strengthens the one that is there.
    pub fn upsert_edge(&mut self, edge: &GraphEdge, source_id: Option<String>, now: i64)
        requires
            old(self).wf(),
        ensures
            final(self).wf(),
            final(self).edges@ == with_edge(old(self).edges@, *edge, source_id, now),
            *final(self) == (GraphStore {
                edges: final(self).edges,
                version: next_version(old(self).version),
                ..*old(self)
            }),
    {
        let ghost before = self.edges@;
        let weight: u32 = match edge.weight {
            Some(w) => w,
            None => model::WHOLE,
        };
        let confidence: u32 = match edge.confidence {
            Some(c) => c,
            None => model::WHOLE,
        };
        match self.find_edge(&edge.source, &edge.target, edge.relation) {
            Some(i) => {
                let mut row = self.edges[i].clone();
                let sum: u64 = row.weight as u64 + weight as u64;
                row.weight = if sum < model::WHOLE as u64 {
                    sum as u32
                } else {
                    model::WHOLE
                };
                if row.confidence < confidence {
                    row.confidence = confidence;
                }
                row.updated_at = now;
                let ghost r = row;
                self.edges.set(i, row);
                proof {
                    rows::lemma_unique_update(before, edge_key(), i as int, r);
                }
            },
            None => {
                let row = EdgeRow {
                    source: edge.source.clone(),
                    target: edge.target.clone(),
                    relation: edge.relation,
                    weight,
                    confidence,
                    source_id,
                    created_at: now,
                    updated_at: now,
                };
                let ghost r = row;
                self.edges.push(row);
                proof {
                    rows::lemma_unique_push(before, edge_key(), r);
                }
            },
        }
        self.bump_version();
    }

    /// Adds or strengthens several edges, one behind the other.
    pub fn upsert_edges(&mut self, edges: &Vec<GraphEdge>, source_id: Option<String>, now: i64)
        requires
            old(self).wf(),
        ensures
            final(self).wf(),
            final(self).edges@ == with_edges(
                old(self).edges@,
                edges@,
                edges@.len() as int,
                source_id,
                now,
            ),
            *final(self) == (GraphStore {
                edges: final(self).edges,
                version: version_after(old(self).version, edges@.len()),
                ..*old(self)
            }),
    {
        let mut i: usize = 0;
        while i < edges.len()
            invariant
                i <= edges.len(),
                self.wf(),
                self.edges@ == with_edges(old(self).edges@, edges@, i as int, source_id, now),
                *self == (GraphStore {
                    edges: self.edges,
                    version: version_after(old(self).version, i as nat),
                    ..*old(self)
                }),
            decreases edges.len() - i,
        {
            self.upsert_edge(&edges[i], model::clone_opt(&source_id), now);
            i += 1;
        }
    }

    fn bump_by(&mut self, n: u64)
        ensures
            *final(self) == (GraphStore {
                version: version_after(old(self).version, n as nat),
                ..*old(self)
            }),
    {
        let mut i: u64 = 0;
        while i < n
            invariant
                i <= n,
                *self == (GraphStore {
                    version: version_after(old(self).version, i as nat),
                    ..*old(self)
                }),
            decreases n - i,
        {
            self.bump_version();
            i += 1;
        }
    }

    /// Removes the nodes of the file or of everything in the directory, with their edges.
    /// Returns how many nodes went.
    pub fn delete_by_path(&mut self, path: &str) -> (n: u64)
        requires
            old(self).wf(),
        ensures
            final(self).wf(),
            ({
                let p = text::replace_char(path@, '\\', '/');
                let gone = rows::kept(old(self).nodes@, under_path(p));
                &&& final(self).nodes@ == rows::kept(old(self).nodes@, not_under_path(p))
                &&& final(self).edges@ == rows::kept(old(self).edges@, touching_none(gone))
                &&& n == gone.len()
                &&& *final(self) == (GraphStore {
                    nodes: final(self).nodes,
                    edges: final(self).edges,
                    version: version_after(old(self).version, n as nat),
                    ..*old(self)
                })
            }),
    {
        let p = text::replace_char_of(path, '\\', '/');
        let mut dir = p.clone();
        dir.push('/');
        let ghost all = self.nodes@;
        let mut gone: Vec<GraphNode> = Vec::new();
        let mut stay: Vec<GraphNode> = Vec::new();
        let mut i: usize = 0;
        while i < self.nodes.len()
            invariant
                i <= self.nodes.len(),
                *self == *old(self),
                all == self.nodes@,
                dir@ == p@.push('/'),
                gone@ == rows::kept(all.take(i as int), under_path(p@)),
                stay@ == rows::kept(all.take(i as int), not_under_path(p@)),
            decreases self.nodes.len() - i,
        {
            proof {
                assert(all.take(i + 1) == all.take(i as int).push(all[i as int]));
                rows::lemma_kept_push(all.take(i as int), all[i as int], under_path(p@));
                rows::lemma_kept_push(all.take(i as int), all[i as int], not_under_path(p@));
            }
            let inside = match &self.nodes[i].path {
                Some(q) => *q == p || text::has_prefix(q, &dir),
                None => false,
            };
            if inside {
                gone.push(self.nodes[i].clone());
            } else {
                stay.push(self.nodes[i].clone());
            }
            i += 1;
        }
        proof {
            assert(all.take(i as int) == all);
        }
        self.drop_nodes(&gone, stay, Ghost(not_under_path(p@)));
        gone.len() as u64
    }

    fn drop_nodes(
        &mut self,
        gone: &Vec<GraphNode>,
        stay: Vec<GraphNode>,
        Ghost(p): Ghost<spec_fn(GraphNode) -> bool>,
    )
        requires
            old(self).wf(),
            stay@ == rows::kept(old(self).nodes@, p),
        ensures
            final(self).wf(),
            final(self).nodes@ == stay@,
            final(self).edges@ == rows::kept(old(self).edges@, touching_none(gone@)),
            *final(self) == (GraphStore {
                nodes: final(self).nodes,
                edges: final(self).edges,
                version: version_after(old(self).version, gone@.len()),
                ..*old(self)
            }),
    {
        let ghost nodes = self.nodes@;
        let ghost all = self.edges@;
        let mut out: Vec<EdgeRow> = Vec::new();
        let mut i: usize = 0;
        while i < self.edges.len()
            invariant
                i <= self.edges.len(),
                *self == *old(self),
                all == self.edges@,
                out@ == rows::kept(all.take(i as int), touching_none(gone@)),
            decreases self.edges.len() - i,
        {
            proof {
                assert(all.take(i + 1) == all.take(i as int).push(all[i as int]));
                rows::lemma_kept_push(all.take(i as int), all[i as int], touching_none(gone@));
            }
            if !touches_any(&self.edges[i], gone) {
                out.push(self.edges[i].clone());
            }
            i += 1;
        }
        proof {
            assert(all.take(i as int) == all);
            rows::lemma_unique_kept(all, edge_key(), touching_none(gone@));
            rows::lemma_unique_kept(nodes, node_key(), p);
            rows::lemma_kept(nodes, p);
            assert forall|k: int| 0 <= k < stay@.len() implies (#[trigger] stay@[k]).degree is None
                && stay@[k].created_at is Some by {
                let x = choose|x: int| 0 <= x < nodes.len() && nodes[x] == stay@[k];
                assert(nodes[x].degree is None);
            }
        }
        self.edges = out;
        self.nodes = stay;
        self.bump_by(gone.len() as u64);
    }

    /// Removes the chunks and sections of a document, with their edges. Returns how many
    /// went.
    pub fn delete_content_nodes_for_doc(&mut self, rel_path: &str) -> (n: u64)
        requires
            old(self).wf(),
        ensures
            final(self).wf(),
            ({
                let p = text::replace_char(rel_path@, '\\', '/');
                let gone = rows::kept(old(self).nodes@, content_of(p));
                &&& final(self).nodes@ == rows::kept(old(self).nodes@, not_content_of(p))
                &&& final(self).edges@ == rows::kept(old(self).edges@, touching_none(gone))
                &&& n == gone.len()
                &&& *final(self) == (GraphStore {
                    nodes: final(self).nodes,
                    edges: final(self).edges,
                    version: version_after(old(self).version, n as nat),
                    ..*old(self)
                })
            }),
    {
        let p = text::replace_char_of(rel_path, '\\', '/');
        let ghost all = self.nodes@;
        let mut gone: Vec<GraphNode> = Vec::new();
        let mut stay: Vec<GraphNode> = Vec::new();
        let mut i: usize = 0;
        while i < self.nodes.len()
            invariant
                i <= self.nodes.len(),
                *self == *old(self),
                all == self.nodes@,
                gone@ == rows::kept(all.take(i as int), content_of(p@)),
                stay@ == rows::kept(all.take(i as int), not_content_of(p@)),
            decreases self.nodes.len() - i,
        {
            proof {
                assert(all.take(i + 1) == all.take(i as int).push(all[i as int]));
                rows::lemma_kept_push(all.take(i as int), all[i as int], content_of(p@));
                rows::lemma_kept_push(all.take(i as int), all[i as int], not_content_of(p@));
            }
            if is_content_node(&self.nodes[i], &p) {
                gone.push(self.nodes[i].clone());
            } else {
                stay.push(self.nodes[i].clone());
            }
            i += 1;
        }
        proof {
            assert(all.take(i as int) == all);
        }
        self.drop_nodes(&gone, stay, Ghost(not_content_of(p@)));
        gone.len() as u64
    }

    pub(crate) fn remove_edges_from(&mut self, source_id: &String)
        requires
            old(self).wf(),
        ensures
            final(self).wf(),
            final(self).edges@ == rows::kept(old(self).edges@, not_from(source_id@)),
            final(self).edges@.len() <= old(self).edges@.len(),
            *final(self) == (GraphStore { edges: final(self).edges, ..*old(self) }),
    {
        let ghost all = self.edges@;
        let mut out: Vec<EdgeRow> = Vec::new();
        let mut i: usize = 0;
        while i < self.edges.len()
            invariant
                i <= self.edges.len(),
                *self == *old(self),
                all == self.edges@,
                out@ == rows::kept(all.take(i as int), not_from(source_id@)),
                out@.len() <= i,
            decreases self.edges.len() - i,
        {
            proof {
                assert(all.take(i + 1) == all.take(i as int).push(all[i as int]));
                rows::lemma_kept_push(all.take(i as int), all[i as int], not_from(source_id@));
            }
            if !made_from(&self.edges[i], source_id) {
                out.push(self.edges[i].clone());
            }
            i += 1;
        }
        proof {
            assert(all.take(i as int) == all);
            rows::lemma_unique_kept(all, edge_key(), not_from(source_id@));
        }
        self.edges = out;
    }

    /// Removes the edges that were made from the source. Returns how many went.
    pub fn delete_edges_by_source(&mut self, source_id: &str) -> (n: u64)
        requires
            old(self).wf(),
        ensures
            final(self).wf(),
            final(self).edges@ == rows::kept(old(self).edges@, not_from(source_id@)),
            n == old(self).edges@.len() - final(self).edges@.len(),
            *final(self) == (GraphStore {
                edges: final(self).edges,
                version: if n > 0 {
                    next_version(old(self).version)
                } else {
                    old(self).version
                },
                ..*old(self)
            }),
    {
        let before = self.edges.len();
        self.remove_edges_from(&source_id.to_owned());
        let n: u64 = (before - self.edges.len()) as u64;
        if n > 0 {
            self.bump_version();
        }
        n
    }

    /// Removes the edges of a relation that were made from the source. Returns how many
    /// went.
    pub fn delete_edges_by_relation(&mut self, source_id: &str, relation: &str) -> (n: u64)
        requires
            old(self).wf(),
        ensures
            final(self).wf(),
            final(self).edges@ == rows::kept(
                old(self).edges@,
                not_from_by(source_id@, relation@),
            ),
            n == old(self).edges@.len() - final(self).edges@.len(),
            *final(self) == (GraphStore {
                edges: final(self).edges,
                version: if n > 0 {
                    next_version(old(self).version)
                } else {
                    old(self).version
                },
                ..*old(self)
            }),
    {
        let key = source_id.to_owned();
        let ghost all = self.edges@;
        let mut out: Vec<EdgeRow> = Vec::new();
        let mut i: usize = 0;
        while i < self.edges.len()
            invariant
                i <= self.edges.len(),
                *self == *old(self),
                all == self.edges@,
                key@ == source_id@,
                out@ == rows::kept(all.take(i as int), not_from_by(source_id@, relation@)),
                out@.len() <= i,
            decreases self.edges.len() - i,
        {
            proof {
                assert(all.take(i + 1) == all.take(i as int).push(all[i as int]));
                rows::lemma_kept_push(
                    all.take(i as int),
                    all[i as int],
                    not_from_by(source_id@, relation@),
                );
            }
            if !(made_from(&self.edges[i], &key) && text::str_eq(
                self.edges[i].relation.as_str(),
                relation,
            )) {
                out.push(self.edges[i].clone());
            }
            i += 1;
        }
        proof {
            assert(all.take(i as int) == all);
            rows::lemma_unique_kept(all, edge_key(), not_from_by(source_id@, relation@));
        }
        let n: u64 = (self.edges.len() - out.len()) as u64;
        self.edges = out;
        if n > 0 {
            self.bump_version();
        }
        n
    }

    fn add_absent(&mut self, row: EdgeRow)
        requires
            old(self).wf(),
        ensures
            final(self).wf(),
            final(self).edges@ == with_absent(old(self).edges@, row),
            *final(self) == (GraphStore { edges: final(self).edges, ..*old(self) }),
    {
        let ghost before = self.edges@;
        if self.find_edge(&row.source, &row.target, row.relation).is_none() {
            let ghost r = row;
            self.edges.push(row);
            proof {
                rows::lemma_unique_push(before, edge_key(), r);
            }
        }
    }

    /// Turns every edge of one node into an edge of another and removes the node. Where
    /// such an edge is there already, it stays as it is. Each edge raises the version by one,
    /// and so does the removal.
    pub fn merge_node_edges(&mut self, from_id: &String, to_id: &String, now: i64)
        requires
            old(self).wf(),
        ensures
            final(self).wf(),
            from_id@ == to_id@ ==> *final(self) == *old(self),
            from_id@ != to_id@ ==> {
                &&& final(self).nodes@ == rows::kept(old(self).nodes@, other_node(from_id@))
                &&& final(self).edges@ == merged_edges(old(self).edges@, *from_id, *to_id, now)
                &&& *final(self) == (GraphStore {
                    nodes: final(self).nodes,
                    edges: final(self).edges,
                    version: version_after(
                        old(self).version,
                        edges_moved(old(self).edges@, *from_id, *to_id, now) + 1,
                    ),
                    ..*old(self)
                })
            },
    {
        if *from_id == *to_id {
            return;
        }
        let ghost v0 = self.version;
        let ghost start = self.edges@;
        let n: usize = self.edges.len();
        let mut i: usize = 0;
        assert(rows::kept(start.take(0), ends_at(from_id@)).len() == 0);
        while i < n
            invariant
                i <= n,
                n == start.len(),
                self.wf(),
                start == old(self).edges@,
                self.edges@ == redirected_in(start, start, *from_id, *to_id, now, i as int),
                self.edges@.len() >= n,
                forall|k: int| 0 <= k < n ==> #[trigger] self.edges@[k] == start[k],
                v0 == old(self).version,
                *self == (GraphStore {
                    edges: self.edges,
                    version: version_after(
                        v0,
                        rows::kept(start.take(i as int), ends_at(from_id@)).len(),
                    ),
                    ..*old(self)
                }),
            decreases n - i,
        {
            assert(self.edges@[i as int] == start[i as int]);
            proof {
                assert(start.take(i + 1) =~= start.take(i as int).push(start[i as int]));
                rows::lemma_kept_push(start.take(i as int), start[i as int], ends_at(from_id@));
            }
            if self.edges[i].target == *from_id {
                let row = EdgeRow {
                    source: self.edges[i].source.clone(),
                    target: to_id.clone(),
                    relation: self.edges[i].relation,
                    weight: self.edges[i].weight,
                    confidence: self.edges[i].confidence,
                    source_id: None,
                    created_at: now,
                    updated_at: now,
                };
                self.add_absent(row);
                self.bump_version();
            }
            i += 1;
        }
        let ghost mid = self.edges@;
        let ghost ins = rows::kept(start, ends_at(from_id@)).len();
        let m: usize = self.edges.len();
        let mut j: usize = 0;
        assert(start.take(i as int) == start);
        assert(rows::kept(mid.take(0), starts_at(from_id@)).len() == 0);
        while j < m
            invariant
                j <= m,
                m == mid.len(),
                self.wf(),
                self.edges@ == redirected_out(mid, mid, *from_id, *to_id, now, j as int),
                self.edges@.len() >= m,
                forall|k: int| 0 <= k < m ==> #[trigger] self.edges@[k] == mid[k],
                *self == (GraphStore {
                    edges: self.edges,
                    version: version_after(
                        v0,
                        ins + rows::kept(mid.take(j as int), starts_at(from_id@)).len(),
                    ),
                    ..*old(self)
                }),
            decreases m - j,
        {
            assert(self.edges@[j as int] == mid[j as int]);
            proof {
                assert(mid.take(j + 1) =~= mid.take(j as int).push(mid[j as int]));
                rows::lemma_kept_push(mid.take(j as int), mid[j as int], starts_at(from_id@));
            }
            if self.edges[j].source == *from_id {
                let row = EdgeRow {
                    source: to_id.clone(),
                    target: self.edges[j].target.clone(),
                    relation: self.edges[j].relation,
                    weight: self.edges[j].weight,
                    confidence: self.edges[j].confidence,
                    source_id: None,
                    created_at: now,
                    updated_at: now,
                };
                self.add_absent(row);
                self.bump_version();
            }
            j += 1;
        }
        assert(mid.take(j as int) == mid);
        self.remove_node_row(from_id);
        self.remove_edges_at(from_id);
        self.bump_version();
    }

    /// Empties the tables of nodes, edges, clusters, proposals, queue and favourites.
    pub fn clear(&mut self)
        requires
            old(self).wf(),
        ensures
            final(self).wf(),
            final(self).nodes@.len() == 0,
            final(self).edges@.len() == 0,
            final(self).clusters@.len() == 0,
            final(self).members@.len() == 0,
            final(self).candidates@.len() == 0,
            final(self).queue@.len() == 0,
            final(self).favorites@.len() == 0,
            *final(self) == (GraphStore {
                nodes: final(self).nodes,
                edges: final(self).edges,
                clusters: final(self).clusters,
                members: final(self).members,
                candidates: final(self).candidates,
                queue: final(self).queue,
                favorites: final(self).favorites,
                version: next_version(old(self).version),
                ..*old(self)
            }),
    {
        self.nodes = Vec::new();
        self.edges = Vec::new();
        self.clusters = Vec::new();
        self.members = Vec::new();
        self.candidates = Vec::new();
        self.queue = Vec::new();
        self.favorites = Vec::new();
        self.bump_version();
    }

    /// Whether a node stands for the path.
    pub fn path_exists(&self, path: &str) -> (r: bool)
        ensures
            r == exists|i: int|
                0 <= i < self.nodes@.len() && opt_view((#[trigger] self.nodes@[i]).path) == Some(
                    text::replace_char(path@, '\\', '/'),
                ),
    {
        let p = text::replace_char_of(path, '\\', '/');
        let mut i: usize = 0;
        while i < self.nodes.len()
            invariant
                i <= self.nodes.len(),
                p@ == text::replace_char(path@, '\\', '/'),
                forall|k: int| 0 <= k < i ==> opt_view((#[trigger] self.nodes@[k]).path) != Some(p@),
            decreases self.nodes.len() - i,
        {
            if let Some(q) = &self.nodes[i].path {
                if *q == p {
                    assert(opt_view(self.nodes@[i as int].path) == Some(p@));
                    return true;
                }
            }
            i += 1;
        }
        false
    }

    /// The paths of the documents.
    pub fn list_doc_paths(&self) -> (r: Vec<String>)
        ensures
            text::texts(r@) == doc_paths(self.nodes@, self.nodes@.len() as int),
    {
        broadcast use text::lemma_texts_push;

        let mut r: Vec<String> = Vec::new();
        let mut i: usize = 0;
        assert(text::texts(r@) =~= doc_paths(self.nodes@, 0));
        while i < self.nodes.len()
            invariant
                i <= self.nodes.len(),
                text::texts(r@) == doc_paths(self.nodes@, i as int),
            decreases self.nodes.len() - i,
        {
            if let NodeType::Doc = self.nodes[i].node_type {
                if let Some(p) = &self.nodes[i].path {
                    r.push(p.clone());
                }
            }
            i += 1;
        }
        r
    }

    fn find_property(&self, key: &String) -> (r: Option<usize>)
        ensures
            match r {
                Some(i) => property_index(self.properties@, key@) == Some(i as int) && i
                    < self.properties@.len() && self.properties@[i as int].key@ == key@,
                None => property_index(self.properties@, key@) is None,
            },
    {
        let mut i: usize = 0;
        while i < self.properties.len()
            invariant
                i <= self.properties.len(),
                property_index(self.properties@, key@) == rows::row_index(
                    self.properties@,
                    property_key(),
                    key@,
                    i as int,
                ),
            decreases self.properties.len() - i,
        {
            if self.properties[i].key == *key {
                return Some(i);
            }
            i += 1;
        }
        None
    }

    /// Sets a property. The version of the graph is one of them.
    pub fn set_property(&mut self, key: String, value: String)
        requires
            old(self).wf(),
        ensures
            final(self).wf(),
            if key@ == VERSION_MARKER@ {
                *final(self) == (GraphStore { version: VersionMark::Text(value), ..*old(self) })
            } else {
                &&& final(self).properties@ == with_property(old(self).properties@, key, value)
                &&& *final(self) == (GraphStore {
                    properties: final(self).properties,
                    ..*old(self)
                })
            },
    {
        if text::str_eq(&key, VERSION_MARKER) {
            self.version = VersionMark::Text(value);
        } else {
            self.write_property(key, value);
        }
    }

    /// Sets a property other than the version.
    pub(crate) fn write_property(&mut self, key: String, value: String)
        requires
            old(self).wf(),
            key@ != VERSION_MARKER@,
        ensures
            final(self).wf(),
            final(self).properties@ == with_property(old(self).properties@, key, value),
            *final(self) == (GraphStore { properties: final(self).properties, ..*old(self) }),
    {
        let ghost before = self.properties@;
        match self.find_property(&key) {
            Some(i) => {
                let row = PropertyRow { key: self.properties[i].key.clone(), value };
                let ghost r = row;
                self.properties.set(i, row);
                proof {
                    rows::lemma_unique_update(before, property_key(), i as int, r);
                }
            },
            None => {
                let row = PropertyRow { key, value };
                let ghost r = row;
                self.properties.push(row);
                proof {
                    rows::lemma_unique_push(before, property_key(), r);
                }
            },
        }
        proof {
            rows::lemma_row_index(before, property_key(), VERSION_MARKER@, 0);
            rows::lemma_row_index(self.properties@, property_key(), VERSION_MARKER@, 0);
        }
    }

    /// What a property holds, where it is there.
    pub fn get_property(&self, key: &str) -> (r: Option<String>)
        ensures
            opt_view(r) == property_of(*self, key@),
    {
        if text::str_eq(key, VERSION_MARKER) {
            return self.version.text();
        }
        match self.find_property(&key.to_owned()) {
            Some(i) => Some(self.properties[i].value.clone()),
            None => None,
        }
    }

    /// The keys that begin with the prefix.
    pub fn list_properties_with_prefix(&self, prefix: &str) -> (r: Vec<String>)
        ensures
            text::texts(r@) == all_keys_with_prefix(*self, prefix@),
    {
        broadcast use text::lemma_texts_push;

        let mut r: Vec<String> = Vec::new();
        let mut i: usize = 0;
        assert(text::texts(r@) =~= keys_with_prefix(self.properties@, prefix@, 0));
        while i < self.properties.len()
            invariant
                i <= self.properties.len(),
                text::texts(r@) == keys_with_prefix(self.properties@, prefix@, i as int),
            decreases self.properties.len() - i,
        {
            if text::has_prefix(&self.properties[i].key, prefix) {
                r.push(self.properties[i].key.clone());
            }
            i += 1;
        }
        match &self.version {
            VersionMark::Unset => {},
            _ => {
                if text::has_prefix(VERSION_MARKER, prefix) {
                    r.push(VERSION_MARKER.to_owned());
                }
            },
        }
        r
    }

    /// How clusters are made: as the property says, else by directories.
    pub fn cluster_mode(&self) -> (r: String)
        ensures
            r@ == mode_of(self.properties@),
    {
        proof {
            reveal_strlit("graph_cluster_mode");
            reveal_strlit("graph_version");
            assert(VERSION_MARKER@.len() != "graph_cluster_mode"@.len());
        }
        match self.get_property("graph_cluster_mode") {
            Some(m) => m,
            None => "directory".to_owned(),
        }
    }

    pub fn status(&self) -> (r: GraphStatus)
        ensures
            r.schema_version == GRAPH_SCHEMA_VERSION,
            r.node_count == self.nodes@.len(),
            r.edge_count == self.edges@.len(),
            !r.building,
            r.progress_pct is None,
            r.graph_version == self.version.value(),
            r.cluster_count == self.clusters@.len(),
            r.cluster_mode@ == mode_of(self.properties@),
    {
        GraphStatus {
            schema_version: GRAPH_SCHEMA_VERSION,
            node_count: self.nodes.len() as u64,
            edge_count: self.edges.len() as u64,
            building: false,
            progress_pct: None,
            graph_version: self.version.number(),
            cluster_count: self.clusters.len() as u64,
            cluster_mode: self.cluster_mode(),
        }
    }
}

pub open spec fn property_index(ps: Seq<PropertyRow>, key: Seq<char>) -> Option<int> {
    rows::row_index(ps, property_key(), key, 0)
}

pub open spec fn with_property(ps: Seq<PropertyRow>, key: String, value: String) -> Seq<
    PropertyRow,
> {
    match property_index(ps, key@) {
        Some(i) => ps.update(i, PropertyRow { key: ps[i].key, value }),
        None => ps.push(PropertyRow { key, value }),
    }
}

/// What a property holds, the version of the graph among them.
pub open spec fn property_of(s: GraphStore, key: Seq<char>) -> Option<Seq<char>> {
    if key == VERSION_MARKER@ {
        s.version.held()
    } else {
        match property_index(s.properties@, key) {
            Some(i) => Some(s.properties@[i].value@),
            None => None,
        }
    }
}

/// The keys of all properties that begin with the prefix.
pub open spec fn all_keys_with_prefix(s: GraphStore, prefix: Seq<char>) -> Seq<Seq<char>> {
    let keys = keys_with_prefix(s.properties@, prefix, s.properties@.len() as int);
    if s.version.held() is Some && text::starts_with(VERSION_MARKER@, prefix) {
        keys.push(VERSION_MARKER@)
    } else {
        keys
    }
}

pub open spec fn keys_with_prefix(ps: Seq<PropertyRow>, prefix: Seq<char>, n: int) -> Seq<Seq<char>>
    decreases n,
{
    if n <= 0 {
        Seq::empty()
    } else {
        let before = keys_with_prefix(ps, prefix, n - 1);
        if text::starts_with(ps[n - 1].key@, prefix) {
            before.push(ps[n - 1].key@)
        } else {
            before
        }
    }
}

pub open spec fn mode_of(ps: Seq<PropertyRow>) -> Seq<char> {
    match property_index(ps, "graph_cluster_mode"@) {
        Some(i) => ps[i].value@,
        None => "directory"@,
    }
}

/// The paths of the documents among the first `n` nodes.
pub open spec fn doc_paths(nodes: Seq<GraphNode>, n: int) -> Seq<Seq<char>>
    decreases n,
{
    if n <= 0 {
        Seq::empty()
    } else {
        let before = doc_paths(nodes, n - 1);
        match nodes[n - 1].path {
            Some(p) => if nodes[n - 1].node_type == NodeType::Doc {
                before.push(p@)
            } else {
                before
            },
            None => before,
        }
    }
}

/// Whether a path is `p` or lies below it.
pub open spec fn is_under(path: Option<String>, p: Seq<char>) -> bool {
    path matches Some(q) && (q@ == p || text::starts_with(q@, p.push('/')))
}

pub open spec fn under_path(p: Seq<char>) -> spec_fn(GraphNode) -> bool {
    |n: GraphNode| is_under(n.path, p)
}

pub open spec fn not_under_path(p: Seq<char>) -> spec_fn(GraphNode) -> bool {
    |n: GraphNode| !is_under(n.path, p)
}

/// Whether a node is a chunk or a section of the document.
pub open spec fn is_content(n: GraphNode, p: Seq<char>) -> bool {
    opt_view(n.path) == Some(p) && (n.node_type == NodeType::Chunk || n.node_type
        == NodeType::Section)
}

pub open spec fn content_of(p: Seq<char>) -> spec_fn(GraphNode) -> bool {
    |n: GraphNode| is_content(n, p)
}

pub open spec fn not_content_of(p: Seq<char>) -> spec_fn(GraphNode) -> bool {
    |n: GraphNode| !is_content(n, p)
}

pub(crate) fn is_content_node(n: &GraphNode, p: &String) -> (r: bool)
    ensures
        r == is_content(*n, p@),
{
    let kind = match n.node_type {
        NodeType::Chunk => true,
        NodeType::Section => true,
        _ => false,
    };
    match &n.path {
        Some(q) => kind && *q == *p,
        None => false,
    }
}

/// Whether the edge begins or ends at one of the nodes.
pub open spec fn touches_one(e: EdgeRow, nodes: Seq<GraphNode>) -> bool {
    exists|i: int| 0 <= i < nodes.len() && touches(e, (#[trigger] nodes[i]).id@)
}

pub open spec fn touching_none(nodes: Seq<GraphNode>) -> spec_fn(EdgeRow) -> bool {
    |e: EdgeRow| !touches_one(e, nodes)
}

fn touches_any(e: &EdgeRow, nodes: &Vec<GraphNode>) -> (r: bool)
    ensures
        r == touches_one(*e, nodes@),
{
    let mut i: usize = 0;
    while i < nodes.len()
        invariant
            i <= nodes.len(),
            forall|k: int| 0 <= k < i ==> !touches(*e, (#[trigger] nodes@[k]).id@),
        decreases nodes.len() - i,
    {
        if e.source == nodes[i].id || e.target == nodes[i].id {
            assert(touches(*e, nodes@[i as int].id@));
            return true;
        }
        i += 1;
    }
    false
}

pub open spec fn not_from(source_id: Seq<char>) -> spec_fn(EdgeRow) -> bool {
    |e: EdgeRow| opt_view(e.source_id) != Some(source_id)
}

pub open spec fn not_from_by(source_id: Seq<char>, relation: Seq<char>) -> spec_fn(EdgeRow) -> bool {
    |e: EdgeRow| !(opt_view(e.source_id) == Some(source_id) && e.relation.name() == relation)
}

fn made_from(e: &EdgeRow, source_id: &String) -> (r: bool)
    ensures
        r == (opt_view(e.source_id) == Some(source_id@)),
{
    match &e.source_id {
        Some(s) => *s == *source_id,
        None => false,
    }
}

/// The edges with the row, unless such an edge is there.
pub open spec fn with_absent(edges: Seq<EdgeRow>, row: EdgeRow) -> Seq<EdgeRow> {
    match edge_index(edges, row.source@, row.target@, row.relation) {
        Some(_) => edges,
        None => edges.push(row),
    }
}

/// The edges with those of the first `n` of `seen` that end at `from` also ending at `to`.
pub open spec fn redirected_in(
    edges: Seq<EdgeRow>,
    seen: Seq<EdgeRow>,
    from: String,
    to: String,
    now: i64,
    n: int,
) -> Seq<EdgeRow>
    decreases n,
{
    if n <= 0 {
        edges
    } else {
        let before = redirected_in(edges, seen, from, to, now, n - 1);
        let e = seen[n - 1];
        if e.target@ == from@ {
            with_absent(
                before,
                EdgeRow { target: to, source_id: None, created_at: now, updated_at: now, ..e },
            )
        } else {
            before
        }
    }
}

/// The edges with those of the first `n` of `seen` that begin at `from` also beginning at
/// `to`.
pub open spec fn redirected_out(
    edges: Seq<EdgeRow>,
    seen: Seq<EdgeRow>,
    from: String,
    to: String,
    now: i64,
    n: int,
) -> Seq<EdgeRow>
    decreases n,
{
    if n <= 0 {
        edges
    } else {
        let before = redirected_out(edges, seen, from, to, now, n - 1);
        let e = seen[n - 1];
        if e.source@ == from@ {
            with_absent(
                before,
                EdgeRow { source: to, source_id: None, created_at: now, updated_at: now, ..e },
            )
        } else {
            before
        }
    }
}

pub open spec fn ends_at(id: Seq<char>) -> spec_fn(EdgeRow) -> bool {
    |e: EdgeRow| e.target@ == id
}

pub open spec fn starts_at(id: Seq<char>) -> spec_fn(EdgeRow) -> bool {
    |e: EdgeRow| e.source@ == id
}

/// How many edges are moved when `from` is merged into `to`.
pub open spec fn edges_moved(edges: Seq<EdgeRow>, from: String, to: String, now: i64) -> nat {
    let ins = redirected_in(edges, edges, from, to, now, edges.len() as int);
    rows::kept(edges, ends_at(from@)).len() + rows::kept(ins, starts_at(from@)).len()
}

/// The edges when `from` has been merged into `to`: those that end at `from` also end at
/// `to`, then those that begin at `from` also begin at `to`, and those of `from` go.
pub open spec fn merged_edges(edges: Seq<EdgeRow>, from: String, to: String, now: i64) -> Seq<
    EdgeRow,
> {
    let ins = redirected_in(edges, edges, from, to, now, edges.len() as int);
    let outs = redirected_out(ins, ins, from, to, now, ins.len() as int);
    rows::kept(outs, not_touching(from@))
}

/// The nodes with the first `n` of `more` added or replaced, one behind the other.
pub open spec fn with_nodes(
    nodes: Seq<GraphNode>,
    more: Seq<GraphNode>,
    n: int,
    now: i64,
) -> Seq<GraphNode>
    decreases n,
{
    if n <= 0 {
        nodes
    } else {
        with_node(with_nodes(nodes, more, n - 1, now), more[n - 1], now)
    }
}

/// When a node is removed, no node has its id and no edge begins or ends at it; every
/// other node and edge stays.
pub proof fn law_removal_leaves_nothing_dangling(store: GraphStore, id: Seq<char>)
    ensures
        ({
            let nodes = rows::kept(store.nodes@, other_node(id));
            let edges = rows::kept(store.edges@, not_touching(id));
            &&& node_index(nodes, id) is None
            &&& forall|i: int| 0 <= i < edges.len() ==> !touches(#[trigger] edges[i], id)
            &&& forall|i: int|
                0 <= i < store.nodes@.len() && (#[trigger] store.nodes@[i]).id@ != id
                    ==> nodes.contains(store.nodes@[i])
            &&& forall|i: int|
                0 <= i < store.edges@.len() && !touches(#[trigger] store.edges@[i], id)
                    ==> edges.contains(store.edges@[i])
        }),
{
    let nodes = rows::kept(store.nodes@, other_node(id));
    let edges = rows::kept(store.edges@, not_touching(id));
    rows::lemma_kept(store.nodes@, other_node(id));
    rows::lemma_kept(store.edges@, not_touching(id));
    rows::lemma_row_index(nodes, node_key(), id, 0);
    if let Some(x) = node_index(nodes, id) {
        assert(other_node(id)(nodes[x]));
    }
    assert forall|i: int| 0 <= i < edges.len() implies !touches(#[trigger] edges[i], id) by {
        assert(not_touching(id)(edges[i]));
    }
    assert forall|i: int|
        0 <= i < store.nodes@.len() && (#[trigger] store.nodes@[i]).id@ != id implies nodes.contains(
        store.nodes@[i],
    ) by {
        assert(other_node(id)(store.nodes@[i]));
    }
    assert forall|i: int|
        0 <= i < store.edges@.len() && !touches(#[trigger] store.edges@[i], id) implies edges.contains(
        store.edges@[i],
    ) by {
        assert(not_touching(id)(store.edges@[i]));
    }
}

/// A node that was written is the one that is read back, but for its degree and the time
/// at which it came.
pub proof fn law_written_node_is_read_back(nodes: Seq<GraphNode>, node: GraphNode, now: i64)
    requires
        rows::unique(nodes, node_key()),
    ensures
        ({
            let after = with_node(nodes, node, now);
            node_index(after, node.id@) matches Some(i) && after[i] == stored(
                node,
                after[i].created_at,
            ) && after[i].created_at == (match node_index(nodes, node.id@) {
                Some(k) => nodes[k].created_at,
                None => Some(now),
            })
        }),
{
    let after = with_node(nodes, node, now);
    rows::lemma_row_index(nodes, node_key(), node.id@, 0);
    match node_index(nodes, node.id@) {
        Some(i) => {
            rows::lemma_unique_update(nodes, node_key(), i, stored(node, nodes[i].created_at));
            rows::lemma_row_index_at(after, node_key(), i);
        },
        None => {
            rows::lemma_unique_push(nodes, node_key(), stored(node, Some(now)));
            rows::lemma_row_index_at(after, node_key(), nodes.len() as int);
        },
    }
}

/// Writing a node again changes nothing.
pub proof fn law_writing_a_node_twice_is_writing_it_once(
    nodes: Seq<GraphNode>,
    node: GraphNode,
    now: i64,
    later: i64,
)
    requires
        rows::unique(nodes, node_key()),
    ensures
        with_node(with_node(nodes, node, now), node, later) == with_node(nodes, node, now),
{
    law_written_node_is_read_back(nodes, node, now);
    let after = with_node(nodes, node, now);
    let i = node_index(after, node.id@)->0;
    rows::lemma_row_index(after, node_key(), node.id@, 0);
    assert(after.update(i, stored(node, after[i].created_at)) =~= after);
}

/// Writing an edge never makes a second edge of the same source, target and relation.
pub proof fn law_edges_stay_unique(
    edges: Seq<EdgeRow>,
    e: GraphEdge,
    source_id: Option<String>,
    now: i64,
)
    requires
        rows::unique(edges, edge_key()),
    ensures
        rows::unique(with_edge(edges, e, source_id, now), edge_key()),
        edge_index(with_edge(edges, e, source_id, now), e.source@, e.target@, e.relation) is Some,
        edge_index(edges, e.source@, e.target@, e.relation) is Some ==> with_edge(
            edges,
            e,
            source_id,
            now,
        ).len() == edges.len(),
{
    rows::lemma_row_index(edges, edge_key(), (e.source@, e.target@, e.relation), 0);
    let after = with_edge(edges, e, source_id, now);
    match edge_index(edges, e.source@, e.target@, e.relation) {
        Some(i) => {
            rows::lemma_unique_update(edges, edge_key(), i, after[i]);
            rows::lemma_row_index_at(after, edge_key(), i);
            assert(edge_key()(after[i]) == (e.source@, e.target@, e.relation));
        },
        None => {
            rows::lemma_unique_push(edges, edge_key(), new_edge_row(e, source_id, now));
            rows::lemma_row_index_at(after, edge_key(), edges.len() as int);
            assert(edge_key()(after[edges.len() as int]) == (e.source@, e.target@, e.relation));
        },
    }
}

proof fn lemma_absent_keeps(edges: Seq<EdgeRow>, row: EdgeRow)
    ensures
        with_absent(edges, row).len() >= edges.len(),
        forall|k: int| 0 <= k < edges.len() ==> #[trigger] with_absent(edges, row)[k] == edges[k],
        exists|k: int|
            0 <= k < with_absent(edges, row).len() && edge_key()(#[trigger] with_absent(edges, row)[k])
                == edge_key()(row),
{
    rows::lemma_row_index(edges, edge_key(), edge_key()(row), 0);
    let after = with_absent(edges, row);
    match edge_index(edges, row.source@, row.target@, row.relation) {
        Some(i) => {
            assert(edge_key()(after[i]) == edge_key()(row));
        },
        None => {
            assert(after[edges.len() as int] == row);
            assert(edge_key()(after[edges.len() as int]) == edge_key()(row));
        },
    }
}

proof fn lemma_redirected_in(
    edges: Seq<EdgeRow>,
    seen: Seq<EdgeRow>,
    from: String,
    to: String,
    now: i64,
    n: int,
    x: int,
)
    requires
        0 <= n <= seen.len(),
    ensures
        ({
            let after = redirected_in(edges, seen, from, to, now, n);
            &&& after.len() >= edges.len()
            &&& forall|k: int| 0 <= k < edges.len() ==> #[trigger] after[k] == edges[k]
            &&& 0 <= x < n && seen[x].target@ == from@ ==> exists|k: int|
                0 <= k < after.len() && edge_key()(#[trigger] after[k]) == (
                    seen[x].source@,
                    to@,
                    seen[x].relation,
                )
        }),
    decreases n,
{
    if n > 0 {
        lemma_redirected_in(edges, seen, from, to, now, n - 1, x);
        let before = redirected_in(edges, seen, from, to, now, n - 1);
        let e = seen[n - 1];
        let after = redirected_in(edges, seen, from, to, now, n);
        if e.target@ == from@ {
            let row = EdgeRow { target: to, source_id: None, created_at: now, updated_at: now, ..e };
            lemma_absent_keeps(before, row);
            assert(after == with_absent(before, row));
            if x < n - 1 && 0 <= x && seen[x].target@ == from@ {
                let k = choose|k: int|
                    0 <= k < before.len() && edge_key()(#[trigger] before[k]) == (
                        seen[x].source@,
                        to@,
                        seen[x].relation,
                    );
                assert(after[k] == before[k]);
            }
        }
    }
}

proof fn lemma_redirected_out(
    edges: Seq<EdgeRow>,
    seen: Seq<EdgeRow>,
    from: String,
    to: String,
    now: i64,
    n: int,
    x: int,
)
    requires
        0 <= n <= seen.len(),
    ensures
        ({
            let after = redirected_out(edges, seen, from, to, now, n);
            &&& after.len() >= edges.len()
            &&& forall|k: int| 0 <= k < edges.len() ==> #[trigger] after[k] == edges[k]
            &&& 0 <= x < n && seen[x].source@ == from@ ==> exists|k: int|
                0 <= k < after.len() && edge_key()(#[trigger] after[k]) == (
                    to@,
                    seen[x].target@,
                    seen[x].relation,
                )
        }),
    decreases n,
{
    if n > 0 {
        lemma_redirected_out(edges, seen, from, to, now, n - 1, x);
        let before = redirected_out(edges, seen, from, to, now, n - 1);
        let e = seen[n - 1];
        let after = redirected_out(edges, seen, from, to, now, n);
        if e.source@ == from@ {
            let row = EdgeRow { source: to, source_id: None, created_at: now, updated_at: now, ..e };
            lemma_absent_keeps(before, row);
            assert(after == with_absent(before, row));
            if x < n - 1 && 0 <= x && seen[x].source@ == from@ {
                let k = choose|k: int|
                    0 <= k < before.len() && edge_key()(#[trigger] before[k]) == (
                        to@,
                        seen[x].target@,
                        seen[x].relation,
                    );
                assert(after[k] == before[k]);
            }
        }
    }
}

/// Merging a node into another leaves no edge at the first, and what was connected to the
/// first is connected to the second by the same relation. Edges of other nodes stay as
/// they were.
pub proof fn law_merge_moves_every_edge(
    edges: Seq<EdgeRow>,
    from: String,
    to: String,
    now: i64,
    x: int,
)
    requires
        from@ != to@,
        0 <= x < edges.len(),
    ensures
        ({
            let after = merged_edges(edges, from, to, now);
            &&& forall|k: int| 0 <= k < after.len() ==> !touches(#[trigger] after[k], from@)
            &&& edges[x].target@ == from@ && edges[x].source@ != from@ ==> exists|k: int|
                0 <= k < after.len() && edge_key()(#[trigger] after[k]) == (
                    edges[x].source@,
                    to@,
                    edges[x].relation,
                )
            &&& edges[x].source@ == from@ && edges[x].target@ != from@ ==> exists|k: int|
                0 <= k < after.len() && edge_key()(#[trigger] after[k]) == (
                    to@,
                    edges[x].target@,
                    edges[x].relation,
                )
            &&& !touches(edges[x], from@) ==> after.contains(edges[x])
        }),
{
    let ins = redirected_in(edges, edges, from, to, now, edges.len() as int);
    let outs = redirected_out(ins, ins, from, to, now, ins.len() as int);
    let after = merged_edges(edges, from, to, now);
    lemma_redirected_in(edges, edges, from, to, now, edges.len() as int, x);
    lemma_redirected_out(ins, ins, from, to, now, ins.len() as int, x);
    rows::lemma_kept(outs, not_touching(from@));
    assert forall|k: int| 0 <= k < after.len() implies !touches(#[trigger] after[k], from@) by {
        assert(not_touching(from@)(after[k]));
    }
    assert(ins[x] == edges[x]);
    assert(outs[x] == edges[x]);
    if edges[x].target@ == from@ && edges[x].source@ != from@ {
        let k = choose|k: int|
            0 <= k < ins.len() && edge_key()(#[trigger] ins[k]) == (
                edges[x].source@,
                to@,
                edges[x].relation,
            );
        assert(outs[k] == ins[k]);
        assert(not_touching(from@)(outs[k]));
        let j = choose|j: int| 0 <= j < after.len() && after[j] == outs[k];
        assert(edge_key()(after[j]) == (edges[x].source@, to@, edges[x].relation));
    }
    if edges[x].source@ == from@ && edges[x].target@ != from@ {
        let k = choose|k: int|
            0 <= k < outs.len() && edge_key()(#[trigger] outs[k]) == (
                to@,
                edges[x].target@,
                edges[x].relation,
            );
        assert(not_touching(from@)(outs[k]));
        let j = choose|j: int| 0 <= j < after.len() && after[j] == outs[k];
        assert(edge_key()(after[j]) == (to@, edges[x].target@, edges[x].relation));
    }
    if !touches(edges[x], from@) {
        assert(not_touching(from@)(outs[x]));
    }
}

/// Whether everything but counters and properties went, whatever nodes and edges came since.
pub open spec fn is_cleared(a: GraphStore, b: GraphStore) -> bool {
    &&& b.clusters@.len() == 0
    &&& b.members@.len() == 0
    &&& b.candidates@.len() == 0
    &&& b.queue@.len() == 0
    &&& b.favorites@.len() == 0
    &&& b == (GraphStore {
        nodes: b.nodes,
        edges: b.edges,
        clusters: b.clusters,
        members: b.members,
        candidates: b.candidates,
        queue: b.queue,
        favorites: b.favorites,
        version: b.version,
        ..a
    })
}

/// Whether the nodes at and below the path went, with their edges, and nothing else.
pub open spec fn is_without_path(a: GraphStore, b: GraphStore, p: Seq<char>) -> bool {
    let gone = rows::kept(a.nodes@, under_path(p));
    &&& b.nodes@ == rows::kept(a.nodes@, not_under_path(p))
    &&& b.edges@ == rows::kept(a.edges@, touching_none(gone))
    &&& b == (GraphStore {
        nodes: b.nodes,
        edges: b.edges,
        version: version_after(a.version, gone.len()),
        ..a
    })
}

} // verus!
