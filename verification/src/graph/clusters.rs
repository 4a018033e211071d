//! Clusters of nodes and their members.
//!
//! A cluster stands for a directory at the top of the tree, or for a topic. Its members are
//! listed; where they are not, they follow from the paths of the nodes, and a node without a
//! path goes where its neighbours are.

use crate::graph::lists;
use crate::graph::model;
use crate::graph::model::{GraphCluster, GraphEdge, GraphNode};
use crate::graph::path;
use crate::graph::query;
use crate::graph::store;
use crate::graph::store::{ClusterRow, EdgeRow, GraphStore, MemberRow};
use crate::rows;
use crate::text;
use crate::text::CharClass;
use vstd::prelude::*;

verus! {

/// The cluster of the files at the top of the tree.
pub const ROOT_CLUSTER_ID: &'static str = "cluster:__root__";

/// The cluster of what belongs nowhere.
pub const GLOBAL_CLUSTER_ID: &'static str = "cluster:__global__";

/// How many edges are looked at for those within a cluster.
pub const CLUSTER_EDGE_LIMIT: u32 = 20_000;

/// How many nodes are looked at for the cluster that each belongs to.
pub const CLUSTER_NODE_LIMIT: u32 = 500_000;

/// The cluster of a path: that of its directory at the top of the tree.
pub open spec fn cluster_of_path(path: Seq<char>) -> Seq<char> {
    let norm = text::replace_char(path, '\\', '/');
    match text::index_from(norm, text::only('/'), 0) {
        Some(i) => if i > 0 {
            "cluster:"@ + norm.take(i)
        } else {
            ROOT_CLUSTER_ID@
        },
        None => ROOT_CLUSTER_ID@,
    }
}

pub fn cluster_id_for_path(path: &str) -> (r: String)
    ensures
        r@ == cluster_of_path(path@),
{
    let norm = text::replace_char_of(path, '\\', '/');
    let cs = text::chars_of(&norm);
    match text::index_at(&cs, &CharClass::Only('/'), 0) {
        Some(i) => if i > 0 {
            let mut r = "cluster:".to_owned();
            let top = text::slice_text(&cs, 0, i);
            assert(top@ =~= norm@.take(i as int));
            r.push_str(&top);
            r
        } else {
            ROOT_CLUSTER_ID.to_owned()
        },
        None => ROOT_CLUSTER_ID.to_owned(),
    }
}

/// The part of a cluster's id behind the prefix.
pub open spec fn top_of(id: Seq<char>) -> Seq<char> {
    match text::strip_prefix(id, "cluster:"@) {
        Some(t) => t,
        None => id,
    }
}

/// The name under which a cluster is shown.
pub open spec fn display_name(id: Seq<char>) -> Seq<char> {
    let top = top_of(id);
    if top == "__root__"@ {
        "根目录"@
    } else if top == "__global__"@ {
        "全局（未归类）"@
    } else {
        top
    }
}

fn cluster_top(id: &str) -> (r: String)
    ensures
        r@ == top_of(id@),
{
    match text::strip_prefix_of(id, "cluster:") {
        Some(t) => t,
        None => id.to_owned(),
    }
}

pub fn cluster_display_name(id: &str) -> (r: String)
    ensures
        r@ == display_name(id@),
{
    let top = cluster_top(id);
    if text::str_eq(&top, "__root__") {
        "根目录".to_owned()
    } else if text::str_eq(&top, "__global__") {
        "全局（未归类）".to_owned()
    } else {
        top
    }
}

/// Whether a cluster is what the row says, with nothing attached.
pub open spec fn is_cluster_of(c: GraphCluster, row: ClusterRow) -> bool {
    same_cluster(c, row) && c.links@.len() == 0 && c.top_files@.len() == 0
}

pub open spec fn same_cluster(c: GraphCluster, row: ClusterRow) -> bool {
    &&& c.id == row.id
    &&& c.name == row.name
    &&& c.description == row.description
    &&& c.algorithm == row.algorithm
    &&& c.centroid == row.centroid
    &&& c.node_count == row.node_count
    &&& c.edge_count == row.edge_count
    &&& c.confidence == row.confidence
    &&& c.created_at == row.created_at
    &&& c.updated_at == row.updated_at
}

pub open spec fn row_of(c: GraphCluster) -> ClusterRow {
    ClusterRow {
        id: c.id,
        name: c.name,
        description: c.description,
        algorithm: c.algorithm,
        centroid: c.centroid,
        node_count: c.node_count,
        edge_count: c.edge_count,
        confidence: c.confidence,
        created_at: c.created_at,
        updated_at: c.updated_at,
    }
}

pub open spec fn rows_of(cs: Seq<GraphCluster>) -> Seq<ClusterRow> {
    Seq::new(cs.len(), |i: int| row_of(cs[i]))
}

/// The number of clusters before the first one whose id was there.
pub open spec fn unique_prefix(cs: Seq<ClusterRow>, n: int) -> int
    decreases cs.len() - n,
{
    if n >= cs.len() || rows::row_index(cs.take(n), store::cluster_key(), cs[n].id@, 0) is Some {
        n
    } else {
        unique_prefix(cs, n + 1)
    }
}

pub open spec fn cluster_index(cs: Seq<ClusterRow>, id: Seq<char>) -> Option<int> {
    rows::row_index(cs, store::cluster_key(), id, 0)
}

pub open spec fn size_keys(cs: Seq<ClusterRow>) -> Seq<Seq<int>> {
    Seq::new(cs.len(), |i: int| seq![-(cs[i].node_count as int)])
}

/// The clusters, the larger ones first.
pub open spec fn largest(cs: Seq<ClusterRow>, limit: u32) -> Seq<ClusterRow> {
    rows::limited(rows::rows_at(cs, rows::order_of(size_keys(cs))), limit as nat)
}

pub open spec fn not_in_cluster(id: Seq<char>) -> spec_fn(MemberRow) -> bool {
    |m: MemberRow| m.cluster_id@ != id
}

pub open spec fn in_cluster(id: Seq<char>) -> spec_fn(MemberRow) -> bool {
    |m: MemberRow| m.cluster_id@ == id
}

pub open spec fn with_member(ms: Seq<MemberRow>, cluster_id: String, node_id: String) -> Seq<MemberRow> {
    match rows::row_index(ms, store::member_key(), (cluster_id@, node_id@), 0) {
        Some(_) => ms,
        None => ms.push(MemberRow { cluster_id, node_id }),
    }
}

/// The members with the first `n` nodes added to the cluster.
pub open spec fn with_members(
    ms: Seq<MemberRow>,
    cluster_id: String,
    ids: Seq<String>,
    n: int,
) -> Seq<MemberRow>
    decreases n,
{
    if n <= 0 {
        ms
    } else {
        with_member(with_members(ms, cluster_id, ids, n - 1), cluster_id, ids[n - 1])
    }
}

/// The ids of the members of a cluster.
pub open spec fn member_ids(ms: Seq<MemberRow>, id: Seq<char>) -> Seq<Seq<char>> {
    let hits = rows::kept(ms, in_cluster(id));
    Seq::new(hits.len(), |i: int| hits[i].node_id@)
}

/// Whether a node's path puts it into the cluster: a file at the top of the tree into the
/// root's, else the directory itself and what is below it.
pub open spec fn path_in_cluster(n: GraphNode, cluster_id: Seq<char>) -> bool {
    match n.path {
        Some(p) => if top_of(cluster_id) == "__root__"@ {
            !p@.contains('/')
        } else {
            let top = text::replace_char(top_of(cluster_id), '\\', '/');
            p@ == top_of(cluster_id) || text::starts_with(p@, top + seq!['/'])
        },
        None => false,
    }
}

/// The ids of the first `n` nodes that their path puts into the cluster.
pub open spec fn ids_by_path(nodes: Seq<GraphNode>, cluster_id: Seq<char>, n: int) -> Seq<Seq<char>>
    decreases n,
{
    if n <= 0 {
        Seq::empty()
    } else {
        let before = ids_by_path(nodes, cluster_id, n - 1);
        if path_in_cluster(nodes[n - 1], cluster_id) {
            before.push(nodes[n - 1].id@)
        } else {
            before
        }
    }
}

/// Where the first `n` edges lead from the node, one entry for each end.
pub open spec fn neighbor_ends(edges: Seq<EdgeRow>, id: Seq<char>, n: int) -> Seq<Seq<char>>
    decreases n,
{
    if n <= 0 {
        Seq::empty()
    } else {
        let before = neighbor_ends(edges, id, n - 1);
        let out = if edges[n - 1].source@ == id {
            before.push(edges[n - 1].target@)
        } else {
            before
        };
        if edges[n - 1].target@ == id {
            out.push(edges[n - 1].source@)
        } else {
            out
        }
    }
}

/// The cluster that a node's path puts it into.
pub open spec fn path_cluster(nodes: Seq<GraphNode>, id: Seq<char>) -> Option<Seq<char>> {
    match store::node_index(nodes, id) {
        Some(i) => match nodes[i].path {
            Some(p) => Some(cluster_of_path(p@)),
            None => None,
        },
        None => None,
    }
}

/// How many of the first `n` ends are members.
pub open spec fn member_hits(ends: Seq<Seq<char>>, members: Seq<Seq<char>>, n: int) -> nat
    decreases n,
{
    if n <= 0 {
        0
    } else {
        member_hits(ends, members, n - 1) + if members.contains(ends[n - 1]) {
            1nat
        } else {
            0
        }
    }
}

/// How many of the first `n` ends their path puts into the cluster.
pub open spec fn cluster_hits(
    nodes: Seq<GraphNode>,
    ends: Seq<Seq<char>>,
    cluster_id: Seq<char>,
    n: int,
) -> nat
    decreases n,
{
    if n <= 0 {
        0
    } else {
        cluster_hits(nodes, ends, cluster_id, n - 1) + if path_cluster(nodes, ends[n - 1]) == Some(
            cluster_id,
        ) {
            1nat
        } else {
            0
        }
    }
}

/// Whether another cluster has more of the ends than `hits`.
pub open spec fn is_outvoted(
    nodes: Seq<GraphNode>,
    ends: Seq<Seq<char>>,
    cluster_id: Seq<char>,
    hits: nat,
) -> bool {
    exists|k: int|
        0 <= k < ends.len() && outvotes(nodes, ends, cluster_id, hits, #[trigger] ends[k])
}

pub open spec fn outvotes(
    nodes: Seq<GraphNode>,
    ends: Seq<Seq<char>>,
    cluster_id: Seq<char>,
    hits: nat,
    x: Seq<char>,
) -> bool {
    match path_cluster(nodes, x) {
        Some(c) => c != cluster_id && cluster_hits(nodes, ends, c, ends.len() as int) > hits,
        None => false,
    }
}

/// Whether a node without a path belongs to the cluster: a third of its neighbours are
/// members, or no other cluster has more of them.
pub open spec fn belongs(
    nodes: Seq<GraphNode>,
    edges: Seq<EdgeRow>,
    id: Seq<char>,
    members: Seq<Seq<char>>,
    cluster_id: Seq<char>,
) -> bool {
    let ends = neighbor_ends(edges, id, edges.len() as int);
    let hits = member_hits(ends, members, ends.len() as int);
    ends.len() > 0 && (hits * 3 >= ends.len() || (hits > 0 && !is_outvoted(
        nodes,
        ends,
        cluster_id,
        hits,
    )))
}

/// The members with the first `n` nodes that have no path and belong to the cluster.
pub open spec fn voted_members(
    nodes: Seq<GraphNode>,
    edges: Seq<EdgeRow>,
    cluster_id: Seq<char>,
    n: int,
) -> Seq<Seq<char>>
    decreases n,
{
    if n <= 0 {
        ids_by_path(nodes, cluster_id, nodes.len() as int)
    } else {
        let before = voted_members(nodes, edges, cluster_id, n - 1);
        let x = nodes[n - 1];
        if x.path is None && !before.contains(x.id@) && belongs(
            nodes,
            edges,
            x.id@,
            before,
            cluster_id,
        ) {
            before.push(x.id@)
        } else {
            before
        }
    }
}

/// The ids of a cluster's members: those that are listed, or where none are those that
/// follow from paths and neighbours.
pub open spec fn all_member_ids(
    ms: Seq<MemberRow>,
    nodes: Seq<GraphNode>,
    edges: Seq<EdgeRow>,
    cluster_id: Seq<char>,
) -> Seq<Seq<char>> {
    if member_ids(ms, cluster_id).len() > 0 {
        member_ids(ms, cluster_id)
    } else {
        voted_members(nodes, edges, cluster_id, nodes.len() as int)
    }
}

/// The members of a cluster, with their degrees.
pub open spec fn members_of(
    ms: Seq<MemberRow>,
    nodes: Seq<GraphNode>,
    edges: Seq<EdgeRow>,
    cluster_id: Seq<char>,
) -> Seq<GraphNode> {
    let ids = all_member_ids(ms, nodes, edges, cluster_id);
    path::counted_all(nodes, edges, ids, ids.len() as int)
}

pub open spec fn joins_members(ids: Seq<Seq<char>>) -> spec_fn(GraphEdge) -> bool {
    |e: GraphEdge| ids.contains(e.source@) && ids.contains(e.target@)
}

/// The index of the last row of the members that speaks of the node.
pub open spec fn last_member(ms: Seq<MemberRow>, id: Seq<char>) -> Option<int>
    decreases ms.len(),
{
    if ms.len() == 0 {
        None
    } else if ms.last().node_id@ == id {
        Some(ms.len() - 1)
    } else {
        last_member(ms.drop_last(), id)
    }
}

/// The cluster of a node: the one that lists it, else the one of its path.
pub open spec fn cluster_of_node(ms: Seq<MemberRow>, nodes: Seq<GraphNode>, id: Seq<char>) -> Option<
    Seq<char>,
> {
    match last_member(ms, id) {
        Some(i) => Some(ms[i].cluster_id@),
        None => path_cluster(lists::overview(nodes, CLUSTER_NODE_LIMIT), id),
    }
}

/// Which cluster each node belongs to.
#[derive(Debug)]
pub struct NodeClusters {
    pub entries: Vec<MemberRow>,
}

impl NodeClusters {
    /// The cluster of the node.
    pub open spec fn of(&self, id: Seq<char>) -> Option<Seq<char>> {
        match last_member(self.entries@, id) {
            Some(i) => Some(self.entries@[i].cluster_id@),
            None => None,
        }
    }

    pub fn get(&self, id: &str) -> (r: Option<&str>)
        ensures
            match r {
                Some(c) => self.of(id@) == Some(c@),
                None => self.of(id@) is None,
            },
    {
        let mut i: usize = self.entries.len();
        assert(self.entries@.take(i as int) == self.entries@);
        while i > 0
            invariant
                i <= self.entries.len(),
                last_member(self.entries@, id@) == last_member(self.entries@.take(i as int), id@),
            decreases i,
        {
            assert(self.entries@.take(i as int).drop_last() == self.entries@.take(i - 1));
            if text::str_eq(&self.entries[i - 1].node_id, id) {
                return Some(&self.entries[i - 1].cluster_id);
            }
            i -= 1;
        }
        None
    }
}

fn plain_cluster(row: &ClusterRow) -> (r: GraphCluster)
    ensures
        is_cluster_of(r, *row),
{
    GraphCluster {
        id: row.id.clone(),
        name: row.name.clone(),
        description: model::clone_opt(&row.description),
        algorithm: row.algorithm.clone(),
        centroid: model::clone_opt(&row.centroid),
        node_count: row.node_count,
        edge_count: row.edge_count,
        confidence: row.confidence,
        created_at: row.created_at,
        updated_at: row.updated_at,
        links: Vec::new(),
        top_files: Vec::new(),
    }
}

fn cluster_row(c: &GraphCluster) -> (r: ClusterRow)
    ensures
        r == row_of(*c),
{
    ClusterRow {
        id: c.id.clone(),
        name: c.name.clone(),
        description: model::clone_opt(&c.description),
        algorithm: c.algorithm.clone(),
        centroid: model::clone_opt(&c.centroid),
        node_count: c.node_count,
        edge_count: c.edge_count,
        confidence: c.confidence,
        created_at: c.created_at,
        updated_at: c.updated_at,
    }
}

/// Whether the path puts the node into the cluster.
fn node_path_in_cluster(n: &GraphNode, cluster_id: &str) -> (r: bool)
    ensures
        r == path_in_cluster(*n, cluster_id@),
{
    match &n.path {
        Some(p) => {
            let top = cluster_top(cluster_id);
            if text::str_eq(&top, "__root__") {
                let cs = text::chars_of(p);
                !text::char_in('/', &cs)
            } else {
                let mut below = text::replace_char_of(&top, '\\', '/');
                let ghost t = below@;
                below.push('/');
                assert(below@ =~= t + seq!['/']);
                *p == top || text::has_prefix(p, &below)
            }
        },
        None => false,
    }
}

impl GraphStore {
    /// Replaces all clusters. Where an id occurs twice, the clusters before the second one
    /// are in the table and its id is returned as the error.
    pub fn replace_clusters(&mut self, clusters: &Vec<GraphCluster>) -> (r: Result<(), String>)
        requires
            old(self).wf(),
        ensures
            final(self).wf(),
            r is Ok <==> unique_prefix(rows_of(clusters@), 0) == clusters@.len(),
            match r {
                Ok(_) => final(self).clusters@ == rows_of(clusters@) && *final(self) == (GraphStore {
                    clusters: final(self).clusters,
                    version: store::next_version(old(self).version),
                    ..*old(self)
                }),
                Err(e) => {
                    let n = unique_prefix(rows_of(clusters@), 0);
                    &&& n < clusters@.len()
                    &&& e == clusters@[n].id
                    &&& final(self).clusters@ == rows_of(clusters@).take(n)
                    &&& *final(self) == (GraphStore {
                        clusters: final(self).clusters,
                        ..*old(self)
                    })
                },
            },
    {
        let ghost all = rows_of(clusters@);
        self.clusters = Vec::new();
        let mut i: usize = 0;
        assert(self.clusters@ =~= all.take(0));
        while i < clusters.len()
            invariant
                i <= clusters.len(),
                self.wf(),
                all == rows_of(clusters@),
                self.clusters@ == all.take(i as int),
                unique_prefix(all, 0) == unique_prefix(all, i as int),
                *self == (GraphStore { clusters: self.clusters, ..*old(self) }),
            decreases clusters.len() - i,
        {
            let row = cluster_row(&clusters[i]);
            if self.find_cluster(&row.id).is_some() {
                return Err(clusters[i].id.clone());
            }
            proof {
                rows::lemma_unique_push(self.clusters@, store::cluster_key(), row);
                assert(all.take(i + 1) =~= all.take(i as int).push(row));
            }
            self.clusters.push(row);
            i += 1;
        }
        assert(all.take(i as int) == all);
        self.bump_version();
        Ok(())
    }

    fn find_cluster(&self, id: &str) -> (r: Option<usize>)
        ensures
            match r {
                Some(i) => cluster_index(self.clusters@, id@) == Some(i as int) && i
                    < self.clusters@.len() && self.clusters@[i as int].id@ == id@,
                None => cluster_index(self.clusters@, id@) is None,
            },
    {
        let mut i: usize = 0;
        while i < self.clusters.len()
            invariant
                i <= self.clusters.len(),
                cluster_index(self.clusters@, id@) == rows::row_index(
                    self.clusters@,
                    store::cluster_key(),
                    id@,
                    i as int,
                ),
            decreases self.clusters.len() - i,
        {
            if text::str_eq(&self.clusters[i].id, id) {
                return Some(i);
            }
            i += 1;
        }
        None
    }

    /// The clusters, the larger ones first.
    pub fn list_clusters(&self, limit: u32) -> (r: Vec<GraphCluster>)
        ensures
            r@.len() == largest(self.clusters@, limit).len(),
            forall|i: int|
                0 <= i < r@.len() ==> is_cluster_of(
                    #[trigger] r@[i],
                    largest(self.clusters@, limit)[i],
                ),
    {
        let mut keys: Vec<Vec<i128>> = Vec::new();
        let mut i: usize = 0;
        while i < self.clusters.len()
            invariant
                i <= self.clusters.len(),
                keys@.len() == i,
                forall|k: int|
                    0 <= k < i ==> rows::key_view(#[trigger] keys@[k]@) == seq![
                        -(self.clusters@[k].node_count as int),
                    ],
            decreases self.clusters.len() - i,
        {
            keys.push(rows::number_key(-(self.clusters[i].node_count as i128)));
            i += 1;
        }
        assert(rows::keys_view(keys@) =~= size_keys(self.clusters@));
        let order = rows::order_rows(&keys);
        let ghost sorted = rows::rows_at(self.clusters@, rows::indices(order@));
        let mut r: Vec<GraphCluster> = Vec::new();
        let mut j: usize = 0;
        while j < order.len() && j < limit as usize
            invariant
                j <= order.len(),
                j <= limit,
                r@.len() == j,
                forall|k: int| 0 <= k < order@.len() ==> (#[trigger] order@[k]) < self.clusters@.len(),
                sorted == rows::rows_at(self.clusters@, rows::indices(order@)),
                forall|k: int| 0 <= k < j ==> is_cluster_of(#[trigger] r@[k], sorted[k]),
            decreases order.len() - j,
        {
            assert(sorted[j as int] == self.clusters@[order@[j as int] as int]);
            r.push(plain_cluster(&self.clusters[order[j]]));
            j += 1;
        }
        r
    }

    /// The cluster with the id.
    pub fn get_cluster(&self, id: &str) -> (r: Option<GraphCluster>)
        ensures
            match r {
                Some(c) => cluster_index(self.clusters@, id@) matches Some(i) && is_cluster_of(
                    c,
                    self.clusters@[i],
                ),
                None => cluster_index(self.clusters@, id@) is None,
            },
    {
        match self.find_cluster(id) {
            Some(i) => Some(plain_cluster(&self.clusters[i])),
            None => None,
        }
    }

    /// Gives a cluster a description.
    pub fn update_cluster_description(&mut self, id: &str, description: String, now: i64)
        requires
            old(self).wf(),
        ensures
            final(self).wf(),
            final(self).clusters@ == match cluster_index(old(self).clusters@, id@) {
                Some(i) => old(self).clusters@.update(
                    i,
                    ClusterRow {
                        description: Some(description),
                        updated_at: now,
                        ..old(self).clusters@[i]
                    },
                ),
                None => old(self).clusters@,
            },
            *final(self) == (GraphStore { clusters: final(self).clusters, ..*old(self) }),
    {
        if let Some(i) = self.find_cluster(id) {
            let mut row = self.clusters[i].clone();
            row.description = Some(description);
            row.updated_at = now;
            proof {
                rows::lemma_unique_update(self.clusters@, store::cluster_key(), i as int, row);
            }
            self.clusters.set(i, row);
        }
    }

    fn has_member(&self, cluster_id: &String, node_id: &String) -> (r: bool)
        ensures
            r == (rows::row_index(self.members@, store::member_key(), (cluster_id@, node_id@), 0)
                is Some),
    {
        let mut i: usize = 0;
        while i < self.members.len()
            invariant
                i <= self.members.len(),
                rows::row_index(self.members@, store::member_key(), (cluster_id@, node_id@), 0)
                    == rows::row_index(
                    self.members@,
                    store::member_key(),
                    (cluster_id@, node_id@),
                    i as int,
                ),
            decreases self.members.len() - i,
        {
            if self.members[i].cluster_id == *cluster_id && self.members[i].node_id == *node_id {
                return true;
            }
            i += 1;
        }
        false
    }

    /// Lists the members of a cluster anew.
    pub fn replace_cluster_members(&mut self, cluster_id: &String, ids: &Vec<String>)
        requires
            old(self).wf(),
        ensures
            final(self).wf(),
            final(self).members@ == with_members(
                rows::kept(old(self).members@, not_in_cluster(cluster_id@)),
                *cluster_id,
                ids@,
                ids@.len() as int,
            ),
            *final(self) == (GraphStore { members: final(self).members, ..*old(self) }),
    {
        let ghost all = self.members@;
        let mut out: Vec<MemberRow> = Vec::new();
        let mut i: usize = 0;
        while i < self.members.len()
            invariant
                i <= self.members.len(),
                *self == *old(self),
                all == self.members@,
                out@ == rows::kept(all.take(i as int), not_in_cluster(cluster_id@)),
            decreases self.members.len() - i,
        {
            proof {
                assert(all.take(i + 1) == all.take(i as int).push(all[i as int]));
                rows::lemma_kept_push(all.take(i as int), all[i as int], not_in_cluster(cluster_id@));
            }
            if self.members[i].cluster_id != *cluster_id {
                out.push(self.members[i].clone());
            }
            i += 1;
        }
        proof {
            assert(all.take(i as int) == all);
            rows::lemma_unique_kept(all, store::member_key(), not_in_cluster(cluster_id@));
        }
        self.members = out;
        let ghost rest = self.members@;
        let mut j: usize = 0;
        while j < ids.len()
            invariant
                j <= ids.len(),
                self.wf(),
                self.members@ == with_members(rest, *cluster_id, ids@, j as int),
                *self == (GraphStore { members: self.members, ..*old(self) }),
            decreases ids.len() - j,
        {
            if !self.has_member(cluster_id, &ids[j]) {
                let row = MemberRow { cluster_id: cluster_id.clone(), node_id: ids[j].clone() };
                proof {
                    rows::lemma_unique_push(self.members@, store::member_key(), row);
                }
                self.members.push(row);
            }
            j += 1;
        }
    }

    /// The ids of the members that are listed, or nothing where none are.
    pub fn cluster_member_ids(&self, cluster_id: &str) -> (r: Option<Vec<String>>)
        ensures
            match r {
                Some(v) => text::texts(v@) == member_ids(self.members@, cluster_id@) && v@.len() > 0,
                None => member_ids(self.members@, cluster_id@).len() == 0,
            },
    {
        let ghost all = self.members@;
        let mut out: Vec<String> = Vec::new();
        let mut i: usize = 0;
        assert(text::texts(out@) =~= member_ids(all.take(0), cluster_id@));
        while i < self.members.len()
            invariant
                i <= self.members.len(),
                all == self.members@,
                text::texts(out@) == member_ids(all.take(i as int), cluster_id@),
            decreases self.members.len() - i,
        {
            proof {
                assert(all.take(i + 1) == all.take(i as int).push(all[i as int]));
                rows::lemma_kept_push(all.take(i as int), all[i as int], in_cluster(cluster_id@));
            }
            let ghost before = out@;
            if text::str_eq(&self.members[i].cluster_id, cluster_id) {
                out.push(self.members[i].node_id.clone());
                proof {
                    text::lemma_texts_push(before, all[i as int].node_id);
                    assert(member_ids(all.take(i + 1), cluster_id@) =~= member_ids(
                        all.take(i as int),
                        cluster_id@,
                    ).push(all[i as int].node_id@));
                }
            }
            i += 1;
        }
        assert(all.take(i as int) == all);
        assert(text::texts(out@).len() == out@.len());
        if out.len() == 0 {
            None
        } else {
            Some(out)
        }
    }

    fn path_member_ids(&self, cluster_id: &str) -> (r: Vec<String>)
        ensures
            text::texts(r@) == ids_by_path(self.nodes@, cluster_id@, self.nodes@.len() as int),
    {
        let mut out: Vec<String> = Vec::new();
        let mut i: usize = 0;
        assert(text::texts(out@) =~= Seq::empty());
        while i < self.nodes.len()
            invariant
                i <= self.nodes.len(),
                text::texts(out@) == ids_by_path(self.nodes@, cluster_id@, i as int),
            decreases self.nodes.len() - i,
        {
            if node_path_in_cluster(&self.nodes[i], cluster_id) {
                proof {
                    text::lemma_texts_push(out@, self.nodes@[i as int].id);
                }
                out.push(self.nodes[i].id.clone());
            }
            i += 1;
        }
        out
    }

    fn ends_at(&self, id: &String) -> (r: Vec<String>)
        ensures
            text::texts(r@) == neighbor_ends(self.edges@, id@, self.edges@.len() as int),
    {
        let mut out: Vec<String> = Vec::new();
        let mut i: usize = 0;
        assert(text::texts(out@) =~= Seq::empty());
        while i < self.edges.len()
            invariant
                i <= self.edges.len(),
                text::texts(out@) == neighbor_ends(self.edges@, id@, i as int),
            decreases self.edges.len() - i,
        {
            if self.edges[i].source == *id {
                proof {
                    text::lemma_texts_push(out@, self.edges@[i as int].target);
                }
                out.push(self.edges[i].target.clone());
            }
            if self.edges[i].target == *id {
                proof {
                    text::lemma_texts_push(out@, self.edges@[i as int].source);
                }
                out.push(self.edges[i].source.clone());
            }
            i += 1;
        }
        out
    }

    fn cluster_by_path(&self, id: &String) -> (r: Option<String>)
        ensures
            match r {
                Some(c) => path_cluster(self.nodes@, id@) == Some(c@),
                None => path_cluster(self.nodes@, id@) is None,
            },
    {
        match self.find_node(id) {
            Some(i) => match &self.nodes[i].path {
                Some(p) => Some(cluster_id_for_path(p)),
                None => None,
            },
            None => None,
        }
    }

    fn count_cluster_hits(&self, ends: &Vec<String>, cluster_id: &String) -> (n: usize)
        ensures
            n == cluster_hits(self.nodes@, text::texts(ends@), cluster_id@, ends@.len() as int),
    {
        let mut n: usize = 0;
        let mut i: usize = 0;
        while i < ends.len()
            invariant
                i <= ends.len(),
                n <= i,
                n == cluster_hits(self.nodes@, text::texts(ends@), cluster_id@, i as int),
            decreases ends.len() - i,
        {
            if let Some(c) = self.cluster_by_path(&ends[i]) {
                if c == *cluster_id {
                    n += 1;
                }
            }
            i += 1;
        }
        n
    }

    fn other_has_more(&self, ends: &Vec<String>, cluster_id: &String, hits: usize) -> (r: bool)
        ensures
            r == is_outvoted(self.nodes@, text::texts(ends@), cluster_id@, hits as nat),
    {
        let mut i: usize = 0;
        while i < ends.len()
            invariant
                i <= ends.len(),
                forall|k: int|
                    0 <= k < i ==> !outvotes(
                        self.nodes@,
                        text::texts(ends@),
                        cluster_id@,
                        hits as nat,
                        #[trigger] text::texts(ends@)[k],
                    ),
            decreases ends.len() - i,
        {
            if let Some(c) = self.cluster_by_path(&ends[i]) {
                if c != *cluster_id && self.count_cluster_hits(ends, &c) > hits {
                    assert(outvotes(
                        self.nodes@,
                        text::texts(ends@),
                        cluster_id@,
                        hits as nat,
                        text::texts(ends@)[i as int],
                    ));
                    return true;
                }
            }
            i += 1;
        }
        false
    }

    fn node_belongs_to_cluster(&self, id: &String, members: &Vec<String>, cluster_id: &String) -> (r:
        bool)
        ensures
            r == belongs(self.nodes@, self.edges@, id@, text::texts(members@), cluster_id@),
    {
        let ends = self.ends_at(id);
        let ghost es = text::texts(ends@);
        let ghost ms = text::texts(members@);
        assert(es.len() == ends@.len());
        let mut hits: usize = 0;
        let mut i: usize = 0;
        while i < ends.len()
            invariant
                i <= ends.len(),
                hits <= i,
                es == text::texts(ends@),
                ms == text::texts(members@),
                hits == member_hits(es, ms, i as int),
            decreases ends.len() - i,
        {
            if text::lists_text(members, &ends[i]) {
                hits += 1;
            }
            i += 1;
        }
        if ends.len() == 0 {
            return false;
        }
        if hits as u128 * 3 >= ends.len() as u128 {
            return true;
        }
        hits > 0 && !self.other_has_more(&ends, cluster_id, hits)
    }

    fn derived_member_ids(&self, cluster_id: &str) -> (r: Vec<String>)
        ensures
            text::texts(r@) == voted_members(
                self.nodes@,
                self.edges@,
                cluster_id@,
                self.nodes@.len() as int,
            ),
    {
        let key = cluster_id.to_owned();
        let mut ids = self.path_member_ids(cluster_id);
        let mut i: usize = 0;
        while i < self.nodes.len()
            invariant
                i <= self.nodes.len(),
                key@ == cluster_id@,
                text::texts(ids@) == voted_members(
                    self.nodes@,
                    self.edges@,
                    cluster_id@,
                    i as int,
                ),
            decreases self.nodes.len() - i,
        {
            if self.nodes[i].path.is_none() && !text::lists_text(&ids, &self.nodes[i].id)
                && self.node_belongs_to_cluster(&self.nodes[i].id, &ids, &key) {
                proof {
                    text::lemma_texts_push(ids@, self.nodes@[i as int].id);
                }
                ids.push(self.nodes[i].id.clone());
            }
            i += 1;
        }
        ids
    }

    /// The members of a cluster, with their degrees.
    pub fn cluster_members(&self, cluster_id: &str) -> (r: Vec<GraphNode>)
        ensures
            r@ == members_of(self.members@, self.nodes@, self.edges@, cluster_id@),
    {
        let ids = match self.cluster_member_ids(cluster_id) {
            Some(v) => v,
            None => self.derived_member_ids(cluster_id),
        };
        let ghost all = all_member_ids(self.members@, self.nodes@, self.edges@, cluster_id@);
        assert(text::texts(ids@).len() == ids@.len());
        let mut out: Vec<GraphNode> = Vec::new();
        let mut i: usize = 0;
        while i < ids.len()
            invariant
                i <= ids.len(),
                all == text::texts(ids@),
                out@ == path::counted_all(self.nodes@, self.edges@, all, i as int),
            decreases ids.len() - i,
        {
            if let Some(n) = self.counted_node(&ids[i]) {
                out.push(n);
            }
            i += 1;
        }
        out
    }

    /// The edges between the members, of the heaviest edges of the graph.
    pub fn cluster_edges(&self, member_ids: &Vec<String>) -> (r: Vec<GraphEdge>)
        ensures
            r@ == rows::kept(
                query::edges_of(query::heaviest(self.edges@, CLUSTER_EDGE_LIMIT)),
                joins_members(text::texts(member_ids@)),
            ),
    {
        let all = self.all_edges(CLUSTER_EDGE_LIMIT);
        let ghost ids = text::texts(member_ids@);
        let mut out: Vec<GraphEdge> = Vec::new();
        let mut i: usize = 0;
        while i < all.len()
            invariant
                i <= all.len(),
                ids == text::texts(member_ids@),
                out@ == rows::kept(all@.take(i as int), joins_members(ids)),
            decreases all.len() - i,
        {
            proof {
                assert(all@.take(i + 1) == all@.take(i as int).push(all@[i as int]));
                rows::lemma_kept_push(all@.take(i as int), all@[i as int], joins_members(ids));
            }
            if text::lists_text(member_ids, &all[i].source) && text::lists_text(
                member_ids,
                &all[i].target,
            ) {
                out.push(all[i].clone());
            }
            i += 1;
        }
        assert(all@.take(i as int) == all@);
        out
    }

    /// Which cluster each node belongs to.
    pub fn node_cluster_map(&self) -> (r: NodeClusters)
        requires
            self.wf(),
        ensures
            forall|id: Seq<char>| #[trigger]
                r.of(id) == cluster_of_node(self.members@, self.nodes@, id),
    {
        let mut map = NodeClusters { entries: Vec::new() };
        let mut i: usize = 0;
        while i < self.members.len()
            invariant
                i <= self.members.len(),
                map.entries@ == self.members@.take(i as int),
            decreases self.members.len() - i,
        {
            assert(self.members@.take(i + 1) =~= self.members@.take(i as int).push(
                self.members@[i as int],
            ));
            map.entries.push(self.members[i].clone());
            i += 1;
        }
        assert(self.members@.take(i as int) == self.members@);
        let all = self.all_nodes(CLUSTER_NODE_LIMIT);
        proof {
            lemma_overview_unique(self.nodes@, CLUSTER_NODE_LIMIT);
            assert forall|id: Seq<char>| #[trigger]
                map.of(id) == mapped(self.members@, all@.take(0), id) by {
                rows::lemma_row_index(all@.take(0), store::node_key(), id, 0);
            }
        }
        let mut j: usize = 0;
        while j < all.len()
            invariant
                j <= all.len(),
                rows::unique(all@, store::node_key()),
                forall|id: Seq<char>| #[trigger]
                    map.of(id) == mapped(self.members@, all@.take(j as int), id),
            decreases all.len() - j,
        {
            let ghost before = map;
            let ghost n = all@[j as int];
            let known = map.get(&all[j].id).is_some();
            if !known {
                if let Some(p) = &all[j].path {
                    let row = MemberRow {
                        cluster_id: cluster_id_for_path(p),
                        node_id: all[j].id.clone(),
                    };
                    map.entries.push(row);
                }
            }
            proof {
                assert forall|id: Seq<char>| #[trigger]
                    map.of(id) == mapped(self.members@, all@.take(j + 1), id) by {
                    assert(before.of(id) == mapped(self.members@, all@.take(j as int), id));
                    assert(before.of(n.id@) == mapped(self.members@, all@.take(j as int), n.id@));
                    lemma_mapped_next(self.members@, all@, j as int, id);
                    lemma_mapped_next(self.members@, all@, j as int, n.id@);
                    lemma_last_member(before.entries@, id);
                    lemma_last_member(before.entries@, n.id@);
                    if map.entries@.len() > before.entries@.len() {
                        assert(map.entries@.drop_last() =~= before.entries@);
                    }
                }
            }
            j += 1;
        }
        proof {
            assert(all@.take(j as int) == all@);
            assert forall|id: Seq<char>| #[trigger]
                map.of(id) == cluster_of_node(self.members@, self.nodes@, id) by {
                assert(map.of(id) == mapped(self.members@, all@, id));
            }
        }
        map
    }
}

proof fn lemma_last_member(ms: Seq<MemberRow>, id: Seq<char>)
    ensures
        last_member(ms, id) matches Some(i) ==> 0 <= i < ms.len(),
    decreases ms.len(),
{
    if ms.len() > 0 {
        lemma_last_member(ms.drop_last(), id);
    }
}

/// The cluster of a node by the members and the nodes.
spec fn mapped(ms: Seq<MemberRow>, nodes: Seq<GraphNode>, id: Seq<char>) -> Option<Seq<char>> {
    match last_member(ms, id) {
        Some(i) => Some(ms[i].cluster_id@),
        None => path_cluster(nodes, id),
    }
}

proof fn lemma_mapped_next(ms: Seq<MemberRow>, nodes: Seq<GraphNode>, j: int, id: Seq<char>)
    requires
        rows::unique(nodes, store::node_key()),
        0 <= j < nodes.len(),
    ensures
        mapped(ms, nodes.take(j + 1), id) == (if last_member(ms, id) is None && id == nodes[j].id@ {
            match nodes[j].path {
                Some(p) => Some(cluster_of_path(p@)),
                None => None,
            }
        } else {
            mapped(ms, nodes.take(j), id)
        }),
        id == nodes[j].id@ ==> path_cluster(nodes.take(j), id) is None,
{
    let a = nodes.take(j);
    let b = nodes.take(j + 1);
    rows::lemma_row_index(a, store::node_key(), id, 0);
    rows::lemma_row_index(b, store::node_key(), id, 0);
    assert(rows::unique(b, store::node_key())) by {
        assert forall|x: int, y: int| 0 <= x < y < b.len() implies store::node_key()(#[trigger] b[x])
            != store::node_key()(#[trigger] b[y]) by {
            assert(b[x] == nodes[x] && b[y] == nodes[y]);
        }
    }
    if id == nodes[j].id@ {
        assert(b[j] == nodes[j]);
        rows::lemma_row_index_at(b, store::node_key(), j);
        match rows::row_index(a, store::node_key(), id, 0) {
            Some(x) => {
                assert(a[x] == nodes[x]);
            },
            None => {},
        }
    } else {
        match rows::row_index(a, store::node_key(), id, 0) {
            Some(x) => {
                assert(b[x] == a[x]);
                rows::lemma_row_index_at(b, store::node_key(), x);
            },
            None => {
                match rows::row_index(b, store::node_key(), id, 0) {
                    Some(x) => {
                        assert(x < j ==> a[x] == b[x]);
                    },
                    None => {},
                }
            },
        }
    }
}

/// Ids are unique in an overview.
pub proof fn lemma_overview_unique(nodes: Seq<GraphNode>, limit: u32)
    requires
        rows::unique(nodes, store::node_key()),
    ensures
        rows::unique(lists::overview(nodes, limit), store::node_key()),
{
    let some = rows::kept(nodes, lists::structural());
    let keys = lists::id_keys(some);
    let order = rows::order_of(keys);
    rows::lemma_unique_kept(nodes, store::node_key(), lists::structural());
    rows::lemma_order_of_first(keys, keys.len() as int);
    let all = lists::overview(nodes, limit);
    assert forall|x: int, y: int| 0 <= x < y < all.len() implies store::node_key()(#[trigger] all[x])
        != store::node_key()(#[trigger] all[y]) by {
        assert(all[x] == some[order[x]] && all[y] == some[order[y]]);
        assert(rows::row_lt(keys, order[x], order[y]));
        if order[x] == order[y] {
            rows::lemma_key_lt_irreflexive(keys[order[x]]);
        }
    }
}

} // verus!
