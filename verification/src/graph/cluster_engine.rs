//! How clusters are found, and how they are connected.

use crate::graph::clusters;
use crate::graph::clusters::{GLOBAL_CLUSTER_ID, NodeClusters};
use crate::graph::explore;
use crate::graph::ids;
use crate::graph::lists;
use crate::graph::model;
use crate::graph::model::{ClusterLink, GraphCluster, GraphEdge, GraphNode, NodeType};
use crate::graph::path;
use crate::graph::query;
use crate::graph::settled;
use crate::graph::store;
use crate::graph::store::{ClusterRow, EdgeRow, GraphStore, MemberRow};
use crate::rows;
use crate::text;
use vstd::prelude::*;

verus! {

/// How many edges are looked at when clusters are found and connected.
pub const ENGINE_EDGE_LIMIT: u32 = 1_000_000;

/// How many members of a cluster are shown at most.
pub const MAX_CLUSTER_NODES: u32 = 2000;

/// The edges that the engine looks at.
pub open spec fn engine_edges(edges: Seq<EdgeRow>) -> Seq<GraphEdge> {
    query::edges_of(query::heaviest(edges, ENGINE_EDGE_LIMIT))
}

/// The nodes that the engine looks at.
pub open spec fn engine_nodes(nodes: Seq<GraphNode>) -> Seq<GraphNode> {
    lists::overview(nodes, clusters::CLUSTER_NODE_LIMIT)
}

// ---- Links between clusters

/// How many edges lead from one cluster to another.
pub struct LinkV {
    pub source: Seq<char>,
    pub target: Seq<char>,
    pub count: nat,
}

pub open spec fn link_key() -> spec_fn(LinkV) -> (Seq<char>, Seq<char>) {
    |l: LinkV| (l.source, l.target)
}

pub open spec fn link_view(l: ClusterLink) -> LinkV {
    LinkV { source: l.source@, target: l.target@, count: l.count as nat }
}

pub open spec fn link_views(ls: Seq<ClusterLink>) -> Seq<LinkV> {
    Seq::new(ls.len(), |i: int| link_view(ls[i]))
}

pub open spec fn or_global(o: Option<Seq<char>>) -> Seq<char> {
    match o {
        Some(c) => c,
        None => GLOBAL_CLUSTER_ID@,
    }
}

/// The links with one more edge between the clusters.
pub open spec fn with_link(ls: Seq<LinkV>, a: Seq<char>, b: Seq<char>) -> Seq<LinkV> {
    match rows::row_index(ls, link_key(), (a, b), 0) {
        Some(i) => ls.update(i, LinkV { count: ls[i].count + 1, ..ls[i] }),
        None => ls.push(LinkV { source: a, target: b, count: 1 }),
    }
}

/// The links that the first `n` edges make. An edge within a cluster, or to what belongs
/// nowhere, makes none; the direction does not count.
pub open spec fn tally(
    list: Seq<GraphEdge>,
    ms: Seq<MemberRow>,
    nodes: Seq<GraphNode>,
    n: int,
) -> Seq<LinkV>
    decreases n,
{
    if n <= 0 {
        Seq::empty()
    } else {
        let before = tally(list, ms, nodes, n - 1);
        let a = or_global(clusters::cluster_of_node(ms, nodes, list[n - 1].source@));
        let b = or_global(clusters::cluster_of_node(ms, nodes, list[n - 1].target@));
        if a == b || a == GLOBAL_CLUSTER_ID@ || b == GLOBAL_CLUSTER_ID@ {
            before
        } else if text::text_lt(a, b) {
            with_link(before, a, b)
        } else {
            with_link(before, b, a)
        }
    }
}

pub open spec fn links_cluster(id: Seq<char>) -> spec_fn(LinkV) -> bool {
    |l: LinkV| l.source == id || l.target == id
}

/// The links of the graph's clusters.
pub open spec fn all_links(store: GraphStore) -> Seq<LinkV> {
    tally(
        engine_edges(store.edges@),
        store.members@,
        store.nodes@,
        engine_edges(store.edges@).len() as int,
    )
}

/// The links of one cluster.
pub open spec fn links_of(store: GraphStore, id: Seq<char>) -> Seq<LinkV> {
    rows::kept(all_links(store), links_cluster(id))
}

/// Whether a cluster is what the row says, with its links.
pub open spec fn is_linked_cluster(store: GraphStore, c: GraphCluster, row: ClusterRow) -> bool {
    &&& clusters::same_cluster(c, row)
    &&& link_views(c.links@) == links_of(store, row.id@)
    &&& c.top_files@.len() == 0
}

fn find_link(links: &Vec<ClusterLink>, a: &String, b: &String) -> (r: Option<usize>)
    ensures
        match r {
            Some(i) => rows::row_index(link_views(links@), link_key(), (a@, b@), 0) == Some(
                i as int,
            ) && i < links@.len(),
            None => rows::row_index(link_views(links@), link_key(), (a@, b@), 0) is None,
        },
{
    let mut i: usize = 0;
    while i < links.len()
        invariant
            i <= links.len(),
            rows::row_index(link_views(links@), link_key(), (a@, b@), 0) == rows::row_index(
                link_views(links@),
                link_key(),
                (a@, b@),
                i as int,
            ),
        decreases links.len() - i,
    {
        if links[i].source == *a && links[i].target == *b {
            return Some(i);
        }
        i += 1;
    }
    None
}

fn add_link(links: &mut Vec<ClusterLink>, a: String, b: String, Ghost(n): Ghost<int>)
    requires
        0 <= n < u32::MAX,
        forall|i: int| 0 <= i < old(links)@.len() ==> (#[trigger] old(links)@[i]).count <= n,
    ensures
        link_views(final(links)@) == with_link(link_views(old(links)@), a@, b@),
        forall|i: int| 0 <= i < final(links)@.len() ==> (#[trigger] final(links)@[i]).count <= n + 1,
{
    let ghost before = links@;
    match find_link(links, &a, &b) {
        Some(i) => {
            assert(link_views(before)[i as int] == link_view(before[i as int]));
            proof {
                rows::lemma_row_index(link_views(before), link_key(), (a@, b@), 0);
            }
            let row = ClusterLink { source: a, target: b, count: links[i].count + 1 };
            links.set(i, row);
            assert(link_views(links@) =~= with_link(link_views(before), a@, b@));
        },
        None => {
            links.push(ClusterLink { source: a, target: b, count: 1 });
            assert(link_views(links@) =~= with_link(link_views(before), a@, b@));
        },
    }
}

fn home_of(map: &NodeClusters, id: &str) -> (r: String)
    ensures
        r@ == or_global(map.of(id@)),
{
    match map.get(id) {
        Some(c) => c.to_owned(),
        None => GLOBAL_CLUSTER_ID.to_owned(),
    }
}

pub(crate) fn links_at(links: &Vec<ClusterLink>, id: &String) -> (r: Vec<ClusterLink>)
    ensures
        link_views(r@) == rows::kept(link_views(links@), links_cluster(id@)),
{
    let ghost all = link_views(links@);
    let mut out: Vec<ClusterLink> = Vec::new();
    let mut i: usize = 0;
    assert(link_views(out@) =~= rows::kept(all.take(0), links_cluster(id@)));
    while i < links.len()
        invariant
            i <= links.len(),
            all == link_views(links@),
            link_views(out@) == rows::kept(all.take(i as int), links_cluster(id@)),
        decreases links.len() - i,
    {
        proof {
            assert(all.take(i + 1) == all.take(i as int).push(all[i as int]));
            rows::lemma_kept_push(all.take(i as int), all[i as int], links_cluster(id@));
        }
        if links[i].source == *id || links[i].target == *id {
            let ghost before = out@;
            out.push(links[i].clone());
            assert(link_views(out@) =~= link_views(before).push(all[i as int]));
        }
        i += 1;
    }
    assert(all.take(i as int) == all);
    out
}

impl GraphStore {
    pub(crate) fn cluster_links(&self) -> (r: Vec<ClusterLink>)
        requires
            self.wf(),
        ensures
            link_views(r@) == all_links(*self),
    {
        let map = self.node_cluster_map();
        let list = self.all_edges(ENGINE_EDGE_LIMIT);
        let mut links: Vec<ClusterLink> = Vec::new();
        let mut i: usize = 0;
        assert(link_views(links@) =~= Seq::empty());
        while i < list.len()
            invariant
                i <= list.len(),
                list@ == engine_edges(self.edges@),
                list@.len() <= ENGINE_EDGE_LIMIT,
                forall|id: Seq<char>| #[trigger]
                    map.of(id) == clusters::cluster_of_node(self.members@, self.nodes@, id),
                link_views(links@) == tally(list@, self.members@, self.nodes@, i as int),
                forall|k: int| 0 <= k < links@.len() ==> (#[trigger] links@[k]).count <= i,
            decreases list.len() - i,
        {
            let a = home_of(&map, &list[i].source);
            let b = home_of(&map, &list[i].target);
            if a == b || text::str_eq(&a, GLOBAL_CLUSTER_ID) || text::str_eq(&b, GLOBAL_CLUSTER_ID) {
            } else if text::text_less(&a, &b) {
                add_link(&mut links, a, b, Ghost(i as int));
            } else {
                add_link(&mut links, b, a, Ghost(i as int));
            }
            i += 1;
        }
        links
    }
}

// ---- Clusters of directories

/// The cluster in which a node is at first: that of its path, or none in particular.
pub open spec fn first_home(n: GraphNode) -> Seq<char> {
    match n.path {
        Some(p) => clusters::cluster_of_path(p@),
        None => GLOBAL_CLUSTER_ID@,
    }
}

pub open spec fn first_homes(nodes: Seq<GraphNode>) -> Seq<Seq<char>> {
    Seq::new(nodes.len(), |i: int| first_home(nodes[i]))
}

/// The cluster of a node among those that the engine looks at.
pub open spec fn home_at(nodes: Seq<GraphNode>, homes: Seq<Seq<char>>, id: Seq<char>) -> Option<
    Seq<char>,
> {
    match store::node_index(nodes, id) {
        Some(i) => Some(homes[i]),
        None => None,
    }
}

/// The ids of a node's neighbours.
pub open spec fn neighbors(edges: Seq<EdgeRow>, id: Seq<char>) -> Seq<Seq<char>> {
    text::distinct(explore::way_ids(edges, id, path::path_scope()))
}

/// The clusters of the first `n` neighbours.
pub open spec fn ballots(
    nodes: Seq<GraphNode>,
    homes: Seq<Seq<char>>,
    nbs: Seq<Seq<char>>,
    n: int,
) -> Seq<Seq<char>>
    decreases n,
{
    if n <= 0 {
        Seq::empty()
    } else {
        let before = ballots(nodes, homes, nbs, n - 1);
        match home_at(nodes, homes, nbs[n - 1]) {
            Some(c) => before.push(c),
            None => before,
        }
    }
}

/// The index of the ballot for the cluster with the most, among the first `n`; of equal ones
/// the first.
pub open spec fn best_ballot(b: Seq<Seq<char>>, n: int) -> int
    decreases n,
{
    if n <= 1 {
        0
    } else {
        let k = best_ballot(b, n - 1);
        if text::count_of(b, b[n - 1]) > text::count_of(b, b[k]) {
            n - 1
        } else {
            k
        }
    }
}

pub open spec fn winner(b: Seq<Seq<char>>) -> Option<Seq<char>> {
    if b.len() == 0 {
        None
    } else {
        Some(b[best_ballot(b, b.len() as int)])
    }
}

/// What the neighbours of a node vote for.
pub open spec fn vote(
    nodes: Seq<GraphNode>,
    edges: Seq<EdgeRow>,
    homes: Seq<Seq<char>>,
    id: Seq<char>,
) -> Option<Seq<char>> {
    winner(ballots(nodes, homes, neighbors(edges, id), neighbors(edges, id).len() as int))
}

/// The clusters of the nodes after the first `k` have been looked at: a node without a path
/// goes where most of its neighbours are.
pub open spec fn homes_after(nodes: Seq<GraphNode>, edges: Seq<EdgeRow>, k: int) -> Seq<Seq<char>>
    decreases k,
{
    if k <= 0 {
        first_homes(nodes)
    } else {
        let homes = homes_after(nodes, edges, k - 1);
        if nodes[k - 1].path is Some {
            homes
        } else {
            match vote(nodes, edges, homes, nodes[k - 1].id@) {
                Some(c) => homes.update(k - 1, c),
                None => homes,
            }
        }
    }
}

pub open spec fn final_homes(nodes: Seq<GraphNode>, edges: Seq<EdgeRow>) -> Seq<Seq<char>> {
    homes_after(nodes, edges, nodes.len() as int)
}

/// Whether the neighbours of the node moved it.
pub open spec fn is_moved(nodes: Seq<GraphNode>, edges: Seq<EdgeRow>, k: int) -> bool {
    nodes[k].path is None && vote(nodes, edges, homes_after(nodes, edges, k), nodes[k].id@) is Some
}

/// How many ends of the first `n` edges are at the node.
pub open spec fn ends_of(list: Seq<GraphEdge>, id: Seq<char>, n: int) -> nat
    decreases n,
{
    if n <= 0 {
        0
    } else {
        ends_of(list, id, n - 1) + (if list[n - 1].source@ == id {
            1nat
        } else {
            0
        }) + (if list[n - 1].target@ == id {
            1nat
        } else {
            0
        })
    }
}

/// How many of the first `n` edges begin and end in the cluster, by where nodes are at first.
pub open spec fn inner_edges(nodes: Seq<GraphNode>, list: Seq<GraphEdge>, c: Seq<char>, n: int) -> nat
    decreases n,
{
    if n <= 0 {
        0
    } else {
        let homes = first_homes(nodes);
        inner_edges(nodes, list, c, n - 1) + if or_global(
            home_at(nodes, homes, list[n - 1].source@),
        ) == c && or_global(home_at(nodes, homes, list[n - 1].target@)) == c {
            1nat
        } else {
            0
        }
    }
}

/// A node that may be the centre of a cluster, with the number by which it is chosen.
pub struct CenterV {
    pub id: Seq<char>,
    pub home: Seq<char>,
    pub degree: nat,
}

/// The first `n` nodes that may be centres. One that its neighbours moved counts once.
pub open spec fn node_centers(
    nodes: Seq<GraphNode>,
    edges: Seq<EdgeRow>,
    list: Seq<GraphEdge>,
    n: int,
) -> Seq<CenterV>
    decreases n,
{
    if n <= 0 {
        Seq::empty()
    } else {
        let before = node_centers(nodes, edges, list, n - 1);
        let id = nodes[n - 1].id@;
        let degree = ends_of(list, id, list.len() as int);
        if is_moved(nodes, edges, n - 1) {
            before.push(CenterV { id, home: final_homes(nodes, edges)[n - 1], degree: 1 })
        } else if degree > 0 {
            before.push(CenterV { id, home: first_home(nodes[n - 1]), degree })
        } else {
            before
        }
    }
}

pub open spec fn with_stranger(nodes: Seq<GraphNode>, ids: Seq<Seq<char>>, id: Seq<char>) -> Seq<
    Seq<char>,
> {
    if store::node_index(nodes, id) is Some || ids.contains(id) {
        ids
    } else {
        ids.push(id)
    }
}

/// The ids at the ends of the first `n` edges that are none of the nodes.
pub open spec fn strangers(nodes: Seq<GraphNode>, list: Seq<GraphEdge>, n: int) -> Seq<Seq<char>>
    decreases n,
{
    if n <= 0 {
        Seq::empty()
    } else {
        with_stranger(
            nodes,
            with_stranger(nodes, strangers(nodes, list, n - 1), list[n - 1].source@),
            list[n - 1].target@,
        )
    }
}

pub open spec fn stranger_centers(list: Seq<GraphEdge>, ids: Seq<Seq<char>>) -> Seq<CenterV> {
    Seq::new(
        ids.len(),
        |i: int|
            CenterV {
                id: ids[i],
                home: GLOBAL_CLUSTER_ID@,
                degree: ends_of(list, ids[i], list.len() as int),
            },
    )
}

/// Everything that may be a centre.
pub open spec fn all_centers(nodes: Seq<GraphNode>, edges: Seq<EdgeRow>, list: Seq<GraphEdge>) -> Seq<
    CenterV,
> {
    node_centers(nodes, edges, list, nodes.len() as int) + stranger_centers(
        list,
        strangers(nodes, list, list.len() as int),
    )
}

/// The index of the centre of the cluster among the first `n`: the highest degree, of equal
/// ones the first id.
pub open spec fn best_center(cs: Seq<CenterV>, c: Seq<char>, n: int) -> Option<int>
    decreases n,
{
    if n <= 0 {
        None
    } else {
        let before = best_center(cs, c, n - 1);
        if cs[n - 1].home != c {
            before
        } else {
            match before {
                None => Some(n - 1),
                Some(k) => if cs[n - 1].degree > cs[k].degree || (cs[n - 1].degree == cs[k].degree
                    && text::text_lt(cs[n - 1].id, cs[k].id)) {
                    Some(n - 1)
                } else {
                    Some(k)
                },
            }
        }
    }
}

/// The ids of the first `n` nodes that are in the cluster.
pub open spec fn home_members(
    nodes: Seq<GraphNode>,
    homes: Seq<Seq<char>>,
    c: Seq<char>,
    n: int,
) -> Seq<Seq<char>>
    decreases n,
{
    if n <= 0 {
        Seq::empty()
    } else {
        let before = home_members(nodes, homes, c, n - 1);
        if homes[n - 1] == c {
            before.push(nodes[n - 1].id@)
        } else {
            before
        }
    }
}

/// The first of the first `n` texts.
pub open spec fn least(ids: Seq<Seq<char>>, n: int) -> Option<Seq<char>>
    decreases n,
{
    if n <= 0 {
        None
    } else {
        match least(ids, n - 1) {
            None => Some(ids[n - 1]),
            Some(x) => if text::text_lt(ids[n - 1], x) {
                Some(ids[n - 1])
            } else {
                Some(x)
            },
        }
    }
}

/// What a row of the table of clusters says.
pub struct ClusterV {
    pub id: Seq<char>,
    pub name: Seq<char>,
    pub description: Option<Seq<char>>,
    pub algorithm: Seq<char>,
    pub centroid: Option<Seq<char>>,
    pub node_count: u32,
    pub edge_count: u32,
    pub confidence: u32,
    pub created_at: i64,
    pub updated_at: i64,
}

pub open spec fn row_view(c: ClusterRow) -> ClusterV {
    ClusterV {
        id: c.id@,
        name: c.name@,
        description: store::opt_view(c.description),
        algorithm: c.algorithm@,
        centroid: store::opt_view(c.centroid),
        node_count: c.node_count,
        edge_count: c.edge_count,
        confidence: c.confidence,
        created_at: c.created_at,
        updated_at: c.updated_at,
    }
}

pub open spec fn row_views(cs: Seq<ClusterRow>) -> Seq<ClusterV> {
    Seq::new(cs.len(), |i: int| row_view(cs[i]))
}

/// The text under a cluster of directories.
pub open spec fn directory_description(nodes: nat, edges: nat) -> Seq<char> {
    "基于目录结构自动聚类的知识簇，包含 "@ + text::nat_text(nodes) + " 个节点、"@ + text::nat_text(edges)
        + " 条内部关系。"@
}

/// The cluster of directories with the id.
pub open spec fn directory_cluster(
    nodes: Seq<GraphNode>,
    edges: Seq<EdgeRow>,
    list: Seq<GraphEdge>,
    c: Seq<char>,
    now: i64,
) -> ClusterV {
    let members = home_members(nodes, final_homes(nodes, edges), c, nodes.len() as int);
    let inner = inner_edges(nodes, list, c, list.len() as int);
    let centers = all_centers(nodes, edges, list);
    ClusterV {
        id: c,
        name: clusters::display_name(c),
        description: Some(directory_description(members.len(), inner)),
        algorithm: "directory"@,
        centroid: match best_center(centers, c, centers.len() as int) {
            Some(k) => Some(centers[k].id),
            None => least(members, members.len() as int),
        },
        node_count: members.len() as u32,
        edge_count: inner as u32,
        confidence: model::WHOLE,
        created_at: now,
        updated_at: now,
    }
}

/// The clusters of directories, one for each cluster that a node is in.
pub open spec fn directory_clusters(nodes: Seq<GraphNode>, edges: Seq<EdgeRow>, now: i64) -> Seq<
    ClusterV,
> {
    let list = engine_edges(edges);
    let ids = text::distinct(final_homes(nodes, edges));
    Seq::new(ids.len(), |i: int| directory_cluster(nodes, edges, list, ids[i], now))
}

pub open spec fn view_size_keys(cs: Seq<ClusterV>) -> Seq<Seq<int>> {
    Seq::new(cs.len(), |i: int| seq![-(cs[i].node_count as int)])
}

/// The clusters, the larger ones first.
pub open spec fn by_size(cs: Seq<ClusterV>) -> Seq<ClusterV> {
    rows::rows_at(cs, rows::order_of(view_size_keys(cs)))
}

// ---- The table of members as pairs

pub open spec fn pair_views(ms: Seq<MemberRow>) -> Seq<(Seq<char>, Seq<char>)> {
    Seq::new(ms.len(), |i: int| (ms[i].cluster_id@, ms[i].node_id@))
}

pub open spec fn other_pair(c: Seq<char>) -> spec_fn((Seq<char>, Seq<char>)) -> bool {
    |p: (Seq<char>, Seq<char>)| p.0 != c
}

/// The pairs with the first `n` nodes added to the cluster.
pub open spec fn pairs_with(
    ps: Seq<(Seq<char>, Seq<char>)>,
    c: Seq<char>,
    ids: Seq<Seq<char>>,
    n: int,
) -> Seq<(Seq<char>, Seq<char>)>
    decreases n,
{
    if n <= 0 {
        ps
    } else {
        let before = pairs_with(ps, c, ids, n - 1);
        if before.contains((c, ids[n - 1])) {
            before
        } else {
            before.push((c, ids[n - 1]))
        }
    }
}

/// The pairs with the members of the cluster replaced.
pub open spec fn pairs_replaced(
    ps: Seq<(Seq<char>, Seq<char>)>,
    c: Seq<char>,
    ids: Seq<Seq<char>>,
) -> Seq<(Seq<char>, Seq<char>)> {
    pairs_with(rows::kept(ps, other_pair(c)), c, ids, ids.len() as int)
}

proof fn lemma_pairs_kept(ms: Seq<MemberRow>, c: Seq<char>)
    ensures
        pair_views(rows::kept(ms, clusters::not_in_cluster(c))) == rows::kept(
            pair_views(ms),
            other_pair(c),
        ),
    decreases ms.len(),
{
    if ms.len() > 0 {
        lemma_pairs_kept(ms.drop_last(), c);
        assert(pair_views(ms).drop_last() =~= pair_views(ms.drop_last()));
        let kept = rows::kept(ms.drop_last(), clusters::not_in_cluster(c));
        assert(pair_views(kept.push(ms.last())) =~= pair_views(kept).push(
            (ms.last().cluster_id@, ms.last().node_id@),
        ));
    } else {
        assert(pair_views(rows::kept(ms, clusters::not_in_cluster(c))) =~= rows::kept(
            pair_views(ms),
            other_pair(c),
        ));
    }
}

proof fn lemma_pairs_with(ms: Seq<MemberRow>, c: String, ids: Seq<String>, n: int)
    requires
        0 <= n <= ids.len(),
    ensures
        pair_views(clusters::with_members(ms, c, ids, n)) == pairs_with(
            pair_views(ms),
            c@,
            text::texts(ids),
            n,
        ),
    decreases n,
{
    if n > 0 {
        lemma_pairs_with(ms, c, ids, n - 1);
        let before = clusters::with_members(ms, c, ids, n - 1);
        let key = (c@, ids[n - 1]@);
        rows::lemma_row_index(before, store::member_key(), key, 0);
        match rows::row_index(before, store::member_key(), key, 0) {
            Some(i) => {
                assert(pair_views(before)[i] == key);
            },
            None => {
                if pair_views(before).contains(key) {
                    let i = choose|i: int|
                        0 <= i < pair_views(before).len() && pair_views(before)[i] == key;
                    assert(store::member_key()(before[i]) == key);
                }
                let row = MemberRow { cluster_id: c, node_id: ids[n - 1] };
                assert(pair_views(before.push(row)) =~= pair_views(before).push(key));
            },
        }
    }
}

/// The pairs with the members of the first `n` clusters replaced.
pub open spec fn pairs_after(
    ps: Seq<(Seq<char>, Seq<char>)>,
    nodes: Seq<GraphNode>,
    homes: Seq<Seq<char>>,
    ids: Seq<Seq<char>>,
    n: int,
) -> Seq<(Seq<char>, Seq<char>)>
    decreases n,
{
    if n <= 0 {
        ps
    } else {
        pairs_replaced(
            pairs_after(ps, nodes, homes, ids, n - 1),
            ids[n - 1],
            home_members(nodes, homes, ids[n - 1], nodes.len() as int),
        )
    }
}

// ---- Finding clusters of directories

/// The index of the node with the id.
fn position(nodes: &Vec<GraphNode>, id: &String) -> (r: Option<usize>)
    ensures
        match r {
            Some(i) => store::node_index(nodes@, id@) == Some(i as int) && i < nodes@.len(),
            None => store::node_index(nodes@, id@) is None,
        },
{
    let mut i: usize = 0;
    while i < nodes.len()
        invariant
            i <= nodes.len(),
            store::node_index(nodes@, id@) == rows::row_index(
                nodes@,
                store::node_key(),
                id@,
                i as int,
            ),
        decreases nodes.len() - i,
    {
        if nodes[i].id == *id {
            return Some(i);
        }
        i += 1;
    }
    None
}

fn home_by_path(n: &GraphNode) -> (r: String)
    ensures
        r@ == first_home(*n),
{
    match &n.path {
        Some(p) => clusters::cluster_id_for_path(p),
        None => GLOBAL_CLUSTER_ID.to_owned(),
    }
}

fn homes_by_path(nodes: &Vec<GraphNode>) -> (r: Vec<String>)
    ensures
        text::texts(r@) == first_homes(nodes@),
        r@.len() == nodes@.len(),
{
    let mut homes: Vec<String> = Vec::new();
    let mut i: usize = 0;
    while i < nodes.len()
        invariant
            i <= nodes.len(),
            homes@.len() == i,
            forall|k: int| 0 <= k < i ==> (#[trigger] homes@[k])@ == first_home(nodes@[k]),
        decreases nodes.len() - i,
    {
        homes.push(home_by_path(&nodes[i]));
        i += 1;
    }
    assert(text::texts(homes@) =~= first_homes(nodes@));
    homes
}

fn most_voted(b: &Vec<String>) -> (r: Option<String>)
    ensures
        match r {
            Some(c) => winner(text::texts(b@)) == Some(c@),
            None => winner(text::texts(b@)) is None,
        },
{
    let ghost bs = text::texts(b@);
    assert(bs.len() == b@.len());
    if b.len() == 0 {
        return None;
    }
    let mut best: usize = 0;
    let mut i: usize = 1;
    while i < b.len()
        invariant
            1 <= i <= b.len(),
            bs == text::texts(b@),
            best < i,
            best == best_ballot(bs, i as int),
        decreases b.len() - i,
    {
        if text::count_text(b, &b[i]) > text::count_text(b, &b[best]) {
            best = i;
        }
        i += 1;
    }
    Some(b[best].clone())
}

impl GraphStore {
    fn vote_of(&self, nodes: &Vec<GraphNode>, homes: &Vec<String>, id: &String) -> (r: Option<String>)
        requires
            homes@.len() == nodes@.len(),
        ensures
            match r {
                Some(c) => vote(nodes@, self.edges@, text::texts(homes@), id@) == Some(c@),
                None => vote(nodes@, self.edges@, text::texts(homes@), id@) is None,
            },
    {
        let nbs = self.neighbors_of(id);
        let ghost ns = text::texts(nbs@);
        assert(ns.len() == nbs@.len());
        let ghost hs = text::texts(homes@);
        let mut b: Vec<String> = Vec::new();
        let mut i: usize = 0;
        assert(text::texts(b@) =~= Seq::empty());
        while i < nbs.len()
            invariant
                i <= nbs.len(),
                homes@.len() == nodes@.len(),
                ns == text::texts(nbs@),
                hs == text::texts(homes@),
                text::texts(b@) == ballots(nodes@, hs, ns, i as int),
            decreases nbs.len() - i,
        {
            if let Some(k) = position(nodes, &nbs[i]) {
                proof {
                    text::lemma_texts_push(b@, homes@[k as int]);
                }
                b.push(homes[k].clone());
            }
            i += 1;
        }
        most_voted(&b)
    }

    /// The cluster of each node, and which nodes their neighbours moved.
    fn settle(&self, nodes: &Vec<GraphNode>) -> (r: (Vec<String>, Vec<bool>))
        ensures
            text::texts(r.0@) == final_homes(nodes@, self.edges@),
            r.0@.len() == nodes@.len(),
            r.1@.len() == nodes@.len(),
            forall|k: int| 0 <= k < r.1@.len() ==> #[trigger] r.1@[k] == is_moved(nodes@, self.edges@, k),
    {
        let mut homes = homes_by_path(nodes);
        let mut moved: Vec<bool> = Vec::new();
        let mut i: usize = 0;
        while i < nodes.len()
            invariant
                i <= nodes.len(),
                homes@.len() == nodes@.len(),
                text::texts(homes@) == homes_after(nodes@, self.edges@, i as int),
                moved@.len() == i,
                forall|k: int|
                    0 <= k < i ==> #[trigger] moved@[k] == is_moved(nodes@, self.edges@, k),
            decreases nodes.len() - i,
        {
            let mut here = false;
            if nodes[i].path.is_none() {
                if let Some(c) = self.vote_of(nodes, &homes, &nodes[i].id) {
                    let ghost before = homes@;
                    let ghost view = c@;
                    homes.set(i, c);
                    here = true;
                    assert(text::texts(homes@) =~= text::texts(before).update(i as int, view));
                }
            }
            moved.push(here);
            i += 1;
        }
        (homes, moved)
    }
}

fn count_ends(list: &Vec<GraphEdge>, id: &String) -> (n: u64)
    requires
        list@.len() <= ENGINE_EDGE_LIMIT,
    ensures
        n == ends_of(list@, id@, list@.len() as int),
        n <= 2 * list@.len(),
{
    let mut n: u64 = 0;
    let mut i: usize = 0;
    while i < list.len()
        invariant
            i <= list.len(),
            list@.len() <= ENGINE_EDGE_LIMIT,
            n <= 2 * i,
            n == ends_of(list@, id@, i as int),
        decreases list.len() - i,
    {
        if list[i].source == *id {
            n += 1;
        }
        if list[i].target == *id {
            n += 1;
        }
        i += 1;
    }
    n
}

fn is_home(nodes: &Vec<GraphNode>, homes: &Vec<String>, id: &String, c: &String) -> (r: bool)
    requires
        homes@.len() == nodes@.len(),
    ensures
        r == (or_global(home_at(nodes@, text::texts(homes@), id@)) == c@),
{
    match position(nodes, id) {
        Some(i) => homes[i] == *c,
        None => text::str_eq(c, GLOBAL_CLUSTER_ID),
    }
}

fn count_inner(nodes: &Vec<GraphNode>, list: &Vec<GraphEdge>, first: &Vec<String>, c: &String) -> (n:
    u32)
    requires
        first@.len() == nodes@.len(),
        text::texts(first@) == first_homes(nodes@),
        list@.len() <= ENGINE_EDGE_LIMIT,
    ensures
        n == inner_edges(nodes@, list@, c@, list@.len() as int),
{
    let mut n: u32 = 0;
    let mut i: usize = 0;
    while i < list.len()
        invariant
            i <= list.len(),
            first@.len() == nodes@.len(),
            text::texts(first@) == first_homes(nodes@),
            list@.len() <= ENGINE_EDGE_LIMIT,
            n <= i,
            n == inner_edges(nodes@, list@, c@, i as int),
        decreases list.len() - i,
    {
        if is_home(nodes, first, &list[i].source, c) && is_home(nodes, first, &list[i].target, c) {
            n += 1;
        }
        i += 1;
    }
    n
}

/// A node that may be the centre of a cluster.
struct Center {
    id: String,
    home: String,
    degree: u64,
}

spec fn center_view(c: Center) -> CenterV {
    CenterV { id: c.id@, home: c.home@, degree: c.degree as nat }
}

spec fn center_views(cs: Seq<Center>) -> Seq<CenterV> {
    Seq::new(cs.len(), |i: int| center_view(cs[i]))
}

proof fn lemma_center_push(cs: Seq<Center>, c: Center)
    ensures
        center_views(cs.push(c)) == center_views(cs).push(center_view(c)),
{
    assert(center_views(cs.push(c)) =~= center_views(cs).push(center_view(c)));
}

fn add_stranger(nodes: &Vec<GraphNode>, ids: &mut Vec<String>, id: &String)
    ensures
        text::texts(final(ids)@) == with_stranger(nodes@, text::texts(old(ids)@), id@),
{
    if position(nodes, id).is_none() {
        text::push_distinct(ids, id.clone());
    }
}

impl GraphStore {
    fn centers(
        &self,
        nodes: &Vec<GraphNode>,
        homes: &Vec<String>,
        moved: &Vec<bool>,
        list: &Vec<GraphEdge>,
    ) -> (r: Vec<Center>)
        requires
            homes@.len() == nodes@.len(),
            text::texts(homes@) == final_homes(nodes@, self.edges@),
            moved@.len() == nodes@.len(),
            forall|k: int| 0 <= k < moved@.len() ==> #[trigger] moved@[k] == is_moved(nodes@, self.edges@, k),
            list@.len() <= ENGINE_EDGE_LIMIT,
        ensures
            center_views(r@) == all_centers(nodes@, self.edges@, list@),
    {
        let mut cs: Vec<Center> = Vec::new();
        let mut i: usize = 0;
        assert(center_views(cs@) =~= Seq::empty());
        while i < nodes.len()
            invariant
                i <= nodes.len(),
                homes@.len() == nodes@.len(),
                text::texts(homes@) == final_homes(nodes@, self.edges@),
                moved@.len() == nodes@.len(),
                forall|k: int|
                    0 <= k < moved@.len() ==> #[trigger] moved@[k] == is_moved(nodes@, self.edges@, k),
                list@.len() <= ENGINE_EDGE_LIMIT,
                center_views(cs@) == node_centers(nodes@, self.edges@, list@, i as int),
            decreases nodes.len() - i,
        {
            let degree = count_ends(list, &nodes[i].id);
            if moved[i] {
                let c = Center { id: nodes[i].id.clone(), home: homes[i].clone(), degree: 1 };
                assert(text::texts(homes@)[i as int] == homes@[i as int]@);
                proof {
                    lemma_center_push(cs@, c);
                }
                cs.push(c);
            } else if degree > 0 {
                let c = Center { id: nodes[i].id.clone(), home: home_by_path(&nodes[i]), degree };
                proof {
                    lemma_center_push(cs@, c);
                }
                cs.push(c);
            }
            i += 1;
        }
        let mut ids: Vec<String> = Vec::new();
        let mut j: usize = 0;
        assert(text::texts(ids@) =~= Seq::empty());
        while j < list.len()
            invariant
                j <= list.len(),
                text::texts(ids@) == strangers(nodes@, list@, j as int),
            decreases list.len() - j,
        {
            add_stranger(nodes, &mut ids, &list[j].source);
            add_stranger(nodes, &mut ids, &list[j].target);
            j += 1;
        }
        let ghost own = center_views(cs@);
        let ghost others = stranger_centers(list@, text::texts(ids@));
        assert(text::texts(ids@).len() == ids@.len());
        let mut k: usize = 0;
        assert(own + others.take(0) =~= own);
        while k < ids.len()
            invariant
                k <= ids.len(),
                list@.len() <= ENGINE_EDGE_LIMIT,
                others == stranger_centers(list@, text::texts(ids@)),
                center_views(cs@) == own + others.take(k as int),
            decreases ids.len() - k,
        {
            let c = Center {
                id: ids[k].clone(),
                home: GLOBAL_CLUSTER_ID.to_owned(),
                degree: count_ends(list, &ids[k]),
            };
            proof {
                lemma_center_push(cs@, c);
                assert(others[k as int] == center_view(c));
                assert(own + others.take(k + 1) =~= (own + others.take(k as int)).push(
                    others[k as int],
                ));
            }
            cs.push(c);
            k += 1;
        }
        assert(others.take(k as int) == others);
        cs
    }
}

fn pick_center(cs: &Vec<Center>, c: &String) -> (r: Option<usize>)
    ensures
        match r {
            Some(k) => best_center(center_views(cs@), c@, cs@.len() as int) == Some(k as int) && k
                < cs@.len(),
            None => best_center(center_views(cs@), c@, cs@.len() as int) is None,
        },
{
    let ghost vs = center_views(cs@);
    let mut best: Option<usize> = None;
    let mut i: usize = 0;
    while i < cs.len()
        invariant
            i <= cs.len(),
            vs == center_views(cs@),
            match best {
                Some(k) => best_center(vs, c@, i as int) == Some(k as int) && k < i,
                None => best_center(vs, c@, i as int) is None,
            },
        decreases cs.len() - i,
    {
        assert(vs[i as int] == center_view(cs@[i as int]));
        if cs[i].home == *c {
            best = match best {
                None => Some(i),
                Some(k) => {
                    assert(vs[k as int] == center_view(cs@[k as int]));
                    if cs[i].degree > cs[k].degree || (cs[i].degree == cs[k].degree
                        && text::text_less(&cs[i].id, &cs[k].id)) {
                        Some(i)
                    } else {
                        Some(k)
                    }
                },
            };
        }
        i += 1;
    }
    best
}

fn members_at(nodes: &Vec<GraphNode>, homes: &Vec<String>, c: &String) -> (r: Vec<String>)
    requires
        homes@.len() == nodes@.len(),
    ensures
        text::texts(r@) == home_members(nodes@, text::texts(homes@), c@, nodes@.len() as int),
        r@.len() <= nodes@.len(),
{
    let ghost hs = text::texts(homes@);
    let mut out: Vec<String> = Vec::new();
    let mut i: usize = 0;
    assert(text::texts(out@) =~= Seq::empty());
    while i < nodes.len()
        invariant
            i <= nodes.len(),
            homes@.len() == nodes@.len(),
            hs == text::texts(homes@),
            out@.len() <= i,
            text::texts(out@) == home_members(nodes@, hs, c@, i as int),
        decreases nodes.len() - i,
    {
        if homes[i] == *c {
            proof {
                text::lemma_texts_push(out@, nodes@[i as int].id);
            }
            out.push(nodes[i].id.clone());
        }
        i += 1;
    }
    out
}

fn least_of(ids: &Vec<String>) -> (r: Option<String>)
    ensures
        match r {
            Some(x) => least(text::texts(ids@), ids@.len() as int) == Some(x@),
            None => least(text::texts(ids@), ids@.len() as int) is None,
        },
{
    let ghost vs = text::texts(ids@);
    let mut best: Option<usize> = None;
    let mut i: usize = 0;
    while i < ids.len()
        invariant
            i <= ids.len(),
            vs == text::texts(ids@),
            match best {
                Some(k) => k < i && least(vs, i as int) == Some(ids@[k as int]@),
                None => least(vs, i as int) is None,
            },
        decreases ids.len() - i,
    {
        best = match best {
            None => Some(i),
            Some(k) => if text::text_less(&ids[i], &ids[k]) {
                Some(i)
            } else {
                Some(k)
            },
        };
        i += 1;
    }
    match best {
        Some(k) => Some(ids[k].clone()),
        None => None,
    }
}

fn describe(head: &str, nodes: u64, edges: u64) -> (r: String)
    ensures
        r@ == head@ + text::nat_text(nodes as nat) + " 个节点、"@ + text::nat_text(edges as nat)
            + " 条内部关系。"@,
{
    let mut r = head.to_owned();
    let n = text::u64_text(nodes);
    r.push_str(&n);
    r.push_str(" 个节点、");
    let e = text::u64_text(edges);
    r.push_str(&e);
    r.push_str(" 条内部关系。");
    r
}

fn distinct_texts(v: &Vec<String>) -> (r: Vec<String>)
    ensures
        text::texts(r@) == text::distinct(text::texts(v@)),
        r@.len() <= v@.len(),
{
    let ghost vs = text::texts(v@);
    let mut out: Vec<String> = Vec::new();
    let mut i: usize = 0;
    assert(text::texts(out@) =~= text::distinct(vs.take(0)));
    while i < v.len()
        invariant
            i <= v.len(),
            vs == text::texts(v@),
            text::texts(out@) == text::distinct(vs.take(i as int)),
            out@.len() <= i,
        decreases v.len() - i,
    {
        proof {
            assert(vs.take(i + 1) =~= vs.take(i as int).push(vs[i as int]));
            text::lemma_distinct_push(vs.take(i as int), vs[i as int]);
            assert(text::texts(out@).len() == out@.len());
        }
        text::push_distinct(&mut out, v[i].clone());
        assert(text::texts(out@).len() == out@.len());
        i += 1;
    }
    assert(vs.take(i as int) == vs);
    out
}

/// The clusters in the order of their size.
fn sort_by_size(cs: &Vec<ClusterRow>) -> (r: Vec<ClusterRow>)
    ensures
        r@ == rows::rows_at(cs@, rows::order_of(clusters::size_keys(cs@))),
{
    let mut keys: Vec<Vec<i128>> = Vec::new();
    let mut i: usize = 0;
    while i < cs.len()
        invariant
            i <= cs.len(),
            keys@.len() == i,
            forall|k: int|
                0 <= k < i ==> rows::key_view(#[trigger] keys@[k]@) == seq![
                    -(cs@[k].node_count as int),
                ],
        decreases cs.len() - i,
    {
        keys.push(rows::number_key(-(cs[i].node_count as i128)));
        i += 1;
    }
    assert(rows::keys_view(keys@) =~= clusters::size_keys(cs@));
    let order = rows::order_rows(&keys);
    let ghost sorted = rows::rows_at(cs@, rows::indices(order@));
    let mut r: Vec<ClusterRow> = Vec::new();
    let mut j: usize = 0;
    while j < order.len()
        invariant
            j <= order.len(),
            forall|k: int| 0 <= k < order@.len() ==> (#[trigger] order@[k]) < cs@.len(),
            sorted == rows::rows_at(cs@, rows::indices(order@)),
            r@ == sorted.take(j as int),
        decreases order.len() - j,
    {
        assert(sorted[j as int] == cs@[order@[j as int] as int]);
        assert(sorted.take(j + 1) =~= sorted.take(j as int).push(sorted[j as int]));
        r.push(cs[order[j]].clone());
        j += 1;
    }
    assert(sorted.take(j as int) == sorted);
    r
}

proof fn lemma_sorted_views(cs: Seq<ClusterRow>)
    requires
        rows::unique(cs, store::cluster_key()),
    ensures
        row_views(rows::rows_at(cs, rows::order_of(clusters::size_keys(cs)))) == by_size(
            row_views(cs),
        ),
        rows::unique(
            rows::rows_at(cs, rows::order_of(clusters::size_keys(cs))),
            store::cluster_key(),
        ),
        rows::rows_at(cs, rows::order_of(clusters::size_keys(cs))).len() == cs.len(),
{
    let keys = clusters::size_keys(cs);
    let order = rows::order_of(keys);
    let sorted = rows::rows_at(cs, order);
    assert(view_size_keys(row_views(cs)) =~= keys);
    rows::lemma_order_of_first(keys, keys.len() as int);
    assert(row_views(sorted) =~= by_size(row_views(cs)));
    assert forall|x: int, y: int| 0 <= x < y < sorted.len() implies store::cluster_key()(
        #[trigger] sorted[x],
    ) != store::cluster_key()(#[trigger] sorted[y]) by {
        assert(rows::row_lt(keys, order[x], order[y]));
        assert(sorted[x] == cs[order[x]] && sorted[y] == cs[order[y]]);
        if order[x] == order[y] {
            rows::lemma_key_lt_irreflexive(keys[order[x]]);
        }
    }
}

/// Whether the store is what it was with the clusters of directories found anew.
pub open spec fn is_rebuilt(before: GraphStore, after: GraphStore, now: i64) -> bool {
    let nodes = engine_nodes(before.nodes@);
    let homes = final_homes(nodes, before.edges@);
    let ids = text::distinct(homes);
    &&& row_views(after.clusters@) == by_size(directory_clusters(nodes, before.edges@, now))
    &&& pair_views(after.members@) == pairs_after(
        pair_views(before.members@),
        nodes,
        homes,
        ids,
        ids.len() as int,
    )
    &&& after == (GraphStore {
        clusters: after.clusters,
        members: after.members,
        version: store::next_version(before.version),
        ..before
    })
}

impl GraphStore {
    fn directory_row(
        &self,
        nodes: &Vec<GraphNode>,
        list: &Vec<GraphEdge>,
        first: &Vec<String>,
        centers: &Vec<Center>,
        c: &String,
        members: &Vec<String>,
        now: i64,
    ) -> (r: ClusterRow)
        requires
            nodes@.len() <= clusters::CLUSTER_NODE_LIMIT,
            members@.len() <= nodes@.len(),
            list@.len() <= ENGINE_EDGE_LIMIT,
            first@.len() == nodes@.len(),
            text::texts(first@) == first_homes(nodes@),
            center_views(centers@) == all_centers(nodes@, self.edges@, list@),
            text::texts(members@) == home_members(
                nodes@,
                final_homes(nodes@, self.edges@),
                c@,
                nodes@.len() as int,
            ),
        ensures
            row_view(r) == directory_cluster(nodes@, self.edges@, list@, c@, now),
            r.id@ == c@,
    {
        let inner = count_inner(nodes, list, first, c);
        assert(center_views(centers@).len() == centers@.len());
        assert(text::texts(members@).len() == members@.len());
        let centroid = match pick_center(centers, c) {
            Some(k) => {
                assert(center_views(centers@)[k as int] == center_view(centers@[k as int]));
                Some(centers[k].id.clone())
            },
            None => least_of(members),
        };
        ClusterRow {
            id: c.clone(),
            name: clusters::cluster_display_name(c),
            description: Some(
                describe("基于目录结构自动聚类的知识簇，包含 ", members.len() as u64, inner as u64),
            ),
            algorithm: "directory".to_owned(),
            centroid,
            node_count: members.len() as u32,
            edge_count: inner,
            confidence: model::WHOLE,
            created_at: now,
            updated_at: now,
        }
    }

    /// Finds the clusters of directories anew. Returns how many there are.
    pub(crate) fn rebuild_clusters(&mut self, now: i64) -> (n: usize)
        requires
            old(self).wf(),
        ensures
            final(self).wf(),
            is_rebuilt(*old(self), *final(self), now),
            n == final(self).clusters@.len(),
    {
        let nodes = self.all_nodes(clusters::CLUSTER_NODE_LIMIT);
        let list = self.all_edges(ENGINE_EDGE_LIMIT);
        let first = homes_by_path(&nodes);
        let settled = self.settle(&nodes);
        let homes = settled.0;
        let moved = settled.1;
        let centers = self.centers(&nodes, &homes, &moved, &list);
        let ids = distinct_texts(&homes);
        let ghost hs = text::texts(homes@);
        let ghost cs = text::texts(ids@);
        let ghost pairs = pair_views(self.members@);
        let ghost made = directory_clusters(nodes@, self.edges@, now);
        assert(cs.len() == ids@.len());
        let mut table: Vec<ClusterRow> = Vec::new();
        let mut i: usize = 0;
        assert(row_views(table@) =~= made.take(0));
        while i < ids.len()
            invariant
                i <= ids.len(),
                self.wf(),
                nodes@ == engine_nodes(old(self).nodes@),
                nodes@.len() <= clusters::CLUSTER_NODE_LIMIT,
                list@ == engine_edges(old(self).edges@),
                list@.len() <= ENGINE_EDGE_LIMIT,
                first@.len() == nodes@.len(),
                text::texts(first@) == first_homes(nodes@),
                homes@.len() == nodes@.len(),
                hs == text::texts(homes@),
                hs == final_homes(nodes@, old(self).edges@),
                center_views(centers@) == all_centers(nodes@, old(self).edges@, list@),
                cs == text::texts(ids@),
                cs == text::distinct(hs),
                made == directory_clusters(nodes@, old(self).edges@, now),
                made.len() == ids@.len(),
                pairs == pair_views(old(self).members@),
                row_views(table@) == made.take(i as int),
                forall|k: int| 0 <= k < i ==> (#[trigger] table@[k]).id@ == cs[k],
                table@.len() == i,
                pair_views(self.members@) == pairs_after(pairs, nodes@, hs, cs, i as int),
                *self == (GraphStore { members: self.members, ..*old(self) }),
            decreases ids.len() - i,
        {
            let members = members_at(&nodes, &homes, &ids[i]);
            let row = self.directory_row(&nodes, &list, &first, &centers, &ids[i], &members, now);
            proof {
                let before = self.members@;
                lemma_pairs_kept(before, ids@[i as int]@);
                lemma_pairs_with(
                    rows::kept(before, clusters::not_in_cluster(ids@[i as int]@)),
                    ids@[i as int],
                    members@,
                    members@.len() as int,
                );
                assert(text::texts(members@).len() == members@.len());
                assert(made[i as int] == row_view(row));
                assert(row_views(table@.push(row)) =~= made.take(i + 1));
            }
            self.replace_cluster_members(&ids[i], &members);
            table.push(row);
            i += 1;
        }
        let sorted = sort_by_size(&table);
        proof {
            assert(made.take(i as int) == made);
            text::lemma_distinct(hs);
            assert forall|x: int, y: int| 0 <= x < y < table@.len() implies store::cluster_key()(
                #[trigger] table@[x],
            ) != store::cluster_key()(#[trigger] table@[y]) by {
                assert(cs[x] != cs[y]);
            }
            lemma_sorted_views(table@);
        }
        let n = sorted.len();
        self.clusters = sorted;
        self.bump_version();
        n
    }
}

/// After clusters have been found, every node that was looked at is listed in its cluster.
pub proof fn law_every_node_is_in_a_cluster(
    ps: Seq<(Seq<char>, Seq<char>)>,
    nodes: Seq<GraphNode>,
    homes: Seq<Seq<char>>,
    k: int,
)
    requires
        homes.len() == nodes.len(),
        0 <= k < nodes.len(),
    ensures
        pairs_after(
            ps,
            nodes,
            homes,
            text::distinct(homes),
            text::distinct(homes).len() as int,
        ).contains((homes[k], nodes[k].id@)),
{
    let ids = text::distinct(homes);
    text::lemma_distinct(homes);
    assert(homes.contains(homes[k]));
    assert(ids.contains(homes[k]));
    let j = choose|j: int| 0 <= j < ids.len() && ids[j] == homes[k];
    lemma_listed_after(ps, nodes, homes, ids, j, k, ids.len() as int);
}

proof fn lemma_listed_after(
    ps: Seq<(Seq<char>, Seq<char>)>,
    nodes: Seq<GraphNode>,
    homes: Seq<Seq<char>>,
    ids: Seq<Seq<char>>,
    j: int,
    k: int,
    n: int,
)
    requires
        homes.len() == nodes.len(),
        0 <= k < nodes.len(),
        ids.no_duplicates(),
        0 <= j < n <= ids.len(),
        ids[j] == homes[k],
    ensures
        pairs_after(ps, nodes, homes, ids, n).contains((homes[k], nodes[k].id@)),
    decreases n,
{
    let p = (homes[k], nodes[k].id@);
    let before = pairs_after(ps, nodes, homes, ids, n - 1);
    let c = ids[n - 1];
    let members = home_members(nodes, homes, c, nodes.len() as int);
    let rest = rows::kept(before, other_pair(c));
    if j == n - 1 {
        lemma_home_members(nodes, homes, c, nodes.len() as int, k);
        let x = choose|x: int| 0 <= x < members.len() && members[x] == nodes[k].id@;
        lemma_pairs_listed(rest, c, members, members.len() as int, x);
    } else {
        lemma_listed_after(ps, nodes, homes, ids, j, k, n - 1);
        rows::lemma_kept(before, other_pair(c));
        let x = choose|x: int| 0 <= x < before.len() && before[x] == p;
        assert(other_pair(c)(before[x]));
        lemma_pairs_stay(rest, c, members, members.len() as int, p);
    }
}

proof fn lemma_home_members(
    nodes: Seq<GraphNode>,
    homes: Seq<Seq<char>>,
    c: Seq<char>,
    n: int,
    k: int,
)
    requires
        0 <= k < n <= nodes.len(),
        homes.len() == nodes.len(),
        homes[k] == c,
    ensures
        home_members(nodes, homes, c, n).contains(nodes[k].id@),
    decreases n,
{
    let before = home_members(nodes, homes, c, n - 1);
    let after = home_members(nodes, homes, c, n);
    if k == n - 1 {
        assert(after[after.len() - 1] == nodes[k].id@);
    } else {
        lemma_home_members(nodes, homes, c, n - 1, k);
        let x = choose|x: int| 0 <= x < before.len() && before[x] == nodes[k].id@;
        assert(after[x] == before[x]);
    }
}

proof fn lemma_pairs_stay(
    ps: Seq<(Seq<char>, Seq<char>)>,
    c: Seq<char>,
    ids: Seq<Seq<char>>,
    n: int,
    p: (Seq<char>, Seq<char>),
)
    requires
        ps.contains(p),
    ensures
        pairs_with(ps, c, ids, n).contains(p),
    decreases n,
{
    if n > 0 {
        lemma_pairs_stay(ps, c, ids, n - 1, p);
        let before = pairs_with(ps, c, ids, n - 1);
        let x = choose|x: int| 0 <= x < before.len() && before[x] == p;
        assert(pairs_with(ps, c, ids, n)[x] == p);
    }
}

proof fn lemma_pairs_listed(
    ps: Seq<(Seq<char>, Seq<char>)>,
    c: Seq<char>,
    ids: Seq<Seq<char>>,
    n: int,
    x: int,
)
    requires
        0 <= x < n <= ids.len(),
    ensures
        pairs_with(ps, c, ids, n).contains((c, ids[x])),
    decreases n,
{
    let before = pairs_with(ps, c, ids, n - 1);
    let after = pairs_with(ps, c, ids, n);
    if x == n - 1 {
        if !before.contains((c, ids[x])) {
            assert(after[after.len() - 1] == (c, ids[x]));
        }
    } else {
        lemma_pairs_listed(ps, c, ids, n - 1, x);
        let y = choose|y: int| 0 <= y < before.len() && before[y] == (c, ids[x]);
        assert(after[y] == before[y]);
    }
}

/// How many nodes the clusters say that they have, all together.
pub open spec fn nodes_counted(cs: Seq<ClusterV>) -> nat
    decreases cs.len(),
{
    if cs.len() == 0 {
        0
    } else {
        nodes_counted(cs.drop_last()) + cs.last().node_count as nat
    }
}

proof fn lemma_counted_append(a: Seq<ClusterV>, b: Seq<ClusterV>)
    ensures
        nodes_counted(a + b) == nodes_counted(a) + nodes_counted(b),
    decreases b.len(),
{
    if b.len() == 0 {
        assert(a + b == a);
    } else {
        lemma_counted_append(a, b.drop_last());
        assert((a + b).drop_last() == a + b.drop_last());
    }
}

proof fn lemma_counted_insert(cs: Seq<ClusterV>, pos: int, c: ClusterV)
    requires
        0 <= pos <= cs.len(),
    ensures
        nodes_counted(cs.insert(pos, c)) == nodes_counted(cs) + c.node_count,
{
    let a = cs.take(pos);
    let b = cs.skip(pos);
    assert(cs =~= a + b);
    assert(cs.insert(pos, c) =~= a.push(c) + b);
    assert(a.push(c).drop_last() == a);
    lemma_counted_append(a, b);
    lemma_counted_append(a.push(c), b);
}

/// Putting clusters in order changes nothing about the sum.
proof fn lemma_counted_in_order(cs: Seq<ClusterV>, keys: Seq<Seq<int>>, n: int)
    requires
        keys.len() == cs.len(),
        0 <= n <= cs.len(),
    ensures
        nodes_counted(rows::rows_at(cs, rows::order_of_first(keys, n))) == nodes_counted(
            cs.take(n),
        ),
    decreases n,
{
    if n > 0 {
        lemma_counted_in_order(cs, keys, n - 1);
        rows::lemma_order_of_first(keys, n - 1);
        rows::lemma_order_of_first(keys, n);
        let before = rows::order_of_first(keys, n - 1);
        let after = rows::order_of_first(keys, n);
        let pos = rows::insert_pos(keys, before, keys[n - 1], before.len() as int);
        rows::lemma_insert_pos(keys, before, keys[n - 1], before.len() as int);
        lemma_counted_insert(rows::rows_at(cs, before), pos, cs[n - 1]);
        assert(rows::rows_at(cs, after) =~= rows::rows_at(cs, before).insert(pos, cs[n - 1]));
        assert(cs.take(n).drop_last() =~= cs.take(n - 1));
    } else {
        assert(cs.take(0) =~= Seq::<ClusterV>::empty());
        assert(rows::rows_at(cs, rows::order_of_first(keys, n)) =~= Seq::<ClusterV>::empty());
    }
}

/// How many of the first `n` nodes are in the first `m` clusters.
spec fn members_counted(
    nodes: Seq<GraphNode>,
    homes: Seq<Seq<char>>,
    ids: Seq<Seq<char>>,
    m: int,
    n: int,
) -> nat
    decreases m,
{
    if m <= 0 {
        0
    } else {
        members_counted(nodes, homes, ids, m - 1, n) + home_members(
            nodes,
            homes,
            ids[m - 1],
            n,
        ).len()
    }
}

proof fn lemma_one_more_member(
    nodes: Seq<GraphNode>,
    homes: Seq<Seq<char>>,
    ids: Seq<Seq<char>>,
    m: int,
    n: int,
    j: int,
)
    requires
        ids.no_duplicates(),
        0 <= m <= ids.len(),
        0 < n <= nodes.len(),
        homes.len() == nodes.len(),
        0 <= j < ids.len(),
        ids[j] == homes[n - 1],
    ensures
        members_counted(nodes, homes, ids, m, n) == members_counted(nodes, homes, ids, m, n - 1)
            + (if j < m {
            1nat
        } else {
            0nat
        }),
    decreases m,
{
    if m > 0 {
        lemma_one_more_member(nodes, homes, ids, m - 1, n, j);
        if j != m - 1 {
            assert(ids[j] != ids[m - 1]);
        }
    }
}

proof fn lemma_no_members(
    nodes: Seq<GraphNode>,
    homes: Seq<Seq<char>>,
    ids: Seq<Seq<char>>,
    m: int,
)
    ensures
        members_counted(nodes, homes, ids, m, 0) == 0,
    decreases m,
{
    if m > 0 {
        lemma_no_members(nodes, homes, ids, m - 1);
    }
}

/// Every node is a member of one cluster.
proof fn lemma_members_counted(
    nodes: Seq<GraphNode>,
    homes: Seq<Seq<char>>,
    ids: Seq<Seq<char>>,
    n: int,
)
    requires
        ids.no_duplicates(),
        homes.len() == nodes.len(),
        forall|k: int| 0 <= k < homes.len() ==> ids.contains(#[trigger] homes[k]),
        0 <= n <= nodes.len(),
    ensures
        members_counted(nodes, homes, ids, ids.len() as int, n) == n,
    decreases n,
{
    if n == 0 {
        lemma_no_members(nodes, homes, ids, ids.len() as int);
    } else {
        lemma_members_counted(nodes, homes, ids, n - 1);
        assert(ids.contains(homes[n - 1]));
        let j = choose|j: int| 0 <= j < ids.len() && ids[j] == homes[n - 1];
        lemma_one_more_member(nodes, homes, ids, ids.len() as int, n, j);
    }
}

proof fn lemma_few_members(nodes: Seq<GraphNode>, homes: Seq<Seq<char>>, c: Seq<char>, n: int)
    requires
        n >= 0,
    ensures
        home_members(nodes, homes, c, n).len() <= n,
    decreases n,
{
    if n > 0 {
        lemma_few_members(nodes, homes, c, n - 1);
    }
}

proof fn lemma_clusters_counted(
    nodes: Seq<GraphNode>,
    edges: Seq<EdgeRow>,
    now: i64,
    m: int,
)
    requires
        nodes.len() <= clusters::CLUSTER_NODE_LIMIT,
        0 <= m <= directory_clusters(nodes, edges, now).len(),
    ensures
        nodes_counted(directory_clusters(nodes, edges, now).take(m)) == members_counted(
            nodes,
            final_homes(nodes, edges),
            text::distinct(final_homes(nodes, edges)),
            m,
            nodes.len() as int,
        ),
    decreases m,
{
    let cs = directory_clusters(nodes, edges, now);
    let homes = final_homes(nodes, edges);
    let ids = text::distinct(homes);
    if m > 0 {
        lemma_clusters_counted(nodes, edges, now, m - 1);
        assert(cs.take(m).drop_last() =~= cs.take(m - 1));
        lemma_few_members(nodes, homes, ids[m - 1], nodes.len() as int);
        assert(cs[m - 1] == directory_cluster(nodes, edges, engine_edges(edges), ids[m - 1], now));
    } else {
        assert(cs.take(0) =~= Seq::<ClusterV>::empty());
    }
}

pub(crate) proof fn lemma_homes_after(nodes: Seq<GraphNode>, edges: Seq<EdgeRow>, k: int)
    requires
        0 <= k <= nodes.len(),
    ensures
        homes_after(nodes, edges, k).len() == nodes.len(),
        forall|i: int|
            0 <= i < nodes.len() && nodes[i].path is Some ==> #[trigger] homes_after(
                nodes,
                edges,
                k,
            )[i] == first_home(nodes[i]),
    decreases k,
{
    if k > 0 {
        lemma_homes_after(nodes, edges, k - 1);
    }
}

/// Every node that stands for more than a part of a document is counted in one cluster: the
/// clusters that are found have different ids, and together they have as many nodes as there
/// are such nodes in the graph. A node with a path is a member of the cluster of its path.
pub proof fn law_every_node_is_counted_once(before: GraphStore, after: GraphStore, now: i64)
    requires
        is_rebuilt(before, after, now),
        rows::kept(before.nodes@, lists::structural()).len() <= clusters::CLUSTER_NODE_LIMIT,
    ensures
        forall|i: int, j: int|
            0 <= i < j < after.clusters@.len() ==> (#[trigger] after.clusters@[i]).id@ != (
            #[trigger] after.clusters@[j]).id@,
        nodes_counted(row_views(after.clusters@)) == rows::kept(
            before.nodes@,
            lists::structural(),
        ).len(),
        forall|x: int|
            0 <= x < before.nodes@.len() && lists::is_structural(#[trigger] before.nodes@[x])
                && before.nodes@[x].path is Some ==> pair_views(after.members@).contains(
                (first_home(before.nodes@[x]), before.nodes@[x].id@),
            ),
{
    let all = rows::kept(before.nodes@, lists::structural());
    let keys = lists::id_keys(all);
    let order = rows::order_of(keys);
    let nodes = engine_nodes(before.nodes@);
    let edges = before.edges@;
    let homes = final_homes(nodes, edges);
    let ids = text::distinct(homes);
    let cs = directory_clusters(nodes, edges, now);
    let sizes = view_size_keys(cs);
    rows::lemma_order_of_first(keys, keys.len() as int);
    rows::lemma_order_of_first(sizes, sizes.len() as int);
    assert(nodes == rows::rows_at(all, order));
    lemma_homes_after(nodes, edges, nodes.len() as int);
    text::lemma_distinct(homes);
    assert forall|k: int| 0 <= k < homes.len() implies ids.contains(#[trigger] homes[k]) by {
        assert(homes.contains(homes[k]));
    }
    lemma_counted_in_order(cs, sizes, cs.len() as int);
    assert(cs.take(cs.len() as int) =~= cs);
    lemma_clusters_counted(nodes, edges, now, cs.len() as int);
    lemma_members_counted(nodes, homes, ids, nodes.len() as int);
    let found = row_views(after.clusters@);
    let places = rows::order_of(sizes);
    assert forall|i: int, j: int| 0 <= i < j < after.clusters@.len() implies (
    #[trigger] after.clusters@[i]).id@ != (#[trigger] after.clusters@[j]).id@ by {
        assert(found[i].id == after.clusters@[i].id@);
        assert(found[j].id == after.clusters@[j].id@);
        assert(found[i] == cs[places[i]]);
        assert(found[j] == cs[places[j]]);
        assert(rows::row_lt(sizes, places[i], places[j]));
        if places[i] == places[j] {
            rows::lemma_key_lt_irreflexive(sizes[places[i]]);
        }
        assert(ids[places[i]] != ids[places[j]]);
    }
    assert forall|x: int|
        0 <= x < before.nodes@.len() && lists::is_structural(#[trigger] before.nodes@[x])
            && before.nodes@[x].path is Some implies pair_views(after.members@).contains(
        (first_home(before.nodes@[x]), before.nodes@[x].id@),
    ) by {
        let node = before.nodes@[x];
        rows::lemma_kept(before.nodes@, lists::structural());
        assert(lists::structural()(before.nodes@[x]));
        assert(all.contains(node));
        let y = choose|y: int| 0 <= y < all.len() && all[y] == node;
        assert(order.contains(y));
        let k = choose|k: int| 0 <= k < order.len() && order[k] == y;
        assert(nodes[k] == node);
        law_every_node_is_in_a_cluster(pair_views(before.members@), nodes, homes, k);
        assert(homes[k] == first_home(nodes[k]));
    }
}

// ---- Clusters of topics

/// The index of the group that is closest, among the first `n`, where one is close enough;
/// of equally close ones the first.
pub open spec fn closest(sims: Seq<i64>, threshold: i64, n: int) -> Option<int>
    decreases n,
{
    if n <= 0 {
        None
    } else {
        match closest(sims, threshold, n - 1) {
            None => if sims[n - 1] >= threshold {
                Some(n - 1)
            } else {
                None
            },
            Some(k) => if sims[n - 1] > sims[k] {
                Some(n - 1)
            } else {
                Some(k)
            },
        }
    }
}

/// Documents in groups of one topic each.
#[derive(Debug)]
pub struct TopicGroups {
    pub groups: Vec<Vec<String>>,
}

pub open spec fn group_views(gs: Seq<Vec<String>>) -> Seq<Seq<String>> {
    Seq::new(gs.len(), |i: int| gs[i]@)
}

impl TopicGroups {
    pub fn new() -> (r: Self)
        ensures
            r.groups@.len() == 0,
    {
        TopicGroups { groups: Vec::new() }
    }

    /// Puts a document into the group to which it is closest, or into a new one where it is
    /// close to none. `sims` says how close it is to each group, in any measure that grows
    /// with closeness. Returns the group that it joined.
    pub fn place(&mut self, doc_id: String, sims: &Vec<i64>, threshold: i64) -> (r: Option<usize>)
        requires
            sims@.len() == old(self).groups@.len(),
        ensures
            match r {
                Some(k) => closest(sims@, threshold, sims@.len() as int) == Some(k as int) && k
                    < old(self).groups@.len() && group_views(final(self).groups@) == group_views(
                    old(self).groups@,
                ).update(k as int, old(self).groups@[k as int]@.push(doc_id)),
                None => closest(sims@, threshold, sims@.len() as int) is None && group_views(
                    final(self).groups@,
                ) == group_views(old(self).groups@).push(seq![doc_id]),
            },
    {
        let mut best: Option<usize> = None;
        let mut i: usize = 0;
        while i < sims.len()
            invariant
                i <= sims.len(),
                match best {
                    Some(k) => k < i && closest(sims@, threshold, i as int) == Some(k as int),
                    None => closest(sims@, threshold, i as int) is None,
                },
            decreases sims.len() - i,
        {
            best = match best {
                None => if sims[i] >= threshold {
                    Some(i)
                } else {
                    None
                },
                Some(k) => if sims[i] > sims[k] {
                    Some(i)
                } else {
                    Some(k)
                },
            };
            i += 1;
        }
        let ghost before = self.groups@;
        match best {
            Some(k) => {
                self.groups[k].push(doc_id);
                assert(group_views(self.groups@) =~= group_views(before).update(
                    k as int,
                    before[k as int]@.push(doc_id),
                ));
            },
            None => {
                let mut one: Vec<String> = Vec::new();
                one.push(doc_id);
                self.groups.push(one);
                assert(group_views(self.groups@) =~= group_views(before).push(seq![doc_id]));
            },
        }
        best
    }
}

/// A member with the most edges so far.
pub struct BestV {
    pub id: Option<Seq<char>>,
    pub degree: u32,
}

/// The member with the most edges among the first `n`; of equal ones the first. One without
/// edges does not count.
pub open spec fn best_member(edges: Seq<EdgeRow>, members: Seq<Seq<char>>, n: int) -> BestV
    decreases n,
{
    if n <= 0 {
        BestV { id: None, degree: 0 }
    } else {
        let before = best_member(edges, members, n - 1);
        let d = query::degree_of(edges, members[n - 1]) as u32;
        if d > before.degree {
            BestV { id: Some(members[n - 1]), degree: d }
        } else {
            before
        }
    }
}

/// The name of a topic after the first `n` members: the name of a document takes its place
/// where it is longer and still short.
pub open spec fn topic_name(
    nodes: Seq<GraphNode>,
    members: Seq<Seq<char>>,
    start: Seq<char>,
    n: int,
) -> Seq<char>
    decreases n,
{
    if n <= 0 {
        start
    } else {
        let before = topic_name(nodes, members, start, n - 1);
        match store::node_index(nodes, members[n - 1]) {
            Some(i) => if nodes[i].node_type == NodeType::Doc && text::byte_size(nodes[i].name@)
                > text::byte_size(before) && text::byte_size(nodes[i].name@) < 24 {
                text::trim_suffix(nodes[i].name@, ".md"@)
            } else {
                before
            },
            None => before,
        }
    }
}

/// How many edges lead from a member to a member.
pub open spec fn joining_count(list: Seq<GraphEdge>, members: Seq<Seq<char>>) -> nat {
    rows::kept(list, clusters::joins_members(members)).len()
}

pub open spec fn topic_id(i: int) -> Seq<char> {
    "cluster:emb:"@ + text::nat_text((i + 1) as nat)
}

pub open spec fn topic_cluster(
    nodes: Seq<GraphNode>,
    edges: Seq<EdgeRow>,
    members: Seq<Seq<char>>,
    i: int,
    now: i64,
) -> ClusterV {
    let inner = joining_count(engine_edges(edges), members);
    ClusterV {
        id: topic_id(i),
        name: topic_name(
            nodes,
            members,
            "主题簇 "@ + text::nat_text((i + 1) as nat),
            members.len() as int,
        ),
        description: Some(
            "基于 Embedding 语义相似度自动聚类的知识簇，包含 "@ + text::nat_text(members.len()) + " 个节点、"@
                + text::nat_text(inner) + " 条内部关系。"@,
        ),
        algorithm: "embedding"@,
        centroid: best_member(edges, members, members.len() as int).id,
        node_count: members.len() as u32,
        edge_count: inner as u32,
        confidence: model::WHOLE,
        created_at: now,
        updated_at: now,
    }
}

pub open spec fn topic_clusters(
    nodes: Seq<GraphNode>,
    edges: Seq<EdgeRow>,
    groups: Seq<Seq<String>>,
    now: i64,
) -> Seq<ClusterV> {
    Seq::new(groups.len(), |i: int| topic_cluster(nodes, edges, text::texts(groups[i]), i, now))
}

/// The pairs with the members of the first `n` topics replaced.
pub open spec fn topic_pairs(
    ps: Seq<(Seq<char>, Seq<char>)>,
    groups: Seq<Seq<String>>,
    n: int,
) -> Seq<(Seq<char>, Seq<char>)>
    decreases n,
{
    if n <= 0 {
        ps
    } else {
        pairs_replaced(
            topic_pairs(ps, groups, n - 1),
            topic_id(n - 1),
            text::texts(groups[n - 1]),
        )
    }
}

/// Whether the store is what it was with the clusters of the topics in place of all others.
pub open spec fn has_topics(
    before: GraphStore,
    after: GraphStore,
    groups: Seq<Seq<String>>,
    now: i64,
) -> bool {
    &&& row_views(after.clusters@) == by_size(
        topic_clusters(before.nodes@, before.edges@, groups, now),
    )
    &&& pair_views(after.members@) == topic_pairs(
        pair_views(before.members@),
        groups,
        groups.len() as int,
    )
    &&& after == (GraphStore {
        clusters: after.clusters,
        members: after.members,
        version: store::next_version(before.version),
        ..before
    })
}

impl GraphStore {
    fn best_of(&self, members: &Vec<String>) -> (r: Option<String>)
        ensures
            match r {
                Some(x) => best_member(
                    self.edges@,
                    text::texts(members@),
                    members@.len() as int,
                ).id == Some(x@),
                None => best_member(
                    self.edges@,
                    text::texts(members@),
                    members@.len() as int,
                ).id is None,
            },
    {
        let ghost ms = text::texts(members@);
        let mut best: Option<usize> = None;
        let mut degree: u32 = 0;
        let mut i: usize = 0;
        while i < members.len()
            invariant
                i <= members.len(),
                ms == text::texts(members@),
                degree == best_member(self.edges@, ms, i as int).degree,
                match best {
                    Some(k) => k < i && best_member(self.edges@, ms, i as int).id == Some(
                        members@[k as int]@,
                    ),
                    None => best_member(self.edges@, ms, i as int).id is None,
                },
            decreases members.len() - i,
        {
            let d = self.degree(&members[i]);
            if d > degree {
                degree = d;
                best = Some(i);
            }
            i += 1;
        }
        match best {
            Some(k) => Some(members[k].clone()),
            None => None,
        }
    }

    fn name_topic(&self, members: &Vec<String>, start: String) -> (r: String)
        ensures
            r@ == topic_name(
                self.nodes@,
                text::texts(members@),
                start@,
                members@.len() as int,
            ),
    {
        let ghost ms = text::texts(members@);
        let ghost first = start@;
        let mut name = start;
        let mut i: usize = 0;
        while i < members.len()
            invariant
                i <= members.len(),
                ms == text::texts(members@),
                name@ == topic_name(self.nodes@, ms, first, i as int),
            decreases members.len() - i,
        {
            if let Some(x) = self.find_node(&members[i]) {
                let bytes = self.nodes[x].name.as_str().len();
                let known = name.as_str().len();
                if self.nodes[x].node_type == NodeType::Doc && bytes > known && bytes < 24 {
                    name = text::trim_suffix_of(&self.nodes[x].name, ".md");
                }
            }
            i += 1;
        }
        name
    }

    fn topic_row(&self, list: &Vec<GraphEdge>, members: &Vec<String>, i: usize, now: i64) -> (r:
        ClusterRow)
        requires
            list@ == engine_edges(self.edges@),
            list@.len() <= ENGINE_EDGE_LIMIT,
            i < u64::MAX,
        ensures
            row_view(r) == topic_cluster(
                self.nodes@,
                self.edges@,
                text::texts(members@),
                i as int,
                now,
            ),
            r.id@ == topic_id(i as int),
    {
        let ghost ms = text::texts(members@);
        let number = text::u64_text(i as u64 + 1);
        let mut id = "cluster:emb:".to_owned();
        id.push_str(&number);
        let mut start = "主题簇 ".to_owned();
        start.push_str(&number);
        let mut inner: u32 = 0;
        let mut k: usize = 0;
        while k < list.len()
            invariant
                k <= list.len(),
                list@.len() <= ENGINE_EDGE_LIMIT,
                ms == text::texts(members@),
                inner <= k,
                inner == rows::kept(list@.take(k as int), clusters::joins_members(ms)).len(),
            decreases list.len() - k,
        {
            proof {
                assert(list@.take(k + 1) == list@.take(k as int).push(list@[k as int]));
                rows::lemma_kept_push(
                    list@.take(k as int),
                    list@[k as int],
                    clusters::joins_members(ms),
                );
            }
            if text::lists_text(members, &list[k].source) && text::lists_text(
                members,
                &list[k].target,
            ) {
                inner += 1;
            }
            k += 1;
        }
        assert(list@.take(k as int) == list@);
        assert(ms.len() == members@.len());
        ClusterRow {
            id,
            name: self.name_topic(members, start),
            description: Some(
                describe(
                    "基于 Embedding 语义相似度自动聚类的知识簇，包含 ",
                    members.len() as u64,
                    inner as u64,
                ),
            ),
            algorithm: "embedding".to_owned(),
            centroid: self.best_of(members),
            node_count: members.len() as u32,
            edge_count: inner,
            confidence: model::WHOLE,
            created_at: now,
            updated_at: now,
        }
    }

    /// Makes clusters of the groups.
    pub(crate) fn rebuild_topics(&mut self, topics: &TopicGroups, now: i64) -> (n: usize)
        requires
            old(self).wf(),
        ensures
            final(self).wf(),
            n == topics.groups@.len(),
            if topics.groups@.len() == 0 {
                *final(self) == *old(self)
            } else {
                has_topics(*old(self), *final(self), group_views(topics.groups@), now)
            },
    {
        let ghost groups = group_views(topics.groups@);
        if topics.groups.len() == 0 {
            return 0;
        }
        let list = self.all_edges(ENGINE_EDGE_LIMIT);
        let ghost made = topic_clusters(self.nodes@, self.edges@, groups, now);
        let mut table: Vec<ClusterRow> = Vec::new();
        let mut i: usize = 0;
        assert(row_views(table@) =~= made.take(0));
        while i < topics.groups.len()
            invariant
                i <= topics.groups.len(),
                self.wf(),
                groups == group_views(topics.groups@),
                list@ == engine_edges(old(self).edges@),
                list@.len() <= ENGINE_EDGE_LIMIT,
                made == topic_clusters(old(self).nodes@, old(self).edges@, groups, now),
                row_views(table@) == made.take(i as int),
                table@.len() == i,
                forall|k: int| 0 <= k < i ==> (#[trigger] table@[k]).id@ == topic_id(k),
                pair_views(self.members@) == topic_pairs(
                    pair_views(old(self).members@),
                    groups,
                    i as int,
                ),
                *self == (GraphStore { members: self.members, ..*old(self) }),
            decreases topics.groups.len() - i,
        {
            let members = &topics.groups[i];
            let row = self.topic_row(&list, members, i, now);
            proof {
                let before = self.members@;
                lemma_pairs_kept(before, row.id@);
                lemma_pairs_with(
                    rows::kept(before, clusters::not_in_cluster(row.id@)),
                    row.id,
                    members@,
                    members@.len() as int,
                );
                assert(groups[i as int] == members@);
                assert(text::texts(members@).len() == members@.len());
                assert(made[i as int] == row_view(row));
                assert(row_views(table@.push(row)) =~= made.take(i + 1));
            }
            self.replace_cluster_members(&row.id, members);
            table.push(row);
            i += 1;
        }
        let sorted = sort_by_size(&table);
        proof {
            assert(made.take(i as int) == made);
            assert forall|x: int, y: int| 0 <= x < y < table@.len() implies store::cluster_key()(
                #[trigger] table@[x],
            ) != store::cluster_key()(#[trigger] table@[y]) by {
                if topic_id(x) == topic_id(y) {
                    let n = "cluster:emb:"@.len() as int;
                    assert(topic_id(x).skip(n) =~= text::nat_text((x + 1) as nat));
                    assert(topic_id(y).skip(n) =~= text::nat_text((y + 1) as nat));
                    text::lemma_nat_text_injective((x + 1) as nat, (y + 1) as nat);
                }
            }
            lemma_sorted_views(table@);
        }
        let n = sorted.len();
        self.clusters = sorted;
        self.bump_version();
        n
    }
}

// ---- The engine

/// Finds clusters in a graph and reads them.
pub struct ClusterEngine<'a> {
    pub store: &'a mut GraphStore,
}

impl<'a> ClusterEngine<'a> {
    /// The graph as it is.
    pub open spec fn graph(&self) -> GraphStore {
        *self.store
    }

    pub fn new(store: &'a mut GraphStore) -> (r: Self)
        ensures
            *r.store == *old(store),
            *final(r.store) == *final(store),
    {
        ClusterEngine { store }
    }

    /// Finds the clusters of directories anew, lists their members and returns how many
    /// clusters there are.
    pub fn rebuild(&mut self, now: i64) -> (n: usize)
        requires
            old(self).store.wf(),
        ensures
            final(self).store.wf(),
            is_rebuilt(*old(self).store, *final(self).store, now),
            settled::are_found(*old(self).store, *final(self).store),
            n == final(self).store.clusters@.len(),
            *final(final(self).store) == *final(old(self).store),
    {
        let ghost before = *self.store;
        let n = self.store.rebuild_clusters(now);
        proof {
            settled::law_clusters_follow_the_nodes(before, *self.store, now);
        }
        n
    }

    /// Makes the groups of documents of one topic the clusters, and returns how many there
    /// are. Without groups everything stays as it is.
    pub fn rebuild_from_embeddings(&mut self, topics: &TopicGroups, now: i64) -> (n: usize)
        requires
            old(self).store.wf(),
        ensures
            final(self).store.wf(),
            n == topics.groups@.len(),
            if topics.groups@.len() == 0 {
                *final(self).store == *old(self).store
            } else {
                has_topics(
                    *old(self).store,
                    *final(self).store,
                    group_views(topics.groups@),
                    now,
                )
            },
            *final(final(self).store) == *final(old(self).store),
    {
        self.store.rebuild_topics(topics, now)
    }

    /// The clusters with their links, the larger ones first.
    pub fn list(&self, limit: u32) -> (r: Vec<GraphCluster>)
        requires
            self.graph().wf(),
        ensures
            r@.len() == clusters::largest(self.graph().clusters@, limit).len(),
            forall|i: int|
                0 <= i < r@.len() ==> is_linked_cluster(
                    self.graph(),
                    #[trigger] r@[i],
                    clusters::largest(self.graph().clusters@, limit)[i],
                ),
    {
        let mut list = self.store.list_clusters(limit);
        let ghost plain = list@;
        let links = self.store.cluster_links();
        let ghost want = clusters::largest(self.store.clusters@, limit);
        let mut i: usize = 0;
        while i < list.len()
            invariant
                i <= list.len(),
                list@.len() == want.len(),
                link_views(links@) == all_links(*self.store),
                forall|k: int|
                    i <= k < want.len() ==> clusters::is_cluster_of(#[trigger] list@[k], want[k]),
                forall|k: int|
                    0 <= k < i ==> is_linked_cluster(*self.store, #[trigger] list@[k], want[k]),
            decreases list.len() - i,
        {
            assert(clusters::is_cluster_of(list@[i as int], want[i as int]));
            let own = links_at(&links, &list[i].id);
            list[i].links = own;
            i += 1;
        }
        list
    }

    /// The cluster with the id, with its links.
    pub fn get(&self, id: &str) -> (r: Option<GraphCluster>)
        requires
            self.graph().wf(),
        ensures
            match r {
                Some(c) => clusters::cluster_index(self.graph().clusters@, id@) matches Some(i)
                    && is_linked_cluster(self.graph(), c, self.graph().clusters@[i]),
                None => clusters::cluster_index(self.graph().clusters@, id@) is None,
            },
    {
        match self.store.get_cluster(id) {
            Some(c) => {
                let mut one = c;
                let links = self.store.cluster_links();
                let own = links_at(&links, &one.id);
                one.links = own;
                Some(one)
            },
            None => None,
        }
    }

    /// The members of a cluster, at most `max_nodes` (1 to 2000), and the edges between them.
    pub fn subgraph(&self, id: &str, max_nodes: u32) -> (r: (Vec<GraphNode>, Vec<GraphEdge>))
        ensures
            r.0@ == shown_members(self.graph(), id@, max_nodes),
            r.1@ == rows::kept(
                query::edges_of(
                    query::heaviest(self.graph().edges@, clusters::CLUSTER_EDGE_LIMIT),
                ),
                clusters::joins_members(ids_of(r.0@)),
            ),
    {
        let mut members = self.store.cluster_members(id);
        let max: usize = if max_nodes < 1 {
            1
        } else if max_nodes > MAX_CLUSTER_NODES {
            MAX_CLUSTER_NODES as usize
        } else {
            max_nodes as usize
        };
        members.truncate(max);
        let mut ids: Vec<String> = Vec::new();
        let mut i: usize = 0;
        while i < members.len()
            invariant
                i <= members.len(),
                ids@.len() == i,
                forall|k: int| 0 <= k < i ==> (#[trigger] ids@[k])@ == members@[k].id@,
            decreases members.len() - i,
        {
            ids.push(members[i].id.clone());
            i += 1;
        }
        assert(text::texts(ids@) =~= ids_of(members@));
        let edges = self.store.cluster_edges(&ids);
        (members, edges)
    }

    /// The documents of a cluster with the most edges, at most `n`.
    pub fn top_files(&self, id: &str, n: usize) -> (r: Vec<GraphNode>)
        ensures
            r@ == top_docs(
                clusters::members_of(
                    self.graph().members@,
                    self.graph().nodes@,
                    self.graph().edges@,
                    id@,
                ),
                n as nat,
            ),
    {
        let members = self.store.cluster_members(id);
        let mut hits: Vec<GraphNode> = Vec::new();
        let mut keys: Vec<Vec<i128>> = Vec::new();
        let mut i: usize = 0;
        while i < members.len()
            invariant
                i <= members.len(),
                hits@ == rows::kept(members@.take(i as int), lists::docs()),
                keys@.len() == hits@.len(),
                forall|k: int|
                    0 <= k < keys@.len() ==> rows::key_view(#[trigger] keys@[k]@) == seq![
                        -(known_degree(hits@[k]) as int),
                    ],
            decreases members.len() - i,
        {
            proof {
                assert(members@.take(i + 1) == members@.take(i as int).push(members@[i as int]));
                rows::lemma_kept_push(members@.take(i as int), members@[i as int], lists::docs());
            }
            if members[i].node_type == NodeType::Doc && members[i].path.is_some() {
                let d: u32 = match members[i].degree {
                    Some(d) => d,
                    None => 0,
                };
                hits.push(members[i].clone());
                keys.push(rows::number_key(-(d as i128)));
            }
            i += 1;
        }
        assert(members@.take(i as int) == members@);
        assert(rows::keys_view(keys@) =~= known_degree_keys(hits@));
        let order = rows::order_rows(&keys);
        let mut sorted = lists::nodes_in_order(&hits, &order);
        sorted.truncate(n);
        sorted
    }
}

/// The members of a cluster that are shown.
pub open spec fn shown_members(store: GraphStore, id: Seq<char>, max_nodes: u32) -> Seq<GraphNode> {
    rows::limited(
        clusters::members_of(store.members@, store.nodes@, store.edges@, id),
        explore::clamped(max_nodes, 1, MAX_CLUSTER_NODES) as nat,
    )
}

pub open spec fn ids_of(nodes: Seq<GraphNode>) -> Seq<Seq<char>> {
    Seq::new(nodes.len(), |i: int| nodes[i].id@)
}

pub open spec fn known_degree(n: GraphNode) -> u32 {
    match n.degree {
        Some(d) => d,
        None => 0,
    }
}

pub open spec fn known_degree_keys(nodes: Seq<GraphNode>) -> Seq<Seq<int>> {
    Seq::new(nodes.len(), |i: int| seq![-(known_degree(nodes[i]) as int)])
}

/// The documents among the nodes, those with the most edges first, at most `n`.
pub open spec fn top_docs(nodes: Seq<GraphNode>, n: nat) -> Seq<GraphNode> {
    let hits = rows::kept(nodes, lists::docs());
    rows::limited(rows::rows_at(hits, rows::order_of(known_degree_keys(hits))), n)
}

/// The id of the node of a directory.
pub fn folder_node_id(dir: &str) -> (r: String)
    ensures
        r@ == ids::node_id(NodeType::Folder, dir@),
{
    ids::node_id_for(NodeType::Folder, dir)
}

} // verus!
