//! Which nodes belong to a cluster, and which cluster a node belongs to.

use crate::graph::clusters;
use crate::graph::model::GraphNode;
use crate::graph::path;
use crate::graph::query;
use crate::graph::store;
use crate::graph::store::{ClusterRow, EdgeRow, MemberRow};
use crate::rows;
use crate::text;
use vstd::prelude::*;

verus! {

/// Whether the node is listed as a member of the cluster.
pub open spec fn is_listed(ms: Seq<MemberRow>, cluster: Seq<char>, node: Seq<char>) -> bool {
    exists|i: int|
        0 <= i < ms.len() && (#[trigger] ms[i]).cluster_id@ == cluster && ms[i].node_id@ == node
}

/// The listed members of a cluster are those that a row puts into it.
pub proof fn law_members_are_listed(ms: Seq<MemberRow>, cluster: Seq<char>, node: Seq<char>)
    ensures
        clusters::member_ids(ms, cluster).contains(node) <==> is_listed(ms, cluster, node),
{
    let hits = rows::kept(ms, clusters::in_cluster(cluster));
    let ids = clusters::member_ids(ms, cluster);
    rows::lemma_kept(ms, clusters::in_cluster(cluster));
    if ids.contains(node) {
        let k = choose|k: int| 0 <= k < ids.len() && ids[k] == node;
        assert(clusters::in_cluster(cluster)(hits[k]));
        let i = choose|i: int| 0 <= i < ms.len() && ms[i] == hits[k];
        assert(ms[i].node_id@ == node);
    }
    if is_listed(ms, cluster, node) {
        let i = choose|i: int|
            0 <= i < ms.len() && (#[trigger] ms[i]).cluster_id@ == cluster && ms[i].node_id@ == node;
        assert(clusters::in_cluster(cluster)(ms[i]));
        let k = choose|k: int| 0 <= k < hits.len() && hits[k] == ms[i];
        assert(ids[k] == node);
    }
}

/// Nodes that are put into a cluster are listed there, once each, and what was listed stays.
pub proof fn law_members_are_added(
    ms: Seq<MemberRow>,
    cluster: String,
    ids: Seq<String>,
    n: int,
    c: Seq<char>,
    node: Seq<char>,
)
    requires
        0 <= n <= ids.len(),
    ensures
        ({
            let r = clusters::with_members(ms, cluster, ids, n);
            &&& is_listed(r, c, node) <==> is_listed(ms, c, node) || (c == cluster@ && exists|j: int|
                0 <= j < n && (#[trigger] ids[j])@ == node)
            &&& r.len() >= ms.len() && r.take(ms.len() as int) == ms
            &&& rows::unique(ms, store::member_key()) ==> rows::unique(r, store::member_key())
        }),
    decreases n,
{
    let r = clusters::with_members(ms, cluster, ids, n);
    if n > 0 {
        let before = clusters::with_members(ms, cluster, ids, n - 1);
        let id = ids[n - 1];
        let row = MemberRow { cluster_id: cluster, node_id: id };
        law_members_are_added(ms, cluster, ids, n - 1, c, node);
        rows::lemma_row_index(before, store::member_key(), (cluster@, id@), 0);
        match rows::row_index(before, store::member_key(), (cluster@, id@), 0) {
            Some(i) => {
                assert(store::member_key()(before[i]) == (cluster@, id@));
                assert(before[i].cluster_id@ == cluster@ && before[i].node_id@ == id@);
            },
            None => {
                if rows::unique(before, store::member_key()) {
                    rows::lemma_unique_push(before, store::member_key(), row);
                }
                assert(r == before.push(row));
                assert(r[before.len() as int] == row);
                if is_listed(before, c, node) {
                    let i = choose|i: int|
                        0 <= i < before.len() && (#[trigger] before[i]).cluster_id@ == c
                            && before[i].node_id@ == node;
                    assert(r[i] == before[i]);
                }
                if is_listed(r, c, node) {
                    let i = choose|i: int|
                        0 <= i < r.len() && (#[trigger] r[i]).cluster_id@ == c && r[i].node_id@ == node;
                    if i < before.len() {
                        assert(before[i] == r[i]);
                    }
                }
            },
        }
        assert(r.take(ms.len() as int) =~= before.take(ms.len() as int));
        if c == cluster@ && id@ == node {
            assert(is_listed(r, c, node));
            assert(ids[n - 1]@ == node);
        }
    } else {
        assert(r.take(ms.len() as int) =~= ms);
    }
}

/// Whether an edge joins the two.
pub open spec fn are_joined(edges: Seq<EdgeRow>, a: Seq<char>, b: Seq<char>) -> bool {
    exists|k: int|
        0 <= k < edges.len() && (((#[trigger] edges[k]).source@ == a && edges[k].target@ == b) || (
        edges[k].target@ == a && edges[k].source@ == b))
}

/// Where the edges at a node lead is where the edges at it have their other ends.
pub proof fn law_ends_are_joined(edges: Seq<EdgeRow>, id: Seq<char>, n: int, x: Seq<char>)
    requires
        0 <= n <= edges.len(),
    ensures
        clusters::neighbor_ends(edges, id, n).contains(x) <==> are_joined(edges.take(n), id, x),
    decreases n,
{
    let some = edges.take(n);
    if n > 0 {
        let fewer = edges.take(n - 1);
        let before = clusters::neighbor_ends(edges, id, n - 1);
        let all = clusters::neighbor_ends(edges, id, n);
        law_ends_are_joined(edges, id, n - 1, x);
        assert(some[n - 1] == edges[n - 1]);
        if before.contains(x) {
            let k = choose|k: int| 0 <= k < before.len() && before[k] == x;
            assert(all[k] == x);
            let j = choose|j: int|
                0 <= j < fewer.len() && (((#[trigger] fewer[j]).source@ == id && fewer[j].target@ == x)
                    || (fewer[j].target@ == id && fewer[j].source@ == x));
            assert(some[j] == fewer[j]);
        }
        if all.contains(x) {
            let k = choose|k: int| 0 <= k < all.len() && all[k] == x;
            if k < before.len() {
                assert(before[k] == x);
            } else {
                assert(some[n - 1].source@ == id || some[n - 1].target@ == id);
            }
        }
        if are_joined(some, id, x) && !are_joined(fewer, id, x) {
            let j = choose|j: int|
                0 <= j < some.len() && (((#[trigger] some[j]).source@ == id && some[j].target@ == x) || (
                some[j].target@ == id && some[j].source@ == x));
            if j < n - 1 {
                assert(fewer[j] == some[j]);
            }
            assert(j == n - 1);
            if edges[n - 1].source@ == id && edges[n - 1].target@ == x {
                assert(all[before.len() as int] == x);
            } else {
                assert(all[all.len() - 1] == x);
            }
        }
    }
}

pub open spec fn within(members: Seq<Seq<char>>) -> spec_fn(Seq<char>) -> bool {
    |x: Seq<char>| members.contains(x)
}

proof fn lemma_hits(ends: Seq<Seq<char>>, members: Seq<Seq<char>>, n: int)
    requires
        0 <= n <= ends.len(),
    ensures
        clusters::member_hits(ends, members, n) == ends.take(n).filter(within(members)).len(),
    decreases n,
{
    reveal(Seq::filter);
    if n > 0 {
        lemma_hits(ends, members, n - 1);
        assert(ends.take(n).drop_last() =~= ends.take(n - 1));
        assert(ends.take(n).last() == ends[n - 1]);
    } else {
        assert(ends.take(0).filter(within(members)).len() == 0);
    }
}

/// More members, no fewer hits.
proof fn lemma_more_hits(ends: Seq<Seq<char>>, a: Seq<Seq<char>>, b: Seq<Seq<char>>, n: int)
    requires
        0 <= n <= ends.len(),
        forall|x: Seq<char>| #[trigger] a.contains(x) ==> b.contains(x),
    ensures
        clusters::member_hits(ends, a, n) <= clusters::member_hits(ends, b, n),
    decreases n,
{
    if n > 0 {
        lemma_more_hits(ends, a, b, n - 1);
    }
}

proof fn lemma_by_path(nodes: Seq<GraphNode>, cluster: Seq<char>, n: int, x: Seq<char>)
    requires
        0 <= n <= nodes.len(),
    ensures
        clusters::ids_by_path(nodes, cluster, n).contains(x) <==> exists|i: int|
            0 <= i < n && (#[trigger] nodes[i]).id@ == x && clusters::path_in_cluster(
                nodes[i],
                cluster,
            ),
    decreases n,
{
    if n > 0 {
        let before = clusters::ids_by_path(nodes, cluster, n - 1);
        let all = clusters::ids_by_path(nodes, cluster, n);
        lemma_by_path(nodes, cluster, n - 1, x);
        if before.contains(x) {
            let k = choose|k: int| 0 <= k < before.len() && before[k] == x;
            assert(all[k] == x);
        }
        if all.contains(x) {
            let k = choose|k: int| 0 <= k < all.len() && all[k] == x;
            if k < before.len() {
                assert(before[k] == x);
            } else {
                assert(nodes[n - 1].id@ == x);
            }
        }
        if nodes[n - 1].id@ == x && clusters::path_in_cluster(nodes[n - 1], cluster) {
            assert(all[all.len() - 1] == x);
        }
    }
}

/// The members that follow from paths and neighbours, so far.
proof fn lemma_voted(nodes: Seq<GraphNode>, edges: Seq<EdgeRow>, cluster: Seq<char>, n: int)
    requires
        0 <= n <= nodes.len(),
    ensures
        ({
            let ids = clusters::ids_by_path(nodes, cluster, nodes.len() as int);
            let r = clusters::voted_members(nodes, edges, cluster, n);
            &&& forall|x: Seq<char>| #[trigger] ids.contains(x) ==> r.contains(x)
            &&& forall|x: Seq<char>| #[trigger]
                r.contains(x) && !ids.contains(x) ==> is_voted(nodes, edges, cluster, r, x)
            &&& forall|i: int|
                0 <= i < n && (#[trigger] nodes[i]).path is None && !r.contains(nodes[i].id@)
                    ==> is_left_out(edges, ids, nodes[i].id@)
        }),
    decreases n,
{
    let ids = clusters::ids_by_path(nodes, cluster, nodes.len() as int);
    let r = clusters::voted_members(nodes, edges, cluster, n);
    if n > 0 {
        let before = clusters::voted_members(nodes, edges, cluster, n - 1);
        lemma_voted(nodes, edges, cluster, n - 1);
        let x = nodes[n - 1];
        let ends = clusters::neighbor_ends(edges, x.id@, edges.len() as int);
        assert forall|y: Seq<char>| #[trigger] before.contains(y) implies r.contains(y) by {
            let k = choose|k: int| 0 <= k < before.len() && before[k] == y;
            assert(r[k] == y);
        }
        assert(ends.take(ends.len() as int) == ends);
        if r.len() > before.len() {
            assert forall|y: Seq<char>| #[trigger] r.contains(y) && !ids.contains(y) implies is_voted(
                nodes,
                edges,
                cluster,
                r,
                y,
            ) by {
                let k = choose|k: int| 0 <= k < r.len() && r[k] == y;
                let es = clusters::neighbor_ends(edges, y, edges.len() as int);
                assert(es.take(es.len() as int) == es);
                lemma_hits(es, r, es.len() as int);
                if k < before.len() {
                    assert(before[k] == y);
                    assert(before.contains(y));
                    assert(is_voted(nodes, edges, cluster, before, y));
                    lemma_hits(es, before, es.len() as int);
                    lemma_more_hits(es, before, r, es.len() as int);
                    lemma_still(nodes, es, cluster, before, r);
                } else {
                    assert(y == x.id@);
                    lemma_hits(es, before, es.len() as int);
                    lemma_more_hits(es, before, r, es.len() as int);
                    lemma_still(nodes, es, cluster, before, r);
                    assert(nodes[n - 1].id@ == y);
                }
            }
        }
        assert forall|i: int|
            0 <= i < n && (#[trigger] nodes[i]).path is None && !r.contains(nodes[i].id@) implies is_left_out(
            edges,
            ids,
            nodes[i].id@,
        ) by {
            if i == n - 1 {
                lemma_more_hits(ends, ids, before, ends.len() as int);
                lemma_hits(ends, ids, ends.len() as int);
                if before.contains(x.id@) {
                    assert(r.contains(x.id@));
                }
                if r.len() > before.len() {
                    assert(r[r.len() - 1] == x.id@);
                }
            } else if before.contains(nodes[i].id@) {
                assert(r.contains(nodes[i].id@));
            }
        }
    }
}

proof fn lemma_still(
    nodes: Seq<GraphNode>,
    ends: Seq<Seq<char>>,
    cluster: Seq<char>,
    a: Seq<Seq<char>>,
    b: Seq<Seq<char>>,
)
    requires
        forall|x: Seq<char>| #[trigger] a.contains(x) ==> b.contains(x),
    ensures
        clusters::is_outvoted(
            nodes,
            ends,
            cluster,
            clusters::member_hits(ends, b, ends.len() as int),
        ) ==> clusters::is_outvoted(
            nodes,
            ends,
            cluster,
            clusters::member_hits(ends, a, ends.len() as int),
        ),
{
    let ha = clusters::member_hits(ends, a, ends.len() as int);
    let hb = clusters::member_hits(ends, b, ends.len() as int);
    lemma_more_hits(ends, a, b, ends.len() as int);
    if clusters::is_outvoted(nodes, ends, cluster, hb) {
        let k = choose|k: int|
            0 <= k < ends.len() && clusters::outvotes(nodes, ends, cluster, hb, #[trigger] ends[k]);
        assert(clusters::outvotes(nodes, ends, cluster, ha, ends[k]));
    }
}

/// Whether a node without a path has its place by its neighbours: at least a third of them
/// are members, or one is and no other cluster has more of them.
pub open spec fn is_voted(
    nodes: Seq<GraphNode>,
    edges: Seq<EdgeRow>,
    cluster: Seq<char>,
    members: Seq<Seq<char>>,
    x: Seq<char>,
) -> bool {
    let ends = clusters::neighbor_ends(edges, x, edges.len() as int);
    let hits = ends.filter(within(members)).len();
    &&& exists|i: int| 0 <= i < nodes.len() && (#[trigger] nodes[i]).id@ == x && nodes[i].path is None
    &&& ends.len() > 0
    &&& 3 * hits >= ends.len() || (hits > 0 && !clusters::is_outvoted(nodes, ends, cluster, hits))
}

/// Whether less than a third of a node's neighbours are in the cluster by their paths.
pub open spec fn is_left_out(edges: Seq<EdgeRow>, ids: Seq<Seq<char>>, x: Seq<char>) -> bool {
    let ends = clusters::neighbor_ends(edges, x, edges.len() as int);
    ends.len() == 0 || 3 * ends.filter(within(ids)).len() < ends.len()
}

/// Where a cluster lists no members, they are the nodes that their paths put into it and the
/// nodes without a path whose neighbours put them into it, and no others.
pub proof fn law_members_follow_from_paths_and_neighbours(
    ms: Seq<MemberRow>,
    nodes: Seq<GraphNode>,
    edges: Seq<EdgeRow>,
    cluster: Seq<char>,
)
    requires
        forall|x: Seq<char>| !is_listed(ms, cluster, x),
    ensures
        ({
            let r = clusters::all_member_ids(ms, nodes, edges, cluster);
            let ids = clusters::ids_by_path(nodes, cluster, nodes.len() as int);
            &&& forall|i: int|
                0 <= i < nodes.len() && clusters::path_in_cluster(#[trigger] nodes[i], cluster)
                    ==> r.contains(nodes[i].id@)
            &&& forall|x: Seq<char>| #[trigger]
                r.contains(x) ==> is_voted(nodes, edges, cluster, r, x) || exists|i: int|
                    0 <= i < nodes.len() && (#[trigger] nodes[i]).id@ == x && clusters::path_in_cluster(
                        nodes[i],
                        cluster,
                    )
            &&& forall|i: int|
                0 <= i < nodes.len() && (#[trigger] nodes[i]).path is None && !r.contains(nodes[i].id@)
                    ==> is_left_out(edges, ids, nodes[i].id@)
        }),
{
    let ids = clusters::ids_by_path(nodes, cluster, nodes.len() as int);
    let listed = clusters::member_ids(ms, cluster);
    if listed.len() > 0 {
        law_members_are_listed(ms, cluster, listed[0]);
        assert(listed.contains(listed[0]));
        assert(is_listed(ms, cluster, listed[0]));
    }
    lemma_voted(nodes, edges, cluster, nodes.len() as int);
    assert forall|x: Seq<char>| #[trigger] ids.contains(x) <==> exists|i: int|
        0 <= i < nodes.len() && (#[trigger] nodes[i]).id@ == x && clusters::path_in_cluster(
            nodes[i],
            cluster,
        ) by {
        lemma_by_path(nodes, cluster, nodes.len() as int, x);
    }
    let r = clusters::all_member_ids(ms, nodes, edges, cluster);
    assert forall|i: int| 0 <= i < nodes.len() && clusters::path_in_cluster(#[trigger] nodes[i], cluster) implies r.contains(
        nodes[i].id@,
    ) by {
        assert(ids.contains(nodes[i].id@));
    }
}

/// A path puts a node into the cluster of the top of the tree if it has no slash, and else
/// into that of the directory that it is or lies below.
pub proof fn law_a_path_lies_in_its_cluster(n: GraphNode, top: Seq<char>, rest: Seq<char>)
    requires
        n.path is Some,
        !top.contains('\\'),
        top != "__root__"@,
    ensures
        clusters::path_in_cluster(n, "cluster:__root__"@) <==> !n.path->0@.contains('/'),
        n.path->0@ == top ==> clusters::path_in_cluster(n, "cluster:"@ + top),
        n.path->0@ == top + seq!['/'] + rest ==> clusters::path_in_cluster(n, "cluster:"@ + top),
        clusters::path_in_cluster(n, "cluster:"@ + top) ==> n.path->0@ == top || exists|r: Seq<char>|
            n.path->0@ == top + seq!['/'] + r,
{
    reveal_strlit("cluster:");
    reveal_strlit("__root__");
    reveal_strlit("cluster:__root__");
    let id = "cluster:"@ + top;
    let p = n.path->0@;
    assert("cluster:__root__"@ =~= "cluster:"@ + "__root__"@);
    lemma_top_of("__root__"@);
    lemma_top_of(top);
    assert(text::replace_char(top, '\\', '/') =~= top) by {
        assert forall|i: int| 0 <= i < top.len() implies text::replace_char(top, '\\', '/')[i] == top[i] by {
            if top[i] == '\\' {
                assert(top.contains('\\'));
            }
        }
    }
    let front = top + seq!['/'];
    if p == front + rest {
        assert(p.take(front.len() as int) =~= front);
    }
    if text::starts_with(p, front) {
        let r = p.skip(front.len() as int);
        assert(p =~= front + r);
    }
}

proof fn lemma_top_of(top: Seq<char>)
    ensures
        clusters::top_of("cluster:"@ + top) == top,
{
    let id = "cluster:"@ + top;
    assert(id.take("cluster:"@.len() as int) =~= "cluster:"@);
    assert(id.skip("cluster:"@.len() as int) =~= top);
}

pub open spec fn size_of() -> spec_fn(ClusterRow) -> int {
    |c: ClusterRow| c.node_count as int
}

/// The clusters that are shown are the largest ones, the larger ones first.
pub proof fn law_the_largest_clusters_come_first(cs: Seq<ClusterRow>, limit: u32)
    ensures
        rows::is_top(cs, size_of(), limit as nat, clusters::largest(cs, limit)),
{
    rows::lemma_top(cs, size_of(), clusters::size_keys(cs), limit as nat);
}

/// The members of a cluster that are shown are the nodes of the ids, in their order, each
/// with the number of edges at it.
pub proof fn law_members_come_with_their_edges(
    nodes: Seq<GraphNode>,
    edges: Seq<EdgeRow>,
    ids: Seq<Seq<char>>,
    n: int,
)
    requires
        0 <= n <= ids.len(),
    ensures
        ({
            let r = path::counted_all(nodes, edges, ids, n);
            &&& r.len() <= n
            &&& forall|k: int|
                0 <= k < r.len() ==> exists|i: int|
                    0 <= i < nodes.len() && ids.take(n).contains((#[trigger] nodes[i]).id@) && (
                    #[trigger] r[k]) == (GraphNode { degree: r[k].degree, ..nodes[i] })
                        && r[k].degree == Some(
                        edges.filter(|e: EdgeRow| e.source@ == nodes[i].id@ || e.target@ == nodes[i].id@).len() as u32,
                    )
            &&& forall|j: int, i: int|
                0 <= j < n && 0 <= i < nodes.len() && (#[trigger] nodes[i]).id@ == #[trigger] ids[j]
                    ==> exists|k: int| 0 <= k < r.len() && (#[trigger] r[k]).id@ == ids[j]
        }),
    decreases n,
{
    let r = path::counted_all(nodes, edges, ids, n);
    if n > 0 {
        let before = path::counted_all(nodes, edges, ids, n - 1);
        let id = ids[n - 1];
        law_members_come_with_their_edges(nodes, edges, ids, n - 1);
        rows::lemma_row_index(nodes, store::node_key(), id, 0);
        assert(ids.take(n)[n - 1] == id);
        assert forall|x: Seq<char>| #[trigger] ids.take(n - 1).contains(x) implies ids.take(n).contains(
            x,
        ) by {
            let front = ids.take(n - 1);
            let j = choose|j: int| 0 <= j < front.len() && front[j] == x;
            assert(ids.take(n)[j] == x);
        }
        assert forall|k: int| 0 <= k < r.len() implies exists|i: int|
            0 <= i < nodes.len() && ids.take(n).contains((#[trigger] nodes[i]).id@) && (#[trigger] r[k])
                == (GraphNode { degree: r[k].degree, ..nodes[i] }) && r[k].degree == Some(
                edges.filter(|e: EdgeRow| e.source@ == nodes[i].id@ || e.target@ == nodes[i].id@).len() as u32,
            ) by {
            if k < before.len() {
                assert(r[k] == before[k]);
            } else {
                let i = store::node_index(nodes, id)->0;
                assert(store::node_key()(nodes[i]) == id);
                let q = |e: EdgeRow| e.source@ == nodes[i].id@ || e.target@ == nodes[i].id@;
                assert forall|m: int| 0 <= m < edges.len() implies query::touching(id)(#[trigger] edges[m])
                    == q(edges[m]) by {}
                rows::lemma_kept_same(edges, query::touching(id), q);
                assert(r[k] == query::counted(edges, nodes[i]));
            }
        }
        assert forall|j: int, i: int|
            0 <= j < n && 0 <= i < nodes.len() && (#[trigger] nodes[i]).id@ == #[trigger] ids[j] implies exists|
            k: int,
        |
            0 <= k < r.len() && (#[trigger] r[k]).id@ == ids[j] by {
            if j < n - 1 {
                let k = choose|k: int| 0 <= k < before.len() && (#[trigger] before[k]).id@ == ids[j];
                assert(r[k].id@ == ids[j]);
            } else {
                assert(store::node_key()(nodes[i]) == id);
                assert(r[r.len() - 1].id@ == id);
            }
        }
    }
}

} // verus!
