//! Where nodes belong and what clusters are, said by counting neighbours, edges and nodes.

use crate::graph::cluster_engine;
use crate::graph::cluster_engine::{CenterV, ClusterV, LinkV};
use crate::graph::clusters;
use crate::graph::clusters::{GLOBAL_CLUSTER_ID, ROOT_CLUSTER_ID};
use crate::graph::explore;
use crate::graph::model::{GraphEdge, GraphNode, Relation};
use crate::graph::path;
use crate::graph::query;
use crate::graph::query::Scope;
use crate::graph::store;
use crate::graph::store::{EdgeRow, GraphStore, MemberRow};
use crate::rows;
use crate::text;
use vstd::prelude::*;

verus! {

// ---- Neighbours

/// The edges that begin or, where `outgoing` is false, end at the node, of the relations that
/// are asked for and as heavy as is asked for.
pub open spec fn fits_at(id: Seq<char>, outgoing: bool, sc: Scope) -> spec_fn(EdgeRow) -> bool {
    |e: EdgeRow|
        (if outgoing {
            e.source@ == id
        } else {
            e.target@ == id
        }) && e.weight >= sc.weight_min && (sc.relations matches Some(rs) ==> rs.len() == 0
            || rs.contains(e.relation))
}

pub open spec fn weight_of() -> spec_fn(EdgeRow) -> int {
    |e: EdgeRow| e.weight as int
}

/// A walk leaves a node along the heaviest edges that fit, the heavier ones first.
pub proof fn law_a_walk_takes_the_heaviest_edges(
    edges: Seq<EdgeRow>,
    id: Seq<char>,
    outgoing: bool,
    sc: Scope,
)
    ensures
        rows::is_top(
            edges.filter(fits_at(id, outgoing, sc)),
            weight_of(),
            sc.limit as nat,
            query::adjacent_rows(edges, id, outgoing, sc),
        ),
{
    let p = if outgoing {
        query::leaves(id, sc)
    } else {
        query::enters(id, sc)
    };
    let q = fits_at(id, outgoing, sc);
    let some = rows::kept(edges, p);
    assert forall|i: int| 0 <= i < edges.len() implies p(#[trigger] edges[i]) == q(edges[i]) by {}
    rows::lemma_kept_same(edges, p, q);
    rows::lemma_top(some, weight_of(), query::weight_keys(some), sc.limit as nat);
}

/// The neighbours of a node are named once each. Each is at the other end of an edge at the
/// node, in whichever direction, and where there are not too many edges at the node, whatever
/// is at the other end of one is a neighbour.
pub proof fn law_neighbours_are_at_the_other_end(edges: Seq<EdgeRow>, id: Seq<char>)
    ensures
        ({
            let nbs = cluster_engine::neighbors(edges, id);
            let few = edges.filter(|e: EdgeRow| e.source@ == id).len() <= path::PATH_FANOUT
                && edges.filter(|e: EdgeRow| e.target@ == id).len() <= path::PATH_FANOUT;
            &&& nbs.no_duplicates()
            &&& forall|x: Seq<char>| #[trigger]
                nbs.contains(x) ==> exists|k: int|
                    0 <= k < edges.len() && (((#[trigger] edges[k]).source@ == id
                        && edges[k].target@ == x) || (edges[k].target@ == id && edges[k].source@
                        == x))
            &&& few ==> forall|k: int|
                0 <= k < edges.len() ==> ((#[trigger] edges[k]).source@ == id ==> nbs.contains(
                    edges[k].target@,
                )) && (edges[k].target@ == id ==> nbs.contains(edges[k].source@))
        }),
{
    let sc = path::path_scope();
    let ids = explore::way_ids(edges, id, sc);
    let nbs = cluster_engine::neighbors(edges, id);
    text::lemma_distinct(ids);
    let outs = query::adjacent_rows(edges, id, true, sc);
    let ins = query::adjacent_rows(edges, id, false, sc);
    lemma_adjacent_holds(edges, id, true);
    lemma_adjacent_holds(edges, id, false);
    let fo = explore::far_ends(outs, true);
    let fi = explore::far_ends(ins, false);
    assert forall|x: Seq<char>| #[trigger] nbs.contains(x) implies exists|k: int|
        0 <= k < edges.len() && (((#[trigger] edges[k]).source@ == id && edges[k].target@ == x) || (
        edges[k].target@ == id && edges[k].source@ == x)) by {
        assert(ids.contains(x));
        let i = choose|i: int| 0 <= i < ids.len() && ids[i] == x;
        if i < fo.len() {
            assert(fo[i] == x);
            assert(edges.contains(outs[i]));
            let k = choose|k: int| 0 <= k < edges.len() && edges[k] == outs[i];
            assert(edges[k].source@ == id && edges[k].target@ == x);
        } else {
            let j = i - fo.len();
            assert(fi[j] == x);
            assert(edges.contains(ins[j]));
            let k = choose|k: int| 0 <= k < edges.len() && edges[k] == ins[j];
            assert(edges[k].target@ == id && edges[k].source@ == x);
        }
    }
    let few = edges.filter(|e: EdgeRow| e.source@ == id).len() <= path::PATH_FANOUT
        && edges.filter(|e: EdgeRow| e.target@ == id).len() <= path::PATH_FANOUT;
    if few {
        assert forall|k: int| 0 <= k < edges.len() implies ((#[trigger] edges[k]).source@ == id
            ==> nbs.contains(edges[k].target@)) && (edges[k].target@ == id ==> nbs.contains(
            edges[k].source@,
        )) by {
            if edges[k].source@ == id {
                assert(outs.contains(edges[k]));
                let j = choose|j: int| 0 <= j < outs.len() && outs[j] == edges[k];
                assert(fo[j] == edges[k].target@);
                assert(ids[j] == edges[k].target@);
                assert(ids.contains(edges[k].target@));
            }
            if edges[k].target@ == id {
                assert(ins.contains(edges[k]));
                let j = choose|j: int| 0 <= j < ins.len() && ins[j] == edges[k];
                assert(fi[j] == edges[k].source@);
                assert(ids[fo.len() + j] == edges[k].source@);
                assert(ids.contains(edges[k].source@));
            }
        }
    }
}

proof fn lemma_adjacent_holds(edges: Seq<EdgeRow>, id: Seq<char>, outgoing: bool)
    ensures
        ({
            let r = query::adjacent_rows(edges, id, outgoing, path::path_scope());
            let p = if outgoing {
                |e: EdgeRow| e.source@ == id
            } else {
                |e: EdgeRow| e.target@ == id
            };
            &&& forall|i: int|
                0 <= i < r.len() ==> edges.contains(#[trigger] r[i]) && p(r[i])
            &&& edges.filter(p).len() <= path::PATH_FANOUT ==> forall|k: int|
                0 <= k < edges.len() && p(#[trigger] edges[k]) ==> r.contains(edges[k])
        }),
{
    let sc = path::path_scope();
    let r = query::adjacent_rows(edges, id, outgoing, sc);
    let p = if outgoing {
        |e: EdgeRow| e.source@ == id
    } else {
        |e: EdgeRow| e.target@ == id
    };
    let q = if outgoing {
        query::leaves(id, sc)
    } else {
        query::enters(id, sc)
    };
    let some = rows::kept(edges, q);
    rows::lemma_kept(edges, q);
    assert forall|i: int| 0 <= i < edges.len() implies q(#[trigger] edges[i]) == p(edges[i]) by {}
    rows::lemma_kept_same(edges, q, p);
    rows::lemma_top(some, weight_of(), query::weight_keys(some), sc.limit as nat);
    let at = choose|at: Seq<int>| #[trigger]
        rows::is_top_at(some, weight_of(), sc.limit as nat, r, at);
    assert forall|i: int| 0 <= i < r.len() implies edges.contains(#[trigger] r[i]) && p(r[i]) by {
        assert(r[i] == some[at[i]]);
        assert(q(some[at[i]]));
        assert(edges.contains(some[at[i]]));
        let k = choose|k: int| 0 <= k < edges.len() && edges[k] == some[at[i]];
        assert(q(edges[k]) == p(edges[k]));
    }
    if edges.filter(p).len() <= path::PATH_FANOUT {
        assert(r.len() == some.len());
        assert forall|k: int| 0 <= k < edges.len() && p(#[trigger] edges[k]) implies r.contains(
            edges[k],
        ) by {
            assert(some.contains(edges[k]));
            let x = choose|x: int| 0 <= x < some.len() && some[x] == edges[k];
            lemma_all_taken(at, some.len() as int, x);
            let y = choose|y: int| 0 <= y < at.len() && at[y] == x;
            assert(r[y] == edges[k]);
        }
    }
}

/// As many different numbers below `n` as there are hold every one of them.
proof fn lemma_all_taken(at: Seq<int>, n: int, x: int)
    requires
        at.len() == n,
        0 <= x < n,
        forall|i: int| 0 <= i < at.len() ==> 0 <= #[trigger] at[i] < n,
        forall|i: int, j: int| 0 <= i < j < at.len() ==> #[trigger] at[i] != #[trigger] at[j],
    ensures
        at.contains(x),
{
    if !at.contains(x) {
        let more = at.push(x);
        assert forall|i: int, j: int|
            0 <= i < more.len() && 0 <= j < more.len() && i != j implies more[i] != more[j] by {
            if i < at.len() && j < at.len() {
                if i < j {
                    assert(at[i] != at[j]);
                } else {
                    assert(at[j] != at[i]);
                }
            } else if i < at.len() {
                assert(more[i] == at[i]);
                assert(at.contains(at[i]));
            } else {
                assert(more[j] == at[j]);
                assert(at.contains(at[j]));
            }
        }
        assert(more.no_duplicates());
        rows::lemma_distinct_bounded(more, n);
    }
}

/// Whether an edge that fits leads from one node to the other, in the direction or against it.
pub open spec fn is_way(
    edges: Seq<EdgeRow>,
    a: Seq<char>,
    b: Seq<char>,
    outgoing: bool,
    sc: Scope,
) -> bool {
    exists|k: int|
        0 <= k < edges.len() && fits_at(a, outgoing, sc)(#[trigger] edges[k]) && b == if outgoing {
            edges[k].target@
        } else {
            edges[k].source@
        }
}

/// A step of a walk goes along an edge of the kinds and the weight that are asked for; where a
/// node has no more such edges than a walk looks at, each of them is a step.
pub proof fn law_a_step_goes_along_an_edge(
    edges: Seq<EdgeRow>,
    sc: Scope,
    a: Seq<char>,
    b: Seq<char>,
)
    ensures
        query::is_step(edges, sc, a, b) ==> is_way(edges, a, b, true, sc) || is_way(
            edges,
            a,
            b,
            false,
            sc,
        ),
        forall|outgoing: bool| #[trigger]
            is_way(edges, a, b, outgoing, sc) && edges.filter(fits_at(a, outgoing, sc)).len()
                <= sc.limit ==> query::is_step(edges, sc, a, b),
{
    lemma_steps(edges, sc, a, b, true);
    lemma_steps(edges, sc, a, b, false);
    assert forall|outgoing: bool| #[trigger]
        is_way(edges, a, b, outgoing, sc) && edges.filter(fits_at(a, outgoing, sc)).len()
            <= sc.limit implies query::is_step(edges, sc, a, b) by {
        lemma_steps(edges, sc, a, b, outgoing);
    }
}

proof fn lemma_steps(
    edges: Seq<EdgeRow>,
    sc: Scope,
    a: Seq<char>,
    b: Seq<char>,
    outgoing: bool,
)
    ensures
        ({
            let r = query::adjacent_rows(edges, a, outgoing, sc);
            let leads = if outgoing {
                query::leads_out(r, b)
            } else {
                query::leads_in(r, b)
            };
            &&& leads ==> is_way(edges, a, b, outgoing, sc)
            &&& is_way(edges, a, b, outgoing, sc) && edges.filter(
                fits_at(a, outgoing, sc),
            ).len() <= sc.limit ==> leads
        }),
{
    let q = fits_at(a, outgoing, sc);
    let some = edges.filter(q);
    let r = query::adjacent_rows(edges, a, outgoing, sc);
    rows::lemma_kept_is_filter(edges, q);
    rows::lemma_kept(edges, q);
    law_a_walk_takes_the_heaviest_edges(edges, a, outgoing, sc);
    let at = choose|at: Seq<int>| #[trigger]
        rows::is_top_at(some, weight_of(), sc.limit as nat, r, at);
    assert forall|i: int| 0 <= i < r.len() implies edges.contains(#[trigger] r[i]) && q(r[i]) by {
        assert(r[i] == some[at[i]]);
        assert(q(some[at[i]]));
        assert(edges.contains(some[at[i]]));
    }
    if (outgoing && query::leads_out(r, b)) || (!outgoing && query::leads_in(r, b)) {
        let i = if outgoing {
            choose|i: int| 0 <= i < r.len() && (#[trigger] r[i]).target@ == b
        } else {
            choose|i: int| 0 <= i < r.len() && (#[trigger] r[i]).source@ == b
        };
        assert(edges.contains(r[i]));
        let k = choose|k: int| 0 <= k < edges.len() && edges[k] == r[i];
        assert(q(edges[k]));
    }
    if is_way(edges, a, b, outgoing, sc) && some.len() <= sc.limit {
        let k = choose|k: int|
            0 <= k < edges.len() && q(#[trigger] edges[k]) && b == if outgoing {
                edges[k].target@
            } else {
                edges[k].source@
            };
        assert(some.contains(edges[k]));
        let x = choose|x: int| 0 <= x < some.len() && some[x] == edges[k];
        lemma_all_taken(at, some.len() as int, x);
        let y = choose|y: int| 0 <= y < at.len() && at[y] == x;
        assert(r[y] == edges[k]);
    }
}

// ---- The cluster of a path

/// The cluster of a path is that of the directory at its top, whichever way its directories
/// are set apart; a file at the top, and a path that begins at the root, is in the cluster of
/// the root.
pub proof fn law_the_top_directory_is_the_cluster(top: Seq<char>, sep: char, rest: Seq<char>)
    requires
        forall|i: int| 0 <= i < top.len() ==> (#[trigger] top[i]) != '/' && top[i] != '\\',
        sep == '/' || sep == '\\',
    ensures
        top.len() > 0 ==> clusters::cluster_of_path(top.push(sep) + rest) == "cluster:"@ + top,
        top.len() == 0 ==> clusters::cluster_of_path(top.push(sep) + rest) == ROOT_CLUSTER_ID@,
        clusters::cluster_of_path(top) == ROOT_CLUSTER_ID@,
{
    let s = top.push(sep) + rest;
    let norm = text::replace_char(s, '\\', '/');
    lemma_first_slash(norm, top.len() as int, 0);
    assert(norm.take(top.len() as int) =~= top);
    let plain = text::replace_char(top, '\\', '/');
    assert(plain =~= top);
    lemma_no_slash(top, 0);
}

proof fn lemma_first_slash(s: Seq<char>, at: int, i: int)
    requires
        0 <= i <= at < s.len(),
        s[at] == '/',
        forall|k: int| i <= k < at ==> (#[trigger] s[k]) != '/',
    ensures
        text::index_from(s, text::only('/'), i) == Some(at),
    decreases at - i,
{
    if i < at {
        lemma_first_slash(s, at, i + 1);
    }
}

proof fn lemma_no_slash(s: Seq<char>, i: int)
    requires
        0 <= i <= s.len(),
        forall|k: int| i <= k < s.len() ==> (#[trigger] s[k]) != '/',
    ensures
        text::index_from(s, text::only('/'), i) is None,
    decreases s.len() - i,
{
    if i < s.len() {
        lemma_no_slash(s, i + 1);
    }
}

// ---- Where nodes without a path belong

/// Whether `x` is one of the nodes and belongs to the cluster.
pub open spec fn belongs_to(
    nodes: Seq<GraphNode>,
    homes: Seq<Seq<char>>,
    c: Seq<char>,
) -> spec_fn(Seq<char>) -> bool {
    |x: Seq<char>|
        exists|i: int| 0 <= i < nodes.len() && (#[trigger] nodes[i]).id@ == x && homes[i] == c
}

/// How many neighbours of the node are in the cluster.
pub open spec fn votes_for(
    nodes: Seq<GraphNode>,
    edges: Seq<EdgeRow>,
    homes: Seq<Seq<char>>,
    id: Seq<char>,
    c: Seq<char>,
) -> nat {
    cluster_engine::neighbors(edges, id).filter(belongs_to(nodes, homes, c)).len()
}

/// A step in which the node numbered `k` is looked at: a node with a path stays, and so does
/// one of whose neighbours none is in a cluster; any other goes to a cluster that no other has
/// more of its neighbours than. Nothing else moves.
pub open spec fn is_step(
    nodes: Seq<GraphNode>,
    edges: Seq<EdgeRow>,
    k: int,
    before: Seq<Seq<char>>,
    after: Seq<Seq<char>>,
) -> bool {
    &&& after.len() == before.len()
    &&& forall|j: int| 0 <= j < before.len() && j != k ==> #[trigger] after[j] == before[j]
    &&& nodes[k].path is Some ==> after[k] == before[k]
    &&& nodes[k].path is None ==> {
        let id = nodes[k].id@;
        ||| (after[k] == before[k] && forall|d: Seq<char>|
            #[trigger] votes_for(nodes, edges, before, id, d) == 0)
        ||| (votes_for(nodes, edges, before, id, after[k]) > 0 && forall|d: Seq<char>|
            #[trigger] votes_for(nodes, edges, before, id, d) <= votes_for(
                nodes,
                edges,
                before,
                id,
                after[k],
            ))
    }
}

/// The nodes are settled: at first each with a path is in the cluster of its path and each
/// other one nowhere in particular; then each is looked at in turn. `steps` holds where the
/// nodes are before each is looked at and in the end.
pub open spec fn are_settled_by(
    nodes: Seq<GraphNode>,
    edges: Seq<EdgeRow>,
    homes: Seq<Seq<char>>,
    steps: Seq<Seq<Seq<char>>>,
) -> bool {
    &&& steps.len() == nodes.len() + 1
    &&& steps[0].len() == nodes.len()
    &&& forall|j: int|
        0 <= j < nodes.len() ==> #[trigger] steps[0][j] == match nodes[j].path {
            Some(p) => clusters::cluster_of_path(p@),
            None => GLOBAL_CLUSTER_ID@,
        }
    &&& forall|k: int|
        0 <= k < nodes.len() ==> is_step(nodes, edges, k, #[trigger] steps[k], steps[k + 1])
    &&& homes == steps[nodes.len() as int]
}

pub open spec fn are_settled(
    nodes: Seq<GraphNode>,
    edges: Seq<EdgeRow>,
    homes: Seq<Seq<char>>,
) -> bool {
    exists|steps: Seq<Seq<Seq<char>>>| #[trigger] are_settled_by(nodes, edges, homes, steps)
}

proof fn lemma_home_at(
    nodes: Seq<GraphNode>,
    homes: Seq<Seq<char>>,
    c: Seq<char>,
    x: Seq<char>,
)
    requires
        rows::unique(nodes, store::node_key()),
        homes.len() == nodes.len(),
    ensures
        belongs_to(nodes, homes, c)(x) <==> cluster_engine::home_at(nodes, homes, x) == Some(c),
{
    rows::lemma_row_index(nodes, store::node_key(), x, 0);
    if belongs_to(nodes, homes, c)(x) {
        let i = choose|i: int|
            0 <= i < nodes.len() && (#[trigger] nodes[i]).id@ == x && homes[i] == c;
        rows::lemma_row_index_at(nodes, store::node_key(), i);
    }
    if cluster_engine::home_at(nodes, homes, x) == Some(c) {
        let i = store::node_index(nodes, x)->0;
        assert(nodes[i].id@ == x);
    }
}

proof fn lemma_ballots_counted(
    nodes: Seq<GraphNode>,
    homes: Seq<Seq<char>>,
    nbs: Seq<Seq<char>>,
    n: int,
    c: Seq<char>,
)
    requires
        rows::unique(nodes, store::node_key()),
        homes.len() == nodes.len(),
        0 <= n <= nbs.len(),
    ensures
        text::count_of(cluster_engine::ballots(nodes, homes, nbs, n), c) == nbs.take(n).filter(
            belongs_to(nodes, homes, c),
        ).len(),
    decreases n,
{
    reveal(Seq::filter);
    if n > 0 {
        lemma_ballots_counted(nodes, homes, nbs, n - 1, c);
        lemma_home_at(nodes, homes, c, nbs[n - 1]);
        assert(nbs.take(n).drop_last() =~= nbs.take(n - 1));
        let before = cluster_engine::ballots(nodes, homes, nbs, n - 1);
        match cluster_engine::home_at(nodes, homes, nbs[n - 1]) {
            Some(h) => {
                assert(before.push(h).drop_last() =~= before);
            },
            None => {},
        }
    }
}

proof fn lemma_best_ballot(b: Seq<Seq<char>>, n: int)
    requires
        1 <= n <= b.len(),
    ensures
        0 <= cluster_engine::best_ballot(b, n) < n,
        forall|i: int|
            0 <= i < n ==> text::count_of(b, #[trigger] b[i]) <= text::count_of(
                b,
                b[cluster_engine::best_ballot(b, n)],
            ),
    decreases n,
{
    if n > 1 {
        lemma_best_ballot(b, n - 1);
    }
}

proof fn lemma_counted(s: Seq<Seq<char>>, x: Seq<char>)
    ensures
        text::count_of(s, x) > 0 <==> s.contains(x),
    decreases s.len(),
{
    if s.len() > 0 {
        lemma_counted(s.drop_last(), x);
        if s.drop_last().contains(x) {
            let i = choose|i: int| 0 <= i < s.drop_last().len() && s.drop_last()[i] == x;
            assert(s[i] == x);
        }
        if s.contains(x) && s.last() != x {
            let i = choose|i: int| 0 <= i < s.len() && s[i] == x;
            assert(s.drop_last()[i] == x);
        }
        if s.last() == x {
            assert(s[s.len() - 1] == x);
        }
    }
}

/// A node without a path goes where most of its neighbours are: of all clusters none has more
/// of them at that moment. The others stay where they are.
pub proof fn law_the_majority_decides(nodes: Seq<GraphNode>, edges: Seq<EdgeRow>, k: int)
    requires
        rows::unique(nodes, store::node_key()),
        0 <= k < nodes.len(),
    ensures
        is_step(
            nodes,
            edges,
            k,
            cluster_engine::homes_after(nodes, edges, k),
            cluster_engine::homes_after(nodes, edges, k + 1),
        ),
{
    let before = cluster_engine::homes_after(nodes, edges, k);
    let after = cluster_engine::homes_after(nodes, edges, k + 1);
    cluster_engine::lemma_homes_after(nodes, edges, k);
    let id = nodes[k].id@;
    let nbs = cluster_engine::neighbors(edges, id);
    let b = cluster_engine::ballots(nodes, before, nbs, nbs.len() as int);
    assert(nbs.take(nbs.len() as int) =~= nbs);
    assert forall|d: Seq<char>| #[trigger]
        votes_for(nodes, edges, before, id, d) == text::count_of(b, d) by {
        lemma_ballots_counted(nodes, before, nbs, nbs.len() as int, d);
    }
    if nodes[k].path is None {
        if b.len() == 0 {
            assert forall|d: Seq<char>| #[trigger]
                votes_for(nodes, edges, before, id, d) == 0 by {
                assert(text::count_of(b, d) == 0);
            }
        } else {
            lemma_best_ballot(b, b.len() as int);
            let w = b[cluster_engine::best_ballot(b, b.len() as int)];
            assert(after[k] == w);
            lemma_counted(b, w);
            assert(votes_for(nodes, edges, before, id, w) == text::count_of(b, w));
            assert forall|d: Seq<char>| #[trigger]
                votes_for(nodes, edges, before, id, d) <= votes_for(nodes, edges, before, id, w) by {
                lemma_counted(b, d);
                if b.contains(d) {
                    let i = choose|i: int| 0 <= i < b.len() && b[i] == d;
                    assert(text::count_of(b, b[i]) <= text::count_of(b, w));
                }
            }
        }
    }
}

/// In the end every node is where its path or, one after the other, the majority of its
/// neighbours put it.
pub proof fn law_nodes_are_settled(nodes: Seq<GraphNode>, edges: Seq<EdgeRow>)
    requires
        rows::unique(nodes, store::node_key()),
    ensures
        are_settled(nodes, edges, cluster_engine::final_homes(nodes, edges)),
{
    let n = nodes.len() as int;
    let steps = Seq::new((n + 1) as nat, |k: int| cluster_engine::homes_after(nodes, edges, k));
    assert forall|k: int| 0 <= k < n implies is_step(
        nodes,
        edges,
        k,
        #[trigger] steps[k],
        steps[k + 1],
    ) by {
        law_the_majority_decides(nodes, edges, k);
    }
    assert(are_settled_by(nodes, edges, cluster_engine::final_homes(nodes, edges), steps));
}

// ---- What is written down

pub open spec fn is_member(ms: Seq<MemberRow>, c: Seq<char>, x: Seq<char>) -> bool {
    exists|i: int|
        0 <= i < ms.len() && (#[trigger] ms[i]).cluster_id@ == c && ms[i].node_id@ == x
}

/// Whether one of the nodes has the home and the id.
pub open spec fn lives_at(
    nodes: Seq<GraphNode>,
    homes: Seq<Seq<char>>,
    c: Seq<char>,
    x: Seq<char>,
) -> bool {
    exists|k: int| 0 <= k < nodes.len() && (#[trigger] nodes[k]).id@ == x && homes[k] == c
}

/// The members of the clusters that were found are the nodes that live there; the members of
/// other clusters stay.
pub open spec fn are_listed(
    nodes: Seq<GraphNode>,
    homes: Seq<Seq<char>>,
    before: Seq<MemberRow>,
    after: Seq<MemberRow>,
) -> bool {
    forall|c: Seq<char>, x: Seq<char>| #[trigger]
        is_member(after, c, x) <==> if homes.contains(c) {
            lives_at(nodes, homes, c, x)
        } else {
            is_member(before, c, x)
        }
}

/// Whether the id is that of a node that its path puts into the cluster; what is no node, or
/// has no path, counts as being nowhere in particular.
pub open spec fn starts_in(nodes: Seq<GraphNode>, id: Seq<char>, c: Seq<char>) -> bool {
    if exists|i: int| 0 <= i < nodes.len() && (#[trigger] nodes[i]).id@ == id {
        exists|i: int|
            0 <= i < nodes.len() && (#[trigger] nodes[i]).id@ == id && c == match nodes[i].path {
                Some(p) => clusters::cluster_of_path(p@),
                None => GLOBAL_CLUSTER_ID@,
            }
    } else {
        c == GLOBAL_CLUSTER_ID@
    }
}

pub open spec fn lies_in(nodes: Seq<GraphNode>, c: Seq<char>) -> spec_fn(GraphEdge) -> bool {
    |e: GraphEdge| starts_in(nodes, e.source@, c) && starts_in(nodes, e.target@, c)
}

/// How many ends of edges are at a node.
pub open spec fn ends_at(list: Seq<GraphEdge>, id: Seq<char>) -> nat {
    list.filter(|e: GraphEdge| e.source@ == id).len() + list.filter(
        |e: GraphEdge| e.target@ == id,
    ).len()
}

/// By what the centre of a cluster is chosen: the ends of edges at a node; a node that its
/// neighbours brought counts for one.
pub open spec fn rank_of(list: Seq<GraphEdge>, n: GraphNode) -> nat {
    if n.path is Some {
        ends_at(list, n.id@)
    } else {
        1
    }
}

/// Whether a cluster has the number of its nodes and edges, and for its centre one of its
/// nodes that no other outranks.
pub open spec fn is_summed_up(
    nodes: Seq<GraphNode>,
    homes: Seq<Seq<char>>,
    list: Seq<GraphEdge>,
    r: ClusterV,
) -> bool {
    &&& homes.contains(r.id)
    &&& r.node_count == homes.filter(|h: Seq<char>| h == r.id).len()
    &&& r.edge_count == list.filter(lies_in(nodes, r.id)).len()
    &&& r.id != GLOBAL_CLUSTER_ID@ ==> exists|k: int|
        0 <= k < nodes.len() && r.centroid == Some((#[trigger] nodes[k]).id@) && homes[k] == r.id
            && forall|j: int|
            0 <= j < nodes.len() && homes[j] == r.id ==> rank_of(list, #[trigger] nodes[j])
                <= rank_of(list, nodes[k])
}

/// Whether the clusters are those of the homes: each summed up, none twice and none left out,
/// the larger ones first.
pub open spec fn are_summed_up(
    nodes: Seq<GraphNode>,
    homes: Seq<Seq<char>>,
    list: Seq<GraphEdge>,
    rs: Seq<ClusterV>,
) -> bool {
    &&& forall|i: int|
        0 <= i < rs.len() ==> is_summed_up(nodes, homes, list, #[trigger] rs[i])
    &&& forall|i: int, j: int|
        0 <= i < j < rs.len() ==> (#[trigger] rs[i]).id != (#[trigger] rs[j]).id
            && rs[i].node_count >= rs[j].node_count
    &&& forall|k: int|
        0 <= k < homes.len() ==> exists|i: int|
            0 <= i < rs.len() && (#[trigger] rs[i]).id == #[trigger] homes[k]
}

/// Whether clusters were found anew: the nodes are settled, and what is written down of the
/// clusters and their members is what follows from where they settled.
pub open spec fn are_found(before: GraphStore, after: GraphStore) -> bool {
    exists|homes: Seq<Seq<char>>| #[trigger] are_found_at(before, after, homes)
}

pub open spec fn are_found_at(
    before: GraphStore,
    after: GraphStore,
    homes: Seq<Seq<char>>,
) -> bool {
    let nodes = cluster_engine::engine_nodes(before.nodes@);
    &&& homes.len() == nodes.len()
    &&& are_settled(nodes, before.edges@, homes)
    &&& are_listed(nodes, homes, before.members@, after.members@)
    &&& are_summed_up(
        nodes,
        homes,
        cluster_engine::engine_edges(before.edges@),
        cluster_engine::row_views(after.clusters@),
    )
}

proof fn lemma_pairs(ms: Seq<MemberRow>, c: Seq<char>, x: Seq<char>)
    ensures
        is_member(ms, c, x) <==> cluster_engine::pair_views(ms).contains((c, x)),
{
    let ps = cluster_engine::pair_views(ms);
    if is_member(ms, c, x) {
        let i = choose|i: int|
            0 <= i < ms.len() && (#[trigger] ms[i]).cluster_id@ == c && ms[i].node_id@ == x;
        assert(ps[i] == (c, x));
    }
    if ps.contains((c, x)) {
        let i = choose|i: int| 0 <= i < ps.len() && ps[i] == (c, x);
        assert(ms[i].cluster_id@ == c);
    }
}

proof fn lemma_members(
    nodes: Seq<GraphNode>,
    homes: Seq<Seq<char>>,
    c: Seq<char>,
    n: int,
    x: Seq<char>,
)
    requires
        0 <= n <= nodes.len(),
        homes.len() == nodes.len(),
    ensures
        cluster_engine::home_members(nodes, homes, c, n).contains(x) <==> exists|k: int|
            0 <= k < n && (#[trigger] nodes[k]).id@ == x && homes[k] == c,
        cluster_engine::home_members(nodes, homes, c, n).len() == homes.take(n).filter(
            |h: Seq<char>| h == c,
        ).len(),
        cluster_engine::home_members(nodes, homes, c, n).len() <= n,
    decreases n,
{
    reveal(Seq::filter);
    if n > 0 {
        lemma_members(nodes, homes, c, n - 1, x);
        let before = cluster_engine::home_members(nodes, homes, c, n - 1);
        let after = cluster_engine::home_members(nodes, homes, c, n);
        assert(homes.take(n).drop_last() =~= homes.take(n - 1));
        if before.contains(x) {
            let i = choose|i: int| 0 <= i < before.len() && before[i] == x;
            assert(after[i] == x);
        }
        if after.contains(x) {
            let i = choose|i: int| 0 <= i < after.len() && after[i] == x;
            if i < before.len() {
                assert(before[i] == x);
            } else {
                assert(nodes[n - 1].id@ == x);
            }
        }
        if nodes[n - 1].id@ == x && homes[n - 1] == c {
            assert(after[after.len() - 1] == x);
        }
    }
}

proof fn lemma_pairs_with(
    ps: Seq<(Seq<char>, Seq<char>)>,
    c: Seq<char>,
    ids: Seq<Seq<char>>,
    n: int,
    d: Seq<char>,
    x: Seq<char>,
)
    requires
        0 <= n <= ids.len(),
    ensures
        cluster_engine::pairs_with(ps, c, ids, n).contains((d, x)) <==> ps.contains((d, x)) || (d
            == c && ids.take(n).contains(x)),
    decreases n,
{
    if n > 0 {
        lemma_pairs_with(ps, c, ids, n - 1, d, x);
        let before = cluster_engine::pairs_with(ps, c, ids, n - 1);
        let after = cluster_engine::pairs_with(ps, c, ids, n);
        let front = ids.take(n - 1);
        let all = ids.take(n);
        assert(all =~= front.push(ids[n - 1]));
        if before.contains((d, x)) {
            let i = choose|i: int| 0 <= i < before.len() && before[i] == (d, x);
            assert(after[i] == (d, x));
        }
        if front.contains(x) {
            let i = choose|i: int| 0 <= i < front.len() && front[i] == x;
            assert(all[i] == x);
        }
        if ids[n - 1] == x {
            assert(all[n - 1] == x);
            if d == c && !before.contains((c, x)) {
                assert(after[after.len() - 1] == (d, x));
            }
        }
        if after.contains((d, x)) && !before.contains((d, x)) {
            let i = choose|i: int| 0 <= i < after.len() && after[i] == (d, x);
            assert(i == before.len());
        }
        if all.contains(x) && !front.contains(x) {
            let i = choose|i: int| 0 <= i < all.len() && all[i] == x;
            if i < n - 1 {
                assert(front[i] == x);
            }
        }
    } else {
        assert(!ids.take(0).contains(x));
    }
}

proof fn lemma_pairs_after(
    ps: Seq<(Seq<char>, Seq<char>)>,
    nodes: Seq<GraphNode>,
    homes: Seq<Seq<char>>,
    ids: Seq<Seq<char>>,
    n: int,
    d: Seq<char>,
    x: Seq<char>,
)
    requires
        0 <= n <= ids.len(),
        homes.len() == nodes.len(),
    ensures
        cluster_engine::pairs_after(ps, nodes, homes, ids, n).contains((d, x)) <==> if ids.take(
            n,
        ).contains(d) {
            lives_at(nodes, homes, d, x)
        } else {
            ps.contains((d, x))
        },
    decreases n,
{
    if n > 0 {
        lemma_pairs_after(ps, nodes, homes, ids, n - 1, d, x);
        let before = cluster_engine::pairs_after(ps, nodes, homes, ids, n - 1);
        let c = ids[n - 1];
        let ms = cluster_engine::home_members(nodes, homes, c, nodes.len() as int);
        let rest = rows::kept(before, cluster_engine::other_pair(c));
        rows::lemma_kept(before, cluster_engine::other_pair(c));
        lemma_members(nodes, homes, c, nodes.len() as int, x);
        lemma_pairs_with(rest, c, ms, ms.len() as int, d, x);
        assert(ms.take(ms.len() as int) =~= ms);
        let front = ids.take(n - 1);
        let all = ids.take(n);
        assert(all =~= front.push(c));
        if front.contains(d) {
            let i = choose|i: int| 0 <= i < front.len() && front[i] == d;
            assert(all[i] == d);
        }
        if d == c {
            assert(all[n - 1] == d);
            if rest.contains((d, x)) {
                let i = choose|i: int| 0 <= i < rest.len() && rest[i] == (d, x);
                assert(cluster_engine::other_pair(c)(rest[i]));
            }
        } else {
            if all.contains(d) {
                let i = choose|i: int| 0 <= i < all.len() && all[i] == d;
                assert(front[i] == d);
            }
            if before.contains((d, x)) {
                let i = choose|i: int| 0 <= i < before.len() && before[i] == (d, x);
                assert(cluster_engine::other_pair(c)(before[i]));
                assert(rest.contains(before[i]));
            }
            if rest.contains((d, x)) {
                let i = choose|i: int| 0 <= i < rest.len() && rest[i] == (d, x);
                assert(before.contains(rest[i]));
            }
        }
    } else {
        assert(!ids.take(0).contains(d));
    }
}

proof fn lemma_starts_in(nodes: Seq<GraphNode>, id: Seq<char>, c: Seq<char>)
    requires
        rows::unique(nodes, store::node_key()),
    ensures
        starts_in(nodes, id, c) <==> cluster_engine::or_global(
            cluster_engine::home_at(nodes, cluster_engine::first_homes(nodes), id),
        ) == c,
{
    rows::lemma_row_index(nodes, store::node_key(), id, 0);
    match store::node_index(nodes, id) {
        Some(i) => {
            assert(nodes[i].id@ == id);
            assert forall|j: int| 0 <= j < nodes.len() && (#[trigger] nodes[j]).id@ == id implies j
                == i by {
                rows::lemma_row_index_at(nodes, store::node_key(), j);
            }
        },
        None => {
            assert forall|j: int| 0 <= j < nodes.len() implies (#[trigger] nodes[j]).id@ != id by {
                assert(store::node_key()(nodes[j]) != id);
            }
        },
    }
}

proof fn lemma_inner(nodes: Seq<GraphNode>, list: Seq<GraphEdge>, c: Seq<char>, n: int)
    requires
        rows::unique(nodes, store::node_key()),
        0 <= n <= list.len(),
    ensures
        cluster_engine::inner_edges(nodes, list, c, n) == list.take(n).filter(
            lies_in(nodes, c),
        ).len(),
        cluster_engine::inner_edges(nodes, list, c, n) <= n,
    decreases n,
{
    reveal(Seq::filter);
    if n > 0 {
        lemma_inner(nodes, list, c, n - 1);
        lemma_starts_in(nodes, list[n - 1].source@, c);
        lemma_starts_in(nodes, list[n - 1].target@, c);
        assert(list.take(n).drop_last() =~= list.take(n - 1));
        assert(list.take(n).last() == list[n - 1]);
    }
}

proof fn lemma_ends(list: Seq<GraphEdge>, id: Seq<char>, n: int)
    requires
        0 <= n <= list.len(),
    ensures
        cluster_engine::ends_of(list, id, n) == ends_at(list.take(n), id),
    decreases n,
{
    reveal(Seq::filter);
    if n > 0 {
        lemma_ends(list, id, n - 1);
        assert(list.take(n).drop_last() =~= list.take(n - 1));
        assert(list.take(n).last() == list[n - 1]);
    }
}

/// A node stays where it was before it is looked at, and where it is put then.
proof fn lemma_home_fixed(nodes: Seq<GraphNode>, edges: Seq<EdgeRow>, k: int, m: int)
    requires
        0 <= k < nodes.len(),
        0 <= m <= nodes.len(),
    ensures
        cluster_engine::homes_after(nodes, edges, m).len() == nodes.len(),
        m <= k ==> cluster_engine::homes_after(nodes, edges, m)[k] == cluster_engine::first_home(
            nodes[k],
        ),
        m > k && !cluster_engine::is_moved(nodes, edges, k) ==> cluster_engine::homes_after(
            nodes,
            edges,
            m,
        )[k] == cluster_engine::first_home(nodes[k]),
    decreases m,
{
    if m > 0 {
        lemma_home_fixed(nodes, edges, k, m - 1);
    }
}

spec fn is_center_of(
    nodes: Seq<GraphNode>,
    homes: Seq<Seq<char>>,
    list: Seq<GraphEdge>,
    k: int,
    c: CenterV,
) -> bool {
    c.id == nodes[k].id@ && c.home == homes[k] && c.degree == rank_of(list, nodes[k])
}

proof fn lemma_node_centers(
    nodes: Seq<GraphNode>,
    edges: Seq<EdgeRow>,
    list: Seq<GraphEdge>,
    n: int,
)
    requires
        0 <= n <= nodes.len(),
    ensures
        ({
            let cs = cluster_engine::node_centers(nodes, edges, list, n);
            let homes = cluster_engine::final_homes(nodes, edges);
            &&& forall|i: int|
                0 <= i < cs.len() && (#[trigger] cs[i]).home != GLOBAL_CLUSTER_ID@ ==> exists|k: int|
                    0 <= k < n && is_center_of(nodes, homes, list, k, cs[i])
            &&& forall|k: int|
                0 <= k < n && #[trigger] homes[k] != GLOBAL_CLUSTER_ID@ && rank_of(list, nodes[k])
                    > 0 ==> exists|i: int|
                    0 <= i < cs.len() && is_center_of(nodes, homes, list, k, #[trigger] cs[i])
        }),
    decreases n,
{
    let homes = cluster_engine::final_homes(nodes, edges);
    let cs = cluster_engine::node_centers(nodes, edges, list, n);
    if n > 0 {
        lemma_node_centers(nodes, edges, list, n - 1);
        let before = cluster_engine::node_centers(nodes, edges, list, n - 1);
        lemma_home_fixed(nodes, edges, n - 1, nodes.len() as int);
        lemma_ends(list, nodes[n - 1].id@, list.len() as int);
        assert(list.take(list.len() as int) =~= list);
        assert forall|i: int|
            0 <= i < cs.len() && (#[trigger] cs[i]).home != GLOBAL_CLUSTER_ID@ implies exists|k: int|
            0 <= k < n && is_center_of(nodes, homes, list, k, cs[i]) by {
            if i < before.len() {
                assert(cs[i] == before[i]);
                let k = choose|k: int|
                    0 <= k < n - 1 && is_center_of(nodes, homes, list, k, before[i]);
                assert(is_center_of(nodes, homes, list, k, cs[i]));
            } else {
                assert(is_center_of(nodes, homes, list, n - 1, cs[i]));
            }
        }
        assert forall|k: int|
            0 <= k < n && #[trigger] homes[k] != GLOBAL_CLUSTER_ID@ && rank_of(list, nodes[k])
                > 0 implies exists|i: int|
            0 <= i < cs.len() && is_center_of(nodes, homes, list, k, #[trigger] cs[i]) by {
            if k < n - 1 {
                let i = choose|i: int|
                    0 <= i < before.len() && is_center_of(nodes, homes, list, k, #[trigger] before[i]);
                assert(cs[i] == before[i]);
            } else {
                assert(is_center_of(nodes, homes, list, k, cs[cs.len() - 1]));
            }
        }
    }
}

proof fn lemma_best_center(cs: Seq<CenterV>, c: Seq<char>, n: int)
    requires
        0 <= n <= cs.len(),
    ensures
        match cluster_engine::best_center(cs, c, n) {
            Some(k) => 0 <= k < n && cs[k].home == c && forall|i: int|
                0 <= i < n && (#[trigger] cs[i]).home == c ==> cs[i].degree <= cs[k].degree,
            None => forall|i: int| 0 <= i < n ==> (#[trigger] cs[i]).home != c,
        },
    decreases n,
{
    if n > 0 {
        lemma_best_center(cs, c, n - 1);
    }
}

proof fn lemma_least(ids: Seq<Seq<char>>, n: int)
    requires
        0 < n <= ids.len(),
    ensures
        cluster_engine::least(ids, n) matches Some(x) && ids.contains(x),
    decreases n,
{
    reveal_with_fuel(cluster_engine::least, 2);
    if n > 1 {
        lemma_least(ids, n - 1);
    }
    assert(ids.contains(ids[n - 1]));
}

proof fn lemma_centroid(
    nodes: Seq<GraphNode>,
    edges: Seq<EdgeRow>,
    list: Seq<GraphEdge>,
    c: Seq<char>,
    now: i64,
)
    requires
        c != GLOBAL_CLUSTER_ID@,
        cluster_engine::final_homes(nodes, edges).contains(c),
    ensures
        exists|k: int|
            0 <= k < nodes.len() && cluster_engine::directory_cluster(
                nodes,
                edges,
                list,
                c,
                now,
            ).centroid == Some((#[trigger] nodes[k]).id@) && cluster_engine::final_homes(
                nodes,
                edges,
            )[k] == c && forall|j: int|
                0 <= j < nodes.len() && cluster_engine::final_homes(nodes, edges)[j] == c
                    ==> rank_of(list, #[trigger] nodes[j]) <= rank_of(list, nodes[k]),
{
    let homes = cluster_engine::final_homes(nodes, edges);
    let n = nodes.len() as int;
    let own = cluster_engine::node_centers(nodes, edges, list, n);
    let cs = cluster_engine::all_centers(nodes, edges, list);
    let r = cluster_engine::directory_cluster(nodes, edges, list, c, now);
    cluster_engine::lemma_homes_after(nodes, edges, n);
    lemma_node_centers(nodes, edges, list, n);
    lemma_best_center(cs, c, cs.len() as int);
    match cluster_engine::best_center(cs, c, cs.len() as int) {
        Some(x) => {
            assert(x < own.len());
            assert(cs[x] == own[x]);
            let k = choose|k: int| 0 <= k < n && is_center_of(nodes, homes, list, k, own[x]);
            assert(r.centroid == Some(nodes[k].id@));
            assert forall|j: int| 0 <= j < nodes.len() && homes[j] == c implies rank_of(
                list,
                #[trigger] nodes[j],
            ) <= rank_of(list, nodes[k]) by {
                if rank_of(list, nodes[j]) > 0 {
                    let h = homes[j];
                    let i = choose|i: int|
                        0 <= i < own.len() && is_center_of(nodes, homes, list, j, #[trigger] own[i]);
                    assert(cs[i] == own[i]);
                }
            }
        },
        None => {
            let ms = cluster_engine::home_members(nodes, homes, c, n);
            let k0 = choose|k0: int| 0 <= k0 < homes.len() && homes[k0] == c;
            lemma_members(nodes, homes, c, n, nodes[k0].id@);
            assert(ms.contains(nodes[k0].id@));
            lemma_least(ms, ms.len() as int);
            let x = cluster_engine::least(ms, ms.len() as int)->0;
            lemma_members(nodes, homes, c, n, x);
            let k = choose|k: int| 0 <= k < n && (#[trigger] nodes[k]).id@ == x && homes[k] == c;
            assert(r.centroid == Some(nodes[k].id@));
            assert forall|j: int| 0 <= j < nodes.len() && homes[j] == c implies rank_of(
                list,
                #[trigger] nodes[j],
            ) <= rank_of(list, nodes[k]) by {
                if rank_of(list, nodes[j]) > 0 {
                    let h = homes[j];
                    let i = choose|i: int|
                        0 <= i < own.len() && is_center_of(nodes, homes, list, j, #[trigger] own[i]);
                    assert(cs[i] == own[i]);
                }
            }
        },
    }
}

proof fn lemma_one_summed_up(
    nodes: Seq<GraphNode>,
    edges: Seq<EdgeRow>,
    list: Seq<GraphEdge>,
    c: Seq<char>,
    now: i64,
)
    requires
        rows::unique(nodes, store::node_key()),
        nodes.len() <= u32::MAX,
        list.len() <= u32::MAX,
        cluster_engine::final_homes(nodes, edges).contains(c),
    ensures
        is_summed_up(
            nodes,
            cluster_engine::final_homes(nodes, edges),
            list,
            cluster_engine::directory_cluster(nodes, edges, list, c, now),
        ),
{
    let homes = cluster_engine::final_homes(nodes, edges);
    cluster_engine::lemma_homes_after(nodes, edges, nodes.len() as int);
    lemma_members(nodes, homes, c, nodes.len() as int, Seq::empty());
    lemma_inner(nodes, list, c, list.len() as int);
    assert(list.take(list.len() as int) =~= list);
    assert(homes.take(homes.len() as int) =~= homes);
    if c != GLOBAL_CLUSTER_ID@ {
        lemma_centroid(nodes, edges, list, c, now);
    }
}

proof fn lemma_all_summed_up(nodes: Seq<GraphNode>, edges: Seq<EdgeRow>, now: i64)
    requires
        rows::unique(nodes, store::node_key()),
        nodes.len() <= u32::MAX,
    ensures
        are_summed_up(
            nodes,
            cluster_engine::final_homes(nodes, edges),
            cluster_engine::engine_edges(edges),
            cluster_engine::by_size(cluster_engine::directory_clusters(nodes, edges, now)),
        ),
{
    let list = cluster_engine::engine_edges(edges);
    let homes = cluster_engine::final_homes(nodes, edges);
    let ids = text::distinct(homes);
    let made = cluster_engine::directory_clusters(nodes, edges, now);
    let sizes = cluster_engine::view_size_keys(made);
    let places = rows::order_of(sizes);
    let rs = cluster_engine::by_size(made);
    text::lemma_distinct(homes);
    rows::lemma_order_of_first(sizes, sizes.len() as int);
    assert forall|i: int| 0 <= i < rs.len() implies is_summed_up(
        nodes,
        homes,
        list,
        #[trigger] rs[i],
    ) by {
        let c = ids[places[i]];
        assert(rs[i] == made[places[i]]);
        assert(ids.contains(c));
        assert(homes.contains(c));
        lemma_one_summed_up(nodes, edges, list, c, now);
    }
    assert forall|i: int, j: int| 0 <= i < j < rs.len() implies (#[trigger] rs[i]).id != (
    #[trigger] rs[j]).id && rs[i].node_count >= rs[j].node_count by {
        assert(rs[i] == made[places[i]]);
        assert(rs[j] == made[places[j]]);
        assert(rows::row_lt(sizes, places[i], places[j]));
        if places[i] == places[j] {
            rows::lemma_key_lt_irreflexive(sizes[places[i]]);
        }
        assert(ids[places[i]] != ids[places[j]]);
        reveal_with_fuel(rows::key_lt, 3);
        assert(sizes[places[i]][0] == -(made[places[i]].node_count as int));
        assert(sizes[places[j]][0] == -(made[places[j]].node_count as int));
        assert(sizes[places[i]].drop_first().len() == 0);
        assert(sizes[places[j]].drop_first().len() == 0);
    }
    assert forall|k: int| 0 <= k < homes.len() implies exists|i: int|
        0 <= i < rs.len() && (#[trigger] rs[i]).id == #[trigger] homes[k] by {
        assert(homes.contains(homes[k]));
        assert(ids.contains(homes[k]));
        let x = choose|x: int| 0 <= x < ids.len() && ids[x] == homes[k];
        assert(places.contains(x));
        let i = choose|i: int| 0 <= i < places.len() && places[i] == x;
        assert(rs[i] == made[places[i]]);
    }
}

/// Finding clusters anew settles every node, lists in each cluster the nodes that settled
/// there, and sums the clusters up by counting nodes and edges.
pub proof fn law_clusters_follow_the_nodes(before: GraphStore, after: GraphStore, now: i64)
    requires
        rows::unique(before.nodes@, store::node_key()),
        cluster_engine::is_rebuilt(before, after, now),
    ensures
        are_found(before, after),
{
    let nodes = cluster_engine::engine_nodes(before.nodes@);
    let edges = before.edges@;
    let homes = cluster_engine::final_homes(nodes, edges);
    let ids = text::distinct(homes);
    clusters::lemma_overview_unique(before.nodes@, clusters::CLUSTER_NODE_LIMIT);
    cluster_engine::lemma_homes_after(nodes, edges, nodes.len() as int);
    law_nodes_are_settled(nodes, edges);
    text::lemma_distinct(homes);
    assert(ids.take(ids.len() as int) =~= ids);
    assert forall|c: Seq<char>, x: Seq<char>| #[trigger]
        is_member(after.members@, c, x) <==> if homes.contains(c) {
            lives_at(nodes, homes, c, x)
        } else {
            is_member(before.members@, c, x)
        } by {
        lemma_pairs(after.members@, c, x);
        lemma_pairs(before.members@, c, x);
        lemma_pairs_after(
            cluster_engine::pair_views(before.members@),
            nodes,
            homes,
            ids,
            ids.len() as int,
            c,
            x,
        );
    }
    lemma_all_summed_up(nodes, edges, now);
    assert(are_found_at(before, after, homes));
}

// ---- Links between clusters

/// Whether an edge leads between the two clusters, in whichever direction.
pub open spec fn crosses(
    ms: Seq<MemberRow>,
    nodes: Seq<GraphNode>,
    a: Seq<char>,
    b: Seq<char>,
) -> spec_fn(GraphEdge) -> bool {
    |e: GraphEdge|
        {
            let from = clusters::cluster_of_node(ms, nodes, e.source@);
            let to = clusters::cluster_of_node(ms, nodes, e.target@);
            (from == Some(a) && to == Some(b)) || (from == Some(b) && to == Some(a))
        }
}

/// Whether the links are those between clusters: two different clusters, none of them the one
/// for what is nowhere in particular, each pair once and with as many edges as cross; and no
/// edge that crosses is left out.
pub open spec fn are_links(
    list: Seq<GraphEdge>,
    ms: Seq<MemberRow>,
    nodes: Seq<GraphNode>,
    ls: Seq<LinkV>,
) -> bool {
    &&& forall|i: int|
        0 <= i < ls.len() ==> is_link(list, ms, nodes, #[trigger] ls[i])
    &&& forall|i: int, j: int|
        0 <= i < j < ls.len() ==> !((#[trigger] ls[i]).source == (#[trigger] ls[j]).source
            && ls[i].target == ls[j].target)
    &&& forall|k: int, a: Seq<char>, b: Seq<char>|
        0 <= k < list.len() && a != b && a != GLOBAL_CLUSTER_ID@ && b != GLOBAL_CLUSTER_ID@
            && #[trigger] crosses(ms, nodes, a, b)(list[k]) ==> has_link(ls, a, b) || has_link(
            ls,
            b,
            a,
        )
}

pub open spec fn is_link(
    list: Seq<GraphEdge>,
    ms: Seq<MemberRow>,
    nodes: Seq<GraphNode>,
    l: LinkV,
) -> bool {
    l.source != l.target && l.source != GLOBAL_CLUSTER_ID@ && l.target != GLOBAL_CLUSTER_ID@
        && text::text_lt(l.source, l.target) && l.count == list.filter(
        crosses(ms, nodes, l.source, l.target),
    ).len()
}

pub open spec fn has_link(ls: Seq<LinkV>, a: Seq<char>, b: Seq<char>) -> bool {
    exists|i: int| 0 <= i < ls.len() && (#[trigger] ls[i]).source == a && ls[i].target == b
}

proof fn lemma_same_char(c: char, d: char)
    requires
        c as u32 == d as u32,
    ensures
        c == d,
{
}

proof fn lemma_either_way(a: Seq<char>, b: Seq<char>)
    requires
        a != b,
    ensures
        text::text_lt(a, b) <==> !text::text_lt(b, a),
{
    let ka = rows::text_key(a);
    let kb = rows::text_key(b);
    rows::lemma_key_lt_total(ka, kb);
    if ka == kb {
        assert(ka.len() == a.len() && kb.len() == b.len());
        assert forall|i: int| 0 <= i < a.len() implies a[i] == b[i] by {
            assert(ka[i] == (a[i] as u32) as int);
            assert(kb[i] == (b[i] as u32) as int);
            lemma_same_char(a[i], b[i]);
        }
        assert(a =~= b);
    }
    if rows::key_lt(ka, kb) && rows::key_lt(kb, ka) {
        rows::lemma_key_lt_transitive(ka, kb, ka);
        rows::lemma_key_lt_irreflexive(ka);
    }
}

proof fn lemma_none_passes(list: Seq<GraphEdge>, p: spec_fn(GraphEdge) -> bool)
    requires
        forall|k: int| 0 <= k < list.len() ==> !p(#[trigger] list[k]),
    ensures
        list.filter(p).len() == 0,
{
    rows::lemma_kept_is_filter(list, p);
    rows::lemma_kept(list, p);
    let r = rows::kept(list, p);
    if r.len() > 0 {
        assert(p(r[0]));
        assert(list.contains(r[0]));
    }
}

proof fn lemma_one_more_edge(
    list: Seq<GraphEdge>,
    ms: Seq<MemberRow>,
    nodes: Seq<GraphNode>,
    n: int,
    a: Seq<char>,
    b: Seq<char>,
)
    requires
        0 < n <= list.len(),
    ensures
        list.take(n).filter(crosses(ms, nodes, a, b)).len() == list.take(n - 1).filter(
            crosses(ms, nodes, a, b),
        ).len() + if crosses(ms, nodes, a, b)(list[n - 1]) {
            1nat
        } else {
            0
        },
{
    reveal(Seq::filter);
    assert(list.take(n).drop_last() =~= list.take(n - 1));
    assert(list.take(n).last() == list[n - 1]);
}

/// Clusters are linked by the edges that cross between them, and by nothing else.
pub proof fn law_links_count_what_crosses(
    list: Seq<GraphEdge>,
    ms: Seq<MemberRow>,
    nodes: Seq<GraphNode>,
    n: int,
)
    requires
        0 <= n <= list.len(),
    ensures
        are_links(list.take(n), ms, nodes, cluster_engine::tally(list, ms, nodes, n)),
    decreases n,
{
    let ls = cluster_engine::tally(list, ms, nodes, n);
    let some = list.take(n);
    if n > 0 {
        law_links_count_what_crosses(list, ms, nodes, n - 1);
        let before = cluster_engine::tally(list, ms, nodes, n - 1);
        let fewer = list.take(n - 1);
        let e = list[n - 1];
        let a = cluster_engine::or_global(clusters::cluster_of_node(ms, nodes, e.source@));
        let b = cluster_engine::or_global(clusters::cluster_of_node(ms, nodes, e.target@));
        assert forall|k: int| 0 <= k < n - 1 implies #[trigger] some[k] == fewer[k] by {}
        assert(some[n - 1] == e);
        if a == b || a == GLOBAL_CLUSTER_ID@ || b == GLOBAL_CLUSTER_ID@ {
            assert forall|i: int| 0 <= i < ls.len() implies is_link(
                some,
                ms,
                nodes,
                #[trigger] ls[i],
            ) by {
                assert(is_link(fewer, ms, nodes, before[i]));
                lemma_one_more_edge(list, ms, nodes, n, ls[i].source, ls[i].target);
            }
            assert forall|k: int, x: Seq<char>, y: Seq<char>|
                0 <= k < some.len() && x != y && x != GLOBAL_CLUSTER_ID@ && y != GLOBAL_CLUSTER_ID@
                    && #[trigger] crosses(ms, nodes, x, y)(some[k]) implies has_link(ls, x, y)
                || has_link(ls, y, x) by {
                if k < n - 1 {
                    assert(crosses(ms, nodes, x, y)(fewer[k]));
                }
            }
        } else {
            lemma_either_way(a, b);
            let (x, y) = if text::text_lt(a, b) {
                (a, b)
            } else {
                (b, a)
            };
            lemma_either_way(x, y);
            assert(crosses(ms, nodes, x, y)(e));
            lemma_one_more_edge(list, ms, nodes, n, x, y);
            let key = cluster_engine::link_key();
            rows::lemma_row_index(before, key, (x, y), 0);
            let found = rows::row_index(before, key, (x, y), 0);
            assert forall|i: int| 0 <= i < before.len() implies is_link(
                fewer,
                ms,
                nodes,
                #[trigger] before[i],
            ) by {}
            if found is None {
                assert forall|k: int| 0 <= k < fewer.len() implies !crosses(ms, nodes, x, y)(
                    #[trigger] fewer[k],
                ) by {
                    if crosses(ms, nodes, x, y)(fewer[k]) {
                        if has_link(before, x, y) {
                            let i = choose|i: int|
                                0 <= i < before.len() && (#[trigger] before[i]).source == x
                                    && before[i].target == y;
                            assert(key(before[i]) == (x, y));
                        } else {
                            let i = choose|i: int|
                                0 <= i < before.len() && (#[trigger] before[i]).source == y
                                    && before[i].target == x;
                            assert(is_link(fewer, ms, nodes, before[i]));
                        }
                    }
                }
                lemma_none_passes(fewer, crosses(ms, nodes, x, y));
                assert(ls[before.len() as int].source == x);
            } else {
                let i = found->0;
                assert(key(before[i]) == (x, y));
                assert(ls[i].source == x && ls[i].target == y);
            }
            assert(has_link(ls, x, y));
            assert forall|i: int| 0 <= i < ls.len() implies is_link(
                some,
                ms,
                nodes,
                #[trigger] ls[i],
            ) by {
                if i < before.len() {
                    assert(is_link(fewer, ms, nodes, before[i]));
                    assert(ls[i].source == before[i].source && ls[i].target == before[i].target);
                    lemma_one_more_edge(list, ms, nodes, n, ls[i].source, ls[i].target);
                    if found != Some(i) {
                        if key(before[i]) == (x, y) {
                            let f = found->0;
                            if f < i {
                                assert(before[f].source == before[i].source);
                            }
                        }
                    }
                }
            }
            assert forall|i: int, j: int| 0 <= i < j < ls.len() implies !((
            #[trigger] ls[i]).source == (#[trigger] ls[j]).source && ls[i].target
                == ls[j].target) by {
                assert(ls[i].source == before[i].source && ls[i].target == before[i].target);
                if j < before.len() {
                    assert(ls[j].source == before[j].source && ls[j].target == before[j].target);
                } else {
                    assert(key(before[i]) != (x, y));
                }
            }
            assert forall|k: int, u: Seq<char>, v: Seq<char>|
                0 <= k < some.len() && u != v && u != GLOBAL_CLUSTER_ID@ && v != GLOBAL_CLUSTER_ID@
                    && #[trigger] crosses(ms, nodes, u, v)(some[k]) implies has_link(ls, u, v)
                || has_link(ls, v, u) by {
                if k < n - 1 {
                    assert(crosses(ms, nodes, u, v)(fewer[k]));
                    lemma_link_stays(before, ls, u, v);
                    lemma_link_stays(before, ls, v, u);
                }
            }
        }
    }
}

proof fn lemma_link_stays(before: Seq<LinkV>, ls: Seq<LinkV>, a: Seq<char>, b: Seq<char>)
    requires
        before.len() <= ls.len(),
        forall|i: int|
            0 <= i < before.len() ==> (#[trigger] ls[i]).source == before[i].source && ls[i].target
                == before[i].target,
    ensures
        has_link(before, a, b) ==> has_link(ls, a, b),
{
    if has_link(before, a, b) {
        let i = choose|i: int|
            0 <= i < before.len() && (#[trigger] before[i]).source == a && before[i].target == b;
        assert(ls[i].source == a);
    }
}

} // verus!
