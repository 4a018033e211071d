//! What is counted, chosen and marked.

use crate::graph::advice;
use crate::graph::candidates;
use crate::graph::cluster_engine;
use crate::graph::extractor;
use crate::graph::extractor::HostV;
use crate::graph::lists;
use crate::graph::merger;
use crate::graph::model::{GraphAiCandidate, GraphNode, NodeType, Relation};
use crate::graph::query;
use crate::graph::store;
use crate::graph::store::{EdgeRow, FavoriteRow, GraphStore, PropertyRow};
use crate::rows;
use vstd::prelude::*;

verus! {

/// The group that is taken is close enough, none is closer, and of equally close ones it is
/// the first; where none is taken, none is close enough.
pub proof fn law_the_closest_group_is_taken(sims: Seq<i64>, threshold: i64, n: int)
    requires
        0 <= n <= sims.len(),
    ensures
        match cluster_engine::closest(sims, threshold, n) {
            Some(k) => 0 <= k < n && sims[k] >= threshold && (forall|j: int|
                0 <= j < n ==> #[trigger] sims[j] <= sims[k]) && (forall|j: int|
                0 <= j < k ==> #[trigger] sims[j] < sims[k]),
            None => forall|j: int| 0 <= j < n ==> #[trigger] sims[j] < threshold,
        },
    decreases n,
{
    if n > 0 {
        law_the_closest_group_is_taken(sims, threshold, n - 1);
    }
}

/// How many edges begin or end at the node.
pub open spec fn edges_at(edges: Seq<EdgeRow>, id: Seq<char>) -> nat {
    edges.filter(touching(id)).len()
}

pub open spec fn touching(id: Seq<char>) -> spec_fn(EdgeRow) -> bool {
    |e: EdgeRow| e.source@ == id || e.target@ == id
}

proof fn lemma_edges_at(edges: Seq<EdgeRow>, id: Seq<char>)
    ensures
        query::degree_of(edges, id) == edges_at(edges, id),
        edges_at(edges, id) <= edges.len(),
{
    rows::lemma_kept_same(edges, query::touching(id), touching(id));
    rows::lemma_kept(edges, query::touching(id));
}

/// The member that stands for a topic has the most edges, and of several it is the first;
/// there is none where no member has an edge.
pub proof fn law_the_busiest_member_stands_for_the_topic(
    edges: Seq<EdgeRow>,
    members: Seq<Seq<char>>,
    n: int,
)
    requires
        0 <= n <= members.len(),
        edges.len() <= u32::MAX,
    ensures
        ({
            let b = cluster_engine::best_member(edges, members, n);
            &&& forall|k: int| 0 <= k < n ==> edges_at(edges, #[trigger] members[k]) <= b.degree
            &&& match b.id {
                Some(x) => b.degree > 0 && exists|k: int|
                    0 <= k < n && #[trigger] members[k] == x && edges_at(edges, members[k]) == b.degree
                        && forall|j: int| 0 <= j < k ==> edges_at(edges, #[trigger] members[j]) < b.degree,
                None => b.degree == 0,
            }
        }),
    decreases n,
{
    if n > 0 {
        let before = cluster_engine::best_member(edges, members, n - 1);
        let b = cluster_engine::best_member(edges, members, n);
        law_the_busiest_member_stands_for_the_topic(edges, members, n - 1);
        lemma_edges_at(edges, members[n - 1]);
        if b.degree > before.degree {
            assert(members[n - 1] == b.id->0);
        } else if let Some(x) = b.id {
            let k = choose|k: int|
                0 <= k < n - 1 && #[trigger] members[k] == x && edges_at(edges, members[k])
                    == before.degree && forall|j: int|
                    0 <= j < k ==> edges_at(edges, #[trigger] members[j]) < before.degree;
            assert(members[k] == x);
        }
    }
}

/// Whether the node is marked.
pub open spec fn is_marked(fs: Seq<FavoriteRow>, id: Seq<char>) -> bool {
    exists|i: int| 0 <= i < fs.len() && (#[trigger] fs[i]).node_id@ == id
}

/// A node that is marked is marked, one whose mark is taken away is not; a mark that was there
/// stays as it was, and other marks stay.
pub proof fn law_a_mark_is_set_or_taken_away(
    fs: Seq<FavoriteRow>,
    id: String,
    on: bool,
    now: i64,
    f: FavoriteRow,
)
    ensures
        ({
            let r = candidates::with_favorite(fs, id, on, now);
            &&& is_marked(r, id@) == on
            &&& f.node_id@ != id@ ==> (r.contains(f) <==> fs.contains(f))
            &&& on && is_marked(fs, id@) ==> r == fs
            &&& on && !is_marked(fs, id@) && f.node_id@ == id@ && r.contains(f) ==> f.created_at == now
        }),
{
    let r = candidates::with_favorite(fs, id, on, now);
    let p = candidates::other_favorite(id@);
    rows::lemma_row_index(fs, store::favorite_key(), id@, 0);
    rows::lemma_kept(fs, p);
    match candidates::favorite_index(fs, id@) {
        Some(i) => {
            assert(fs[i].node_id@ == id@);
        },
        None => {
            assert forall|j: int| 0 <= j < fs.len() implies (#[trigger] fs[j]).node_id@ != id@ by {
                assert(store::favorite_key()(fs[j]) != id@);
            }
        },
    }
    if !on {
        if is_marked(r, id@) {
            let k = choose|k: int| 0 <= k < r.len() && (#[trigger] r[k]).node_id@ == id@;
            assert(p(r[k]));
        }
        if f.node_id@ != id@ && fs.contains(f) {
            let k = choose|k: int| 0 <= k < fs.len() && fs[k] == f;
            assert(p(fs[k]));
        }
        if r.contains(f) {
            let k = choose|k: int| 0 <= k < r.len() && r[k] == f;
            assert(fs.contains(r[k]));
        }
    } else if candidates::favorite_index(fs, id@) is None {
        assert(r[fs.len() as int].node_id@ == id@);
        if fs.contains(f) {
            let k = choose|k: int| 0 <= k < fs.len() && fs[k] == f;
            assert(r[k] == f);
        }
        if r.contains(f) {
            let k = choose|k: int| 0 <= k < r.len() && r[k] == f;
            if k < fs.len() {
                assert(fs[k] == f);
            }
        }
    }
}

/// A proposal that is kept is found under its id as it is, and others stay as they were.
pub proof fn law_a_proposal_is_found_again(
    cs: Seq<GraphAiCandidate>,
    c: GraphAiCandidate,
    d: GraphAiCandidate,
)
    requires
        rows::unique(cs, store::candidate_key()),
    ensures
        ({
            let r = candidates::with_candidate(cs, c);
            &&& d.id@ == c.id@ ==> (r.contains(d) <==> d == c)
            &&& d.id@ != c.id@ ==> (r.contains(d) <==> cs.contains(d))
            &&& rows::unique(r, store::candidate_key())
        }),
{
    let r = candidates::with_candidate(cs, c);
    let key = store::candidate_key();
    rows::lemma_row_index(cs, key, c.id@, 0);
    let at: int = match candidates::candidate_index(cs, c.id@) {
        Some(i) => {
            rows::lemma_unique_update(cs, key, i, c);
            i
        },
        None => {
            rows::lemma_unique_push(cs, key, c);
            cs.len() as int
        },
    };
    assert(r[at] == c);
    if r.contains(d) {
        let k = choose|k: int| 0 <= k < r.len() && r[k] == d;
        if k != at {
            assert(key(r[k]) != key(r[at]));
            assert(cs[k] == d);
        }
    }
    if d.id@ != c.id@ && cs.contains(d) {
        let k = choose|k: int| 0 <= k < cs.len() && cs[k] == d;
        assert(k != at);
        assert(r[k] == d);
    }
}

/// The entities that count are those that have a name.
pub proof fn law_entities_with_names_count(hs: Seq<HostV>, n: int)
    requires
        0 <= n <= hs.len(),
    ensures
        extractor::named_count(hs, n) == hs.take(n).filter(
            |h: HostV| merger::canonical(h.name).len() > 0,
        ).len(),
    decreases n,
{
    reveal(Seq::filter);
    if n > 0 {
        law_entities_with_names_count(hs, n - 1);
        assert(hs.take(n).drop_last() =~= hs.take(n - 1));
        assert(hs.take(n).last() == hs[n - 1]);
    }
}

/// The last change of the edges is that of one of them and no other is later.
pub proof fn law_the_last_change_is_the_latest(edges: Seq<EdgeRow>, n: int)
    requires
        0 <= n <= edges.len(),
    ensures
        match lists::last_change(edges, n) {
            Some(t) => (exists|k: int| 0 <= k < n && (#[trigger] edges[k]).updated_at == t) && forall|
                k: int,
            |
                0 <= k < n ==> (#[trigger] edges[k]).updated_at <= t,
            None => n == 0,
        },
    decreases n,
{
    if n > 0 {
        law_the_last_change_is_the_latest(edges, n - 1);
        let e = edges[n - 1];
        assert(e.updated_at == e.updated_at);
    }
}

/// The highest number of edges at a document is that of one of them, or one, and none has
/// more.
pub proof fn law_no_document_has_more_edges(edges: Seq<EdgeRow>, nodes: Seq<GraphNode>, n: int)
    requires
        0 <= n <= nodes.len(),
    ensures
        ({
            let m = lists::max_doc_degree(edges, nodes, n);
            &&& m >= 1
            &&& forall|k: int|
                0 <= k < n && (#[trigger] nodes[k]).node_type == NodeType::Doc ==> edges_at(
                    edges,
                    nodes[k].id@,
                ) <= m
            &&& m == 1 || exists|k: int|
                0 <= k < n && (#[trigger] nodes[k]).node_type == NodeType::Doc && edges_at(
                    edges,
                    nodes[k].id@,
                ) == m
        }),
    decreases n,
{
    if n > 0 {
        law_no_document_has_more_edges(edges, nodes, n - 1);
        lemma_edges_at(edges, nodes[n - 1].id@);
        let before = lists::max_doc_degree(edges, nodes, n - 1);
        let m = lists::max_doc_degree(edges, nodes, n);
        if m == before && m != 1 {
            let k = choose|k: int|
                0 <= k < n - 1 && (#[trigger] nodes[k]).node_type == NodeType::Doc && edges_at(
                    edges,
                    nodes[k].id@,
                ) == before;
            assert(nodes[k].node_type == NodeType::Doc);
        } else if m != before {
            assert(nodes[n - 1].node_type == NodeType::Doc);
        }
    }
}

/// What is told of a kind of nodes is how many of them there are, and only of kinds that
/// there are.
pub proof fn law_kinds_are_counted(nodes: Seq<GraphNode>, types: Seq<NodeType>, n: int)
    requires
        0 <= n <= types.len(),
    ensures
        ({
            let r = lists::type_counts(nodes, types, n);
            &&& forall|k: int|
                0 <= k < r.len() ==> types.take(n).contains((#[trigger] r[k]).0) && nodes.filter(
                    is_of(r[k].0),
                ).len() > 0 && r[k].1 == nodes.filter(is_of(r[k].0)).len() as u64
            &&& forall|j: int|
                0 <= j < n && nodes.filter(is_of(#[trigger] types[j])).len() > 0 ==> exists|k: int|
                    0 <= k < r.len() && (#[trigger] r[k]).0 == types[j]
        }),
    decreases n,
{
    if n > 0 {
        let before = lists::type_counts(nodes, types, n - 1);
        let r = lists::type_counts(nodes, types, n);
        let t = types[n - 1];
        law_kinds_are_counted(nodes, types, n - 1);
        rows::lemma_kept_same(nodes, lists::of_type(t), is_of(t));
        let some = types.take(n);
        let fewer = types.take(n - 1);
        assert(some[n - 1] == t);
        assert forall|x: NodeType| #[trigger] fewer.contains(x) implies some.contains(x) by {
            let j = choose|j: int| 0 <= j < fewer.len() && fewer[j] == x;
            assert(some[j] == x);
        }
        assert forall|k: int| 0 <= k < r.len() implies some.contains((#[trigger] r[k]).0) && nodes.filter(
            is_of(r[k].0),
        ).len() > 0 && r[k].1 == nodes.filter(is_of(r[k].0)).len() as u64 by {
            if k < before.len() {
                assert(r[k] == before[k]);
                assert(fewer.contains(before[k].0));
            } else {
                assert(some.contains(t));
            }
        }
        assert forall|j: int| 0 <= j < n && nodes.filter(is_of(#[trigger] types[j])).len() > 0 implies exists|
            k: int,
        |
            0 <= k < r.len() && (#[trigger] r[k]).0 == types[j] by {
            if j < n - 1 {
                let k = choose|k: int| 0 <= k < before.len() && (#[trigger] before[k]).0 == types[j];
                assert(r[k].0 == types[j]);
            } else {
                assert(r[r.len() - 1].0 == t);
            }
        }
    }
}

pub open spec fn is_of(t: NodeType) -> spec_fn(GraphNode) -> bool {
    |n: GraphNode| n.node_type == t
}

/// The keys that are listed are those that begin so, in their order.
pub proof fn law_keys_are_listed_by_their_beginning(ps: Seq<PropertyRow>, prefix: Seq<char>, n: int)
    requires
        0 <= n <= ps.len(),
    ensures
        store::keys_with_prefix(ps, prefix, n) == Seq::new(
            n as nat,
            |i: int| ps[i].key@,
        ).filter(begins(prefix)),
    decreases n,
{
    reveal(Seq::filter);
    let keys = Seq::new(n as nat, |i: int| ps[i].key@);
    if n > 0 {
        law_keys_are_listed_by_their_beginning(ps, prefix, n - 1);
        assert(keys.drop_last() =~= Seq::new((n - 1) as nat, |i: int| ps[i].key@));
        assert(keys.last() == ps[n - 1].key@);
    }
}

pub open spec fn begins(prefix: Seq<char>) -> spec_fn(Seq<char>) -> bool {
    |k: Seq<char>| k.len() >= prefix.len() && k.subrange(0, prefix.len() as int) == prefix
}

/// Whether an edge of the user's, in either direction, says that they prefer the node.
pub open spec fn is_liked(edges: Seq<EdgeRow>, id: Seq<char>) -> bool {
    exists|i: int|
        0 <= i < edges.len() && (#[trigger] edges[i]).relation == Relation::Prefers && ((
        edges[i].source@ == advice::USER_ID@ && edges[i].target@ == id) || (edges[i].target@
            == advice::USER_ID@ && edges[i].source@ == id))
}

/// What is told of the user's preferences are the nodes that are there, each with what the
/// user thinks of it.
pub proof fn law_preferences_are_told(s: GraphStore, them: Seq<Seq<char>>, n: int)
    requires
        0 <= n <= them.len(),
    ensures
        ({
            let r = advice::preferences_in(s, them, n);
            &&& forall|k: int|
                0 <= k < r.len() ==> exists|j: int|
                    0 <= j < n && (#[trigger] r[k]).node.id@ == #[trigger] them[j] && r[k].reason == if is_liked(
                        s.edges@,
                        them[j],
                    ) {
                        "我的偏好（喜欢）"@
                    } else {
                        "我的偏好（回避）"@
                    }
            &&& forall|j: int|
                0 <= j < n && store::node_index(s.nodes@, #[trigger] them[j]) is Some ==> exists|k: int|
                    0 <= k < r.len() && (#[trigger] r[k]).node.id@ == them[j]
        }),
    decreases n,
{
    if n > 0 {
        let before = advice::preferences_in(s, them, n - 1);
        let r = advice::preferences_in(s, them, n);
        let id = them[n - 1];
        law_preferences_are_told(s, them, n - 1);
        rows::lemma_row_index(s.nodes@, store::node_key(), id, 0);
        assert(advice::is_preferred(s.edges@, id) == is_liked(s.edges@, id)) by {
            if is_liked(s.edges@, id) {
                let i = choose|i: int|
                    0 <= i < s.edges@.len() && (#[trigger] s.edges@[i]).relation == Relation::Prefers && ((
                    s.edges@[i].source@ == advice::USER_ID@ && s.edges@[i].target@ == id) || (
                    s.edges@[i].target@ == advice::USER_ID@ && s.edges@[i].source@ == id));
                assert(query::is_between(s.edges@[i], advice::USER_ID@, id));
            }
        }
        assert forall|k: int| 0 <= k < r.len() implies exists|j: int|
            0 <= j < n && (#[trigger] r[k]).node.id@ == #[trigger] them[j] && r[k].reason == if is_liked(
                s.edges@,
                them[j],
            ) {
                "我的偏好（喜欢）"@
            } else {
                "我的偏好（回避）"@
            } by {
            if k < before.len() {
                assert(r[k] == before[k]);
            } else {
                let i = store::node_index(s.nodes@, id)->0;
                assert(store::node_key()(s.nodes@[i]) == id);
                assert(r[k].node.id@ == them[n - 1]);
            }
        }
        assert forall|j: int| 0 <= j < n && store::node_index(s.nodes@, #[trigger] them[j]) is Some implies exists|
            k: int,
        |
            0 <= k < r.len() && (#[trigger] r[k]).node.id@ == them[j] by {
            if j < n - 1 {
                let k = choose|k: int| 0 <= k < before.len() && (#[trigger] before[k]).node.id@ == them[j];
                assert(r[k].node.id@ == them[j]);
            } else {
                let i = store::node_index(s.nodes@, id)->0;
                assert(store::node_key()(s.nodes@[i]) == id);
                assert(r[r.len() - 1].node.id@ == id);
            }
        }
    }
}

} // verus!
