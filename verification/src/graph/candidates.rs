//! Relations that a model proposes, favourites, and the figures about them.

use crate::graph::model;
use crate::graph::model::{GraphAiCandidate, GraphEdge, GraphMetrics, GraphNode};
use crate::graph::queue;
use crate::graph::store;
use crate::graph::store::{EdgeRow, FavoriteRow, GraphStore};
use crate::rows;
use crate::text;
use vstd::prelude::*;

verus! {

pub open spec fn candidate_index(cs: Seq<GraphAiCandidate>, id: Seq<char>) -> Option<int> {
    rows::row_index(cs, store::candidate_key(), id, 0)
}

/// The proposals with one added or replaced.
pub open spec fn with_candidate(cs: Seq<GraphAiCandidate>, c: GraphAiCandidate) -> Seq<
    GraphAiCandidate,
> {
    match candidate_index(cs, c.id@) {
        Some(i) => cs.update(i, c),
        None => cs.push(c),
    }
}

/// The proposals with the first `n` of `more` added or replaced, one behind the other.
pub open spec fn with_candidates(
    cs: Seq<GraphAiCandidate>,
    more: Seq<GraphAiCandidate>,
    n: int,
) -> Seq<GraphAiCandidate>
    decreases n,
{
    if n <= 0 {
        cs
    } else {
        with_candidate(with_candidates(cs, more, n - 1), more[n - 1])
    }
}

pub open spec fn in_state(status: Option<Seq<char>>) -> spec_fn(GraphAiCandidate) -> bool {
    |c: GraphAiCandidate|
        match status {
            Some(s) => c.status@ == s,
            None => true,
        }
}

pub open spec fn confidence_keys(cs: Seq<GraphAiCandidate>) -> Seq<Seq<int>> {
    Seq::new(cs.len(), |i: int| seq![-(cs[i].confidence as int)])
}

/// The proposals in the state, the surer ones first.
pub open spec fn candidate_list(
    cs: Seq<GraphAiCandidate>,
    status: Option<Seq<char>>,
    limit: u32,
) -> Seq<GraphAiCandidate> {
    let hits = rows::kept(cs, in_state(status));
    rows::limited(rows::rows_at(hits, rows::order_of(confidence_keys(hits))), limit as nat)
}

/// Whether a state makes a proposal an edge of the graph.
pub open spec fn confirms(status: Seq<char>) -> bool {
    status == "confirmed"@ || status == "auto_confirmed"@
}

pub open spec fn rejects(status: Seq<char>) -> bool {
    status == "rejected"@
}

/// The edge that a proposal stands for.
pub open spec fn edge_of_candidate(c: GraphAiCandidate) -> GraphEdge {
    GraphEdge {
        source: c.source,
        target: c.target,
        relation: c.relation,
        weight: Some(c.confidence),
        confidence: Some(c.confidence),
    }
}

/// The edges after the proposal has got the state: a confirmed one is added, with the
/// proposal as what it was made from; of a rejected one everything made from it is removed.
pub open spec fn edges_after(
    edges: Seq<EdgeRow>,
    c: GraphAiCandidate,
    status: Seq<char>,
    now: i64,
) -> Seq<EdgeRow> {
    if confirms(status) {
        store::with_edge(edges, edge_of_candidate(c), Some(c.id), now)
    } else if rejects(status) {
        rows::kept(edges, store::not_from(c.id@))
    } else {
        edges
    }
}

pub open spec fn is_pending() -> spec_fn(GraphAiCandidate) -> bool {
    |c: GraphAiCandidate| c.status@ == "candidate"@
}

pub open spec fn is_confirmed() -> spec_fn(GraphAiCandidate) -> bool {
    |c: GraphAiCandidate| confirms(c.status@)
}

pub open spec fn favorite_index(fs: Seq<FavoriteRow>, id: Seq<char>) -> Option<int> {
    rows::row_index(fs, store::favorite_key(), id, 0)
}

pub open spec fn other_favorite(id: Seq<char>) -> spec_fn(FavoriteRow) -> bool {
    |f: FavoriteRow| f.node_id@ != id
}

/// The favourites with a node marked or unmarked. A mark keeps the time at which it came.
pub open spec fn with_favorite(fs: Seq<FavoriteRow>, id: String, on: bool, now: i64) -> Seq<
    FavoriteRow,
> {
    if !on {
        rows::kept(fs, other_favorite(id@))
    } else if favorite_index(fs, id@) is Some {
        fs
    } else {
        fs.push(FavoriteRow { node_id: id, created_at: now })
    }
}

pub open spec fn marks_node(nodes: Seq<GraphNode>) -> spec_fn(FavoriteRow) -> bool {
    |f: FavoriteRow| store::node_index(nodes, f.node_id@) is Some
}

pub open spec fn recent_keys(fs: Seq<FavoriteRow>) -> Seq<Seq<int>> {
    Seq::new(fs.len(), |i: int| seq![-(fs[i].created_at as int)])
}

/// The marks whose node is there, the latest first.
pub open spec fn recent_favorites(fs: Seq<FavoriteRow>, nodes: Seq<GraphNode>, limit: u32) -> Seq<
    FavoriteRow,
> {
    let hits = rows::kept(fs, marks_node(nodes));
    rows::limited(rows::rows_at(hits, rows::order_of(recent_keys(hits))), limit as nat)
}

/// The nodes that are marked.
pub open spec fn marked_nodes(fs: Seq<FavoriteRow>, nodes: Seq<GraphNode>) -> Seq<GraphNode> {
    Seq::new(fs.len(), |i: int| nodes[store::node_index(nodes, fs[i].node_id@)->0])
}

impl GraphStore {
    fn find_candidate(&self, id: &str) -> (r: Option<usize>)
        ensures
            match r {
                Some(i) => candidate_index(self.candidates@, id@) == Some(i as int) && i
                    < self.candidates@.len() && self.candidates@[i as int].id@ == id@,
                None => candidate_index(self.candidates@, id@) is None,
            },
    {
        let mut i: usize = 0;
        while i < self.candidates.len()
            invariant
                i <= self.candidates.len(),
                candidate_index(self.candidates@, id@) == rows::row_index(
                    self.candidates@,
                    store::candidate_key(),
                    id@,
                    i as int,
                ),
            decreases self.candidates.len() - i,
        {
            if text::str_eq(&self.candidates[i].id, id) {
                return Some(i);
            }
            i += 1;
        }
        None
    }

    /// Adds a proposal, or replaces the one with its id.
    pub fn upsert_candidate(&mut self, c: &GraphAiCandidate)
        requires
            old(self).wf(),
        ensures
            final(self).wf(),
            final(self).candidates@ == with_candidate(old(self).candidates@, *c),
            *final(self) == (GraphStore { candidates: final(self).candidates, ..*old(self) }),
    {
        let ghost before = self.candidates@;
        let row = c.clone();
        match self.find_candidate(&c.id) {
            Some(i) => {
                self.candidates.set(i, row);
                proof {
                    rows::lemma_unique_update(before, store::candidate_key(), i as int, *c);
                }
            },
            None => {
                self.candidates.push(row);
                proof {
                    rows::lemma_unique_push(before, store::candidate_key(), *c);
                }
            },
        }
    }

    /// Adds or replaces several proposals, one behind the other.
    pub fn upsert_candidates(&mut self, list: &Vec<GraphAiCandidate>)
        requires
            old(self).wf(),
        ensures
            final(self).wf(),
            final(self).candidates@ == with_candidates(
                old(self).candidates@,
                list@,
                list@.len() as int,
            ),
            *final(self) == (GraphStore { candidates: final(self).candidates, ..*old(self) }),
    {
        let mut i: usize = 0;
        while i < list.len()
            invariant
                i <= list.len(),
                self.wf(),
                self.candidates@ == with_candidates(old(self).candidates@, list@, i as int),
                *self == (GraphStore { candidates: self.candidates, ..*old(self) }),
            decreases list.len() - i,
        {
            self.upsert_candidate(&list[i]);
            i += 1;
        }
    }

    /// The proposals, of one state or of all, the surer ones first.
    pub fn list_candidates(&self, status: Option<&str>, limit: u32) -> (r: Vec<GraphAiCandidate>)
        ensures
            r@ == candidate_list(
                self.candidates@,
                match status {
                    Some(s) => Some(s@),
                    None => None,
                },
                limit,
            ),
    {
        let ghost want = match status {
            Some(s) => Some(s@),
            None => None,
        };
        let ghost all = self.candidates@;
        let mut hits: Vec<GraphAiCandidate> = Vec::new();
        let mut keys: Vec<Vec<i128>> = Vec::new();
        let mut i: usize = 0;
        while i < self.candidates.len()
            invariant
                i <= self.candidates.len(),
                all == self.candidates@,
                want == match status {
                    Some(s) => Some(s@),
                    None => None,
                },
                hits@ == rows::kept(all.take(i as int), in_state(want)),
                keys@.len() == hits@.len(),
                forall|k: int|
                    0 <= k < keys@.len() ==> rows::key_view(#[trigger] keys@[k]@) == seq![
                        -(hits@[k].confidence as int),
                    ],
            decreases self.candidates.len() - i,
        {
            proof {
                assert(all.take(i + 1) == all.take(i as int).push(all[i as int]));
                rows::lemma_kept_push(all.take(i as int), all[i as int], in_state(want));
            }
            let hit = match status {
                Some(s) => text::str_eq(&self.candidates[i].status, s),
                None => true,
            };
            if hit {
                hits.push(self.candidates[i].clone());
                keys.push(rows::number_key(-(self.candidates[i].confidence as i128)));
            }
            i += 1;
        }
        assert(all.take(i as int) == all);
        assert(rows::keys_view(keys@) =~= confidence_keys(hits@));
        let order = rows::order_rows(&keys);
        let ghost sorted = rows::rows_at(hits@, rows::indices(order@));
        let mut r: Vec<GraphAiCandidate> = Vec::new();
        let mut j: usize = 0;
        while j < order.len() && j < limit as usize
            invariant
                j <= order.len(),
                j <= limit,
                forall|k: int| 0 <= k < order@.len() ==> (#[trigger] order@[k]) < hits@.len(),
                sorted == rows::rows_at(hits@, rows::indices(order@)),
                r@ == sorted.take(j as int),
            decreases order.len() - j,
        {
            assert(sorted[j as int] == hits@[order@[j as int] as int]);
            assert(sorted.take(j + 1) =~= sorted.take(j as int).push(sorted[j as int]));
            r.push(hits[order[j]].clone());
            j += 1;
        }
        assert(r@ =~= rows::limited(sorted, limit as nat));
        r
    }

    /// Gives a proposal a state. Confirmed, it becomes an edge of the graph; rejected, what
    /// was made from it goes. Returns the proposal as it is then, or nothing where there is
    /// none with the id.
    pub fn update_candidate_status(&mut self, id: &str, status: String, now: i64) -> (r: Option<
        GraphAiCandidate,
    >)
        requires
            old(self).wf(),
        ensures
            final(self).wf(),
            match candidate_index(old(self).candidates@, id@) {
                None => r is None && *final(self) == *old(self),
                Some(i) => {
                    let c = old(self).candidates@[i];
                    &&& r == Some(GraphAiCandidate { status, ..c })
                    &&& final(self).candidates@ == old(self).candidates@.update(
                        i,
                        (GraphAiCandidate { status, ..c }),
                    )
                    &&& final(self).edges@ == edges_after(old(self).edges@, c, status@, now)
                    &&& *final(self) == (GraphStore {
                        candidates: final(self).candidates,
                        edges: final(self).edges,
                        version: store::next_version(old(self).version),
                        ..*old(self)
                    })
                },
            },
    {
        let i = match self.find_candidate(id) {
            Some(i) => i,
            None => {
                return None;
            },
        };
        let mut c = self.candidates[i].clone();
        if text::str_eq(&status, "confirmed") || text::str_eq(&status, "auto_confirmed") {
            let edge = GraphEdge {
                source: c.source.clone(),
                target: c.target.clone(),
                relation: c.relation,
                weight: Some(c.confidence),
                confidence: Some(c.confidence),
            };
            self.upsert_edge(&edge, Some(c.id.clone()), now);
        } else {
            if text::str_eq(&status, "rejected") {
                self.remove_edges_from(&c.id);
            }
            self.bump_version();
        }
        c.status = status;
        let row = c.clone();
        proof {
            rows::lemma_unique_update(self.candidates@, store::candidate_key(), i as int, row);
        }
        self.candidates.set(i, row);
        Some(c)
    }

    /// How many proposals wait for an answer, and how many are confirmed.
    pub fn candidate_counts(&self) -> (r: (u64, u64))
        ensures
            r.0 == rows::kept(self.candidates@, is_pending()).len(),
            r.1 == rows::kept(self.candidates@, is_confirmed()).len(),
    {
        let ghost all = self.candidates@;
        let mut pending: u64 = 0;
        let mut confirmed: u64 = 0;
        let mut i: usize = 0;
        while i < self.candidates.len()
            invariant
                i <= self.candidates.len(),
                all == self.candidates@,
                pending <= i,
                confirmed <= i,
                pending == rows::kept(all.take(i as int), is_pending()).len(),
                confirmed == rows::kept(all.take(i as int), is_confirmed()).len(),
            decreases self.candidates.len() - i,
        {
            proof {
                assert(all.take(i + 1) == all.take(i as int).push(all[i as int]));
                rows::lemma_kept_push(all.take(i as int), all[i as int], is_pending());
                rows::lemma_kept_push(all.take(i as int), all[i as int], is_confirmed());
            }
            let status = &self.candidates[i].status;
            if text::str_eq(status, "candidate") {
                pending += 1;
            }
            if text::str_eq(status, "confirmed") || text::str_eq(status, "auto_confirmed") {
                confirmed += 1;
            }
            i += 1;
        }
        assert(all.take(i as int) == all);
        (pending, confirmed)
    }

    fn find_favorite(&self, node_id: &str) -> (r: Option<usize>)
        ensures
            match r {
                Some(i) => favorite_index(self.favorites@, node_id@) == Some(i as int) && i
                    < self.favorites@.len(),
                None => favorite_index(self.favorites@, node_id@) is None,
            },
    {
        let mut i: usize = 0;
        while i < self.favorites.len()
            invariant
                i <= self.favorites.len(),
                favorite_index(self.favorites@, node_id@) == rows::row_index(
                    self.favorites@,
                    store::favorite_key(),
                    node_id@,
                    i as int,
                ),
            decreases self.favorites.len() - i,
        {
            if text::str_eq(&self.favorites[i].node_id, node_id) {
                return Some(i);
            }
            i += 1;
        }
        None
    }

    /// Marks a node as a favourite, or takes the mark away.
    pub fn favorite(&mut self, node_id: &String, on: bool, now: i64)
        requires
            old(self).wf(),
        ensures
            final(self).wf(),
            final(self).favorites@ == with_favorite(old(self).favorites@, *node_id, on, now),
            *final(self) == (GraphStore { favorites: final(self).favorites, ..*old(self) }),
    {
        let ghost all = self.favorites@;
        if on {
            if self.find_favorite(node_id).is_none() {
                let row = FavoriteRow { node_id: node_id.clone(), created_at: now };
                proof {
                    rows::lemma_unique_push(all, store::favorite_key(), row);
                }
                self.favorites.push(row);
            }
            return;
        }
        let mut out: Vec<FavoriteRow> = Vec::new();
        let mut i: usize = 0;
        while i < self.favorites.len()
            invariant
                i <= self.favorites.len(),
                *self == *old(self),
                all == self.favorites@,
                out@ == rows::kept(all.take(i as int), other_favorite(node_id@)),
            decreases self.favorites.len() - i,
        {
            proof {
                assert(all.take(i + 1) == all.take(i as int).push(all[i as int]));
                rows::lemma_kept_push(all.take(i as int), all[i as int], other_favorite(node_id@));
            }
            if self.favorites[i].node_id != *node_id {
                out.push(self.favorites[i].clone());
            }
            i += 1;
        }
        proof {
            assert(all.take(i as int) == all);
            rows::lemma_unique_kept(all, store::favorite_key(), other_favorite(node_id@));
        }
        self.favorites = out;
    }

    /// The favourite nodes, the latest marks first.
    pub fn list_favorites(&self, limit: u32) -> (r: Vec<GraphNode>)
        ensures
            r@ == marked_nodes(
                recent_favorites(self.favorites@, self.nodes@, limit),
                self.nodes@,
            ),
    {
        let ghost all = self.favorites@;
        let ghost nodes = self.nodes@;
        let mut hits: Vec<FavoriteRow> = Vec::new();
        let mut at: Vec<usize> = Vec::new();
        let mut keys: Vec<Vec<i128>> = Vec::new();
        let mut i: usize = 0;
        while i < self.favorites.len()
            invariant
                i <= self.favorites.len(),
                all == self.favorites@,
                nodes == self.nodes@,
                hits@ == rows::kept(all.take(i as int), marks_node(nodes)),
                keys@.len() == hits@.len(),
                at@.len() == hits@.len(),
                forall|k: int|
                    0 <= k < keys@.len() ==> rows::key_view(#[trigger] keys@[k]@) == seq![
                        -(hits@[k].created_at as int),
                    ],
                forall|k: int|
                    0 <= k < at@.len() ==> (#[trigger] at@[k]) < nodes.len() && store::node_index(
                        nodes,
                        hits@[k].node_id@,
                    ) == Some(at@[k] as int),
            decreases self.favorites.len() - i,
        {
            proof {
                assert(all.take(i + 1) == all.take(i as int).push(all[i as int]));
                rows::lemma_kept_push(all.take(i as int), all[i as int], marks_node(nodes));
            }
            if let Some(x) = self.find_node(&self.favorites[i].node_id) {
                hits.push(self.favorites[i].clone());
                at.push(x);
                keys.push(rows::number_key(-(self.favorites[i].created_at as i128)));
            }
            i += 1;
        }
        assert(all.take(i as int) == all);
        assert(rows::keys_view(keys@) =~= recent_keys(hits@));
        let order = rows::order_rows(&keys);
        let ghost sorted = rows::rows_at(hits@, rows::indices(order@));
        let mut r: Vec<GraphNode> = Vec::new();
        let mut j: usize = 0;
        while j < order.len() && j < limit as usize
            invariant
                j <= order.len(),
                j <= limit,
                r@.len() == j,
                nodes == self.nodes@,
                at@.len() == hits@.len(),
                forall|k: int|
                    0 <= k < at@.len() ==> (#[trigger] at@[k]) < nodes.len() && store::node_index(
                        nodes,
                        hits@[k].node_id@,
                    ) == Some(at@[k] as int),
                forall|k: int| 0 <= k < order@.len() ==> (#[trigger] order@[k]) < hits@.len(),
                sorted == rows::rows_at(hits@, rows::indices(order@)),
                forall|k: int|
                    0 <= k < j ==> #[trigger] r@[k] == nodes[store::node_index(
                        nodes,
                        sorted[k].node_id@,
                    )->0],
            decreases order.len() - j,
        {
            assert(sorted[j as int] == hits@[order@[j as int] as int]);
            r.push(self.nodes[at[order[j]]].clone());
            j += 1;
        }
        assert(r@ =~= marked_nodes(rows::limited(sorted, limit as nat), nodes));
        r
    }

    pub fn is_favorite(&self, node_id: &str) -> (r: bool)
        ensures
            r == (favorite_index(self.favorites@, node_id@) is Some),
    {
        self.find_favorite(node_id).is_some()
    }

    pub fn favorite_count(&self) -> (r: u64)
        ensures
            r == self.favorites@.len(),
    {
        self.favorites.len() as u64
    }

    /// Figures about the use of models.
    pub fn metrics(&self) -> (r: GraphMetrics)
        ensures
            r == metrics_of(*self),
    {
        let counts = self.candidate_counts();
        GraphMetrics {
            llm_calls: self.get_metric("llm_calls"),
            llm_tokens: self.get_metric("llm_tokens"),
            llm_failures: self.get_metric("llm_failures"),
            candidates_pending: counts.0,
            candidates_confirmed: counts.1,
            favorites: self.favorite_count(),
            worker_processed: self.get_metric("worker_processed"),
            worker_failed: self.get_metric("worker_failed"),
        }
    }
}

/// A counter as it is shown: never negative.
pub open spec fn shown(store: GraphStore, key: Seq<char>) -> u64 {
    if queue::metric_of(store.metrics@, key) < 0 {
        0
    } else {
        queue::metric_of(store.metrics@, key) as u64
    }
}

pub open spec fn metrics_of(store: GraphStore) -> GraphMetrics {
    GraphMetrics {
        llm_calls: shown(store, "llm_calls"@),
        llm_tokens: shown(store, "llm_tokens"@),
        llm_failures: shown(store, "llm_failures"@),
        candidates_pending: rows::kept(store.candidates@, is_pending()).len() as u64,
        candidates_confirmed: rows::kept(store.candidates@, is_confirmed()).len() as u64,
        favorites: store.favorites@.len() as u64,
        worker_processed: shown(store, "worker_processed"@),
        worker_failed: shown(store, "worker_failed"@),
    }
}

/// Rejecting takes back what confirming has done: where the graph had neither the edge nor
/// anything made from the proposal, its edges are afterwards what they were.
pub proof fn law_rejecting_takes_back(edges: Seq<EdgeRow>, c: GraphAiCandidate, t1: i64, t2: i64)
    requires
        store::edge_index(edges, c.source@, c.target@, c.relation) is None,
        forall|i: int|
            0 <= i < edges.len() ==> store::opt_view((#[trigger] edges[i]).source_id) != Some(c.id@),
    ensures
        edges_after(edges_after(edges, c, "confirmed"@, t1), c, "rejected"@, t2) == edges,
{
    reveal_strlit("confirmed");
    reveal_strlit("auto_confirmed");
    reveal_strlit("rejected");
    assert("rejected"@[0] != "confirmed"@[0]);
    assert("rejected"@[0] != "auto_confirmed"@[0]);
    let row = store::new_edge_row(edge_of_candidate(c), Some(c.id), t1);
    let p = store::not_from(c.id@);
    rows::lemma_keep_all(edges, p);
    rows::lemma_kept_push(edges, row, p);
}

/// Rejecting again changes nothing more.
pub proof fn law_rejecting_twice_is_rejecting_once(
    edges: Seq<EdgeRow>,
    c: GraphAiCandidate,
    t1: i64,
    t2: i64,
)
    ensures
        edges_after(edges_after(edges, c, "rejected"@, t1), c, "rejected"@, t2) == edges_after(
            edges,
            c,
            "rejected"@,
            t1,
        ),
{
    reveal_strlit("confirmed");
    reveal_strlit("auto_confirmed");
    reveal_strlit("rejected");
    assert("rejected"@[0] != "confirmed"@[0]);
    assert("rejected"@[0] != "auto_confirmed"@[0]);
    let p = store::not_from(c.id@);
    rows::lemma_kept(edges, p);
    rows::lemma_keep_all(rows::kept(edges, p), p);
}

/// What is known is not overridden by a proposal: confirming leaves every edge in its place,
/// between the same nodes and made from the same, and makes none weaker or less certain; a
/// proposal that waits leaves the edges as they are.
pub proof fn law_proposals_override_nothing(
    edges: Seq<EdgeRow>,
    c: GraphAiCandidate,
    status: Seq<char>,
    now: i64,
    i: int,
)
    requires
        0 <= i < edges.len(),
        edges[i].weight <= model::WHOLE,
        !rejects(status),
    ensures
        ({
            let after = edges_after(edges, c, status, now);
            &&& edges.len() <= after.len()
            &&& after[i].source == edges[i].source
            &&& after[i].target == edges[i].target
            &&& after[i].relation == edges[i].relation
            &&& after[i].source_id == edges[i].source_id
            &&& after[i].created_at == edges[i].created_at
            &&& after[i].weight >= edges[i].weight
            &&& after[i].confidence >= edges[i].confidence
            &&& !confirms(status) ==> after == edges
        }),
{
    let k = (c.source@, c.target@, c.relation);
    rows::lemma_row_index(edges, store::edge_key(), k, 0);
}

} // verus!
