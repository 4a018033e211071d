//! Queries over the graph: degrees, neighbours, lists and search.

use crate::graph::model::{GraphEdge, GraphNode, Relation};
use crate::graph::store;
use crate::graph::store::{EdgeRow, GraphStore};
use crate::rows;
use vstd::prelude::*;

verus! {

/// An edge as queries return it.
pub open spec fn edge_of(e: EdgeRow) -> GraphEdge {
    GraphEdge {
        source: e.source,
        target: e.target,
        relation: e.relation,
        weight: Some(e.weight),
        confidence: Some(e.confidence),
    }
}

pub fn edge_from_row(e: &EdgeRow) -> (r: GraphEdge)
    ensures
        r == edge_of(*e),
{
    GraphEdge {
        source: e.source.clone(),
        target: e.target.clone(),
        relation: e.relation,
        weight: Some(e.weight),
        confidence: Some(e.confidence),
    }
}

pub open spec fn edges_of(es: Seq<EdgeRow>) -> Seq<GraphEdge> {
    Seq::new(es.len(), |i: int| edge_of(es[i]))
}

/// Which edges a walk may take: those of the relations, all of them where none are named,
/// that weigh enough, and of these the `limit` heaviest at each node and direction.
pub struct Scope {
    pub relations: Option<Seq<Relation>>,
    pub weight_min: u32,
    pub limit: u32,
}

pub open spec fn allows(sc: Scope, e: EdgeRow) -> bool {
    e.weight >= sc.weight_min && match sc.relations {
        Some(rs) => rs.len() == 0 || rs.contains(e.relation),
        None => true,
    }
}

pub open spec fn leaves(id: Seq<char>, sc: Scope) -> spec_fn(EdgeRow) -> bool {
    |e: EdgeRow| e.source@ == id && allows(sc, e)
}

pub open spec fn enters(id: Seq<char>, sc: Scope) -> spec_fn(EdgeRow) -> bool {
    |e: EdgeRow| e.target@ == id && allows(sc, e)
}

/// Keys by which heavier edges come first.
pub open spec fn weight_keys(es: Seq<EdgeRow>) -> Seq<Seq<int>> {
    Seq::new(es.len(), |i: int| seq![-(es[i].weight as int)])
}

/// The heaviest `limit` of the edges, heavier ones first.
pub open spec fn heaviest(es: Seq<EdgeRow>, limit: u32) -> Seq<EdgeRow> {
    rows::limited(rows::rows_at(es, rows::order_of(weight_keys(es))), limit as nat)
}

/// The edges at which a walk may leave the node, in or against their direction.
pub open spec fn adjacent_rows(edges: Seq<EdgeRow>, id: Seq<char>, outgoing: bool, sc: Scope) -> Seq<
    EdgeRow,
> {
    heaviest(
        rows::kept(
            edges,
            if outgoing {
                leaves(id, sc)
            } else {
                enters(id, sc)
            },
        ),
        sc.limit,
    )
}

/// Whether a step of a walk leads from `a` to `b`.
pub open spec fn is_step(edges: Seq<EdgeRow>, sc: Scope, a: Seq<char>, b: Seq<char>) -> bool {
    leads_out(adjacent_rows(edges, a, true, sc), b) || leads_in(
        adjacent_rows(edges, a, false, sc),
        b,
    )
}

pub open spec fn leads_out(es: Seq<EdgeRow>, b: Seq<char>) -> bool {
    exists|i: int| 0 <= i < es.len() && (#[trigger] es[i]).target@ == b
}

pub open spec fn leads_in(es: Seq<EdgeRow>, b: Seq<char>) -> bool {
    exists|i: int| 0 <= i < es.len() && (#[trigger] es[i]).source@ == b
}

/// Whether an edge joins two nodes, in whichever direction.
pub open spec fn is_between(e: EdgeRow, a: Seq<char>, b: Seq<char>) -> bool {
    (e.source@ == a && e.target@ == b) || (e.source@ == b && e.target@ == a)
}

pub open spec fn between(a: Seq<char>, b: Seq<char>) -> spec_fn(EdgeRow) -> bool {
    |e: EdgeRow| is_between(e, a, b)
}

pub open spec fn touching(id: Seq<char>) -> spec_fn(EdgeRow) -> bool {
    |e: EdgeRow| store::touches(e, id)
}

/// How many edges begin or end at the node.
pub open spec fn degree_of(edges: Seq<EdgeRow>, id: Seq<char>) -> nat {
    rows::kept(edges, touching(id)).len()
}

/// A node with its degree.
pub open spec fn counted(edges: Seq<EdgeRow>, n: GraphNode) -> GraphNode {
    GraphNode { degree: Some(degree_of(edges, n.id@) as u32), ..n }
}

pub(crate) fn relation_in(r: Relation, rs: &Vec<Relation>) -> (b: bool)
    ensures
        b == rs@.contains(r),
{
    let mut i: usize = 0;
    while i < rs.len()
        invariant
            i <= rs.len(),
            forall|k: int| 0 <= k < i ==> rs@[k] != r,
        decreases rs.len() - i,
    {
        if rs[i] == r {
            assert(rs@[i as int] == r);
            return true;
        }
        i += 1;
    }
    false
}

pub open spec fn rels_view(relations: Option<&Vec<Relation>>) -> Option<Seq<Relation>> {
    match relations {
        Some(rs) => Some(rs@),
        None => None,
    }
}

/// The rows of `es` by weight, heavier ones first, at most `limit`.
pub(crate) fn heaviest_of(es: &Vec<EdgeRow>, limit: u32) -> (r: Vec<EdgeRow>)
    ensures
        r@ == heaviest(es@, limit),
{
    let mut keys: Vec<Vec<i128>> = Vec::new();
    let mut i: usize = 0;
    while i < es.len()
        invariant
            i <= es.len(),
            rows::keys_view(keys@) == weight_keys(es@).take(i as int),
        decreases es.len() - i,
    {
        let ghost before = keys@;
        let k = rows::number_key(-(es[i].weight as i128));
        keys.push(k);
        assert(rows::keys_view(keys@) =~= rows::keys_view(before).push(rows::key_view(k@)));
        i += 1;
    }
    assert(rows::keys_view(keys@) == weight_keys(es@));
    let order = rows::order_rows(&keys);
    let ghost sorted = rows::rows_at(es@, rows::order_of(weight_keys(es@)));
    let n: usize = if order.len() <= limit as usize {
        order.len()
    } else {
        limit as usize
    };
    let mut r: Vec<EdgeRow> = Vec::new();
    let mut j: usize = 0;
    while j < n
        invariant
            j <= n,
            n <= order.len(),
            order@.len() == es@.len(),
            forall|k: int| 0 <= k < order@.len() ==> (#[trigger] order@[k]) < es@.len(),
            sorted == rows::rows_at(es@, rows::indices(order@)),
            r@ == sorted.take(j as int),
        decreases n - j,
    {
        r.push(es[order[j]].clone());
        assert(sorted[j as int] == es@[order@[j as int] as int]);
        j += 1;
    }
    assert(r@ =~= rows::limited(sorted, limit as nat));
    r
}

impl GraphStore {
    /// The edges at which a walk may leave the node, in or against their direction.
    pub fn adjacent(
        &self,
        id: &String,
        outgoing: bool,
        relations: Option<&Vec<Relation>>,
        weight_min: u32,
        limit: u32,
    ) -> (r: Vec<EdgeRow>)
        ensures
            r@ == adjacent_rows(
                self.edges@,
                id@,
                outgoing,
                Scope { relations: rels_view(relations), weight_min, limit },
            ),
    {
        let ghost sc = Scope { relations: rels_view(relations), weight_min, limit };
        let ghost p = if outgoing {
            leaves(id@, sc)
        } else {
            enters(id@, sc)
        };
        let ghost all = self.edges@;
        let mut out: Vec<EdgeRow> = Vec::new();
        let mut i: usize = 0;
        while i < self.edges.len()
            invariant
                i <= self.edges.len(),
                all == self.edges@,
                sc == (Scope { relations: rels_view(relations), weight_min, limit }),
                p == (if outgoing {
                    leaves(id@, sc)
                } else {
                    enters(id@, sc)
                }),
                out@ == rows::kept(all.take(i as int), p),
            decreases self.edges.len() - i,
        {
            proof {
                assert(all.take(i + 1) == all.take(i as int).push(all[i as int]));
                rows::lemma_kept_push(all.take(i as int), all[i as int], p);
            }
            let e = &self.edges[i];
            let here = if outgoing {
                e.source == *id
            } else {
                e.target == *id
            };
            let allowed = match relations {
                Some(rs) => rs.len() == 0 || relation_in(e.relation, rs),
                None => true,
            };
            if here && e.weight >= weight_min && allowed {
                out.push(e.clone());
            }
            i += 1;
        }
        assert(all.take(i as int) == all);
        heaviest_of(&out, limit)
    }

    /// How many edges begin or end at the node.
    pub(crate) fn count_edges_at(&self, id: &str) -> (r: u64)
        ensures
            r == degree_of(self.edges@, id@),
    {
        let key = id.to_owned();
        let ghost all = self.edges@;
        let mut n: u64 = 0;
        let mut i: usize = 0;
        while i < self.edges.len()
            invariant
                i <= self.edges.len(),
                all == self.edges@,
                key@ == id@,
                n <= i,
                n == rows::kept(all.take(i as int), touching(id@)).len(),
            decreases self.edges.len() - i,
        {
            proof {
                assert(all.take(i + 1) == all.take(i as int).push(all[i as int]));
                rows::lemma_kept_push(all.take(i as int), all[i as int], touching(id@));
            }
            if self.edges[i].source == key || self.edges[i].target == key {
                n += 1;
            }
            i += 1;
        }
        assert(all.take(i as int) == all);
        n
    }

    /// How many edges begin or end at the node, cut to 32 bits.
    pub fn degree(&self, id: &str) -> (r: u32)
        ensures
            r == degree_of(self.edges@, id@) as u32,
    {
        self.count_edges_at(id) as u32
    }

    /// The edges between two nodes, in both directions.
    pub fn all_edges_between(&self, a: &str, b: &str) -> (r: Vec<GraphEdge>)
        ensures
            r@ == edges_of(rows::kept(self.edges@, between(a@, b@))),
    {
        let ka = a.to_owned();
        let kb = b.to_owned();
        let ghost all = self.edges@;
        let mut r: Vec<GraphEdge> = Vec::new();
        let mut i: usize = 0;
        assert(r@ =~= edges_of(rows::kept(all.take(0), between(a@, b@))));
        while i < self.edges.len()
            invariant
                i <= self.edges.len(),
                all == self.edges@,
                ka@ == a@,
                kb@ == b@,
                r@ == edges_of(rows::kept(all.take(i as int), between(a@, b@))),
            decreases self.edges.len() - i,
        {
            proof {
                assert(all.take(i + 1) == all.take(i as int).push(all[i as int]));
                rows::lemma_kept_push(all.take(i as int), all[i as int], between(a@, b@));
            }
            let e = &self.edges[i];
            if (e.source == ka && e.target == kb) || (e.source == kb && e.target == ka) {
                let ghost before = rows::kept(all.take(i as int), between(a@, b@));
                r.push(edge_from_row(e));
                assert(edges_of(before.push(*e)) =~= edges_of(before).push(edge_of(*e)));
            }
            i += 1;
        }
        assert(all.take(i as int) == all);
        r
    }

    /// The node with its degree.
    pub fn counted_node(&self, id: &String) -> (r: Option<GraphNode>)
        ensures
            match r {
                Some(n) => store::node_index(self.nodes@, id@) matches Some(i) && n == counted(
                    self.edges@,
                    self.nodes@[i],
                ) && n.id@ == id@,
                None => store::node_index(self.nodes@, id@) is None,
            },
    {
        match self.find_node(id) {
            Some(i) => {
                let mut n = self.nodes[i].clone();
                n.degree = Some(self.degree(id));
                Some(n)
            },
            None => None,
        }
    }
}

} // verus!
