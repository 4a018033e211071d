//! The graph as nodes and edges of plain values, and what writes to it.

use crate::graph::lists;
use crate::graph::model;
use crate::graph::model::{GraphEdge, GraphNode, NodeType, Relation};
use crate::graph::store;
use crate::graph::store::{EdgeRow, GraphStore, VersionMark};
use crate::rows;
use crate::text;
use vstd::prelude::*;

verus! {

/// A node.
pub struct NodeV {
    pub id: Seq<char>,
    pub node_type: NodeType,
    pub name: Seq<char>,
    pub path: Option<Seq<char>>,
    pub meta: Option<Seq<char>>,
    pub degree: Option<u32>,
    pub created_at: Option<i64>,
    pub content: Option<Seq<char>>,
}

/// A row of the table of edges.
pub struct EdgeV {
    pub source: Seq<char>,
    pub target: Seq<char>,
    pub relation: Relation,
    pub weight: u32,
    pub confidence: u32,
    pub source_id: Option<Seq<char>>,
    pub created_at: i64,
    pub updated_at: i64,
}

/// The nodes and edges of a graph and its version.
pub struct GraphV {
    pub nodes: Seq<NodeV>,
    pub edges: Seq<EdgeV>,
    pub version: VersionMark,
}

pub open spec fn node_view(n: GraphNode) -> NodeV {
    NodeV {
        id: n.id@,
        node_type: n.node_type,
        name: n.name@,
        path: store::opt_view(n.path),
        meta: store::opt_view(n.meta),
        degree: n.degree,
        created_at: n.created_at,
        content: store::opt_view(n.content),
    }
}

pub open spec fn edge_view(e: EdgeRow) -> EdgeV {
    EdgeV {
        source: e.source@,
        target: e.target@,
        relation: e.relation,
        weight: e.weight,
        confidence: e.confidence,
        source_id: store::opt_view(e.source_id),
        created_at: e.created_at,
        updated_at: e.updated_at,
    }
}

pub open spec fn as_node() -> spec_fn(GraphNode) -> NodeV {
    |n: GraphNode| node_view(n)
}

pub open spec fn as_edge() -> spec_fn(EdgeRow) -> EdgeV {
    |e: EdgeRow| edge_view(e)
}

pub open spec fn nodes_view(nodes: Seq<GraphNode>) -> Seq<NodeV> {
    rows::mapped(nodes, as_node())
}

pub open spec fn edges_view(edges: Seq<EdgeRow>) -> Seq<EdgeV> {
    rows::mapped(edges, as_edge())
}

/// The graph of a store.
pub open spec fn graph_of(s: GraphStore) -> GraphV {
    GraphV { nodes: nodes_view(s.nodes@), edges: edges_view(s.edges@), version: s.version }
}

/// Whether two stores differ in nodes, edges and version alone.
pub open spec fn same_rest(a: GraphStore, b: GraphStore) -> bool {
    b == (GraphStore { nodes: b.nodes, edges: b.edges, version: b.version, ..a })
}

pub open spec fn nv_key() -> spec_fn(NodeV) -> Seq<char> {
    |n: NodeV| n.id
}

pub open spec fn ev_key() -> spec_fn(EdgeV) -> (Seq<char>, Seq<char>, Relation) {
    |e: EdgeV| (e.source, e.target, e.relation)
}

pub open spec fn find_node(nodes: Seq<NodeV>, id: Seq<char>) -> Option<int> {
    rows::row_index(nodes, nv_key(), id, 0)
}

pub open spec fn has_node(g: GraphV, id: Seq<char>) -> bool {
    find_node(g.nodes, id) is Some
}

pub open spec fn find_edge(
    edges: Seq<EdgeV>,
    source: Seq<char>,
    target: Seq<char>,
    relation: Relation,
) -> Option<int> {
    rows::row_index(edges, ev_key(), (source, target, relation), 0)
}

/// A node to be written: what a writer says of it.
pub open spec fn plain_node(
    id: Seq<char>,
    node_type: NodeType,
    name: Seq<char>,
    path: Option<Seq<char>>,
    meta: Option<Seq<char>>,
    content: Option<Seq<char>>,
) -> NodeV {
    NodeV { id, node_type, name, path, meta, degree: None, created_at: None, content }
}

/// The graph with a node added or replaced. A node keeps the time at which it came.
pub open spec fn put_node(g: GraphV, n: NodeV, now: i64) -> GraphV {
    GraphV {
        nodes: match find_node(g.nodes, n.id) {
            Some(i) => g.nodes.update(
                i,
                NodeV { degree: None, created_at: g.nodes[i].created_at, ..n },
            ),
            None => g.nodes.push(NodeV { degree: None, created_at: Some(now), ..n }),
        },
        version: store::next_version(g.version),
        ..g
    }
}

/// The graph with an edge added, or strengthened where it is there.
pub open spec fn put_edge(
    g: GraphV,
    source: Seq<char>,
    target: Seq<char>,
    relation: Relation,
    weight: u32,
    confidence: u32,
    source_id: Option<Seq<char>>,
    now: i64,
) -> GraphV {
    GraphV {
        edges: match find_edge(g.edges, source, target, relation) {
            Some(i) => g.edges.update(
                i,
                EdgeV {
                    weight: store::merged_weight(g.edges[i].weight, weight),
                    confidence: store::max_u32(g.edges[i].confidence, confidence),
                    updated_at: now,
                    ..g.edges[i]
                },
            ),
            None => g.edges.push(
                EdgeV {
                    source,
                    target,
                    relation,
                    weight,
                    confidence,
                    source_id,
                    created_at: now,
                    updated_at: now,
                },
            ),
        },
        version: store::next_version(g.version),
        ..g
    }
}

/// The graph with an edge of full weight and confidence.
pub open spec fn put_whole_edge(
    g: GraphV,
    source: Seq<char>,
    target: Seq<char>,
    relation: Relation,
    source_id: Seq<char>,
    now: i64,
) -> GraphV {
    put_edge(g, source, target, relation, model::WHOLE, model::WHOLE, Some(source_id), now)
}

/// Whether a node is a part of the document.
pub open spec fn is_part(p: Seq<char>) -> spec_fn(NodeV) -> bool {
    |n: NodeV|
        n.path == Some(p) && (n.node_type == NodeType::Chunk || n.node_type == NodeType::Section)
}

pub open spec fn is_no_part(p: Seq<char>) -> spec_fn(NodeV) -> bool {
    |n: NodeV| !is_part(p)(n)
}

pub open spec fn at_none(nodes: Seq<NodeV>) -> spec_fn(EdgeV) -> bool {
    |e: EdgeV| !at_one(e, nodes)
}

pub open spec fn at_one(e: EdgeV, nodes: Seq<NodeV>) -> bool {
    exists|i: int|
        0 <= i < nodes.len() && (e.source == (#[trigger] nodes[i]).id || e.target == nodes[i].id)
}

/// The graph without the parts of the document.
pub open spec fn without_parts(g: GraphV, p: Seq<char>) -> GraphV {
    let gone = rows::kept(g.nodes, is_part(p));
    GraphV {
        nodes: rows::kept(g.nodes, is_no_part(p)),
        edges: rows::kept(g.edges, at_none(gone)),
        version: store::version_after(g.version, gone.len()),
    }
}

pub open spec fn not_made_from(source_id: Seq<char>) -> spec_fn(EdgeV) -> bool {
    |e: EdgeV| e.source_id != Some(source_id)
}

pub open spec fn not_made_from_by(source_id: Seq<char>, relation: Seq<char>) -> spec_fn(EdgeV) -> bool {
    |e: EdgeV| !(e.source_id == Some(source_id) && e.relation.name() == relation)
}

/// The graph with fewer edges. The version is raised where some went.
pub open spec fn fewer_edges(g: GraphV, p: spec_fn(EdgeV) -> bool) -> GraphV {
    let rest = rows::kept(g.edges, p);
    GraphV {
        edges: rest,
        version: if rest.len() < g.edges.len() {
            store::next_version(g.version)
        } else {
            g.version
        },
        ..g
    }
}

pub open spec fn add_absent_edge(edges: Seq<EdgeV>, e: EdgeV) -> Seq<EdgeV> {
    match find_edge(edges, e.source, e.target, e.relation) {
        Some(_) => edges,
        None => edges.push(e),
    }
}

/// The edges with those of the first `n` of `seen` that end at `from` also ending at `to`.
pub open spec fn moved_in(
    edges: Seq<EdgeV>,
    seen: Seq<EdgeV>,
    from: Seq<char>,
    to: Seq<char>,
    now: i64,
    n: int,
) -> Seq<EdgeV>
    decreases n,
{
    if n <= 0 {
        edges
    } else {
        let before = moved_in(edges, seen, from, to, now, n - 1);
        if seen[n - 1].target == from {
            add_absent_edge(
                before,
                EdgeV {
                    target: to,
                    source_id: None,
                    created_at: now,
                    updated_at: now,
                    ..seen[n - 1]
                },
            )
        } else {
            before
        }
    }
}

/// The edges with those of the first `n` of `seen` that begin at `from` also beginning at
/// `to`.
pub open spec fn moved_out(
    edges: Seq<EdgeV>,
    seen: Seq<EdgeV>,
    from: Seq<char>,
    to: Seq<char>,
    now: i64,
    n: int,
) -> Seq<EdgeV>
    decreases n,
{
    if n <= 0 {
        edges
    } else {
        let before = moved_out(edges, seen, from, to, now, n - 1);
        if seen[n - 1].source == from {
            add_absent_edge(
                before,
                EdgeV {
                    source: to,
                    source_id: None,
                    created_at: now,
                    updated_at: now,
                    ..seen[n - 1]
                },
            )
        } else {
            before
        }
    }
}

pub open spec fn away_from(id: Seq<char>) -> spec_fn(EdgeV) -> bool {
    |e: EdgeV| e.source != id && e.target != id
}

pub open spec fn not_node(id: Seq<char>) -> spec_fn(NodeV) -> bool {
    |n: NodeV| n.id != id
}

pub open spec fn target_is(id: Seq<char>) -> spec_fn(EdgeV) -> bool {
    |e: EdgeV| e.target == id
}

pub open spec fn source_is(id: Seq<char>) -> spec_fn(EdgeV) -> bool {
    |e: EdgeV| e.source == id
}

/// The graph when the node `from` has been merged into `to`.
pub open spec fn merge_into(g: GraphV, from: Seq<char>, to: Seq<char>, now: i64) -> GraphV {
    if from == to {
        g
    } else {
        let ins = moved_in(g.edges, g.edges, from, to, now, g.edges.len() as int);
        let outs = moved_out(ins, ins, from, to, now, ins.len() as int);
        let moved = rows::kept(g.edges, target_is(from)).len() + rows::kept(
            ins,
            source_is(from),
        ).len();
        GraphV {
            nodes: rows::kept(g.nodes, not_node(from)),
            edges: rows::kept(outs, away_from(from)),
            version: store::version_after(g.version, moved + 1),
        }
    }
}

/// Rows stand at the same places in the graph.
pub proof fn lemma_places(s: GraphStore)
    ensures
        forall|id: Seq<char>| #[trigger]
            find_node(graph_of(s).nodes, id) == store::node_index(s.nodes@, id),
        forall|a: Seq<char>, b: Seq<char>, r: Relation| #[trigger]
            find_edge(graph_of(s).edges, a, b, r) == store::edge_index(s.edges@, a, b, r),
        forall|i: int|
            0 <= i < s.nodes@.len() ==> #[trigger] graph_of(s).nodes[i] == node_view(s.nodes@[i]),
        forall|i: int|
            0 <= i < s.edges@.len() ==> #[trigger] graph_of(s).edges[i] == edge_view(s.edges@[i]),
{
    assert forall|id: Seq<char>| #[trigger]
        find_node(graph_of(s).nodes, id) == store::node_index(s.nodes@, id) by {
        lemma_node_place(s.nodes@, id);
    }
    assert forall|a: Seq<char>, b: Seq<char>, r: Relation| #[trigger]
        find_edge(graph_of(s).edges, a, b, r) == store::edge_index(s.edges@, a, b, r) by {
        lemma_edge_place(s.edges@, a, b, r);
    }
}

proof fn lemma_node_place(nodes: Seq<GraphNode>, id: Seq<char>)
    ensures
        find_node(nodes_view(nodes), id) == store::node_index(nodes, id),
{
    rows::lemma_mapped_index(nodes, as_node(), store::node_key(), nv_key(), id, 0);
}

proof fn lemma_edge_place(edges: Seq<EdgeRow>, a: Seq<char>, b: Seq<char>, r: Relation)
    ensures
        find_edge(edges_view(edges), a, b, r) == store::edge_index(edges, a, b, r),
{
    rows::lemma_mapped_index(edges, as_edge(), store::edge_key(), ev_key(), (a, b, r), 0);
}

proof fn lemma_redirected_in(
    edges: Seq<EdgeRow>,
    seen: Seq<EdgeRow>,
    from: String,
    to: String,
    now: i64,
    n: int,
)
    requires
        0 <= n <= seen.len(),
    ensures
        edges_view(store::redirected_in(edges, seen, from, to, now, n)) == moved_in(
            edges_view(edges),
            edges_view(seen),
            from@,
            to@,
            now,
            n,
        ),
    decreases n,
{
    if n > 0 {
        lemma_redirected_in(edges, seen, from, to, now, n - 1);
        let before = store::redirected_in(edges, seen, from, to, now, n - 1);
        let e = seen[n - 1];
        let row = EdgeRow { target: to, source_id: None, created_at: now, updated_at: now, ..e };
        lemma_edge_place(before, e.source@, to@, e.relation);
        rows::lemma_mapped_push(before, as_edge(), row);
        assert(edges_view(seen)[n - 1] == edge_view(e));
    }
}

proof fn lemma_redirected_out(
    edges: Seq<EdgeRow>,
    seen: Seq<EdgeRow>,
    from: String,
    to: String,
    now: i64,
    n: int,
)
    requires
        0 <= n <= seen.len(),
    ensures
        edges_view(store::redirected_out(edges, seen, from, to, now, n)) == moved_out(
            edges_view(edges),
            edges_view(seen),
            from@,
            to@,
            now,
            n,
        ),
    decreases n,
{
    if n > 0 {
        lemma_redirected_out(edges, seen, from, to, now, n - 1);
        let before = store::redirected_out(edges, seen, from, to, now, n - 1);
        let e = seen[n - 1];
        let row = EdgeRow { source: to, source_id: None, created_at: now, updated_at: now, ..e };
        lemma_edge_place(before, to@, e.target@, e.relation);
        rows::lemma_mapped_push(before, as_edge(), row);
        assert(edges_view(seen)[n - 1] == edge_view(e));
    }
}

proof fn lemma_at_one(e: EdgeRow, gone: Seq<GraphNode>)
    ensures
        store::touches_one(e, gone) == at_one(edge_view(e), nodes_view(gone)),
{
    let seen = nodes_view(gone);
    if store::touches_one(e, gone) {
        let i = choose|i: int| 0 <= i < gone.len() && store::touches(e, (#[trigger] gone[i]).id@);
        assert(seen[i] == node_view(gone[i]));
    }
    if at_one(edge_view(e), seen) {
        let i = choose|i: int|
            0 <= i < seen.len() && (edge_view(e).source == (#[trigger] seen[i]).id
                || edge_view(e).target == seen[i].id);
        assert(store::touches(e, gone[i].id@));
    }
}

impl GraphStore {
    /// Writes a node.
    pub(crate) fn write_node(&mut self, node: &GraphNode, now: i64)
        requires
            old(self).wf(),
        ensures
            final(self).wf(),
            graph_of(*final(self)) == put_node(graph_of(*old(self)), node_view(*node), now),
            same_rest(*old(self), *final(self)),
    {
        let ghost before = self.nodes@;
        self.upsert_node(node, now);
        proof {
            lemma_node_place(before, node.id@);
            rows::lemma_row_index(before, store::node_key(), node.id@, 0);
            match store::node_index(before, node.id@) {
                Some(i) => {
                    let row = store::stored(*node, before[i].created_at);
                    rows::lemma_mapped_update(before, as_node(), i, row);
                    assert(nodes_view(before)[i] == node_view(before[i]));
                },
                None => {
                    rows::lemma_mapped_push(before, as_node(), store::stored(*node, Some(now)));
                },
            }
        }
    }

    /// Writes an edge.
    pub(crate) fn write_edge(
        &mut self,
        source: &String,
        target: &String,
        relation: Relation,
        weight: u32,
        confidence: u32,
        source_id: Option<String>,
        now: i64,
    )
        requires
            old(self).wf(),
        ensures
            final(self).wf(),
            graph_of(*final(self)) == put_edge(
                graph_of(*old(self)),
                source@,
                target@,
                relation,
                weight,
                confidence,
                store::opt_view(source_id),
                now,
            ),
            same_rest(*old(self), *final(self)),
    {
        let ghost before = self.edges@;
        let edge = GraphEdge {
            source: source.clone(),
            target: target.clone(),
            relation,
            weight: Some(weight),
            confidence: Some(confidence),
        };
        self.upsert_edge(&edge, source_id, now);
        proof {
            lemma_edge_place(before, source@, target@, relation);
            rows::lemma_row_index(before, store::edge_key(), (source@, target@, relation), 0);
            match store::edge_index(before, source@, target@, relation) {
                Some(i) => {
                    assert(edges_view(before)[i] == edge_view(before[i]));
                    rows::lemma_mapped_update(before, as_edge(), i, self.edges@[i]);
                },
                None => {
                    rows::lemma_mapped_push(
                        before,
                        as_edge(),
                        store::new_edge_row(edge, source_id, now),
                    );
                },
            }
        }
    }

    /// Writes an edge of full weight and confidence.
    pub(crate) fn write_whole_edge(
        &mut self,
        source: &String,
        target: &String,
        relation: Relation,
        source_id: &String,
        now: i64,
    )
        requires
            old(self).wf(),
        ensures
            final(self).wf(),
            graph_of(*final(self)) == put_whole_edge(
                graph_of(*old(self)),
                source@,
                target@,
                relation,
                source_id@,
                now,
            ),
            same_rest(*old(self), *final(self)),
    {
        self.write_edge(
            source,
            target,
            relation,
            model::WHOLE,
            model::WHOLE,
            Some(source_id.clone()),
            now,
        );
    }

    /// Removes the parts of a document.
    pub(crate) fn drop_parts(&mut self, rel_path: &str)
        requires
            old(self).wf(),
        ensures
            final(self).wf(),
            graph_of(*final(self)) == without_parts(
                graph_of(*old(self)),
                text::replace_char(rel_path@, '\\', '/'),
            ),
            same_rest(*old(self), *final(self)),
    {
        let ghost nodes = self.nodes@;
        let ghost edges = self.edges@;
        let ghost p = text::replace_char(rel_path@, '\\', '/');
        let _n = self.delete_content_nodes_for_doc(rel_path);
        proof {
            let gone = rows::kept(nodes, store::content_of(p));
            rows::lemma_mapped_kept(nodes, as_node(), store::content_of(p), is_part(p));
            rows::lemma_mapped_kept(nodes, as_node(), store::not_content_of(p), is_no_part(p));
            assert(nodes_view(gone).len() == gone.len());
            assert forall|e: EdgeRow| #[trigger]
                store::touching_none(gone)(e) == at_none(nodes_view(gone))(as_edge()(e)) by {
                lemma_at_one(e, gone);
            }
            rows::lemma_mapped_kept(
                edges,
                as_edge(),
                store::touching_none(gone),
                at_none(nodes_view(gone)),
            );
        }
    }

    /// Removes what was made from the source.
    pub(crate) fn drop_edges_from(&mut self, source_id: &str)
        requires
            old(self).wf(),
        ensures
            final(self).wf(),
            graph_of(*final(self)) == fewer_edges(
                graph_of(*old(self)),
                not_made_from(source_id@),
            ),
            same_rest(*old(self), *final(self)),
    {
        let ghost edges = self.edges@;
        let _n = self.delete_edges_by_source(source_id);
        proof {
            rows::lemma_mapped_kept(
                edges,
                as_edge(),
                store::not_from(source_id@),
                not_made_from(source_id@),
            );
        }
    }

    /// Removes what was made from the source and has the relation.
    pub(crate) fn drop_edges_by(&mut self, source_id: &str, relation: &str)
        requires
            old(self).wf(),
        ensures
            final(self).wf(),
            graph_of(*final(self)) == fewer_edges(
                graph_of(*old(self)),
                not_made_from_by(source_id@, relation@),
            ),
            same_rest(*old(self), *final(self)),
    {
        let ghost edges = self.edges@;
        let _n = self.delete_edges_by_relation(source_id, relation);
        proof {
            rows::lemma_mapped_kept(
                edges,
                as_edge(),
                store::not_from_by(source_id@, relation@),
                not_made_from_by(source_id@, relation@),
            );
        }
    }

    /// Merges a node into another.
    pub(crate) fn merge_nodes(&mut self, from: &String, to: &String, now: i64)
        requires
            old(self).wf(),
        ensures
            final(self).wf(),
            graph_of(*final(self)) == merge_into(graph_of(*old(self)), from@, to@, now),
            same_rest(*old(self), *final(self)),
    {
        let ghost nodes = self.nodes@;
        let ghost edges = self.edges@;
        self.merge_node_edges(from, to, now);
        proof {
            if from@ != to@ {
                let ins = store::redirected_in(
                    edges,
                    edges,
                    *from,
                    *to,
                    now,
                    edges.len() as int,
                );
                let outs = store::redirected_out(ins, ins, *from, *to, now, ins.len() as int);
                lemma_redirected_in(edges, edges, *from, *to, now, edges.len() as int);
                lemma_redirected_out(ins, ins, *from, *to, now, ins.len() as int);
                rows::lemma_mapped_kept(
                    outs,
                    as_edge(),
                    store::not_touching(from@),
                    away_from(from@),
                );
                rows::lemma_mapped_kept(
                    nodes,
                    as_node(),
                    store::other_node(from@),
                    not_node(from@),
                );
                rows::lemma_mapped_kept(
                    edges,
                    as_edge(),
                    store::ends_at(from@),
                    target_is(from@),
                );
                rows::lemma_mapped_kept(
                    ins,
                    as_edge(),
                    store::starts_at(from@),
                    source_is(from@),
                );
                let kept_in = rows::kept(edges, store::ends_at(from@));
                let kept_out = rows::kept(ins, store::starts_at(from@));
                assert(rows::mapped(kept_in, as_edge()).len() == kept_in.len());
                assert(rows::mapped(kept_out, as_edge()).len() == kept_out.len());
            }
        }
    }

    pub(crate) fn knows_node(&self, id: &String) -> (r: bool)
        ensures
            r == has_node(graph_of(*self), id@),
    {
        proof {
            lemma_node_place(self.nodes@, id@);
        }
        self.find_node(id).is_some()
    }
}

// ---- Searching by name

pub open spec fn v_named_like(pattern: Seq<char>) -> spec_fn(NodeV) -> bool {
    |n: NodeV| lists::like(pattern, n.name)
}

pub open spec fn v_length_keys(nodes: Seq<NodeV>) -> Seq<Seq<int>> {
    Seq::new(nodes.len(), |i: int| seq![nodes[i].name.len() as int])
}

/// The nodes whose name has the keyword, the shorter names first.
pub open spec fn v_found_nodes(nodes: Seq<NodeV>, keyword: Seq<char>, limit: u32) -> Seq<NodeV> {
    let hits = rows::kept(nodes, v_named_like(lists::keyword_pattern(keyword)));
    rows::limited(rows::rows_at(hits, rows::order_of(v_length_keys(hits))), limit as nat)
}

/// A search finds the same nodes in what the nodes are seen as.
pub proof fn lemma_found(nodes: Seq<GraphNode>, keyword: Seq<char>, limit: u32)
    ensures
        nodes_view(lists::found_nodes(nodes, keyword, limit)) == v_found_nodes(
            nodes_view(nodes),
            keyword,
            limit,
        ),
{
    let p = lists::keyword_pattern(keyword);
    let hits = rows::kept(nodes, lists::named_like(p));
    let seen = rows::kept(nodes_view(nodes), v_named_like(p));
    rows::lemma_mapped_kept(nodes, as_node(), lists::named_like(p), v_named_like(p));
    assert(nodes_view(hits) == seen);
    let keys = lists::name_length_keys(hits);
    assert(v_length_keys(seen) =~= keys) by {
        assert forall|i: int| 0 <= i < seen.len() implies seen[i].name == hits[i].name@ by {
            assert(nodes_view(hits)[i] == node_view(hits[i]));
        }
    }
    rows::lemma_order_of_first(keys, keys.len() as int);
    let order = rows::order_of(keys);
    assert(nodes_view(rows::rows_at(hits, order)) =~= rows::rows_at(seen, order)) by {
        assert forall|i: int| 0 <= i < order.len() implies #[trigger] nodes_view(
            rows::rows_at(hits, order),
        )[i] == rows::rows_at(seen, order)[i] by {
            assert(nodes_view(hits)[order[i]] == node_view(hits[order[i]]));
        }
    }
    assert(nodes_view(lists::found_nodes(nodes, keyword, limit)) =~= v_found_nodes(
        nodes_view(nodes),
        keyword,
        limit,
    ));
}

} // verus!
