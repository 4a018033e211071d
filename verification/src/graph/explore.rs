//! Walks over the graph: neighbourhoods of bounded depth and size, and shortest paths.

use crate::graph::model::{GraphEdge, GraphNeighborhood, GraphNode, Relation};
use crate::graph::path;
use crate::graph::query;
use crate::graph::query::Scope;
use crate::graph::store;
use crate::graph::store::{EdgeRow, GraphStore};
use crate::rows;
use crate::text;
use vstd::prelude::*;

verus! {

/// A number moved into a range.
pub open spec fn clamped(x: u32, lo: u32, hi: u32) -> u32 {
    if x < lo {
        lo
    } else if x > hi {
        hi
    } else {
        x
    }
}

fn clamp(x: u32, lo: u32, hi: u32) -> (r: u32)
    ensures
        r == clamped(x, lo, hi),
{
    if x < lo {
        lo
    } else if x > hi {
        hi
    } else {
        x
    }
}

pub open spec fn is_node(nodes: Seq<GraphNode>, id: Seq<char>) -> bool {
    store::node_index(nodes, id) is Some
}

/// Whether a step from a node of the table among `from` leads to `x`.
pub open spec fn step_into(
    nodes: Seq<GraphNode>,
    edges: Seq<EdgeRow>,
    sc: Scope,
    from: Set<Seq<char>>,
    x: Seq<char>,
) -> bool {
    exists|y: Seq<char>| #[trigger]
        from.contains(y) && is_node(nodes, y) && query::is_step(edges, sc, y, x)
}

/// What is at most `k` steps from `root`, by way of nodes of the table.
pub open spec fn ball(
    nodes: Seq<GraphNode>,
    edges: Seq<EdgeRow>,
    sc: Scope,
    root: Seq<char>,
    k: nat,
) -> Set<Seq<char>>
    decreases k,
{
    if k == 0 {
        set![root]
    } else {
        let inner = ball(nodes, edges, sc, root, (k - 1) as nat);
        inner.union(Set::new(|x: Seq<char>| step_into(nodes, edges, sc, inner, x)))
    }
}

/// Whether `x` is at most `k` steps from `root`, by way of nodes of the table.
pub open spec fn within(
    nodes: Seq<GraphNode>,
    edges: Seq<EdgeRow>,
    sc: Scope,
    root: Seq<char>,
    x: Seq<char>,
    k: nat,
) -> bool {
    ball(nodes, edges, sc, root, k).contains(x)
}

pub open spec fn has_id(found: Seq<GraphNode>, id: Seq<char>) -> bool {
    exists|i: int| 0 <= i < found.len() && (#[trigger] found[i]).id@ == id
}

pub open spec fn has_id_before(found: Seq<GraphNode>, id: Seq<char>, n: int) -> bool {
    exists|i: int| 0 <= i < n && (#[trigger] found[i]).id@ == id
}

/// Whether `n` is a node of the table with its degree.
pub open spec fn is_counted(nodes: Seq<GraphNode>, edges: Seq<EdgeRow>, n: GraphNode) -> bool {
    store::node_index(nodes, n.id@) matches Some(i) && n == query::counted(edges, nodes[i])
}

pub open spec fn edge_id() -> spec_fn(GraphEdge) -> (Seq<char>, Seq<char>, Relation) {
    |e: GraphEdge| (e.source@, e.target@, e.relation)
}

/// Whether the edge is one of those at which a walk may leave the node.
pub open spec fn is_way(edges: Seq<EdgeRow>, sc: Scope, id: Seq<char>, e: GraphEdge) -> bool {
    query::edges_of(query::adjacent_rows(edges, id, true, sc)).contains(e) || query::edges_of(
        query::adjacent_rows(edges, id, false, sc),
    ).contains(e)
}

pub open spec fn has_edge(seen: Seq<GraphEdge>, e: GraphEdge) -> bool {
    exists|i: int| 0 <= i < seen.len() && edge_id()(#[trigger] seen[i]) == edge_id()(e)
}

fn holds_id(found: &Vec<GraphNode>, id: &String) -> (r: bool)
    ensures
        r == has_id(found@, id@),
{
    let mut i: usize = 0;
    while i < found.len()
        invariant
            i <= found.len(),
            forall|k: int| 0 <= k < i ==> (#[trigger] found@[k]).id@ != id@,
        decreases found.len() - i,
    {
        if found[i].id == *id {
            assert(found@[i as int].id@ == id@);
            return true;
        }
        i += 1;
    }
    false
}

fn holds_edge(seen: &Vec<GraphEdge>, e: &GraphEdge) -> (r: bool)
    ensures
        r == has_edge(seen@, *e),
{
    let mut i: usize = 0;
    while i < seen.len()
        invariant
            i <= seen.len(),
            forall|k: int| 0 <= k < i ==> edge_id()(#[trigger] seen@[k]) != edge_id()(*e),
        decreases seen.len() - i,
    {
        if seen[i].source == e.source && seen[i].target == e.target && seen[i].relation
            == e.relation {
            assert(edge_id()(seen@[i as int]) == edge_id()(*e));
            return true;
        }
        i += 1;
    }
    false
}

/// What a walk has gathered.
pub open spec fn gathered_ok(
    nodes: Seq<GraphNode>,
    edges: Seq<EdgeRow>,
    found: Seq<GraphNode>,
) -> bool {
    &&& rows::unique(found, store::node_key())
    &&& forall|i: int| 0 <= i < found.len() ==> is_counted(nodes, edges, #[trigger] found[i])
}

proof fn lemma_unique_ids_push(found: Seq<GraphNode>, n: GraphNode)
    requires
        rows::unique(found, store::node_key()),
        !has_id(found, n.id@),
    ensures
        rows::unique(found.push(n), store::node_key()),
{
    let t = found.push(n);
    let key = store::node_key();
    assert forall|i: int, j: int| #![trigger t[i], t[j]] 0 <= i < j < t.len() implies key(t[i])
        != key(t[j]) by {
        assert(t[i] == found[i]);
        if j < found.len() {
            assert(t[j] == found[j]);
        }
    }
}

proof fn lemma_unique_edges_push(seen: Seq<GraphEdge>, e: GraphEdge)
    requires
        rows::unique(seen, edge_id()),
        !has_edge(seen, e),
    ensures
        rows::unique(seen.push(e), edge_id()),
{
    let t = seen.push(e);
    assert forall|i: int, j: int| #![trigger t[i], t[j]] 0 <= i < j < t.len() implies edge_id()(
        t[i],
    ) != edge_id()(t[j]) by {
        assert(t[i] == seen[i]);
        if j < seen.len() {
            assert(t[j] == seen[j]);
        }
    }
}

/// The state of a walk from a node.
pub struct Walk {
    pub found: Vec<GraphNode>,
    pub seen: Vec<GraphEdge>,
    pub truncated: bool,
}

/// What a walk has gathered so far.
pub struct WalkV {
    pub found: Seq<GraphNode>,
    pub seen: Seq<GraphEdge>,
    pub truncated: bool,
}

impl View for Walk {
    type V = WalkV;

    open spec fn view(&self) -> WalkV {
        WalkV { found: self.found@, seen: self.seen@, truncated: self.truncated }
    }
}

/// The edges with those of the first `n` ways that were not there, in their order.
pub open spec fn with_ways(seen: Seq<GraphEdge>, ways: Seq<EdgeRow>, n: int) -> Seq<GraphEdge>
    decreases n,
{
    if n <= 0 {
        seen
    } else {
        let before = with_ways(seen, ways, n - 1);
        let e = query::edge_of(ways[n - 1]);
        if has_edge(before, e) {
            before
        } else {
            before.push(e)
        }
    }
}

/// The nodes with those to which the first `n` ways lead, in their order, as long as there is
/// room.
pub open spec fn with_ends(
    nodes: Seq<GraphNode>,
    edges: Seq<EdgeRow>,
    found: Seq<GraphNode>,
    ways: Seq<EdgeRow>,
    outgoing: bool,
    max_nodes: nat,
    n: int,
) -> Seq<GraphNode>
    decreases n,
{
    if n <= 0 {
        found
    } else {
        let before = with_ends(nodes, edges, found, ways, outgoing, max_nodes, n - 1);
        let id = far_end(ways[n - 1], outgoing);
        if has_id(before, id) || before.len() >= max_nodes {
            before
        } else {
            match store::node_index(nodes, id) {
                Some(i) => before.push(query::counted(edges, nodes[i])),
                None => before,
            }
        }
    }
}

/// Whether one of the first `n` ways leads on where there is no room.
pub open spec fn lacks_room(
    nodes: Seq<GraphNode>,
    edges: Seq<EdgeRow>,
    found: Seq<GraphNode>,
    ways: Seq<EdgeRow>,
    outgoing: bool,
    max_nodes: nat,
    n: int,
) -> bool
    decreases n,
{
    if n <= 0 {
        false
    } else {
        let before = with_ends(nodes, edges, found, ways, outgoing, max_nodes, n - 1);
        lacks_room(nodes, edges, found, ways, outgoing, max_nodes, n - 1) || (!has_id(
            before,
            far_end(ways[n - 1], outgoing),
        ) && before.len() >= max_nodes)
    }
}

/// The walk when it has looked around at a node: first along the edges that lead from it, then
/// along those that lead to it, the heavier ones first.
pub open spec fn visited(
    nodes: Seq<GraphNode>,
    edges: Seq<EdgeRow>,
    sc: Scope,
    w: WalkV,
    id: Seq<char>,
    max_nodes: nat,
) -> WalkV {
    let outs = query::adjacent_rows(edges, id, true, sc);
    let ins = query::adjacent_rows(edges, id, false, sc);
    let (a, b) = (outs.len() as int, ins.len() as int);
    let first = with_ends(nodes, edges, w.found, outs, true, max_nodes, a);
    WalkV {
        found: with_ends(nodes, edges, first, ins, false, max_nodes, b),
        seen: with_ways(with_ways(w.seen, outs, a), ins, b),
        truncated: w.truncated || lacks_room(nodes, edges, w.found, outs, true, max_nodes, a)
            || lacks_room(nodes, edges, first, ins, false, max_nodes, b),
    }
}

/// The walk when it has looked around at the nodes from the one numbered `lo` up to that
/// before `c`, in their order.
pub open spec fn ring_visited(
    nodes: Seq<GraphNode>,
    edges: Seq<EdgeRow>,
    sc: Scope,
    w: WalkV,
    lo: int,
    c: int,
    max_nodes: nat,
) -> WalkV
    decreases c - lo,
{
    if c <= lo {
        w
    } else {
        visited(
            nodes,
            edges,
            sc,
            ring_visited(nodes, edges, sc, w, lo, c - 1, max_nodes),
            w.found[c - 1].id@,
            max_nodes,
        )
    }
}

/// The walk at most `steps` steps further, where the nodes from the one numbered `lo` on have
/// not been looked around at. It stops where it leads nowhere, where it has taken as many
/// edges as it may, and where there are as many nodes as there may be.
pub open spec fn walked(
    nodes: Seq<GraphNode>,
    edges: Seq<EdgeRow>,
    sc: Scope,
    w: WalkV,
    lo: int,
    steps: nat,
    max_nodes: nat,
) -> WalkV
    decreases steps,
{
    let hi = w.found.len() as int;
    if steps == 0 || lo == hi {
        w
    } else if w.seen.len() >= sc.limit {
        WalkV { truncated: true, ..w }
    } else {
        let next = ring_visited(nodes, edges, sc, w, lo, hi, max_nodes);
        if next.found.len() >= max_nodes {
            WalkV { truncated: true, ..next }
        } else {
            walked(nodes, edges, sc, next, hi, (steps - 1) as nat, max_nodes)
        }
    }
}

/// What a walk from the node gathers.
pub open spec fn walked_from(
    nodes: Seq<GraphNode>,
    edges: Seq<EdgeRow>,
    sc: Scope,
    root: GraphNode,
    depth: nat,
    max_nodes: nat,
) -> WalkV {
    let start = WalkV { found: seq![root], seen: Seq::empty(), truncated: false };
    walked(nodes, edges, sc, start, 0, depth, max_nodes)
}

/// Whether `b` continues `a`.
pub open spec fn extends<T>(a: Seq<T>, b: Seq<T>) -> bool {
    a.len() <= b.len() && b.take(a.len() as int) == a
}

impl GraphStore {
    fn take_edges(&self, ways: &Vec<EdgeRow>, seen: &mut Vec<GraphEdge>)
        requires
            rows::unique(old(seen)@, edge_id()),
        ensures
            final(seen)@ == with_ways(old(seen)@, ways@, ways@.len() as int),
            rows::unique(final(seen)@, edge_id()),
            extends(old(seen)@, final(seen)@),
            forall|i: int|
                old(seen)@.len() <= i < final(seen)@.len() ==> query::edges_of(ways@).contains(
                    #[trigger] final(seen)@[i],
                ),
            forall|i: int|
                0 <= i < ways@.len() ==> has_edge(
                    final(seen)@,
                    query::edge_of(#[trigger] ways@[i]),
                ),
    {
        let ghost start = seen@;
        let mut i: usize = 0;
        assert(start.take(start.len() as int) == start);
        while i < ways.len()
            invariant
                i <= ways.len(),
                start == old(seen)@,
                seen@ == with_ways(start, ways@, i as int),
                rows::unique(seen@, edge_id()),
                extends(start, seen@),
                forall|k: int|
                    start.len() <= k < seen@.len() ==> query::edges_of(ways@).contains(
                        #[trigger] seen@[k],
                    ),
                forall|k: int|
                    0 <= k < i ==> has_edge(seen@, query::edge_of(#[trigger] ways@[k])),
            decreases ways.len() - i,
        {
            let ghost before = seen@;
            let e = query::edge_from_row(&ways[i]);
            assert(query::edges_of(ways@)[i as int] == e);
            if !holds_edge(seen, &e) {
                proof {
                    lemma_unique_edges_push(before, e);
                }
                let ghost pushed = e;
                seen.push(e);
                assert(seen@[before.len() as int] == pushed);
                assert(has_edge(seen@, pushed));
                assert(seen@.take(start.len() as int) =~= start);
                assert forall|k: int| 0 <= k < i implies has_edge(
                    seen@,
                    query::edge_of(#[trigger] ways@[k]),
                ) by {
                    let w = query::edge_of(ways@[k]);
                    let x = choose|x: int|
                        0 <= x < before.len() && edge_id()(#[trigger] before[x]) == edge_id()(w);
                    assert(seen@[x] == before[x]);
                }
            }
            i += 1;
        }
    }

    fn take_nodes(
        &self,
        ways: &Vec<EdgeRow>,
        outgoing: bool,
        max_nodes: usize,
        found: &mut Vec<GraphNode>,
    ) -> (cut: bool)
        requires
            gathered_ok(self.nodes@, self.edges@, old(found)@),
        ensures
            final(found)@ == with_ends(
                self.nodes@,
                self.edges@,
                old(found)@,
                ways@,
                outgoing,
                max_nodes as nat,
                ways@.len() as int,
            ),
            cut == lacks_room(
                self.nodes@,
                self.edges@,
                old(found)@,
                ways@,
                outgoing,
                max_nodes as nat,
                ways@.len() as int,
            ),
            gathered_ok(self.nodes@, self.edges@, final(found)@),
            extends(old(found)@, final(found)@),
            final(found)@.len() <= max_nodes || final(found)@ == old(found)@,
            cut ==> final(found)@.len() >= max_nodes,
            forall|i: int|
                old(found)@.len() <= i < final(found)@.len() ==> end_of(
                    ways@,
                    outgoing,
                    (#[trigger] final(found)@[i]).id@,
                ),
            !cut ==> forall|i: int|
                0 <= i < ways@.len() && is_node(
                    self.nodes@,
                    far_end(#[trigger] ways@[i], outgoing),
                ) ==> has_id(final(found)@, far_end(ways@[i], outgoing)),
    {
        let ghost start = found@;
        let mut cut = false;
        let mut i: usize = 0;
        assert(start.take(start.len() as int) == start);
        while i < ways.len()
            invariant
                i <= ways.len(),
                start == old(found)@,
                found@ == with_ends(
                    self.nodes@,
                    self.edges@,
                    start,
                    ways@,
                    outgoing,
                    max_nodes as nat,
                    i as int,
                ),
                cut == lacks_room(
                    self.nodes@,
                    self.edges@,
                    start,
                    ways@,
                    outgoing,
                    max_nodes as nat,
                    i as int,
                ),
                gathered_ok(self.nodes@, self.edges@, found@),
                extends(start, found@),
                found@.len() <= max_nodes || found@ == start,
                cut ==> found@.len() >= max_nodes,
                forall|k: int|
                    start.len() <= k < found@.len() ==> end_of(
                        ways@,
                        outgoing,
                        (#[trigger] found@[k]).id@,
                    ),
                !cut ==> forall|k: int|
                    0 <= k < i && is_node(self.nodes@, far_end(#[trigger] ways@[k], outgoing))
                        ==> has_id(found@, far_end(ways@[k], outgoing)),
            decreases ways.len() - i,
        {
            let id = if outgoing {
                &ways[i].target
            } else {
                &ways[i].source
            };
            let ghost before = found@;
            if !holds_id(found, id) {
                if found.len() >= max_nodes {
                    cut = true;
                } else if let Some(n) = self.counted_node(id) {
                    proof {
                        lemma_unique_ids_push(before, n);
                    }
                    let ghost pushed = n;
                    found.push(n);
                    assert(found@[before.len() as int] == pushed);
                    assert(far_end(ways@[i as int], outgoing) == pushed.id@);
                    assert(end_of(ways@, outgoing, pushed.id@));
                    assert(found@.take(start.len() as int) =~= start);
                    assert(has_id(found@, pushed.id@));
                    assert forall|k: int|
                        !cut && 0 <= k < i && is_node(
                            self.nodes@,
                            far_end(#[trigger] ways@[k], outgoing),
                        ) implies has_id(found@, far_end(ways@[k], outgoing)) by {
                        let x = choose|x: int|
                            0 <= x < before.len() && (#[trigger] before[x]).id@ == far_end(
                                ways@[k],
                                outgoing,
                            );
                        assert(found@[x] == before[x]);
                    }
                    assert(is_counted(self.nodes@, self.edges@, found@[before.len() as int]));
                }
            }
            i += 1;
        }
        cut
    }
}

/// Where an edge leads, in or against its direction.
pub open spec fn far_end(e: EdgeRow, outgoing: bool) -> Seq<char> {
    if outgoing {
        e.target@
    } else {
        e.source@
    }
}

pub open spec fn end_of(ways: Seq<EdgeRow>, outgoing: bool, id: Seq<char>) -> bool {
    exists|i: int| 0 <= i < ways.len() && far_end(#[trigger] ways[i], outgoing) == id
}

/// Every step from the node that leads to a node of the table leads to one that is found.
pub open spec fn closed_at(
    nodes: Seq<GraphNode>,
    edges: Seq<EdgeRow>,
    sc: Scope,
    id: Seq<char>,
    found: Seq<GraphNode>,
) -> bool {
    forall|x: Seq<char>| #[trigger]
        query::is_step(edges, sc, id, x) && is_node(nodes, x) ==> has_id(found, x)
}

/// Every edge at which a walk may leave the node is seen.
pub open spec fn edges_taken(
    edges: Seq<EdgeRow>,
    sc: Scope,
    id: Seq<char>,
    seen: Seq<GraphEdge>,
) -> bool {
    forall|e: GraphEdge| #[trigger] is_way(edges, sc, id, e) ==> has_edge(seen, e)
}

proof fn lemma_has_id_extends(a: Seq<GraphNode>, b: Seq<GraphNode>, id: Seq<char>)
    requires
        extends(a, b),
        has_id(a, id),
    ensures
        has_id(b, id),
{
    let i = choose|i: int| 0 <= i < a.len() && (#[trigger] a[i]).id@ == id;
    assert(b.take(a.len() as int)[i] == b[i]);
}

proof fn lemma_has_edge_extends(a: Seq<GraphEdge>, b: Seq<GraphEdge>, e: GraphEdge)
    requires
        extends(a, b),
        has_edge(a, e),
    ensures
        has_edge(b, e),
{
    let i = choose|i: int| 0 <= i < a.len() && edge_id()(#[trigger] a[i]) == edge_id()(e);
    assert(b.take(a.len() as int)[i] == b[i]);
}

pub proof fn lemma_extends_trans<T>(a: Seq<T>, b: Seq<T>, c: Seq<T>)
    requires
        extends(a, b),
        extends(b, c),
    ensures
        extends(a, c),
{
    assert(c.take(a.len() as int) =~= b.take(a.len() as int)) by {
        assert forall|i: int| 0 <= i < a.len() implies c[i] == b[i] by {
            assert(c.take(b.len() as int)[i] == c[i]);
        }
    }
}

impl GraphStore {
    fn visit(
        &self,
        id: &String,
        relations: Option<&Vec<Relation>>,
        weight_min: u32,
        limit: u32,
        max_nodes: usize,
        w: &mut Walk,
    )
        requires
            gathered_ok(self.nodes@, self.edges@, old(w).found@),
            rows::unique(old(w).seen@, edge_id()),
            old(w).found@.len() <= max_nodes,
        ensures
            ({
                let sc = Scope { relations: query::rels_view(relations), weight_min, limit };
                &&& final(w)@ == visited(
                    self.nodes@,
                    self.edges@,
                    sc,
                    old(w)@,
                    id@,
                    max_nodes as nat,
                )
                &&& gathered_ok(self.nodes@, self.edges@, final(w).found@)
                &&& rows::unique(final(w).seen@, edge_id())
                &&& final(w).found@.len() <= max_nodes
                &&& extends(old(w).found@, final(w).found@)
                &&& extends(old(w).seen@, final(w).seen@)
                &&& forall|i: int|
                    old(w).found@.len() <= i < final(w).found@.len() ==> query::is_step(
                        self.edges@,
                        sc,
                        id@,
                        (#[trigger] final(w).found@[i]).id@,
                    )
                &&& forall|i: int|
                    old(w).seen@.len() <= i < final(w).seen@.len() ==> is_way(
                        self.edges@,
                        sc,
                        id@,
                        #[trigger] final(w).seen@[i],
                    )
                &&& edges_taken(self.edges@, sc, id@, final(w).seen@)
                &&& old(w).truncated ==> final(w).truncated
                &&& !final(w).truncated ==> closed_at(
                    self.nodes@,
                    self.edges@,
                    sc,
                    id@,
                    final(w).found@,
                )
                &&& final(w).truncated ==> old(w).truncated || final(w).found@.len() >= max_nodes
            }),
    {
        let ghost sc = Scope { relations: query::rels_view(relations), weight_min, limit };
        let ghost found0 = w.found@;
        let ghost seen0 = w.seen@;
        let outs = self.adjacent(id, true, relations, weight_min, limit);
        let ins = self.adjacent(id, false, relations, weight_min, limit);
        self.take_edges(&outs, &mut w.seen);
        let ghost seen1 = w.seen@;
        self.take_edges(&ins, &mut w.seen);
        let ghost seen2 = w.seen@;
        let cut1 = self.take_nodes(&outs, true, max_nodes, &mut w.found);
        let ghost found1 = w.found@;
        let cut2 = self.take_nodes(&ins, false, max_nodes, &mut w.found);
        let ghost found2 = w.found@;
        if cut1 || cut2 {
            w.truncated = true;
        }
        proof {
            lemma_extends_trans(seen0, seen1, seen2);
            lemma_extends_trans(found0, found1, found2);
            assert forall|i: int| found0.len() <= i < found2.len() implies query::is_step(
                self.edges@,
                sc,
                id@,
                (#[trigger] found2[i]).id@,
            ) by {
                if i < found1.len() {
                    assert(found2.take(found1.len() as int)[i] == found2[i]);
                    let k = choose|k: int|
                        0 <= k < outs@.len() && far_end(#[trigger] outs@[k], true) == found1[i].id@;
                    assert(query::leads_out(outs@, found2[i].id@));
                } else {
                    let k = choose|k: int|
                        0 <= k < ins@.len() && far_end(#[trigger] ins@[k], false) == found2[i].id@;
                    assert(query::leads_in(ins@, found2[i].id@));
                }
            }
            assert forall|i: int| seen0.len() <= i < seen2.len() implies is_way(
                self.edges@,
                sc,
                id@,
                #[trigger] seen2[i],
            ) by {
                if i < seen1.len() {
                    assert(seen2.take(seen1.len() as int)[i] == seen2[i]);
                }
            }
            assert forall|e: GraphEdge| #[trigger] is_way(self.edges@, sc, id@, e) implies has_edge(
                seen2,
                e,
            ) by {
                if query::edges_of(outs@).contains(e) {
                    let k = choose|k: int|
                        0 <= k < query::edges_of(outs@).len() && query::edges_of(outs@)[k] == e;
                    assert(e == query::edge_of(outs@[k]));
                    lemma_has_edge_extends(seen1, seen2, e);
                } else {
                    let k = choose|k: int|
                        0 <= k < query::edges_of(ins@).len() && query::edges_of(ins@)[k] == e;
                    assert(e == query::edge_of(ins@[k]));
                }
            }
            if !w.truncated {
                assert forall|x: Seq<char>| #[trigger]
                    query::is_step(self.edges@, sc, id@, x) && is_node(
                        self.nodes@,
                        x,
                    ) implies has_id(found2, x) by {
                    if query::leads_out(outs@, x) {
                        let k = choose|k: int|
                            0 <= k < outs@.len() && (#[trigger] outs@[k]).target@ == x;
                        assert(far_end(outs@[k], true) == x);
                        lemma_has_id_extends(found1, found2, x);
                    } else {
                        let k = choose|k: int|
                            0 <= k < ins@.len() && (#[trigger] ins@[k]).source@ == x;
                        assert(far_end(ins@[k], false) == x);
                    }
                }
            }
        }
    }
}

/// A set that is closed under steps holds everything that steps lead to.
proof fn lemma_closed_holds_all(
    nodes: Seq<GraphNode>,
    edges: Seq<EdgeRow>,
    sc: Scope,
    root: Seq<char>,
    found: Seq<GraphNode>,
    k: nat,
)
    requires
        has_id(found, root),
        forall|i: int|
            0 <= i < found.len() ==> closed_at(nodes, edges, sc, (#[trigger] found[i]).id@, found),
    ensures
        forall|x: Seq<char>| #[trigger]
            within(nodes, edges, sc, root, x, k) && is_node(nodes, x) ==> has_id(found, x),
    decreases k,
{
    if k > 0 {
        lemma_closed_holds_all(nodes, edges, sc, root, found, (k - 1) as nat);
        assert forall|x: Seq<char>| #[trigger]
            within(nodes, edges, sc, root, x, k) && is_node(nodes, x) implies has_id(found, x) by {
            if !within(nodes, edges, sc, root, x, (k - 1) as nat) {
                let inner = ball(nodes, edges, sc, root, (k - 1) as nat);
                let y = choose|y: Seq<char>| #[trigger]
                    inner.contains(y) && is_node(nodes, y) && query::is_step(edges, sc, y, x);
                assert(within(nodes, edges, sc, root, y, (k - 1) as nat));
                let i = choose|i: int| 0 <= i < found.len() && (#[trigger] found[i]).id@ == y;
                assert(closed_at(nodes, edges, sc, found[i].id@, found));
            }
        }
    }
}

proof fn lemma_within_mono(
    nodes: Seq<GraphNode>,
    edges: Seq<EdgeRow>,
    sc: Scope,
    root: Seq<char>,
    x: Seq<char>,
    j: nat,
    k: nat,
)
    requires
        j <= k,
        within(nodes, edges, sc, root, x, j),
    ensures
        within(nodes, edges, sc, root, x, k),
    decreases k,
{
    if j < k {
        lemma_within_mono(nodes, edges, sc, root, x, j, (k - 1) as nat);
    }
}

/// Whether every node of the table that is at most `k` steps away is found.
pub open spec fn holds_all(
    nodes: Seq<GraphNode>,
    edges: Seq<EdgeRow>,
    sc: Scope,
    root: Seq<char>,
    found: Seq<GraphNode>,
    k: nat,
) -> bool {
    forall|x: Seq<char>| #[trigger]
        within(nodes, edges, sc, root, x, k) && is_node(nodes, x) ==> has_id(found, x)
}

/// Whether a walk may take the edge at a node of the table at most `k` steps away.
pub open spec fn is_way_near(
    nodes: Seq<GraphNode>,
    edges: Seq<EdgeRow>,
    sc: Scope,
    root: Seq<char>,
    k: nat,
    e: GraphEdge,
) -> bool {
    exists|y: Seq<char>| #[trigger]
        within(nodes, edges, sc, root, y, k) && is_node(nodes, y) && is_way(edges, sc, y, e)
}

/// Whether a walk of `k` steps leads to a node of the table that no shorter one leads to.
pub open spec fn goes_on(
    nodes: Seq<GraphNode>,
    edges: Seq<EdgeRow>,
    sc: Scope,
    root: Seq<char>,
    k: nat,
) -> bool {
    exists|x: Seq<char>| #[trigger]
        within(nodes, edges, sc, root, x, k) && is_node(nodes, x) && !within(
            nodes,
            edges,
            sc,
            root,
            x,
            (k - 1) as nat,
        )
}

/// Whether walks of `k` steps take as many edges as may be taken, or more.
pub open spec fn overflows(
    nodes: Seq<GraphNode>,
    edges: Seq<EdgeRow>,
    sc: Scope,
    root: Seq<char>,
    k: nat,
) -> bool {
    exists|ws: Seq<GraphEdge>| #[trigger]
        rows::unique(ws, edge_id()) && ws.len() >= sc.limit && forall|i: int|
            0 <= i < ws.len() ==> is_way_near(
                nodes,
                edges,
                sc,
                root,
                (k - 1) as nat,
                #[trigger] ws[i],
            )
}

/// What walks of `h` steps gather: nodes that they lead to, and all that shorter ones lead
/// to; and all edges between these that they take. It is truncated where there are as many
/// nodes as there may be, or where the walks go on but have taken as many edges as they may.
/// Else they have gone as deep as they may, and no node is missing.
pub open spec fn is_gathered(
    nodes: Seq<GraphNode>,
    edges: Seq<EdgeRow>,
    sc: Scope,
    root: Seq<char>,
    depth: nat,
    max_nodes: nat,
    r: GraphNeighborhood,
    h: nat,
) -> bool {
    &&& 1 <= h <= depth
    &&& forall|i: int|
        0 <= i < r.nodes@.len() ==> within(nodes, edges, sc, root, (#[trigger] r.nodes@[i]).id@, h)
    &&& holds_all(nodes, edges, sc, root, r.nodes@, (h - 1) as nat)
    &&& forall|i: int|
        0 <= i < r.edges@.len() ==> joins(r.nodes@, #[trigger] r.edges@[i]) && is_way_near(
            nodes,
            edges,
            sc,
            root,
            (h - 1) as nat,
            r.edges@[i],
        )
    &&& forall|e: GraphEdge| #[trigger]
        is_way_near(nodes, edges, sc, root, (h - 1) as nat, e) && joins(r.nodes@, e) ==> has_edge(
            r.edges@,
            e,
        )
    &&& if r.truncated {
        r.nodes@.len() == max_nodes || {
            &&& h < depth
            &&& holds_all(nodes, edges, sc, root, r.nodes@, h)
            &&& goes_on(nodes, edges, sc, root, h)
            &&& overflows(nodes, edges, sc, root, h)
        }
    } else {
        &&& h == depth
        &&& r.nodes@.len() < max_nodes
        &&& holds_all(nodes, edges, sc, root, r.nodes@, depth)
        &&& forall|k: nat|
            1 <= k < depth && #[trigger] goes_on(nodes, edges, sc, root, k) ==> !overflows(
                nodes,
                edges,
                sc,
                root,
                k,
            )
    }
}

/// What a neighbourhood of a node of the table is: what walks of some number of steps, up to
/// `depth`, gather. The node comes first; each node is there once and with its degree, each
/// edge once.
pub open spec fn is_neighborhood(
    nodes: Seq<GraphNode>,
    edges: Seq<EdgeRow>,
    sc: Scope,
    root: Seq<char>,
    depth: nat,
    max_nodes: nat,
    r: GraphNeighborhood,
) -> bool {
    &&& gathered_ok(nodes, edges, r.nodes@)
    &&& 0 < r.nodes@.len() <= max_nodes
    &&& r.nodes@[0].id@ == root
    &&& rows::unique(r.edges@, edge_id())
    &&& exists|h: nat| #[trigger]
        is_gathered(nodes, edges, sc, root, depth, max_nodes, r, h)
}

proof fn lemma_way_near_mono(
    nodes: Seq<GraphNode>,
    edges: Seq<EdgeRow>,
    sc: Scope,
    root: Seq<char>,
    j: nat,
    k: nat,
    e: GraphEdge,
)
    requires
        j <= k,
        is_way_near(nodes, edges, sc, root, j, e),
    ensures
        is_way_near(nodes, edges, sc, root, k, e),
{
    let y = choose|y: Seq<char>| #[trigger]
        within(nodes, edges, sc, root, y, j) && is_node(nodes, y) && is_way(edges, sc, y, e);
    lemma_within_mono(nodes, edges, sc, root, y, j, k);
}

/// Of edges that are all seen there are no more than seen ones.
proof fn lemma_no_more_than_seen(ws: Seq<GraphEdge>, seen: Seq<GraphEdge>)
    requires
        rows::unique(ws, edge_id()),
        forall|i: int| 0 <= i < ws.len() ==> has_edge(seen, #[trigger] ws[i]),
    ensures
        ws.len() <= seen.len(),
{
    let at = Seq::new(
        ws.len(),
        |i: int|
            choose|x: int|
                0 <= x < seen.len() && edge_id()(#[trigger] seen[x]) == edge_id()(ws[i]),
    );
    assert forall|i: int| 0 <= i < at.len() implies 0 <= #[trigger] at[i] < seen.len()
        && edge_id()(seen[at[i]]) == edge_id()(ws[i]) by {
        assert(has_edge(seen, ws[i]));
    }
    assert(at.no_duplicates()) by {
        assert forall|i: int, j: int| 0 <= i < at.len() && 0 <= j < at.len() && i != j implies at[i]
            != at[j] by {
            let a = if i < j {
                i
            } else {
                j
            };
            let b = if i < j {
                j
            } else {
                i
            };
            assert(edge_id()(ws[a]) != edge_id()(ws[b]));
        }
    }
    rows::lemma_distinct_bounded(at, seen.len() as int);
}

/// Whether both ends of the edge are among the nodes.
pub open spec fn joins(found: Seq<GraphNode>, e: GraphEdge) -> bool {
    has_id(found, e.source@) && has_id(found, e.target@)
}

impl GraphStore {
    fn inner_edges(&self, seen: &Vec<GraphEdge>, found: &Vec<GraphNode>) -> (r: Vec<GraphEdge>)
        requires
            rows::unique(seen@, edge_id()),
        ensures
            r@ == rows::kept(seen@, joining(found@)),
            rows::unique(r@, edge_id()),
            forall|i: int|
                0 <= i < r@.len() ==> joins(found@, #[trigger] r@[i]) && seen@.contains(r@[i]),
            forall|i: int|
                0 <= i < seen@.len() && joins(found@, #[trigger] seen@[i]) ==> r@.contains(seen@[i]),
    {
        let ghost p = joining(found@);
        let r = keep_joining(seen, found);
        proof {
            rows::lemma_unique_kept(seen@, edge_id(), p);
            rows::lemma_kept(seen@, p);
            assert forall|k: int| 0 <= k < r@.len() implies joins(found@, #[trigger] r@[k])
                && seen@.contains(r@[k]) by {
                assert(p(r@[k]));
            }
            assert forall|k: int|
                0 <= k < seen@.len() && joins(found@, #[trigger] seen@[k]) implies r@.contains(
                seen@[k],
            ) by {
                assert(p(seen@[k]));
            }
        }
        r
    }

    /// The surroundings of a node: a walk in all directions, bounded in depth (1 to 3), in
    /// nodes (1 to 1000) and in edges (1 to 2000), along edges of the relations that weigh
    /// enough. Nodes and edges come in the order in which the walk meets them. Without the node
    /// there is nothing.
    pub fn neighborhood(
        &self,
        node_id: &str,
        depth: u32,
        max_nodes: u32,
        max_edges: u32,
        relations: Option<&Vec<Relation>>,
        weight_min: u32,
    ) -> (r: GraphNeighborhood)
        ensures
            !is_node(self.nodes@, node_id@) ==> r.nodes@.len() == 0 && r.edges@.len() == 0
                && !r.truncated,
            is_node(self.nodes@, node_id@) ==> is_neighborhood(
                self.nodes@,
                self.edges@,
                Scope {
                    relations: query::rels_view(relations),
                    weight_min,
                    limit: clamped(max_edges, 1, 2000),
                },
                node_id@,
                clamped(depth, 1, 3) as nat,
                clamped(max_nodes, 1, 1000) as nat,
                r,
            ),
            store::node_index(self.nodes@, node_id@) matches Some(i) ==> {
                let w = walked_from(
                    self.nodes@,
                    self.edges@,
                    Scope {
                        relations: query::rels_view(relations),
                        weight_min,
                        limit: clamped(max_edges, 1, 2000),
                    },
                    query::counted(self.edges@, self.nodes@[i]),
                    clamped(depth, 1, 3) as nat,
                    clamped(max_nodes, 1, 1000) as nat,
                );
                &&& r.nodes@ == w.found
                &&& r.edges@ == rows::kept(w.seen, joining(w.found))
                &&& r.truncated == w.truncated
            },
    {
        let d = clamp(depth, 1, 3);
        let mn: usize = clamp(max_nodes, 1, 1000) as usize;
        let me = clamp(max_edges, 1, 2000);
        let ghost sc = Scope { relations: query::rels_view(relations), weight_min, limit: me };
        let root_id = node_id.to_owned();
        let mut w = Walk { found: Vec::new(), seen: Vec::new(), truncated: false };
        match self.counted_node(&root_id) {
            Some(n) => {
                w.found.push(n);
            },
            None => {
                return GraphNeighborhood { nodes: w.found, edges: w.seen, truncated: false };
            },
        }
        let ghost root = node_id@;
        let ghost (ns, es) = (self.nodes@, self.edges@);
        let ghost goal = walked(ns, es, sc, w@, 0, d as nat, mn as nat);
        assert(w@.found =~= seq![w.found@[0]]);
        assert(w@.seen =~= Seq::<GraphEdge>::empty());
        let mut lo: usize = 0;
        let mut hi: usize = 1;
        let mut hop: u32 = 0;
        let mut stop = false;
        assert(w.found@[0].id@ == root);
        assert(within(ns, es, sc, root, root, 0));
        while hop < d && !stop
            invariant
                hop <= d,
                1 <= d,
                1 <= mn,
                1 <= me,
                root == node_id@,
                ns == self.nodes@,
                es == self.edges@,
                sc == (Scope { relations: query::rels_view(relations), weight_min, limit: me }),
                gathered_ok(ns, es, w.found@),
                rows::unique(w.seen@, edge_id()),
                0 < w.found@.len() <= mn,
                w.found@[0].id@ == root,
                lo <= hi <= w.found@.len(),
                !stop ==> hi == w.found@.len() && !w.truncated,
                // What is still to come of the walk.
                !stop ==> goal == walked(ns, es, sc, w@, lo as int, (d - hop) as nat, mn as nat),
                stop ==> goal == w@,
                hop == 0 ==> lo == 0 && hi == 1 && w.seen@.len() == 0 && !stop,
                // Everything found is near enough, and what lies behind the frontier nearer.
                forall|i: int|
                    0 <= i < w.found@.len() ==> within(
                        ns,
                        es,
                        sc,
                        root,
                        (#[trigger] w.found@[i]).id@,
                        hop as nat,
                    ),
                hop > 0 ==> is_behind(ns, es, sc, root, (hop - 1) as nat, w, lo as int),
                // What lies behind the frontier is closed.
                !w.truncated ==> forall|i: int|
                    0 <= i < lo ==> closed_at(ns, es, sc, (#[trigger] w.found@[i]).id@, w.found@),
                !w.truncated ==> holds_all(ns, es, sc, root, w.found@, hop as nat),
                forall|k: nat| 1 <= k < hop ==> !#[trigger] overflows(ns, es, sc, root, k),
                stop && !w.truncated ==> lo == w.found@.len(),
                hop > 0 && !w.truncated ==> w.found@.len() < mn,
                w.truncated ==> w.found@.len() == mn || (hop < d && holds_all(
                    ns,
                    es,
                    sc,
                    root,
                    w.found@,
                    hop as nat,
                ) && goes_on(ns, es, sc, root, hop as nat) && overflows(
                    ns,
                    es,
                    sc,
                    root,
                    hop as nat,
                )),
            decreases d - hop + (if stop { 0int } else { 1int }),
        {
            if lo == hi {
                stop = true;
            } else if w.seen.len() >= me as usize {
                proof {
                    let x = w.found@[lo as int].id@;
                    assert(is_counted(ns, es, w.found@[lo as int]));
                    if within(ns, es, sc, root, x, (hop - 1) as nat) {
                        let i = choose|i: int| 0 <= i < lo && (#[trigger] w.found@[i]).id@ == x;
                        assert(store::node_key()(w.found@[i]) != store::node_key()(
                            w.found@[lo as int],
                        ));
                    }
                    assert(goes_on(ns, es, sc, root, hop as nat));
                    assert(rows::unique(w.seen@, edge_id()));
                    assert(overflows(ns, es, sc, root, hop as nat));
                }
                w.truncated = true;
                stop = true;
            } else {
                let ghost found0 = w.found@;
                let ghost w0 = w@;
                proof {
                    if hop > 0 {
                        lemma_no_overflow(ns, es, sc, root, hop as nat, w, lo as int);
                    }
                    assert(found0.take(found0.len() as int) == found0);
                    assert forall|i: int| 0 <= i < w.found@.len() implies within(
                        ns,
                        es,
                        sc,
                        root,
                        (#[trigger] w.found@[i]).id@,
                        (hop + 1) as nat,
                    ) by {
                        lemma_within_mono(
                            ns,
                            es,
                            sc,
                            root,
                            w.found@[i].id@,
                            hop as nat,
                            (hop + 1) as nat,
                        );
                    }
                    assert forall|i: int| 0 <= i < w.seen@.len() implies is_way_near(
                        ns,
                        es,
                        sc,
                        root,
                        hop as nat,
                        #[trigger] w.seen@[i],
                    ) by {
                        lemma_way_near_mono(
                            ns,
                            es,
                            sc,
                            root,
                            (hop - 1) as nat,
                            hop as nat,
                            w.seen@[i],
                        );
                    }
                }
                let mut c: usize = lo;
                while c < hi
                    invariant
                        lo <= c <= hi,
                        hop < d,
                        root == node_id@,
                        ns == self.nodes@,
                        es == self.edges@,
                        sc == (Scope {
                            relations: query::rels_view(relations),
                            weight_min,
                            limit: me,
                        }),
                        hi == found0.len(),
                        w0.found == found0,
                        w@ == ring_visited(ns, es, sc, w0, lo as int, c as int, mn as nat),
                        extends(found0, w.found@),
                        gathered_ok(ns, es, w.found@),
                        rows::unique(w.seen@, edge_id()),
                        0 < w.found@.len() <= mn,
                        w.found@[0].id@ == root,
                        forall|i: int|
                            0 <= i < hi ==> within(
                                ns,
                                es,
                                sc,
                                root,
                                (#[trigger] found0[i]).id@,
                                hop as nat,
                            ),
                        forall|i: int|
                            0 <= i < w.found@.len() ==> within(
                                ns,
                                es,
                                sc,
                                root,
                                (#[trigger] w.found@[i]).id@,
                                (hop + 1) as nat,
                            ),
                        forall|i: int|
                            0 <= i < w.seen@.len() ==> is_way_near(
                                ns,
                                es,
                                sc,
                                root,
                                hop as nat,
                                #[trigger] w.seen@[i],
                            ),
                        !w.truncated ==> forall|i: int|
                            0 <= i < c ==> closed_at(
                                ns,
                                es,
                                sc,
                                (#[trigger] found0[i]).id@,
                                w.found@,
                            ),
                        forall|i: int|
                            0 <= i < c ==> edges_taken(
                                es,
                                sc,
                                (#[trigger] found0[i]).id@,
                                w.seen@,
                            ),
                        w.truncated ==> w.found@.len() >= mn,
                    decreases hi - c,
                {
                    let ghost found1 = w.found@;
                    let ghost seen1 = w.seen@;
                    assert(found1.take(found0.len() as int)[c as int] == found0[c as int]);
                    let id = w.found[c].id.clone();
                    self.visit(&id, relations, weight_min, me, mn, &mut w);
                    proof {
                        lemma_extends_trans(found0, found1, w.found@);
                        assert(w.found@.take(found1.len() as int)[0] == w.found@[0]);
                        assert(found1[0] == w.found@[0]);
                        assert(within(ns, es, sc, root, found0[c as int].id@, hop as nat));
                        assert(is_counted(ns, es, found1[c as int]));
                        assert(is_node(ns, id@));
                        let inner = ball(ns, es, sc, root, hop as nat);
                        assert(inner.contains(id@));
                        assert forall|i: int| 0 <= i < w.found@.len() implies within(
                            ns,
                            es,
                            sc,
                            root,
                            (#[trigger] w.found@[i]).id@,
                            (hop + 1) as nat,
                        ) by {
                            if i < found1.len() {
                                assert(w.found@.take(found1.len() as int)[i] == w.found@[i]);
                            } else {
                                assert(query::is_step(es, sc, id@, w.found@[i].id@));
                                assert(step_into(ns, es, sc, inner, w.found@[i].id@));
                            }
                        }
                        assert forall|i: int| 0 <= i < w.seen@.len() implies is_way_near(
                            ns,
                            es,
                            sc,
                            root,
                            hop as nat,
                            #[trigger] w.seen@[i],
                        ) by {
                            if i < seen1.len() {
                                assert(w.seen@.take(seen1.len() as int)[i] == w.seen@[i]);
                            } else {
                                assert(within(ns, es, sc, root, id@, hop as nat));
                                assert(is_way(es, sc, id@, w.seen@[i]));
                            }
                        }
                        if !w.truncated {
                            assert forall|i: int| 0 <= i < c + 1 implies closed_at(
                                ns,
                                es,
                                sc,
                                (#[trigger] found0[i]).id@,
                                w.found@,
                            ) by {
                                if i < c {
                                    lemma_closed_extends(
                                        ns,
                                        es,
                                        sc,
                                        found0[i].id@,
                                        found1,
                                        w.found@,
                                    );
                                }
                            }
                        }
                        assert forall|i: int| 0 <= i < c + 1 implies edges_taken(
                            es,
                            sc,
                            (#[trigger] found0[i]).id@,
                            w.seen@,
                        ) by {
                            if i < c {
                                lemma_taken_extends(es, sc, found0[i].id@, seen1, w.seen@);
                            }
                        }
                    }
                    c += 1;
                }
                proof {
                    assert forall|i: int| 0 <= i < hi implies (#[trigger] w.found@[i])
                        == found0[i] by {
                        assert(w.found@.take(found0.len() as int)[i] == found0[i]);
                    }
                    assert forall|x: Seq<char>| #[trigger]
                        within(ns, es, sc, root, x, hop as nat) && is_node(
                            ns,
                            x,
                        ) implies has_id_before(w.found@, x, hi as int) by {
                        assert(has_id(found0, x));
                        let i = choose|i: int|
                            0 <= i < found0.len() && (#[trigger] found0[i]).id@ == x;
                        assert(w.found@[i].id@ == x);
                    }
                    if !w.truncated {
                        assert forall|i: int| 0 <= i < hi implies closed_at(
                            ns,
                            es,
                            sc,
                            (#[trigger] w.found@[i]).id@,
                            w.found@,
                        ) by {
                            assert(closed_at(ns, es, sc, found0[i].id@, w.found@));
                        }
                        lemma_next_ring(ns, es, sc, root, hop as nat, w.found@, hi as int);
                    }
                    assert(is_behind(ns, es, sc, root, hop as nat, w, hi as int)) by {
                        assert forall|i: int| 0 <= i < hi implies within(
                            ns,
                            es,
                            sc,
                            root,
                            (#[trigger] w.found@[i]).id@,
                            hop as nat,
                        ) && edges_taken(es, sc, w.found@[i].id@, w.seen@) by {
                            assert(within(ns, es, sc, root, found0[i].id@, hop as nat));
                            assert(edges_taken(es, sc, found0[i].id@, w.seen@));
                        }
                    }
                }
                lo = hi;
                hi = w.found.len();
                hop += 1;
                if w.found.len() >= mn {
                    w.truncated = true;
                    stop = true;
                }
            }
        }
        let edges = self.inner_edges(&w.seen, &w.found);
        let r = GraphNeighborhood { nodes: w.found, edges, truncated: w.truncated };
        proof {
            let found = w.found@;
            let near = (hop - 1) as nat;
            let h = if w.truncated {
                hop as nat
            } else {
                d as nat
            };
            if stop && !w.truncated {
                assert(has_id(found, root));
                lemma_closed_holds_all(ns, es, sc, root, found, d as nat);
                assert forall|k: nat|
                    1 <= k < d && #[trigger] goes_on(ns, es, sc, root, k) implies !overflows(
                    ns,
                    es,
                    sc,
                    root,
                    k,
                ) by {
                    if k >= hop {
                        let x = choose|x: Seq<char>| #[trigger]
                            within(ns, es, sc, root, x, k) && is_node(ns, x) && !within(
                                ns,
                                es,
                                sc,
                                root,
                                x,
                                (k - 1) as nat,
                            );
                        lemma_within_mono(ns, es, sc, root, x, k, d as nat);
                        assert(has_id(found, x));
                        let i = choose|i: int| 0 <= i < found.len() && (#[trigger] found[i]).id@ == x;
                        lemma_within_mono(ns, es, sc, root, found[i].id@, near, (k - 1) as nat);
                    }
                }
            }
            assert forall|i: int| 0 <= i < r.nodes@.len() implies within(
                ns,
                es,
                sc,
                root,
                (#[trigger] r.nodes@[i]).id@,
                h,
            ) by {
                lemma_within_mono(ns, es, sc, root, found[i].id@, hop as nat, h);
            }
            assert forall|i: int| 0 <= i < r.edges@.len() implies joins(
                r.nodes@,
                #[trigger] r.edges@[i],
            ) && is_way_near(ns, es, sc, root, (h - 1) as nat, r.edges@[i]) by {
                let x = choose|x: int| 0 <= x < w.seen@.len() && w.seen@[x] == r.edges@[i];
                assert(is_way_near(ns, es, sc, root, near, w.seen@[x]));
                lemma_way_near_mono(ns, es, sc, root, near, (h - 1) as nat, w.seen@[x]);
            }
            assert forall|x: Seq<char>| #[trigger]
                within(ns, es, sc, root, x, (h - 1) as nat) && is_node(ns, x) implies has_id_before(
                found,
                x,
                lo as int,
            ) by {
                if stop && !w.truncated {
                    lemma_within_mono(ns, es, sc, root, x, (h - 1) as nat, h);
                    assert(has_id(found, x));
                }
            }
            assert forall|e: GraphEdge| #[trigger]
                is_way_near(ns, es, sc, root, (h - 1) as nat, e) && joins(
                    r.nodes@,
                    e,
                ) implies has_edge(r.edges@, e) by {
                let y = choose|y: Seq<char>| #[trigger]
                    within(ns, es, sc, root, y, (h - 1) as nat) && is_node(ns, y) && is_way(
                        es,
                        sc,
                        y,
                        e,
                    );
                assert(has_id_before(found, y, lo as int));
                let i = choose|i: int| 0 <= i < lo && (#[trigger] found[i]).id@ == y;
                assert(edges_taken(es, sc, found[i].id@, w.seen@));
                let k = choose|k: int|
                    0 <= k < w.seen@.len() && edge_id()(#[trigger] w.seen@[k]) == edge_id()(e);
                assert(joins(found, w.seen@[k]));
                let j = choose|j: int| 0 <= j < r.edges@.len() && r.edges@[j] == w.seen@[k];
                assert(edge_id()(r.edges@[j]) == edge_id()(e));
            }
            assert(holds_all(ns, es, sc, root, r.nodes@, (h - 1) as nat));
            assert(is_gathered(ns, es, sc, root, d as nat, mn as nat, r, h));
        }
        r
    }
}

/// What a walk knows of the first `n` nodes, which it has left: they are at most `k` steps
/// away, they are all such nodes, and it has taken their edges and no others.
spec fn is_behind(
    nodes: Seq<GraphNode>,
    edges: Seq<EdgeRow>,
    sc: Scope,
    root: Seq<char>,
    k: nat,
    w: Walk,
    n: int,
) -> bool {
    &&& forall|i: int|
        0 <= i < n ==> within(nodes, edges, sc, root, (#[trigger] w.found@[i]).id@, k)
            && edges_taken(edges, sc, w.found@[i].id@, w.seen@)
    &&& forall|x: Seq<char>| #[trigger]
        within(nodes, edges, sc, root, x, k) && is_node(nodes, x) ==> has_id_before(w.found@, x, n)
    &&& forall|i: int|
        0 <= i < w.seen@.len() ==> is_way_near(nodes, edges, sc, root, k, #[trigger] w.seen@[i])
}

/// A walk that has not taken too many edges yet could not have.
proof fn lemma_no_overflow(
    nodes: Seq<GraphNode>,
    edges: Seq<EdgeRow>,
    sc: Scope,
    root: Seq<char>,
    k: nat,
    w: Walk,
    n: int,
)
    requires
        k > 0,
        n <= w.found@.len(),
        is_behind(nodes, edges, sc, root, (k - 1) as nat, w, n),
        w.seen@.len() < sc.limit,
    ensures
        !overflows(nodes, edges, sc, root, k),
{
    if overflows(nodes, edges, sc, root, k) {
        let near = (k - 1) as nat;
        let ws = choose|ws: Seq<GraphEdge>| #[trigger]
            rows::unique(ws, edge_id()) && ws.len() >= sc.limit && forall|i: int|
                0 <= i < ws.len() ==> is_way_near(nodes, edges, sc, root, near, #[trigger] ws[i]);
        assert forall|i: int| 0 <= i < ws.len() implies has_edge(w.seen@, #[trigger] ws[i]) by {
            assert(is_way_near(nodes, edges, sc, root, near, ws[i]));
            let y = choose|y: Seq<char>| #[trigger]
                within(nodes, edges, sc, root, y, near) && is_node(nodes, y) && is_way(
                    edges,
                    sc,
                    y,
                    ws[i],
                );
            assert(has_id_before(w.found@, y, n));
            let x = choose|x: int| 0 <= x < n && (#[trigger] w.found@[x]).id@ == y;
            assert(edges_taken(edges, sc, w.found@[x].id@, w.seen@));
        }
        lemma_no_more_than_seen(ws, w.seen@);
    }
}

/// Where all nodes `k` steps away are closed, those a step further are found.
proof fn lemma_next_ring(
    nodes: Seq<GraphNode>,
    edges: Seq<EdgeRow>,
    sc: Scope,
    root: Seq<char>,
    k: nat,
    found: Seq<GraphNode>,
    n: int,
)
    requires
        n <= found.len(),
        forall|x: Seq<char>| #[trigger]
            within(nodes, edges, sc, root, x, k) && is_node(nodes, x) ==> has_id_before(
                found,
                x,
                n,
            ),
        forall|i: int|
            0 <= i < n ==> closed_at(nodes, edges, sc, (#[trigger] found[i]).id@, found),
    ensures
        holds_all(nodes, edges, sc, root, found, k + 1),
{
    assert forall|x: Seq<char>| #[trigger]
        within(nodes, edges, sc, root, x, k + 1) && is_node(nodes, x) implies has_id(found, x) by {
        if within(nodes, edges, sc, root, x, k) {
            assert(has_id_before(found, x, n));
        } else {
            let inner = ball(nodes, edges, sc, root, k);
            let y = choose|y: Seq<char>| #[trigger]
                inner.contains(y) && is_node(nodes, y) && query::is_step(edges, sc, y, x);
            assert(within(nodes, edges, sc, root, y, k));
            assert(has_id_before(found, y, n));
            let i = choose|i: int| 0 <= i < n && (#[trigger] found[i]).id@ == y;
            assert(closed_at(nodes, edges, sc, found[i].id@, found));
        }
    }
}

pub open spec fn joining(found: Seq<GraphNode>) -> spec_fn(GraphEdge) -> bool {
    |e: GraphEdge| joins(found, e)
}

proof fn lemma_closed_extends(
    nodes: Seq<GraphNode>,
    edges: Seq<EdgeRow>,
    sc: Scope,
    id: Seq<char>,
    a: Seq<GraphNode>,
    b: Seq<GraphNode>,
)
    requires
        extends(a, b),
        closed_at(nodes, edges, sc, id, a),
    ensures
        closed_at(nodes, edges, sc, id, b),
{
    assert forall|x: Seq<char>| #[trigger]
        query::is_step(edges, sc, id, x) && is_node(nodes, x) implies has_id(b, x) by {
        lemma_has_id_extends(a, b, x);
    }
}

proof fn lemma_taken_extends(
    edges: Seq<EdgeRow>,
    sc: Scope,
    id: Seq<char>,
    a: Seq<GraphEdge>,
    b: Seq<GraphEdge>,
)
    requires
        extends(a, b),
        edges_taken(edges, sc, id, a),
    ensures
        edges_taken(edges, sc, id, b),
{
    assert forall|e: GraphEdge| #[trigger] is_way(edges, sc, id, e) implies has_edge(b, e) by {
        lemma_has_edge_extends(a, b, e);
    }
}

/// The ids that the edges lead to, in or against their direction.
pub open spec fn far_ends(es: Seq<EdgeRow>, outgoing: bool) -> Seq<Seq<char>> {
    Seq::new(es.len(), |i: int| far_end(es[i], outgoing))
}

/// The root and the nodes of the first `n` ids, each once, until there are `max_nodes`.
pub open spec fn gathered(
    nodes: Seq<GraphNode>,
    edges: Seq<EdgeRow>,
    root: GraphNode,
    ids: Seq<Seq<char>>,
    max_nodes: nat,
    n: int,
) -> Seq<GraphNode>
    decreases n,
{
    if n <= 0 {
        seq![root]
    } else {
        let before = gathered(nodes, edges, root, ids, max_nodes, n - 1);
        if before.len() >= max_nodes || has_id(before, ids[n - 1]) {
            before
        } else {
            match store::node_index(nodes, ids[n - 1]) {
                Some(i) => before.push(query::counted(edges, nodes[i])),
                None => before,
            }
        }
    }
}

/// The edges at a node, those that leave it first, at most `max_edges`.
pub open spec fn ways_of(edges: Seq<EdgeRow>, id: Seq<char>, sc: Scope) -> Seq<EdgeRow> {
    query::adjacent_rows(edges, id, true, sc) + query::adjacent_rows(edges, id, false, sc)
}

pub open spec fn way_ids(edges: Seq<EdgeRow>, id: Seq<char>, sc: Scope) -> Seq<Seq<char>> {
    far_ends(query::adjacent_rows(edges, id, true, sc), true) + far_ends(
        query::adjacent_rows(edges, id, false, sc),
        false,
    )
}

impl GraphStore {
    /// The node with its direct neighbours, at most `max_nodes` (1 to 1000) in all, and the
    /// edges at the node, at most `max_edges` (1 to 1000), that lead to one of them.
    pub fn expand(
        &self,
        node_id: &str,
        max_nodes: u32,
        relations: Option<&Vec<Relation>>,
        weight_min: u32,
        max_edges: u32,
    ) -> (r: GraphNeighborhood)
        ensures
            ({
                let me = clamped(max_edges, 1, 1000);
                let mn = clamped(max_nodes, 1, 1000) as nat;
                let sc = Scope { relations: query::rels_view(relations), weight_min, limit: me };
                let ways = ways_of(self.edges@, node_id@, sc);
                let ids = way_ids(self.edges@, node_id@, sc);
                match store::node_index(self.nodes@, node_id@) {
                    None => r.nodes@.len() == 0 && r.edges@.len() == 0 && !r.truncated,
                    Some(i) => {
                        let root = query::counted(self.edges@, self.nodes@[i]);
                        &&& r.nodes@ == gathered(
                            self.nodes@,
                            self.edges@,
                            root,
                            ids,
                            mn,
                            ids.len() as int,
                        )
                        &&& r.edges@ == rows::kept(
                            rows::limited(query::edges_of(ways), me as nat),
                            joining(r.nodes@),
                        )
                        &&& r.truncated == (ways.len() > me || (ids.len() > 0 && gathered(
                            self.nodes@,
                            self.edges@,
                            root,
                            ids,
                            mn,
                            ids.len() - 1,
                        ).len() >= mn))
                    },
                }
            }),
    {
        let me = clamp(max_edges, 1, 1000);
        let mn: usize = clamp(max_nodes, 1, 1000) as usize;
        let ghost sc = Scope { relations: query::rels_view(relations), weight_min, limit: me };
        let key = node_id.to_owned();
        let mut found: Vec<GraphNode> = Vec::new();
        match self.counted_node(&key) {
            Some(n) => {
                found.push(n);
            },
            None => {
                return GraphNeighborhood { nodes: found, edges: Vec::new(), truncated: false };
            },
        }
        let ghost root = found@[0];
        assert(found@ =~= seq![root]);
        let outs = self.adjacent(&key, true, relations, weight_min, me);
        let ins = self.adjacent(&key, false, relations, weight_min, me);
        let ghost ways = ways_of(self.edges@, node_id@, sc);
        let ghost ids = way_ids(self.edges@, node_id@, sc);
        assert(ids.len() == ways.len());
        let total: usize = outs.len();
        let mut cut = false;
        if ins.len() > usize::MAX - total {
            cut = true;
        } else if total + ins.len() > me as usize {
            cut = true;
        }
        let mut kept: Vec<GraphEdge> = Vec::new();
        let mut i: usize = 0;
        assert(query::edges_of(ways).take(0) =~= Seq::<GraphEdge>::empty());
        while i < outs.len() && kept.len() < me as usize
            invariant
                i <= outs.len(),
                i == kept.len(),
                kept.len() <= me,
                outs@ == query::adjacent_rows(self.edges@, node_id@, true, sc),
                ins@ == query::adjacent_rows(self.edges@, node_id@, false, sc),
                ways == outs@ + ins@,
                kept@ == query::edges_of(ways).take(i as int),
            decreases outs.len() - i,
        {
            assert(ways[i as int] == outs@[i as int]);
            kept.push(query::edge_from_row(&outs[i]));
            i += 1;
        }
        let mut j: usize = 0;
        while j < ins.len() && kept.len() < me as usize
            invariant
                j <= ins.len(),
                kept.len() <= me,
                kept.len() < me ==> kept.len() == outs.len() + j,
                kept.len() <= ways.len(),
                outs@ == query::adjacent_rows(self.edges@, node_id@, true, sc),
                ins@ == query::adjacent_rows(self.edges@, node_id@, false, sc),
                ways == outs@ + ins@,
                kept@ == query::edges_of(ways).take(kept.len() as int),
            decreases ins.len() - j,
        {
            assert(ways[kept.len() as int] == ins@[j as int]);
            kept.push(query::edge_from_row(&ins[j]));
            j += 1;
        }
        assert(kept@ =~= rows::limited(query::edges_of(ways), me as nat));
        let mut full = false;
        let mut k: usize = 0;
        while k < outs.len()
            invariant
                k <= outs.len(),
                outs@ == query::adjacent_rows(self.edges@, node_id@, true, sc),
                ins@ == query::adjacent_rows(self.edges@, node_id@, false, sc),
                ids == far_ends(outs@, true) + far_ends(ins@, false),
                found@ == gathered(self.nodes@, self.edges@, root, ids, mn as nat, k as int),
                full == (k > 0 && gathered(
                    self.nodes@,
                    self.edges@,
                    root,
                    ids,
                    mn as nat,
                    k - 1,
                ).len() >= mn),
            decreases outs.len() - k,
        {
            assert(ids[k as int] == outs@[k as int].target@);
            full = found.len() >= mn;
            if !full && !holds_id(&found, &outs[k].target) {
                if let Some(n) = self.counted_node(&outs[k].target) {
                    found.push(n);
                }
            }
            k += 1;
        }
        let mut l: usize = 0;
        while l < ins.len()
            invariant
                l <= ins.len(),
                outs@ == query::adjacent_rows(self.edges@, node_id@, true, sc),
                ins@ == query::adjacent_rows(self.edges@, node_id@, false, sc),
                ids == far_ends(outs@, true) + far_ends(ins@, false),
                found@ == gathered(
                    self.nodes@,
                    self.edges@,
                    root,
                    ids,
                    mn as nat,
                    outs.len() + l,
                ),
                full == (outs.len() + l > 0 && gathered(
                    self.nodes@,
                    self.edges@,
                    root,
                    ids,
                    mn as nat,
                    outs.len() + l - 1,
                ).len() >= mn),
            decreases ins.len() - l,
        {
            assert(ids[outs.len() + l] == ins@[l as int].source@);
            full = found.len() >= mn;
            if !full && !holds_id(&found, &ins[l].source) {
                if let Some(n) = self.counted_node(&ins[l].source) {
                    found.push(n);
                }
            }
            l += 1;
        }
        let edges = keep_joining(&kept, &found);
        GraphNeighborhood { nodes: found, edges, truncated: cut || full }
    }

    /// The surroundings of a node along edges of every relation and weight.
    pub fn subgraph(&self, node_id: &str, depth: u32, max_nodes: u32, max_edges: u32) -> (r:
        GraphNeighborhood)
        ensures
            !is_node(self.nodes@, node_id@) ==> r.nodes@.len() == 0 && r.edges@.len() == 0
                && !r.truncated,
            is_node(self.nodes@, node_id@) ==> is_neighborhood(
                self.nodes@,
                self.edges@,
                Scope { relations: None, weight_min: 0, limit: clamped(max_edges, 1, 2000) },
                node_id@,
                clamped(depth, 1, 3) as nat,
                clamped(max_nodes, 1, 1000) as nat,
                r,
            ),
    {
        self.neighborhood(node_id, depth, max_nodes, max_edges, None, 0)
    }

    /// The ids of the neighbours of a node, each once, those that its edges lead to first.
    pub fn neighbors_of(&self, node_id: &str) -> (r: Vec<String>)
        ensures
            text::texts(r@) == text::distinct(
                way_ids(self.edges@, node_id@, path::path_scope()),
            ),
    {
        let key = node_id.to_owned();
        let outs = self.adjacent(&key, true, None, 0, path::PATH_FANOUT);
        let ins = self.adjacent(&key, false, None, 0, path::PATH_FANOUT);
        let ghost ids = way_ids(self.edges@, node_id@, path::path_scope());
        let mut r: Vec<String> = Vec::new();
        let mut i: usize = 0;
        assert(text::texts(r@) =~= text::distinct(ids.take(0)));
        while i < outs.len()
            invariant
                i <= outs.len(),
                ids == far_ends(outs@, true) + far_ends(ins@, false),
                text::texts(r@) == text::distinct(ids.take(i as int)),
            decreases outs.len() - i,
        {
            proof {
                assert(ids.take(i + 1) =~= ids.take(i as int).push(outs@[i as int].target@));
                text::lemma_distinct_push(ids.take(i as int), outs@[i as int].target@);
            }
            text::push_distinct(&mut r, outs[i].target.clone());
            i += 1;
        }
        let mut j: usize = 0;
        while j < ins.len()
            invariant
                j <= ins.len(),
                ids == far_ends(outs@, true) + far_ends(ins@, false),
                text::texts(r@) == text::distinct(ids.take(outs.len() + j)),
            decreases ins.len() - j,
        {
            proof {
                assert(ids.take(outs.len() + j + 1) =~= ids.take(outs.len() + j).push(
                    ins@[j as int].source@,
                ));
                text::lemma_distinct_push(ids.take(outs.len() + j), ins@[j as int].source@);
            }
            text::push_distinct(&mut r, ins[j].source.clone());
            j += 1;
        }
        assert(ids.take(outs.len() + j) == ids);
        r
    }
}

fn keep_joining(seen: &Vec<GraphEdge>, found: &Vec<GraphNode>) -> (r: Vec<GraphEdge>)
    ensures
        r@ == rows::kept(seen@, joining(found@)),
{
    let ghost p = joining(found@);
    let mut r: Vec<GraphEdge> = Vec::new();
    let mut i: usize = 0;
    while i < seen.len()
        invariant
            i <= seen.len(),
            p == joining(found@),
            r@ == rows::kept(seen@.take(i as int), p),
        decreases seen.len() - i,
    {
        proof {
            assert(seen@.take(i + 1) == seen@.take(i as int).push(seen@[i as int]));
            rows::lemma_kept_push(seen@.take(i as int), seen@[i as int], p);
        }
        if holds_id(found, &seen[i].source) && holds_id(found, &seen[i].target) {
            r.push(seen[i].clone());
        }
        i += 1;
    }
    assert(seen@.take(i as int) == seen@);
    r
}

/// Whether `x` is a neighbour of both.
pub open spec fn is_common(edges: Seq<EdgeRow>, a: Seq<char>, b: Seq<char>, x: Seq<char>) -> bool {
    query::is_step(edges, path::path_scope(), a, x) && query::is_step(
        edges,
        path::path_scope(),
        b,
        x,
    )
}

/// What two nodes have in common: both, and every node of the table that is a neighbour
/// of both, each once and with its degree; and every edge at one of the two that leads to
/// one of these.
pub open spec fn is_common_ground(
    nodes: Seq<GraphNode>,
    edges: Seq<EdgeRow>,
    a: Seq<char>,
    b: Seq<char>,
    r: GraphNeighborhood,
) -> bool {
    &&& gathered_ok(nodes, edges, r.nodes@)
    &&& forall|x: Seq<char>| #[trigger]
        has_id(r.nodes@, x) <==> x == a || x == b || (is_node(nodes, x) && is_common(edges, a, b, x))
    &&& rows::unique(r.edges@, edge_id())
    &&& forall|i: int|
        0 <= i < r.edges@.len() ==> joins(r.nodes@, #[trigger] r.edges@[i]) && (is_way(
            edges,
            path::path_scope(),
            a,
            r.edges@[i],
        ) || is_way(edges, path::path_scope(), b, r.edges@[i]))
    &&& forall|e: GraphEdge|
        joins(r.nodes@, e) && (#[trigger] is_way(edges, path::path_scope(), a, e) || #[trigger]
            is_way(edges, path::path_scope(), b, e)) ==> has_edge(r.edges@, e)
    &&& !r.truncated
}

fn ends_hold(ways: &Vec<EdgeRow>, outgoing: bool, id: &String) -> (r: bool)
    ensures
        r == end_of(ways@, outgoing, id@),
{
    let mut i: usize = 0;
    while i < ways.len()
        invariant
            i <= ways.len(),
            forall|k: int| 0 <= k < i ==> far_end(#[trigger] ways@[k], outgoing) != id@,
        decreases ways.len() - i,
    {
        let hit = if outgoing {
            ways[i].target == *id
        } else {
            ways[i].source == *id
        };
        if hit {
            assert(far_end(ways@[i as int], outgoing) == id@);
            return true;
        }
        i += 1;
    }
    false
}

proof fn lemma_step_is_end(edges: Seq<EdgeRow>, sc: Scope, a: Seq<char>, x: Seq<char>)
    ensures
        query::is_step(edges, sc, a, x) == (end_of(
            query::adjacent_rows(edges, a, true, sc),
            true,
            x,
        ) || end_of(query::adjacent_rows(edges, a, false, sc), false, x)),
{
    let outs = query::adjacent_rows(edges, a, true, sc);
    let ins = query::adjacent_rows(edges, a, false, sc);
    if query::leads_out(outs, x) {
        let k = choose|k: int| 0 <= k < outs.len() && (#[trigger] outs[k]).target@ == x;
        assert(far_end(outs[k], true) == x);
    }
    if query::leads_in(ins, x) {
        let k = choose|k: int| 0 <= k < ins.len() && (#[trigger] ins[k]).source@ == x;
        assert(far_end(ins[k], false) == x);
    }
    if end_of(outs, true, x) {
        let k = choose|k: int| 0 <= k < outs.len() && far_end(#[trigger] outs[k], true) == x;
        assert(outs[k].target@ == x);
    }
    if end_of(ins, false, x) {
        let k = choose|k: int| 0 <= k < ins.len() && far_end(#[trigger] ins[k], false) == x;
        assert(ins[k].source@ == x);
    }
}

impl GraphStore {
    /// Adds the nodes that the edges lead to and that are neighbours of the other node.
    fn take_common(
        &self,
        ways: &Vec<EdgeRow>,
        outgoing: bool,
        other_outs: &Vec<EdgeRow>,
        other_ins: &Vec<EdgeRow>,
        found: &mut Vec<GraphNode>,
    )
        requires
            gathered_ok(self.nodes@, self.edges@, old(found)@),
        ensures
            gathered_ok(self.nodes@, self.edges@, final(found)@),
            extends(old(found)@, final(found)@),
            forall|i: int|
                old(found)@.len() <= i < final(found)@.len() ==> end_of(
                    ways@,
                    outgoing,
                    (#[trigger] final(found)@[i]).id@,
                ) && (end_of(other_outs@, true, final(found)@[i].id@) || end_of(
                    other_ins@,
                    false,
                    final(found)@[i].id@,
                )),
            forall|i: int|
                0 <= i < ways@.len() && is_node(
                    self.nodes@,
                    far_end(#[trigger] ways@[i], outgoing),
                ) && (end_of(other_outs@, true, far_end(ways@[i], outgoing)) || end_of(
                    other_ins@,
                    false,
                    far_end(ways@[i], outgoing),
                )) ==> has_id(final(found)@, far_end(ways@[i], outgoing)),
    {
        let ghost start = found@;
        let mut i: usize = 0;
        assert(start.take(start.len() as int) == start);
        while i < ways.len()
            invariant
                i <= ways.len(),
                start == old(found)@,
                gathered_ok(self.nodes@, self.edges@, found@),
                extends(start, found@),
                forall|k: int|
                    start.len() <= k < found@.len() ==> end_of(
                        ways@,
                        outgoing,
                        (#[trigger] found@[k]).id@,
                    ) && (end_of(other_outs@, true, found@[k].id@) || end_of(
                        other_ins@,
                        false,
                        found@[k].id@,
                    )),
                forall|k: int|
                    0 <= k < i && is_node(
                        self.nodes@,
                        far_end(#[trigger] ways@[k], outgoing),
                    ) && (end_of(other_outs@, true, far_end(ways@[k], outgoing)) || end_of(
                        other_ins@,
                        false,
                        far_end(ways@[k], outgoing),
                    )) ==> has_id(found@, far_end(ways@[k], outgoing)),
            decreases ways.len() - i,
        {
            let id = if outgoing {
                &ways[i].target
            } else {
                &ways[i].source
            };
            assert(id@ == far_end(ways@[i as int], outgoing));
            assert(end_of(ways@, outgoing, id@));
            let ghost before = found@;
            if (ends_hold(other_outs, true, id) || ends_hold(other_ins, false, id)) && !holds_id(
                found,
                id,
            ) {
                if let Some(n) = self.counted_node(id) {
                    proof {
                        lemma_unique_ids_push(before, n);
                    }
                    let ghost pushed = n;
                    found.push(n);
                    assert(found@[before.len() as int] == pushed);
                    assert(is_counted(self.nodes@, self.edges@, found@[before.len() as int]));
                    assert(found@.take(start.len() as int) =~= start);
                    assert(found@.take(before.len() as int) =~= before);
                    assert(has_id(found@, pushed.id@));
                    assert forall|k: int|
                        0 <= k < i && is_node(
                            self.nodes@,
                            far_end(#[trigger] ways@[k], outgoing),
                        ) && (end_of(other_outs@, true, far_end(ways@[k], outgoing)) || end_of(
                            other_ins@,
                            false,
                            far_end(ways@[k], outgoing),
                        )) implies has_id(found@, far_end(ways@[k], outgoing)) by {
                        lemma_has_id_extends(before, found@, far_end(ways@[k], outgoing));
                    }
                }
            }
            i += 1;
        }
    }

    /// Adds the edges that are not there.
    fn gather_edges(&self, ways: &Vec<EdgeRow>, seen: &mut Vec<GraphEdge>)
        requires
            rows::unique(old(seen)@, edge_id()),
        ensures
            rows::unique(final(seen)@, edge_id()),
            extends(old(seen)@, final(seen)@),
            forall|i: int|
                old(seen)@.len() <= i < final(seen)@.len() ==> query::edges_of(ways@).contains(
                    #[trigger] final(seen)@[i],
                ),
            forall|i: int|
                0 <= i < ways@.len() ==> has_edge(
                    final(seen)@,
                    query::edge_of(#[trigger] ways@[i]),
                ),
    {
        self.take_edges(ways, seen);
    }

    /// What two nodes have in common: the two, their common neighbours, and the edges that
    /// connect them. Without one of the two there is nothing.
    #[verifier::rlimit(40)]
    pub fn common_neighbors(&self, a: &str, b: &str) -> (r: GraphNeighborhood)
        ensures
            is_node(self.nodes@, a@) && is_node(self.nodes@, b@) ==> is_common_ground(
                self.nodes@,
                self.edges@,
                a@,
                b@,
                r,
            ),
            !(is_node(self.nodes@, a@) && is_node(self.nodes@, b@)) ==> r.nodes@.len() == 0
                && r.edges@.len() == 0 && !r.truncated,
    {
        let ka = a.to_owned();
        let kb = b.to_owned();
        let ghost sc = path::path_scope();
        let (na, nb) = match (self.counted_node(&ka), self.counted_node(&kb)) {
            (Some(na), Some(nb)) => (na, nb),
            _ => {
                return GraphNeighborhood { nodes: Vec::new(), edges: Vec::new(), truncated: false };
            },
        };
        let mut found: Vec<GraphNode> = Vec::new();
        found.push(na);
        assert(found@[0].id@ == a@);
        let ghost one = found@;
        if ka != kb {
            proof {
                lemma_unique_ids_push(one, nb);
            }
            found.push(nb);
            assert(found@[1].id@ == b@);
        }
        let ghost pair = found@;
        assert(pair[0].id@ == a@);
        assert(pair.len() == 1 ==> a@ == b@);
        assert(has_id(pair, a@));
        assert(has_id(pair, b@)) by {
            assert(pair[pair.len() - 1].id@ == b@);
        }
        assert(gathered_ok(self.nodes@, self.edges@, pair));
        let outs_a = self.adjacent(&ka, true, None, 0, path::PATH_FANOUT);
        let ins_a = self.adjacent(&ka, false, None, 0, path::PATH_FANOUT);
        let outs_b = self.adjacent(&kb, true, None, 0, path::PATH_FANOUT);
        let ins_b = self.adjacent(&kb, false, None, 0, path::PATH_FANOUT);
        self.take_common(&outs_a, true, &outs_b, &ins_b, &mut found);
        let ghost found1 = found@;
        self.take_common(&ins_a, false, &outs_b, &ins_b, &mut found);
        let ghost all = found@;
        let mut seen: Vec<GraphEdge> = Vec::new();
        self.gather_edges(&outs_a, &mut seen);
        let ghost seen1 = seen@;
        self.gather_edges(&ins_a, &mut seen);
        let ghost seen2 = seen@;
        self.gather_edges(&outs_b, &mut seen);
        let ghost seen3 = seen@;
        self.gather_edges(&ins_b, &mut seen);
        let ghost seen4 = seen@;
        let edges = self.inner_edges(&seen, &found);
        proof {
            lemma_extends_trans(pair, found1, all);
            lemma_extends_trans(seen2, seen3, seen4);
            lemma_extends_trans(seen1, seen2, seen4);
            assert forall|x: Seq<char>| #[trigger] has_id(all, x) <==> x == a@ || x == b@ || (
            is_node(self.nodes@, x) && is_common(self.edges@, a@, b@, x)) by {
                lemma_step_is_end(self.edges@, sc, a@, x);
                lemma_step_is_end(self.edges@, sc, b@, x);
                if has_id(all, x) {
                    let i = choose|i: int| 0 <= i < all.len() && (#[trigger] all[i]).id@ == x;
                    assert(is_counted(self.nodes@, self.edges@, all[i]));
                    if i < pair.len() {
                        assert(all.take(pair.len() as int)[i] == all[i]);
                        assert(pair[i] == all[i]);
                    } else if i < found1.len() {
                        assert(all.take(found1.len() as int)[i] == all[i]);
                        assert(found1[i].id@ == x);
                    }
                }
                if x == a@ || x == b@ {
                    lemma_has_id_extends(pair, all, x);
                }
                if is_node(self.nodes@, x) && is_common(self.edges@, a@, b@, x) {
                    if end_of(outs_a@, true, x) {
                        let k = choose|k: int|
                            0 <= k < outs_a@.len() && far_end(#[trigger] outs_a@[k], true) == x;
                        assert(has_id(found1, far_end(outs_a@[k], true)));
                        lemma_has_id_extends(found1, all, x);
                    } else {
                        let k = choose|k: int|
                            0 <= k < ins_a@.len() && far_end(#[trigger] ins_a@[k], false) == x;
                        assert(has_id(all, far_end(ins_a@[k], false)));
                    }
                }
            }
            assert forall|i: int| 0 <= i < seen4.len() implies is_way(
                self.edges@,
                sc,
                a@,
                #[trigger] seen4[i],
            ) || is_way(self.edges@, sc, b@, seen4[i]) by {
                if i < seen3.len() {
                    assert(seen4.take(seen3.len() as int)[i] == seen4[i]);
                    if i < seen2.len() {
                        assert(seen3.take(seen2.len() as int)[i] == seen3[i]);
                        if i < seen1.len() {
                            assert(seen2.take(seen1.len() as int)[i] == seen2[i]);
                        }
                    }
                }
            }
            assert forall|i: int| 0 <= i < edges@.len() implies joins(all, #[trigger] edges@[i]) && (
            is_way(self.edges@, sc, a@, edges@[i]) || is_way(self.edges@, sc, b@, edges@[i])) by {
                let k = choose|k: int| 0 <= k < seen4.len() && seen4[k] == edges@[i];
            }
            assert forall|e: GraphEdge|
                joins(all, e) && (#[trigger] is_way(self.edges@, sc, a@, e) || #[trigger] is_way(
                    self.edges@,
                    sc,
                    b@,
                    e,
                )) implies has_edge(edges@, e) by {
                if query::edges_of(outs_a@).contains(e) {
                    let k = choose|k: int|
                        0 <= k < query::edges_of(outs_a@).len() && query::edges_of(outs_a@)[k] == e;
                    assert(e == query::edge_of(outs_a@[k]));
                    lemma_has_edge_extends(seen1, seen4, e);
                } else if query::edges_of(ins_a@).contains(e) {
                    let k = choose|k: int|
                        0 <= k < query::edges_of(ins_a@).len() && query::edges_of(ins_a@)[k] == e;
                    assert(e == query::edge_of(ins_a@[k]));
                    lemma_has_edge_extends(seen2, seen4, e);
                } else if query::edges_of(outs_b@).contains(e) {
                    let k = choose|k: int|
                        0 <= k < query::edges_of(outs_b@).len() && query::edges_of(outs_b@)[k] == e;
                    assert(e == query::edge_of(outs_b@[k]));
                    lemma_has_edge_extends(seen3, seen4, e);
                } else {
                    let k = choose|k: int|
                        0 <= k < query::edges_of(ins_b@).len() && query::edges_of(ins_b@)[k] == e;
                    assert(e == query::edge_of(ins_b@[k]));
                }
                let k = choose|k: int|
                    0 <= k < seen4.len() && edge_id()(#[trigger] seen4[k]) == edge_id()(e);
                assert(joins(all, seen4[k]));
                let j = choose|j: int| 0 <= j < edges@.len() && edges@[j] == seen4[k];
                assert(edge_id()(edges@[j]) == edge_id()(e));
            }
        }
        GraphNeighborhood { nodes: found, edges, truncated: false }
    }
}

} // verus!
