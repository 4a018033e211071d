//! What is done twice is as if it had been done once: bringing a file up to date, and building
//! the parts of a document.

use crate::graph::builder;
use crate::graph::chunk;
use crate::graph::chunk::{DocChunkV, PartsV};
use crate::graph::imports;
use crate::graph::links;
use crate::graph::model;
use crate::graph::model::{NodeType, Relation};
use crate::graph::store::VersionMark;
use crate::graph::views;
use crate::graph::views::{EdgeV, GraphV, NodeV};
use crate::rows;
use crate::text;
use vstd::prelude::*;

verus! {

// ---- Edges that are put one behind the other

/// A graph of edges alone.
spec fn of_edges(edges: Seq<EdgeV>) -> GraphV {
    GraphV { nodes: Seq::empty(), edges, version: VersionMark::Unset }
}

/// The edges with one of full weight put to them.
spec fn put_one(
    edges: Seq<EdgeV>,
    k: (Seq<char>, Seq<char>, Relation),
    conf: u32,
    sid: Seq<char>,
    now: i64,
) -> Seq<EdgeV> {
    views::put_edge(of_edges(edges), k.0, k.1, k.2, model::WHOLE, conf, Some(sid), now).edges
}

spec fn put_all(
    edges: Seq<EdgeV>,
    ks: Seq<(Seq<char>, Seq<char>, Relation)>,
    conf: u32,
    sid: Seq<char>,
    now: i64,
) -> Seq<EdgeV>
    decreases ks.len(),
{
    if ks.len() == 0 {
        edges
    } else {
        put_one(put_all(edges, ks.drop_last(), conf, sid, now), ks.last(), conf, sid, now)
    }
}

/// An edge as it is when it is new.
spec fn fresh(k: (Seq<char>, Seq<char>, Relation), conf: u32, sid: Seq<char>, now: i64) -> EdgeV {
    EdgeV {
        source: k.0,
        target: k.1,
        relation: k.2,
        weight: model::WHOLE,
        confidence: conf,
        source_id: Some(sid),
        created_at: now,
        updated_at: now,
    }
}

/// Whether putting an edge again does not change it.
spec fn is_firm(e: EdgeV, conf: u32, now: i64) -> bool {
    e.weight == model::WHOLE && e.confidence >= conf && e.updated_at == now
}

spec fn is_firm_at(
    edges: Seq<EdgeV>,
    k: (Seq<char>, Seq<char>, Relation),
    conf: u32,
    now: i64,
) -> bool {
    views::find_edge(edges, k.0, k.1, k.2) matches Some(x) && is_firm(edges[x], conf, now)
}

/// Whether two edges join the same nodes and are made from the same.
spec fn same_origin(a: EdgeV, b: EdgeV) -> bool {
    a.source == b.source && a.target == b.target && a.relation == b.relation && a.source_id
        == b.source_id
}

proof fn lemma_same_keys(
    a: Seq<EdgeV>,
    b: Seq<EdgeV>,
    k: (Seq<char>, Seq<char>, Relation),
)
    requires
        a.len() == b.len(),
        forall|i: int| 0 <= i < a.len() ==> views::ev_key()(#[trigger] a[i]) == views::ev_key()(b[i]),
    ensures
        views::find_edge(a, k.0, k.1, k.2) == views::find_edge(b, k.0, k.1, k.2),
{
    rows::lemma_row_index(a, views::ev_key(), k, 0);
    rows::lemma_row_index(b, views::ev_key(), k, 0);
    match views::find_edge(a, k.0, k.1, k.2) {
        Some(x) => {
            assert(views::ev_key()(b[x]) == k);
            match views::find_edge(b, k.0, k.1, k.2) {
                Some(y) => {
                    if y < x {
                        assert(views::ev_key()(a[y]) == k);
                    }
                },
                None => {},
            }
        },
        None => {
            match views::find_edge(b, k.0, k.1, k.2) {
                Some(y) => {
                    assert(views::ev_key()(a[y]) == k);
                },
                None => {},
            }
        },
    }
}

/// Where an edge is that is put to others.
proof fn lemma_put_one(
    edges: Seq<EdgeV>,
    k: (Seq<char>, Seq<char>, Relation),
    conf: u32,
    sid: Seq<char>,
    now: i64,
)
    ensures
        ({
            let t = put_one(edges, k, conf, sid, now);
            match views::find_edge(edges, k.0, k.1, k.2) {
                Some(x) => {
                    &&& 0 <= x < edges.len() == t.len()
                    &&& views::ev_key()(edges[x]) == k
                    &&& same_origin(t[x], edges[x])
                    &&& is_firm(t[x], conf, now)
                    &&& is_firm(edges[x], conf, now) ==> t == edges
                    &&& forall|i: int|
                        0 <= i < t.len() && i != x ==> #[trigger] t[i] == edges[i]
                },
                None => t == edges.push(fresh(k, conf, sid, now)),
            }
        }),
        is_firm_at(put_one(edges, k, conf, sid, now), k, conf, now),
{
    let t = put_one(edges, k, conf, sid, now);
    rows::lemma_row_index(edges, views::ev_key(), k, 0);
    rows::lemma_row_index(t, views::ev_key(), k, 0);
    match views::find_edge(edges, k.0, k.1, k.2) {
        Some(x) => {
            if is_firm(edges[x], conf, now) {
                assert(t =~= edges);
            }
            assert(views::ev_key()(t[x]) == k);
            let y = views::find_edge(t, k.0, k.1, k.2)->0;
            if y < x {
                assert(t[y] == edges[y]);
            }
        },
        None => {
            assert(t[edges.len() as int] == fresh(k, conf, sid, now));
            assert(views::ev_key()(t[edges.len() as int]) == k);
            let y = views::find_edge(t, k.0, k.1, k.2)->0;
            if y < edges.len() {
                assert(t[y] == edges[y]);
            }
        },
    }
}

/// An edge that is firm stays so.
proof fn lemma_stays_firm(
    edges: Seq<EdgeV>,
    j: (Seq<char>, Seq<char>, Relation),
    k: (Seq<char>, Seq<char>, Relation),
    conf: u32,
    sid: Seq<char>,
    now: i64,
)
    requires
        is_firm_at(edges, j, conf, now),
    ensures
        is_firm_at(put_one(edges, k, conf, sid, now), j, conf, now),
{
    let t = put_one(edges, k, conf, sid, now);
    lemma_put_one(edges, k, conf, sid, now);
    rows::lemma_row_index(edges, views::ev_key(), j, 0);
    rows::lemma_row_index(t, views::ev_key(), j, 0);
    let x = views::find_edge(edges, j.0, j.1, j.2)->0;
    assert(views::ev_key()(t[x]) == j);
    let y = views::find_edge(t, j.0, j.1, j.2)->0;
    if y < x {
        assert(views::ev_key()(t[y]) == views::ev_key()(edges[y]));
    }
}

/// What putting edges does: those that were there are still there and in their places, those
/// that are not meant as they were; new ones come behind them.
proof fn lemma_put_all(
    base: Seq<EdgeV>,
    ks: Seq<(Seq<char>, Seq<char>, Relation)>,
    conf: u32,
    sid: Seq<char>,
    now: i64,
)
    ensures
        ({
            let t = put_all(base, ks, conf, sid, now);
            &&& t.len() >= base.len()
            &&& forall|i: int| 0 <= i < base.len() ==> same_origin(#[trigger] t[i], base[i])
            &&& forall|i: int|
                0 <= i < base.len() && !ks.contains(views::ev_key()(base[i]))
                    ==> #[trigger] t[i] == base[i]
            &&& forall|i: int|
                base.len() <= i < t.len() ==> ks.contains(views::ev_key()(#[trigger] t[i]))
                    && t[i] == fresh(views::ev_key()(t[i]), conf, sid, now)
            &&& forall|j: int| 0 <= j < ks.len() ==> is_firm_at(t, #[trigger] ks[j], conf, now)
        }),
    decreases ks.len(),
{
    if ks.len() > 0 {
        let init = ks.drop_last();
        let k = ks.last();
        let s = put_all(base, init, conf, sid, now);
        let t = put_all(base, ks, conf, sid, now);
        lemma_put_all(base, init, conf, sid, now);
        lemma_put_one(s, k, conf, sid, now);
        assert(ks[ks.len() - 1] == k);
        assert forall|x: (Seq<char>, Seq<char>, Relation)| init.contains(x) implies ks.contains(
            x,
        ) by {
            let j = choose|j: int| 0 <= j < init.len() && init[j] == x;
            assert(ks[j] == x);
        }
        assert forall|i: int| 0 <= i < base.len() implies same_origin(#[trigger] t[i], base[i]) by {
            assert(same_origin(s[i], base[i]));
        }
        assert forall|i: int|
            0 <= i < base.len() && !ks.contains(
                views::ev_key()(base[i]),
            ) implies #[trigger] t[i] == base[i] by {
            assert(same_origin(s[i], base[i]));
            assert(s[i] == base[i]);
        }
        assert forall|i: int| base.len() <= i < t.len() implies ks.contains(
            views::ev_key()(#[trigger] t[i]),
        ) && t[i] == fresh(views::ev_key()(t[i]), conf, sid, now) by {
            if i < s.len() {
                assert(s[i] == fresh(views::ev_key()(s[i]), conf, sid, now));
                assert(is_firm(s[i], conf, now));
                if t[i] != s[i] {
                    assert(t == s);
                }
            }
        }
        assert forall|j: int| 0 <= j < ks.len() implies is_firm_at(
            t,
            #[trigger] ks[j],
            conf,
            now,
        ) by {
            if j < init.len() {
                assert(is_firm_at(s, init[j], conf, now));
                lemma_stays_firm(s, init[j], k, conf, sid, now);
            }
        }
    }
}

/// Putting edges again, to what is left of the earlier ones, puts the same ones again.
proof fn lemma_put_again(
    base: Seq<EdgeV>,
    all: Seq<EdgeV>,
    ks: Seq<(Seq<char>, Seq<char>, Relation)>,
    conf: u32,
    sid: Seq<char>,
    now: i64,
)
    requires
        all.len() >= base.len(),
        forall|i: int| 0 <= i < base.len() ==> same_origin(#[trigger] all[i], base[i]),
        forall|j: int| 0 <= j < ks.len() ==> is_firm_at(all, #[trigger] ks[j], conf, now),
    ensures
        ({
            let b = base.len() as int;
            put_all(all.take(b), ks, conf, sid, now) == all.take(b) + put_all(
                base,
                ks,
                conf,
                sid,
                now,
            ).skip(b)
        }),
    decreases ks.len(),
{
    let b = base.len() as int;
    let front = all.take(b);
    if ks.len() == 0 {
        assert(front + base.skip(b) =~= front);
    } else {
        let init = ks.drop_last();
        let k = ks.last();
        assert forall|j: int| 0 <= j < init.len() implies is_firm_at(
            all,
            #[trigger] init[j],
            conf,
            now,
        ) by {
            assert(is_firm_at(all, ks[j], conf, now));
        }
        lemma_put_again(base, all, init, conf, sid, now);
        lemma_put_all(base, init, conf, sid, now);
        let s = put_all(base, init, conf, sid, now);
        let t = put_all(base, ks, conf, sid, now);
        let u = front + s.skip(b);
        assert(u == put_all(front, init, conf, sid, now));
        assert(u.len() == s.len());
        assert forall|i: int| 0 <= i < u.len() implies views::ev_key()(#[trigger] u[i])
            == views::ev_key()(s[i]) by {
            if i < b {
                assert(u[i] == all[i]);
                assert(same_origin(all[i], base[i]));
                assert(same_origin(s[i], base[i]));
            }
        }
        lemma_same_keys(u, s, k);
        lemma_put_one(s, k, conf, sid, now);
        lemma_put_one(u, k, conf, sid, now);
        assert(ks[ks.len() - 1] == k);
        assert(is_firm_at(all, k, conf, now));
        match views::find_edge(s, k.0, k.1, k.2) {
            Some(x) => {
                if x < b {
                    // The edge that is meant is the same one in the end.
                    rows::lemma_row_index(all, views::ev_key(), k, 0);
                    rows::lemma_row_index(u, views::ev_key(), k, 0);
                    let y = views::find_edge(all, k.0, k.1, k.2)->0;
                    assert(u[x] == all[x]);
                    if y < x {
                        assert(u[y] == all[y]);
                    }
                    assert(x == y);
                    assert(is_firm(u[x], conf, now));
                    assert(t.skip(b) =~= s.skip(b));
                } else {
                    assert(u[x] == s[x]);
                    assert(s[x] == fresh(views::ev_key()(s[x]), conf, sid, now));
                    assert(is_firm(s[x], conf, now));
                }
                assert(front + t.skip(b) =~= u);
            },
            None => {
                assert(front + t.skip(b) =~= u.push(fresh(k, conf, sid, now)));
            },
        }
    }
}

/// Putting edges to what is left without those that were put gives the same edges.
proof fn lemma_put_twice(
    base: Seq<EdgeV>,
    ks: Seq<(Seq<char>, Seq<char>, Relation)>,
    conf: u32,
    sid: Seq<char>,
    now: i64,
)
    ensures
        ({
            let t = put_all(base, ks, conf, sid, now);
            put_all(t.take(base.len() as int), ks, conf, sid, now) == t
        }),
{
    let b = base.len() as int;
    let t = put_all(base, ks, conf, sid, now);
    lemma_put_all(base, ks, conf, sid, now);
    lemma_put_again(base, t, ks, conf, sid, now);
    assert(t.take(b) + t.skip(b) =~= t);
}

// ---- Files

/// The edges that the first `n` targets of a document's links stand for.
spec fn target_keys(
    rel: Seq<char>,
    targets: Seq<Seq<char>>,
    files: Seq<Seq<char>>,
    n: int,
) -> Seq<(Seq<char>, Seq<char>, Relation)>
    decreases n,
{
    if n <= 0 {
        Seq::empty()
    } else {
        let before = target_keys(rel, targets, files, n - 1);
        match links::resolved(targets[n - 1], rel, files) {
            Some(dst) => if dst == rel {
                before
            } else {
                before.push((builder::doc_id(rel), builder::doc_id(dst), Relation::References))
            },
            None => before,
        }
    }
}

proof fn lemma_targets_are_put(
    g: GraphV,
    rel: Seq<char>,
    targets: Seq<Seq<char>>,
    files: Seq<Seq<char>>,
    n: int,
    now: i64,
)
    ensures
        builder::with_targets(g, rel, targets, files, n, now).nodes == g.nodes,
        builder::with_targets(g, rel, targets, files, n, now).edges == put_all(
            g.edges,
            target_keys(rel, targets, files, n),
            model::WHOLE,
            builder::doc_id(rel),
            now,
        ),
    decreases n,
{
    if n > 0 {
        lemma_targets_are_put(g, rel, targets, files, n - 1, now);
        let before = target_keys(rel, targets, files, n - 1);
        match links::resolved(targets[n - 1], rel, files) {
            Some(dst) => if dst != rel {
                let k = (builder::doc_id(rel), builder::doc_id(dst), Relation::References);
                assert(before.push(k).drop_last() =~= before);
            },
            None => {},
        }
    }
}

/// A node that was put is not changed by putting it again.
proof fn lemma_put_node_twice(g: GraphV, x: NodeV, h: GraphV, now: i64)
    requires
        h.nodes == views::put_node(g, x, now).nodes,
    ensures
        views::put_node(h, x, now).nodes == h.nodes,
{
    rows::lemma_row_index(g.nodes, views::nv_key(), x.id, 0);
    rows::lemma_row_index(h.nodes, views::nv_key(), x.id, 0);
    let at = match views::find_node(g.nodes, x.id) {
        Some(i) => i,
        None => g.nodes.len() as int,
    };
    assert(views::nv_key()(h.nodes[at]) == x.id);
    let y = views::find_node(h.nodes, x.id)->0;
    if y < at {
        assert(h.nodes[y] == g.nodes[y]);
    }
    assert(views::put_node(h, x, now).nodes =~= h.nodes);
}

proof fn lemma_doc_is_no_folder(a: Seq<char>, b: Seq<char>)
    ensures
        builder::doc_id(a) != builder::folder_id(b),
{
    reveal_strlit("doc");
    reveal_strlit("folder");
    assert(builder::doc_id(a)[0] == 'd');
    assert(builder::folder_id(b)[0] == 'f');
}

/// Bringing a file up to date again, with nothing changed, leaves the graph as it is. Of the
/// edges made from the file none may say that a directory contains it.
pub proof fn law_a_file_is_up_to_date_at_once(
    g: GraphV,
    rel: Seq<char>,
    content: Option<Seq<char>>,
    now: i64,
)
    requires
        forall|i: int|
            0 <= i < g.edges.len() && (#[trigger] g.edges[i]).source_id == Some(
                builder::doc_id(rel),
            ) ==> g.edges[i].relation != Relation::Contains,
    ensures
        ({
            let once = builder::with_file(g, rel, content, now);
            let twice = builder::with_file(once, rel, content, now);
            twice.nodes == once.nodes && twice.edges == once.edges
        }),
{
    let id = builder::doc_id(rel);
    let p = views::not_made_from(id);
    let doc = builder::with_doc(g, rel, now);
    let bare = views::fewer_edges(doc, p);
    let once = builder::with_file(g, rel, content, now);
    let files = builder::paths_in(bare.nodes, bare.nodes.len() as int);
    let ks = if content is Some && links::has_links(rel) {
        target_keys(
            rel,
            builder::targets_in(content->0),
            files,
            builder::targets_in(content->0).len() as int,
        )
    } else {
        Seq::empty()
    };
    if content is Some && links::has_links(rel) {
        let ts = builder::targets_in(content->0);
        lemma_targets_are_put(bare, rel, ts, files, ts.len() as int, now);
    }
    assert(once.nodes == doc.nodes);
    assert(once.edges == put_all(bare.edges, ks, model::WHOLE, id, now));
    lemma_put_all(bare.edges, ks, model::WHOLE, id, now);
    lemma_put_twice(bare.edges, ks, model::WHOLE, id, now);
    rows::lemma_kept(doc.edges, p);
    // The node and the edge from its directory are there and as they will be.
    let again = builder::with_doc(once, rel, now);
    lemma_put_node_twice(g, builder::doc_node(rel), once, now);
    if let Some(dir) = links::parent_of(rel) {
        let k = (builder::folder_id(dir), id, Relation::Contains);
        lemma_doc_is_no_folder(rel, dir);
        assert(doc.edges == put_one(g.edges, k, model::WHOLE, builder::folder_id(dir), now));
        lemma_put_one(g.edges, k, model::WHOLE, builder::folder_id(dir), now);
        rows::lemma_row_index(doc.edges, views::ev_key(), k, 0);
        let x = views::find_edge(doc.edges, k.0, k.1, k.2)->0;
        match views::find_edge(g.edges, k.0, k.1, k.2) {
            Some(y) => {
                rows::lemma_row_index(g.edges, views::ev_key(), k, 0);
                if x < y {
                    assert(doc.edges[x] == g.edges[x]);
                }
                assert(views::ev_key()(doc.edges[y]) == k);
                assert(x == y);
                assert(g.edges[y].relation == Relation::Contains);
            },
            None => {
                rows::lemma_row_index(g.edges, views::ev_key(), k, 0);
                if x < g.edges.len() {
                    assert(doc.edges[x] == g.edges[x]);
                }
            },
        }
        assert(p(doc.edges[x]));
        rows::lemma_kept_find(doc.edges, views::ev_key(), k, p);
        assert(is_firm_at(bare.edges, k, model::WHOLE, now));
        lemma_firm_through(bare.edges, k, ks, id, now);
        assert(again.edges == put_one(once.edges, k, model::WHOLE, builder::folder_id(dir), now));
        lemma_put_one(once.edges, k, model::WHOLE, builder::folder_id(dir), now);
    }
    assert(again.nodes == once.nodes);
    assert(again.edges == once.edges);
    // Without what is made from the file the edges are those of before, but firm.
    let b = bare.edges.len() as int;
    let front = once.edges.take(b);
    let new = once.edges.skip(b);
    assert(front + new =~= once.edges);
    rows::lemma_kept_concat(front, new, p);
    assert forall|i: int| 0 <= i < front.len() implies p(#[trigger] front[i]) by {
        assert(same_origin(once.edges[i], bare.edges[i]));
        assert(p(bare.edges[i]));
    }
    assert forall|i: int| 0 <= i < new.len() implies !p(#[trigger] new[i]) by {
        assert(new[i] == once.edges[b + i]);
    }
    rows::lemma_keep_all(front, p);
    rows::lemma_keep_none(new, p);
    let bare2 = views::fewer_edges(again, p);
    assert(bare2.edges =~= front);
    if content is Some && links::has_links(rel) {
        let ts = builder::targets_in(content->0);
        lemma_targets_are_put(bare2, rel, ts, files, ts.len() as int, now);
    }
}

/// An edge that is firm stays so while others are put.
proof fn lemma_firm_through(
    base: Seq<EdgeV>,
    k: (Seq<char>, Seq<char>, Relation),
    ks: Seq<(Seq<char>, Seq<char>, Relation)>,
    sid: Seq<char>,
    now: i64,
)
    requires
        is_firm_at(base, k, model::WHOLE, now),
    ensures
        is_firm_at(put_all(base, ks, model::WHOLE, sid, now), k, model::WHOLE, now),
    decreases ks.len(),
{
    if ks.len() > 0 {
        lemma_firm_through(base, k, ks.drop_last(), sid, now);
        lemma_stays_firm(
            put_all(base, ks.drop_last(), model::WHOLE, sid, now),
            k,
            ks.last(),
            model::WHOLE,
            sid,
            now,
        );
    }
}

// ---- Parts

/// Whether nothing of the graph has to do with the ids of a document's parts.
spec fn is_clear(g: GraphV, rel: Seq<char>, cs: Seq<DocChunkV>) -> bool {
    &&& forall|i: int|
        0 <= i < g.nodes.len() ==> !chunk::is_part_id(
            rel,
            cs,
            cs.len() as int,
            (#[trigger] g.nodes[i]).id,
        )
    &&& forall|i: int|
        0 <= i < g.edges.len() ==> !chunk::is_part_id(
            rel,
            cs,
            cs.len() as int,
            (#[trigger] g.edges[i]).source,
        ) && !chunk::is_part_id(rel, cs, cs.len() as int, g.edges[i].target)
}

/// The parts of a document by themselves.
spec fn parts_alone(rel: Seq<char>, cs: Seq<DocChunkV>, n: int, now: i64) -> PartsV {
    chunk::with_chunks(of_edges(Seq::empty()), rel, cs, n, now)
}

/// What the parts of a document are by themselves: its nodes, and edges that lead to them.
spec fn are_parts(b: PartsV, rel: Seq<char>, cs: Seq<DocChunkV>) -> bool {
    &&& forall|i: int|
        0 <= i < b.g.nodes.len() ==> views::is_part(rel)(#[trigger] b.g.nodes[i])
            && chunk::is_part_id(rel, cs, cs.len() as int, b.g.nodes[i].id)
    &&& forall|i: int|
        0 <= i < b.g.edges.len() ==> (#[trigger] b.g.edges[i]).relation == Relation::Contains
            && has_id(b.g.nodes, b.g.edges[i].target)
}

spec fn has_id(nodes: Seq<NodeV>, id: Seq<char>) -> bool {
    exists|i: int| 0 <= i < nodes.len() && (#[trigger] nodes[i]).id == id
}

/// Whether `b` stands behind `a` in a graph.
spec fn is_behind(g: GraphV, a: GraphV, b: GraphV) -> bool {
    g.nodes == a.nodes + b.nodes && g.edges == a.edges + b.edges
}

proof fn lemma_put_node_behind(g: GraphV, a: GraphV, b: GraphV, x: NodeV, now: i64)
    requires
        is_behind(g, a, b),
        views::find_node(a.nodes, x.id) is None,
    ensures
        is_behind(views::put_node(g, x, now), a, views::put_node(b, x, now)),
        has_id(views::put_node(b, x, now).nodes, x.id),
{
    lemma_index_behind(a.nodes, b.nodes, views::nv_key(), x.id);
    rows::lemma_row_index(b.nodes, views::nv_key(), x.id, 0);
    let t = views::put_node(b, x, now).nodes;
    match views::find_node(b.nodes, x.id) {
        Some(i) => {
            assert(t[i].id == x.id);
        },
        None => {
            assert(t[b.nodes.len() as int].id == x.id);
        },
    }
    assert(views::put_node(g, x, now).nodes =~= a.nodes + t);
}

proof fn lemma_put_edge_behind(
    g: GraphV,
    a: GraphV,
    b: GraphV,
    k: (Seq<char>, Seq<char>, Relation),
    sid: Seq<char>,
    now: i64,
)
    requires
        is_behind(g, a, b),
        views::find_edge(a.edges, k.0, k.1, k.2) is None,
    ensures
        is_behind(
            views::put_whole_edge(g, k.0, k.1, k.2, sid, now),
            a,
            views::put_whole_edge(b, k.0, k.1, k.2, sid, now),
        ),
{
    lemma_index_behind(a.edges, b.edges, views::ev_key(), k);
    rows::lemma_row_index(b.edges, views::ev_key(), k, 0);
    assert(views::put_whole_edge(g, k.0, k.1, k.2, sid, now).edges =~= a.edges
        + views::put_whole_edge(b, k.0, k.1, k.2, sid, now).edges);
}

proof fn lemma_index_behind<T, K>(a: Seq<T>, b: Seq<T>, key: spec_fn(T) -> K, k: K)
    requires
        rows::row_index(a, key, k, 0) is None,
    ensures
        rows::row_index(a + b, key, k, 0) == (match rows::row_index(b, key, k, 0) {
            Some(i) => Some(a.len() + i),
            None => None::<int>,
        }),
{
    let all = a + b;
    rows::lemma_row_index(a, key, k, 0);
    rows::lemma_row_index(b, key, k, 0);
    rows::lemma_row_index(all, key, k, 0);
    match rows::row_index(b, key, k, 0) {
        Some(i) => {
            assert(all[a.len() + i] == b[i]);
            let y = rows::row_index(all, key, k, 0)->0;
            if y < a.len() {
                assert(all[y] == a[y]);
            } else if y < a.len() + i {
                assert(all[y] == b[y - a.len()]);
            }
        },
        None => {
            match rows::row_index(all, key, k, 0) {
                Some(y) => {
                    if y < a.len() {
                        assert(all[y] == a[y]);
                    } else {
                        assert(all[y] == b[y - a.len()]);
                    }
                },
                None => {},
            }
        },
    }
}

/// A part is put behind what is there, with the edge that leads to it.
proof fn lemma_part_behind(
    g: GraphV,
    a: GraphV,
    b: PartsV,
    x: NodeV,
    rel: Seq<char>,
    cs: Seq<DocChunkV>,
    now: i64,
)
    requires
        is_clear(a, rel, cs),
        is_behind(g, a, b.g),
        are_parts(b, rel, cs),
        chunk::is_part_id(rel, cs, cs.len() as int, x.id),
        x.path == Some(rel),
        x.node_type == NodeType::Chunk || x.node_type == NodeType::Section,
    ensures
        is_behind(views::put_node(g, x, now), a, views::put_node(b.g, x, now)),
        are_parts(PartsV { g: views::put_node(b.g, x, now), ..b }, rel, cs),
        has_id(views::put_node(b.g, x, now).nodes, x.id),
{
    rows::lemma_row_index(a.nodes, views::nv_key(), x.id, 0);
    rows::lemma_row_index(b.g.nodes, views::nv_key(), x.id, 0);
    lemma_put_node_behind(g, a, b.g, x, now);
    let t = views::put_node(b.g, x, now);
    assert forall|i: int| 0 <= i < t.nodes.len() implies views::is_part(rel)(#[trigger] t.nodes[i])
        && chunk::is_part_id(rel, cs, cs.len() as int, t.nodes[i].id) by {
        if i < b.g.nodes.len() && t.nodes[i] == b.g.nodes[i] {
            assert(views::is_part(rel)(b.g.nodes[i]));
        }
    }
    assert forall|i: int| 0 <= i < t.edges.len() implies (#[trigger] t.edges[i]).relation
        == Relation::Contains && has_id(t.nodes, t.edges[i].target) by {
        let j = choose|j: int|
            0 <= j < b.g.nodes.len() && (#[trigger] b.g.nodes[j]).id == b.g.edges[i].target;
        assert(t.nodes[j].id == b.g.nodes[j].id);
    }
}

/// An edge that leads to a part is put behind what is there.
proof fn lemma_contains_behind(
    g: GraphV,
    a: GraphV,
    b: PartsV,
    from: Seq<char>,
    to: Seq<char>,
    sid: Seq<char>,
    rel: Seq<char>,
    cs: Seq<DocChunkV>,
    now: i64,
)
    requires
        is_clear(a, rel, cs),
        is_behind(g, a, b.g),
        are_parts(b, rel, cs),
        chunk::is_part_id(rel, cs, cs.len() as int, to),
        has_id(b.g.nodes, to),
    ensures
        is_behind(
            views::put_whole_edge(g, from, to, Relation::Contains, sid, now),
            a,
            views::put_whole_edge(b.g, from, to, Relation::Contains, sid, now),
        ),
        are_parts(
            PartsV {
                g: views::put_whole_edge(b.g, from, to, Relation::Contains, sid, now),
                ..b
            },
            rel,
            cs,
        ),
{
    let k = (from, to, Relation::Contains);
    rows::lemma_row_index(a.edges, views::ev_key(), k, 0);
    rows::lemma_row_index(b.g.edges, views::ev_key(), k, 0);
    match views::find_edge(a.edges, k.0, k.1, k.2) {
        Some(x) => {
            assert(a.edges[x].target == to);
        },
        None => {},
    }
    lemma_put_edge_behind(g, a, b.g, k, sid, now);
    let t = views::put_whole_edge(b.g, from, to, Relation::Contains, sid, now);
    assert forall|i: int| 0 <= i < t.edges.len() implies (#[trigger] t.edges[i]).relation
        == Relation::Contains && has_id(t.nodes, t.edges[i].target) by {
        if i < b.g.edges.len() {
            assert(b.g.edges[i].relation == Relation::Contains);
            assert(t.edges[i].target == b.g.edges[i].target);
        }
    }
}

/// The parts of a document come behind what is there, and are what they are by themselves.
proof fn lemma_parts_behind(a: GraphV, rel: Seq<char>, cs: Seq<DocChunkV>, n: int, now: i64)
    requires
        0 <= n <= cs.len(),
        is_clear(a, rel, cs),
    ensures
        is_behind(chunk::with_chunks(a, rel, cs, n, now).g, a, parts_alone(rel, cs, n, now).g),
        chunk::with_chunks(a, rel, cs, n, now).sections == parts_alone(rel, cs, n, now).sections,
        are_parts(parts_alone(rel, cs, n, now), rel, cs),
    decreases n,
{
    if n <= 0 {
        assert(a.nodes + Seq::<NodeV>::empty() =~= a.nodes);
        assert(a.edges + Seq::<EdgeV>::empty() =~= a.edges);
    } else {
        lemma_parts_behind(a, rel, cs, n - 1, now);
        let all = chunk::with_chunks(a, rel, cs, n - 1, now);
        let own = parts_alone(rel, cs, n - 1, now);
        let c = cs[n - 1];
        let idx = (n - 1) as nat;
        let id = builder::doc_id(rel);
        let cid = chunk::chunk_id(rel, idx);
        let x = chunk::chunk_node(rel, c, idx);
        assert(chunk::is_id_of(rel, cs[n - 1], idx, cid));
        assert(chunk::is_part_id(rel, cs, cs.len() as int, cid));
        lemma_part_behind(all.g, a, own, x, rel, cs, now);
        let all1 = PartsV { g: views::put_node(all.g, x, now), ..all };
        let own1 = PartsV { g: views::put_node(own.g, x, now), ..own };
        if c.path.len() > 0 {
            let sid = chunk::section_id(rel, c.path);
            assert(chunk::is_id_of(rel, cs[n - 1], idx, sid));
            assert(chunk::is_part_id(rel, cs, cs.len() as int, sid));
            let all2 = chunk::with_section(all1, rel, c.path, now);
            let own2 = chunk::with_section(own1, rel, c.path, now);
            if !own1.sections.contains(sid) {
                let y = chunk::section_node(rel, c.path);
                lemma_part_behind(all1.g, a, own1, y, rel, cs, now);
                let all3 = views::put_node(all1.g, y, now);
                let own3 = PartsV { g: views::put_node(own1.g, y, now), ..own1 };
                lemma_contains_behind(all3, a, own3, id, sid, id, rel, cs, now);
                lemma_still_there(own1.g, y, cid, now);
            }
            lemma_contains_behind(all2.g, a, own2, sid, cid, id, rel, cs, now);
        } else {
            lemma_contains_behind(all1.g, a, own1, id, cid, id, rel, cs, now);
        }
    }
}

proof fn lemma_still_there(b: GraphV, y: NodeV, id: Seq<char>, now: i64)
    requires
        has_id(b.nodes, id),
    ensures
        has_id(views::put_node(b, y, now).nodes, id),
{
    rows::lemma_row_index(b.nodes, views::nv_key(), y.id, 0);
    let j = choose|j: int| 0 <= j < b.nodes.len() && (#[trigger] b.nodes[j]).id == id;
    assert(views::put_node(b, y, now).nodes[j].id == id);
}

/// The edges that the first `n` imports of a document stand for.
spec fn import_keys(
    nodes: Seq<NodeV>,
    rel: Seq<char>,
    names: Seq<Seq<char>>,
    files: Seq<Seq<char>>,
    n: int,
) -> Seq<(Seq<char>, Seq<char>, Relation)>
    decreases n,
{
    if n <= 0 {
        Seq::empty()
    } else {
        let before = import_keys(nodes, rel, names, files, n - 1);
        match imports::import_target(names[n - 1], files) {
            Some(dst) => if dst == rel || views::find_node(nodes, builder::doc_id(dst)) is None {
                before
            } else {
                before.push((builder::doc_id(rel), builder::doc_id(dst), Relation::Imports))
            },
            None => before,
        }
    }
}

proof fn lemma_imports_are_put(
    g: GraphV,
    rel: Seq<char>,
    names: Seq<Seq<char>>,
    files: Seq<Seq<char>>,
    n: int,
    now: i64,
)
    ensures
        chunk::with_imports(g, rel, names, files, n, now).nodes == g.nodes,
        chunk::with_imports(g, rel, names, files, n, now).edges == put_all(
            g.edges,
            import_keys(g.nodes, rel, names, files, n),
            chunk::IMPORT_CONFIDENCE,
            builder::doc_id(rel),
            now,
        ),
        forall|i: int|
            0 <= i < import_keys(g.nodes, rel, names, files, n).len() ==> is_import_key(
                #[trigger] import_keys(g.nodes, rel, names, files, n)[i],
                rel,
            ),
    decreases n,
{
    if n > 0 {
        lemma_imports_are_put(g, rel, names, files, n - 1, now);
        let before = import_keys(g.nodes, rel, names, files, n - 1);
        match imports::import_target(names[n - 1], files) {
            Some(dst) => if dst != rel && views::find_node(g.nodes, builder::doc_id(dst)) is Some {
                let k = (builder::doc_id(rel), builder::doc_id(dst), Relation::Imports);
                assert(before.push(k).drop_last() =~= before);
                assert(k.1 == builder::doc_id(dst));
                assert(is_import_key(k, rel));
            },
            None => {},
        }
    }
}

spec fn is_import_key(k: (Seq<char>, Seq<char>, Relation), rel: Seq<char>) -> bool {
    k.0 == builder::doc_id(rel) && k.2 == Relation::Imports && exists|dst: Seq<char>|
        k.1 == #[trigger] builder::doc_id(dst)
}

proof fn lemma_doc_is_no_part(a: Seq<char>, rel: Seq<char>, cs: Seq<DocChunkV>)
    ensures
        !chunk::is_part_id(rel, cs, cs.len() as int, builder::doc_id(a)),
{
    reveal_strlit("doc");
    reveal_strlit("chunk:");
    reveal_strlit("section:");
    let id = builder::doc_id(a);
    assert(id[0] == 'd');
    assert forall|k: int| 0 <= k < cs.len() implies !chunk::is_id_of(
        rel,
        #[trigger] cs[k],
        k as nat,
        id,
    ) by {
        assert(chunk::chunk_id(rel, k as nat)[0] == 'c');
        assert(chunk::section_id(rel, cs[k].path)[0] == 's');
    }
}

/// Whether the parts of a document can be told from all else: no other node has an id of
/// theirs, and no edge leads to or from such an id without the part.
pub open spec fn is_apart(g: GraphV, rel: Seq<char>, cs: Seq<DocChunkV>) -> bool {
    &&& forall|i: int|
        0 <= i < g.nodes.len() && chunk::is_part_id(
            rel,
            cs,
            cs.len() as int,
            (#[trigger] g.nodes[i]).id,
        ) ==> views::is_part(rel)(g.nodes[i])
    &&& forall|i: int|
        0 <= i < g.edges.len() && chunk::is_part_id(
            rel,
            cs,
            cs.len() as int,
            (#[trigger] g.edges[i]).source,
        ) ==> has_part(g, rel, g.edges[i].source)
    &&& forall|i: int|
        0 <= i < g.edges.len() && chunk::is_part_id(
            rel,
            cs,
            cs.len() as int,
            (#[trigger] g.edges[i]).target,
        ) ==> has_part(g, rel, g.edges[i].target)
}

pub open spec fn has_part(g: GraphV, rel: Seq<char>, id: Seq<char>) -> bool {
    exists|i: int|
        0 <= i < g.nodes.len() && (#[trigger] g.nodes[i]).id == id && views::is_part(rel)(
            g.nodes[i],
        )
}

proof fn lemma_bare_is_clear(g: GraphV, rel: Seq<char>, cs: Seq<DocChunkV>)
    requires
        is_apart(g, rel, cs),
    ensures
        is_clear(views::without_parts(g, rel), rel, cs),
{
    let bare = views::without_parts(g, rel);
    let gone = rows::kept(g.nodes, views::is_part(rel));
    let n = cs.len() as int;
    rows::lemma_kept(g.nodes, views::is_no_part(rel));
    rows::lemma_kept(g.nodes, views::is_part(rel));
    rows::lemma_kept(g.edges, views::at_none(gone));
    assert forall|i: int| 0 <= i < bare.nodes.len() implies !chunk::is_part_id(
        rel,
        cs,
        n,
        (#[trigger] bare.nodes[i]).id,
    ) by {
        assert(views::is_no_part(rel)(bare.nodes[i]));
        let k = choose|k: int| 0 <= k < g.nodes.len() && g.nodes[k] == bare.nodes[i];
    }
    assert forall|i: int| 0 <= i < bare.edges.len() implies !chunk::is_part_id(
        rel,
        cs,
        n,
        (#[trigger] bare.edges[i]).source,
    ) && !chunk::is_part_id(rel, cs, n, bare.edges[i].target) by {
        let e = bare.edges[i];
        assert(views::at_none(gone)(e));
        let k = choose|k: int| 0 <= k < g.edges.len() && g.edges[k] == e;
        if chunk::is_part_id(rel, cs, n, g.edges[k].source) {
            let j = choose|j: int|
                0 <= j < g.nodes.len() && (#[trigger] g.nodes[j]).id == e.source && views::is_part(
                    rel,
                )(g.nodes[j]);
            let x = choose|x: int| 0 <= x < gone.len() && gone[x] == g.nodes[j];
            assert(gone[x].id == e.source);
        }
        if chunk::is_part_id(rel, cs, n, g.edges[k].target) {
            let j = choose|j: int|
                0 <= j < g.nodes.len() && (#[trigger] g.nodes[j]).id == e.target && views::is_part(
                    rel,
                )(g.nodes[j]);
            let x = choose|x: int| 0 <= x < gone.len() && gone[x] == g.nodes[j];
            assert(gone[x].id == e.target);
        }
    }
}

/// Without its parts a graph that they stand behind is what it was, but for the edges that do
/// not lead to them.
proof fn lemma_parts_are_taken(
    g: GraphV,
    a: Seq<NodeV>,
    own: PartsV,
    rel: Seq<char>,
    cs: Seq<DocChunkV>,
)
    requires
        g.nodes == a + own.g.nodes,
        are_parts(own, rel, cs),
        forall|i: int| 0 <= i < a.len() ==> !views::is_part(rel)(#[trigger] a[i]),
    ensures
        views::without_parts(g, rel).nodes == a,
        views::without_parts(g, rel).edges == rows::kept(g.edges, views::at_none(own.g.nodes)),
{
    let np = own.g.nodes;
    rows::lemma_kept_concat(a, np, views::is_part(rel));
    rows::lemma_kept_concat(a, np, views::is_no_part(rel));
    rows::lemma_keep_none(a, views::is_part(rel));
    rows::lemma_keep_all(np, views::is_part(rel));
    assert forall|i: int| 0 <= i < a.len() implies views::is_no_part(rel)(#[trigger] a[i]) by {
        assert(!views::is_part(rel)(a[i]));
    }
    assert forall|i: int| 0 <= i < np.len() implies !views::is_no_part(rel)(#[trigger] np[i]) by {
        assert(views::is_part(rel)(np[i]));
    }
    rows::lemma_keep_all(a, views::is_no_part(rel));
    rows::lemma_keep_none(np, views::is_no_part(rel));
    assert(Seq::<NodeV>::empty() + np =~= np);
    assert(a + Seq::<NodeV>::empty() =~= a);
}

/// Edges that have nothing to do with the parts stay when these are taken.
proof fn lemma_clear_edges_stay(
    edges: Seq<EdgeV>,
    own: PartsV,
    rel: Seq<char>,
    cs: Seq<DocChunkV>,
)
    requires
        are_parts(own, rel, cs),
        forall|i: int|
            0 <= i < edges.len() ==> !chunk::is_part_id(
                rel,
                cs,
                cs.len() as int,
                (#[trigger] edges[i]).source,
            ) && !chunk::is_part_id(rel, cs, cs.len() as int, edges[i].target),
    ensures
        rows::kept(edges, views::at_none(own.g.nodes)) == edges,
{
    let np = own.g.nodes;
    assert forall|i: int| 0 <= i < edges.len() implies views::at_none(np)(#[trigger] edges[i]) by {
        if views::at_one(edges[i], np) {
            let j = choose|j: int|
                0 <= j < np.len() && (edges[i].source == (#[trigger] np[j]).id || edges[i].target
                    == np[j].id);
            assert(chunk::is_part_id(rel, cs, cs.len() as int, np[j].id));
        }
    }
    rows::lemma_keep_all(edges, views::at_none(np));
}

proof fn lemma_own_edges_go(own: PartsV, rel: Seq<char>, cs: Seq<DocChunkV>)
    requires
        are_parts(own, rel, cs),
    ensures
        rows::kept(own.g.edges, views::at_none(own.g.nodes)) == Seq::<EdgeV>::empty(),
{
    let np = own.g.nodes;
    let ep = own.g.edges;
    assert forall|i: int| 0 <= i < ep.len() implies !views::at_none(np)(#[trigger] ep[i]) by {
        let j = choose|j: int| 0 <= j < np.len() && (#[trigger] np[j]).id == ep[i].target;
        assert(views::at_one(ep[i], np));
    }
    rows::lemma_keep_none(ep, views::at_none(np));
}

/// Building the parts of a document again, with nothing changed, leaves the graph as it is.
pub proof fn law_parts_are_built_at_once(
    g: GraphV,
    rel: Seq<char>,
    content: Seq<char>,
    cs: Seq<DocChunkV>,
    files: Option<Seq<Seq<char>>>,
    now: i64,
)
    requires
        text::replace_char(rel, '\\', '/') == rel,
        is_apart(g, rel, cs),
    ensures
        ({
            let once = chunk::with_parts(g, rel, content, cs, files, now);
            let twice = chunk::with_parts(once, rel, content, cs, files, now);
            twice.nodes == once.nodes && twice.edges == once.edges
        }),
{
    let bare = views::without_parts(g, rel);
    let once = chunk::with_parts(g, rel, content, cs, files, now);
    let n = cs.len() as int;
    rows::lemma_kept(g.nodes, views::is_no_part(rel));
    assert forall|i: int| 0 <= i < bare.nodes.len() implies !views::is_part(rel)(
        #[trigger] bare.nodes[i],
    ) by {
        assert(views::is_no_part(rel)(bare.nodes[i]));
    }
    lemma_bare_is_clear(g, rel, cs);
    if !chunk::has_parts(bare, rel, content, cs) {
        let none = PartsV { g: of_edges(Seq::empty()), sections: Seq::empty() };
        assert(bare.nodes + Seq::<NodeV>::empty() =~= bare.nodes);
        lemma_parts_are_taken(bare, bare.nodes, none, rel, cs);
        lemma_clear_edges_stay(bare.edges, none, rel, cs);
    } else {
        let own = parts_alone(rel, cs, n, now);
        let built = chunk::with_chunks(bare, rel, cs, n, now).g;
        lemma_parts_behind(bare, rel, cs, n, now);
        lemma_own_edges_go(own, rel, cs);
        let gone = views::at_none(own.g.nodes);
        match files {
            Some(fs) if !links::has_links(rel) => {
                lemma_imports_again(bare, rel, content, cs, fs, now);
            },
            _ => {
                lemma_parts_are_taken(once, bare.nodes, own, rel, cs);
                rows::lemma_kept_concat(bare.edges, own.g.edges, gone);
                lemma_clear_edges_stay(bare.edges, own, rel, cs);
                assert(bare.edges + Seq::<EdgeV>::empty() =~= bare.edges);
                let bare2 = views::without_parts(once, rel);
                assert(bare2.nodes == bare.nodes && bare2.edges == bare.edges);
                lemma_parts_behind(bare2, rel, cs, n, now);
            },
        }
    }
}

proof fn lemma_imports_again(
    bare: GraphV,
    rel: Seq<char>,
    content: Seq<char>,
    cs: Seq<DocChunkV>,
    fs: Seq<Seq<char>>,
    now: i64,
)
    requires
        text::replace_char(rel, '\\', '/') == rel,
        is_clear(bare, rel, cs),
        forall|i: int| 0 <= i < bare.nodes.len() ==> !views::is_part(rel)(#[trigger] bare.nodes[i]),
        chunk::has_parts(bare, rel, content, cs),
        !links::has_links(rel),
    ensures
        ({
            let q = views::not_made_from_by(builder::doc_id(rel), "IMPORTS"@);
            let names = chunk::imports_of(content);
            let once = chunk::with_imports(
                views::fewer_edges(
                    chunk::with_chunks(bare, rel, cs, cs.len() as int, now).g,
                    q,
                ),
                rel,
                names,
                fs,
                names.len() as int,
                now,
            );
            let twice = chunk::with_parts(once, rel, content, cs, Some(fs), now);
            twice.nodes == once.nodes && twice.edges == once.edges
        }),
{
    let n = cs.len() as int;
    let id = builder::doc_id(rel);
    let q = views::not_made_from_by(id, "IMPORTS"@);
    let names = chunk::imports_of(content);
    let conf = chunk::IMPORT_CONFIDENCE;
    let own = parts_alone(rel, cs, n, now);
    let np = own.g.nodes;
    let ep = own.g.edges;
    let gone = views::at_none(np);
    lemma_parts_behind(bare, rel, cs, n, now);
    lemma_own_edges_go(own, rel, cs);
    let built = chunk::with_chunks(bare, rel, cs, n, now).g;
    let few = views::fewer_edges(built, q);
    let ks = import_keys(built.nodes, rel, names, fs, names.len() as int);
    let once = chunk::with_imports(few, rel, names, fs, names.len() as int, now);
    lemma_imports_are_put(few, rel, names, fs, names.len() as int, now);
    lemma_put_all(few.edges, ks, conf, id, now);
    lemma_put_twice(few.edges, ks, conf, id, now);
    reveal_strlit("IMPORTS");
    reveal_strlit("CONTAINS");
    assert("IMPORTS"@[0] != "CONTAINS"@[0]);
    // What stood there before the parts, without imports.
    let old = rows::kept(bare.edges, q);
    rows::lemma_kept_concat(bare.edges, ep, q);
    assert forall|i: int| 0 <= i < ep.len() implies q(#[trigger] ep[i]) by {
        assert(ep[i].relation == Relation::Contains);
    }
    rows::lemma_keep_all(ep, q);
    assert(few.edges == old + ep);
    rows::lemma_kept(bare.edges, q);
    // All edges are in three pieces: those of before, those of the parts, the imports.
    let t = once.edges;
    let a = old.len() as int;
    let b = few.edges.len() as int;
    let first = t.take(a);
    let last = t.skip(b);
    assert(t.take(b) =~= first + ep) by {
        assert forall|i: int| a <= i < b implies #[trigger] t[i] == ep[i - a] by {
            assert(few.edges[i] == ep[i - a]);
            assert(ep[i - a].relation == Relation::Contains);
            if ks.contains(views::ev_key()(few.edges[i])) {
                let j = choose|j: int| 0 <= j < ks.len() && ks[j] == views::ev_key()(few.edges[i]);
                assert(is_import_key(ks[j], rel));
            }
        }
    }
    assert(t =~= first + ep + last);
    assert forall|i: int| 0 <= i < first.len() implies same_origin(#[trigger] first[i], old[i]) by {
        assert(same_origin(t[i], few.edges[i]));
        assert(few.edges[i] == old[i]);
    }
    assert forall|i: int| 0 <= i < first.len() implies !chunk::is_part_id(
        rel,
        cs,
        n,
        (#[trigger] first[i]).source,
    ) && !chunk::is_part_id(rel, cs, n, first[i].target) by {
        assert(same_origin(first[i], old[i]));
        let k = choose|k: int| 0 <= k < bare.edges.len() && bare.edges[k] == old[i];
        assert(!chunk::is_part_id(rel, cs, n, bare.edges[k].source));
    }
    assert forall|i: int| 0 <= i < last.len() implies is_import_key(
        views::ev_key()(#[trigger] last[i]),
        rel,
    ) && last[i].source_id == Some(id) by {
        assert(last[i] == t[b + i]);
        let j = choose|j: int| 0 <= j < ks.len() && ks[j] == views::ev_key()(t[b + i]);
        assert(is_import_key(ks[j], rel));
    }
    assert forall|i: int| 0 <= i < last.len() implies !chunk::is_part_id(
        rel,
        cs,
        n,
        (#[trigger] last[i]).source,
    ) && !chunk::is_part_id(rel, cs, n, last[i].target) by {
        assert(is_import_key(views::ev_key()(last[i]), rel));
        let dst = choose|dst: Seq<char>| last[i].target == #[trigger] builder::doc_id(dst);
        lemma_doc_is_no_part(rel, rel, cs);
        lemma_doc_is_no_part(dst, rel, cs);
    }
    // Without the parts, the first and the last piece are left.
    lemma_parts_are_taken(once, bare.nodes, own, rel, cs);
    let bare2 = views::without_parts(once, rel);
    rows::lemma_kept_concat(first + ep, last, gone);
    rows::lemma_kept_concat(first, ep, gone);
    lemma_clear_edges_stay(first, own, rel, cs);
    lemma_clear_edges_stay(last, own, rel, cs);
    assert(bare2.edges =~= first + last);
    assert(is_clear(bare2, rel, cs));
    lemma_parts_behind(bare2, rel, cs, n, now);
    let built2 = chunk::with_chunks(bare2, rel, cs, n, now).g;
    // Without the imports, the first piece and that of the parts are left.
    rows::lemma_kept_concat(first + last, ep, q);
    rows::lemma_kept_concat(first, last, q);
    assert forall|i: int| 0 <= i < first.len() implies q(#[trigger] first[i]) by {
        assert(same_origin(first[i], old[i]));
        assert(q(old[i]));
    }
    assert forall|i: int| 0 <= i < last.len() implies !q(#[trigger] last[i]) by {
        assert(is_import_key(views::ev_key()(last[i]), rel));
    }
    rows::lemma_keep_all(first, q);
    rows::lemma_keep_none(last, q);
    let few2 = views::fewer_edges(built2, q);
    assert(few2.edges =~= t.take(b));
    assert(built2.nodes == built.nodes);
    lemma_imports_are_put(few2, rel, names, fs, names.len() as int, now);
}

} // verus!
