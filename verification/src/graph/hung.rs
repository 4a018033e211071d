//! What building the parts of a document leaves in the graph, said by its nodes and edges.

use crate::graph::builder;
use crate::graph::chunk;
use crate::graph::chunk::{DocChunkV, PartsV};
use crate::graph::imports;
use crate::graph::links;
use crate::graph::model::{NodeType, Relation};
use crate::graph::views;
use crate::graph::views::{EdgeV, GraphV, NodeV};
use crate::rows;
use crate::text;
use vstd::prelude::*;

verus! {

pub open spec fn has_edge(g: GraphV, s: Seq<char>, t: Seq<char>, r: Relation) -> bool {
    exists|i: int|
        0 <= i < g.edges.len() && (#[trigger] g.edges[i]).source == s && g.edges[i].target == t
            && g.edges[i].relation == r
}

/// Whether a node of this id is a section or a chunk of the document at the path.
pub open spec fn is_old_part(g: GraphV, p: Seq<char>, id: Seq<char>) -> bool {
    exists|j: int|
        0 <= j < g.nodes.len() && (#[trigger] g.nodes[j]).id == id && g.nodes[j].path == Some(p)
            && (g.nodes[j].node_type == NodeType::Chunk || g.nodes[j].node_type
            == NodeType::Section)
}

/// Whether there was such an edge that has nothing to do with earlier parts of the document.
pub open spec fn was_apart(
    g: GraphV,
    p: Seq<char>,
    s: Seq<char>,
    t: Seq<char>,
    r: Relation,
) -> bool {
    has_edge(g, s, t, r) && !is_old_part(g, p, s) && !is_old_part(g, p, t)
}

/// Whether a chunk brings an edge from `s` to `t`: one from the document to the section of its
/// headings and one from there to the chunk, or where it has no headings one from the document
/// to the chunk.
pub open spec fn brings(rel: Seq<char>, c: DocChunkV, k: nat, s: Seq<char>, t: Seq<char>) -> bool {
    let section = chunk::section_id(rel, c.path);
    if c.path.len() > 0 {
        (s == builder::doc_id(rel) && t == section) || (s == section && t == chunk::chunk_id(
            rel,
            k,
        ))
    } else {
        s == builder::doc_id(rel) && t == chunk::chunk_id(rel, k)
    }
}

pub open spec fn some_brings(
    rel: Seq<char>,
    cs: Seq<DocChunkV>,
    n: int,
    s: Seq<char>,
    t: Seq<char>,
) -> bool {
    exists|k: int| 0 <= k < n && brings(rel, #[trigger] cs[k], k as nat, s, t)
}

/// Whether the chunks hang in the graph as they should: what contains what is what it was
/// apart from the document's earlier parts, and what the chunks bring, and nothing else.
pub open spec fn are_hung(g: GraphV, rel: Seq<char>, cs: Seq<DocChunkV>, after: GraphV) -> bool {
    let p = text::replace_char(rel, '\\', '/');
    forall|s: Seq<char>, t: Seq<char>| #[trigger]
        has_edge(after, s, t, Relation::Contains) <==> was_apart(g, p, s, t, Relation::Contains)
            || some_brings(rel, cs, cs.len() as int, s, t)
}

/// Whether each chunk is a node with its text.
pub open spec fn are_there(rel: Seq<char>, cs: Seq<DocChunkV>, n: int, after: GraphV) -> bool {
    forall|k: int| 0 <= k < n ==> is_there(rel, #[trigger] cs[k], k as nat, after)
}

pub open spec fn is_there(rel: Seq<char>, c: DocChunkV, k: nat, after: GraphV) -> bool {
    &&& exists|i: int|
        0 <= i < after.nodes.len() && is_node_of(rel, c, k, #[trigger] after.nodes[i])
    &&& c.path.len() > 0 ==> exists|i: int|
        0 <= i < after.nodes.len() && (#[trigger] after.nodes[i]).id == chunk::section_id(
            rel,
            c.path,
        ) && after.nodes[i].node_type == NodeType::Section && after.nodes[i].path == Some(rel)
}

pub open spec fn is_node_of(rel: Seq<char>, c: DocChunkV, k: nat, x: NodeV) -> bool {
    &&& x.id == chunk::chunk_id(rel, k)
    &&& x.node_type == NodeType::Chunk
    &&& x.path == Some(rel)
    &&& c.text.len() <= 2000 ==> x.content == Some(c.text)
    &&& c.text.len() > 2000 ==> x.content == Some(c.text.take(2000).push('…'))
    &&& c.path.len() > 0 && 0 < c.path.last().len() <= 60 ==> x.name == c.path.last()
}

pub(crate) proof fn lemma_put_edge(
    g: GraphV,
    s: Seq<char>,
    t: Seq<char>,
    r: Relation,
    weight: u32,
    confidence: u32,
    sid: Option<Seq<char>>,
    now: i64,
    a: Seq<char>,
    b: Seq<char>,
    q: Relation,
)
    ensures
        has_edge(views::put_edge(g, s, t, r, weight, confidence, sid, now), a, b, q) <==> has_edge(
            g,
            a,
            b,
            q,
        ) || (a == s && b == t && q == r),
        views::put_edge(g, s, t, r, weight, confidence, sid, now).nodes == g.nodes,
{
    let g2 = views::put_edge(g, s, t, r, weight, confidence, sid, now);
    rows::lemma_row_index(g.edges, views::ev_key(), (s, t, r), 0);
    match views::find_edge(g.edges, s, t, r) {
        Some(i) => {
            assert(g2.edges.len() == g.edges.len());
            assert forall|j: int| 0 <= j < g.edges.len() implies (#[trigger] g2.edges[j]).source
                == g.edges[j].source && g2.edges[j].target == g.edges[j].target
                && g2.edges[j].relation == g.edges[j].relation by {}
            assert(views::ev_key()(g.edges[i]) == (s, t, r));
            if has_edge(g2, a, b, q) {
                let j = choose|j: int|
                    0 <= j < g2.edges.len() && (#[trigger] g2.edges[j]).source == a
                        && g2.edges[j].target == b && g2.edges[j].relation == q;
                assert(g.edges[j].source == a);
            }
            if has_edge(g, a, b, q) {
                let j = choose|j: int|
                    0 <= j < g.edges.len() && (#[trigger] g.edges[j]).source == a
                        && g.edges[j].target == b && g.edges[j].relation == q;
                assert(g2.edges[j].source == a);
            }
            if a == s && b == t && q == r {
                assert(g2.edges[i].source == a);
            }
        },
        None => {
            let n = g.edges.len() as int;
            assert(g2.edges[n].source == s && g2.edges[n].target == t && g2.edges[n].relation == r);
            if has_edge(g2, a, b, q) {
                let j = choose|j: int|
                    0 <= j < g2.edges.len() && (#[trigger] g2.edges[j]).source == a
                        && g2.edges[j].target == b && g2.edges[j].relation == q;
                if j < n {
                    assert(g2.edges[j] == g.edges[j]);
                }
            }
            if has_edge(g, a, b, q) {
                let j = choose|j: int|
                    0 <= j < g.edges.len() && (#[trigger] g.edges[j]).source == a
                        && g.edges[j].target == b && g.edges[j].relation == q;
                assert(g2.edges[j] == g.edges[j]);
            }
        },
    }
}

proof fn lemma_bare_edges(g: GraphV, p: Seq<char>, s: Seq<char>, t: Seq<char>, r: Relation)
    ensures
        has_edge(views::without_parts(g, p), s, t, r) <==> was_apart(g, p, s, t, r),
{
    let gone = rows::kept(g.nodes, views::is_part(p));
    let bare = views::without_parts(g, p);
    rows::lemma_kept(g.nodes, views::is_part(p));
    rows::lemma_kept(g.edges, views::at_none(gone));
    assert forall|id: Seq<char>| #[trigger] is_old_part(g, p, id) <==> exists|i: int|
        0 <= i < gone.len() && (#[trigger] gone[i]).id == id by {
        if is_old_part(g, p, id) {
            let j = choose|j: int|
                0 <= j < g.nodes.len() && (#[trigger] g.nodes[j]).id == id && g.nodes[j].path
                    == Some(p) && (g.nodes[j].node_type == NodeType::Chunk || g.nodes[j].node_type
                    == NodeType::Section);
            assert(views::is_part(p)(g.nodes[j]));
            assert(gone.contains(g.nodes[j]));
            let i = choose|i: int| 0 <= i < gone.len() && gone[i] == g.nodes[j];
            assert(gone[i].id == id);
        }
        if exists|i: int| 0 <= i < gone.len() && (#[trigger] gone[i]).id == id {
            let i = choose|i: int| 0 <= i < gone.len() && (#[trigger] gone[i]).id == id;
            assert(g.nodes.contains(gone[i]));
            let j = choose|j: int| 0 <= j < g.nodes.len() && g.nodes[j] == gone[i];
            assert(views::is_part(p)(gone[i]));
            assert(g.nodes[j].id == id);
        }
    }
    if has_edge(bare, s, t, r) {
        let i = choose|i: int|
            0 <= i < bare.edges.len() && (#[trigger] bare.edges[i]).source == s
                && bare.edges[i].target == t && bare.edges[i].relation == r;
        assert(views::at_none(gone)(bare.edges[i]));
        assert(g.edges.contains(bare.edges[i]));
        let j = choose|j: int| 0 <= j < g.edges.len() && g.edges[j] == bare.edges[i];
        assert(g.edges[j].source == s);
    }
    if was_apart(g, p, s, t, r) {
        let j = choose|j: int|
            0 <= j < g.edges.len() && (#[trigger] g.edges[j]).source == s && g.edges[j].target == t
                && g.edges[j].relation == r;
        assert(views::at_none(gone)(g.edges[j]));
        assert(bare.edges.contains(g.edges[j]));
        let i = choose|i: int| 0 <= i < bare.edges.len() && bare.edges[i] == g.edges[j];
        assert(bare.edges[i].source == s);
    }
}

/// The edges of the first `n` chunks; a section that is known has its edge.
proof fn lemma_hung(
    g: GraphV,
    rel: Seq<char>,
    cs: Seq<DocChunkV>,
    n: int,
    now: i64,
    s: Seq<char>,
    t: Seq<char>,
    q: Relation,
)
    requires
        0 <= n <= cs.len(),
    ensures
        has_edge(chunk::with_chunks(g, rel, cs, n, now).g, s, t, q) <==> has_edge(g, s, t, q) || (q
            == Relation::Contains && some_brings(rel, cs, n, s, t)),
        forall|i: int|
            0 <= i < chunk::with_chunks(g, rel, cs, n, now).sections.len() ==> exists|k: int|
                0 <= k < n && (#[trigger] cs[k]).path.len() > 0 && chunk::section_id(
                    rel,
                    cs[k].path,
                ) == #[trigger] chunk::with_chunks(g, rel, cs, n, now).sections[i],
    decreases n,
{
    if n > 0 {
        lemma_hung(g, rel, cs, n - 1, now, s, t, q);
        let before = chunk::with_chunks(g, rel, cs, n - 1, now);
        let after = chunk::with_chunks(g, rel, cs, n, now);
        let c = cs[n - 1];
        let idx = (n - 1) as nat;
        let doc = builder::doc_id(rel);
        let sid = chunk::section_id(rel, c.path);
        let one = PartsV { g: views::put_node(before.g, chunk::chunk_node(rel, c, idx), now), ..before };
        let two = if c.path.len() > 0 {
            chunk::with_section(one, rel, c.path, now)
        } else {
            one
        };
        assert(has_edge(one.g, s, t, q) == has_edge(before.g, s, t, q));
        let put = views::put_node(one.g, chunk::section_node(rel, c.path), now);
        assert(has_edge(put, s, t, q) == has_edge(one.g, s, t, q));
        lemma_put_edge(
            put,
            doc,
            sid,
            Relation::Contains,
            crate::graph::model::WHOLE,
            crate::graph::model::WHOLE,
            Some(doc),
            now,
            s,
            t,
            q,
        );
        let src = if c.path.len() > 0 {
            sid
        } else {
            doc
        };
        lemma_put_edge(
            two.g,
            src,
            chunk::chunk_id(rel, idx),
            Relation::Contains,
            crate::graph::model::WHOLE,
            crate::graph::model::WHOLE,
            Some(doc),
            now,
            s,
            t,
            q,
        );
        if some_brings(rel, cs, n, s, t) {
            let k = choose|k: int| 0 <= k < n && brings(rel, #[trigger] cs[k], k as nat, s, t);
            if k < n - 1 {
                assert(some_brings(rel, cs, n - 1, s, t));
            }
        }
        if some_brings(rel, cs, n - 1, s, t) {
            let k = choose|k: int| 0 <= k < n - 1 && brings(rel, #[trigger] cs[k], k as nat, s, t);
            assert(brings(rel, cs[k], k as nat, s, t));
        }
        if brings(rel, c, idx, s, t) {
            assert(brings(rel, cs[n - 1], (n - 1) as nat, s, t));
            assert(some_brings(rel, cs, n, s, t));
        }
        if c.path.len() > 0 && before.sections.contains(sid) {
            let i = choose|i: int| 0 <= i < before.sections.len() && before.sections[i] == sid;
            let k = choose|k: int|
                0 <= k < n - 1 && (#[trigger] cs[k]).path.len() > 0 && chunk::section_id(
                    rel,
                    cs[k].path,
                ) == before.sections[i];
            assert(brings(rel, cs[k], k as nat, doc, sid));
            assert(some_brings(rel, cs, n - 1, doc, sid));
        }
        assert forall|i: int| 0 <= i < after.sections.len() implies exists|k: int|
            0 <= k < n && (#[trigger] cs[k]).path.len() > 0 && chunk::section_id(rel, cs[k].path)
                == #[trigger] after.sections[i] by {
            if i < before.sections.len() {
                assert(after.sections[i] == before.sections[i]);
                let k = choose|k: int|
                    0 <= k < n - 1 && (#[trigger] cs[k]).path.len() > 0 && chunk::section_id(
                        rel,
                        cs[k].path,
                    ) == before.sections[i];
                assert(cs[k].path.len() > 0);
            } else {
                assert(cs[n - 1].path.len() > 0);
            }
        }
    } else {
        assert(!some_brings(rel, cs, 0, s, t));
    }
}

/// Whether a node is what a writer put: all but the time at which it came.
pub open spec fn is_put(nodes: Seq<NodeV>, x: NodeV) -> bool {
    exists|i: int|
        0 <= i < nodes.len() && (#[trigger] nodes[i]) == (NodeV {
            degree: None,
            created_at: nodes[i].created_at,
            ..x
        })
}

pub(crate) proof fn lemma_put_node(g: GraphV, x: NodeV, now: i64, y: NodeV)
    ensures
        is_put(views::put_node(g, x, now).nodes, x),
        is_put(g.nodes, y) && y.id != x.id ==> is_put(views::put_node(g, x, now).nodes, y),
{
    let g2 = views::put_node(g, x, now);
    rows::lemma_row_index(g.nodes, views::nv_key(), x.id, 0);
    match views::find_node(g.nodes, x.id) {
        Some(i) => {
            assert(g2.nodes[i] == (NodeV { degree: None, created_at: g2.nodes[i].created_at, ..x }));
        },
        None => {
            let i = g.nodes.len() as int;
            assert(g2.nodes[i] == (NodeV { degree: None, created_at: g2.nodes[i].created_at, ..x }));
        },
    }
    if is_put(g.nodes, y) && y.id != x.id {
        let j = choose|j: int|
            0 <= j < g.nodes.len() && (#[trigger] g.nodes[j]) == (NodeV {
                degree: None,
                created_at: g.nodes[j].created_at,
                ..y
            });
        assert(g.nodes[j].id == y.id);
        assert(g2.nodes[j] == g.nodes[j]);
    }
}

/// A section of the id is there, whatever its name.
spec fn has_section(nodes: Seq<NodeV>, rel: Seq<char>, sid: Seq<char>) -> bool {
    exists|i: int|
        0 <= i < nodes.len() && (#[trigger] nodes[i]).id == sid && nodes[i].node_type
            == NodeType::Section && nodes[i].path == Some(rel)
}

proof fn lemma_section_stays(g: GraphV, x: NodeV, now: i64, rel: Seq<char>, sid: Seq<char>)
    requires
        has_section(g.nodes, rel, sid),
        x.id != sid,
    ensures
        has_section(views::put_node(g, x, now).nodes, rel, sid),
{
    let g2 = views::put_node(g, x, now);
    rows::lemma_row_index(g.nodes, views::nv_key(), x.id, 0);
    let j = choose|j: int|
        0 <= j < g.nodes.len() && (#[trigger] g.nodes[j]).id == sid && g.nodes[j].node_type
            == NodeType::Section && g.nodes[j].path == Some(rel);
    assert(g2.nodes[j] == g.nodes[j]);
}

proof fn lemma_ids_differ(rel: Seq<char>, path: Seq<Seq<char>>, a: nat, b: nat)
    ensures
        chunk::chunk_id(rel, a) != chunk::section_id(rel, path),
        chunk::chunk_id(rel, a) == chunk::chunk_id(rel, b) ==> a == b,
        builder::doc_id(rel) != chunk::section_id(rel, path),
        builder::doc_id(rel) != chunk::chunk_id(rel, a),
{
    reveal_strlit("doc");
    reveal_strlit("chunk:");
    reveal_strlit("section:");
    assert(builder::doc_id(rel)[0] == 'd');
    assert(chunk::chunk_id(rel, a)[0] == 'c');
    assert(chunk::section_id(rel, path)[0] == 's');
    let front = "chunk:"@ + text::replace_char(rel, '\\', '/') + seq!['#'];
    let n = front.len() as int;
    if chunk::chunk_id(rel, a) == chunk::chunk_id(rel, b) {
        assert(chunk::chunk_id(rel, a).skip(n) =~= text::nat_text(a));
        assert(chunk::chunk_id(rel, b).skip(n) =~= text::nat_text(b));
        text::lemma_nat_text_injective(a, b);
    }
}

proof fn lemma_there(g: GraphV, rel: Seq<char>, cs: Seq<DocChunkV>, n: int, now: i64)
    requires
        0 <= n <= cs.len(),
    ensures
        forall|k: int|
            0 <= k < n ==> is_put(
                chunk::with_chunks(g, rel, cs, n, now).g.nodes,
                chunk::chunk_node(rel, #[trigger] cs[k], k as nat),
            ),
        forall|k: int|
            0 <= k < n && (#[trigger] cs[k]).path.len() > 0 ==> has_section(
                chunk::with_chunks(g, rel, cs, n, now).g.nodes,
                rel,
                chunk::section_id(rel, cs[k].path),
            ),
    decreases n,
{
    if n > 0 {
        lemma_there(g, rel, cs, n - 1, now);
        lemma_hung(g, rel, cs, n - 1, now, Seq::empty(), Seq::empty(), Relation::Contains);
        let before = chunk::with_chunks(g, rel, cs, n - 1, now);
        let after = chunk::with_chunks(g, rel, cs, n, now);
        let c = cs[n - 1];
        let idx = (n - 1) as nat;
        let sid = chunk::section_id(rel, c.path);
        let cn = chunk::chunk_node(rel, c, idx);
        let sn = chunk::section_node(rel, c.path);
        let one = views::put_node(before.g, cn, now);
        let put = views::put_node(one, sn, now);
        lemma_put_node(before.g, cn, now, cn);
        lemma_put_node(one, sn, now, cn);
        lemma_ids_differ(rel, c.path, idx, idx);
        assert(after.g.nodes == put.nodes || after.g.nodes == one.nodes);
        assert forall|k: int| 0 <= k < n implies is_put(
            after.g.nodes,
            chunk::chunk_node(rel, #[trigger] cs[k], k as nat),
        ) by {
            if k < n - 1 {
                let y = chunk::chunk_node(rel, cs[k], k as nat);
                lemma_ids_differ(rel, c.path, k as nat, idx);
                lemma_put_node(before.g, cn, now, y);
                lemma_put_node(one, sn, now, y);
            }
        }
        assert forall|k: int| 0 <= k < n && (#[trigger] cs[k]).path.len() > 0 implies has_section(
            after.g.nodes,
            rel,
            chunk::section_id(rel, cs[k].path),
        ) by {
            let id = chunk::section_id(rel, cs[k].path);
            lemma_ids_differ(rel, cs[k].path, idx, idx);
            if k == n - 1 && !before.sections.contains(sid) {
                let i = choose|i: int|
                    0 <= i < put.nodes.len() && (#[trigger] put.nodes[i]) == (NodeV {
                        degree: None,
                        created_at: put.nodes[i].created_at,
                        ..sn
                    });
                assert(is_put(put.nodes, sn));
                assert(put.nodes[i].id == sid);
                assert(after.g.nodes == put.nodes);
            } else {
                if k == n - 1 {
                    let i = choose|i: int|
                        0 <= i < before.sections.len() && before.sections[i] == sid;
                    let m = choose|m: int|
                        0 <= m < n - 1 && (#[trigger] cs[m]).path.len() > 0 && chunk::section_id(
                            rel,
                            cs[m].path,
                        ) == before.sections[i];
                    assert(cs[m].path.len() > 0);
                }
                assert(has_section(before.g.nodes, rel, id));
                lemma_section_stays(before.g, cn, now, rel, id);
                if after.g.nodes == put.nodes {
                    if sid != id {
                        lemma_section_stays(one, sn, now, rel, id);
                    } else {
                        let i = choose|i: int|
                            0 <= i < put.nodes.len() && (#[trigger] put.nodes[i]) == (NodeV {
                                degree: None,
                                created_at: put.nodes[i].created_at,
                                ..sn
                            });
                        assert(is_put(put.nodes, sn));
                        assert(put.nodes[i].id == sid);
                    }
                }
            }
        }
    }
}

// ---- Imports

/// Whether there was such an edge, not drawn for the document itself.
pub open spec fn was_drawn_elsewhere(
    g: GraphV,
    rel: Seq<char>,
    s: Seq<char>,
    t: Seq<char>,
) -> bool {
    let p = text::replace_char(rel, '\\', '/');
    exists|i: int|
        0 <= i < g.edges.len() && (#[trigger] g.edges[i]).source == s && g.edges[i].target == t
            && g.edges[i].relation == Relation::Imports && g.edges[i].source_id != Some(
            builder::doc_id(rel),
        ) && !is_old_part(g, p, s) && !is_old_part(g, p, t)
}

/// Whether one of the imports means another file whose node is `t`.
pub open spec fn is_imported(
    g: GraphV,
    rel: Seq<char>,
    names: Seq<Seq<char>>,
    files: Seq<Seq<char>>,
    n: int,
    t: Seq<char>,
) -> bool {
    exists|k: int|
        0 <= k < n && (imports::import_target(#[trigger] names[k], files) matches Some(dst) && dst
            != rel && t == builder::doc_id(dst)) && exists|i: int|
            0 <= i < g.nodes.len() && (#[trigger] g.nodes[i]).id == t
}

/// Whether the imports of a source file are drawn: those that mean another file of the graph,
/// in place of those that were drawn for it before.
pub open spec fn are_drawn(
    g: GraphV,
    rel: Seq<char>,
    content: Seq<char>,
    files: Seq<Seq<char>>,
    after: GraphV,
) -> bool {
    let names = chunk::imports_of(content);
    forall|s: Seq<char>, t: Seq<char>| #[trigger]
        has_edge(after, s, t, Relation::Imports) <==> was_drawn_elsewhere(g, rel, s, t) || (s
            == builder::doc_id(rel) && is_imported(after, rel, names, files, names.len() as int, t))
}

proof fn lemma_drawn(
    g: GraphV,
    rel: Seq<char>,
    names: Seq<Seq<char>>,
    files: Seq<Seq<char>>,
    n: int,
    now: i64,
    s: Seq<char>,
    t: Seq<char>,
    q: Relation,
)
    requires
        0 <= n <= names.len(),
    ensures
        has_edge(chunk::with_imports(g, rel, names, files, n, now), s, t, q) <==> has_edge(
            g,
            s,
            t,
            q,
        ) || (q == Relation::Imports && s == builder::doc_id(rel) && is_imported(
            g,
            rel,
            names,
            files,
            n,
            t,
        )),
        chunk::with_imports(g, rel, names, files, n, now).nodes == g.nodes,
    decreases n,
{
    if n > 0 {
        lemma_drawn(g, rel, names, files, n - 1, now, s, t, q);
        let before = chunk::with_imports(g, rel, names, files, n - 1, now);
        let aim = imports::import_target(names[n - 1], files);
        if is_imported(g, rel, names, files, n - 1, t) {
            let k = choose|k: int|
                0 <= k < n - 1 && (imports::import_target(#[trigger] names[k], files) matches Some(
                    dst,
                ) && dst != rel && t == builder::doc_id(dst)) && exists|i: int|
                    0 <= i < g.nodes.len() && (#[trigger] g.nodes[i]).id == t;
            assert(imports::import_target(names[k], files) is Some);
            assert(is_imported(g, rel, names, files, n, t));
        }
        if is_imported(g, rel, names, files, n, t) {
            let k = choose|k: int|
                0 <= k < n && (imports::import_target(#[trigger] names[k], files) matches Some(dst)
                    && dst != rel && t == builder::doc_id(dst)) && exists|i: int|
                    0 <= i < g.nodes.len() && (#[trigger] g.nodes[i]).id == t;
            if k < n - 1 {
                assert(imports::import_target(names[k], files) is Some);
                assert(is_imported(g, rel, names, files, n - 1, t));
            }
        }
        match aim {
            Some(dst) => {
                let id = builder::doc_id(dst);
                rows::lemma_row_index(g.nodes, views::nv_key(), id, 0);
                if dst != rel && views::has_node(before, id) {
                    let x = views::find_node(g.nodes, id)->0;
                    assert(g.nodes[x].id == id);
                    lemma_put_edge(
                        before,
                        builder::doc_id(rel),
                        id,
                        Relation::Imports,
                        crate::graph::model::WHOLE,
                        chunk::IMPORT_CONFIDENCE,
                        Some(builder::doc_id(rel)),
                        now,
                        s,
                        t,
                        q,
                    );
                    if t == id {
                        assert(imports::import_target(names[n - 1], files) is Some);
                        assert(is_imported(g, rel, names, files, n, t));
                    }
                } else if dst != rel {
                    assert forall|i: int| 0 <= i < g.nodes.len() implies (
                    #[trigger] g.nodes[i]).id != id by {
                        assert(views::nv_key()(g.nodes[i]) != id);
                    }
                }
            },
            None => {},
        }
    } else {
        assert(!is_imported(g, rel, names, files, 0, t));
    }
}

proof fn lemma_import_name(q: Relation)
    ensures
        q.name() == "IMPORTS"@ <==> q == Relation::Imports,
{
    reveal_strlit("IMPORTS");
    reveal_strlit("CONTAINS");
    reveal_strlit("REFERENCES");
    reveal_strlit("DERIVED_FROM");
    reveal_strlit("SAME_TOPIC");
    reveal_strlit("SOLVED_BY");
    reveal_strlit("IMPLEMENTED_IN");
    reveal_strlit("VALIDATED_BY");
    reveal_strlit("PREFERS");
    reveal_strlit("AVOIDS");
    reveal_strlit("REPLACED_BY");
    reveal_strlit("DEPRECATED");
    reveal_strlit("USES");
    reveal_strlit("BELONGS_TO");
    reveal_strlit("SIMILAR_TO");
    reveal_strlit("DEPENDS_ON");
    if q == Relation::Prefers {
        assert("IMPORTS"@[0] == 'I');
        assert(q.name()[0] == 'P');
    }
    assert(q.name().len() == 7 ==> q == Relation::Imports || q == Relation::Prefers);
}

/// Which edges are left when those drawn for the document's imports are taken.
spec fn has_other_edge(
    g: GraphV,
    sid: Seq<char>,
    s: Seq<char>,
    t: Seq<char>,
    q: Relation,
) -> bool {
    exists|i: int|
        0 <= i < g.edges.len() && (#[trigger] g.edges[i]).source == s && g.edges[i].target == t
            && g.edges[i].relation == q && (q == Relation::Imports ==> g.edges[i].source_id != Some(
            sid,
        ))
}

proof fn lemma_fewer(g: GraphV, sid: Seq<char>, s: Seq<char>, t: Seq<char>, q: Relation)
    ensures
        has_edge(
            views::fewer_edges(g, views::not_made_from_by(sid, "IMPORTS"@)),
            s,
            t,
            q,
        ) <==> has_other_edge(g, sid, s, t, q),
        q != Relation::Imports ==> (has_other_edge(g, sid, s, t, q) <==> has_edge(g, s, t, q)),
{
    let p = views::not_made_from_by(sid, "IMPORTS"@);
    let few = views::fewer_edges(g, p);
    lemma_import_name(q);
    rows::lemma_kept(g.edges, p);
    if has_edge(few, s, t, q) {
        let i = choose|i: int|
            0 <= i < few.edges.len() && (#[trigger] few.edges[i]).source == s
                && few.edges[i].target == t && few.edges[i].relation == q;
        assert(p(few.edges[i]));
        assert(g.edges.contains(few.edges[i]));
        let j = choose|j: int| 0 <= j < g.edges.len() && g.edges[j] == few.edges[i];
        assert(g.edges[j].source == s);
    }
    if has_other_edge(g, sid, s, t, q) {
        let j = choose|j: int|
            0 <= j < g.edges.len() && (#[trigger] g.edges[j]).source == s && g.edges[j].target == t
                && g.edges[j].relation == q && (q == Relation::Imports ==> g.edges[j].source_id
                != Some(sid));
        assert(p(g.edges[j]));
        assert(few.edges.contains(g.edges[j]));
        let i = choose|i: int| 0 <= i < few.edges.len() && few.edges[i] == g.edges[j];
        assert(few.edges[i].source == s);
    }
    if q != Relation::Imports && has_edge(g, s, t, q) {
        let j = choose|j: int|
            0 <= j < g.edges.len() && (#[trigger] g.edges[j]).source == s && g.edges[j].target == t
                && g.edges[j].relation == q;
        assert(g.edges[j].source == s);
    }
}

proof fn lemma_put_others(
    g: GraphV,
    s: Seq<char>,
    t: Seq<char>,
    r: Relation,
    sid: Seq<char>,
    now: i64,
    e: EdgeV,
)
    requires
        e.relation != r,
    ensures
        views::put_whole_edge(g, s, t, r, sid, now).edges.contains(e) <==> g.edges.contains(e),
{
    let g2 = views::put_whole_edge(g, s, t, r, sid, now);
    rows::lemma_row_index(g.edges, views::ev_key(), (s, t, r), 0);
    if g.edges.contains(e) {
        let j = choose|j: int| 0 <= j < g.edges.len() && g.edges[j] == e;
        assert(g2.edges[j] == e);
    }
    if g2.edges.contains(e) {
        let j = choose|j: int| 0 <= j < g2.edges.len() && g2.edges[j] == e;
        assert(j < g.edges.len() && g.edges[j] == e);
    }
}

proof fn lemma_others_stay(
    g: GraphV,
    rel: Seq<char>,
    cs: Seq<DocChunkV>,
    n: int,
    now: i64,
    e: EdgeV,
)
    requires
        0 <= n <= cs.len(),
        e.relation != Relation::Contains,
    ensures
        chunk::with_chunks(g, rel, cs, n, now).g.edges.contains(e) <==> g.edges.contains(e),
    decreases n,
{
    if n > 0 {
        lemma_others_stay(g, rel, cs, n - 1, now, e);
        let before = chunk::with_chunks(g, rel, cs, n - 1, now);
        let c = cs[n - 1];
        let idx = (n - 1) as nat;
        let doc = builder::doc_id(rel);
        let sid = chunk::section_id(rel, c.path);
        let one = PartsV {
            g: views::put_node(before.g, chunk::chunk_node(rel, c, idx), now),
            ..before
        };
        let put = views::put_node(one.g, chunk::section_node(rel, c.path), now);
        let two = if c.path.len() > 0 {
            chunk::with_section(one, rel, c.path, now)
        } else {
            one
        };
        lemma_put_others(put, doc, sid, Relation::Contains, doc, now, e);
        let src = if c.path.len() > 0 {
            sid
        } else {
            doc
        };
        lemma_put_others(two.g, src, chunk::chunk_id(rel, idx), Relation::Contains, doc, now, e);
    }
}

proof fn lemma_drawn_elsewhere(
    g: GraphV,
    rel: Seq<char>,
    cs: Seq<DocChunkV>,
    now: i64,
    s: Seq<char>,
    t: Seq<char>,
)
    ensures
        ({
            let p = text::replace_char(rel, '\\', '/');
            let bare = views::without_parts(g, p);
            let built = chunk::with_chunks(bare, rel, cs, cs.len() as int, now).g;
            has_other_edge(built, builder::doc_id(rel), s, t, Relation::Imports)
                <==> was_drawn_elsewhere(g, rel, s, t)
        }),
{
    let p = text::replace_char(rel, '\\', '/');
    let bare = views::without_parts(g, p);
    let n = cs.len() as int;
    let built = chunk::with_chunks(bare, rel, cs, n, now).g;
    let doc = builder::doc_id(rel);
    let gone = rows::kept(g.nodes, views::is_part(p));
    rows::lemma_kept(g.edges, views::at_none(gone));
    lemma_bare_edges(g, p, s, t, Relation::Imports);
    if has_other_edge(built, doc, s, t, Relation::Imports) {
        let i = choose|i: int|
            0 <= i < built.edges.len() && (#[trigger] built.edges[i]).source == s
                && built.edges[i].target == t && built.edges[i].relation == Relation::Imports
                && built.edges[i].source_id != Some(doc);
        let e = built.edges[i];
        assert(built.edges.contains(e));
        lemma_others_stay(bare, rel, cs, n, now, e);
        let j = choose|j: int| 0 <= j < bare.edges.len() && bare.edges[j] == e;
        assert(bare.edges[j].source == s);
        assert(has_edge(bare, s, t, Relation::Imports));
        assert(g.edges.contains(e));
        let k = choose|k: int| 0 <= k < g.edges.len() && g.edges[k] == e;
        assert(g.edges[k].source == s);
    }
    if was_drawn_elsewhere(g, rel, s, t) {
        let k = choose|k: int|
            0 <= k < g.edges.len() && (#[trigger] g.edges[k]).source == s && g.edges[k].target == t
                && g.edges[k].relation == Relation::Imports && g.edges[k].source_id != Some(doc)
                && !is_old_part(g, p, s) && !is_old_part(g, p, t);
        let e = g.edges[k];
        lemma_not_at_gone(g, p, e);
        assert(views::at_none(gone)(e));
        assert(bare.edges.contains(e));
        lemma_others_stay(bare, rel, cs, n, now, e);
        let i = choose|i: int| 0 <= i < built.edges.len() && built.edges[i] == e;
        assert(built.edges[i].source == s);
    }
}

proof fn lemma_not_at_gone(g: GraphV, p: Seq<char>, e: EdgeV)
    requires
        !is_old_part(g, p, e.source),
        !is_old_part(g, p, e.target),
    ensures
        views::at_none(rows::kept(g.nodes, views::is_part(p)))(e),
{
    let gone = rows::kept(g.nodes, views::is_part(p));
    rows::lemma_kept(g.nodes, views::is_part(p));
    if views::at_one(e, gone) {
        let i = choose|i: int|
            0 <= i < gone.len() && (e.source == (#[trigger] gone[i]).id || e.target == gone[i].id);
        assert(g.nodes.contains(gone[i]));
        let j = choose|j: int| 0 <= j < g.nodes.len() && g.nodes[j] == gone[i];
        assert(views::is_part(p)(gone[i]));
        assert(g.nodes[j].id == gone[i].id);
    }
}

// ---- The laws

/// Whether a document can be built: its node is there, it is not blank and it has chunks.
pub open spec fn is_buildable(
    g: GraphV,
    rel: Seq<char>,
    content: Seq<char>,
    cs: Seq<DocChunkV>,
) -> bool {
    &&& exists|i: int|
        0 <= i < g.nodes.len() && (#[trigger] g.nodes[i]).id == builder::doc_id(rel) && !(
        g.nodes[i].path == Some(text::replace_char(rel, '\\', '/')) && (g.nodes[i].node_type
            == NodeType::Chunk || g.nodes[i].node_type == NodeType::Section))
    &&& exists|i: int| 0 <= i < content.len() && !text::is_space(#[trigger] content[i])
    &&& cs.len() > 0
}

/// Whether the edges of a relation are what they were apart from the document's earlier parts.
pub open spec fn is_as_before(g: GraphV, rel: Seq<char>, q: Relation, after: GraphV) -> bool {
    let p = text::replace_char(rel, '\\', '/');
    forall|s: Seq<char>, t: Seq<char>| #[trigger]
        has_edge(after, s, t, q) <==> was_apart(g, p, s, t, q)
}

/// Whether the parts of a document, and nothing else, were built in place of earlier ones.
pub open spec fn are_built(
    g: GraphV,
    rel: Seq<char>,
    content: Seq<char>,
    cs: Seq<DocChunkV>,
    files: Option<Seq<Seq<char>>>,
    after: GraphV,
) -> bool {
    &&& forall|q: Relation|
        q != Relation::Contains && q != Relation::Imports ==> #[trigger] is_as_before(
            g,
            rel,
            q,
            after,
        )
    &&& if is_buildable(g, rel, content, cs) {
        &&& are_hung(g, rel, cs, after)
        &&& are_there(rel, cs, cs.len() as int, after)
        &&& match files {
            Some(fs) => if links::has_links(rel) {
                is_as_before(g, rel, Relation::Imports, after)
            } else {
                are_drawn(g, rel, content, fs, after)
            },
            None => is_as_before(g, rel, Relation::Imports, after),
        }
    } else {
        is_as_before(g, rel, Relation::Contains, after) && is_as_before(
            g,
            rel,
            Relation::Imports,
            after,
        )
    }
}

proof fn lemma_buildable(g: GraphV, rel: Seq<char>, content: Seq<char>, cs: Seq<DocChunkV>)
    ensures
        chunk::has_parts(
            views::without_parts(g, text::replace_char(rel, '\\', '/')),
            rel,
            content,
            cs,
        ) <==> is_buildable(g, rel, content, cs),
{
    let p = text::replace_char(rel, '\\', '/');
    let bare = views::without_parts(g, p);
    let doc = builder::doc_id(rel);
    rows::lemma_kept(g.nodes, views::is_no_part(p));
    rows::lemma_row_index(bare.nodes, views::nv_key(), doc, 0);
    text::lemma_blank(content);
    if views::has_node(bare, doc) {
        let i = views::find_node(bare.nodes, doc)->0;
        assert(g.nodes.contains(bare.nodes[i]));
        let j = choose|j: int| 0 <= j < g.nodes.len() && g.nodes[j] == bare.nodes[i];
        assert(views::is_no_part(p)(bare.nodes[i]));
        assert(g.nodes[j].id == doc);
    } else {
        assert forall|j: int|
            0 <= j < g.nodes.len() && (#[trigger] g.nodes[j]).id == doc implies g.nodes[j].path
            == Some(p) && (g.nodes[j].node_type == NodeType::Chunk || g.nodes[j].node_type
            == NodeType::Section) by {
            if views::is_no_part(p)(g.nodes[j]) {
                assert(bare.nodes.contains(g.nodes[j]));
                let i = choose|i: int| 0 <= i < bare.nodes.len() && bare.nodes[i] == g.nodes[j];
                assert(views::nv_key()(bare.nodes[i]) != doc);
            }
        }
    }
}

/// Building a document hangs each chunk at the section of its headings and each section at the
/// document, a chunk without headings at the document itself; it leaves nothing of earlier
/// parts, and what has nothing to do with the document stays.
pub proof fn law_chunks_hang_at_their_sections(
    g: GraphV,
    rel: Seq<char>,
    content: Seq<char>,
    cs: Seq<DocChunkV>,
    files: Option<Seq<Seq<char>>>,
    now: i64,
)
    ensures
        are_built(
            g,
            rel,
            content,
            cs,
            files,
            chunk::with_parts(g, rel, content, cs, files, now),
        ),
{
    let p = text::replace_char(rel, '\\', '/');
    let bare = views::without_parts(g, p);
    let after = chunk::with_parts(g, rel, content, cs, files, now);
    let n = cs.len() as int;
    let doc = builder::doc_id(rel);
    lemma_buildable(g, rel, content, cs);
    if !is_buildable(g, rel, content, cs) {
        assert forall|q: Relation| #[trigger] is_as_before(g, rel, q, after) by {
            assert forall|s: Seq<char>, t: Seq<char>| #[trigger]
                has_edge(after, s, t, q) <==> was_apart(g, p, s, t, q) by {
                lemma_bare_edges(g, p, s, t, q);
            }
        }
    } else {
        let built = chunk::with_chunks(bare, rel, cs, n, now).g;
        let names = chunk::imports_of(content);
        let few = views::fewer_edges(built, views::not_made_from_by(doc, "IMPORTS"@));
        let drawn = files is Some && !links::has_links(rel);
        assert forall|s: Seq<char>, t: Seq<char>, q: Relation| q != Relation::Imports implies (
        #[trigger] has_edge(after, s, t, q) <==> was_apart(g, p, s, t, q) || (q
            == Relation::Contains && some_brings(rel, cs, n, s, t))) by {
            lemma_bare_edges(g, p, s, t, q);
            lemma_hung(bare, rel, cs, n, now, s, t, q);
            if drawn {
                lemma_fewer(built, doc, s, t, q);
                lemma_drawn(few, rel, names, files->0, names.len() as int, now, s, t, q);
            }
        }
        assert forall|q: Relation| q != Relation::Contains && q != Relation::Imports implies
            #[trigger] is_as_before(g, rel, q, after) by {
            assert forall|s: Seq<char>, t: Seq<char>| #[trigger]
                has_edge(after, s, t, q) <==> was_apart(g, p, s, t, q) by {}
        }
        assert(are_hung(g, rel, cs, after));
        lemma_there(bare, rel, cs, n, now);
        if drawn {
            lemma_drawn(
                few,
                rel,
                names,
                files->0,
                names.len() as int,
                now,
                Seq::empty(),
                Seq::empty(),
                Relation::Imports,
            );
        }
        assert(after.nodes == built.nodes);
        assert forall|k: int| 0 <= k < n implies is_there(rel, #[trigger] cs[k], k as nat, after) by {
            let x = chunk::chunk_node(rel, cs[k], k as nat);
            assert(is_put(after.nodes, x));
            let i = choose|i: int|
                0 <= i < after.nodes.len() && (#[trigger] after.nodes[i]) == (NodeV {
                    degree: None,
                    created_at: after.nodes[i].created_at,
                    ..x
                });
            assert(is_node_of(rel, cs[k], k as nat, after.nodes[i]));
            if cs[k].path.len() > 0 {
                assert(has_section(after.nodes, rel, chunk::section_id(rel, cs[k].path)));
            }
        }
        if drawn {
            assert forall|s: Seq<char>, t: Seq<char>| #[trigger]
                has_edge(after, s, t, Relation::Imports) <==> was_drawn_elsewhere(g, rel, s, t) || (
                s == doc && is_imported(after, rel, names, files->0, names.len() as int, t)) by {
                lemma_drawn_elsewhere(g, rel, cs, now, s, t);
                lemma_fewer(built, doc, s, t, Relation::Imports);
                lemma_drawn(
                    few,
                    rel,
                    names,
                    files->0,
                    names.len() as int,
                    now,
                    s,
                    t,
                    Relation::Imports,
                );
            }
        } else {
            assert forall|s: Seq<char>, t: Seq<char>| #[trigger]
                has_edge(after, s, t, Relation::Imports) <==> was_apart(
                    g,
                    p,
                    s,
                    t,
                    Relation::Imports,
                ) by {
                lemma_bare_edges(g, p, s, t, Relation::Imports);
                lemma_hung(bare, rel, cs, n, now, s, t, Relation::Imports);
            }
        }
    }
}

/// Of a document that is built, a chunk with headings is contained in the section of its
/// headings and not in the document itself, and one without headings in the document.
pub proof fn law_a_chunk_is_in_its_section(
    g: GraphV,
    rel: Seq<char>,
    content: Seq<char>,
    cs: Seq<DocChunkV>,
    files: Option<Seq<Seq<char>>>,
    now: i64,
    k: int,
)
    requires
        0 <= k < cs.len(),
        is_buildable(g, rel, content, cs),
    ensures
        ({
            let p = text::replace_char(rel, '\\', '/');
            let after = chunk::with_parts(g, rel, content, cs, files, now);
            let doc = builder::doc_id(rel);
            let section = chunk::section_id(rel, cs[k].path);
            let id = chunk::chunk_id(rel, k as nat);
            let stray = has_edge(g, doc, id, Relation::Contains) && !is_old_part(g, p, doc)
                && !is_old_part(g, p, id);
            &&& cs[k].path.len() > 0 ==> has_edge(after, section, id, Relation::Contains)
                && has_edge(after, doc, section, Relation::Contains) && (!stray ==> !has_edge(
                after,
                doc,
                id,
                Relation::Contains,
            ))
            &&& cs[k].path.len() == 0 ==> has_edge(after, doc, id, Relation::Contains)
        }),
{
    let after = chunk::with_parts(g, rel, content, cs, files, now);
    let doc = builder::doc_id(rel);
    let section = chunk::section_id(rel, cs[k].path);
    let id = chunk::chunk_id(rel, k as nat);
    let n = cs.len() as int;
    law_chunks_hang_at_their_sections(g, rel, content, cs, files, now);
    if cs[k].path.len() > 0 {
        assert(brings(rel, cs[k], k as nat, section, id));
        assert(some_brings(rel, cs, n, section, id));
        assert(brings(rel, cs[k], k as nat, doc, section));
        assert(some_brings(rel, cs, n, doc, section));
        if some_brings(rel, cs, n, doc, id) {
            let j = choose|j: int| 0 <= j < n && brings(rel, #[trigger] cs[j], j as nat, doc, id);
            lemma_ids_differ(rel, cs[j].path, k as nat, j as nat);
        }
    } else {
        assert(brings(rel, cs[k], k as nat, doc, id));
        assert(some_brings(rel, cs, n, doc, id));
    }
}

} // verus!
