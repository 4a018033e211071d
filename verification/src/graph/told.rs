//! What is told of the graph: gaps, contradictions, evidence, preferences and trends.

use crate::graph::advice;
use crate::graph::ai;
use crate::graph::ai::LlmReply;
use crate::graph::chunk;
use crate::graph::cluster_engine;
use crate::graph::cluster_engine::LinkV;
use crate::graph::grouped;
use crate::graph::hung;
use crate::graph::insight;
use crate::graph::insight::ConflictCase;
use crate::graph::joined;
use crate::graph::lists;
use crate::graph::merger;
use crate::graph::merger::MergeV;
use crate::graph::model::{GraphNode, NodeType, Relation};
use crate::graph::rag;
use crate::graph::rag::HybridHit;
use crate::graph::store;
use crate::graph::store::{EdgeRow, GraphStore};
use crate::graph::views;
use crate::graph::views::GraphV;
use crate::rows;
use crate::text;
use vstd::prelude::*;

verus! {

// ---- Gaps

/// Whether an entity of the name is a member of the cluster.
pub open spec fn is_entity_of(s: GraphStore, id: Seq<char>, x: Seq<char>) -> bool {
    exists|i: int|
        0 <= i < insight::members_in(s, id).len() && (#[trigger] insight::members_in(s, id)[i]).name@ == x
            && insight::members_in(s, id)[i].node_type == NodeType::Entity
}

proof fn lemma_all_entities(s: GraphStore, id: Seq<char>, x: Seq<char>)
    ensures
        insight::all_entities(s, id).contains(x) <==> is_entity_of(s, id, x),
{
    let ms = insight::members_in(s, id);
    let p = lists::of_type(NodeType::Entity);
    let es = rows::kept(ms, p);
    let names = insight::all_entities(s, id);
    rows::lemma_kept(ms, p);
    if names.contains(x) {
        let k = choose|k: int| 0 <= k < names.len() && names[k] == x;
        assert(p(es[k]));
        let i = choose|i: int| 0 <= i < ms.len() && ms[i] == es[k];
        assert(ms[i].name@ == x);
    }
    if is_entity_of(s, id, x) {
        let i = choose|i: int|
            0 <= i < ms.len() && (#[trigger] ms[i]).name@ == x && ms[i].node_type == NodeType::Entity;
        assert(p(ms[i]));
        let k = choose|k: int| 0 <= k < es.len() && es[k] == ms[i];
        assert(names[k] == x);
    }
}

/// Whether a link of the first `n` leads from the cluster to one that has an entity of the
/// name.
pub open spec fn is_known_near(s: GraphStore, links: Seq<LinkV>, id: Seq<char>, n: int, x: Seq<char>) -> bool {
    exists|k: int|
        0 <= k < n && is_entity_of(
            s,
            if (#[trigger] links[k]).source == id {
                links[k].target
            } else {
                links[k].source
            },
            x,
        )
}

proof fn lemma_linked(s: GraphStore, links: Seq<LinkV>, id: Seq<char>, n: int, x: Seq<char>)
    requires
        0 <= n <= links.len(),
    ensures
        insight::linked_entities(s, links, id, n).contains(x) <==> is_known_near(s, links, id, n, x),
        insight::linked_entities(s, links, id, n).no_duplicates(),
    decreases n,
{
    let all = insight::linked_entities(s, links, id, n);
    if n > 0 {
        let before = insight::linked_entities(s, links, id, n - 1);
        let names = insight::all_entities(s, insight::other_end(links[n - 1], id));
        lemma_linked(s, links, id, n - 1, x);
        lemma_all_entities(s, insight::other_end(links[n - 1], id), x);
        joined::law_names_are_noted_once(before, names, names.len() as int);
        assert forall|i: int| 0 <= i < before.len() implies #[trigger] all[i] == before[i] by {
            assert(all.take(before.len() as int)[i] == all[i]);
        }
        assert forall|a: int, b: int| 0 <= a < b < all.len() implies #[trigger] all[a] != #[trigger] all[b] by {
            if b < before.len() {
                assert(before[a] != before[b]);
            }
        }
        if before.contains(x) {
            let k = choose|k: int| 0 <= k < before.len() && before[k] == x;
            assert(all[k] == x);
            let j = choose|j: int|
                0 <= j < n - 1 && is_entity_of(
                    s,
                    if (#[trigger] links[j]).source == id {
                        links[j].target
                    } else {
                        links[j].source
                    },
                    x,
                );
            assert(links[j] == links[j]);
        }
        if all.contains(x) {
            let k = choose|k: int| 0 <= k < all.len() && all[k] == x;
            if k < before.len() {
                assert(before[k] == x);
            } else {
                assert(names.contains(x));
                assert(links[n - 1] == links[n - 1]);
            }
        }
        if names.contains(x) {
            let k = choose|k: int| 0 <= k < names.len() && names[k] == x;
            assert(all.contains(names[k]));
        }
        if is_known_near(s, links, id, n, x) && !is_known_near(s, links, id, n - 1, x) {
            assert(names.contains(x));
        }
    }
}

/// What a cluster lacks, where no model tells, are names of entities that clusters linked
/// with it have and that it does not have itself, each once; and as long as there are not too
/// many, every such name.
pub proof fn law_gaps_are_what_neighbours_know(s: GraphStore, id: Seq<char>, x: Seq<char>)
    ensures
        ({
            let links = cluster_engine::links_of(s, id);
            let own = insight::entity_names(insight::members_in(s, id), insight::BRIEF_ENTITIES as nat);
            let r = insight::missing_by_neighbors(s, id);
            &&& r.no_duplicates()
            &&& r.len() <= insight::GAP_LIMIT
            &&& forall|k: int|
                0 <= k < links.len() ==> (#[trigger] links[k]).source == id || links[k].target == id
            &&& r.contains(x) ==> is_known_near(s, links, id, links.len() as int, x) && forall|i: int|
                0 <= i < own.len() ==> merger::canonical(#[trigger] own[i]) != merger::canonical(x)
            &&& is_known_near(s, links, id, links.len() as int, x) && (forall|i: int|
                0 <= i < own.len() ==> merger::canonical(#[trigger] own[i]) != merger::canonical(x))
                && r.len() < insight::GAP_LIMIT ==> r.contains(x)
        }),
{
    let links = cluster_engine::links_of(s, id);
    let own = insight::entity_names(insight::members_in(s, id), insight::BRIEF_ENTITIES as nat);
    let near = insight::neighbor_entities(s, id);
    let p = insight::uncovered(own);
    let hits = rows::kept(near, p);
    let r = insight::missing_by_neighbors(s, id);
    lemma_linked(s, links, id, links.len() as int, x);
    rows::lemma_kept(near, p);
    rows::lemma_kept_distinct(near, p, |y: Seq<char>| y);
    let key = |y: Seq<char>| y;
    rows::lemma_kept(cluster_engine::all_links(s), cluster_engine::links_cluster(id));
    assert forall|k: int| 0 <= k < links.len() implies (#[trigger] links[k]).source == id
        || links[k].target == id by {
        assert(cluster_engine::links_cluster(id)(links[k]));
    }
    assert forall|a: int, b: int| 0 <= a < b < r.len() implies #[trigger] r[a] != #[trigger] r[b] by {
        assert(r[a] == hits[a] && r[b] == hits[b]);
        assert(key(hits[a]) != key(hits[b]));
    }
    if r.contains(x) {
        let k = choose|k: int| 0 <= k < r.len() && r[k] == x;
        assert(hits[k] == x);
        assert(p(hits[k]));
        assert(near.contains(x));
    }
    if is_known_near(s, links, id, links.len() as int, x) && (forall|i: int|
        0 <= i < own.len() ==> merger::canonical(#[trigger] own[i]) != merger::canonical(x)) && r.len()
        < insight::GAP_LIMIT {
        let k = choose|k: int| 0 <= k < near.len() && near[k] == x;
        assert(p(near[k]));
        assert(hits.contains(x));
        assert(r == hits);
    }
}

// ---- Contradictions

/// Whether the document at the path is another node that an edge joins with the node.
pub open spec fn is_source(nodes: Seq<GraphNode>, edges: Seq<EdgeRow>, id: Seq<char>, p: Seq<char>) -> bool {
    exists|i: int|
        0 <= i < nodes.len() && (#[trigger] nodes[i]).node_type == NodeType::Doc && nodes[i].path is Some
            && nodes[i].path->0@ == p && nodes[i].id@ != id && grouped::are_joined(
            edges,
            id,
            nodes[i].id@,
        )
}

/// The documents that an entity comes from are those that edges join with it, each once.
pub proof fn law_sources_are_joined(nodes: Seq<GraphNode>, edges: Seq<EdgeRow>, id: Seq<char>, n: int)
    requires
        0 <= n <= edges.len(),
    ensures
        lists::source_docs(nodes, edges, id, n).no_duplicates(),
        forall|k: int|
            0 <= k < lists::source_docs(nodes, edges, id, n).len() ==> is_source(
                nodes,
                edges.take(n),
                id,
                #[trigger] lists::source_docs(nodes, edges, id, n)[k],
            ),
    decreases n,
{
    if n > 0 {
        let before = lists::source_docs(nodes, edges, id, n - 1);
        let all = lists::source_docs(nodes, edges, id, n);
        let fewer = edges.take(n - 1);
        let some = edges.take(n);
        let e = edges[n - 1];
        law_sources_are_joined(nodes, edges, id, n - 1);
        assert(some[n - 1] == e);
        let other = if e.source@ == id {
            e.target@
        } else {
            e.source@
        };
        rows::lemma_row_index(nodes, store::node_key(), other, 0);
        assert forall|k: int| 0 <= k < all.len() implies is_source(nodes, some, id, #[trigger] all[k]) by {
            if k < before.len() {
                assert(all[k] == before[k]);
                let i = choose|i: int|
                    0 <= i < nodes.len() && (#[trigger] nodes[i]).node_type == NodeType::Doc
                        && nodes[i].path is Some && nodes[i].path->0@ == before[k] && nodes[i].id@ != id
                        && grouped::are_joined(fewer, id, nodes[i].id@);
                let j = choose|j: int|
                    0 <= j < fewer.len() && (((#[trigger] fewer[j]).source@ == id && fewer[j].target@
                        == nodes[i].id@) || (fewer[j].target@ == id && fewer[j].source@ == nodes[i].id@));
                assert(some[j] == fewer[j]);
                assert(grouped::are_joined(some, id, nodes[i].id@));
            } else {
                let i = store::node_index(nodes, other)->0;
                assert(store::node_key()(nodes[i]) == other);
                assert(grouped::are_joined(some, id, nodes[i].id@));
            }
        }
    }
}

/// Every document that an edge joins with an entity is one that it comes from.
pub proof fn law_every_joined_document_is_a_source(
    nodes: Seq<GraphNode>,
    edges: Seq<EdgeRow>,
    id: Seq<char>,
    n: int,
    i: int,
)
    requires
        0 <= n <= edges.len(),
        rows::unique(nodes, store::node_key()),
        0 <= i < nodes.len(),
        nodes[i].node_type == NodeType::Doc && nodes[i].path is Some && nodes[i].id@ != id,
        grouped::are_joined(edges.take(n), id, nodes[i].id@),
    ensures
        lists::source_docs(nodes, edges, id, n).contains(nodes[i].path->0@),
    decreases n,
{
    let some = edges.take(n);
    let p = nodes[i].path->0@;
    let j = choose|j: int|
        0 <= j < some.len() && (((#[trigger] some[j]).source@ == id && some[j].target@ == nodes[i].id@) || (
        some[j].target@ == id && some[j].source@ == nodes[i].id@));
    let before = lists::source_docs(nodes, edges, id, n - 1);
    let all = lists::source_docs(nodes, edges, id, n);
    if j < n - 1 {
        let fewer = edges.take(n - 1);
        assert(fewer[j] == some[j]);
        law_every_joined_document_is_a_source(nodes, edges, id, n - 1, i);
        let k = choose|k: int| 0 <= k < before.len() && before[k] == p;
        assert(all[k] == p);
    } else {
        rows::lemma_row_index_at(nodes, store::node_key(), i);
        if before.contains(p) {
            let k = choose|k: int| 0 <= k < before.len() && before[k] == p;
            assert(all[k] == p);
        } else {
            assert(all[all.len() - 1] == p);
        }
    }
}

/// Where two documents may contradict each other they differ, both belong to the entity, and
/// the entity is one of those that are looked at; and every entity with two documents is.
pub proof fn law_two_documents_may_contradict(s: GraphStore, es: Seq<(Seq<char>, u32)>, n: int)
    requires
        0 <= n <= es.len(),
    ensures
        ({
            let r = insight::pairs_of(s, es, n);
            &&& forall|k: int|
                0 <= k < r.len() ==> {
                    let p = #[trigger] r[k];
                    &&& p.doc_a != p.doc_b
                    &&& is_source(s.nodes@, s.edges@, p.entity_id, p.doc_a)
                    &&& is_source(s.nodes@, s.edges@, p.entity_id, p.doc_b)
                    &&& exists|j: int| 0 <= j < n && (#[trigger] es[j]).0 == p.entity_id
                }
            &&& forall|j: int|
                0 <= j < n && insight::sources_of(s, (#[trigger] es[j]).0).len() >= 2 ==> exists|k: int|
                    0 <= k < r.len() && (#[trigger] r[k]).entity_id == es[j].0
        }),
    decreases n,
{
    if n > 0 {
        let before = insight::pairs_of(s, es, n - 1);
        let r = insight::pairs_of(s, es, n);
        law_two_documents_may_contradict(s, es, n - 1);
        let id = es[n - 1].0;
        let docs = insight::sources_of(s, id);
        law_sources_are_joined(s.nodes@, s.edges@, id, s.edges@.len() as int);
        assert(s.edges@.take(s.edges@.len() as int) =~= s.edges@);
        if docs.len() >= 2 {
            assert(docs[0] != docs[1]);
            assert(is_source(s.nodes@, s.edges@, id, docs[0]));
            assert(is_source(s.nodes@, s.edges@, id, docs[1]));
        }
        assert forall|k: int| 0 <= k < r.len() implies {
            let p = #[trigger] r[k];
            &&& p.doc_a != p.doc_b
            &&& is_source(s.nodes@, s.edges@, p.entity_id, p.doc_a)
            &&& is_source(s.nodes@, s.edges@, p.entity_id, p.doc_b)
            &&& exists|j: int| 0 <= j < n && (#[trigger] es[j]).0 == p.entity_id
        } by {
            if k < before.len() {
                assert(r[k] == before[k]);
            } else {
                assert(es[n - 1].0 == r[k].entity_id);
            }
        }
        assert forall|j: int| 0 <= j < n && insight::sources_of(s, (#[trigger] es[j]).0).len() >= 2 implies exists|
            k: int,
        |
            0 <= k < r.len() && (#[trigger] r[k]).entity_id == es[j].0 by {
            if j < n - 1 {
                let k = choose|k: int| 0 <= k < before.len() && (#[trigger] before[k]).entity_id == es[j].0;
                assert(r[k].entity_id == es[j].0);
            } else {
                assert(r[r.len() - 1].entity_id == id);
            }
        }
    }
}

/// What is shown of a text has the name in its middle where the name is in it: it reaches as
/// far as asked for to either side of the first place of the name, or to the text's end.
pub proof fn law_what_stands_around_a_name(content: Seq<char>, entity: Seq<char>, radius: nat, i: int)
    requires
        text::occurs_at(content, text::after_last(entity, ':'), i),
        forall|j: int| 0 <= j < i ==> !text::occurs_at(content, text::after_last(entity, ':'), j),
    ensures
        exists|from: int, to: int|
            0 <= from <= i <= to <= content.len() && #[trigger] content.subrange(from, to)
                == insight::around(content, entity, radius) && (from == 0 || from == i - radius) && from
                >= i - radius && (to == content.len() || to == i + radius) && to <= i + radius,
{
    let name = text::after_last(entity, ':');
    text::lemma_find_from(content, name, 0);
    assert(text::find(content, name) is Some) by {
        if text::find(content, name) is None {
            assert(!text::occurs_at(content, name, i));
        }
    }
    let k = text::find(content, name)->0;
    if k < i {
        assert(!text::occurs_at(content, name, k));
    }
    if i < k {
        assert(!text::occurs_at(content, name, i));
    }
    let from: int = if i < radius {
        0
    } else {
        i - radius
    };
    let to: int = if i + radius < content.len() {
        i + radius
    } else {
        content.len() as int
    };
    assert(content.subrange(from, to) == insight::around(content, entity, radius));
}

/// A contradiction is told of just the cases in whose reply a model says that there is one,
/// with the documents of the case, each claim with its document.
pub proof fn law_contradictions_are_those_told(cs: Seq<ConflictCase>, replies: Seq<LlmReply>, n: int)
    requires
        0 <= n <= cs.len(),
        n <= replies.len(),
    ensures
        ({
            let r = insight::told_conflicts(cs, replies, n);
            &&& r.len() <= n
            &&& forall|k: int|
                0 <= k < r.len() ==> exists|i: int|
                    #![trigger cs[i]]
                    0 <= i < n && insight::told_conflict(cs[i], replies[i]) == Some(#[trigger] r[k])
                        && r[k].source_a == cs[i].pair.doc_a@ && r[k].source_b == cs[i].pair.doc_b@
                        && is_start(cs[i].snippet_a@, r[k].claim_a) && is_start(
                        cs[i].snippet_b@,
                        r[k].claim_b,
                    )
            &&& forall|i: int|
                0 <= i < n ==> (insight::told_conflict(#[trigger] cs[i], replies[i]) matches Some(c)
                    ==> r.contains(c))
        }),
    decreases n,
{
    if n > 0 {
        let before = insight::told_conflicts(cs, replies, n - 1);
        let r = insight::told_conflicts(cs, replies, n);
        law_contradictions_are_those_told(cs, replies, n - 1);
        assert forall|k: int| 0 <= k < r.len() implies exists|i: int|
            #![trigger cs[i]]
            0 <= i < n && insight::told_conflict(cs[i], replies[i]) == Some(#[trigger] r[k])
                && r[k].source_a == cs[i].pair.doc_a@ && r[k].source_b == cs[i].pair.doc_b@ && is_start(
                cs[i].snippet_a@,
                r[k].claim_a,
            ) && is_start(cs[i].snippet_b@, r[k].claim_b) by {
            if k < before.len() {
                assert(r[k] == before[k]);
            } else {
                let c = cs[n - 1];
                lemma_start(c.snippet_a@, insight::CLAIM_CHARS as nat);
                lemma_start(c.snippet_b@, insight::CLAIM_CHARS as nat);
                assert(insight::told_conflict(cs[n - 1], replies[n - 1]) == Some(r[k]));
            }
        }
        assert forall|i: int| 0 <= i < n implies (insight::told_conflict(#[trigger] cs[i], replies[i]) matches Some(
            c,
        ) ==> r.contains(c)) by {
            if let Some(c) = insight::told_conflict(cs[i], replies[i]) {
                if i < n - 1 {
                    assert(before.contains(c));
                    let k = choose|k: int| 0 <= k < before.len() && before[k] == c;
                    assert(r[k] == c);
                } else {
                    assert(r[r.len() - 1] == c);
                }
            }
        }
    }
}

/// Whether a text is another one or the beginning of it with three dots behind.
pub open spec fn is_start(s: Seq<char>, r: Seq<char>) -> bool {
    r == s || (r.len() > 0 && r.last() == '…' && r.len() <= s.len() && r.drop_last() == s.take(
        r.len() - 1,
    ))
}

proof fn lemma_start(s: Seq<char>, max: nat)
    ensures
        is_start(s, text::ellipsized(s, max)),
        s.len() <= max ==> text::ellipsized(s, max) == s,
        s.len() > max ==> text::ellipsized(s, max).len() == max + 1,
{
    let r = text::ellipsized(s, max);
    if s.len() > max {
        assert(r.drop_last() =~= s.take(max as int));
    }
}

// ---- Evidence

/// An answer rests on the first hits of the search, each with its document and its part, and
/// behind them on the first relations, each once.
pub proof fn law_evidence_is_what_was_found(hits: Seq<HybridHit>, lines: Seq<Seq<char>>)
    ensures
        ({
            let r = rag::evidence_of(hits, lines);
            let n = if hits.len() < rag::EVIDENCE_HITS {
                hits.len() as int
            } else {
                rag::EVIDENCE_HITS as int
            };
            &&& r.len() >= n
            &&& forall|i: int|
                0 <= i < n ==> {
                    &&& (#[trigger] r[i]).source_doc == hits[i].doc@
                    &&& is_start(hits[i].text@, r[i].snippet)
                    &&& r[i].chunk_id == Some(
                        chunk::chunk_id(hits[i].doc@, hits[i].chunk_index as nat),
                    )
                }
            &&& forall|i: int|
                n <= i < r.len() ==> (#[trigger] r[i]).source_doc.len() == 0 && r[i].chunk_id is None
                    && lines.contains(r[i].snippet)
            &&& forall|i: int, j: int|
                n <= i < j < r.len() ==> (#[trigger] r[i]).snippet != (#[trigger] r[j]).snippet
            &&& forall|k: int|
                0 <= k < lines.len() && k < rag::EVIDENCE_LINES ==> exists|i: int|
                    n <= i < r.len() && (#[trigger] r[i]).snippet == #[trigger] lines[k]
        }),
{
    let r = rag::evidence_of(hits, lines);
    let some = rows::limited(hits, rag::EVIDENCE_HITS as nat);
    let first = rows::limited(lines, rag::EVIDENCE_LINES as nat);
    let once = text::distinct(first);
    let n = some.len() as int;
    text::lemma_distinct(first);
    assert forall|i: int| 0 <= i < n implies (#[trigger] r[i]).source_doc == hits[i].doc@ && is_start(
        hits[i].text@,
        r[i].snippet,
    ) && r[i].chunk_id == Some(chunk::chunk_id(hits[i].doc@, hits[i].chunk_index as nat)) by {
        assert(r[i] == rag::hit_evidence(some[i]));
        assert(some[i] == hits[i]);
        lemma_start(hits[i].text@, rag::EVIDENCE_CHARS as nat);
    }
    assert forall|i: int| n <= i < r.len() implies (#[trigger] r[i]) == rag::line_evidence(once[i - n])
        && lines.contains(r[i].snippet) by {
        assert(once.contains(once[i - n]));
        assert(first.contains(once[i - n]));
        let k = choose|k: int| 0 <= k < first.len() && first[k] == once[i - n];
        assert(lines[k] == first[k]);
    }
    assert forall|i: int, j: int| n <= i < j < r.len() implies (#[trigger] r[i]).snippet != (
    #[trigger] r[j]).snippet by {
        assert(once[i - n] != once[j - n]);
    }
    assert forall|k: int| 0 <= k < lines.len() && k < rag::EVIDENCE_LINES implies exists|i: int|
        n <= i < r.len() && (#[trigger] r[i]).snippet == #[trigger] lines[k] by {
        assert(first[k] == lines[k]);
        assert(first.contains(lines[k]));
        assert(once.contains(lines[k]));
        let j = choose|j: int| 0 <= j < once.len() && once[j] == lines[k];
        assert(r[n + j].snippet == lines[k]);
    }
}

// ---- Preferences and trends

/// What the user thinks of a topic is one edge to the entity that the topic means: that they
/// prefer it where they do, and that they avoid it where they do not; nothing else is said of
/// what they prefer or avoid.
pub proof fn law_a_preference_is_what_was_said(
    g: GraphV,
    topic: Seq<char>,
    preference: bool,
    source: Option<Seq<char>>,
    now: i64,
    a: Seq<char>,
    b: Seq<char>,
    q: Relation,
)
    requires
        merger::canonical(topic).len() > 0,
    ensures
        ({
            let m = MergeV { g, index: Seq::empty() };
            let with = merger::entity_step(m, topic, Seq::empty(), advice::doc_id(source), now);
            let r = advice::remembered(g, topic, preference, source, now);
            let id = ai::meant_entity(m, topic);
            &&& joined::means(with.index, merger::canonical(topic), id)
            &&& hung::has_edge(r, a, b, q) <==> hung::has_edge(with.g, a, b, q) || (a
                == advice::USER_ID@ && b == id && q == if preference {
                Relation::Prefers
            } else {
                Relation::Avoids
            })
        }),
{
    let m = MergeV { g, index: Seq::empty() };
    let with = merger::entity_step(m, topic, Seq::empty(), advice::doc_id(source), now);
    let id = ai::meant_entity(m, topic);
    let user = views::plain_node(
        advice::USER_ID@,
        NodeType::Memory,
        advice::USER_NAME@,
        None,
        None,
        None,
    );
    let put = views::put_node(with.g, user, now);
    joined::lemma_takes_its_names(m, topic, Seq::empty(), advice::doc_id(source), now);
    assert(put.edges == with.g.edges);
    assert(hung::has_edge(put, a, b, q) == hung::has_edge(with.g, a, b, q));
    hung::lemma_put_edge(
        put,
        advice::USER_ID@,
        id,
        advice::liking(preference),
        crate::graph::model::WHOLE,
        crate::graph::model::WHOLE,
        Some(advice::USER_ID@),
        now,
        a,
        b,
        q,
    );
}

/// The trend tells of the latest months, the latest first.
pub proof fn law_the_latest_months_come_first(months: Seq<(String, u64)>, n: int)
    requires
        0 <= n <= months.len(),
    ensures
        advice::month_lines(months, n).len() == n,
        forall|k: int|
            0 <= k < n ==> #[trigger] advice::month_lines(months, n)[k] == advice::month_line(
                months[months.len() - 1 - k],
            ),
    decreases n,
{
    if n > 0 {
        law_the_latest_months_come_first(months, n - 1);
    }
}

} // verus!
