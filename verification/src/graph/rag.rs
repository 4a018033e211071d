//! Answering questions from the graph and from what a search found.

use crate::graph::ai;
use crate::graph::ai::{LlmReply, LlmRequest};
use crate::graph::chunk;
use crate::graph::explore;
use crate::graph::insight;
use crate::graph::lists;
use crate::graph::merger;
use crate::graph::model::{
    GraphEdge, GraphEvidence, GraphNeighborhood, GraphNode, GraphQueryResult,
};
use crate::graph::query::Scope;
use crate::graph::store;
use crate::graph::store::{EdgeRow, GraphStore};
use crate::json;
use crate::rows;
use crate::text;
use crate::text::CharClass;
use vstd::prelude::*;

verus! {

/// How many nodes with a fitting name are looked at.
pub const NAME_HITS: u32 = 20;

/// How far the graph is followed around an entity.
pub const RAG_NODES: u32 = 40;

pub const RAG_EDGES: u32 = 80;

/// How much is shown as evidence, and how much is told to the model.
pub const EVIDENCE_HITS: usize = 8;

pub const EVIDENCE_LINES: usize = 20;

pub const EVIDENCE_CHARS: usize = 180;

pub const CONTEXT_LINES: usize = 30;

pub const CONTEXT_HITS: usize = 6;

pub const CONTEXT_CHARS: usize = 400;

pub const NAMED_DOCS: usize = 5;

pub const ANSWER_TOKENS: u32 = 1200;

pub const ENTITY_SYSTEM: &'static str = "你是知识图谱查询助手。从用户问题中提取要查询的实体/概念名（图谱中的名词），只输出 JSON：{\"entities\":[\"Redis\",\"Kafka\"]}。只提取问题中明确提到的实体，最多 5 个；没有则给空数组。除 JSON 外不要输出任何内容。";

pub const ANSWER_SYSTEM: &'static str = "你是本地知识图谱问答助手（GraphRAG）。基于「图谱关系证据」和「文档检索证据」回答用户问题。要求：1) 先陈述图谱中发现的实体关系；2) 引用证据来源文档；3) 不确定的信息明确说明；4) 回答简洁有条理（200 字内）。证据可能不完整，不要编造图中不存在的知识。";

/// What a search found: a part of a document and how well it fits.
#[derive(Debug, PartialEq, Eq)]
pub struct HybridHit {
    pub doc: String,
    pub text: String,
    /// The score with two decimals.
    pub score: String,
    pub chunk_index: u32,
}

/// What is known before the question is answered.
#[derive(Debug, PartialEq, Eq)]
pub struct RagDraft {
    pub entities: Vec<GraphNode>,
    pub related: Vec<GraphNode>,
    pub lines: Vec<String>,
}

// ---- Nodes by name

/// The index of the first one that fits, from `i` on.
pub open spec fn first_where(s: Seq<GraphNode>, p: spec_fn(GraphNode) -> bool, i: int) -> Option<int>
    decreases s.len() - i,
{
    if i < 0 || i >= s.len() {
        None
    } else if p(s[i]) {
        Some(i)
    } else {
        first_where(s, p, i + 1)
    }
}

pub open spec fn same_name(c: Seq<char>) -> spec_fn(GraphNode) -> bool {
    |n: GraphNode| merger::canonical(n.name@) == c
}

pub open spec fn overlapping_name(c: Seq<char>) -> spec_fn(GraphNode) -> bool {
    |n: GraphNode|
        {
            let h = merger::canonical(n.name@);
            (text::contains(h, c) && c.len() > 0) || text::contains(c, h)
        }
}

/// The node that a name means best: one with the name, one whose name has it or is in it,
/// or the first that a search finds.
pub open spec fn best_node(nodes: Seq<GraphNode>, name: Seq<char>) -> Option<GraphNode> {
    let c = merger::canonical(name);
    let hits = lists::found_nodes(nodes, name, NAME_HITS);
    if hits.len() == 0 {
        None
    } else {
        match first_where(hits, same_name(c), 0) {
            Some(i) => Some(hits[i]),
            None => match first_where(hits, overlapping_name(c), 0) {
                Some(i) => Some(hits[i]),
                None => Some(hits[0]),
            },
        }
    }
}

/// The nodes with one more, where it is not among them.
pub open spec fn with_new_node(s: Seq<GraphNode>, n: GraphNode) -> Seq<GraphNode> {
    if explore::has_id(s, n.id@) {
        s
    } else {
        s.push(n)
    }
}

/// The nodes that the first `n` names mean, each once.
pub open spec fn nodes_named(nodes: Seq<GraphNode>, names: Seq<Seq<char>>, n: int) -> Seq<GraphNode>
    decreases n,
{
    if n <= 0 {
        Seq::empty()
    } else {
        let before = nodes_named(nodes, names, n - 1);
        match best_node(nodes, names[n - 1]) {
            Some(x) => with_new_node(before, x),
            None => before,
        }
    }
}

pub open spec fn is_token() -> spec_fn(Seq<char>) -> bool {
    |t: Seq<char>| t.len() >= 2
}

/// The words of a question.
pub open spec fn tokens_of(question: Seq<char>) -> Seq<Seq<char>> {
    rows::kept(text::split_by(question, text::non_token()), is_token())
}

/// The nodes that a question is about: those that the names mean, or, where there are none,
/// those that its words mean.
pub open spec fn asked_nodes(nodes: Seq<GraphNode>, names: Seq<Seq<char>>, question: Seq<char>) -> Seq<
    GraphNode,
> {
    let by_name = nodes_named(nodes, names, names.len() as int);
    if by_name.len() > 0 {
        by_name
    } else {
        let ts = tokens_of(question);
        nodes_named(nodes, ts, ts.len() as int)
    }
}

pub(crate) fn lists_id(v: &Vec<GraphNode>, id: &String) -> (r: bool)
    ensures
        r == explore::has_id(v@, id@),
{
    let mut i: usize = 0;
    while i < v.len()
        invariant
            i <= v.len(),
            forall|k: int| 0 <= k < i ==> (#[trigger] v@[k]).id@ != id@,
        decreases v.len() - i,
    {
        if v[i].id == *id {
            return true;
        }
        i += 1;
    }
    false
}

fn first_same(hits: &Vec<GraphNode>, c: &String) -> (r: Option<usize>)
    ensures
        match r {
            Some(i) => first_where(hits@, same_name(c@), 0) == Some(i as int) && i < hits@.len(),
            None => first_where(hits@, same_name(c@), 0) is None,
        },
{
    let mut i: usize = 0;
    while i < hits.len()
        invariant
            i <= hits.len(),
            first_where(hits@, same_name(c@), 0) == first_where(hits@, same_name(c@), i as int),
        decreases hits.len() - i,
    {
        if merger::canonicalize(&hits[i].name) == *c {
            return Some(i);
        }
        i += 1;
    }
    None
}

fn first_overlap(hits: &Vec<GraphNode>, c: &String) -> (r: Option<usize>)
    ensures
        match r {
            Some(i) => first_where(hits@, overlapping_name(c@), 0) == Some(i as int) && i
                < hits@.len(),
            None => first_where(hits@, overlapping_name(c@), 0) is None,
        },
{
    let empty = text::chars_of(c).len() == 0;
    let mut i: usize = 0;
    while i < hits.len()
        invariant
            i <= hits.len(),
            empty == (c@.len() == 0),
            first_where(hits@, overlapping_name(c@), 0) == first_where(
                hits@,
                overlapping_name(c@),
                i as int,
            ),
        decreases hits.len() - i,
    {
        let h = merger::canonicalize(&hits[i].name);
        if (text::has_text(&h, c) && !empty) || text::has_text(c, &h) {
            return Some(i);
        }
        i += 1;
    }
    None
}

impl GraphStore {
    /// The node that a name means best.
    pub fn find_best_node(&self, name: &str) -> (r: Option<GraphNode>)
        ensures
            r == best_node(self.nodes@, name@),
    {
        let c = merger::canonicalize(name);
        let hits = self.search_nodes(name, NAME_HITS);
        if hits.len() == 0 {
            return None;
        }
        match first_same(&hits, &c) {
            Some(i) => Some(hits[i].clone()),
            None => match first_overlap(&hits, &c) {
                Some(i) => Some(hits[i].clone()),
                None => Some(hits[0].clone()),
            },
        }
    }

    fn nodes_by_name(&self, names: &Vec<String>) -> (r: Vec<GraphNode>)
        ensures
            r@ == nodes_named(self.nodes@, text::texts(names@), names@.len() as int),
    {
        let ghost nv = text::texts(names@);
        let mut out: Vec<GraphNode> = Vec::new();
        let mut i: usize = 0;
        while i < names.len()
            invariant
                i <= names.len(),
                nv == text::texts(names@),
                out@ == nodes_named(self.nodes@, nv, i as int),
            decreases names.len() - i,
        {
            assert(nv[i as int] == names@[i as int]@);
            if let Some(n) = self.find_best_node(&names[i]) {
                if !lists_id(&out, &n.id) {
                    out.push(n);
                }
            }
            i += 1;
        }
        out
    }

    /// The nodes that a question is about; `names` are the names that a model found in it.
    pub fn find_entities(&self, names: &Vec<String>, question: &str) -> (r: Vec<GraphNode>)
        ensures
            r@ == asked_nodes(self.nodes@, text::texts(names@), question@),
    {
        assert(text::texts(names@).len() == names@.len());
        let by_name = self.nodes_by_name(names);
        if by_name.len() > 0 {
            return by_name;
        }
        let parts = text::split_of(question, &CharClass::NonToken);
        let ghost pv = text::texts(parts@);
        let mut ts: Vec<String> = Vec::new();
        let mut i: usize = 0;
        assert(text::texts(ts@) =~= rows::kept(pv.take(0), is_token()));
        while i < parts.len()
            invariant
                i <= parts.len(),
                pv == text::texts(parts@),
                text::texts(ts@) == rows::kept(pv.take(i as int), is_token()),
            decreases parts.len() - i,
        {
            proof {
                assert(pv[i as int] == parts@[i as int]@);
                assert(pv.take(i + 1) == pv.take(i as int).push(pv[i as int]));
                rows::lemma_kept_push(pv.take(i as int), pv[i as int], is_token());
            }
            if text::chars_of(&parts[i]).len() >= 2 {
                let s = parts[i].clone();
                proof {
                    text::lemma_texts_push(ts@, s);
                }
                ts.push(s);
            }
            i += 1;
        }
        assert(pv.take(i as int) == pv);
        assert(text::texts(ts@).len() == ts@.len());
        self.nodes_by_name(&ts)
    }
}

// ---- The graph around the entities

/// What the graph around entities says.
pub struct RagV {
    pub related: Seq<GraphNode>,
    pub lines: Seq<Seq<char>>,
}

/// The related nodes with the first `n` nodes around a root.
pub open spec fn with_around(
    related: Seq<GraphNode>,
    root: Seq<char>,
    nodes: Seq<GraphNode>,
    n: int,
) -> Seq<GraphNode>
    decreases n,
{
    if n <= 0 {
        related
    } else {
        let before = with_around(related, root, nodes, n - 1);
        if nodes[n - 1].id@ == root {
            before
        } else {
            with_new_node(before, nodes[n - 1])
        }
    }
}

pub open spec fn has_the_id(id: Seq<char>) -> spec_fn(GraphNode) -> bool {
    |n: GraphNode| n.id@ == id
}

/// The name of a node among those that are known.
pub open spec fn name_among(
    related: Seq<GraphNode>,
    entities: Seq<GraphNode>,
    id: Seq<char>,
) -> Seq<char> {
    match first_where(related, has_the_id(id), 0) {
        Some(i) => related[i].name@,
        None => match first_where(entities, has_the_id(id), 0) {
            Some(i) => entities[i].name@,
            None => "?"@,
        },
    }
}

/// An edge as a line.
pub open spec fn relation_line(
    related: Seq<GraphNode>,
    entities: Seq<GraphNode>,
    e: GraphEdge,
) -> Seq<char> {
    name_among(related, entities, e.source@) + " --"@ + e.relation.name() + "--> "@ + name_among(
        related,
        entities,
        e.target@,
    )
}

pub open spec fn relation_lines(
    related: Seq<GraphNode>,
    entities: Seq<GraphNode>,
    edges: Seq<GraphEdge>,
) -> Seq<Seq<char>> {
    Seq::new(edges.len(), |i: int| relation_line(related, entities, edges[i]))
}

/// What the surroundings of the first `n` entities say.
pub open spec fn surroundings(
    entities: Seq<GraphNode>,
    around: Seq<GraphNeighborhood>,
    n: int,
) -> RagV
    decreases n,
{
    if n <= 0 {
        RagV { related: Seq::empty(), lines: Seq::empty() }
    } else {
        let before = surroundings(entities, around, n - 1);
        let a = around[n - 1];
        let related = with_around(
            before.related,
            entities[n - 1].id@,
            a.nodes@,
            a.nodes@.len() as int,
        );
        RagV { related, lines: before.lines + relation_lines(related, entities, a.edges@) }
    }
}

fn find_the_id(v: &Vec<GraphNode>, id: &String) -> (r: Option<usize>)
    ensures
        match r {
            Some(i) => first_where(v@, has_the_id(id@), 0) == Some(i as int) && i < v@.len(),
            None => first_where(v@, has_the_id(id@), 0) is None,
        },
{
    let mut i: usize = 0;
    while i < v.len()
        invariant
            i <= v.len(),
            first_where(v@, has_the_id(id@), 0) == first_where(v@, has_the_id(id@), i as int),
        decreases v.len() - i,
    {
        if v[i].id == *id {
            return Some(i);
        }
        i += 1;
    }
    None
}

fn name_of(related: &Vec<GraphNode>, entities: &Vec<GraphNode>, id: &String) -> (r: String)
    ensures
        r@ == name_among(related@, entities@, id@),
{
    match find_the_id(related, id) {
        Some(i) => related[i].name.clone(),
        None => match find_the_id(entities, id) {
            Some(i) => entities[i].name.clone(),
            None => "?".to_owned(),
        },
    }
}

fn line_of(related: &Vec<GraphNode>, entities: &Vec<GraphNode>, e: &GraphEdge) -> (r: String)
    ensures
        r@ == relation_line(related@, entities@, *e),
{
    let mut r = name_of(related, entities, &e.source);
    r.push_str(" --");
    r.push_str(e.relation.as_str());
    r.push_str("--> ");
    r.push_str(&name_of(related, entities, &e.target));
    assert(r@ =~= relation_line(related@, entities@, *e));
    r
}

/// What the surroundings of entities say: what is around them and the relations in it.
pub fn read_surroundings(entities: Vec<GraphNode>, around: &Vec<GraphNeighborhood>) -> (r: RagDraft)
    requires
        entities@.len() == around@.len(),
    ensures
        r.entities == entities,
        ({
            let s = surroundings(entities@, around@, entities@.len() as int);
            r.related@ == s.related && text::texts(r.lines@) == s.lines
        }),
{
    let mut related: Vec<GraphNode> = Vec::new();
    let mut lines: Vec<String> = Vec::new();
    let mut i: usize = 0;
    assert(text::texts(lines@) =~= Seq::empty());
    while i < entities.len()
        invariant
            i <= entities.len(),
            entities@.len() == around@.len(),
            related@ == surroundings(entities@, around@, i as int).related,
            text::texts(lines@) == surroundings(entities@, around@, i as int).lines,
        decreases entities.len() - i,
    {
        let ghost start = related@;
        let ghost before = text::texts(lines@);
        let ns = &around[i].nodes;
        let mut j: usize = 0;
        while j < ns.len()
            invariant
                i < entities.len(),
                j <= ns.len(),
                related@ == with_around(start, entities@[i as int].id@, ns@, j as int),
            decreases ns.len() - j,
        {
            if ns[j].id != entities[i].id && !lists_id(&related, &ns[j].id) {
                related.push(ns[j].clone());
            }
            j += 1;
        }
        let es = &around[i].edges;
        let ghost want = relation_lines(related@, entities@, es@);
        let mut k: usize = 0;
        assert(before + want.take(0) =~= before);
        while k < es.len()
            invariant
                k <= es.len(),
                want == relation_lines(related@, entities@, es@),
                text::texts(lines@) == before + want.take(k as int),
            decreases es.len() - k,
        {
            let line = line_of(&related, &entities, &es[k]);
            proof {
                text::lemma_texts_push(lines@, line);
                assert(want.take(k + 1) =~= want.take(k as int).push(want[k as int]));
                assert(before + want.take(k + 1) =~= (before + want.take(k as int)).push(
                    want[k as int],
                ));
            }
            lines.push(line);
            k += 1;
        }
        assert(want.take(k as int) =~= want);
        i += 1;
    }
    RagDraft { entities, related, lines }
}

/// Whether each is what is one step around the node.
pub open spec fn are_around(
    nodes: Seq<GraphNode>,
    edges: Seq<EdgeRow>,
    entities: Seq<GraphNode>,
    around: Seq<GraphNeighborhood>,
) -> bool {
    &&& around.len() == entities.len()
    &&& forall|i: int|
        0 <= i < entities.len() ==> is_around(nodes, edges, entities[i].id@, #[trigger] around[i])
}

pub open spec fn is_around(
    nodes: Seq<GraphNode>,
    edges: Seq<EdgeRow>,
    id: Seq<char>,
    a: GraphNeighborhood,
) -> bool {
    &&& !explore::is_node(nodes, id) ==> a.nodes@.len() == 0 && a.edges@.len() == 0
    &&& explore::is_node(nodes, id) ==> explore::is_neighborhood(
        nodes,
        edges,
        Scope { relations: None, weight_min: 0, limit: RAG_EDGES },
        id,
        1,
        RAG_NODES as nat,
        a,
    )
}

/// Whether a draft is what the graph says about a question in which the names were found.
pub open spec fn is_draft(
    s: GraphStore,
    names: Seq<Seq<char>>,
    question: Seq<char>,
    d: RagDraft,
) -> bool {
    &&& d.entities@ == asked_nodes(s.nodes@, names, question)
    &&& exists|around: Seq<GraphNeighborhood>|
        {
            &&& are_around(s.nodes@, s.edges@, d.entities@, around)
            &&& d.related@ == (#[trigger] surroundings(
                d.entities@,
                around,
                d.entities@.len() as int,
            )).related
            &&& text::texts(d.lines@) == surroundings(
                d.entities@,
                around,
                d.entities@.len() as int,
            ).lines
        }
}

/// What is asked of a model about the names in a question.
pub fn entity_request(question: &str) -> (r: LlmRequest)
    ensures
        r.system@ == ENTITY_SYSTEM@,
        r.user@ == question@,
        r.max_tokens is None,
{
    LlmRequest { system: ENTITY_SYSTEM.to_owned(), user: question.to_owned(), max_tokens: None }
}

pub open spec fn told_names(reply: LlmReply) -> Seq<Seq<char>> {
    match reply {
        LlmReply::Text(t) => json::string_list(t@, "/entities"@),
        _ => Seq::empty(),
    }
}

/// Whether a reply has been counted: one that came, one that failed, but not that there is
/// no model.
pub open spec fn is_reply_counted(a: GraphStore, b: GraphStore, reply: LlmReply) -> bool {
    &&& match reply {
        LlmReply::Text(_) => ai::is_counted(a.metrics@, b.metrics@, ai::CALLS@),
        LlmReply::Failed => ai::is_counted(a.metrics@, b.metrics@, ai::FAILURES@),
        LlmReply::NotConfigured => a.metrics == b.metrics,
    }
    &&& b == (GraphStore { metrics: b.metrics, ..a })
}

impl GraphStore {
    fn count_reply(&mut self, reply: &LlmReply)
        requires
            old(self).wf(),
        ensures
            final(self).wf(),
            is_reply_counted(*old(self), *final(self), *reply),
    {
        match reply {
            LlmReply::Text(_) => {
                self.count_one(ai::CALLS);
            },
            LlmReply::Failed => {
                self.count_one(ai::FAILURES);
            },
            LlmReply::NotConfigured => {},
        }
    }

    /// What the graph says about a question in which the names were found.
    pub fn draft_for(&self, names: &Vec<String>, question: &str) -> (d: RagDraft)
        ensures
            is_draft(*self, text::texts(names@), question@, d),
    {
        let entities = self.find_entities(names, question);
        let mut around: Vec<GraphNeighborhood> = Vec::new();
        let mut i: usize = 0;
        while i < entities.len()
            invariant
                i <= entities.len(),
                around@.len() == i,
                forall|k: int|
                    0 <= k < i ==> is_around(
                        self.nodes@,
                        self.edges@,
                        entities@[k].id@,
                        #[trigger] around@[k],
                    ),
            decreases entities.len() - i,
        {
            around.push(self.neighborhood(&entities[i].id, 1, RAG_NODES, RAG_EDGES, None, 0));
            i += 1;
        }
        let d = read_surroundings(entities, &around);
        assert(d.related@ == surroundings(
            d.entities@,
            around@,
            d.entities@.len() as int,
        ).related);
        d
    }

    /// Takes the names that a model found in a question, and reads the graph around them.
    pub fn rag_draft(&mut self, question: &str, reply: &LlmReply) -> (d: RagDraft)
        requires
            old(self).wf(),
        ensures
            final(self).wf(),
            is_draft(*old(self), told_names(*reply), question@, d),
            is_reply_counted(*old(self), *final(self), *reply),
    {
        let names = match reply {
            LlmReply::Text(t) => json::read_strings(t, "/entities"),
            _ => {
                let none: Vec<String> = Vec::new();
                assert(text::texts(none@) =~= Seq::empty());
                none
            },
        };
        let d = self.draft_for(&names, question);
        self.count_reply(reply);
        d
    }
}

// ---- Evidence

pub struct EvidenceV {
    pub source_doc: Seq<char>,
    pub snippet: Seq<char>,
    pub relation: Option<Seq<char>>,
    pub chunk_id: Option<Seq<char>>,
}

pub open spec fn evidence_view(e: GraphEvidence) -> EvidenceV {
    EvidenceV {
        source_doc: e.source_doc@,
        snippet: e.snippet@,
        relation: store::opt_view(e.relation),
        chunk_id: store::opt_view(e.chunk_id),
    }
}

pub open spec fn as_evidence() -> spec_fn(GraphEvidence) -> EvidenceV {
    |e: GraphEvidence| evidence_view(e)
}

pub open spec fn hit_evidence(h: HybridHit) -> EvidenceV {
    EvidenceV {
        source_doc: h.doc@,
        snippet: text::ellipsized(h.text@, EVIDENCE_CHARS as nat),
        relation: None,
        chunk_id: Some(chunk::chunk_id(h.doc@, h.chunk_index as nat)),
    }
}

pub open spec fn line_evidence(line: Seq<char>) -> EvidenceV {
    EvidenceV { source_doc: Seq::empty(), snippet: line, relation: None, chunk_id: None }
}

pub open spec fn all_hit_evidence(hits: Seq<HybridHit>) -> Seq<EvidenceV> {
    Seq::new(hits.len(), |i: int| hit_evidence(hits[i]))
}

pub open spec fn all_line_evidence(lines: Seq<Seq<char>>) -> Seq<EvidenceV> {
    Seq::new(lines.len(), |i: int| line_evidence(lines[i]))
}

/// What an answer rests on: what the search found, then the relations, each once.
pub open spec fn evidence_of(hits: Seq<HybridHit>, lines: Seq<Seq<char>>) -> Seq<EvidenceV> {
    all_hit_evidence(rows::limited(hits, EVIDENCE_HITS as nat)) + all_line_evidence(
        text::distinct(rows::limited(lines, EVIDENCE_LINES as nat)),
    )
}

/// What an answer rests on.
pub fn evidence(hits: &Vec<HybridHit>, lines: &Vec<String>) -> (r: Vec<GraphEvidence>)
    ensures
        rows::mapped(r@, as_evidence()) == evidence_of(hits@, text::texts(lines@)),
{
    let mut out: Vec<GraphEvidence> = Vec::new();
    let ghost first = all_hit_evidence(rows::limited(hits@, EVIDENCE_HITS as nat));
    let mut i: usize = 0;
    assert(rows::mapped(out@, as_evidence()) =~= first.take(0));
    while i < hits.len() && i < EVIDENCE_HITS
        invariant
            i <= hits.len(),
            i <= EVIDENCE_HITS,
            first == all_hit_evidence(rows::limited(hits@, EVIDENCE_HITS as nat)),
            rows::mapped(out@, as_evidence()) == first.take(i as int),
        decreases hits.len() - i,
    {
        let e = GraphEvidence {
            source_doc: hits[i].doc.clone(),
            snippet: text::ellipsize(&hits[i].text, EVIDENCE_CHARS),
            relation: None,
            chunk_id: Some(chunk::chunk_node_id(&hits[i].doc, hits[i].chunk_index)),
        };
        proof {
            rows::lemma_mapped_push(out@, as_evidence(), e);
            assert(first[i as int] == hit_evidence(hits@[i as int]));
            assert(first.take(i + 1) =~= first.take(i as int).push(first[i as int]));
        }
        out.push(e);
        i += 1;
    }
    assert(first.take(i as int) =~= first);
    let ghost lv = text::texts(lines@);
    let ghost some = rows::limited(lv, EVIDENCE_LINES as nat);
    let mut seen: Vec<String> = Vec::new();
    let mut j: usize = 0;
    assert(text::texts(seen@) =~= text::distinct(some.take(0)));
    while j < lines.len() && j < EVIDENCE_LINES
        invariant
            j <= lines.len(),
            j <= EVIDENCE_LINES,
            lv == text::texts(lines@),
            some == rows::limited(lv, EVIDENCE_LINES as nat),
            text::texts(seen@) == text::distinct(some.take(j as int)),
        decreases lines.len() - j,
    {
        proof {
            assert(some[j as int] == lines@[j as int]@);
            assert(some.take(j + 1) =~= some.take(j as int).push(some[j as int]));
            text::lemma_distinct_push(some.take(j as int), some[j as int]);
        }
        text::push_distinct(&mut seen, lines[j].clone());
        j += 1;
    }
    assert(some.take(j as int) =~= some);
    let ghost sv = text::texts(seen@);
    let ghost back = all_line_evidence(sv);
    let mut k: usize = 0;
    assert(first + back.take(0) =~= first);
    while k < seen.len()
        invariant
            k <= seen.len(),
            sv == text::texts(seen@),
            back == all_line_evidence(sv),
            rows::mapped(out@, as_evidence()) == first + back.take(k as int),
        decreases seen.len() - k,
    {
        let e = GraphEvidence {
            source_doc: String::new(),
            snippet: seen[k].clone(),
            relation: None,
            chunk_id: None,
        };
        proof {
            rows::lemma_mapped_push(out@, as_evidence(), e);
            assert(e.source_doc@ =~= Seq::<char>::empty());
            assert(sv[k as int] == seen@[k as int]@);
            assert(back[k as int] == evidence_view(e));
            assert(back.take(k + 1) =~= back.take(k as int).push(back[k as int]));
            assert(first + back.take(k + 1) =~= (first + back.take(k as int)).push(
                back[k as int],
            ));
        }
        out.push(e);
        k += 1;
    }
    assert(back.take(k as int) =~= back);
    out
}

// ---- The answer

pub open spec fn entity_list(entities: Seq<GraphNode>) -> Seq<char> {
    if entities.len() == 0 {
        "（未识别到图实体）"@
    } else {
        text::join(insight::node_names(entities), "、"@)
    }
}

pub open spec fn graph_context(lines: Seq<Seq<char>>) -> Seq<char> {
    if lines.len() == 0 {
        "（图中未发现相关关系）"@
    } else {
        text::join(rows::limited(lines, CONTEXT_LINES as nat), "\n"@)
    }
}

pub open spec fn hit_text(h: HybridHit) -> Seq<char> {
    "["@ + h.score@ + "] "@ + h.doc@ + "\n"@ + text::ellipsized(h.text@, CONTEXT_CHARS as nat)
}

pub open spec fn hit_texts(hits: Seq<HybridHit>) -> Seq<Seq<char>> {
    Seq::new(hits.len(), |i: int| hit_text(hits[i]))
}

pub open spec fn hit_docs(hits: Seq<HybridHit>) -> Seq<Seq<char>> {
    Seq::new(hits.len(), |i: int| hits[i].doc@)
}

pub open spec fn search_context(hits: Seq<HybridHit>) -> Seq<char> {
    text::join(hit_texts(rows::limited(hits, CONTEXT_HITS as nat)), "\n---\n"@)
}

pub open spec fn answer_question(
    question: Seq<char>,
    entities: Seq<GraphNode>,
    lines: Seq<Seq<char>>,
    hits: Seq<HybridHit>,
) -> Seq<char> {
    "问题："@ + question + "\n\n识别的图实体："@ + entity_list(entities) + "\n\n图谱关系证据：\n"@
        + graph_context(lines) + "\n\n文档检索证据：\n"@ + search_context(hits) + "\n"@
}

pub open spec fn opt_part(there: bool, part: Seq<char>) -> Seq<Seq<char>> {
    if there {
        seq![part]
    } else {
        Seq::empty()
    }
}

/// The answer where no model gives one: what was found.
pub open spec fn plain_answer(
    entities: Seq<GraphNode>,
    lines: Seq<Seq<char>>,
    hits: Seq<HybridHit>,
) -> Seq<char> {
    text::join(
        seq!["检测到图实体："@ + entity_list(entities)] + opt_part(
            graph_context(lines).len() > 0,
            "发现的关系：\n"@ + graph_context(lines),
        ) + opt_part(
            hits.len() > 0,
            "相关文档："@ + text::join(hit_docs(rows::limited(hits, NAMED_DOCS as nat)), "、"@),
        ),
        "\n\n"@,
    )
}

fn entity_list_of(entities: &Vec<GraphNode>) -> (r: String)
    ensures
        r@ == entity_list(entities@),
{
    if entities.len() == 0 {
        return "（未识别到图实体）".to_owned();
    }
    let mut names: Vec<String> = Vec::new();
    let mut i: usize = 0;
    while i < entities.len()
        invariant
            i <= entities.len(),
            names@.len() == i,
            forall|k: int| 0 <= k < i ==> (#[trigger] names@[k])@ == entities@[k].name@,
        decreases entities.len() - i,
    {
        names.push(entities[i].name.clone());
        i += 1;
    }
    assert(text::texts(names@) =~= insight::node_names(entities@));
    text::join_of(&names, "、")
}

fn graph_context_of(lines: &Vec<String>) -> (r: String)
    ensures
        r@ == graph_context(text::texts(lines@)),
{
    let ghost lv = text::texts(lines@);
    assert(lv.len() == lines@.len());
    if lines.len() == 0 {
        return "（图中未发现相关关系）".to_owned();
    }
    let mut some: Vec<String> = Vec::new();
    let mut i: usize = 0;
    while i < lines.len() && i < CONTEXT_LINES
        invariant
            i <= lines.len(),
            i <= CONTEXT_LINES,
            some@.len() == i,
            forall|k: int| 0 <= k < i ==> (#[trigger] some@[k])@ == lines@[k]@,
        decreases lines.len() - i,
    {
        some.push(lines[i].clone());
        i += 1;
    }
    assert(text::texts(some@) =~= rows::limited(lv, CONTEXT_LINES as nat));
    text::join_of(&some, "\n")
}

fn search_context_of(hits: &Vec<HybridHit>) -> (r: String)
    ensures
        r@ == search_context(hits@),
{
    let mut some: Vec<String> = Vec::new();
    let mut i: usize = 0;
    while i < hits.len() && i < CONTEXT_HITS
        invariant
            i <= hits.len(),
            i <= CONTEXT_HITS,
            some@.len() == i,
            forall|k: int| 0 <= k < i ==> (#[trigger] some@[k])@ == hit_text(hits@[k]),
        decreases hits.len() - i,
    {
        let mut t = "[".to_owned();
        t.push_str(&hits[i].score);
        t.push_str("] ");
        t.push_str(&hits[i].doc);
        t.push_str("\n");
        t.push_str(&text::ellipsize(&hits[i].text, CONTEXT_CHARS));
        assert(t@ =~= hit_text(hits@[i as int]));
        some.push(t);
        i += 1;
    }
    assert(text::texts(some@) =~= hit_texts(rows::limited(hits@, CONTEXT_HITS as nat)));
    text::join_of(&some, "\n---\n")
}

/// What is asked of a model to answer a question.
pub fn answer_request(question: &str, d: &RagDraft, hits: &Vec<HybridHit>) -> (r: LlmRequest)
    ensures
        r.system@ == ANSWER_SYSTEM@,
        r.user@ == answer_question(question@, d.entities@, text::texts(d.lines@), hits@),
        r.max_tokens == Some(ANSWER_TOKENS),
{
    let mut user = "问题：".to_owned();
    user.push_str(question);
    user.push_str("\n\n识别的图实体：");
    user.push_str(&entity_list_of(&d.entities));
    user.push_str("\n\n图谱关系证据：\n");
    user.push_str(&graph_context_of(&d.lines));
    user.push_str("\n\n文档检索证据：\n");
    user.push_str(&search_context_of(hits));
    user.push_str("\n");
    assert(user@ =~= answer_question(question@, d.entities@, text::texts(d.lines@), hits@));
    LlmRequest { system: ANSWER_SYSTEM.to_owned(), user, max_tokens: Some(ANSWER_TOKENS) }
}

/// The answer where no model gives one.
pub fn answer_plainly(d: &RagDraft, hits: &Vec<HybridHit>) -> (r: String)
    ensures
        r@ == plain_answer(d.entities@, text::texts(d.lines@), hits@),
{
    let ghost lv = text::texts(d.lines@);
    let mut first = "检测到图实体：".to_owned();
    first.push_str(&entity_list_of(&d.entities));
    let ghost p1 = "检测到图实体："@ + entity_list(d.entities@);
    assert(first@ =~= p1);
    let context = graph_context_of(&d.lines);
    let ghost p2 = opt_part(graph_context(lv).len() > 0, "发现的关系：\n"@ + graph_context(lv));
    let ghost p3 = opt_part(
        hits@.len() > 0,
        "相关文档："@ + text::join(hit_docs(rows::limited(hits@, NAMED_DOCS as nat)), "、"@),
    );
    let mut parts: Vec<String> = Vec::new();
    parts.push(first);
    if text::chars_of(&context).len() > 0 {
        let mut t = "发现的关系：\n".to_owned();
        t.push_str(&context);
        assert(t@ =~= "发现的关系：\n"@ + graph_context(lv));
        parts.push(t);
    }
    assert(text::texts(parts@) =~= seq![p1] + p2);
    if hits.len() > 0 {
        let mut docs: Vec<String> = Vec::new();
        let mut i: usize = 0;
        while i < hits.len() && i < NAMED_DOCS
            invariant
                i <= hits.len(),
                i <= NAMED_DOCS,
                docs@.len() == i,
                forall|k: int| 0 <= k < i ==> (#[trigger] docs@[k])@ == hits@[k].doc@,
            decreases hits.len() - i,
        {
            docs.push(hits[i].doc.clone());
            i += 1;
        }
        assert(text::texts(docs@) =~= hit_docs(rows::limited(hits@, NAMED_DOCS as nat)));
        let mut t = "相关文档：".to_owned();
        t.push_str(&text::join_of(&docs, "、"));
        assert(t@ =~= "相关文档："@ + text::join(
            hit_docs(rows::limited(hits@, NAMED_DOCS as nat)),
            "、"@,
        ));
        proof {
            text::lemma_texts_push(parts@, t);
        }
        parts.push(t);
    }
    assert(text::texts(parts@) =~= seq![p1] + p2 + p3);
    text::join_of(&parts, "\n\n")
}

impl GraphStore {
    /// Answers a question: with what a model says, or plainly with what was found.
    pub fn graph_rag(&mut self, d: RagDraft, reply: &LlmReply, hits: &Vec<HybridHit>) -> (r:
        GraphQueryResult)
        requires
            old(self).wf(),
        ensures
            final(self).wf(),
            r.entities == d.entities,
            r.related == d.related,
            rows::mapped(r.evidence@, as_evidence()) == evidence_of(
                hits@,
                text::texts(d.lines@),
            ),
            match *reply {
                LlmReply::Text(t) => r.used_llm && r.answer == t,
                _ => !r.used_llm && r.answer@ == plain_answer(
                    d.entities@,
                    text::texts(d.lines@),
                    hits@,
                ),
            },
            is_reply_counted(*old(self), *final(self), *reply),
    {
        let found = evidence(hits, &d.lines);
        self.count_reply(reply);
        let (answer, used_llm) = match reply {
            LlmReply::Text(t) => (t.clone(), true),
            _ => (answer_plainly(&d, hits), false),
        };
        GraphQueryResult {
            answer,
            entities: d.entities,
            evidence: found,
            related: d.related,
            used_llm,
        }
    }
}

/// No two of the nodes that a question is about are the same.
pub proof fn law_each_node_is_asked_about_once(
    nodes: Seq<GraphNode>,
    names: Seq<Seq<char>>,
    n: int,
)
    requires
        0 <= n <= names.len(),
    ensures
        forall|i: int, j: int|
            0 <= i < j < nodes_named(nodes, names, n).len() ==> (#[trigger] nodes_named(
                nodes,
                names,
                n,
            )[i]).id@ != (#[trigger] nodes_named(nodes, names, n)[j]).id@,
    decreases n,
{
    if n > 0 {
        law_each_node_is_asked_about_once(nodes, names, n - 1);
    }
}

} // verus!
