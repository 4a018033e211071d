//! What a language model is asked about a document, and what its answer does to the graph.
//!
//! The model is called elsewhere: here is what it is asked and how its reply is taken.

use crate::graph::candidates;
use crate::graph::ids;
use crate::graph::merger;
use crate::graph::merger::{AliasRow, MergeV};
use crate::graph::model;
use crate::graph::model::{GraphAiCandidate, NodeType, Relation};
use crate::graph::queue;
use crate::graph::store;
use crate::graph::store::{GraphStore, MetricRow};
use crate::graph::views;
use crate::graph::views::GraphV;
use crate::json;
use crate::rows;
use crate::text;
use vstd::prelude::*;

verus! {

/// What a model is asked.
#[derive(Debug, PartialEq, Eq)]
pub struct LlmRequest {
    pub system: String,
    pub user: String,
    /// The most that the model may answer, where it answers with plain text.
    pub max_tokens: Option<u32>,
}

/// What came back: a text (for a question that asks for JSON, the JSON), nothing because the
/// call failed, or nothing because there is no model.
#[derive(Debug, PartialEq, Eq)]
pub enum LlmReply {
    Text(String),
    Failed,
    NotConfigured,
}

pub const CALLS: &'static str = "llm_calls";

pub const FAILURES: &'static str = "llm_failures";

/// How much of a document is sent.
pub const RELATION_CONTENT: usize = 4000;

/// How many relations of a reply are looked at.
pub const RELATION_LIMIT: usize = 10;

/// How sure a relation is of which nothing is said, in millionths.
pub const UNSAID_CONFIDENCE: u32 = 500_000;

/// How sure a relation has to be that needs no confirmation, in millionths.
pub const AUTO_CONFIRM: u32 = 900_000;

pub const RELATION_SYSTEM: &'static str = "你是知识图谱关系抽取助手。从文档中抽取实体之间的语义关系，只输出 JSON：{\"relations\":[{\"source\":\"实体A\",\"target\":\"实体B\",\"relation\":\"关系类型\",\"confidence\":0.0-1.0,\"evidence\":\"原文摘录20-60字\"}]}关系类型只能是（中文）：包含/引用/依赖/实现/相关/派生/属于/解决/使用/替代。要求：source/target 必须是文档中出现的实体或概念名；confidence 表示确信度；每条必须给 evidence 原文摘录；最多 10 条；没有明确关系时 relations 为空数组。除 JSON 外不要输出任何内容。";

pub const EXPERIENCE_CONTENT: usize = 2000;

pub const EXPERIENCE_SYSTEM: &'static str = "你是经验知识结构化助手。从一条经验记录（标题+正文）中抽取：问题描述（problem）与解决方案（solution）。只输出 JSON：{\"problem\":\"...\",\"solution\":\"...\"}。要求：problem 是遇到了什么问题/要解决什么；solution 是怎么解决的（方法/结论）；每条不超过 120 字；从原文提炼，不要编造；无法抽取时给空字符串。除 JSON 外不要输出任何内容。";

// ---- The names of relations

/// The relation that a model means by a word in lower case.
pub open spec fn labelled(l: Seq<char>) -> Option<Relation> {
    if l == "包含"@ || l == "contains"@ {
        Some(Relation::Contains)
    } else if l == "引用"@ || l == "references"@ || l == "refer"@ || l == "referenced"@ {
        Some(Relation::References)
    } else if l == "依赖"@ || l == "导入"@ || l == "imports"@ || l == "import"@ || l == "depends"@ {
        Some(Relation::Imports)
    } else if l == "实现"@ || l == "implemented_in"@ || l == "implements"@ || l == "implemented"@ {
        Some(Relation::ImplementedIn)
    } else if l == "相关"@ || l == "same_topic"@ || l == "related"@ || l == "related_to"@ {
        Some(Relation::SameTopic)
    } else if l == "派生"@ || l == "产生"@ || l == "derived_from"@ || l == "derived"@ || l
        == "produced_by"@ {
        Some(Relation::DerivedFrom)
    } else if l == "解决"@ || l == "solved_by"@ || l == "solves"@ || l == "solved"@ {
        Some(Relation::SolvedBy)
    } else if l == "替代"@ || l == "replaced_by"@ || l == "replaces"@ || l == "replaced"@ {
        Some(Relation::ReplacedBy)
    } else if l == "使用"@ || l == "uses"@ || l == "use"@ || l == "used_by"@ {
        Some(Relation::Uses)
    } else if l == "属于"@ || l == "belongs_to"@ || l == "belongs"@ || l == "part_of"@ {
        Some(Relation::BelongsTo)
    } else if l == "验证"@ || l == "validated_by"@ || l == "validates"@ {
        Some(Relation::ValidatedBy)
    } else {
        None
    }
}

/// The relation that a model means by a word: letters and blanks around do not matter.
pub open spec fn relation_meant(label: Seq<char>) -> Option<Relation> {
    labelled(text::lowercase(text::trim(label)))
}

fn is_one(l: &str, a: &str, b: &str, c: &str, d: &str) -> (r: bool)
    ensures
        r == (l@ == a@ || l@ == b@ || l@ == c@ || l@ == d@),
{
    text::str_eq(l, a) || text::str_eq(l, b) || text::str_eq(l, c) || text::str_eq(l, d)
}

/// The relation of a word in lower case.
pub fn relation_of_label(l: &str) -> (r: Option<Relation>)
    ensures
        r == labelled(l@),
{
    if text::str_eq(l, "包含") || text::str_eq(l, "contains") {
        Some(Relation::Contains)
    } else if is_one(l, "引用", "references", "refer", "referenced") {
        Some(Relation::References)
    } else if is_one(l, "依赖", "导入", "imports", "import") || text::str_eq(l, "depends") {
        Some(Relation::Imports)
    } else if is_one(l, "实现", "implemented_in", "implements", "implemented") {
        Some(Relation::ImplementedIn)
    } else if is_one(l, "相关", "same_topic", "related", "related_to") {
        Some(Relation::SameTopic)
    } else if is_one(l, "派生", "产生", "derived_from", "derived") || text::str_eq(l, "produced_by") {
        Some(Relation::DerivedFrom)
    } else if is_one(l, "解决", "solved_by", "solves", "solved") {
        Some(Relation::SolvedBy)
    } else if is_one(l, "替代", "replaced_by", "replaces", "replaced") {
        Some(Relation::ReplacedBy)
    } else if is_one(l, "使用", "uses", "use", "used_by") {
        Some(Relation::Uses)
    } else if is_one(l, "属于", "belongs_to", "belongs", "part_of") {
        Some(Relation::BelongsTo)
    } else if is_one(l, "验证", "validated_by", "validates", "validates") {
        Some(Relation::ValidatedBy)
    } else {
        None
    }
}

/// The relation that a model means by a word.
pub fn relation_from_label(label: &str) -> (r: Option<Relation>)
    ensures
        r == relation_meant(label@),
{
    let l = text::to_lower(&text::trim_space(label));
    relation_of_label(&l)
}

/// The text, with an ellipsis in place of what is beyond `max` characters.
pub fn truncate_chars(s: &str, max: usize) -> (r: String)
    ensures
        r@ == text::ellipsized(s@, max as nat),
{
    text::ellipsize(s, max)
}

// ---- Numbers

/// The largest exponent that is looked at.
pub const MAX_EXPONENT: u32 = 400;

pub open spec fn digit_of(c: char) -> nat {
    if '0' <= c && c <= '9' {
        (c as u32 - '0' as u32) as nat
    } else {
        0
    }
}

/// The number that the first `n` digits make. One beyond the largest exponent is that.
pub open spec fn exponent_size(ds: Seq<char>, n: int) -> nat
    decreases n,
{
    if n <= 0 {
        0
    } else {
        let v = exponent_size(ds, n - 1) * 10 + digit_of(ds[n - 1]);
        if v > MAX_EXPONENT {
            MAX_EXPONENT as nat
        } else {
            v
        }
    }
}

/// The exponent, where the text is what stands behind the `e` of a number.
pub open spec fn exponent_of(t: Seq<char>) -> int {
    if t.len() > 0 && t[0] == '-' {
        -(exponent_size(t.skip(1), t.len() - 1) as int)
    } else if t.len() > 0 && t[0] == '+' {
        exponent_size(t.skip(1), t.len() - 1) as int
    } else {
        exponent_size(t, t.len() as int) as int
    }
}

/// The number that the first `k` digits make, with noughts behind the last of them. One
/// beyond a million is a million.
pub open spec fn leading(ds: Seq<char>, k: int) -> nat
    decreases k,
{
    if k <= 0 {
        0
    } else {
        let v = leading(ds, k - 1) * 10 + if k - 1 < ds.len() {
            digit_of(ds[k - 1])
        } else {
            0
        };
        if v > model::WHOLE {
            model::WHOLE as nat
        } else {
            v
        }
    }
}

/// Where the exponent of a number begins, behind its `e`, and where the `e` is.
pub open spec fn exponent_at(t: Seq<char>) -> Option<int> {
    text::index_from(t, text::one_of(seq!['e', 'E']), 0)
}

/// How many millionths a number without sign is, at most a million; what is less than a
/// millionth is left out.
pub open spec fn size_in_millionths(t: Seq<char>) -> nat {
    let m = match exponent_at(t) {
        Some(i) => t.take(i),
        None => t,
    };
    let e = match exponent_at(t) {
        Some(i) => exponent_of(t.skip(i + 1)),
        None => 0,
    };
    match text::index_from(m, text::only('.'), 0) {
        Some(i) => leading(m.take(i) + m.skip(i + 1), i + e + 6),
        None => leading(m, m.len() + e + 6),
    }
}

/// How many millionths the number is that the text is, between none and a million.
pub open spec fn millionths_of(t: Seq<char>) -> nat {
    if t.len() > 0 && t[0] == '-' {
        0
    } else {
        size_in_millionths(t)
    }
}

fn digit_value(c: char) -> (r: u32)
    ensures
        r == digit_of(c),
        r <= 9,
{
    if '0' <= c && c <= '9' {
        c as u32 - '0' as u32
    } else {
        0
    }
}

fn read_exponent_size(ds: &Vec<char>) -> (r: u32)
    ensures
        r == exponent_size(ds@, ds@.len() as int),
        r <= MAX_EXPONENT,
{
    let mut v: u32 = 0;
    let mut i: usize = 0;
    while i < ds.len()
        invariant
            i <= ds.len(),
            v == exponent_size(ds@, i as int),
            v <= MAX_EXPONENT,
        decreases ds.len() - i,
    {
        let next: u32 = v * 10 + digit_value(ds[i]);
        v = if next > MAX_EXPONENT {
            MAX_EXPONENT
        } else {
            next
        };
        i += 1;
    }
    v
}

fn read_exponent(t: &Vec<char>) -> (r: i32)
    ensures
        r == exponent_of(t@),
        -400 <= r <= 400,
{
    if t.len() > 0 && (t[0] == '-' || t[0] == '+') {
        let rest = text::slice_chars(t, 1, t.len());
        assert(rest@ =~= t@.skip(1));
        let v = read_exponent_size(&rest);
        if t[0] == '-' {
            -(v as i32)
        } else {
            v as i32
        }
    } else {
        read_exponent_size(t) as i32
    }
}

fn read_leading(ds: &Vec<char>, k: i128) -> (r: u32)
    ensures
        r == leading(ds@, k as int),
        r <= model::WHOLE,
{
    let mut v: u32 = 0;
    let mut i: i128 = 0;
    while i < k
        invariant
            0 <= i,
            k > 0 ==> i <= k,
            k <= 0 ==> i == 0,
            v == leading(ds@, i as int),
            v <= model::WHOLE,
        decreases k - i,
    {
        let d: u32 = if i < ds.len() as i128 {
            digit_value(ds[i as usize])
        } else {
            0
        };
        let next: u32 = v * 10 + d;
        v = if next > model::WHOLE {
            model::WHOLE
        } else {
            next
        };
        i += 1;
    }
    v
}

/// How many millionths the number is that the text is, between none and a million.
pub fn millionths(t: &str) -> (r: u32)
    ensures
        r == millionths_of(t@),
        r <= model::WHOLE,
{
    let cs = text::chars_of(t);
    if cs.len() > 0 && cs[0] == '-' {
        return 0;
    }
    let marks: Vec<char> = vec!['e', 'E'];
    assert(marks@ =~= seq!['e', 'E']);
    let class = text::CharClass::OneOf(marks);
    let mut m: Vec<char> = text::slice_chars(&cs, 0, cs.len());
    assert(m@ =~= cs@);
    let mut e: i32 = 0;
    match text::index_at(&cs, &class, 0) {
        Some(i) => {
            m = text::slice_chars(&cs, 0, i);
            assert(m@ =~= cs@.take(i as int));
            let rest = text::slice_chars(&cs, i + 1, cs.len());
            assert(rest@ =~= cs@.skip(i + 1));
            e = read_exponent(&rest);
        },
        None => {},
    }
    match text::index_at(&m, &text::CharClass::Only('.'), 0) {
        Some(i) => {
            let mut ds = text::slice_chars(&m, 0, i);
            let mut back = text::slice_chars(&m, i + 1, m.len());
            ds.append(&mut back);
            assert(ds@ =~= m@.take(i as int) + m@.skip(i + 1));
            read_leading(&ds, i as i128 + e as i128 + 6)
        },
        None => {
            let k: i128 = m.len() as i128 + e as i128 + 6;
            read_leading(&m, k)
        },
    }
}

// ---- Relations in a reply

/// A relation that a model found.
#[derive(Debug, PartialEq, Eq)]
pub struct Proposal {
    pub source: String,
    pub target: String,
    pub relation: Relation,
    pub confidence: u32,
    pub evidence: Option<String>,
}

pub struct ProposalV {
    pub source: Seq<char>,
    pub target: Seq<char>,
    pub relation: Relation,
    pub confidence: u32,
    pub evidence: Option<Seq<char>>,
}

pub open spec fn proposal_view(p: Proposal) -> ProposalV {
    ProposalV {
        source: p.source@,
        target: p.target@,
        relation: p.relation,
        confidence: p.confidence,
        evidence: store::opt_view(p.evidence),
    }
}

pub open spec fn as_proposal() -> spec_fn(Proposal) -> ProposalV {
    |p: Proposal| proposal_view(p)
}

/// Where a member of an item of an array stands.
pub open spec fn field_of(list: Seq<char>, i: int, name: Seq<char>) -> Seq<char> {
    list + seq!['/'] + text::nat_text(i as nat) + seq!['/'] + name
}

/// The string that the pointer leads to, without the blanks around it; nothing where there
/// is none.
pub open spec fn trimmed_at(t: Seq<char>, pointer: Seq<char>) -> Seq<char> {
    match json::json_str(t, pointer) {
        Some(s) => text::trim(s),
        None => Seq::empty(),
    }
}

pub open spec fn label_at(t: Seq<char>, pointer: Seq<char>) -> Seq<char> {
    match json::json_str(t, pointer) {
        Some(s) => s,
        None => Seq::empty(),
    }
}

pub open spec fn confidence_at(t: Seq<char>, pointer: Seq<char>) -> u32 {
    match json::json_number(t, pointer) {
        Some(n) => millionths_of(n) as u32,
        None => UNSAID_CONFIDENCE,
    }
}

/// What an item of a reply proposes, given what it says. It has to name two things that
/// differ, and a relation that is known.
pub open spec fn proposal_of(
    source: Seq<char>,
    target: Seq<char>,
    label: Seq<char>,
    confidence: u32,
    evidence: Seq<char>,
) -> Option<ProposalV> {
    if source.len() == 0 || target.len() == 0 || source == target {
        None
    } else {
        match relation_meant(label) {
            Some(relation) => Some(
                ProposalV {
                    source,
                    target,
                    relation,
                    confidence,
                    evidence: if evidence.len() == 0 {
                        None
                    } else {
                        Some(evidence)
                    },
                },
            ),
            None => None,
        }
    }
}

pub open spec fn proposal_at(t: Seq<char>, i: int) -> Option<ProposalV> {
    proposal_of(
        trimmed_at(t, field_of("/relations"@, i, "source"@)),
        trimmed_at(t, field_of("/relations"@, i, "target"@)),
        label_at(t, field_of("/relations"@, i, "relation"@)),
        confidence_at(t, field_of("/relations"@, i, "confidence"@)),
        trimmed_at(t, field_of("/relations"@, i, "evidence"@)),
    )
}

/// What the first `n` items of a reply propose.
pub open spec fn first_proposals(t: Seq<char>, n: int) -> Seq<ProposalV>
    decreases n,
{
    if n <= 0 {
        Seq::empty()
    } else {
        let before = first_proposals(t, n - 1);
        match proposal_at(t, n - 1) {
            Some(p) => before.push(p),
            None => before,
        }
    }
}

/// What a reply proposes: at most so many of its items count.
pub open spec fn proposals_of(t: Seq<char>) -> Seq<ProposalV> {
    match json::json_len(t, "/relations"@) {
        Some(n) => first_proposals(
            t,
            if n < RELATION_LIMIT {
                n as int
            } else {
                RELATION_LIMIT as int
            },
        ),
        None => Seq::empty(),
    }
}

fn field_pointer(list: &str, i: usize, name: &str) -> (r: String)
    ensures
        r@ == field_of(list@, i as int, name@),
{
    let mut r = json::item_pointer(list, i);
    r.push('/');
    r.push_str(name);
    assert(r@ =~= field_of(list@, i as int, name@));
    r
}

pub(crate) fn read_trimmed(t: &str, pointer: &str) -> (r: String)
    ensures
        r@ == trimmed_at(t@, pointer@),
{
    match json::str_at(t, pointer) {
        Some(s) => text::trim_space(&s),
        None => {
            let r = String::new();
            assert(r@ =~= Seq::<char>::empty());
            r
        },
    }
}

/// What an item of a reply proposes.
pub fn propose(
    source: String,
    target: String,
    label: &str,
    confidence: u32,
    evidence: String,
) -> (r: Option<Proposal>)
    ensures
        match r {
            Some(p) => proposal_of(source@, target@, label@, confidence, evidence@) == Some(
                proposal_view(p),
            ),
            None => proposal_of(source@, target@, label@, confidence, evidence@) is None,
        },
{
    if text::chars_of(&source).len() == 0 || text::chars_of(&target).len() == 0 || source
        == target {
        return None;
    }
    match relation_from_label(label) {
        Some(relation) => {
            let said = text::chars_of(&evidence).len() > 0;
            Some(
                Proposal {
                    source,
                    target,
                    relation,
                    confidence,
                    evidence: if said {
                        Some(evidence)
                    } else {
                        None
                    },
                },
            )
        },
        None => None,
    }
}

/// What a reply proposes.
pub fn read_proposals(t: &str) -> (r: Vec<Proposal>)
    ensures
        rows::mapped(r@, as_proposal()) == proposals_of(t@),
{
    let mut out: Vec<Proposal> = Vec::new();
    assert(rows::mapped(out@, as_proposal()) =~= Seq::empty());
    let n = match json::len_at(t, "/relations") {
        Some(n) => if n < RELATION_LIMIT {
            n
        } else {
            RELATION_LIMIT
        },
        None => {
            return out;
        },
    };
    let mut i: usize = 0;
    while i < n
        invariant
            i <= n,
            rows::mapped(out@, as_proposal()) == first_proposals(t@, i as int),
        decreases n - i,
    {
        let source = read_trimmed(t, &field_pointer("/relations", i, "source"));
        let target = read_trimmed(t, &field_pointer("/relations", i, "target"));
        let label = match json::str_at(t, &field_pointer("/relations", i, "relation")) {
            Some(s) => s,
            None => String::new(),
        };
        assert(label@ =~= label_at(t@, field_of("/relations"@, i as int, "relation"@)));
        let confidence = match json::number_at(t, &field_pointer("/relations", i, "confidence")) {
            Some(n) => millionths(&n),
            None => UNSAID_CONFIDENCE,
        };
        let evidence = read_trimmed(t, &field_pointer("/relations", i, "evidence"));
        if let Some(p) = propose(source, target, &label, confidence, evidence) {
            proof {
                rows::lemma_mapped_push(out@, as_proposal(), p);
            }
            out.push(p);
        }
        i += 1;
    }
    out
}

// ---- What proposals do to the graph

pub struct CandidateV {
    pub id: Seq<char>,
    pub source: Seq<char>,
    pub target: Seq<char>,
    pub relation: Relation,
    pub confidence: u32,
    pub status: Seq<char>,
    pub source_doc: Option<Seq<char>>,
    pub evidence: Option<Seq<char>>,
    pub created_at: i64,
}

pub open spec fn candidate_view(c: GraphAiCandidate) -> CandidateV {
    CandidateV {
        id: c.id@,
        source: c.source@,
        target: c.target@,
        relation: c.relation,
        confidence: c.confidence,
        status: c.status@,
        source_doc: store::opt_view(c.source_doc),
        evidence: store::opt_view(c.evidence),
        created_at: c.created_at,
    }
}

pub open spec fn as_candidate() -> spec_fn(GraphAiCandidate) -> CandidateV {
    |c: GraphAiCandidate| candidate_view(c)
}

pub open spec fn cv_key() -> spec_fn(CandidateV) -> Seq<char> {
    |c: CandidateV| c.id
}

/// The proposals with one added or replaced.
pub open spec fn put_candidate(cs: Seq<CandidateV>, c: CandidateV) -> Seq<CandidateV> {
    match rows::row_index(cs, cv_key(), c.id, 0) {
        Some(i) => cs.update(i, c),
        None => cs.push(c),
    }
}

/// The id of the `n`th proposal of a reply that came at `now`.
pub open spec fn candidate_id(
    source: Seq<char>,
    target: Seq<char>,
    relation: Relation,
    now: i64,
    n: nat,
) -> Seq<char> {
    "cand:"@ + source + seq!['|'] + target + seq!['|'] + relation.name() + seq!['|']
        + text::int_text(now as int) + seq!['|'] + text::nat_text(n)
}

/// The graph and what the names mean, the proposals, and how many came.
pub struct WorkV {
    pub m: MergeV,
    pub proposals: Seq<CandidateV>,
    pub added: nat,
}

/// The entity that a name means, or that is made for it.
pub open spec fn meant_entity(m: MergeV, name: Seq<char>) -> Seq<char> {
    merger::entity_of(
        merger::known_entity(m.g, m.index, merger::names_of(name, Seq::empty())),
        name,
    )
}

pub open spec fn mention(m: MergeV, name: Seq<char>, doc: Seq<char>, now: i64) -> MergeV {
    merger::entity_step(m, name, Seq::empty(), Some(doc), now)
}

pub open spec fn new_candidate(
    source: Seq<char>,
    target: Seq<char>,
    p: ProposalV,
    rel_path: Seq<char>,
    now: i64,
    n: nat,
) -> CandidateV {
    CandidateV {
        id: candidate_id(source, target, p.relation, now, n),
        source,
        target,
        relation: p.relation,
        confidence: p.confidence,
        status: if p.confidence >= AUTO_CONFIRM {
            "auto_confirmed"@
        } else {
            "candidate"@
        },
        source_doc: Some(rel_path),
        evidence: p.evidence,
        created_at: now,
    }
}

/// The graph with a proposal that needs no confirmation: it is an edge.
pub open spec fn settled(g: GraphV, c: CandidateV, now: i64) -> GraphV {
    if c.confidence >= AUTO_CONFIRM {
        views::put_edge(
            g,
            c.source,
            c.target,
            c.relation,
            c.confidence,
            c.confidence,
            Some(c.id),
            now,
        )
    } else {
        g
    }
}

/// All after a proposal came. Both ends become entities of the document; one whose name
/// means nothing ends it there.
pub open spec fn proposed(w: WorkV, p: ProposalV, rel_path: Seq<char>, now: i64) -> WorkV {
    let doc = ids::node_id(NodeType::Doc, rel_path);
    let m1 = mention(w.m, p.source, doc, now);
    let m2 = mention(m1, p.target, doc, now);
    if merger::canonical(p.source).len() == 0 {
        w
    } else if merger::canonical(p.target).len() == 0 {
        WorkV { m: m1, ..w }
    } else {
        let c = new_candidate(
            meant_entity(w.m, p.source),
            meant_entity(m1, p.target),
            p,
            rel_path,
            now,
            w.added + 1,
        );
        WorkV {
            m: MergeV { g: settled(m2.g, c, now), ..m2 },
            proposals: put_candidate(w.proposals, c),
            added: w.added + 1,
        }
    }
}

/// All after the first `n` proposals came.
pub open spec fn all_proposed(
    w: WorkV,
    ps: Seq<ProposalV>,
    n: int,
    rel_path: Seq<char>,
    now: i64,
) -> WorkV
    decreases n,
{
    if n <= 0 {
        w
    } else {
        proposed(all_proposed(w, ps, n - 1, rel_path, now), ps[n - 1], rel_path, now)
    }
}

pub open spec fn proposals_in(s: GraphStore) -> Seq<CandidateV> {
    rows::mapped(s.candidates@, as_candidate())
}

/// A store before a reply is taken: no name has come yet.
pub open spec fn work_of(s: GraphStore) -> WorkV {
    WorkV {
        m: MergeV { g: views::graph_of(s), index: Seq::empty() },
        proposals: proposals_in(s),
        added: 0,
    }
}

/// Whether two stores differ in the graph, the proposals and the figures alone.
pub open spec fn same_but_work(a: GraphStore, b: GraphStore) -> bool {
    b == (GraphStore {
        nodes: b.nodes,
        edges: b.edges,
        version: b.version,
        candidates: b.candidates,
        metrics: b.metrics,
        ..a
    })
}

/// Whether one figure has been raised by one, and no other changed.
pub open spec fn is_counted(a: Seq<MetricRow>, b: Seq<MetricRow>, key: Seq<char>) -> bool {
    forall|k: Seq<char>| #[trigger]
        queue::metric_of(b, k) == if k == key {
            queue::raised(queue::metric_of(a, k), 1)
        } else {
            queue::metric_of(a, k)
        }
}

fn candidate_id_of(
    source: &str,
    target: &str,
    relation: Relation,
    now: i64,
    n: usize,
) -> (r: String)
    ensures
        r@ == candidate_id(source@, target@, relation, now, n as nat),
{
    let mut r = "cand:".to_owned();
    r.push_str(source);
    r.push('|');
    r.push_str(target);
    r.push('|');
    r.push_str(relation.as_str());
    r.push('|');
    r.push_str(&text::i64_text(now));
    r.push('|');
    r.push_str(&text::u64_text(n as u64));
    assert(r@ =~= candidate_id(source@, target@, relation, now, n as nat));
    r
}

impl GraphStore {
    /// Adds a proposal; a sure one is confirmed at once.
    fn add_candidate(&mut self, c: &GraphAiCandidate, now: i64)
        requires
            old(self).wf(),
            c.status@ == "candidate"@,
        ensures
            final(self).wf(),
            ({
                let v = CandidateV {
                    status: if c.confidence >= AUTO_CONFIRM {
                        "auto_confirmed"@
                    } else {
                        "candidate"@
                    },
                    ..candidate_view(*c)
                };
                &&& proposals_in(*final(self)) == put_candidate(proposals_in(*old(self)), v)
                &&& views::graph_of(*final(self)) == settled(
                    views::graph_of(*old(self)),
                    v,
                    now,
                )
            }),
            *final(self) == (GraphStore {
                candidates: final(self).candidates,
                edges: final(self).edges,
                version: final(self).version,
                ..*old(self)
            }),
    {
        let ghost cs = self.candidates@;
        let ghost seen = proposals_in(*self);
        let ghost edges = self.edges@;
        let ghost g = views::graph_of(*self);
        proof {
            rows::lemma_mapped_index(
                cs,
                as_candidate(),
                store::candidate_key(),
                cv_key(),
                c.id@,
                0,
            );
            rows::lemma_row_index(cs, store::candidate_key(), c.id@, 0);
        }
        self.upsert_candidate(c);
        let ghost mid = self.candidates@;
        proof {
            match candidates::candidate_index(cs, c.id@) {
                Some(i) => {
                    rows::lemma_mapped_update(cs, as_candidate(), i, *c);
                    rows::lemma_row_index_at(mid, store::candidate_key(), i);
                },
                None => {
                    rows::lemma_mapped_push(cs, as_candidate(), *c);
                    rows::lemma_row_index_at(mid, store::candidate_key(), cs.len() as int);
                },
            }
        }
        if c.confidence >= AUTO_CONFIRM {
            let status = "auto_confirmed".to_owned();
            let ghost row = GraphAiCandidate { status, ..*c };
            let _r = self.update_candidate_status(&c.id, status, now);
            proof {
                views::lemma_places(*old(self));
                rows::lemma_row_index(
                    edges,
                    store::edge_key(),
                    (c.source@, c.target@, c.relation),
                    0,
                );
                match store::edge_index(edges, c.source@, c.target@, c.relation) {
                    Some(i) => {
                        assert(views::edges_view(edges)[i] == views::edge_view(edges[i]));
                        rows::lemma_mapped_update(edges, views::as_edge(), i, self.edges@[i]);
                    },
                    None => {
                        rows::lemma_mapped_push(
                            edges,
                            views::as_edge(),
                            store::new_edge_row(
                                candidates::edge_of_candidate(*c),
                                Some(c.id),
                                now,
                            ),
                        );
                    },
                }
                match candidates::candidate_index(cs, c.id@) {
                    Some(i) => {
                        assert(self.candidates@ =~= cs.update(i, row));
                        rows::lemma_mapped_update(cs, as_candidate(), i, row);
                    },
                    None => {
                        assert(self.candidates@ =~= cs.push(row));
                        rows::lemma_mapped_push(cs, as_candidate(), row);
                    },
                }
            }
        }
    }

    fn add_proposal(
        &mut self,
        index: &mut Vec<AliasRow>,
        p: &Proposal,
        rel_path: &String,
        now: i64,
        added: usize,
    ) -> (r: bool)
        requires
            old(self).wf(),
            added < usize::MAX,
        ensures
            final(self).wf(),
            ({
                let w = proposed(
                    (WorkV {
                        m: MergeV {
                            g: views::graph_of(*old(self)),
                            index: merger::aliases_view(old(index)@),
                        },
                        proposals: proposals_in(*old(self)),
                        added: added as nat,
                    }),
                    proposal_view(*p),
                    rel_path@,
                    now,
                );
                &&& w.m == (MergeV {
                    g: views::graph_of(*final(self)),
                    index: merger::aliases_view(final(index)@),
                })
                &&& w.proposals == proposals_in(*final(self))
                &&& w.added == if r {
                    added + 1
                } else {
                    added as int
                }
            }),
            same_but_work(*old(self), *final(self)),
            final(self).metrics == old(self).metrics,
    {
        let doc = ids::node_id_for(NodeType::Doc, rel_path);
        let none: Vec<String> = Vec::new();
        assert(text::texts(none@) =~= Seq::empty());
        let source = match self.merge_entity(index, &p.source, &none, Some(&doc), now) {
            Ok(id) => id,
            Err(_) => {
                return false;
            },
        };
        let target = match self.merge_entity(index, &p.target, &none, Some(&doc), now) {
            Ok(id) => id,
            Err(_) => {
                return false;
            },
        };
        let c = GraphAiCandidate {
            id: candidate_id_of(&source, &target, p.relation, now, added + 1),
            source,
            target,
            relation: p.relation,
            confidence: p.confidence,
            status: "candidate".to_owned(),
            source_doc: Some(rel_path.clone()),
            evidence: model::clone_opt(&p.evidence),
            created_at: now,
        };
        self.add_candidate(&c, now);
        true
    }

    /// Adds relations that were found in a document. Returns how many became proposals.
    pub fn add_proposals(&mut self, rel_path: &String, ps: &Vec<Proposal>, now: i64) -> (n: usize)
        requires
            old(self).wf(),
        ensures
            final(self).wf(),
            ({
                let w = all_proposed(
                    work_of(*old(self)),
                    rows::mapped(ps@, as_proposal()),
                    ps@.len() as int,
                    rel_path@,
                    now,
                );
                &&& views::graph_of(*final(self)) == w.m.g
                &&& proposals_in(*final(self)) == w.proposals
                &&& n == w.added
            }),
            same_but_work(*old(self), *final(self)),
            final(self).metrics == old(self).metrics,
    {
        let mut index: Vec<AliasRow> = Vec::new();
        let ghost start = work_of(*self);
        let ghost pv = rows::mapped(ps@, as_proposal());
        assert(merger::aliases_view(index@) =~= Seq::empty());
        let mut added: usize = 0;
        let mut i: usize = 0;
        while i < ps.len()
            invariant
                i <= ps.len(),
                self.wf(),
                added <= i,
                pv == rows::mapped(ps@, as_proposal()),
                all_proposed(start, pv, i as int, rel_path@, now) == (WorkV {
                    m: MergeV {
                        g: views::graph_of(*self),
                        index: merger::aliases_view(index@),
                    },
                    proposals: proposals_in(*self),
                    added: added as nat,
                }),
                same_but_work(*old(self), *self),
                self.metrics == old(self).metrics,
            decreases ps.len() - i,
        {
            assert(pv[i as int] == proposal_view(ps@[i as int]));
            if self.add_proposal(&mut index, &ps[i], rel_path, now, added) {
                added += 1;
            }
            i += 1;
        }
        added
    }

    /// Raises one of the figures by one.
    pub(crate) fn count_one(&mut self, key: &str)
        requires
            old(self).wf(),
        ensures
            final(self).wf(),
            is_counted(old(self).metrics@, final(self).metrics@, key@),
            *final(self) == (GraphStore { metrics: final(self).metrics, ..*old(self) }),
    {
        self.bump_metric(key, 1);
    }
}

/// The error of a call that failed.
pub open spec fn relation_error(rel_path: Seq<char>) -> Seq<char> {
    "LLM 关系抽取调用失败（"@ + rel_path + "）"@
}

pub open spec fn relation_question(rel_path: Seq<char>, content: Seq<char>) -> Seq<char> {
    "文档路径："@ + rel_path + "\n\n文档内容：\n"@ + first_chars(content, RELATION_CONTENT as nat)
}

pub open spec fn first_chars(s: Seq<char>, n: nat) -> Seq<char> {
    if s.len() <= n {
        s
    } else {
        s.take(n as int)
    }
}

/// What is asked of a model about the relations in a document; of a blank one nothing.
pub fn relation_request(rel_path: &str, content: &str) -> (r: Option<LlmRequest>)
    ensures
        match r {
            Some(q) => text::trim(content@).len() > 0 && q.system@ == RELATION_SYSTEM@ && q.user@
                == relation_question(rel_path@, content@) && q.max_tokens is None,
            None => text::trim(content@).len() == 0,
        },
{
    if text::chars_of(&text::trim_space(content)).len() == 0 {
        return None;
    }
    let mut user = "文档路径：".to_owned();
    user.push_str(rel_path);
    user.push_str("\n\n文档内容：\n");
    user.push_str(&text::take_chars(content, RELATION_CONTENT));
    assert(user@ =~= relation_question(rel_path@, content@));
    Some(LlmRequest { system: RELATION_SYSTEM.to_owned(), user, max_tokens: None })
}

/// Whether a store is what the reply about the relations of a document makes of another.
pub open spec fn is_extracted(
    a: GraphStore,
    b: GraphStore,
    rel_path: Seq<char>,
    reply: Seq<char>,
    n: usize,
    now: i64,
) -> bool {
    let ps = proposals_of(reply);
    let w = all_proposed(work_of(a), ps, ps.len() as int, rel_path, now);
    &&& views::graph_of(b) == w.m.g
    &&& proposals_in(b) == w.proposals
    &&& n == w.added
    &&& is_counted(a.metrics@, b.metrics@, CALLS@)
    &&& same_but_work(a, b)
}

impl GraphStore {
    /// Takes what a model found in a document. Returns how many proposals came. Without a
    /// model nothing comes; a call that failed is an error, so that it can be made again.
    pub fn extract_relations(
        &mut self,
        rel_path: &String,
        content: &str,
        reply: &LlmReply,
        now: i64,
    ) -> (r: Result<usize, String>)
        requires
            old(self).wf(),
        ensures
            final(self).wf(),
            match *reply {
                LlmReply::Text(t) if text::trim(content@).len() > 0 => r matches Ok(n)
                    && is_extracted(*old(self), *final(self), rel_path@, t@, n, now),
                LlmReply::Failed if text::trim(content@).len() > 0 => {
                    &&& r matches Err(e) && e@ == relation_error(rel_path@)
                    &&& is_counted(old(self).metrics@, final(self).metrics@, FAILURES@)
                    &&& *final(self) == (GraphStore {
                        metrics: final(self).metrics,
                        ..*old(self)
                    })
                },
                _ => r == Ok::<usize, String>(0) && *final(self) == *old(self),
            },
    {
        if text::chars_of(&text::trim_space(content)).len() == 0 {
            return Ok(0);
        }
        match reply {
            LlmReply::NotConfigured => Ok(0),
            LlmReply::Failed => {
                self.count_one(FAILURES);
                let mut e = "LLM 关系抽取调用失败（".to_owned();
                e.push_str(rel_path);
                e.push_str("）");
                assert(e@ =~= relation_error(rel_path@));
                Err(e)
            },
            LlmReply::Text(t) => {
                self.count_one(CALLS);
                let ps = read_proposals(t);
                assert(rows::mapped(ps@, as_proposal()).len() == ps@.len());
                let n = self.add_proposals(rel_path, &ps, now);
                Ok(n)
            },
        }
    }
}

// ---- Experience

/// Asks a model for the problem and the solution in a record of experience.
#[derive(Debug, PartialEq, Eq)]
pub struct LlmExperienceExtractor;

pub open spec fn experience_question(title: Seq<char>, body: Seq<char>) -> Seq<char> {
    "标题："@ + title + "\n\n正文：\n"@ + first_chars(body, EXPERIENCE_CONTENT as nat)
}

impl LlmExperienceExtractor {
    pub fn request(&self, title: &str, body: &str) -> (r: LlmRequest)
        ensures
            r.system@ == EXPERIENCE_SYSTEM@,
            r.user@ == experience_question(title@, body@),
            r.max_tokens is None,
    {
        let mut user = "标题：".to_owned();
        user.push_str(title);
        user.push_str("\n\n正文：\n");
        user.push_str(&text::take_chars(body, EXPERIENCE_CONTENT));
        assert(user@ =~= experience_question(title@, body@));
        LlmRequest { system: EXPERIENCE_SYSTEM.to_owned(), user, max_tokens: None }
    }

    /// The problem and the solution that a reply tells, without the blanks around them. One
    /// that tells neither is an error, and so is no reply.
    pub fn extract_problem_solution(&self, reply: &LlmReply) -> (r: Result<
        (String, String),
        String,
    >)
        ensures
            match *reply {
                LlmReply::Text(t) => {
                    let p = trimmed_at(t@, "/problem"@);
                    let s = trimmed_at(t@, "/solution"@);
                    match r {
                        Ok(found) => (p.len() > 0 || s.len() > 0) && found.0@ == p && found.1@
                            == s,
                        Err(e) => p.len() == 0 && s.len() == 0 && e@ == "LLM 未抽取到有效 P/S"@,
                    }
                },
                _ => r matches Err(e) && e@ == "LLM 未返回有效 JSON"@,
            },
    {
        match reply {
            LlmReply::Text(t) => {
                let p = read_trimmed(t, "/problem");
                let s = read_trimmed(t, "/solution");
                if text::chars_of(&p).len() == 0 && text::chars_of(&s).len() == 0 {
                    return Err("LLM 未抽取到有效 P/S".to_owned());
                }
                Ok((p, s))
            },
            _ => Err("LLM 未返回有效 JSON".to_owned()),
        }
    }
}

/// What a reply adds needs a confirmation or is sure: every proposal that is not among those
/// before is waiting, or was confirmed because it is sure.
pub proof fn law_only_the_sure_is_confirmed(
    w: WorkV,
    p: ProposalV,
    rel_path: Seq<char>,
    now: i64,
    c: CandidateV,
)
    requires
        proposed(w, p, rel_path, now).proposals.contains(c),
        !w.proposals.contains(c),
    ensures
        c.status == "candidate"@ || c.confidence >= AUTO_CONFIRM,
        c.source_doc == Some(rel_path),
        c.evidence == p.evidence,
{
    let after = proposed(w, p, rel_path, now).proposals;
    let i = choose|i: int| 0 <= i < after.len() && after[i] == c;
    if merger::canonical(p.source).len() > 0 && merger::canonical(p.target).len() > 0 {
        let doc = ids::node_id(NodeType::Doc, rel_path);
        let m1 = mention(w.m, p.source, doc, now);
        let n = new_candidate(
            meant_entity(w.m, p.source),
            meant_entity(m1, p.target),
            p,
            rel_path,
            now,
            w.added + 1,
        );
        rows::lemma_row_index(w.proposals, cv_key(), n.id, 0);
        match rows::row_index(w.proposals, cv_key(), n.id, 0) {
            Some(k) => {
                if i != k {
                    assert(w.proposals[i] == c);
                }
            },
            None => {
                if i < w.proposals.len() {
                    assert(w.proposals[i] == c);
                }
            },
        }
    }
}

} // verus!
