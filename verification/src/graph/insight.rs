//! What a language model is asked about clusters and entities: summaries, what is missing,
//! and what contradicts itself.

use crate::graph::ai;
use crate::graph::ai::{LlmReply, LlmRequest};
use crate::graph::cluster_engine;
use crate::graph::cluster_engine::LinkV;
use crate::graph::clusters;
use crate::graph::lists;
use crate::graph::merger;
use crate::graph::model::{GraphConflict, GraphGap, GraphNode, NodeType};
use crate::graph::queue;
use crate::graph::store;
use crate::graph::store::{ClusterRow, GraphStore};
use crate::json;
use crate::rows;
use crate::text;
use vstd::prelude::*;

verus! {

/// How many entities and files of a cluster are told.
pub const BRIEF_ENTITIES: usize = 20;

pub const BRIEF_FILES: usize = 10;

/// How many missing things are told at most where no model tells them.
pub const GAP_LIMIT: usize = 8;

/// How many entities are looked at for contradictions.
pub const CONFLICT_ENTITIES: u32 = 3;

/// How much is read on either side of a name.
pub const CONTEXT_RADIUS: usize = 300;

/// How much of a claim is kept.
pub const CLAIM_CHARS: usize = 200;

pub const SUMMARY_SYSTEM: &'static str = "你是知识图谱摘要助手。根据知识簇的实体与文件清单，输出一段中文簇描述与标签，只输出 JSON：{\"description\":\"60-120字描述\",\"tags\":[\"标签1\",\"标签2\",...]}。描述要概括该知识簇覆盖的主题，标签 3-8 个。除 JSON 外不要输出任何内容。";

pub const GAP_SYSTEM: &'static str = "你是知识体系分析师。用户给出一个知识簇已覆盖的概念清单，请判断该知识领域可能缺失的关键概念（如 RAG 领域缺少 Evaluation/Benchmark）。只输出 JSON：{\"missing\":[\"概念1\",...]}，3-8 个，必须是真实存在、与已覆盖概念同领域的概念。除 JSON 外不要输出任何内容。";

pub const CONFLICT_SYSTEM: &'static str = "你是知识冲突检测助手。比较两个文档中关于同一主题的论述，判断是否存在冲突（如版本差异、事实矛盾）。只输出 JSON：{\"conflict\":true/false,\"topic\":\"主题\",\"analysis\":\"50-100字分析\"}。若论述一致或只是互补，conflict 必须为 false。除 JSON 外不要输出任何内容。";

// ---- Names of members

pub open spec fn node_names(nodes: Seq<GraphNode>) -> Seq<Seq<char>> {
    Seq::new(nodes.len(), |i: int| nodes[i].name@)
}

/// The names of the first so many entities.
pub open spec fn entity_names(members: Seq<GraphNode>, k: nat) -> Seq<Seq<char>> {
    rows::limited(node_names(rows::kept(members, lists::of_type(NodeType::Entity))), k)
}

/// The names of the first so many files.
pub open spec fn file_names(members: Seq<GraphNode>, k: nat) -> Seq<Seq<char>> {
    rows::limited(node_names(rows::kept(members, lists::docs())), k)
}

pub open spec fn members_in(s: GraphStore, id: Seq<char>) -> Seq<GraphNode> {
    clusters::members_of(s.members@, s.nodes@, s.edges@, id)
}

/// The list in one line, or that there is nothing.
pub open spec fn listed(names: Seq<Seq<char>>) -> Seq<char> {
    if names.len() == 0 {
        "（无）"@
    } else {
        text::join(names, "、"@)
    }
}

pub(crate) fn list_text(names: &Vec<String>) -> (r: String)
    ensures
        r@ == listed(text::texts(names@)),
{
    assert(text::texts(names@).len() == names@.len());
    if names.len() == 0 {
        "（无）".to_owned()
    } else {
        text::join_of(names, "、")
    }
}

fn pick_names(members: &Vec<GraphNode>, files: bool, k: usize) -> (r: Vec<String>)
    ensures
        text::texts(r@) == if files {
            file_names(members@, k as nat)
        } else {
            entity_names(members@, k as nat)
        },
{
    let ghost p = if files {
        lists::docs()
    } else {
        lists::of_type(NodeType::Entity)
    };
    let mut hits: Vec<String> = Vec::new();
    let mut i: usize = 0;
    assert(text::texts(hits@) =~= node_names(rows::kept(members@.take(0), p)));
    while i < members.len()
        invariant
            i <= members.len(),
            p == (if files {
                lists::docs()
            } else {
                lists::of_type(NodeType::Entity)
            }),
            text::texts(hits@) == node_names(rows::kept(members@.take(i as int), p)),
        decreases members.len() - i,
    {
        let ghost m = members@[i as int];
        proof {
            assert(members@.take(i + 1) == members@.take(i as int).push(m));
            rows::lemma_kept_push(members@.take(i as int), m, p);
        }
        let hit = if files {
            members[i].node_type == NodeType::Doc && members[i].path.is_some()
        } else {
            members[i].node_type == NodeType::Entity
        };
        if hit {
            let s = members[i].name.clone();
            proof {
                text::lemma_texts_push(hits@, s);
                let before = rows::kept(members@.take(i as int), p);
                assert(node_names(before.push(m)) =~= node_names(before).push(m.name@));
            }
            hits.push(s);
        }
        i += 1;
    }
    assert(members@.take(i as int) == members@);
    let ghost all = text::texts(hits@);
    assert(all.len() == hits@.len());
    if hits.len() > k {
        hits.truncate(k);
        assert(text::texts(hits@) =~= all.take(k as int));
    } else {
        assert(all.take(all.len() as int) =~= all);
    }
    hits
}

// ---- Summaries

/// Whether there is something to say about a cluster.
pub open spec fn has_brief(s: GraphStore, id: Seq<char>) -> bool {
    &&& clusters::cluster_index(s.clusters@, id) is Some
    &&& entity_names(members_in(s, id), BRIEF_ENTITIES as nat).len() > 0 || file_names(
        members_in(s, id),
        BRIEF_FILES as nat,
    ).len() > 0
}

pub open spec fn summary_question(
    name: Seq<char>,
    count: nat,
    entities: Seq<Seq<char>>,
    files: Seq<Seq<char>>,
) -> Seq<char> {
    "知识簇："@ + name + "（"@ + text::nat_text(count) + " 节点）\n关键实体："@ + listed(entities)
        + "\n关键文件："@ + listed(files) + "\n"@
}

/// The description that a cluster gets.
pub open spec fn summary_text(description: Seq<char>, tags: Seq<char>) -> Seq<char> {
    if tags.len() == 0 {
        description
    } else {
        description + "\n标签："@ + tags
    }
}

/// The clusters with one described.
pub open spec fn is_described(
    a: Seq<ClusterRow>,
    b: Seq<ClusterRow>,
    id: Seq<char>,
    description: Seq<char>,
    now: i64,
) -> bool {
    match clusters::cluster_index(a, id) {
        Some(i) => {
            &&& b == a.update(
                i,
                ClusterRow { description: b[i].description, updated_at: now, ..a[i] },
            )
            &&& store::opt_view(b[i].description) == Some(description)
        },
        None => b == a,
    }
}

impl GraphStore {
    /// What is asked of a model about a cluster; where there is nothing to say, nothing.
    pub fn summary_request(&self, cluster_id: &str) -> (r: Option<LlmRequest>)
        ensures
            match r {
                Some(q) => {
                    &&& has_brief(*self, cluster_id@)
                    &&& clusters::cluster_index(self.clusters@, cluster_id@) matches Some(i)
                        && q.user@ == summary_question(
                        self.clusters@[i].name@,
                        self.clusters@[i].node_count as nat,
                        entity_names(members_in(*self, cluster_id@), BRIEF_ENTITIES as nat),
                        file_names(members_in(*self, cluster_id@), BRIEF_FILES as nat),
                    )
                    &&& q.system@ == SUMMARY_SYSTEM@
                    &&& q.max_tokens is None
                },
                None => !has_brief(*self, cluster_id@),
            },
    {
        let c = match self.get_cluster(cluster_id) {
            Some(c) => c,
            None => {
                return None;
            },
        };
        let members = self.cluster_members(cluster_id);
        let entities = pick_names(&members, false, BRIEF_ENTITIES);
        let files = pick_names(&members, true, BRIEF_FILES);
        assert(text::texts(entities@).len() == entities@.len());
        assert(text::texts(files@).len() == files@.len());
        if entities.len() == 0 && files.len() == 0 {
            return None;
        }
        let mut user = "知识簇：".to_owned();
        user.push_str(&c.name);
        user.push_str("（");
        user.push_str(&text::u64_text(c.node_count as u64));
        user.push_str(" 节点）\n关键实体：");
        user.push_str(&list_text(&entities));
        user.push_str("\n关键文件：");
        user.push_str(&list_text(&files));
        user.push_str("\n");
        assert(user@ =~= summary_question(
            c.name@,
            c.node_count as nat,
            text::texts(entities@),
            text::texts(files@),
        ));
        Some(LlmRequest { system: SUMMARY_SYSTEM.to_owned(), user, max_tokens: None })
    }

    fn can_summarize(&self, cluster_id: &str) -> (r: bool)
        ensures
            r == has_brief(*self, cluster_id@),
    {
        if self.get_cluster(cluster_id).is_none() {
            return false;
        }
        let members = self.cluster_members(cluster_id);
        let entities = pick_names(&members, false, BRIEF_ENTITIES);
        let files = pick_names(&members, true, BRIEF_FILES);
        assert(text::texts(entities@).len() == entities@.len());
        assert(text::texts(files@).len() == files@.len());
        entities.len() > 0 || files.len() > 0
    }

    /// Gives a cluster the description that a model wrote, with its tags, and returns the
    /// description alone. No description leaves the cluster as it is.
    pub fn describe_cluster(
        &mut self,
        cluster_id: &str,
        description: String,
        tags: &Vec<String>,
        now: i64,
    ) -> (r: Option<String>)
        requires
            old(self).wf(),
        ensures
            final(self).wf(),
            match r {
                Some(d) => {
                    &&& d@ == description@
                    &&& description@.len() > 0
                    &&& is_described(
                        old(self).clusters@,
                        final(self).clusters@,
                        cluster_id@,
                        summary_text(description@, text::join(text::texts(tags@), "、"@)),
                        now,
                    )
                },
                None => description@.len() == 0 && final(self).clusters == old(self).clusters,
            },
            *final(self) == (GraphStore { clusters: final(self).clusters, ..*old(self) }),
    {
        if text::chars_of(&description).len() == 0 {
            return None;
        }
        let joined = text::join_of(tags, "、");
        let mut full = description.clone();
        if text::chars_of(&joined).len() > 0 {
            full.push_str("\n标签：");
            full.push_str(&joined);
        }
        assert(full@ =~= summary_text(description@, text::join(text::texts(tags@), "、"@)));
        proof {
            rows::lemma_row_index(self.clusters@, store::cluster_key(), cluster_id@, 0);
        }
        self.update_cluster_description(cluster_id, full, now);
        Some(description)
    }

    /// Takes what a model says about a cluster.
    pub fn summarize_cluster(&mut self, cluster_id: &str, reply: &LlmReply, now: i64) -> (r: Option<
        String,
    >)
        requires
            old(self).wf(),
        ensures
            final(self).wf(),
            !has_brief(*old(self), cluster_id@) ==> r is None && *final(self) == *old(self),
            has_brief(*old(self), cluster_id@) ==> match *reply {
                LlmReply::Text(t) => {
                    let d = ai::trimmed_at(t@, "/description"@);
                    &&& match r {
                        Some(s) => {
                            &&& s@ == d
                            &&& d.len() > 0
                            &&& is_described(
                                old(self).clusters@,
                                final(self).clusters@,
                                cluster_id@,
                                summary_text(d, text::join(json::string_list(t@, "/tags"@), "、"@)),
                                now,
                            )
                        },
                        None => d.len() == 0 && final(self).clusters == old(self).clusters,
                    }
                    &&& ai::is_counted(old(self).metrics@, final(self).metrics@, ai::CALLS@)
                    &&& *final(self) == (GraphStore {
                        clusters: final(self).clusters,
                        metrics: final(self).metrics,
                        ..*old(self)
                    })
                },
                _ => {
                    &&& r is None
                    &&& ai::is_counted(old(self).metrics@, final(self).metrics@, ai::FAILURES@)
                    &&& *final(self) == (GraphStore {
                        metrics: final(self).metrics,
                        ..*old(self)
                    })
                },
            },
    {
        if !self.can_summarize(cluster_id) {
            return None;
        }
        match reply {
            LlmReply::Text(t) => {
                self.count_one(ai::CALLS);
                let d = ai::read_trimmed(t, "/description");
                let tags = json::read_strings(t, "/tags");
                self.describe_cluster(cluster_id, d, &tags, now)
            },
            _ => {
                self.count_one(ai::FAILURES);
                None
            },
        }
    }
}

// ---- Gaps

pub open spec fn other_end(l: LinkV, id: Seq<char>) -> Seq<char> {
    if l.source == id {
        l.target
    } else {
        l.source
    }
}

/// All entities of a cluster.
pub open spec fn all_entities(s: GraphStore, id: Seq<char>) -> Seq<Seq<char>> {
    node_names(rows::kept(members_in(s, id), lists::of_type(NodeType::Entity)))
}

/// The entities of the clusters that the first `n` links lead to, each name once.
pub open spec fn linked_entities(s: GraphStore, links: Seq<LinkV>, id: Seq<char>, n: int) -> Seq<
    Seq<char>,
>
    decreases n,
{
    if n <= 0 {
        Seq::empty()
    } else {
        let names = all_entities(s, other_end(links[n - 1], id));
        merger::with_missing(
            linked_entities(s, links, id, n - 1),
            names,
            names.len() as int,
        )
    }
}

/// The entities of the clusters that are connected with a cluster.
pub open spec fn neighbor_entities(s: GraphStore, id: Seq<char>) -> Seq<Seq<char>> {
    let links = cluster_engine::links_of(s, id);
    linked_entities(s, links, id, links.len() as int)
}

pub open spec fn is_covered(covered: Seq<Seq<char>>, name: Seq<char>) -> bool {
    exists|i: int|
        0 <= i < covered.len() && merger::canonical(#[trigger] covered[i]) == merger::canonical(
            name,
        )
}

pub open spec fn uncovered(covered: Seq<Seq<char>>) -> spec_fn(Seq<char>) -> bool {
    |name: Seq<char>| !is_covered(covered, name)
}

/// What is missing where no model tells: what the neighbours know.
pub open spec fn missing_by_neighbors(s: GraphStore, id: Seq<char>) -> Seq<Seq<char>> {
    rows::limited(
        rows::kept(
            neighbor_entities(s, id),
            uncovered(entity_names(members_in(s, id), BRIEF_ENTITIES as nat)),
        ),
        GAP_LIMIT as nat,
    )
}

/// What is missing: what a model tells, else what the neighbours know.
pub open spec fn missing_of(s: GraphStore, id: Seq<char>, told: Seq<Seq<char>>) -> Seq<Seq<char>> {
    if told.len() > 0 {
        told
    } else {
        missing_by_neighbors(s, id)
    }
}

/// What a reply says is missing.
pub open spec fn told_by(reply: Option<LlmReply>) -> Seq<Seq<char>> {
    match reply {
        Some(LlmReply::Text(t)) => json::string_list(t@, "/missing"@),
        _ => Seq::empty(),
    }
}

/// Whether there is a cluster with a name.
pub open spec fn is_named_cluster(s: GraphStore, id: Seq<char>) -> bool {
    clusters::cluster_index(s.clusters@, id) matches Some(i) && s.clusters@[i].name@.len() > 0
}

/// Whether the list says that the cluster lacks what is missing; nothing missing makes no gap.
pub open spec fn are_gaps(
    s: GraphStore,
    id: Seq<char>,
    missing: Seq<Seq<char>>,
    r: Seq<GraphGap>,
) -> bool {
    if !is_named_cluster(s, id) || missing.len() == 0 {
        r.len() == 0
    } else {
        &&& r.len() == 1
        &&& r[0].cluster_id@ == id
        &&& clusters::cluster_index(s.clusters@, id) matches Some(i) && r[0].cluster_name
            == s.clusters@[i].name
        &&& text::texts(r[0].covered@) == entity_names(members_in(s, id), BRIEF_ENTITIES as nat)
        &&& text::texts(r[0].missing@) == missing
    }
}

pub open spec fn gap_question(name: Seq<char>, covered: Seq<Seq<char>>) -> Seq<char> {
    "知识簇："@ + name + "\n已覆盖概念："@ + listed(covered) + "\n"@
}

fn covers(covered: &Vec<String>, name: &str) -> (r: bool)
    ensures
        r == is_covered(text::texts(covered@), name@),
{
    let ghost cv = text::texts(covered@);
    let c = merger::canonicalize(name);
    let mut i: usize = 0;
    while i < covered.len()
        invariant
            i <= covered.len(),
            cv == text::texts(covered@),
            c@ == merger::canonical(name@),
            forall|k: int| 0 <= k < i ==> merger::canonical(#[trigger] cv[k]) != c@,
        decreases covered.len() - i,
    {
        assert(cv[i as int] == covered@[i as int]@);
        if merger::canonicalize(&covered[i]) == c {
            return true;
        }
        i += 1;
    }
    false
}

impl GraphStore {
    fn neighbor_cluster_entities(&self, cluster_id: &String) -> (r: Vec<String>)
        requires
            self.wf(),
        ensures
            text::texts(r@) == neighbor_entities(*self, cluster_id@),
    {
        let all = self.cluster_links();
        let links = cluster_engine::links_at(&all, cluster_id);
        let ghost lv = cluster_engine::links_of(*self, cluster_id@);
        assert(lv.len() == links@.len());
        let mut out: Vec<String> = Vec::new();
        let mut i: usize = 0;
        assert(text::texts(out@) =~= Seq::empty());
        while i < links.len()
            invariant
                i <= links.len(),
                lv == cluster_engine::links_of(*self, cluster_id@),
                lv == cluster_engine::link_views(links@),
                text::texts(out@) == linked_entities(*self, lv, cluster_id@, i as int),
            decreases links.len() - i,
        {
            assert(lv[i as int] == cluster_engine::link_view(links@[i as int]));
            let other = if links[i].source == *cluster_id {
                links[i].target.clone()
            } else {
                links[i].source.clone()
            };
            let members = self.cluster_members(&other);
            let names = pick_names(&members, false, members.len());
            let ghost nv = all_entities(*self, other@);
            proof {
                rows::lemma_kept(members@, lists::of_type(NodeType::Entity));
                assert(text::texts(names@) =~= nv);
                assert(nv.len() == names@.len());
            }
            let ghost before = text::texts(out@);
            let mut j: usize = 0;
            while j < names.len()
                invariant
                    j <= names.len(),
                    nv == text::texts(names@),
                    text::texts(out@) == merger::with_missing(before, nv, j as int),
                decreases names.len() - j,
            {
                assert(nv[j as int] == names@[j as int]@);
                text::push_distinct(&mut out, names[j].clone());
                j += 1;
            }
            i += 1;
        }
        out
    }

    fn missing_from(&self, cluster_id: &String, covered: &Vec<String>) -> (r: Vec<String>)
        requires
            self.wf(),
            text::texts(covered@) == entity_names(
                members_in(*self, cluster_id@),
                BRIEF_ENTITIES as nat,
            ),
        ensures
            text::texts(r@) == missing_by_neighbors(*self, cluster_id@),
    {
        let near = self.neighbor_cluster_entities(cluster_id);
        let ghost nv = text::texts(near@);
        let ghost p = uncovered(text::texts(covered@));
        let mut out: Vec<String> = Vec::new();
        let mut i: usize = 0;
        assert(text::texts(out@) =~= rows::kept(nv.take(0), p));
        while i < near.len()
            invariant
                i <= near.len(),
                nv == text::texts(near@),
                p == uncovered(text::texts(covered@)),
                text::texts(out@) == rows::kept(nv.take(i as int), p),
            decreases near.len() - i,
        {
            proof {
                assert(nv[i as int] == near@[i as int]@);
                assert(nv.take(i + 1) == nv.take(i as int).push(nv[i as int]));
                rows::lemma_kept_push(nv.take(i as int), nv[i as int], p);
            }
            if !covers(covered, &near[i]) {
                let s = near[i].clone();
                proof {
                    text::lemma_texts_push(out@, s);
                }
                out.push(s);
            }
            i += 1;
        }
        assert(nv.take(i as int) == nv);
        let ghost all = text::texts(out@);
        assert(all.len() == out@.len());
        if out.len() > GAP_LIMIT {
            out.truncate(GAP_LIMIT);
            assert(text::texts(out@) =~= all.take(GAP_LIMIT as int));
        } else {
            assert(all.take(all.len() as int) =~= all);
        }
        out
    }

    /// What is asked of a model about what a cluster lacks.
    pub fn gap_request(&self, cluster_id: &str) -> (r: Option<LlmRequest>)
        ensures
            match r {
                Some(q) => {
                    &&& is_named_cluster(*self, cluster_id@)
                    &&& clusters::cluster_index(self.clusters@, cluster_id@) matches Some(i)
                        && q.user@ == gap_question(
                        self.clusters@[i].name@,
                        entity_names(members_in(*self, cluster_id@), BRIEF_ENTITIES as nat),
                    )
                    &&& q.system@ == GAP_SYSTEM@
                    &&& q.max_tokens is None
                },
                None => !is_named_cluster(*self, cluster_id@),
            },
    {
        let c = match self.get_cluster(cluster_id) {
            Some(c) => c,
            None => {
                return None;
            },
        };
        if text::chars_of(&c.name).len() == 0 {
            return None;
        }
        let members = self.cluster_members(cluster_id);
        let covered = pick_names(&members, false, BRIEF_ENTITIES);
        let mut user = "知识簇：".to_owned();
        user.push_str(&c.name);
        user.push_str("\n已覆盖概念：");
        user.push_str(&list_text(&covered));
        user.push_str("\n");
        assert(user@ =~= gap_question(c.name@, text::texts(covered@)));
        Some(LlmRequest { system: GAP_SYSTEM.to_owned(), user, max_tokens: None })
    }

    /// What a cluster lacks, given what a model told: that, or what the neighbours know.
    pub fn gaps_with(&self, cluster_id: &String, told: Vec<String>) -> (r: Vec<GraphGap>)
        requires
            self.wf(),
        ensures
            are_gaps(
                *self,
                cluster_id@,
                missing_of(*self, cluster_id@, text::texts(told@)),
                r@,
            ),
    {
        let mut out: Vec<GraphGap> = Vec::new();
        let c = match self.get_cluster(cluster_id) {
            Some(c) => c,
            None => {
                return out;
            },
        };
        if text::chars_of(&c.name).len() == 0 {
            return out;
        }
        let members = self.cluster_members(cluster_id);
        let covered = pick_names(&members, false, BRIEF_ENTITIES);
        assert(text::texts(told@).len() == told@.len());
        let missing = if told.len() > 0 {
            told
        } else {
            self.missing_from(cluster_id, &covered)
        };
        assert(text::texts(missing@).len() == missing@.len());
        if missing.len() > 0 {
            out.push(
                GraphGap { cluster_id: cluster_id.clone(), cluster_name: c.name, covered, missing },
            );
        }
        out
    }

    /// What a cluster lacks. `reply` is what a model said, where one was asked.
    pub fn detect_gaps(&mut self, cluster_id: &String, reply: Option<&LlmReply>) -> (r: Vec<
        GraphGap,
    >)
        requires
            old(self).wf(),
        ensures
            final(self).wf(),
            are_gaps(
                *old(self),
                cluster_id@,
                missing_of(
                    *old(self),
                    cluster_id@,
                    told_by(
                        match reply {
                            Some(x) => Some(*x),
                            None => None,
                        },
                    ),
                ),
                r@,
            ),
            match reply {
                Some(LlmReply::Text(_)) if is_named_cluster(*old(self), cluster_id@) =>
                    ai::is_counted(old(self).metrics@, final(self).metrics@, ai::CALLS@),
                Some(_) if is_named_cluster(*old(self), cluster_id@) => ai::is_counted(
                    old(self).metrics@,
                    final(self).metrics@,
                    ai::FAILURES@,
                ),
                _ => final(self).metrics == old(self).metrics,
            },
            *final(self) == (GraphStore { metrics: final(self).metrics, ..*old(self) }),
    {
        let asked = match self.get_cluster(cluster_id) {
            Some(c) => text::chars_of(&c.name).len() > 0,
            None => false,
        };
        let told = match reply {
            Some(LlmReply::Text(t)) => json::read_strings(t, "/missing"),
            _ => {
                let none: Vec<String> = Vec::new();
                assert(text::texts(none@) =~= Seq::empty());
                none
            },
        };
        let r = self.gaps_with(cluster_id, told);
        if asked {
            match reply {
                Some(LlmReply::Text(_)) => {
                    self.count_one(ai::CALLS);
                },
                Some(_) => {
                    self.count_one(ai::FAILURES);
                },
                None => {},
            }
        }
        r
    }
}

// ---- Contradictions

/// An entity that two documents speak of.
#[derive(Debug, PartialEq, Eq)]
pub struct ConflictPair {
    pub entity_id: String,
    pub doc_a: String,
    pub doc_b: String,
}

/// What the two documents say.
#[derive(Debug, PartialEq, Eq)]
pub struct ConflictCase {
    pub pair: ConflictPair,
    pub snippet_a: String,
    pub snippet_b: String,
}

pub struct PairV {
    pub entity_id: Seq<char>,
    pub doc_a: Seq<char>,
    pub doc_b: Seq<char>,
}

pub open spec fn pair_view(p: ConflictPair) -> PairV {
    PairV { entity_id: p.entity_id@, doc_a: p.doc_a@, doc_b: p.doc_b@ }
}

pub open spec fn as_pair() -> spec_fn(ConflictPair) -> PairV {
    |p: ConflictPair| pair_view(p)
}

pub open spec fn sources_of(s: GraphStore, id: Seq<char>) -> Seq<Seq<char>> {
    lists::source_docs(s.nodes@, s.edges@, id, s.edges@.len() as int)
}

/// The first `n` entities that come from two documents or more, with the first two.
pub open spec fn pairs_of(s: GraphStore, es: Seq<(Seq<char>, u32)>, n: int) -> Seq<PairV>
    decreases n,
{
    if n <= 0 {
        Seq::empty()
    } else {
        let before = pairs_of(s, es, n - 1);
        let docs = sources_of(s, es[n - 1].0);
        if docs.len() < 2 {
            before
        } else {
            before.push(PairV { entity_id: es[n - 1].0, doc_a: docs[0], doc_b: docs[1] })
        }
    }
}

pub open spec fn busiest_entities(s: GraphStore) -> Seq<(Seq<char>, u32)> {
    lists::degree_entries(
        s.edges@,
        lists::by_degree(
            s.edges@,
            rows::kept(s.nodes@, lists::of_type(NodeType::Entity)),
            CONFLICT_ENTITIES,
        ),
    )
}

/// What stands around a name in a text, so many characters on either side; the beginning of
/// the text where the name is not in it. The name is the part of the id behind the last
/// colon.
pub open spec fn around(content: Seq<char>, entity_id: Seq<char>, radius: nat) -> Seq<char> {
    let name = text::after_last(entity_id, ':');
    match text::find(content, name) {
        Some(i) => {
            let from = if i < radius {
                0
            } else {
                i - radius
            };
            let to = if i + radius < content.len() {
                i + radius
            } else {
                content.len() as int
            };
            content.subrange(from, to)
        },
        None => text::ellipsized(content, radius * 2),
    }
}

/// What stands around a name in a text.
pub fn context_around(content: &str, entity_id: &str, radius: usize) -> (r: String)
    requires
        radius * 2 <= usize::MAX,
    ensures
        r@ == around(content@, entity_id@, radius as nat),
{
    let cs = text::chars_of(content);
    let name = text::chars_of(&text::after_last_of(entity_id, ':'));
    proof {
        text::lemma_find_from(content@, name@, 0);
    }
    match text::find_at(&cs, &name, 0) {
        Some(i) => {
            let from: usize = if i < radius {
                0
            } else {
                i - radius
            };
            let to: usize = if radius < cs.len() - i {
                i + radius
            } else {
                cs.len()
            };
            text::slice_text(&cs, from, to)
        },
        None => text::ellipsize(content, radius * 2),
    }
}

impl GraphStore {
    /// The entities to be looked at for contradictions.
    pub fn conflict_pairs(&self) -> (r: Vec<ConflictPair>)
        ensures
            rows::mapped(r@, as_pair()) == pairs_of(
                *self,
                busiest_entities(*self),
                busiest_entities(*self).len() as int,
            ),
    {
        let top = self.top_degree_entities(CONFLICT_ENTITIES);
        let ghost es = busiest_entities(*self);
        assert(es.len() == top@.len());
        let mut out: Vec<ConflictPair> = Vec::new();
        let mut i: usize = 0;
        assert(rows::mapped(out@, as_pair()) =~= Seq::empty());
        while i < top.len()
            invariant
                i <= top.len(),
                es == lists::entries_view(top@),
                rows::mapped(out@, as_pair()) == pairs_of(*self, es, i as int),
            decreases top.len() - i,
        {
            assert(es[i as int].0 == top@[i as int].0@);
            let docs = self.source_docs_for_entity(&top[i].0);
            let ghost dv = text::texts(docs@);
            assert(dv.len() == docs@.len());
            if docs.len() >= 2 {
                let p = ConflictPair {
                    entity_id: top[i].0.clone(),
                    doc_a: docs[0].clone(),
                    doc_b: docs[1].clone(),
                };
                proof {
                    assert(dv[0] == docs@[0]@);
                    assert(dv[1] == docs@[1]@);
                    rows::lemma_mapped_push(out@, as_pair(), p);
                }
                out.push(p);
            }
            i += 1;
        }
        out
    }
}

/// What two documents say about an entity; where one says nothing there is no case.
pub fn conflict_case(pair: ConflictPair, content_a: &str, content_b: &str) -> (r: Option<
    ConflictCase,
>)
    ensures
        ({
            let a = around(content_a@, pair.entity_id@, CONTEXT_RADIUS as nat);
            let b = around(content_b@, pair.entity_id@, CONTEXT_RADIUS as nat);
            match r {
                Some(c) => a.len() > 0 && b.len() > 0 && c.pair == pair && c.snippet_a@ == a
                    && c.snippet_b@ == b,
                None => a.len() == 0 || b.len() == 0,
            }
        }),
{
    let a = context_around(content_a, &pair.entity_id, CONTEXT_RADIUS);
    let b = context_around(content_b, &pair.entity_id, CONTEXT_RADIUS);
    if text::chars_of(&a).len() == 0 || text::chars_of(&b).len() == 0 {
        return None;
    }
    Some(ConflictCase { pair, snippet_a: a, snippet_b: b })
}

pub open spec fn conflict_question(c: ConflictCase) -> Seq<char> {
    "主题实体："@ + text::after_last(c.pair.entity_id@, ':') + "（节点 "@ + c.pair.entity_id@
        + "）\n\n文档 A（"@ + c.pair.doc_a@ + "）：\n"@ + c.snippet_a@ + "\n\n文档 B（"@ + c.pair.doc_b@
        + "）：\n"@ + c.snippet_b@
}

/// What is asked of a model about two claims.
pub fn conflict_request(c: &ConflictCase) -> (r: LlmRequest)
    ensures
        r.system@ == CONFLICT_SYSTEM@,
        r.user@ == conflict_question(*c),
        r.max_tokens is None,
{
    let mut user = "主题实体：".to_owned();
    user.push_str(&text::after_last_of(&c.pair.entity_id, ':'));
    user.push_str("（节点 ");
    user.push_str(&c.pair.entity_id);
    user.push_str("）\n\n文档 A（");
    user.push_str(&c.pair.doc_a);
    user.push_str("）：\n");
    user.push_str(&c.snippet_a);
    user.push_str("\n\n文档 B（");
    user.push_str(&c.pair.doc_b);
    user.push_str("）：\n");
    user.push_str(&c.snippet_b);
    assert(user@ =~= conflict_question(*c));
    LlmRequest { system: CONFLICT_SYSTEM.to_owned(), user, max_tokens: None }
}

pub struct ConflictV {
    pub topic: Seq<char>,
    pub claim_a: Seq<char>,
    pub source_a: Seq<char>,
    pub claim_b: Seq<char>,
    pub source_b: Seq<char>,
    pub analysis: Seq<char>,
}

pub open spec fn conflict_view(c: GraphConflict) -> ConflictV {
    ConflictV {
        topic: c.topic@,
        claim_a: c.claim_a@,
        source_a: c.source_a@,
        claim_b: c.claim_b@,
        source_b: c.source_b@,
        analysis: c.analysis@,
    }
}

pub open spec fn as_conflict() -> spec_fn(GraphConflict) -> ConflictV {
    |c: GraphConflict| conflict_view(c)
}

/// The contradiction of a case, with what a model says about it.
pub open spec fn conflict_of(
    c: ConflictCase,
    topic: Option<Seq<char>>,
    analysis: Option<Seq<char>>,
) -> ConflictV {
    ConflictV {
        topic: match topic {
            Some(t) => t,
            None => c.pair.entity_id@,
        },
        claim_a: text::ellipsized(c.snippet_a@, CLAIM_CHARS as nat),
        source_a: c.pair.doc_a@,
        claim_b: text::ellipsized(c.snippet_b@, CLAIM_CHARS as nat),
        source_b: c.pair.doc_b@,
        analysis: match analysis {
            Some(t) => t,
            None => Seq::empty(),
        },
    }
}

/// The contradiction that a reply tells.
pub open spec fn told_conflict(c: ConflictCase, reply: LlmReply) -> Option<ConflictV> {
    match reply {
        LlmReply::Text(t) => if json::json_bool(t@, "/conflict"@) == Some(true) {
            Some(
                conflict_of(
                    c,
                    json::json_str(t@, "/topic"@),
                    json::json_str(t@, "/analysis"@),
                ),
            )
        } else {
            None
        },
        _ => None,
    }
}

/// The contradictions that the first `n` replies tell.
pub open spec fn told_conflicts(cs: Seq<ConflictCase>, replies: Seq<LlmReply>, n: int) -> Seq<
    ConflictV,
>
    decreases n,
{
    if n <= 0 {
        Seq::empty()
    } else {
        let before = told_conflicts(cs, replies, n - 1);
        match told_conflict(cs[n - 1], replies[n - 1]) {
            Some(c) => before.push(c),
            None => before,
        }
    }
}

/// A figure that counts replies, after the first `n`.
pub open spec fn reply_count(v: int, replies: Seq<LlmReply>, texts: bool, n: int) -> int
    decreases n,
{
    if n <= 0 {
        v
    } else {
        let before = reply_count(v, replies, texts, n - 1);
        if (replies[n - 1] is Text) == texts {
            queue::raised(before, 1)
        } else {
            before
        }
    }
}

/// The contradiction of a case.
pub fn make_conflict(c: &ConflictCase, topic: Option<String>, analysis: Option<String>) -> (r:
    GraphConflict)
    ensures
        conflict_view(r) == conflict_of(*c, store::opt_view(topic), store::opt_view(analysis)),
{
    GraphConflict {
        topic: match topic {
            Some(t) => t,
            None => c.pair.entity_id.clone(),
        },
        claim_a: text::ellipsize(&c.snippet_a, CLAIM_CHARS),
        source_a: c.pair.doc_a.clone(),
        claim_b: text::ellipsize(&c.snippet_b, CLAIM_CHARS),
        source_b: c.pair.doc_b.clone(),
        analysis: match analysis {
            Some(t) => t,
            None => {
                let none = String::new();
                assert(none@ =~= Seq::<char>::empty());
                none
            },
        },
    }
}

impl GraphStore {
    /// The contradictions that a model finds in the cases; there is a reply for each.
    pub fn detect_conflicts(&mut self, cases: &Vec<ConflictCase>, replies: &Vec<LlmReply>) -> (r:
        Vec<GraphConflict>)
        requires
            old(self).wf(),
            cases@.len() == replies@.len(),
        ensures
            final(self).wf(),
            rows::mapped(r@, as_conflict()) == told_conflicts(
                cases@,
                replies@,
                cases@.len() as int,
            ),
            forall|k: Seq<char>| #[trigger]
                queue::metric_of(final(self).metrics@, k) == if k == ai::CALLS@ {
                    reply_count(
                        queue::metric_of(old(self).metrics@, k),
                        replies@,
                        true,
                        replies@.len() as int,
                    )
                } else if k == ai::FAILURES@ {
                    reply_count(
                        queue::metric_of(old(self).metrics@, k),
                        replies@,
                        false,
                        replies@.len() as int,
                    )
                } else {
                    queue::metric_of(old(self).metrics@, k)
                },
            *final(self) == (GraphStore { metrics: final(self).metrics, ..*old(self) }),
    {
        let mut out: Vec<GraphConflict> = Vec::new();
        let mut i: usize = 0;
        proof {
            assert(rows::mapped(out@, as_conflict()) =~= Seq::empty());
            reveal_strlit("llm_calls");
            reveal_strlit("llm_failures");
            assert(ai::CALLS@.len() != ai::FAILURES@.len());
        }
        while i < cases.len()
            invariant
                i <= cases.len(),
                cases@.len() == replies@.len(),
                self.wf(),
                ai::CALLS@ != ai::FAILURES@,
                rows::mapped(out@, as_conflict()) == told_conflicts(cases@, replies@, i as int),
                forall|k: Seq<char>| #[trigger]
                    queue::metric_of(self.metrics@, k) == if k == ai::CALLS@ {
                        reply_count(
                            queue::metric_of(old(self).metrics@, k),
                            replies@,
                            true,
                            i as int,
                        )
                    } else if k == ai::FAILURES@ {
                        reply_count(
                            queue::metric_of(old(self).metrics@, k),
                            replies@,
                            false,
                            i as int,
                        )
                    } else {
                        queue::metric_of(old(self).metrics@, k)
                    },
                *self == (GraphStore { metrics: self.metrics, ..*old(self) }),
            decreases cases.len() - i,
        {
            match &replies[i] {
                LlmReply::Text(t) => {
                    self.count_one(ai::CALLS);
                    let conflict = match json::bool_at(t, "/conflict") {
                        Some(b) => b,
                        None => false,
                    };
                    if conflict {
                        let topic = json::str_at(t, "/topic");
                        let analysis = json::str_at(t, "/analysis");
                        let c = make_conflict(&cases[i], topic, analysis);
                        proof {
                            rows::lemma_mapped_push(out@, as_conflict(), c);
                        }
                        out.push(c);
                    }
                },
                _ => {
                    self.count_one(ai::FAILURES);
                },
            }
            i += 1;
        }
        out
    }
}

} // verus!
