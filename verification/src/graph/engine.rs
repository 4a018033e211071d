//! Which documents a language model reads first, what is done with each of them, and the
//! clusters as they are shown.

use crate::graph::ai;
use crate::graph::ai::{LlmExperienceExtractor, LlmReply, LlmRequest};
use crate::graph::cluster_engine;
use crate::graph::cluster_engine::ClusterEngine;
use crate::graph::clusters;
use crate::graph::experience;
use crate::graph::experience::{ExperienceBrain, ExperienceEvent};
use crate::graph::explore;
use crate::graph::extractor;
use crate::graph::lists;
use crate::graph::model;
use crate::graph::model::{AiQueueItem, GraphCluster, NodeType, QueueStatus};
use crate::graph::queue;
use crate::graph::store::{ClusterRow, GraphStore};
use crate::graph::ids;
use crate::graph::views;
use crate::rows;
use crate::text;
use vstd::prelude::*;

verus! {

/// How long a change makes a document more important, in milliseconds.
pub const RECENCY_WINDOW_MS: i64 = 7_776_000_000;

/// How recent a document counts of which it is not known, in millionths.
pub const UNKNOWN_RECENCY: u32 = 300_000;

/// What a telling name adds, in millionths.
pub const NAME_BONUS: u32 = 200_000;

/// How many documents the worker takes at a time, for how many of them it asks a model, and
/// how often it tries.
pub const BATCH_LIMIT: u32 = 3;

pub const LLM_PER_DIR_CYCLE: usize = 2;

pub const MAX_ATTEMPTS: u32 = 3;

/// How many clusters are listed at most, and how many files with each.
pub const MAX_CLUSTERS: u32 = 1000;

pub const CLUSTER_FILES: usize = 5;

/// How many documents are embedded at most, and how much of each.
pub const EMBED_DOCS: u32 = 500;

pub const EMBED_CHARS: usize = 300;

// ---- Importance

/// How recent a change is: a whole where it is now, nothing where the window has passed.
pub open spec fn recency(mtime: i64, now: i64) -> int {
    let age = now - mtime;
    if mtime <= 0 {
        UNKNOWN_RECENCY as int
    } else if age <= 0 {
        model::WHOLE as int
    } else if age >= RECENCY_WINDOW_MS {
        0
    } else {
        model::WHOLE - age * model::WHOLE / RECENCY_WINDOW_MS as int
    }
}

/// Whether the name of a file, in lower case, says that it matters.
pub open spec fn is_telling(base: Seq<char>) -> bool {
    text::contains(base, "readme"@) || text::contains(base, "设计"@) || text::contains(base, "方案"@)
        || text::contains(base, "架构"@) || text::contains(base, "总结"@) || text::contains(base, "指南"@)
        || text::contains(base, "guide"@) || text::contains(base, "design"@)
}

/// The edges of a document as a part of the most that one has.
pub open spec fn degree_share(degree: nat, max_degree: nat) -> int {
    if degree >= max_degree {
        500_000
    } else {
        500_000 * degree as int / max_degree as int
    }
}

/// How important a document is, in millionths: one half by its edges, three tenths by how
/// recent it is, and two tenths by its name. A document without a time has a time of nought.
pub open spec fn importance_of(
    path: Seq<char>,
    degree: nat,
    max_degree: nat,
    mtime: i64,
    now: i64,
) -> int {
    degree_share(degree, max_degree) + 3 * recency(mtime, now) / 10 + if is_telling(
        text::lowercase(text::after_last(path, '/')),
    ) {
        NAME_BONUS as int
    } else {
        0
    }
}

/// A document is never more important than a whole.
pub proof fn law_importance_is_at_most_a_whole(
    path: Seq<char>,
    degree: nat,
    max_degree: nat,
    mtime: i64,
    now: i64,
)
    ensures
        0 <= importance_of(path, degree, max_degree, mtime, now) <= model::WHOLE,
{
    lemma_shares(degree, max_degree, mtime, now);
}

proof fn lemma_shares(degree: nat, max_degree: nat, mtime: i64, now: i64)
    ensures
        0 <= degree_share(degree, max_degree) <= 500_000,
        0 <= recency(mtime, now) <= model::WHOLE,
{
    let d = degree as int;
    let m = max_degree as int;
    if d < m {
        assert(0 <= 500_000 * d / m <= 500_000) by (nonlinear_arith)
            requires
                0 <= d < m,
        ;
    }
    let age = now - mtime;
    if 0 < age && age < RECENCY_WINDOW_MS {
        let w = RECENCY_WINDOW_MS as int;
        assert(0 <= age * 1_000_000 / w <= 1_000_000) by (nonlinear_arith)
            requires
                0 < age < w,
        ;
    }
}

fn telling(base: &str) -> (r: bool)
    ensures
        r == is_telling(base@),
{
    text::has_text(base, "readme") || text::has_text(base, "设计") || text::has_text(base, "方案")
        || text::has_text(base, "架构") || text::has_text(base, "总结") || text::has_text(base, "指南")
        || text::has_text(base, "guide") || text::has_text(base, "design")
}

/// How important a document is, in millionths.
pub fn importance(path: &str, degree: u64, max_degree: u64, mtime: i64, now: i64) -> (r: u32)
    ensures
        r == importance_of(path@, degree as nat, max_degree as nat, mtime, now),
{
    proof {
        lemma_shares(degree as nat, max_degree as nat, mtime, now);
    }
    let share: i128 = if degree >= max_degree {
        500_000
    } else {
        500_000 * degree as i128 / max_degree as i128
    };
    let age: i128 = now as i128 - mtime as i128;
    let recent: i128 = if mtime <= 0 {
        UNKNOWN_RECENCY as i128
    } else if age <= 0 {
        model::WHOLE as i128
    } else if age >= RECENCY_WINDOW_MS as i128 {
        0
    } else {
        model::WHOLE as i128 - age * model::WHOLE as i128 / RECENCY_WINDOW_MS as i128
    };
    let bonus: i128 = if telling(&text::to_lower(&text::after_last_of(path, '/'))) {
        NAME_BONUS as i128
    } else {
        0
    };
    (share + 3 * recent / 10 + bonus) as u32
}

/// The highest count of the first `n`, at least one.
pub open spec fn max_count(ds: Seq<(Seq<char>, u64)>, n: int) -> nat
    decreases n,
{
    if n <= 0 {
        1
    } else {
        let before = max_count(ds, n - 1);
        if ds[n - 1].1 > before {
            ds[n - 1].1 as nat
        } else {
            before
        }
    }
}

/// The documents with how important they are; `mtimes` has a time for each.
pub open spec fn scored_docs(ds: Seq<(Seq<char>, u64)>, mtimes: Seq<i64>, now: i64) -> Seq<
    (Seq<char>, u32),
> {
    Seq::new(
        ds.len(),
        |i: int|
            (
                ds[i].0,
                importance_of(
                    ds[i].0,
                    ds[i].1 as nat,
                    max_count(ds, ds.len() as int),
                    mtimes[i],
                    now,
                ) as u32,
            ),
    )
}

pub open spec fn importance_keys(ds: Seq<(Seq<char>, u32)>) -> Seq<Seq<int>> {
    Seq::new(ds.len(), |i: int| seq![-(ds[i].1 as int)])
}

/// The most important documents first.
pub open spec fn by_importance(ds: Seq<(Seq<char>, u32)>) -> Seq<(Seq<char>, u32)> {
    rows::rows_at(ds, rows::order_of(importance_keys(ds)))
}

/// The documents of a graph with their edges counted.
pub open spec fn docs_in(s: GraphStore) -> Seq<(Seq<char>, u64)> {
    lists::doc_entries(s.edges@, rows::kept(s.nodes@, lists::docs()))
}

/// The documents, the most important first. `degrees` are the documents with their edges
/// counted, and `mtimes` has a time for each, nought where it is not known.
pub fn score_docs(degrees: &Vec<(String, u64)>, mtimes: &Vec<i64>, now: i64) -> (r: Vec<
    (String, u32),
>)
    requires
        degrees@.len() == mtimes@.len(),
    ensures
        lists::entries_view(r@) == by_importance(
            scored_docs(lists::counts_view(degrees@), mtimes@, now),
        ),
        r@.len() == degrees@.len(),
{
    let ghost ds = lists::counts_view(degrees@);
    let ghost scored = scored_docs(ds, mtimes@, now);
    let mut max: u64 = 1;
    let mut i: usize = 0;
    while i < degrees.len()
        invariant
            i <= degrees.len(),
            ds == lists::counts_view(degrees@),
            max == max_count(ds, i as int),
        decreases degrees.len() - i,
    {
        assert(ds[i as int].1 == degrees@[i as int].1);
        if degrees[i].1 > max {
            max = degrees[i].1;
        }
        i += 1;
    }
    let mut scores: Vec<u32> = Vec::new();
    let mut keys: Vec<Vec<i128>> = Vec::new();
    let mut j: usize = 0;
    while j < degrees.len()
        invariant
            j <= degrees.len(),
            degrees@.len() == mtimes@.len(),
            ds == lists::counts_view(degrees@),
            scored == scored_docs(ds, mtimes@, now),
            max == max_count(ds, degrees@.len() as int),
            scores@.len() == j,
            keys@.len() == j,
            forall|k: int| 0 <= k < j ==> #[trigger] scores@[k] == scored[k].1,
            forall|k: int|
                0 <= k < j ==> rows::key_view(#[trigger] keys@[k]@) == seq![-(scored[k].1 as int)],
        decreases degrees.len() - j,
    {
        let v = importance(&degrees[j].0, degrees[j].1, max, mtimes[j], now);
        scores.push(v);
        keys.push(rows::number_key(-(v as i128)));
        j += 1;
    }
    assert(rows::keys_view(keys@) =~= importance_keys(scored));
    let order = rows::order_rows(&keys);
    let ghost want = by_importance(scored);
    assert(want == rows::rows_at(scored, rows::indices(order@)));
    let mut r: Vec<(String, u32)> = Vec::new();
    let mut m: usize = 0;
    while m < order.len()
        invariant
            m <= order.len(),
            order@.len() == degrees@.len(),
            scores@.len() == degrees@.len(),
            ds == lists::counts_view(degrees@),
            scored == scored_docs(ds, mtimes@, now),
            want == rows::rows_at(scored, rows::indices(order@)),
            forall|k: int| 0 <= k < scores@.len() ==> #[trigger] scores@[k] == scored[k].1,
            forall|k: int| 0 <= k < order@.len() ==> (#[trigger] order@[k]) < degrees@.len(),
            r@.len() == m,
            forall|k: int| 0 <= k < m ==> (#[trigger] r@[k]).0@ == want[k].0 && r@[k].1 == want[k].1,
        decreases order.len() - m,
    {
        let x = order[m];
        assert(want[m as int] == scored[x as int]);
        assert(ds[x as int].0 == degrees@[x as int].0@);
        r.push((degrees[x].0.clone(), scores[x]));
        m += 1;
    }
    assert(lists::entries_view(r@) =~= want);
    r
}

impl GraphStore {
    /// The documents of the graph, the most important first.
    pub fn ai_priority_docs(&self, mtimes: &Vec<i64>, now: i64) -> (r: Vec<(String, u32)>)
        requires
            mtimes@.len() == docs_in(*self).len(),
        ensures
            lists::entries_view(r@) == by_importance(scored_docs(docs_in(*self), mtimes@, now)),
            r@.len() == docs_in(*self).len(),
    {
        let degrees = self.doc_degrees();
        assert(lists::counts_view(degrees@).len() == degrees@.len());
        score_docs(&degrees, mtimes, now)
    }

    /// Puts all documents into the queue, by their importance. Those that are done stay so.
    pub fn enqueue_after_build(&mut self, dir_path: &String, mtimes: &Vec<i64>, now: i64) -> (n:
        usize)
        requires
            old(self).wf(),
            mtimes@.len() == docs_in(*old(self)).len(),
            old(self).next_item + docs_in(*old(self)).len() <= i64::MAX,
        ensures
            final(self).wf(),
            n == docs_in(*old(self)).len(),
            exists|docs: Seq<(String, u32)>|
                {
                    &&& lists::entries_view(docs) == by_importance(
                        scored_docs(docs_in(*old(self)), mtimes@, now),
                    )
                    &&& final(self).queue_view() == #[trigger] queue::with_docs(
                        old(self).queue_view(),
                        *dir_path,
                        docs,
                        docs.len() as int,
                        false,
                        now,
                    )
                },
            *final(self) == (GraphStore {
                queue: final(self).queue,
                next_item: final(self).next_item,
                ..*old(self)
            }),
    {
        let docs = self.ai_priority_docs(mtimes, now);
        self.enqueue_ai_docs(dir_path, &docs, false, now)
    }

    /// Whether a document waits or is being worked on.
    pub fn has_work(&self, dir_path: &str) -> (r: bool)
        ensures
            r == (queue::count_status(self.queue@, dir_path@, QueueStatus::Pending) > 0
                || queue::count_status(self.queue@, dir_path@, QueueStatus::Processing) > 0),
    {
        let (pending, processing, _done, _failed) = self.queue_stats(dir_path);
        pending > 0 || processing > 0
    }
}

// ---- The worker

/// Whether a model is asked about the document at a place in the batch.
pub open spec fn asks_model(llm_ready: bool, place: nat, content: Seq<char>) -> bool {
    llm_ready && place < LLM_PER_DIR_CYCLE && text::trim(content).len() > 0
}

/// Whether the work on an item has been closed.
pub open spec fn is_closed(a: GraphStore, b: GraphStore, id: i64, ok: bool, now: i64) -> bool {
    match queue::item_index(a.queue@, id) {
        Some(i) => if a.queue@[i].status == QueueStatus::Processing {
            &&& b.queue@ == a.queue@.update(
                i,
                queue::finished(a.queue@[i], ok, MAX_ATTEMPTS, now),
            )
            &&& forall|k: Seq<char>| #[trigger]
                queue::metric_of(b.metrics@, k) == if (ok && k == "worker_processed"@) || (!ok
                    && queue::gives_up(a.queue@[i], MAX_ATTEMPTS) && k == "worker_failed"@) {
                    queue::raised(queue::metric_of(a.metrics@, k), 1)
                } else {
                    queue::metric_of(a.metrics@, k)
                }
        } else {
            b.queue == a.queue && b.metrics == a.metrics
        },
        None => b.queue == a.queue && b.metrics == a.metrics,
    }
}

impl GraphStore {
    /// Begins the work on a document of the batch, given what it holds, or nothing where it
    /// is gone. Its entities are added by rules. Returns what a model is to be asked; where
    /// nothing is asked, the work is closed.
    pub fn begin_item(
        &mut self,
        item: &AiQueueItem,
        place: usize,
        content: Option<&str>,
        llm_ready: bool,
        now: i64,
    ) -> (r: Option<LlmRequest>)
        requires
            old(self).wf(),
        ensures
            final(self).wf(),
            match content {
                None => {
                    &&& r is None
                    &&& is_closed(*old(self), *final(self), item.id, true, now)
                    &&& views::graph_of(*final(self)) == views::graph_of(*old(self))
                },
                Some(c) => {
                    &&& views::graph_of(*final(self)) == extractor::with_doc_entities(
                        views::graph_of(*old(self)),
                        item.rel_path@,
                        c@,
                        now,
                    )
                    &&& match r {
                        Some(q) => {
                            &&& asks_model(llm_ready, place as nat, c@)
                            &&& q.system@ == ai::RELATION_SYSTEM@
                            &&& q.user@ == ai::relation_question(item.rel_path@, c@)
                            &&& q.max_tokens is None
                            &&& final(self).queue == old(self).queue
                            &&& final(self).metrics == old(self).metrics
                        },
                        None => {
                            &&& !asks_model(llm_ready, place as nat, c@)
                            &&& is_closed(*old(self), *final(self), item.id, true, now)
                        },
                    }
                },
            },
            *final(self) == (GraphStore {
                nodes: final(self).nodes,
                edges: final(self).edges,
                version: final(self).version,
                queue: final(self).queue,
                metrics: final(self).metrics,
                ..*old(self)
            }),
    {
        let c = match content {
            Some(c) => c,
            None => {
                self.finish_ai_item(item.id, true, MAX_ATTEMPTS, now);
                return None;
            },
        };
        let _n = self.extract_doc_entities(&item.rel_path, c, now);
        if llm_ready && place < LLM_PER_DIR_CYCLE {
            if let Some(q) = ai::relation_request(&item.rel_path, c) {
                return Some(q);
            }
        }
        self.finish_ai_item(item.id, true, MAX_ATTEMPTS, now);
        None
    }

    /// Ends the work on a document about which a model was asked. A call that failed lets it
    /// be tried again, as often as it may be.
    pub fn end_item(
        &mut self,
        item: &AiQueueItem,
        content: &str,
        reply: &LlmReply,
        now: i64,
    ) -> (r: Result<usize, String>)
        requires
            old(self).wf(),
        ensures
            final(self).wf(),
            exists|mid: GraphStore|
                {
                    &&& is_taken(*old(self), mid, item.rel_path@, content@, *reply, r, now)
                    &&& #[trigger] is_closed(mid, *final(self), item.id, r is Ok, now)
                    &&& *final(self) == (GraphStore {
                        queue: final(self).queue,
                        metrics: final(self).metrics,
                        ..mid
                    })
                },
    {
        let r = self.extract_relations(&item.rel_path, content, reply, now);
        let ghost mid = *self;
        let ok = r.is_ok();
        self.finish_ai_item(item.id, ok, MAX_ATTEMPTS, now);
        assert(is_closed(mid, *self, item.id, r is Ok, now));
        r
    }
}

/// Whether a reply about the relations in a document was taken.
pub open spec fn is_taken(
    a: GraphStore,
    b: GraphStore,
    rel_path: Seq<char>,
    content: Seq<char>,
    reply: LlmReply,
    r: Result<usize, String>,
    now: i64,
) -> bool {
    match reply {
        LlmReply::Text(t) if text::trim(content).len() > 0 => r matches Ok(n) && ai::is_extracted(
            a,
            b,
            rel_path,
            t@,
            n,
            now,
        ),
        LlmReply::Failed if text::trim(content).len() > 0 => {
            &&& r matches Err(e) && e@ == ai::relation_error(rel_path)
            &&& ai::is_counted(a.metrics@, b.metrics@, ai::FAILURES@)
            &&& b == (GraphStore { metrics: b.metrics, ..a })
        },
        _ => r == Ok::<usize, String>(0) && b == a,
    }
}

/// A document about which the model could not be asked waits again, as long as it may.
pub proof fn law_a_failed_call_is_made_again(item: AiQueueItem, now: i64)
    requires
        item.attempts + 1 < MAX_ATTEMPTS,
    ensures
        queue::finished(item, false, MAX_ATTEMPTS, now).status == QueueStatus::Pending,
        queue::finished(item, false, MAX_ATTEMPTS, now).attempts == item.attempts + 1,
{
}

// ---- Experience

impl GraphStore {
    /// Records an event, with the problem and the solution that a model found in it, or, where
    /// none was asked or it found neither, with those that its texts give by rules.
    pub fn experience_record_ai(
        &mut self,
        event: &ExperienceEvent,
        reply: Option<&LlmReply>,
        now: i64,
    )
        requires
            old(self).wf(),
        ensures
            ({
                let counted = GraphStore { metrics: final(self).metrics, ..*old(self) };
                let found = match reply {
                    Some(LlmReply::Text(t)) => {
                        let p = ai::trimmed_at(t@, "/problem"@);
                        let s = ai::trimmed_at(t@, "/solution"@);
                        if p.len() > 0 || s.len() > 0 {
                            Some((p, s))
                        } else {
                            None
                        }
                    },
                    _ => None,
                };
                &&& match reply {
                    Some(_) => ai::is_counted(
                        old(self).metrics@,
                        final(self).metrics@,
                        if found is Some {
                            ai::CALLS@
                        } else {
                            ai::FAILURES@
                        },
                    ),
                    None => final(self).metrics == old(self).metrics,
                }
                &&& match found {
                    Some(f) => experience::is_recorded(
                        counted,
                        *final(self),
                        event.view(),
                        f.0,
                        f.1,
                        now,
                    ),
                    None => experience::is_recorded(
                        counted,
                        *final(self),
                        event.view(),
                        experience::problem_in(event.title@),
                        experience::solution_in(event.title@, event.body@),
                        now,
                    ),
                }
            }),
    {
        let mut found: Option<(String, String)> = None;
        if let Some(x) = reply {
            let asked = LlmExperienceExtractor;
            match asked.extract_problem_solution(x) {
                Ok(f) => {
                    self.count_one(ai::CALLS);
                    found = Some(f);
                },
                Err(_) => {
                    self.count_one(ai::FAILURES);
                },
            }
        }
        let mut brain = ExperienceBrain::new(self);
        match found {
            Some(f) => {
                brain.record_extracted(event, &f.0, &f.1, now);
            },
            None => {
                brain.record(event, now);
            },
        }
    }
}

// ---- Clusters as they are shown

/// Whether a cluster is what the row says, with its links and its files of the most edges.
pub open spec fn is_shown_cluster(s: GraphStore, c: GraphCluster, row: ClusterRow) -> bool {
    &&& clusters::same_cluster(c, row)
    &&& cluster_engine::link_views(c.links@) == cluster_engine::links_of(s, row.id@)
    &&& c.top_files@ == cluster_engine::top_docs(
        clusters::members_of(s.members@, s.nodes@, s.edges@, row.id@),
        CLUSTER_FILES as nat,
    )
}

impl<'a> ClusterEngine<'a> {
    /// The clusters with their links and files, the larger ones first, at most `limit` (1 to
    /// 1000).
    pub fn clusters(&self, limit: u32) -> (r: Vec<GraphCluster>)
        requires
            self.graph().wf(),
        ensures
            ({
                let want = clusters::largest(
                    self.graph().clusters@,
                    explore::clamped(limit, 1, MAX_CLUSTERS),
                );
                &&& r@.len() == want.len()
                &&& forall|i: int|
                    0 <= i < r@.len() ==> is_shown_cluster(
                        self.graph(),
                        #[trigger] r@[i],
                        want[i],
                    )
            }),
    {
        let n: u32 = if limit < 1 {
            1
        } else if limit > MAX_CLUSTERS {
            MAX_CLUSTERS
        } else {
            limit
        };
        let mut list = self.list(n);
        let ghost want = clusters::largest(self.store.clusters@, n);
        let mut i: usize = 0;
        while i < list.len()
            invariant
                i <= list.len(),
                list@.len() == want.len(),
                forall|k: int|
                    i <= k < want.len() ==> cluster_engine::is_linked_cluster(
                        *self.store,
                        #[trigger] list@[k],
                        want[k],
                    ),
                forall|k: int|
                    0 <= k < i ==> is_shown_cluster(*self.store, #[trigger] list@[k], want[k]),
            decreases list.len() - i,
        {
            assert(cluster_engine::is_linked_cluster(
                *self.store,
                list@[i as int],
                want[i as int],
            ));
            let files = self.top_files(&list[i].id, CLUSTER_FILES);
            list[i].top_files = files;
            i += 1;
        }
        list
    }

    /// The cluster with the id, with its links and files.
    pub fn cluster(&self, id: &str) -> (r: Option<GraphCluster>)
        requires
            self.graph().wf(),
        ensures
            match r {
                Some(c) => clusters::cluster_index(self.graph().clusters@, id@) matches Some(i)
                    && is_shown_cluster(self.graph(), c, self.graph().clusters@[i]),
                None => clusters::cluster_index(self.graph().clusters@, id@) is None,
            },
    {
        match self.get(id) {
            Some(c) => {
                let mut one = c;
                let files = self.top_files(&one.id, CLUSTER_FILES);
                one.top_files = files;
                Some(one)
            },
            None => None,
        }
    }
}

// ---- Documents to be embedded

pub open spec fn head_of(content: Seq<char>) -> Seq<char> {
    ai::first_chars(content, EMBED_CHARS as nat)
}

/// The first `n` documents whose head is not blank: the id of each, and its head.
pub open spec fn embedded(docs: Seq<(String, String)>, n: int) -> Seq<(Seq<char>, Seq<char>)>
    decreases n,
{
    if n <= 0 {
        Seq::empty()
    } else {
        let before = embedded(docs, n - 1);
        let head = head_of(docs[n - 1].1@);
        if text::trim(head).len() == 0 {
            before
        } else {
            before.push((ids::node_id(NodeType::Doc, docs[n - 1].0@), head))
        }
    }
}

/// What of documents is embedded, for paths and what the documents hold.
pub fn embedding_texts(docs: &Vec<(String, String)>) -> (r: Result<Vec<(String, String)>, String>)
    ensures
        match r {
            Ok(v) => v@.len() > 0 && crate::json::pairs_view(v@) == embedded(
                docs@,
                docs@.len() as int,
            ),
            Err(e) => embedded(docs@, docs@.len() as int).len() == 0 && e@ == "没有可嵌入的文档"@,
        },
{
    let mut out: Vec<(String, String)> = Vec::new();
    let mut i: usize = 0;
    assert(crate::json::pairs_view(out@) =~= Seq::empty());
    while i < docs.len()
        invariant
            i <= docs.len(),
            crate::json::pairs_view(out@) == embedded(docs@, i as int),
        decreases docs.len() - i,
    {
        let head = text::take_chars(&docs[i].1, EMBED_CHARS);
        if text::chars_of(&text::trim_space(&head)).len() > 0 {
            let ghost before = out@;
            let id = ids::node_id_for(NodeType::Doc, &docs[i].0);
            let ghost pair = (id@, head@);
            out.push((id, head));
            assert(crate::json::pairs_view(out@) =~= crate::json::pairs_view(before).push(pair));
        }
        i += 1;
    }
    assert(crate::json::pairs_view(out@).len() == out@.len());
    if out.len() == 0 {
        return Err("没有可嵌入的文档".to_owned());
    }
    Ok(out)
}

} // verus!
