//! The steps in which a graph is put together once its files and links are there, and what
//! is noted of them.

use crate::graph::chunk;
use crate::graph::chunk::{ChunkGraphBuilder, SourceDoc};
use crate::graph::cluster_engine;
use crate::graph::cluster_engine::TopicGroups;
use crate::graph::engine;
use crate::graph::extractor;
use crate::graph::extractor::EntityExtractor;
use crate::graph::ids;
use crate::graph::lists;
use crate::graph::model::NodeType;
use crate::graph::query;
use crate::graph::queue;
use crate::graph::store;
use crate::graph::store::GraphStore;
use crate::graph::views;
use vstd::prelude::*;

verus! {

/// Under what the way in which clusters were found is noted.
pub const CLUSTER_MODE: &'static str = "graph_cluster_mode";

/// Under what it is noted that clusters of topics have been found once.
pub const TOPICS_DONE: &'static str = "graph_auto_semantic_done";

proof fn lemma_keys()
    ensures
        CLUSTER_MODE@ != store::VERSION_MARKER@,
        TOPICS_DONE@ != store::VERSION_MARKER@,
{
    reveal_strlit("graph_cluster_mode");
    reveal_strlit("graph_auto_semantic_done");
    reveal_strlit("graph_version");
    assert(store::VERSION_MARKER@.len() == 13);
    assert(CLUSTER_MODE@.len() == 18);
    assert(TOPICS_DONE@.len() == 24);
}

/// Whether a property was set, and nothing else changed.
pub open spec fn is_noted(a: GraphStore, b: GraphStore, key: Seq<char>, value: Seq<char>) -> bool {
    &&& exists|k: String, v: String|
        {
            &&& k@ == key
            &&& v@ == value
            &&& b.properties@ == #[trigger] store::with_property(a.properties@, k, v)
        }
    &&& b == (GraphStore { properties: b.properties, ..a })
}

/// Whether the clusters of directories were found anew, and that is noted.
pub open spec fn is_reclustered(a: GraphStore, b: GraphStore, now: i64) -> bool {
    exists|m: GraphStore| #[trigger]
        cluster_engine::is_rebuilt(a, m, now) && is_noted(m, b, CLUSTER_MODE@, "directory"@)
}

/// Whether the parts of documents were added.
pub open spec fn has_parts(a: GraphStore, b: GraphStore, docs: Seq<SourceDoc>, now: i64) -> bool {
    &&& views::graph_of(b) == chunk::with_all_parts(
        views::graph_of(a),
        docs,
        store::doc_paths(a.nodes@, a.nodes@.len() as int),
        docs.len() as int,
        now,
    )
    &&& views::same_rest(a, b)
}

/// Whether the entities of documents were added.
pub open spec fn has_entities(
    a: GraphStore,
    b: GraphStore,
    texts: Seq<(String, String)>,
    now: i64,
) -> bool {
    &&& views::graph_of(b) == extractor::with_docs_entities(
        views::graph_of(a),
        texts,
        texts.len() as int,
        now,
    )
    &&& views::same_rest(a, b)
}

/// Whether a graph was completed: first the parts of the documents, then their entities,
/// then the clusters.
pub open spec fn is_completed(
    a: GraphStore,
    b: GraphStore,
    docs: Seq<SourceDoc>,
    texts: Seq<(String, String)>,
    now: i64,
) -> bool {
    exists|p: GraphStore, e: GraphStore|
        {
            &&& #[trigger] has_parts(a, p, docs, now)
            &&& #[trigger] has_entities(p, e, texts, now)
            &&& is_reclustered(e, b, now)
        }
}

impl GraphStore {
    fn note(&mut self, key: &str, value: &str)
        requires
            old(self).wf(),
            key@ != store::VERSION_MARKER@,
        ensures
            final(self).wf(),
            is_noted(*old(self), *final(self), key@, value@),
    {
        let k = key.to_owned();
        let v = value.to_owned();
        let ghost gk = k;
        let ghost gv = v;
        self.write_property(k, v);
        assert(self.properties@ == store::with_property(old(self).properties@, gk, gv));
    }

    /// Finds the clusters of directories anew and returns how many there are.
    pub fn recluster(&mut self, now: i64) -> (n: usize)
        requires
            old(self).wf(),
        ensures
            final(self).wf(),
            is_reclustered(*old(self), *final(self), now),
            n == final(self).clusters@.len(),
    {
        let n = self.rebuild_clusters(now);
        let ghost m = *self;
        proof {
            lemma_keys();
        }
        self.note(CLUSTER_MODE, "directory");
        assert(cluster_engine::is_rebuilt(*old(self), m, now));
        n
    }

    /// Whether clusters of topics are to be found: the model is there, and it has not been
    /// done yet.
    pub fn wants_topics(&self, model_ready: bool) -> (r: bool)
        ensures
            r == (model_ready && store::property_index(self.properties@, TOPICS_DONE@) is None),
    {
        proof {
            lemma_keys();
        }
        model_ready && self.get_property(TOPICS_DONE).is_none()
    }

    /// Notes that clusters of topics have been found once.
    pub fn topics_done(&mut self)
        requires
            old(self).wf(),
        ensures
            final(self).wf(),
            is_noted(*old(self), *final(self), TOPICS_DONE@, "1"@),
    {
        proof {
            lemma_keys();
        }
        self.note(TOPICS_DONE, "1");
    }

    /// Makes the groups of documents of one topic the clusters and returns how many there
    /// are.
    pub fn recluster_embedding(&mut self, topics: &TopicGroups, now: i64) -> (n: usize)
        requires
            old(self).wf(),
        ensures
            final(self).wf(),
            n == topics.groups@.len(),
            if topics.groups@.len() == 0 {
                is_noted(*old(self), *final(self), CLUSTER_MODE@, "embedding"@)
            } else {
                exists|m: GraphStore| #[trigger]
                    cluster_engine::has_topics(
                        *old(self),
                        m,
                        cluster_engine::group_views(topics.groups@),
                        now,
                    ) && is_noted(m, *final(self), CLUSTER_MODE@, "embedding"@)
            },
    {
        let n = self.rebuild_topics(topics, now);
        let ghost m = *self;
        proof {
            lemma_keys();
        }
        self.note(CLUSTER_MODE, "embedding");
        proof {
            if topics.groups@.len() > 0 {
                assert(cluster_engine::has_topics(
                    *old(self),
                    m,
                    cluster_engine::group_views(topics.groups@),
                    now,
                ));
            }
        }
        n
    }

    /// Completes a graph whose files and links are there: adds the parts of the documents
    /// and their entities, and finds the clusters. Returns how many clusters there are.
    pub fn complete(
        &mut self,
        docs: &Vec<SourceDoc>,
        texts: &Vec<(String, String)>,
        now: i64,
    ) -> (n: usize)
        requires
            old(self).wf(),
            docs@.len() <= u32::MAX,
            chunk::chunk_total(docs@, docs@.len() as int) <= u32::MAX,
        ensures
            final(self).wf(),
            is_completed(*old(self), *final(self), docs@, texts@, now),
            n == final(self).clusters@.len(),
    {
        self.add_parts(docs, now);
        let ghost p = *self;
        self.add_entities(texts, now);
        let ghost e = *self;
        let n = self.recluster(now);
        assert(has_parts(*old(self), p, docs@, now));
        assert(has_entities(p, e, texts@, now));
        n
    }

    fn add_parts(&mut self, docs: &Vec<SourceDoc>, now: i64)
        requires
            old(self).wf(),
            docs@.len() <= u32::MAX,
            chunk::chunk_total(docs@, docs@.len() as int) <= u32::MAX,
        ensures
            final(self).wf(),
            has_parts(*old(self), *final(self), docs@, now),
    {
        let mut b = ChunkGraphBuilder::new(self);
        b.build_all(docs, now);
    }

    fn add_entities(&mut self, texts: &Vec<(String, String)>, now: i64)
        requires
            old(self).wf(),
        ensures
            final(self).wf(),
            has_entities(*old(self), *final(self), texts@, now),
    {
        let mut b = EntityExtractor::new(self);
        b.extract_all_docs(texts, now);
    }

    /// Puts a document that was changed into the queue, by its importance; though it was
    /// done, it is read again.
    pub fn enqueue_file(&mut self, dir_path: &String, rel_path: &String, mtime: i64, now: i64)
        requires
            old(self).wf(),
            old(self).next_item < i64::MAX,
        ensures
            final(self).wf(),
            ({
                let id = ids::node_id(NodeType::Doc, rel_path@);
                let importance = engine::importance_of(
                    rel_path@,
                    query::degree_of(old(self).edges@, id),
                    lists::max_doc_degree(
                        old(self).edges@,
                        old(self).nodes@,
                        old(self).nodes@.len() as int,
                    ),
                    mtime,
                    now,
                );
                final(self).queue_view() == queue::with_docs(
                    old(self).queue_view(),
                    *dir_path,
                    seq![(*rel_path, importance as u32)],
                    1,
                    true,
                    now,
                )
            }),
            *final(self) == (GraphStore {
                queue: final(self).queue,
                next_item: final(self).next_item,
                ..*old(self)
            }),
    {
        let (degree, max_degree) = self.doc_degree_rank(rel_path);
        let score = engine::importance(rel_path, degree, max_degree, mtime, now);
        let mut docs: Vec<(String, u32)> = Vec::new();
        docs.push((rel_path.clone(), score));
        assert(docs@ =~= seq![(*rel_path, score)]);
        self.enqueue_ai_docs(dir_path, &docs, true, now);
    }
}

/// What was noted last of how clusters were found is read again.
pub proof fn law_what_is_noted_is_read_again(
    a: GraphStore,
    b: GraphStore,
    key: Seq<char>,
    value: Seq<char>,
)
    requires
        a.wf(),
        key != store::VERSION_MARKER@,
        is_noted(a, b, key, value),
    ensures
        store::property_of(b, key) == Some(value),
{
    let (k, v) = choose|k: String, v: String|
        {
            &&& k@ == key
            &&& v@ == value
            &&& b.properties@ == #[trigger] store::with_property(a.properties@, k, v)
        };
    crate::rows::lemma_row_index(a.properties@, store::property_key(), key, 0);
    match store::property_index(a.properties@, key) {
        Some(i) => {
            crate::rows::lemma_unique_update(
                a.properties@,
                store::property_key(),
                i,
                store::PropertyRow { key: a.properties@[i].key, value: v },
            );
            crate::rows::lemma_row_index_at(b.properties@, store::property_key(), i);
        },
        None => {
            crate::rows::lemma_unique_push(
                a.properties@,
                store::property_key(),
                store::PropertyRow { key: k, value: v },
            );
            crate::rows::lemma_row_index_at(
                b.properties@,
                store::property_key(),
                a.properties@.len() as int,
            );
        },
    }
}

} // verus!
