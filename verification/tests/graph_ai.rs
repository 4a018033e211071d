use mdgo::graph::advice::trend_request;
use mdgo::graph::ai::{
    millionths, read_proposals, relation_from_label, relation_request, truncate_chars,
    LlmExperienceExtractor, LlmReply,
};
use mdgo::graph::cluster_engine::ClusterEngine;
use mdgo::graph::engine::{embedding_texts, importance, score_docs};
use mdgo::graph::experience::{EventSource, ExperienceEvent};
use mdgo::graph::ids::node_id_for;
use mdgo::graph::insight::{
    conflict_case, conflict_request, context_around, make_conflict, ConflictPair,
};
use mdgo::graph::model::{GraphEdge, GraphNode, NodeType, Relation, WHOLE};
use mdgo::graph::rag::{answer_plainly, answer_request, entity_request, evidence, HybridHit};
use mdgo::graph::similar::levenshtein_ratio;
use mdgo::graph::store::GraphStore;

fn store() -> GraphStore {
    GraphStore::new("kb".to_string())
}

fn node(id: &str, kind: NodeType, name: &str, path: Option<&str>) -> GraphNode {
    GraphNode {
        id: id.to_string(),
        node_type: kind,
        name: name.to_string(),
        path: path.map(|p| p.to_string()),
        meta: None,
        degree: None,
        created_at: None,
        content: None,
    }
}

fn add_doc(st: &mut GraphStore, path: &str) {
    let id = node_id_for(NodeType::Doc, path);
    st.upsert_node(&node(&id, NodeType::Doc, path, Some(path)), 1);
}

fn add_entity(st: &mut GraphStore, name: &str) {
    st.upsert_node(&node(&format!("entity:{name}"), NodeType::Entity, name, None), 1);
}

fn relate(st: &mut GraphStore, s: &str, t: &str, relation: Relation) {
    st.upsert_edge(
        &GraphEdge {
            source: s.to_string(),
            target: t.to_string(),
            relation,
            weight: Some(WHOLE),
            confidence: Some(WHOLE),
        },
        None,
        1,
    );
}

fn reply(s: &str) -> LlmReply {
    LlmReply::Text(s.to_string())
}

#[test]
fn test_relation_from_label() {
    assert_eq!(relation_from_label("使用"), Some(Relation::Uses));
    assert_eq!(relation_from_label("属于"), Some(Relation::BelongsTo));
    assert_eq!(relation_from_label("引用"), Some(Relation::References));
    assert_eq!(relation_from_label("replaced_by"), Some(Relation::ReplacedBy));
    assert_eq!(relation_from_label("不存在的"), None);
}

#[test]
fn test_levenshtein_ratio() {
    assert!(levenshtein_ratio("kafka streams", "kafka stream") > 900_000);
    assert!(levenshtein_ratio("redis", "redis") > 990_000);
    assert!(levenshtein_ratio("redis", "kafka") < 500_000);
    assert!(levenshtein_ratio("docker compose", "docker-compose") > 850_000);
}

#[test]
fn likeness_goes_both_ways() {
    assert_eq!(levenshtein_ratio("abcd", "abxd"), 750_000);
    assert_eq!(levenshtein_ratio("abxd", "abcd"), 750_000);
    assert_eq!(levenshtein_ratio("", ""), WHOLE);
    assert!(levenshtein_ratio("abc", "abd") < WHOLE);
}

#[test]
fn test_truncate_chars() {
    assert_eq!(truncate_chars("abc", 5), "abc");
    assert!(truncate_chars("abcdefgh", 4).ends_with('…'));
}

#[test]
fn test_llm_experience_extractor() {
    let ex = LlmExperienceExtractor;
    let req = ex.request("fix: 缓存", "正文内容");
    assert!(req.user.contains("fix: 缓存"));
    let (problem, solution) = ex
        .extract_problem_solution(&reply(r#"{"problem":"缓存穿透问题","solution":"布隆过滤器"}"#))
        .unwrap();
    assert!(problem.contains("缓存穿透"), "problem={}", problem);
    assert!(solution.contains("布隆过滤器"), "solution={}", solution);
    assert!(ex.extract_problem_solution(&LlmReply::Failed).is_err());
}

#[test]
fn test_extract_relations_failure_semantics() {
    let mut st = store();
    add_doc(&mut st, "a.md");
    let path = "a.md".to_string();
    let n = st.extract_relations(&path, "内容", &LlmReply::NotConfigured, 1).unwrap();
    assert_eq!(n, 0);
    assert_eq!(st.get_metric("llm_failures"), 0);
    let r = st.extract_relations(&path, "内容", &LlmReply::Failed, 1);
    assert!(r.is_err(), "{:?}", r);
    assert_eq!(st.get_metric("llm_failures"), 1);
}

#[test]
fn only_the_sure_is_confirmed() {
    let mut st = store();
    add_doc(&mut st, "a.md");
    let answer = r#"{"relations":[
        {"source":"Redis","target":"缓存","relation":"使用","confidence":0.95,"evidence":"e1"},
        {"source":"Kafka","target":"消息","relation":"属于","confidence":0.4,"evidence":"e2"},
        {"source":"","target":"x","relation":"使用","confidence":0.9}
    ]}"#;
    let ps = read_proposals(answer);
    assert_eq!(ps.len(), 2);
    assert_eq!(ps[0].relation, Relation::Uses);
    assert_eq!(ps[0].confidence, 950_000);
    assert_eq!(ps[1].confidence, 400_000);
    let n = st.extract_relations(&"a.md".to_string(), "内容", &reply(answer), 1).unwrap();
    assert_eq!(n, 2);
    let all = st.list_candidates(None, 10);
    let sure = all.iter().find(|c| c.confidence == 950_000).unwrap();
    let unsure = all.iter().find(|c| c.confidence == 400_000).unwrap();
    assert_eq!(sure.status, "auto_confirmed");
    assert_eq!(unsure.status, "candidate");
    assert_eq!(st.all_edges_between(&sure.source, &sure.target).len(), 1);
    assert_eq!(st.all_edges_between(&unsure.source, &unsure.target).len(), 0);
    assert!(relation_request("a.md", "  ").is_none());
    assert!(relation_request("a.md", "内容").is_some());
}

#[test]
fn numbers_become_millionths() {
    assert_eq!(millionths("0.5"), 500_000);
    assert_eq!(millionths("1"), WHOLE);
    assert_eq!(millionths("2.5"), WHOLE);
    assert_eq!(millionths("1e-1"), 100_000);
    assert_eq!(millionths("-3"), 0);
}

// ---- Priorities

#[test]
fn test_ai_priority_docs_orders_by_degree_recency_and_name() {
    let mut st = store();
    for p in ["README.md", "leaf.md", "orphan.md"] {
        add_doc(&mut st, p);
    }
    relate(&mut st, "doc:README.md", "doc:leaf.md", Relation::References);
    let now = 1_700_000_000_000;
    let scored = st.ai_priority_docs(&vec![now, now, now], now);
    let order: Vec<&str> = scored.iter().map(|(p, _)| p.as_str()).collect();
    assert_eq!(order[0], "README.md");
    assert_eq!(*order.last().unwrap(), "orphan.md");
    for (_, s) in &scored {
        assert!(*s <= WHOLE, "{}", s);
    }
    let dir = "kb".to_string();
    let n = st.enqueue_ai_docs(&dir, &scored, false, now);
    assert!(n >= 3);
    assert_eq!(st.queue_stats("kb").0, 3);
}

#[test]
fn test_ai_queue_batch_roundtrip_via_engine() {
    let mut st = store();
    let dir = "kb".to_string();
    st.enqueue_ai_docs(
        &dir,
        &vec![("a.md".to_string(), 900_000), ("b.md".to_string(), 400_000)],
        false,
        1,
    );
    let batch = st.next_ai_batch(&dir, 1, 2);
    assert_eq!(batch.len(), 1);
    assert_eq!(batch[0].rel_path, "a.md");
    st.finish_ai_item(batch[0].id, true, 3, 3);
    let (pending, _, done, _) = st.queue_stats("kb");
    assert_eq!(pending, 1);
    assert_eq!(done, 1);
    let batch2 = st.next_ai_batch(&dir, 10, 4);
    assert_eq!(batch2.len(), 1);
    assert_eq!(batch2[0].rel_path, "b.md");
}

#[test]
fn importance_is_exact() {
    let now = 1_700_000_000_000;
    assert_eq!(importance("a.md", 0, 5, now, now), 300_000);
    assert_eq!(importance("docs/README.md", 5, 5, now, now), WHOLE);
    assert_eq!(importance("a.md", 1, 2, 0, now), 340_000);
    assert!(importance("README.md", 3, 3, now, now) <= WHOLE);
    assert!(importance("a.md", 3, 3, now, now) > importance("a.md", 1, 3, now, now));
    let s = score_docs(&vec![("a.md".into(), 1), ("b.md".into(), 2)], &vec![now, now], now);
    assert_eq!(s[0].0, "b.md");
    let mut st = store();
    add_doc(&mut st, "a.md");
    assert_eq!(st.enqueue_after_build(&"kb".to_string(), &vec![now], now), 1);
    assert!(st.has_work("kb"));
}

#[test]
fn a_failed_call_is_made_again() {
    let mut st = store();
    add_doc(&mut st, "a.md");
    let dir = "kb".to_string();
    st.enqueue_ai_docs(&dir, &vec![("a.md".to_string(), 1)], false, 1);
    let item = st.next_ai_batch(&dir, 1, 2).remove(0);
    assert!(st.begin_item(&item, 0, Some("正文"), true, 3).is_some());
    assert!(st.end_item(&item, "正文", &LlmReply::Failed, 4).is_err());
    assert_eq!(st.queue_stats("kb").0, 1);
    let item = st.next_ai_batch(&dir, 1, 5).remove(0);
    assert!(st.begin_item(&item, 0, None, true, 6).is_none());
    assert!(embedding_texts(&vec![]).is_err());
    let t = embedding_texts(&vec![("a.md".to_string(), "x".repeat(1000))]).unwrap();
    assert_eq!(t.len(), 1);
    assert!(t[0].1.chars().count() < 400);
}

// ---- Insight

fn clustered() -> GraphStore {
    let mut st = store();
    add_doc(&mut st, "docs/a.md");
    add_doc(&mut st, "docs/b.md");
    add_entity(&mut st, "redis");
    relate(&mut st, "doc:docs/a.md", "entity:redis", Relation::References);
    relate(&mut st, "doc:docs/b.md", "entity:redis", Relation::References);
    ClusterEngine::new(&mut st).rebuild(2);
    st
}

#[test]
fn a_cluster_is_described() {
    let mut st = clustered();
    let req = st.summary_request("cluster:docs").unwrap();
    assert!(req.user.contains("a.md"), "{}", req.user);
    let text = st.summarize_cluster(
        "cluster:docs",
        &reply(r#"{"description":"缓存资料","tags":["缓存"]}"#),
        3,
    );
    assert!(text.unwrap().contains("缓存资料"));
    assert!(st
        .get_cluster("cluster:docs")
        .unwrap()
        .description
        .unwrap()
        .contains("缓存资料"));
    assert!(st.summarize_cluster("cluster:docs", &LlmReply::Failed, 4).is_none());
    assert!(st.summary_request("cluster:none").is_none());
}

#[test]
fn gaps_are_told() {
    let mut st = clustered();
    let id = "cluster:docs".to_string();
    assert!(st.gap_request("cluster:docs").is_some());
    let gaps = st.detect_gaps(&id, Some(&reply(r#"{"missing":["集群","持久化"]}"#)));
    assert_eq!(gaps.len(), 1);
    assert_eq!(gaps[0].missing, vec!["集群".to_string(), "持久化".to_string()]);
    assert!(gaps[0].covered.contains(&"redis".to_string()));
    assert!(st.detect_gaps(&"cluster:none".to_string(), None).is_empty());
}

#[test]
fn conflicts_are_found_between_documents() {
    let mut st = clustered();
    let pairs = st.conflict_pairs();
    assert_eq!(pairs.len(), 1);
    assert_eq!(pairs[0].entity_id, "entity:redis");
    let pair = ConflictPair {
        entity_id: "entity:redis".to_string(),
        doc_a: "docs/a.md".to_string(),
        doc_b: "docs/b.md".to_string(),
    };
    assert_eq!(context_around("前文 redis 后文", "entity:redis", 3), "前文 red");
    assert!(conflict_case(
        ConflictPair {
            entity_id: "entity:redis".to_string(),
            doc_a: "a".to_string(),
            doc_b: "b".to_string()
        },
        "",
        "redis 慢"
    )
    .is_none());
    let case = conflict_case(pair, "redis 很快", "redis 很慢").unwrap();
    assert!(conflict_request(&case).user.contains("很快"));
    let c = make_conflict(&case, None, Some("相反".to_string()));
    assert_eq!(c.analysis, "相反");
    assert!(c.claim_a.contains("很快"));
    let found = st.detect_conflicts(
        &vec![case],
        &vec![reply(r#"{"conflict":true,"topic":"速度","analysis":"相反"}"#)],
    );
    assert_eq!(found.len(), 1);
    assert_eq!(found[0].topic, "速度");
}

#[test]
fn duplicates_are_found() {
    let mut st = store();
    add_entity(&mut st, "kafka streams");
    add_entity(&mut st, "kafka stream");
    add_entity(&mut st, "redis");
    let d = st.detect_duplicates(10);
    assert_eq!(d.len(), 1);
    assert_eq!(d[0].similarity, levenshtein_ratio("kafka streams", "kafka stream"));
}

// ---- Questions

#[test]
fn a_question_is_answered_from_the_graph() {
    let mut st = clustered();
    assert!(entity_request("redis 是什么").user.contains("redis 是什么"));
    assert_eq!(st.find_best_node("redis").unwrap().id, "entity:redis");
    let d = st.rag_draft("redis 是什么", &reply(r#"{"entities":["redis"]}"#));
    assert_eq!(d.entities.len(), 1);
    assert!(!d.lines.is_empty());
    let hits = vec![HybridHit {
        doc: "docs/a.md".to_string(),
        text: "redis 是缓存".to_string(),
        score: "0.90".to_string(),
        chunk_index: 2,
    }];
    assert!(answer_request("redis 是什么", &d, &hits).user.contains("redis 是缓存"));
    assert!(!answer_plainly(&d, &hits).is_empty());
    assert!(evidence(&hits, &d.lines).iter().any(|e| e.source_doc == "docs/a.md"));
    let r = st.graph_rag(d, &reply("缓存数据库"), &hits);
    assert!(r.used_llm);
    assert_eq!(r.answer, "缓存数据库");
    let d = st.rag_draft("redis", &LlmReply::NotConfigured);
    let r = st.graph_rag(d, &LlmReply::NotConfigured, &hits);
    assert!(!r.used_llm);
}

// ---- Advice

#[test]
fn what_shares_most_is_recommended_first() {
    let mut st = clustered();
    let r = st.recommend("doc:docs/a.md", 5);
    assert_eq!(r.len(), 1);
    assert_eq!(r[0].node.id, "doc:docs/b.md");
    assert_eq!(r[0].score, 2 + st.degree("doc:docs/b.md") as u64);
}

#[test]
fn preferences_are_remembered() {
    let mut st = store();
    st.memory_set(&"Rust".to_string(), true, Some("chat"), 1).unwrap();
    st.memory_set(&"Java".to_string(), false, None, 2).unwrap();
    let p = st.memory_preferences();
    assert_eq!(p.len(), 2);
    assert!(st.edges.iter().any(|e| e.relation == Relation::Prefers));
    assert!(st.edges.iter().any(|e| e.relation == Relation::Avoids));
}

#[test]
fn growth_is_told() {
    let mut st = clustered();
    let (e, none) = st.evolution_insights(None).unwrap();
    assert!(none.is_none());
    assert!(trend_request(&e).is_some());
    let (_, text) = st.evolution_insights(Some(&reply("增长很快"))).unwrap();
    assert_eq!(text, Some("增长很快".to_string()));
    let event = ExperienceEvent {
        id: "e".to_string(),
        source: EventSource::ChatMessage,
        title: "问题".to_string(),
        body: "办法".to_string(),
        file_path: None,
        created_at: 1,
    };
    st.experience_record_ai(&event, Some(&reply(r#"{"problem":"p","solution":"s"}"#)), 2);
    assert!(st.get_property("exp:e").is_some());
    assert!(st.get_node("experience:event:e").is_some());
}
