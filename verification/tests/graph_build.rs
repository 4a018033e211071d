use mdgo::graph::builder::GraphBuilder;
use mdgo::graph::chunk::{
    chunk_node_id, section_node_id, ChunkGraphBuilder, DocChunk, SourceDoc,
};
use mdgo::graph::cluster_engine::{folder_node_id, ClusterEngine, TopicGroups};
use mdgo::graph::clusters::{cluster_display_name, cluster_id_for_path, ROOT_CLUSTER_ID};
use mdgo::graph::evolution::month_of;
use mdgo::graph::experience::{EventSource, ExperienceBrain, ExperienceEvent};
use mdgo::graph::extractor::{rule_entities, EntityExtractor};
use mdgo::graph::imports::{extract_code_imports, resolve_import_target};
use mdgo::graph::links::{extract_link_targets, is_linkable, parent_dir, resolve_link};
use mdgo::graph::merger::{canonicalize, join_words, EntityMerger};
use mdgo::graph::model::{GraphEdge, GraphNode, NodeType, Relation, WHOLE};
use mdgo::graph::store::GraphStore;

fn store() -> GraphStore {
    GraphStore::new("kb".to_string())
}

fn doc_node(id: &str, path: &str) -> GraphNode {
    GraphNode {
        id: id.to_string(),
        node_type: NodeType::Doc,
        name: path.to_string(),
        path: Some(path.to_string()),
        meta: None,
        degree: None,
        created_at: None,
        content: None,
    }
}

fn doc(id: &str, name: &str, path: &str) -> GraphNode {
    let mut n = doc_node(id, path);
    n.name = name.to_string();
    n
}

fn reference(s: &str, t: &str) -> GraphEdge {
    GraphEdge {
        source: s.to_string(),
        target: t.to_string(),
        relation: Relation::References,
        weight: Some(WHOLE),
        confidence: Some(WHOLE),
    }
}

fn strings(list: &[&str]) -> Vec<String> {
    list.iter().map(|s| s.to_string()).collect()
}

fn piece(text: &str, path: &[&str], kind: &str) -> DocChunk {
    DocChunk {
        text: text.to_string(),
        path: strings(path),
        chunk_type: kind.to_string(),
    }
}

// ---- Links

#[test]
fn test_extract_links() {
    let text = "见 [[README]] 和 [文档](docs/guide.md) 与 ![图](img/a.png)。";
    let targets = extract_link_targets(text);
    assert!(targets.contains(&"README".to_string()));
    assert!(targets.contains(&"docs/guide.md".to_string()));
    assert!(targets.contains(&"img/a.png".to_string()));
}

#[test]
fn test_extract_links_skips_code() {
    let text = "```md\n[[inside-code]]\n```\n正文 [[real-link]]";
    let targets = extract_link_targets(text);
    assert!(!targets.contains(&"inside-code".to_string()));
    assert!(targets.contains(&"real-link".to_string()));
}

#[test]
fn links_in_inline_code_are_no_links() {
    let targets = extract_link_targets("`[[no]]` 和 [[yes|显示]] <https://a.com/x>");
    assert_eq!(targets, strings(&["yes"]));
}

#[test]
fn test_resolve_link_exact() {
    let files = strings(&["README.md", "docs/guide.md"]);
    assert_eq!(resolve_link("README", "src/a.md", &files), Some("README.md".to_string()));
    assert_eq!(
        resolve_link("docs/guide.md", "src/a.md", &files),
        Some("docs/guide.md".to_string())
    );
    assert_eq!(resolve_link("guide", "docs/b.md", &files), Some("docs/guide.md".to_string()));
    assert_eq!(resolve_link("missing", "src/a.md", &files), None);
}

#[test]
fn test_parent_dir() {
    assert_eq!(parent_dir("a.md"), None);
    assert_eq!(parent_dir("docs/a.md"), Some("docs".to_string()));
    assert_eq!(parent_dir("docs/sub/a.md"), Some("docs/sub".to_string()));
}

#[test]
fn only_documents_are_read_for_links() {
    assert!(is_linkable("a.md"));
    assert!(!is_linkable("a.png"));
}

// ---- Building

#[test]
fn files_folders_and_links_become_a_graph() {
    let mut st = store();
    let mut b = GraphBuilder::new(&mut st);
    b.build_all(
        &strings(&["docs"]),
        &strings(&["docs/a.md", "docs/b.md", "README.md"]),
        &vec![Some("见 [[b]]".to_string()), Some("正文".to_string()), None],
        1,
    );
    assert!(st.get_node("doc:docs/a.md").is_some());
    assert_eq!(st.all_edges_between("doc:docs/a.md", "doc:docs/b.md").len(), 1);
    let folder = folder_node_id("docs");
    assert!(st.get_node(&folder).is_some());
    let before = st.nodes.len();
    let mut b = GraphBuilder::new(&mut st);
    b.build_file("docs/a.md", Some("没有链接"), 2);
    assert_eq!(st.all_edges_between("doc:docs/a.md", "doc:docs/b.md").len(), 0);
    assert_eq!(st.nodes.len(), before);
    let mut b = GraphBuilder::new(&mut st);
    assert!(b.remove_path("docs") >= 2);
    assert!(st.get_node("doc:README.md").is_some());
    let mut b = GraphBuilder::new(&mut st);
    b.build_incremental(
        &strings(&["docs"]),
        &strings(&["docs/c.md"]),
        &vec![Some("新".to_string())],
        3,
    );
    assert!(st.get_node("doc:docs/c.md").is_some());
    assert!(st.get_node("doc:README.md").is_some());
}

#[test]
fn test_node_id_conventions() {
    assert_eq!(chunk_node_id("docs/a.md", 0), "chunk:docs/a.md#0");
    assert_eq!(
        section_node_id("docs/a.md", &strings(&["K8s", "Network"])),
        "section:docs/a.md#K8s#Network"
    );
}

#[test]
fn test_build_doc_markdown_sections_and_chunks() {
    let mut st = store();
    st.upsert_node(&doc_node("doc:docs/a.md", "docs/a.md"), 1);
    let md = "# 缓存穿透\n\n布隆过滤器可以解决缓存穿透问题。\n\n## 一致性\n\n先更新数据库再删缓存。\n";
    let chunks = vec![
        piece("布隆过滤器可以解决缓存穿透问题。", &["缓存穿透"], "text"),
        piece("先更新数据库再删缓存。", &["缓存穿透", "一致性"], "text"),
    ];
    let path = "docs/a.md".to_string();
    let stats = ChunkGraphBuilder::new(&mut st).build_doc(&path, md, &chunks, None, 1);
    assert!(stats.chunks >= 1, "{}", stats.chunks);
    let content_nodes = st.list_content_nodes_for_doc("docs/a.md", 1000);
    assert!(content_nodes.iter().any(|n| n.node_type == NodeType::Section));
    let nb = st.neighborhood("doc:docs/a.md", 2, 500, 1000, None, 0);
    assert!(nb.nodes.iter().any(|n| n.node_type == NodeType::Chunk));
    assert!(nb.nodes.iter().any(|n| n.node_type == NodeType::Section));
    let chunk = nb
        .nodes
        .iter()
        .find(|n| {
            n.node_type == NodeType::Chunk
                && n.content.as_deref().map(|c| c.contains("布隆过滤器")).unwrap_or(false)
        })
        .expect("chunk containing 布隆过滤器");
    assert!(chunk.content.as_deref().unwrap_or("").contains("布隆过滤器"));
    let count = |st: &GraphStore| {
        st.list_content_nodes_for_doc("docs/a.md", 10_000)
            .iter()
            .filter(|n| n.node_type == NodeType::Chunk)
            .count()
    };
    let before = count(&st);
    ChunkGraphBuilder::new(&mut st).build_doc(&path, md, &chunks, None, 2);
    assert_eq!(before, count(&st), "rebuild should not duplicate chunk nodes");
}

#[test]
fn test_build_doc_plain_text_no_sections() {
    let mut st = store();
    st.upsert_node(&doc_node("doc:src/main.rs", "src/main.rs"), 1);
    let code = "fn main() {\n    println!(\"hello\");\n}\n";
    let stats = ChunkGraphBuilder::new(&mut st).build_doc(
        &"src/main.rs".to_string(),
        code,
        &vec![piece(code, &[], "code")],
        None,
        1,
    );
    assert!(stats.chunks >= 1);
    let nb = st.neighborhood("doc:src/main.rs", 1, 500, 1000, None, 0);
    assert!(nb.nodes.iter().any(|n| n.node_type == NodeType::Chunk));
    assert!(!nb.nodes.iter().any(|n| n.node_type == NodeType::Section));
}

#[test]
fn test_code_imports_edges() {
    let imports = extract_code_imports(
        "import os\nfrom flask import Flask\nimport React from 'react'\nconst x = require('lodash');\nuse std::collections::HashMap;\nimport java.util.List;\n#include <stdio.h>\n",
    );
    assert!(imports.contains(&"os".to_string()));
    assert!(imports.contains(&"flask".to_string()));
    assert!(imports.contains(&"lodash".to_string()));
    assert!(!imports.contains(&"react".to_string()));
    assert!(!imports.iter().any(|i| i.starts_with("std::")));

    let paths = strings(&[
        "src/services/bookmark_service.py",
        "src/utils/logger.py",
        "app/main.ts",
    ]);
    assert_eq!(
        resolve_import_target(".bookmark_service", &paths),
        Some("src/services/bookmark_service.py".to_string())
    );
    assert_eq!(
        resolve_import_target("src/services/bookmark_service", &paths),
        Some("src/services/bookmark_service.py".to_string())
    );
    assert_eq!(
        resolve_import_target("app/main.ts", &paths),
        Some("app/main.ts".to_string())
    );

    let mut st = store();
    st.upsert_node(&doc_node("doc:app/main.ts", "app/main.ts"), 1);
    st.upsert_node(
        &doc_node("doc:src/services/bookmark_service.py", "src/services/bookmark_service.py"),
        1,
    );
    let ts = "import { BookmarkService } from '../src/services/bookmark_service';\n";
    let paths = strings(&["app/main.ts", "src/services/bookmark_service.py"]);
    ChunkGraphBuilder::new(&mut st).build_doc(
        &"app/main.ts".to_string(),
        ts,
        &vec![piece(ts, &[], "code")],
        Some(&paths),
        1,
    );
    let nb = st.neighborhood("doc:app/main.ts", 1, 500, 1000, None, 0);
    assert!(nb.edges.iter().any(|e| e.relation == Relation::Imports));
}

#[test]
fn rebuilding_leaves_no_old_parts() {
    let mut st = store();
    st.upsert_node(&doc_node("doc:a.md", "a.md"), 1);
    let docs = vec![SourceDoc {
        rel_path: "a.md".to_string(),
        content: "x".to_string(),
        chunks: vec![piece("one", &["A"], "text"), piece("two", &["B"], "text")],
    }];
    let s = ChunkGraphBuilder::new(&mut st).build_all(&docs, 1);
    assert_eq!((s.docs, s.chunks, s.sections), (1, 2, 2));
    let s = ChunkGraphBuilder::new(&mut st).build_file(
        "a.md",
        Some("x"),
        &vec![piece("three", &[], "text")],
        2,
    );
    assert_eq!((s.chunks, s.sections), (1, 0));
    let left = st.list_content_nodes_for_doc("a.md", 100);
    assert_eq!(left.len(), 1);
    assert_eq!(left[0].content, Some("three".to_string()));
    assert_eq!(ChunkGraphBuilder::new(&mut st).doc_paths(), strings(&["a.md"]));
}

// ---- Entities

#[test]
fn test_canonicalize() {
    assert_eq!(canonicalize("Redis"), "redis");
    assert_eq!(canonicalize("Redis 缓存"), "redis");
    assert_eq!(canonicalize("  Redis  "), "redis");
    assert_eq!(canonicalize("Spring Boot"), "spring boot");
    assert_eq!(canonicalize("RAG 框架"), "rag");
}

#[test]
fn a_name_keeps_its_meaning() {
    let mut st = store();
    st.upsert_node(&doc_node("doc:a.md", "a.md"), 1);
    let mut m = EntityMerger::new(&mut st);
    let from = "a.md".to_string();
    let a = m
        .upsert_entity(&"Redis".to_string(), &strings(&["RD"]), Some(&from), 1)
        .unwrap();
    let b = m.upsert_entity(&"redis 缓存".to_string(), &Vec::new(), Some(&from), 2).unwrap();
    assert_eq!(a, b);
    assert!(m.upsert_entity(&"  ".to_string(), &Vec::new(), None, 3).is_err());
    assert_eq!(st.get_node(&a).unwrap().node_type, NodeType::Entity);
}

#[test]
fn a_host_becomes_an_entity() {
    let found = rule_entities("docs/a.md", "见 [redis](https://redis.io/docs)");
    assert!(found.iter().any(|(n, _)| n.contains("redis")), "{found:?}");
    let mut st = store();
    st.upsert_node(&doc_node("doc:docs/a.md", "docs/a.md"), 1);
    let n = EntityExtractor::new(&mut st).extract_all_docs(
        &vec![("docs/a.md".to_string(), "见 [redis](https://redis.io/docs)".to_string())],
        1,
    );
    assert_eq!(n, found.len());
    assert!(st.nodes.iter().any(|n| n.node_type == NodeType::Entity));
}

// ---- Clusters

#[test]
fn test_cluster_id_for_path() {
    assert_eq!(cluster_id_for_path("docs/a.md"), "cluster:docs");
    assert_eq!(cluster_id_for_path("a.md"), ROOT_CLUSTER_ID);
    assert_eq!(cluster_id_for_path("docs/sub/a.md"), "cluster:docs");
    assert_eq!(cluster_display_name("cluster:docs"), "docs");
    assert_eq!(cluster_display_name(ROOT_CLUSTER_ID), "根目录");
}

fn three_docs() -> GraphStore {
    let mut st = store();
    st.upsert_node(&doc("doc:a.md", "a.md", "docs/a.md"), 1);
    st.upsert_node(&doc("doc:b.md", "b.md", "docs/b.md"), 1);
    st.upsert_node(&doc("doc:root.md", "root.md", "root.md"), 1);
    st.upsert_edge(&reference("doc:a.md", "doc:b.md"), Some("doc:a.md".to_string()), 1);
    st
}

#[test]
fn test_rebuild_groups_by_top_dir() {
    let mut st = three_docs();
    let mut engine = ClusterEngine::new(&mut st);
    assert_eq!(engine.rebuild(2), 2);
    let clusters = engine.list(100);
    let docs = clusters.iter().find(|c| c.id == "cluster:docs").unwrap();
    assert_eq!(docs.node_count, 2);
    assert_eq!(docs.edge_count, 1);
    assert_eq!(docs.centroid.as_deref(), Some("doc:a.md"));
    let root = clusters.iter().find(|c| c.id == ROOT_CLUSTER_ID).unwrap();
    assert_eq!(root.node_count, 1);
    assert_eq!(root.centroid.as_deref(), Some("doc:root.md"));
}

#[test]
fn test_cluster_subgraph() {
    let mut st = three_docs();
    let mut engine = ClusterEngine::new(&mut st);
    engine.rebuild(2);
    let (members, edges) = engine.subgraph("cluster:docs", 100);
    assert_eq!(members.len(), 2);
    assert_eq!(edges.len(), 1);
}

#[test]
fn test_cluster_links_survive_read() {
    let mut st = store();
    st.upsert_node(&doc("doc:a.md", "a.md", "docs/a.md"), 1);
    st.upsert_node(&doc("doc:b.md", "b.md", "src/b.md"), 1);
    st.upsert_edge(&reference("doc:a.md", "doc:b.md"), Some("doc:a.md".to_string()), 1);
    let mut engine = ClusterEngine::new(&mut st);
    engine.rebuild(2);
    let clusters = engine.list(100);
    let docs = clusters.iter().find(|c| c.id == "cluster:docs").unwrap();
    let _src = clusters.iter().find(|c| c.id == "cluster:src").unwrap();
    assert_eq!(docs.links.len(), 1);
    assert_eq!(docs.links[0].count, 1);
    assert!(docs.links[0].target == "cluster:src" || docs.links[0].source == "cluster:src");
    let one = engine.get("cluster:docs").unwrap();
    assert_eq!(one.links.len(), 1);
}

#[test]
fn test_node_cluster_map_covers_all() {
    let mut st = store();
    st.upsert_node(&doc("doc:a.md", "a.md", "docs/a.md"), 1);
    st.upsert_node(&doc("doc:root.md", "root.md", "root.md"), 1);
    ClusterEngine::new(&mut st).rebuild(2);
    let map = st.node_cluster_map();
    assert_eq!(map.get("doc:a.md"), Some("cluster:docs"));
    assert_eq!(map.get("doc:root.md"), Some(ROOT_CLUSTER_ID));
}

#[test]
fn topics_group_what_is_alike() {
    let mut st = three_docs();
    let mut topics = TopicGroups::new();
    assert_eq!(topics.place("doc:a.md".into(), &vec![], 650_000), None);
    assert_eq!(topics.place("doc:b.md".into(), &vec![700_000], 650_000), Some(0));
    assert_eq!(topics.place("doc:root.md".into(), &vec![100_000], 650_000), None);
    assert_eq!(topics.groups.len(), 2);
    let mut engine = ClusterEngine::new(&mut st);
    let n = engine.rebuild_from_embeddings(&topics, 3);
    assert!(n >= 1);
    assert!(!engine.list(10).is_empty());
    assert!(engine.top_files("cluster:nothing", 3).is_empty());
    assert_eq!(st.cluster_mode(), "directory");
}

#[test]
fn months_are_counted() {
    assert_eq!(month_of(0), Some("1970-01".to_string()));
    assert_eq!(month_of(1_700_000_000_000), Some("2023-11".to_string()));
    assert_eq!(month_of(-1_000), Some("1969-12".to_string()));
    let mut st = store();
    let mut n = doc_node("doc:a.md", "a.md");
    n.created_at = Some(1_700_000_000_000);
    st.upsert_node(&n, 1_700_000_000_000);
    let e = st.evolution().unwrap();
    assert_eq!(e.monthly_nodes, vec![("2023-11".to_string(), 1)]);
}

// ---- Experience

#[test]
fn test_rule_extract() {
    let (p, s) = ExperienceBrain::rule_extract("fix: 修复缓存穿透问题", "通过布隆过滤器避免击穿");
    assert!(p.contains("修复缓存穿透问题"), "problem={}", p);
    assert!(s.contains("布隆过滤器"), "solution={}", s);
}

#[test]
fn test_keywords_score() {
    let kws = ExperienceBrain::keywords("缓存穿透");
    assert_eq!(kws, vec!["缓存穿透".to_string()]);
    assert_eq!(ExperienceBrain::score(&kws, "缓存穿透问题解决"), WHOLE);
}

fn sample_event(id: &str) -> ExperienceEvent {
    ExperienceEvent {
        id: id.to_string(),
        source: EventSource::GitCommit,
        title: "fix: 修复缓存穿透".to_string(),
        body: "使用布隆过滤器避免缓存击穿".to_string(),
        file_path: Some("src/cache.rs".to_string()),
        created_at: 1_700_000_000_000,
    }
}

#[test]
fn test_record_extracted_writes_ps_graph() {
    let mut st = store();
    let event = sample_event("evt-1");
    ExperienceBrain::new(&mut st).record_extracted(
        &event,
        "缓存穿透导致数据库压力",
        "布隆过滤器拦截无效请求",
        1,
    );
    assert!(st.get_property("exp:evt-1").is_some());
    let pid = "experience:problem:".to_string() + &ExperienceBrain::hash("缓存穿透导致数据库压力");
    let sid = "experience:solution:".to_string() + &ExperienceBrain::hash("布隆过滤器拦截无效请求");
    assert!(st.get_node(&pid).is_some());
    assert!(st.get_node(&sid).is_some());
    assert!(st.get_node("experience:event:evt-1").is_some());
    assert!(st.graph_version() > 0);
}

#[test]
fn test_record_extracted_empty_ps_stores_event_only() {
    let mut st = store();
    let event = sample_event("evt-2");
    ExperienceBrain::new(&mut st).record_extracted(&event, "", "", 1);
    assert!(st.get_property("exp:evt-2").is_some());
    assert!(st.get_node("experience:event:evt-2").is_none());
}

#[test]
fn recorded_events_are_remembered() {
    let mut st = store();
    let event = sample_event("evt-3");
    let mut brain = ExperienceBrain::new(&mut st);
    brain.record(&event, 1);
    assert_eq!(brain.all_events(), vec![event.clone()]);
    let hits = brain.search_similar("缓存穿透", 5);
    assert_eq!(hits.len(), 1);
    assert_eq!(hits[0].event, event);
    assert_eq!(hits[0].score, WHOLE);
    assert!(brain.search_similar("完全无关的话题", 5).is_empty());
    for s in [EventSource::GitCommit, EventSource::AiOperation, EventSource::ChatMessage] {
        assert_eq!(EventSource::from_str(s.as_str()), s);
    }
}

// ---- The graph as a whole

#[test]
fn a_graph_is_completed_in_order() {
    let mut s = store();
    s.upsert_node(&doc_node("doc:docs/a.md", "docs/a.md"), 1);
    let docs = vec![SourceDoc {
        rel_path: "docs/a.md".to_string(),
        content: "# 缓存穿透\n\n布隆过滤器可以解决缓存穿透问题。\n".to_string(),
        chunks: vec![piece("布隆过滤器可以解决缓存穿透问题。", &["缓存穿透"], "text")],
    }];
    let texts = vec![("docs/a.md".to_string(), "见 [Redis](https://redis.io/docs)".to_string())];
    let n = s.complete(&docs, &texts, 7);
    assert_eq!(n, s.clusters.len());
    assert!(n > 0);
    assert_eq!(s.cluster_mode(), "directory");
    assert!(s.nodes.iter().any(|x| x.node_type == NodeType::Chunk));
    assert!(s.nodes.iter().any(|x| x.node_type == NodeType::Entity));
}

#[test]
fn topics_are_looked_for_once() {
    let mut s = three_docs();
    assert!(!s.wants_topics(false));
    assert!(s.wants_topics(true));
    let ids: Vec<String> =
        s.nodes.iter().filter(|n| n.node_type == NodeType::Doc).map(|n| n.id.clone()).collect();
    let mut topics = TopicGroups::new();
    assert_eq!(topics.place(ids[0].clone(), &vec![], 60), None);
    assert_eq!(topics.place(ids[1].clone(), &vec![80], 60), Some(0));
    assert_eq!(s.recluster_embedding(&topics, 9), 1);
    assert_eq!(s.cluster_mode(), "embedding");
    assert_eq!(s.clusters.len(), 1);
    s.topics_done();
    assert!(!s.wants_topics(true));
    assert_eq!(s.recluster(10), s.clusters.len());
    assert_eq!(s.cluster_mode(), "directory");
}

#[test]
fn what_is_noted_is_read_again() {
    let mut s = store();
    s.topics_done();
    assert_eq!(s.get_property("graph_auto_semantic_done").as_deref(), Some("1"));
    s.recluster(1);
    assert_eq!(s.get_property("graph_cluster_mode").as_deref(), Some("directory"));
    assert_eq!(s.get_property("graph_auto_semantic_done").as_deref(), Some("1"));
}

#[test]
fn a_changed_file_is_read_again() {
    let mut s = three_docs();
    let dir = "kb".to_string();
    let rel = "notes/a.md".to_string();
    s.enqueue_file(&dir, &rel, 0, 100);
    assert_eq!(s.queue_stats("kb"), (1, 0, 0, 0));
    let batch = s.next_ai_batch(&dir, 5, 101);
    assert_eq!(batch.len(), 1);
    assert_eq!(batch[0].rel_path, rel);
    s.finish_ai_item(batch[0].id, true, 3, 102);
    assert!(s.next_ai_batch(&dir, 5, 103).is_empty());
    s.enqueue_file(&dir, &rel, 104, 105);
    assert_eq!(s.next_ai_batch(&dir, 5, 106).len(), 1);
}

#[test]
fn an_extractor_names_the_hosts_of_a_text() {
    let mut s = store();
    let text = "[Redis](https://redis.io/docs)";
    let found = EntityExtractor::new(&mut s).rule_candidates("a.md", text);
    assert_eq!(found, rule_entities("a.md", text));
    assert_eq!(found.len(), 1);
    assert!(s.nodes.is_empty());
}

// ---- Once and again

#[test]
fn a_file_is_up_to_date_at_once() {
    let mut s = store();
    let text = Some("见 [b](b.md) 与 [[c]]");
    GraphBuilder::new(&mut s).build_all(
        &strings(&["docs"]),
        &strings(&["docs/a.md", "docs/b.md", "docs/c.md"]),
        &vec![None, None, None],
        1,
    );
    GraphBuilder::new(&mut s).build_file("docs/a.md", text, 2);
    let (nodes, edges) = (s.nodes.clone(), s.edges.clone());
    assert!(edges.iter().any(|e| e.relation == Relation::References));
    GraphBuilder::new(&mut s).build_file("docs/a.md", text, 2);
    assert_eq!(s.nodes, nodes);
    assert_eq!(s.edges, edges);
}

#[test]
fn parts_are_built_at_once() {
    let mut s = store();
    s.upsert_node(&doc_node("doc:app/main.ts", "app/main.ts"), 1);
    s.upsert_node(&doc_node("doc:src/util.py", "src/util.py"), 1);
    let code = "import { f } from '../src/util';\nf();\n";
    let chunks = vec![piece(code, &[], "code"), piece("f();", &["main"], "code")];
    let paths = strings(&["app/main.ts", "src/util.py"]);
    let rel = "app/main.ts".to_string();
    ChunkGraphBuilder::new(&mut s).build_doc(&rel, code, &chunks, Some(&paths), 3);
    let (nodes, edges) = (s.nodes.clone(), s.edges.clone());
    assert!(nodes.iter().any(|n| n.node_type == NodeType::Chunk));
    assert!(edges.iter().any(|e| e.relation == Relation::Imports));
    ChunkGraphBuilder::new(&mut s).build_doc(&rel, code, &chunks, Some(&paths), 3);
    assert_eq!(s.nodes, nodes);
    assert_eq!(s.edges, edges);
}

#[test]
fn an_event_is_kept_once() {
    let mut s = store();
    let e = sample_event("evt-9");
    ExperienceBrain::new(&mut s).record(&e, 1);
    let n = s.properties.len();
    ExperienceBrain::new(&mut s).record(&e, 2);
    assert_eq!(s.properties.len(), n);
    assert_eq!(ExperienceBrain::new(&mut s).all_events().len(), 1);
}

#[test]
fn a_canonical_name_is_its_own() {
    for name in ["The Spring-Boot (Framework)", "  C++ / Rust ", "Redis 缓存", "a_b:c"] {
        let once = canonicalize(name);
        assert_eq!(canonicalize(&once), once);
    }
    assert_eq!(canonicalize("The Spring-Boot (Framework)"), "spring boot framework");
    assert_eq!(canonicalize("a_b:c"), "b c");
}

#[test]
fn only_blank_names_are_no_names() {
    assert_eq!(canonicalize(" \t "), "");
    assert_eq!(canonicalize("The"), "the");
    assert_eq!(canonicalize("the of"), "theof");
    assert_eq!(canonicalize("--"), "--");
}

#[test]
fn words_are_put_together() {
    assert_eq!(join_words("redis 缓存 cluster"), "redis cluster");
    assert_eq!(join_words("缓存 系统"), "缓存系统");
}

#[test]
fn clusters_count_every_node_once() {
    let mut st = three_docs();
    let total = st.nodes.len() as u32;
    let mut engine = ClusterEngine::new(&mut st);
    let n = engine.rebuild(2);
    let clusters = engine.list(100);
    assert_eq!(clusters.len(), n);
    assert_eq!(clusters.iter().map(|c| c.node_count).sum::<u32>(), total);
}

#[test]
fn names_of_other_scripts_are_no_blanks() {
    for name in ["缓存", "Ωμέγα", "Ünïted - Straße", "数据 Base"] {
        let once = canonicalize(name);
        assert!(!once.is_empty());
        assert_eq!(canonicalize(&once), once);
    }
    assert_eq!(canonicalize("\u{3000}\u{a0}"), "");
}
