use mdgo::graph::ids::{edge_id, node_id_for};
use mdgo::graph::lists::is_like;
use mdgo::graph::model::{
    GraphAiCandidate, GraphCluster, GraphEdge, GraphNode, NodeType, QueueStatus, Relation, WHOLE,
};
use mdgo::graph::store::{GraphStore, GRAPH_SCHEMA_VERSION};

fn store() -> GraphStore {
    GraphStore::new("kb".to_string())
}

fn node(id: &str, kind: NodeType, name: &str, path: Option<&str>) -> GraphNode {
    GraphNode {
        id: id.to_string(),
        node_type: kind,
        name: name.to_string(),
        path: path.map(|p| p.to_string()),
        meta: None,
        degree: None,
        created_at: None,
        content: None,
    }
}

fn doc(path: &str) -> GraphNode {
    node(&format!("doc:{path}"), NodeType::Doc, path, Some(path))
}

fn edge(s: &str, t: &str, relation: Relation) -> GraphEdge {
    GraphEdge {
        source: s.to_string(),
        target: t.to_string(),
        relation,
        weight: Some(WHOLE),
        confidence: Some(WHOLE),
    }
}

fn link(st: &mut GraphStore, s: &str, t: &str) {
    st.upsert_edge(&edge(s, t, Relation::References), None, 1);
}

#[test]
fn test_node_type_roundtrip() {
    assert_eq!(NodeType::from_str("doc"), NodeType::Doc);
    assert_eq!(NodeType::from_str("entity"), NodeType::Entity);
    assert_eq!(Relation::from_str("CONTAINS"), Relation::Contains);
    assert_eq!(Relation::from_str("SOLVED_BY"), Relation::SolvedBy);
}

#[test]
fn every_kind_and_relation_is_read_back() {
    for k in [
        NodeType::Doc,
        NodeType::Folder,
        NodeType::Chunk,
        NodeType::Section,
        NodeType::Entity,
        NodeType::Experience,
        NodeType::Memory,
        NodeType::Cluster,
    ] {
        assert_eq!(NodeType::from_str(k.as_str()), k);
    }
    for r in [
        Relation::Contains,
        Relation::References,
        Relation::Imports,
        Relation::DerivedFrom,
        Relation::SameTopic,
        Relation::SolvedBy,
        Relation::ImplementedIn,
        Relation::ValidatedBy,
        Relation::Prefers,
        Relation::Avoids,
        Relation::ReplacedBy,
        Relation::Deprecated,
        Relation::Uses,
        Relation::BelongsTo,
        Relation::SimilarTo,
        Relation::DependsOn,
    ] {
        assert_eq!(Relation::from_str(r.as_str()), r);
    }
}

#[test]
fn ids_follow_their_conventions() {
    assert_eq!(node_id_for(NodeType::Doc, "docs\\a.md"), "doc:docs/a.md");
    assert_eq!(edge_id("a", "b", Relation::Uses), "a|b|USES");
}

#[test]
fn test_init_schema_reads_version_from_text_column() {
    let st = store();
    let status = st.status();
    assert_eq!(status.schema_version, GRAPH_SCHEMA_VERSION);
    assert_eq!(status.node_count, 0);
    assert_eq!(status.edge_count, 0);
}

#[test]
fn test_stats_on_empty_graph_returns_null_last_built() {
    let stats = store().stats();
    assert!(stats.by_type.is_empty());
    assert!(stats.top_degree.is_empty());
    assert_eq!(stats.last_built_at, None);
}

#[test]
fn test_full_lifecycle_node_edge_neighborhood() {
    let mut st = store();
    st.upsert_node(&doc("a.md"), 1);
    st.upsert_node(&doc("b.md"), 1);
    st.upsert_edge(
        &edge("doc:a.md", "doc:b.md", Relation::References),
        Some("doc:a.md".to_string()),
        1,
    );
    let nb = st.neighborhood("doc:a.md", 1, 50, 100, None, 0);
    assert_eq!(nb.nodes.len(), 2);
    assert_eq!(nb.edges.len(), 1);
    assert_eq!(st.degree("doc:a.md"), 1);
    assert_eq!(st.delete_edges_by_source("doc:a.md"), 1);
    assert_eq!(st.degree("doc:b.md"), 0);
    st.delete_node("doc:a.md");
    assert!(st.get_node("doc:a.md").is_none());
}

#[test]
fn test_stats_with_data_reports_counts() {
    let mut st = store();
    st.upsert_node(&doc("x.md"), 1);
    st.upsert_edge(
        &edge("doc:x.md", "doc:y.md", Relation::References),
        Some("doc:x.md".to_string()),
        1,
    );
    let stats = st.stats();
    assert_eq!(stats.by_type, vec![(NodeType::Doc, 1)]);
    assert_eq!(stats.top_degree.len(), 1);
    assert!(stats.last_built_at.is_some());
}

#[test]
fn test_graph_version_bumps_on_mutation() {
    let mut st = store();
    assert_eq!(st.graph_version(), 0);
    st.upsert_node(&doc("v.md"), 1);
    assert_eq!(st.graph_version(), 1);
    st.upsert_edge(
        &edge("doc:v.md", "doc:w.md", Relation::References),
        Some("doc:v.md".to_string()),
        1,
    );
    assert_eq!(st.graph_version(), 2);
    assert_eq!(st.status().graph_version, 2);
}

#[test]
fn test_find_path_bfs() {
    let mut st = store();
    for p in ["a.md", "b.md", "c.md", "d.md"] {
        st.upsert_node(&doc(p), 1);
    }
    for (s, t) in [
        ("doc:a.md", "doc:b.md"),
        ("doc:b.md", "doc:c.md"),
        ("doc:a.md", "doc:d.md"),
        ("doc:d.md", "doc:c.md"),
    ] {
        link(&mut st, s, t);
    }
    let path = st.find_path("doc:a.md", "doc:c.md", 6, 500);
    assert!(path.found);
    assert_eq!(path.path_ids, vec!["doc:a.md", "doc:b.md", "doc:c.md"]);
    assert_eq!(path.nodes.len(), 3);
    assert_eq!(path.edges.len(), 2);
}

#[test]
fn a_path_that_is_too_long_is_not_found() {
    let mut st = store();
    for p in ["a.md", "b.md", "c.md"] {
        st.upsert_node(&doc(p), 1);
    }
    link(&mut st, "doc:a.md", "doc:b.md");
    link(&mut st, "doc:b.md", "doc:c.md");
    assert!(!st.find_path("doc:a.md", "doc:c.md", 1, 500).found);
    assert!(st.find_path("doc:a.md", "doc:c.md", 2, 500).found);
    let same = st.find_path("doc:a.md", "doc:a.md", 1, 500);
    assert!(same.found);
    assert_eq!(same.path_ids, vec!["doc:a.md"]);
}

#[test]
fn test_common_neighbors() {
    let mut st = store();
    for p in ["a.md", "b.md", "common.md"] {
        st.upsert_node(&doc(p), 1);
    }
    link(&mut st, "doc:a.md", "doc:common.md");
    link(&mut st, "doc:b.md", "doc:common.md");
    let nb = st.common_neighbors("doc:a.md", "doc:b.md");
    assert_eq!(nb.nodes.len(), 3);
    assert!(nb.nodes.iter().any(|n| n.id == "doc:common.md"));
    assert_eq!(nb.edges.len(), 2);
}

#[test]
fn writing_a_node_twice_is_writing_it_once() {
    let mut st = store();
    st.upsert_node(&doc("a.md"), 5);
    let once = st.get_node("doc:a.md").unwrap();
    st.upsert_node(&doc("a.md"), 5);
    assert_eq!(st.get_node("doc:a.md").unwrap(), once);
    assert_eq!(st.nodes.len(), 1);
    assert_eq!(once.path, Some("a.md".to_string()));
}

#[test]
fn an_edge_is_there_once() {
    let mut st = store();
    st.upsert_node(&doc("a.md"), 1);
    st.upsert_node(&doc("b.md"), 1);
    link(&mut st, "doc:a.md", "doc:b.md");
    link(&mut st, "doc:a.md", "doc:b.md");
    assert_eq!(st.edges.len(), 1);
    st.upsert_edge(&edge("doc:a.md", "doc:b.md", Relation::Uses), None, 1);
    assert_eq!(st.all_edges_between("doc:a.md", "doc:b.md").len(), 2);
}

#[test]
fn removing_leaves_nothing_dangling() {
    let mut st = store();
    for p in ["docs/a.md", "docs/sub/b.md", "docs2/c.md"] {
        st.upsert_node(&doc(p), 1);
    }
    link(&mut st, "doc:docs/a.md", "doc:docs2/c.md");
    link(&mut st, "doc:docs2/c.md", "doc:docs/sub/b.md");
    assert_eq!(st.delete_by_path("docs"), 2);
    assert_eq!(st.edges.len(), 0);
    assert!(st.path_exists("docs2/c.md"));
    assert!(!st.path_exists("docs/a.md"));
    assert_eq!(st.list_doc_paths(), vec!["docs2/c.md".to_string()]);
}

#[test]
fn merging_moves_every_edge() {
    let mut st = store();
    for (id, name) in [("entity:a", "a"), ("entity:b", "b")] {
        st.upsert_node(&node(id, NodeType::Entity, name, None), 1);
    }
    st.upsert_node(&doc("x.md"), 1);
    st.upsert_node(&doc("y.md"), 1);
    link(&mut st, "doc:x.md", "entity:a");
    link(&mut st, "entity:a", "doc:y.md");
    st.merge_node_edges(&"entity:a".to_string(), &"entity:b".to_string(), 2);
    assert_eq!(st.degree("entity:a"), 0);
    assert_eq!(st.degree("entity:b"), 2);
}

#[test]
fn search_finds_what_fits() {
    let mut st = store();
    st.upsert_node(&doc("docs/Redis.md"), 1);
    st.upsert_node(&doc("docs/kafka.md"), 1);
    let found = st.search_nodes("redis", 10);
    assert_eq!(found.len(), 1);
    assert_eq!(found[0].path, Some("docs/Redis.md".to_string()));
    assert!(is_like("%a_c%", "xxabcxx"));
    assert!(!is_like("a_c", "ac"));
}

#[test]
fn properties_are_kept() {
    let mut st = store();
    st.set_property("exp:1".into(), "a".into());
    st.set_property("exp:1".into(), "b".into());
    st.set_property("other".into(), "c".into());
    assert_eq!(st.get_property("exp:1"), Some("b".to_string()));
    assert_eq!(st.get_property("missing"), None);
    assert_eq!(st.list_properties_with_prefix("exp:"), vec!["exp:1".to_string()]);
    assert_eq!(st.dir_path(), "kb");
}

// ---- The queue

fn kb() -> String {
    "kb1".to_string()
}

fn docs(list: &[(&str, u32)]) -> Vec<(String, u32)> {
    list.iter().map(|(p, i)| (p.to_string(), *i)).collect()
}

#[test]
fn test_ai_queue_lifecycle() {
    let mut st = store();
    st.enqueue_ai_docs(
        &kb(),
        &docs(&[("a.md", 900_000), ("b.md", 600_000), ("c.md", 300_000)]),
        false,
        1,
    );
    let batch = st.next_ai_batch(&kb(), 2, 2);
    assert_eq!(batch.len(), 2);
    assert_eq!(batch[0].rel_path, "a.md");
    assert_eq!(batch[1].rel_path, "b.md");
    assert!(batch.iter().all(|i| i.status == QueueStatus::Processing));
    st.finish_ai_item(batch[0].id, true, 3, 3);
    let (pending, processing, done, failed) = st.queue_stats("kb1");
    assert_eq!(pending, 1);
    assert_eq!(processing, 1);
    assert_eq!(done, 1);
    assert_eq!(failed, 0);
    assert_eq!(st.get_metric("worker_processed"), 1);
    let batch2 = st.next_ai_batch(&kb(), 10, 4);
    assert_eq!(batch2.len(), 1);
    assert_eq!(batch2[0].rel_path, "c.md");
}

#[test]
fn test_ai_queue_idempotent_enqueue_and_reset_done() {
    let mut st = store();
    st.enqueue_ai_docs(&kb(), &docs(&[("a.md", 500_000)]), false, 1);
    let batch = st.next_ai_batch(&kb(), 1, 2);
    st.finish_ai_item(batch[0].id, true, 3, 3);
    st.enqueue_ai_docs(&kb(), &docs(&[("a.md", 800_000)]), false, 4);
    let (pending, _, done, _) = st.queue_stats("kb1");
    assert_eq!(pending, 0);
    assert_eq!(done, 1);
    st.enqueue_ai_docs(&kb(), &docs(&[("a.md", 800_000)]), true, 5);
    let (pending, _, done2, _) = st.queue_stats("kb1");
    assert_eq!(pending, 1);
    assert_eq!(done2, 0);
    let b2 = st.next_ai_batch(&kb(), 1, 6);
    assert_eq!(b2[0].rel_path, "a.md");
}

#[test]
fn test_ai_queue_bounded_retry_to_failed() {
    let mut st = store();
    st.enqueue_ai_docs(&kb(), &docs(&[("a.md", 500_000)]), false, 1);
    for round in 1..=3 {
        let batch = st.next_ai_batch(&kb(), 1, round);
        assert_eq!(batch.len(), 1, "{}", round);
        st.finish_ai_item(batch[0].id, false, 3, round);
    }
    let (pending, _, _, failed) = st.queue_stats("kb1");
    assert_eq!(pending, 0);
    assert_eq!(failed, 1);
    assert_eq!(st.get_metric("worker_failed"), 1);
    assert!(st.next_ai_batch(&kb(), 10, 9).is_empty());
}

#[test]
fn test_ai_queue_stale_processing_reset() {
    let mut st = store();
    st.enqueue_ai_docs(&kb(), &docs(&[("a.md", 500_000)]), false, 0);
    let now: i64 = 1_000_000;
    st.queue[0].status = QueueStatus::Processing;
    st.queue[0].updated_at = now - 200_000;
    let batch = st.next_ai_batch(&kb(), 10, now);
    assert_eq!(batch.len(), 1);
    assert_eq!(batch[0].rel_path, "a.md");
    assert_eq!(batch[0].status, QueueStatus::Processing);
}

#[test]
fn nothing_is_handed_out_twice() {
    let mut st = store();
    st.enqueue_ai_docs(&kb(), &docs(&[("a.md", 1), ("b.md", 2)]), false, 1);
    let first = st.next_ai_batch(&kb(), 10, 2);
    assert_eq!(first.len(), 2);
    assert_eq!(first[0].rel_path, "b.md");
    assert!(st.next_ai_batch(&kb(), 10, 3).is_empty());
    assert_eq!(st.get_ai_items(&vec![first[0].id]).len(), 1);
    st.requeue_ai_item(first[0].id, 7, 4);
    let again = st.next_ai_batch(&kb(), 10, 5);
    assert_eq!(again.len(), 1);
    assert_eq!(again[0].rel_path, "b.md");
}

// ---- Candidates and favourites

fn candidate(id: &str, at: i64) -> GraphAiCandidate {
    GraphAiCandidate {
        id: id.to_string(),
        source: "entity:a".to_string(),
        target: "entity:b".to_string(),
        relation: Relation::Uses,
        confidence: 700_000,
        status: "candidate".to_string(),
        source_doc: Some("a.md".to_string()),
        evidence: None,
        created_at: at,
    }
}

#[test]
fn rejecting_takes_back_what_confirming_added() {
    let mut st = store();
    st.upsert_node(&node("entity:a", NodeType::Entity, "a", None), 1);
    st.upsert_node(&node("entity:b", NodeType::Entity, "b", None), 1);
    st.upsert_candidate(&candidate("c1", 1));
    assert_eq!(st.candidate_counts(), (1, 0));
    let c = st.update_candidate_status("c1", "confirmed".into(), 2).unwrap();
    assert_eq!(c.status, "confirmed");
    assert_eq!(st.edges.len(), 1);
    assert_eq!(st.candidate_counts(), (0, 1));
    st.update_candidate_status("c1", "rejected".into(), 3);
    assert_eq!(st.edges.len(), 0);
    assert!(st.update_candidate_status("none", "rejected".into(), 3).is_none());
    assert_eq!(st.list_candidates(Some("rejected"), 10).len(), 1);
    assert_eq!(st.list_candidates(None, 10).len(), 1);
}

#[test]
fn favourites_come_and_go() {
    let mut st = store();
    st.upsert_node(&doc("a.md"), 1);
    st.favorite(&"doc:a.md".to_string(), true, 2);
    assert!(st.is_favorite("doc:a.md"));
    assert_eq!(st.list_favorites(10).len(), 1);
    assert_eq!(st.metrics().favorites, 1);
    st.favorite(&"doc:a.md".to_string(), false, 3);
    assert!(!st.is_favorite("doc:a.md"));
    assert_eq!(st.favorite_count(), 0);
}

#[test]
fn what_is_most_connected_comes_first() {
    let mut st = store();
    for p in ["a.md", "b.md", "c.md"] {
        st.upsert_node(&doc(p), 1);
    }
    link(&mut st, "doc:a.md", "doc:b.md");
    link(&mut st, "doc:c.md", "doc:b.md");
    let top = st.stats().top_degree;
    assert_eq!(top[0], ("doc:b.md".to_string(), 2));
    assert_eq!(st.doc_degrees().len(), 3);
    assert_eq!(st.priority_doc_paths(1), vec!["b.md".to_string()]);
    assert_eq!(st.counted_node(&"doc:b.md".to_string()).unwrap().degree, Some(2));
    let around = st.subgraph("doc:a.md", 2, 10, 10);
    assert_eq!(around.nodes.len(), 3);
    let small = st.expand("doc:b.md", 2, None, 0, 10);
    assert_eq!(small.nodes.len(), 2);
    assert!(small.truncated);
    assert_eq!(st.neighbors_of("doc:b.md").len(), 2);
}

// ---- Many at once

#[test]
fn many_rows_are_written_as_one_after_the_other() {
    let mut a = store();
    let mut b = store();
    let nodes = vec![doc("a.md"), doc("b.md"), doc("a.md")];
    let edges = vec![
        edge("doc:a.md", "doc:b.md", Relation::References),
        edge("doc:a.md", "doc:b.md", Relation::References),
        edge("doc:b.md", "doc:a.md", Relation::References),
    ];
    a.upsert_nodes(&nodes, 1);
    a.upsert_edges(&edges, Some("doc:a.md".to_string()), 2);
    for n in &nodes {
        b.upsert_node(n, 1);
    }
    for e in &edges {
        b.upsert_edge(e, Some("doc:a.md".to_string()), 2);
    }
    assert_eq!(a.nodes, b.nodes);
    assert_eq!(a.nodes.len(), 2);
    assert_eq!(a.edges.len(), 2);
    assert_eq!(a.edges.len(), b.edges.len());
}

fn proposal(id: &str, confidence: u32) -> GraphAiCandidate {
    GraphAiCandidate {
        id: id.to_string(),
        source: "a".to_string(),
        target: "b".to_string(),
        relation: Relation::Uses,
        confidence,
        status: "candidate".to_string(),
        source_doc: None,
        evidence: None,
        created_at: 1,
    }
}

#[test]
fn a_proposal_is_kept_once() {
    let mut s = store();
    s.upsert_candidates(&vec![proposal("x", 1), proposal("y", 2), proposal("x", 3)]);
    assert_eq!(s.list_candidates(None, 10).len(), 2);
}

fn cluster(id: &str) -> GraphCluster {
    GraphCluster {
        id: id.to_string(),
        name: id.to_string(),
        description: None,
        algorithm: "directory".to_string(),
        centroid: None,
        node_count: 1,
        edge_count: 0,
        confidence: WHOLE,
        created_at: 1,
        updated_at: 1,
        links: vec![],
        top_files: vec![],
    }
}

#[test]
fn clusters_are_replaced_as_a_whole() {
    let mut s = store();
    assert!(s.replace_clusters(&vec![cluster("cluster:a"), cluster("cluster:b")]).is_ok());
    assert_eq!(s.list_clusters(10).len(), 2);
    assert!(s.replace_clusters(&vec![cluster("cluster:c")]).is_ok());
    assert_eq!(s.list_clusters(10).len(), 1);
    assert!(s.get_cluster("cluster:a").is_none());
    assert!(s.replace_clusters(&vec![cluster("cluster:d"), cluster("cluster:d")]).is_err());
}

#[test]
fn rejecting_twice_is_rejecting_once() {
    let mut s = store();
    s.upsert_candidate(&proposal("x", WHOLE));
    s.update_candidate_status("x", "confirmed".into(), 1);
    assert_eq!(s.edges.len(), 1);
    s.update_candidate_status("x", "rejected".into(), 2);
    assert!(s.edges.is_empty());
    s.update_candidate_status("x", "rejected".into(), 3);
    assert!(s.edges.is_empty());
}

#[test]
fn a_proposal_overrides_nothing() {
    let mut s = store();
    let mut known = edge("a", "b", Relation::Uses);
    known.weight = Some(600_000);
    s.upsert_edge(&known, Some("doc:a.md".to_string()), 1);
    s.upsert_candidate(&proposal("x", 500_000));
    assert_eq!(s.edges[0].weight, 600_000);
    s.update_candidate_status("x", "confirmed".into(), 2);
    assert_eq!(s.edges.len(), 1);
    assert_eq!(s.edges[0].weight, WHOLE);
    assert_eq!(s.edges[0].source_id.as_deref(), Some("doc:a.md"));
    assert_eq!(s.edges[0].created_at, 1);
}

#[test]
fn a_merge_raises_the_version_for_each_edge() {
    let mut st = store();
    st.upsert_node(&node("entity:a", NodeType::Entity, "a", None), 1);
    st.upsert_node(&node("entity:b", NodeType::Entity, "b", None), 1);
    link(&mut st, "doc:x", "entity:a");
    let before = st.graph_version();
    st.merge_node_edges(&"entity:a".to_string(), &"entity:b".to_string(), 2);
    assert_eq!(st.graph_version(), before + 2);
    st.merge_node_edges(&"entity:b".to_string(), &"entity:b".to_string(), 3);
    assert_eq!(st.graph_version(), before + 2);
}

#[test]
fn versions_are_properties() {
    let mut st = store();
    assert_eq!(st.get_property("graph_schema_version").as_deref(), Some("4"));
    assert_eq!(st.get_property("graph_version"), None);
    assert_eq!(st.list_properties_with_prefix("graph_"), vec!["graph_schema_version"]);
    st.upsert_node(&doc("a.md"), 1);
    assert_eq!(st.get_property("graph_version").as_deref(), Some("1"));
    assert_eq!(
        st.list_properties_with_prefix("graph_"),
        vec!["graph_schema_version", "graph_version"]
    );
    st.set_property("graph_version".to_string(), "+41".to_string());
    assert_eq!(st.get_property("graph_version").as_deref(), Some("+41"));
    assert_eq!(st.graph_version(), 41);
    st.upsert_node(&doc("b.md"), 1);
    assert_eq!(st.get_property("graph_version").as_deref(), Some("42"));
    st.set_property("graph_version".to_string(), "new".to_string());
    assert_eq!(st.graph_version(), 0);
}

#[test]
fn a_walk_takes_outgoing_edges_first() {
    let mut st = store();
    for p in ["m.md", "in.md", "out.md", "heavy.md"] {
        st.upsert_node(&doc(p), 1);
    }
    let weighted = |s: &str, t: &str, w: u32| GraphEdge {
        weight: Some(w),
        ..edge(s, t, Relation::References)
    };
    st.upsert_edge(&weighted("doc:in.md", "doc:m.md", WHOLE), None, 1);
    st.upsert_edge(&weighted("doc:m.md", "doc:out.md", 400_000), None, 1);
    st.upsert_edge(&weighted("doc:m.md", "doc:heavy.md", 500_000), None, 1);
    let all = st.neighborhood("doc:m.md", 1, 10, 10, None, 0);
    let ids: Vec<&str> = all.nodes.iter().map(|n| n.id.as_str()).collect();
    assert_eq!(ids, vec!["doc:m.md", "doc:heavy.md", "doc:out.md", "doc:in.md"]);
    let ends: Vec<&str> = all.edges.iter().map(|e| e.target.as_str()).collect();
    assert_eq!(ends, vec!["doc:heavy.md", "doc:out.md", "doc:m.md"]);
    assert!(!all.truncated);
    let few = st.neighborhood("doc:m.md", 1, 3, 10, None, 0);
    let ids: Vec<&str> = few.nodes.iter().map(|n| n.id.as_str()).collect();
    assert_eq!(ids, vec!["doc:m.md", "doc:heavy.md", "doc:out.md"]);
    assert_eq!(few.edges.len(), 2);
    assert!(few.truncated);
}

#[test]
fn of_two_short_paths_the_first_met_is_found() {
    let mut st = store();
    for p in ["a.md", "x.md", "y.md", "z.md"] {
        st.upsert_node(&doc(p), 1);
    }
    let weighted = |s: &str, t: &str, w: u32| GraphEdge {
        weight: Some(w),
        ..edge(s, t, Relation::References)
    };
    st.upsert_edge(&weighted("doc:a.md", "doc:x.md", 400_000), None, 1);
    st.upsert_edge(&weighted("doc:a.md", "doc:y.md", 500_000), None, 1);
    st.upsert_edge(&weighted("doc:x.md", "doc:z.md", WHOLE), None, 1);
    st.upsert_edge(&weighted("doc:y.md", "doc:z.md", WHOLE), None, 1);
    let p = st.find_path("doc:a.md", "doc:z.md", 6, 500);
    assert!(p.found);
    assert_eq!(p.path_ids, vec!["doc:a.md", "doc:y.md", "doc:z.md"]);
    assert_eq!(p.edges.len(), 2);
    let back = st.find_path("doc:z.md", "doc:a.md", 6, 500);
    assert_eq!(back.path_ids, vec!["doc:z.md", "doc:x.md", "doc:a.md"]);
}
