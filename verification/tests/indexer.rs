use mdgo::indexer::batch::{
    batch_change, batch_chunk_limit_for, chat_candidates, chat_chunks, chat_results,
    html_render_patterns, is_oversize, is_worth_indexing, needs_sync, new_embed_pct, new_read_pct,
    new_write_pct, plan_batches, removal, result_of, should_download, slices, status_of, unindexed,
    update_metadata, IndexMeta, IndexRun,
};
use mdgo::indexer::paths::{
    classify_ext, collect_remove_targets, extension_of, is_data_dir, is_outline_doc,
    is_supported_file, norm_path, path_is_within, relative_to,
};
use mdgo::indexer::rank::{
    cluster_hits, compute_alpha, compute_context_window, context_range, dedup_opml_hierarchy,
    dedup_with_paths, docs_of_hits, drop_noise, ext_filter_sql, fill_context, filter_hits_by_ext,
    final_hits, is_path_prefix, plan_search, weigh, RetrievalIntent, SearchHit,
};
use mdgo::indexer::search::{candidates, recall, widen};

fn strings(list: &[&str]) -> Vec<String> {
    list.iter().map(|s| s.to_string()).collect()
}

fn hit(doc: &str, index: u32, score: i64) -> SearchHit {
    SearchHit {
        doc_name: doc.to_string(),
        text: format!("text {index}"),
        chunk_index: index,
        score,
        score_vec: 0,
        score_bm25: 0,
        symbol_name: None,
        path_json: None,
        sentence_window: None,
    }
}

fn at(doc: &str, path: &str, score: i64) -> SearchHit {
    let mut h = hit(doc, 0, score);
    h.path_json = Some(path.to_string());
    h
}

// ---- Paths

#[test]
fn paths_are_compared_in_a_normal_form() {
    assert_eq!(norm_path("C:\\Kb\\Docs\\", true), "c:/kb/docs");
    assert_eq!(norm_path("\\\\?\\C:\\Kb", false), "C:/Kb");
    assert!(path_is_within("/kb", "/kb/a.md", false));
    assert!(path_is_within("/kb/", "/kb", false));
    assert!(!path_is_within("/kb", "/kb2/a.md", false));
    assert_eq!(relative_to("/kb", "/kb/docs/a.md", false), Some("docs/a.md".to_string()));
    assert_eq!(relative_to("/kb", "/kb2/a.md", false), None);
    assert_eq!(
        collect_remove_targets("/kb", "/kb/docs", &strings(&["/kb/docs/a.md", "/kb/docs/b.md"]), false),
        Ok(strings(&["docs/a.md", "docs/b.md"]))
    );
    assert!(collect_remove_targets("/kb", "/other", &Vec::new(), false).is_err());
}

#[test]
fn files_are_of_kinds() {
    let code = strings(&["rs", "py"]);
    assert_eq!(classify_ext("md", &code), "Markdown");
    assert_eq!(classify_ext("rs", &code), "代码");
    assert_eq!(classify_ext("csv", &code), "数据");
    assert_eq!(classify_ext("pdf", &code), "其他");
    assert_eq!(extension_of("a/b.tar.gz"), "gz");
    assert!(is_outline_doc("Notes.OPML"));
    assert!(is_outline_doc("a.mm"));
    assert!(!is_outline_doc("a.md"));
    assert!(is_data_dir(".mdgo", ".trash"));
    assert!(is_data_dir(".trash", ".trash"));
    assert!(!is_data_dir("docs", ".trash"));
    assert!(is_supported_file("A.MD", &strings(&["md"])));
    assert!(!is_supported_file(".md", &strings(&["md"])));
    assert!(!is_supported_file("md", &strings(&["md"])));
}

// ---- Ranking

#[test]
fn extensions_filter() {
    let hits = vec![hit("A.RS", 0, 1), hit("b.md", 0, 2)];
    assert_eq!(filter_hits_by_ext(&hits, &Vec::new()).len(), 2);
    let only = filter_hits_by_ext(&hits, &strings(&["Rs"]));
    assert_eq!(only.len(), 1);
    assert_eq!(only[0].doc_name, "A.RS");
    assert_eq!(
        ext_filter_sql(&strings(&["rs", "PY"])),
        "(LOWER(doc_name) LIKE '%.rs' OR LOWER(doc_name) LIKE '%.py')"
    );
}

#[test]
fn the_weight_of_vectors_follows_the_question() {
    assert_eq!(compute_alpha("fn main", 700, RetrievalIntent::Code), 300);
    assert_eq!(compute_alpha("how to build a cache layer", 700, RetrievalIntent::General), 800);
    assert_eq!(compute_alpha("how to build", 700, RetrievalIntent::Document), 800);
    assert_eq!(compute_alpha("如何解决缓存穿透的问题以及相关方案", 700, RetrievalIntent::General), 800);
    assert_eq!(compute_alpha("缓存", 700, RetrievalIntent::Outline), 550);
    assert_eq!(weigh(0, 0, 0, RetrievalIntent::Code), 200);
    assert_eq!(weigh(9, 0, 1000, RetrievalIntent::Document), 950);
}

#[test]
fn noise_is_dropped() {
    let mut words = hit("a", 0, 1);
    words.score_bm25 = 1;
    let mut symbol = hit("b", 0, 1);
    symbol.symbol_name = Some("f".to_string());
    let mut near = hit("c", 0, 1);
    near.score_vec = 50;
    let far = hit("d", 0, 1);
    let all = vec![words, symbol, near, far];
    assert_eq!(drop_noise(&all, 50, false).len(), 3);
    assert_eq!(drop_noise(&all, 51, false).len(), 2);
    assert_eq!(drop_noise(&all, 51, true).len(), 4);
}

#[test]
fn paths_in_outlines_are_prefixes() {
    assert!(is_path_prefix("[\"A\"]", "[\"A\",\"B\"]"));
    assert!(!is_path_prefix("[\"A\",\"B\"]", "[\"A\",\"B\"]"));
    assert!(!is_path_prefix("[\"A,B\"]", "[\"A\",\"B\"]"));
    assert!(!is_path_prefix("no json", "[\"A\"]"));
}

#[test]
fn the_deepest_nodes_stay() {
    let r = dedup_opml_hierarchy(vec![
        at("n.opml", "[\"A\"]", 9),
        at("n.opml", "[\"A\",\"B\"]", 5),
        at("n.opml", "[\"A\",\"B\",\"C\"]", 7),
        at("doc.md", "[\"A\"]", 1),
        at("doc.md", "[\"A\",\"B\"]", 8),
    ]);
    let left: Vec<(&str, i64)> = r.iter().map(|h| (h.doc_name.as_str(), h.score)).collect();
    assert_eq!(left, vec![("doc.md", 8), ("n.opml", 7), ("doc.md", 1)]);
    let r = dedup_with_paths(
        vec![hit("x.mm", 0, 1), hit("x.mm", 1, 2)],
        &vec![Some(strings(&["A"])), Some(strings(&["A", "B"]))],
    );
    assert_eq!(r.len(), 1);
    assert_eq!(r[0].chunk_index, 1);
    let one = vec![at("n.opml", "[\"A\"]", 9)];
    assert_eq!(dedup_opml_hierarchy(one.clone()), one);
}

#[test]
fn no_document_takes_over() {
    let hits = vec![hit("a", 0, 9), hit("a", 1, 8), hit("b", 0, 7), hit("a", 2, 6), hit("c", 0, 5)];
    let r = cluster_hits(&hits, 2, 10);
    assert_eq!(r.len(), 4);
    assert_eq!(r.iter().filter(|h| h.doc_name == "a").count(), 2);
    assert_eq!(cluster_hits(&hits, 0, 10).len(), 3);
    assert_eq!(cluster_hits(&hits, 9, 2).len(), 2);
    let r = final_hits(hits.clone(), Some(vec![hit("z", 0, 1)]), 2, 5);
    assert_eq!(r, vec![hit("z", 0, 1)]);
    assert_eq!(final_hits(hits, None, 1, 5).len(), 3);
}

#[test]
fn the_text_around_a_hit_is_read() {
    assert_eq!(compute_context_window("one two"), 3);
    assert_eq!(compute_context_window("one two three four"), 2);
    assert_eq!(compute_context_window("a b c d e f g h i j k"), 1);
    let hits = vec![hit("a", 5, 1), hit("b", 1, 1), hit("a", 9, 1)];
    let a = "a".to_string();
    assert_eq!(context_range(&hits, &a, 3), Some((2, 12)));
    assert_eq!(context_range(&hits, &"b".to_string(), 3), Some((0, 4)));
    assert_eq!(context_range(&hits, &"c".to_string(), 3), None);
    assert_eq!(docs_of_hits(&hits), strings(&["a", "b"]));
    let chunks = vec![
        (4, "before the hit".to_string()),
        (5, "text 5".to_string()),
        (6, "behind the hit".to_string()),
        (20, "far away".to_string()),
    ];
    let r = fill_context(&hits, &a, &chunks, 1);
    assert_eq!(
        r[0].sentence_window.as_deref(),
        Some("before the hit\ntext 5\nbehind the hit")
    );
    assert_eq!(r[1], hits[1]);
    assert_eq!(r[2].sentence_window, None);
}

#[test]
fn a_search_is_planned() {
    let exts = strings(&["rs"]);
    let p = plan_search(
        "fn main",
        RetrievalIntent::Code,
        Some(&exts),
        &strings(&["a", "b", "c", "d"]),
        10,
        20,
        700,
        0,
    );
    assert_eq!(p.candidates, 20);
    assert_eq!(p.symbols, strings(&["a", "b", "c"]));
    assert_eq!(p.rrf_k, 1);
    assert_eq!(p.alpha, 300);
    assert_eq!(p.filter_sql.as_deref(), Some("(LOWER(doc_name) LIKE '%.rs')"));
    let p = plan_search("q", RetrievalIntent::General, None, &strings(&["a"]), 30, 5, 700, 60);
    assert_eq!(p.candidates, 30);
    assert!(p.symbols.is_empty());
    assert_eq!(p.filter_sql, None);
    assert_eq!(p.rrf_k, 60);
}

// ---- Batches

#[test]
fn batches_follow_the_memory() {
    let gib: u64 = 1024 * 1024 * 1024;
    assert_eq!(batch_chunk_limit_for(32 * gib), 256);
    assert_eq!(batch_chunk_limit_for(16 * gib), 256);
    assert_eq!(batch_chunk_limit_for(8 * gib), 128);
    assert_eq!(batch_chunk_limit_for(4 * gib), 64);
}

#[test]
fn every_group_is_in_one_batch() {
    let counts = vec![3, 4, 10, 1, 1, 6];
    let spans = plan_batches(&counts, 7);
    assert_eq!(spans, vec![(0, 2), (2, 3), (3, 5), (5, 6)]);
    assert!(is_oversize(&counts, spans[1], 7));
    assert!(!is_oversize(&counts, spans[0], 7));
    assert_eq!(slices(10, 4), vec![(0, 4), (4, 8), (8, 10)]);
    assert!(slices(0, 4).is_empty());
    assert!(plan_batches(&Vec::new(), 7).is_empty());
}

#[test]
fn counts_follow_the_changes() {
    assert_eq!(batch_change(&vec![(5, 0), (3, 4)]), (1, 4));
    assert_eq!(removal(0, 0), None);
    assert_eq!(removal(3, 5), Some((-1, -5)));
    let m = update_metadata(None, 1, 4, 4, 99);
    assert_eq!((m.file_count, m.chunk_count, m.vector_count, m.indexed_at), (1, 4, 4, 99));
    let m = update_metadata(Some(m), -1, -9, -4, 100);
    assert_eq!((m.file_count, m.chunk_count, m.vector_count), (0, 0, 0));
    let s = status_of(&Some(m), true);
    assert_eq!(s.status, "indexed");
    assert_eq!(s.indexed_at, 100);
    assert_eq!(status_of(&None, true).status, "unknown");
    let some = IndexMeta {
        file_count: 2,
        chunk_count: 3,
        vector_count: 3,
        indexed_at: 7,
        type_distribution: Vec::new(),
    };
    let s = status_of(&Some(some), false);
    assert_eq!((s.file_count, s.vector_count, s.status.as_str()), (2, 0, "unknown"));
}

#[test]
fn a_run_counts_what_it_reads() {
    let code = strings(&["rs"]);
    let mut run = IndexRun::start(4, 10).unwrap();
    assert!(!run.take_file("a.md", Some(100), 4, &code));
    assert_eq!(run.read_pct(), 27);
    assert_eq!(run.read_message(), "读取文件 1/4 (已缓存 4 个文本块)");
    assert!(!run.take_file("b.rs", Some(5), 4, &code));
    assert!(run.take_file("c.rs", Some(50), 6, &code));
    assert_eq!(run.embed_base(), 5);
    assert_eq!(run.embed_span(), 45);
    assert_eq!(run.embed_pct(1, 2), 27);
    assert_eq!(run.done_message(" - 向量化中"), "已完成 2/4 文件 (10 文本块) - 向量化中");
    run.written(10);
    assert!(!run.take_file("d.md", None, 3, &code));
    let m = run.finish(77).unwrap();
    assert_eq!((m.file_count, m.chunk_count, m.vector_count), (2, 10, 10));
    let kinds: Vec<(&str, u32, u32)> = m
        .type_distribution
        .iter()
        .map(|t| (t.file_type.as_str(), t.count, t.percentage))
        .collect();
    assert_eq!(kinds, vec![("Markdown", 1, 500), ("代码", 1, 500)]);
}

#[test]
fn the_last_file_sends_what_waits() {
    let code = strings(&["rs"]);
    let mut run = IndexRun::start(2, 100).unwrap();
    assert!(!run.take_file("a.md", Some(100), 4, &code));
    assert!(run.take_file("b.md", None, 0, &code));
    assert_eq!(run.pending, 4);
}

#[test]
fn a_run_can_fail() {
    assert_eq!(IndexRun::start(0, 1).unwrap_err(), "目录中没有可索引的文件");
    let run = IndexRun::start(3, 1).unwrap();
    assert_eq!(run.finish(1).unwrap_err(), "未能从文件中提取有效内容");
}

#[test]
fn progress_never_goes_back() {
    let mut run = IndexRun::start(3, 1).unwrap();
    assert_eq!(run.show(0), None);
    assert_eq!(run.show(5), Some(5));
    assert_eq!(run.show(3), None);
    assert_eq!(run.show(250), Some(100));
    assert_eq!(run.show(100), None);
}

#[test]
fn what_is_new_is_found() {
    let files = vec![
        ("a.md".to_string(), "/kb/a.md".to_string()),
        ("b.md".to_string(), "/kb/b.md".to_string()),
    ];
    assert_eq!(unindexed(&files, &strings(&["a.md"])), vec![files[1].clone()]);
    assert_eq!(new_read_pct(0, 2), 17);
    assert_eq!(new_read_pct(1, 2), 19);
    assert_eq!(new_embed_pct(1, 2), 50);
    assert_eq!(new_embed_pct(5, 0), 80);
    assert_eq!(new_write_pct(0, 64, 128), 88);
    assert_eq!(new_write_pct(0, 256, 1), 95);
    assert!(is_worth_indexing("0123456789"));
    assert!(is_worth_indexing("四个汉字"));
    assert!(!is_worth_indexing("short"));
}

// ---- Conversations and the rest

#[test]
fn messages_are_indexed_one_by_one() {
    let ms = vec![("user".to_string(), "你好".to_string()), ("assistant".to_string(), "好".to_string())];
    let c = chat_chunks("s1", &ms, 3);
    assert_eq!(c.len(), 2);
    assert_eq!(c[1].id, "chat:s1:4");
    assert_eq!(c[1].doc_name, "s1");
    assert_eq!(c[1].chunk_index, 4);
    assert_eq!(c[0].text, "[user] 你好");
    assert_eq!(chat_candidates("  ", 3), None);
    assert_eq!(chat_candidates("q", 3), Some(10));
    assert_eq!(chat_candidates("q", 8), Some(16));
    let r = chat_results(&vec![hit("s1", 0, 5), hit("s2", 1, 4)], 1);
    assert_eq!(r, vec![("s1".to_string(), 5, "text 0".to_string())]);
}

#[test]
fn files_are_kept_up_with() {
    assert!(!needs_sync(0, u128::MAX));
    assert!(!needs_sync(1000, 2_000_000_000));
    assert!(needs_sync(1000, 2_000_000_001));
    assert_eq!(
        html_render_patterns("{\"htmlCodeShowBlacklist\":[\"docs/**\",1,\"site\"]}"),
        Some(strings(&["docs/**", "site"]))
    );
    assert_eq!(html_render_patterns("{\"htmlCodeShowBlacklist\":[]}"), None);
    assert_eq!(html_render_patterns("broken"), None);
    assert!(should_download(false, 0, 5));
    assert!(!should_download(true, 0, 5));
    assert!(!should_download(false, 100, 219));
    assert!(should_download(false, 100, 220));
}

// ---- A search

#[test]
fn failed_searches_find_nothing() {
    let exts = strings(&["rs"]);
    let r = recall(
        None,
        Some(vec![hit("a.rs", 0, 0), hit("b.md", 1, 0)]),
        vec![Some(vec![hit("c.rs", 2, 0)]), None, Some(vec![hit("d.md", 3, 0), hit("e.rs", 4, 0)])],
        Some(&exts),
    );
    assert!(r.vectors.is_empty());
    let names = |v: &Vec<SearchHit>| v.iter().map(|h| h.doc_name.clone()).collect::<Vec<_>>();
    assert_eq!(names(&r.words), strings(&["a.rs"]));
    assert_eq!(names(&r.symbols), strings(&["c.rs", "e.rs"]));
    let r = recall(Some(vec![hit("b.md", 1, 0)]), None, vec![Some(vec![hit("d.md", 3, 0)])], None);
    assert_eq!(names(&r.vectors), strings(&["b.md"]));
    assert!(r.words.is_empty());
    assert_eq!(names(&r.symbols), strings(&["d.md"]));
}

#[test]
fn hits_are_ranked_again_where_the_model_is_there() {
    let mut weak = hit("a.md", 0, 0);
    weak.score_vec = 1;
    weak.score_bm25 = 0;
    weak.symbol_name = None;
    let joined = vec![weak];
    let c = candidates(&joined, 5, true, true);
    assert!(c.rank && !c.get_model);
    assert_eq!(c.hits.len(), 1);
    let c = candidates(&joined, 5, true, false);
    assert!(!c.rank && c.get_model);
    assert!(c.hits.is_empty());
    let c = candidates(&joined, 5, false, true);
    assert!(!c.rank && !c.get_model);
    assert!(c.hits.is_empty());
}

#[test]
fn widening_keeps_the_hits() {
    let hits = vec![hit("a.md", 1, 0), hit("b.md", 7, 0)];
    let long = "一段很长的上下文，比命中的文本要长得多。".to_string();
    let found = vec![
        ("b.md".to_string(), None),
        ("a.md".to_string(), Some(vec![(0, long.clone()), (1, "x".to_string())])),
    ];
    let r = widen(hits.clone(), &found, 1);
    assert_eq!(r.len(), 2);
    assert_eq!(r[0].sentence_window, Some(format!("{long}\nx")));
    assert_eq!(r[0].doc_name, hits[0].doc_name);
    assert_eq!(r[1], hits[1]);
}

#[test]
fn the_result_tells_the_counts() {
    let meta = update_metadata(None, 2, 7, 7, 11);
    let r = result_of(&meta);
    assert_eq!((r.file_count, r.chunk_count, r.vector_count, r.indexed_at), (2, 7, 7, 11));
}
