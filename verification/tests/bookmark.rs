use mdgo::bookmark::enrichment::{build_embedding_text, BookmarkSummaryOut, SummaryReply};
use mdgo::bookmark::fetch::{add_chunk, check_target, Answer, FetchStep, Fetching, MAX_BODY_BYTES};
use mdgo::bookmark::page::{
    extract_readable_markdown, extract_text_simple, lines_of_elements, page_text, says_something,
};
use mdgo::bookmark::search::{replace_predicate, vector_limit, wants_vectors};
use mdgo::bookmark::store::{
    escape_like, Bookmark, BookmarkEntry, BookmarkStore, STATUS_FAILED, STATUS_PENDING,
    STATUS_READY,
};
use mdgo::bookmark::tree::BookmarkTreeNode;
use mdgo::bookmark::url::{is_private_host, normalize_url, private_addr, HostAddr};

fn open_temp() -> BookmarkStore {
    BookmarkStore::new("kb".to_string())
}

fn entry(url: &str, title: &str, folder: &str) -> BookmarkEntry {
    BookmarkEntry {
        url: url.to_string(),
        title: Some(title.to_string()),
        folder: Some(folder.to_string()),
        added_at: Some(1_700_000_000_000),
    }
}

fn ids(prefix: &str, n: usize) -> Vec<String> {
    (0..n).map(|i| format!("{prefix}{i}")).collect()
}

fn bookmark(id: &str, status: &str) -> Bookmark {
    Bookmark {
        id: id.into(),
        url: format!("https://{id}.com"),
        canonical_url: Some(format!("https://{id}.com")),
        title: Some("示例".into()),
        browser_folder: Some("AI".into()),
        added_at: Some(1),
        source_file: None,
        category: None,
        summary: None,
        tags: None,
        raw_content: Some("正文内容……".into()),
        embedding_text: None,
        status: status.into(),
        dead: false,
        last_error: None,
        revision: 1,
        created_at: 1,
        updated_at: 1,
    }
}

// ---- Addresses

#[test]
fn normalize_url_rejects_bad_protocols() {
    assert!(normalize_url("javascript:alert(1)").is_err());
    assert!(normalize_url("data:text/html,<b>x</b>").is_err());
    assert!(normalize_url("file:///etc/passwd").is_err());
    assert_eq!(normalize_url("https://a.com/").unwrap(), "https://a.com");
    assert_eq!(normalize_url("http://b.com///").unwrap(), "http://b.com");
}

#[test]
fn normalize_url_host_lowercase_and_default_port_and_fragment() {
    assert_eq!(normalize_url("https://A.COM/path").unwrap(), "https://a.com/path");
    assert_eq!(normalize_url("https://a.com:443/x").unwrap(), "https://a.com/x");
    assert_eq!(normalize_url("http://a.com:80/x").unwrap(), "http://a.com/x");
    assert_eq!(normalize_url("http://a.com:8080/x").unwrap(), "http://a.com:8080/x");
    assert_eq!(normalize_url("https://a.com/x#sec").unwrap(), "https://a.com/x");
    assert_eq!(normalize_url("https://a.com/x/?q=1#t").unwrap(), "https://a.com/x/?q=1");
}

#[test]
fn fragments_and_slashes_do_not_matter() {
    assert_eq!(
        normalize_url("https://a.com/x#one").unwrap(),
        normalize_url("https://a.com/x#two").unwrap()
    );
    assert_eq!(
        normalize_url("https://a.com/x/").unwrap(),
        normalize_url("https://a.com/x").unwrap()
    );
}

#[test]
fn private_hosts_are_known() {
    assert!(is_private_host("localhost", &HostAddr::Name));
    assert!(is_private_host("127.0.0.1", &HostAddr::V4(127, 0, 0, 1)));
    assert!(is_private_host("10.1.2.3", &HostAddr::V4(10, 1, 2, 3)));
    assert!(is_private_host("192.168.0.9", &HostAddr::V4(192, 168, 0, 9)));
    assert!(is_private_host("[::1]", &HostAddr::V6(0, 0, 0, 0, 0, 0, 0, 1)));
    assert!(!is_private_host("example.com", &HostAddr::Name));
    assert!(!private_addr(&HostAddr::V4(8, 8, 8, 8)));
}

// ---- The store

#[test]
fn store_init_and_insert() {
    let mut store = open_temp();
    let mut b = bookmark("bm_1", STATUS_PENDING);
    b.url = "https://example.com".into();
    b.canonical_url = Some("https://example.com".into());
    b.title = Some("Example".into());
    b.browser_folder = Some("AI/Agent".into());
    b.source_file = Some("bookmarks.html".into());
    b.raw_content = None;
    store.insert(&b).unwrap();
    let got = store.get("bm_1").expect("存在");
    assert_eq!(got.title.as_deref(), Some("Example"));
    assert_eq!(got.status, STATUS_PENDING);
    assert!(store.insert(&b).is_err());
}

#[test]
fn rows_change_as_they_are_told() {
    let mut store = open_temp();
    store.insert(&bookmark("a", STATUS_PENDING)).unwrap();
    store.update_raw_content("a", "neu", 5);
    store.update_embedding_text("a", "embed", 6);
    let b = store.get("a").unwrap();
    assert_eq!(b.raw_content.as_deref(), Some("neu"));
    assert_eq!(b.embedding_text.as_deref(), Some("embed"));
    assert_eq!(b.updated_at, 6);
    store.mark_ready("a", 7);
    assert_eq!(store.get("a").unwrap().status, STATUS_READY);
    assert!(store.claim_pending(10).is_empty());
    store.mark_failed("a", "boom", false, 8);
    let s = store.stats();
    assert_eq!((s.total, s.ready, s.pending, s.failed, s.dead), (1, 0, 0, 1, 0));
    assert_eq!(store.list(Some("AI"), None, Some(STATUS_FAILED), 10).len(), 1);
    assert_eq!(store.list(Some("B"), None, None, 10).len(), 0);
    assert_eq!(store.all().len(), 1);
    assert_eq!(escape_like("50%_\\"), "50\\%\\_\\\\");
    let id = BookmarkStore::new_id(1_700_000_000_000, 123_456_789);
    assert!(id.starts_with("bm_"), "{id}");
    assert_eq!(store.dir_path(), "kb");
}

#[test]
fn claim_pending_only_claims_pending() {
    let mut store = open_temp();
    store.insert(&bookmark("bm_p1", STATUS_PENDING)).unwrap();
    store.insert(&bookmark("bm_r1", "ready")).unwrap();
    store.insert(&bookmark("bm_f1", "failed")).unwrap();
    let jobs = store.claim_pending(10);
    assert_eq!(jobs.len(), 1);
    assert_eq!(jobs[0].id, "bm_p1");
}

// ---- Taking in

#[test]
fn import_inserts_and_skips_existing_by_url() {
    let mut store = open_temp();
    let entries = vec![
        entry("https://a.com/", "Alpha", "AI"),
        entry("https://b.com", "Beta", "AI/Agent"),
    ];
    let s1 = store
        .import_entries(&entries, Some("bookmarks.html"), &ids("x", 2), 1)
        .unwrap();
    assert_eq!(s1.inserted, 2);
    assert_eq!(s1.total, 2);
    assert_eq!(store.stats().total, 2);

    let dup = vec![
        entry("https://a.com", "Alpha v2", "AI"),
        entry("https://b.com", "Beta v2", "AI/Agent"),
        entry("https://c.com", "Gamma", "编程"),
    ];
    let s2 = store
        .import_entries(&dup, Some("bookmarks.html"), &ids("y", 3), 2)
        .unwrap();
    assert_eq!(s2.inserted, 1);
    assert_eq!(s2.skipped, 2);
    assert_eq!(store.stats().total, 3);
    let a = store.get_by_canonical_url("https://a.com").unwrap();
    assert_eq!(a.title.as_deref(), Some("Alpha"));
}

#[test]
fn import_rejects_bad_protocol_and_counts_failed() {
    let mut store = open_temp();
    let entries = vec![
        entry("https://ok.com", "OK", "AI"),
        BookmarkEntry {
            url: "javascript:alert(1)".into(),
            title: None,
            folder: None,
            added_at: None,
        },
    ];
    let s = store.import_entries(&entries, None, &ids("x", 2), 1).unwrap();
    assert_eq!(s.inserted, 1);
    assert_eq!(s.failed, 1);
    assert_eq!(s.inserted + s.skipped + s.failed, s.total);
}

#[test]
fn import_truncates_over_50000_entries() {
    let mut store = open_temp();
    let entries: Vec<BookmarkEntry> = (0..50_001)
        .map(|i| entry(&format!("https://site{}.com", i), "T", "F"))
        .collect();
    let s = store.import_entries(&entries, None, &ids("x", 50_001), 1).unwrap();
    assert_eq!(s.total, 50_000);
    assert_eq!(store.stats().total, 50_000);
}

#[test]
fn taking_in_again_adds_nothing() {
    let mut store = open_temp();
    let entries = vec![entry("https://a.com", "A", "F"), entry("https://a.com/#x", "B", "F")];
    let s = store.import_entries(&entries, None, &ids("x", 2), 1).unwrap();
    assert_eq!((s.inserted, s.skipped), (1, 1));
    let s = store.import_entries(&entries, None, &ids("y", 2), 2).unwrap();
    assert_eq!((s.inserted, s.skipped), (0, 2));
    assert!(store.all_canonical_urls().contains("https://a.com"));
}

// ---- Searching

#[test]
fn search_finds_by_title_summary_tags_and_filters() {
    let mut store = open_temp();
    store
        .import_entries(
            &vec![
                entry("https://a.com", "LangChain 框架", "AI/Agent"),
                entry("https://b.com", "Rust 教程", "编程"),
            ],
            None,
            &ids("x", 2),
            1,
        )
        .unwrap();
    let hits = store.search("LangChain", 10, None, None);
    assert_eq!(hits.len(), 1);
    assert_eq!(hits[0].url, "https://a.com");
    assert_eq!(hits[0].status, "pending");
    let id = hits[0].id.clone();
    store.update_summary(
        &id,
        Some("大模型应用框架".into()),
        Some("AI/LLM".into()),
        Some("[\"Agent\",\"RAG\"]".into()),
        2,
    );
    assert_eq!(store.search("RAG", 10, None, None).len(), 1);
    assert_eq!(store.search("框架", 10, None, Some("AI")).len(), 1);
    assert_eq!(store.search("框架", 10, None, Some("编程")).len(), 0);
    assert_eq!(store.search("LangChain", 10, Some("AI/LLM"), None).len(), 1);
    assert_eq!(store.search("LangChain", 10, Some("编程"), None).len(), 0);
}

#[test]
fn search_excludes_dead_flag_but_keeps_failed_rows() {
    let mut store = open_temp();
    store
        .import_entries(&vec![entry("https://a.com", "Alpha", "AI")], None, &ids("x", 1), 1)
        .unwrap();
    let id = store.get_by_canonical_url("https://a.com").unwrap().id;
    store.mark_failed(&id, "404", true, 2);
    let hits = store.search("Alpha", 10, None, None);
    assert_eq!(hits.len(), 1);
    assert!(hits[0].dead);
    assert_eq!(hits[0].status, "failed");
}

#[test]
fn words_come_before_vectors() {
    let mut store = open_temp();
    store.insert(&bookmark("a", STATUS_READY)).unwrap();
    store.insert(&bookmark("b", STATUS_READY)).unwrap();
    store.update_summary("a", Some("alpha".into()), None, None, 2);
    let words = store.search("alpha", 10, None, None);
    assert_eq!(words.len(), 1);
    let all = store.fill_with_vectors(
        words,
        &vec!["b".to_string(), "a".to_string(), "gone".to_string()],
        10,
    );
    let order: Vec<&str> = all.iter().map(|h| h.id.as_str()).collect();
    assert_eq!(order, vec!["a", "b"]);
    assert!(vector_limit(10) >= 10);
    assert_eq!(replace_predicate(&vec![]), None);
    assert_eq!(
        replace_predicate(&vec!["a".to_string(), "o'b".to_string()]).unwrap(),
        "bookmark_id IN ('a','o''b')"
    );
}

// ---- The tree

fn collect_urls(node: &BookmarkTreeNode, out: &mut Vec<String>) {
    for c in &node.children {
        if let Some(u) = &c.url {
            out.push(u.clone());
        }
        if !c.children.is_empty() {
            collect_urls(c, out);
        }
    }
}

fn walk(n: &BookmarkTreeNode, dead: &mut usize, st: &mut usize) {
    if n.url.is_some() {
        if n.dead {
            *dead += 1;
        }
        if n.status.is_some() {
            *st += 1;
        }
    }
    for c in &n.children {
        walk(c, dead, st);
    }
}

#[test]
fn tree_builds_hierarchy_and_carries_status_dead() {
    let mut store = open_temp();
    store
        .import_entries(
            &vec![
                entry("https://a.com", "Alpha", "AI/Agent"),
                entry("https://b.com", "Beta", "AI/Tools"),
                entry("https://c.com", "Gamma", "编程/Rust"),
            ],
            None,
            &ids("x", 3),
            1,
        )
        .unwrap();
    let bid = store.get_by_canonical_url("https://b.com").unwrap().id;
    store.mark_failed(&bid, "404", true, 2);

    let t = store.tree();
    assert_eq!(t.title.as_deref(), Some("书签栏"));
    assert_eq!(t.children.len(), 2);
    let ai = t
        .children
        .iter()
        .find(|c| c.title.as_deref() == Some("AI"))
        .expect("AI 目录");
    assert_eq!(ai.children.len(), 2);
    let mut urls = Vec::new();
    collect_urls(&t, &mut urls);
    assert!(urls.contains(&"https://a.com".to_string()));
    assert!(urls.contains(&"https://c.com".to_string()));
    assert_eq!(urls.len(), 3);

    let mut dead_count = 0;
    let mut status_count = 0;
    walk(&t, &mut dead_count, &mut status_count);
    assert_eq!(dead_count, 1);
    assert_eq!(status_count, 3);
}

// ---- Enrichment

#[test]
fn embedding_text_puts_tags_first_and_truncates_summary() {
    let long_summary = "长".repeat(5000);
    let t = build_embedding_text(
        "标题",
        &long_summary,
        Some("[\"Agent\",\"RAG\"]"),
        Some("AI/LLM"),
    );
    assert!(t.starts_with("Tags:"), "{}", t);
    assert!(t.contains("Category: AI/LLM"));
    assert!(t.contains("Title: 标题"));
    assert!(t.contains("Summary: "));
    assert!(t.chars().count() < 400, "{}", t.chars().count());
    let t2 = build_embedding_text("标题", "摘要", None, None);
    assert!(!t2.contains("Tags:") && !t2.contains("Category:"));
}

#[test]
fn summary_llm_failure_marks_failed_terminal() {
    let mut store = open_temp();
    store.insert(&bookmark("bm_f", STATUS_PENDING)).unwrap();
    let list: Vec<(Bookmark, SummaryReply)> = store
        .claim_pending(10)
        .into_iter()
        .map(|b| (b, SummaryReply::Failed("LLM 调用失败: timeout".to_string())))
        .collect();
    let summarized = store.summarize_batch(&list, 2);
    assert!(summarized.is_empty());
    let b = store.get("bm_f").unwrap();
    assert_eq!(b.status, "failed");
    assert!(!b.dead);
    assert!(b.summary.is_none());
    assert!(b.embedding_text.is_none());
}

#[test]
fn summary_llm_success_writes_fields_and_keeps_pending() {
    let mut store = open_temp();
    store.insert(&bookmark("bm_o", STATUS_PENDING)).unwrap();
    let list: Vec<(Bookmark, SummaryReply)> = store
        .claim_pending(10)
        .into_iter()
        .map(|b| {
            (
                b,
                SummaryReply::Made(BookmarkSummaryOut {
                    summary: "这是一段摘要".to_string(),
                    category: Some("AI".to_string()),
                    tags: vec!["Agent".to_string(), "RAG".to_string()],
                }),
            )
        })
        .collect();
    let summarized = store.summarize_batch(&list, 2);
    assert_eq!(summarized.len(), 1);
    let b = store.get("bm_o").unwrap();
    assert_eq!(b.summary.as_deref(), Some("这是一段摘要"));
    assert_eq!(b.category.as_deref(), Some("AI"));
    assert_eq!(b.status, STATUS_PENDING);
    let tags: String = b.tags.unwrap_or_default();
    assert!(tags.contains("Agent") && tags.contains("RAG"));
    let texts = store.embedding_texts(&list, 3);
    assert_eq!(texts.len(), 1);
    assert_eq!(texts[0].0, "bm_o");
    assert_eq!(store.get("bm_o").unwrap().embedding_text, Some(texts[0].1.clone()));
    store.finish_batch(&texts, 4);
    assert_eq!(store.get("bm_o").unwrap().status, STATUS_READY);
}

#[test]
fn what_cannot_be_fetched_is_dead_or_failed() {
    let mut store = open_temp();
    store.insert(&bookmark("a", STATUS_PENDING)).unwrap();
    store.insert(&bookmark("b", STATUS_PENDING)).unwrap();
    assert!(store.take_fetched("a", &Err("HTTP 404 Not Found".to_string()), 2).is_none());
    assert_eq!(store.get("a").unwrap().status, STATUS_FAILED);
    let got = store.take_fetched("b", &Ok("正文".to_string()), 3).unwrap();
    assert_eq!(got.id, "b");
    assert_eq!(store.get("b").unwrap().raw_content.as_deref(), Some("正文"));
}

// ---- Pages

const PAGE: &str = "<html><head><title>T</title><script>evil()</script></head><body><article><h1>Headline</h1><p>The first paragraph says a good deal about the subject, at some length, so that it counts.</p><p>The second paragraph goes on about the subject, with commas, and more words, and an end.</p></article></body></html>";

#[test]
fn a_page_becomes_text() {
    let simple = extract_text_simple(PAGE);
    assert!(simple.contains("Headline"));
    assert!(simple.contains("The first paragraph"));
    assert!(!simple.contains("evil"));
    assert!(!simple.contains("<p>"));
    let md = extract_readable_markdown(PAGE, "https://a.com/x");
    assert!(md.contains("The first paragraph"), "{md}");
    assert!(!md.contains("<p>"), "{md}");
    let t = page_text(&PAGE.as_bytes().to_vec(), "https://a.com/x");
    assert!(t.contains("The second paragraph"), "{t}");
    assert!(says_something(&"word ".repeat(100)));
    assert!(!says_something("  "));
    assert_eq!(
        lines_of_elements(&vec![vec![" a ".into(), "b".into()], vec!["  ".into()], vec!["c".into()]]),
        lines_of_elements(&vec![vec![" a ".into(), "b".into()], vec!["c".into()]])
    );
}

// ---- Fetching

fn answer(status: u16, location: Option<&str>, length: Option<u64>) -> Answer {
    Answer {
        status,
        status_text: format!("{status} X"),
        location: location.map(|s| s.to_string()),
        content_length: length,
    }
}

#[test]
fn redirects_are_few() {
    let mut f = Fetching::start("https://a.com/x/y".to_string()).unwrap();
    assert_eq!(f.host(), Some("a.com".to_string()));
    assert!(f.check(&HostAddr::Name).is_ok());
    let mut hops = 0;
    loop {
        match f.after(&answer(302, Some("../z"), None)) {
            FetchStep::Follow(next) => {
                hops += 1;
                assert!(next.url.starts_with("https://a.com/"), "{}", next.url);
                f = next;
            }
            FetchStep::Fail(_) => break,
            FetchStep::Read => panic!("a redirect is not read"),
        }
    }
    assert_eq!(hops, 3);
}

#[test]
fn only_the_public_web_is_asked() {
    let f = Fetching::start("http://127.0.0.1/".to_string()).unwrap();
    assert!(f.check(&HostAddr::V4(127, 0, 0, 1)).is_err());
    assert!(Fetching::start("ftp://a.com/".to_string()).is_err());
    assert!(check_target(None, "https", &HostAddr::Name).is_err());
    assert!(Fetching::start("no address".to_string()).is_err());
}

#[test]
fn answers_are_told_apart() {
    let f = Fetching::start("https://a.com/x".to_string()).unwrap();
    assert!(matches!(f.after(&answer(200, None, Some(10))), FetchStep::Read));
    assert!(matches!(f.after(&answer(404, None, None)), FetchStep::Fail(_)));
    assert!(matches!(f.after(&answer(200, None, Some(u64::MAX))), FetchStep::Fail(_)));
    assert!(matches!(f.after(&answer(302, None, None)), FetchStep::Fail(_)));
    match f.after(&answer(301, Some("https://b.org/n"), None)) {
        FetchStep::Follow(next) => {
            assert_eq!(next.url, "https://b.org/n");
            assert_eq!(next.redirects, 1);
        }
        _ => panic!("not followed"),
    }
    let mut body = vec![0u8; MAX_BODY_BYTES - 1];
    assert!(add_chunk(&mut body, &vec![1]).is_ok());
    assert!(add_chunk(&mut body, &vec![1]).is_err());
}

#[test]
fn normalizing_twice_is_normalizing_once() {
    for raw in [
        "  HTTPS://Example.COM:443/A/B/?q=1#top ",
        "http://a.com:8080///",
        "http://a.com:80",
        "https://[::1]:443/x",
        "https://a.com/x/?",
    ] {
        let once = normalize_url(raw).unwrap();
        assert_eq!(normalize_url(&once).unwrap(), once);
        assert!(once.starts_with("http://") || once.starts_with("https://"));
        assert!(!once.contains('#'));
        assert!(!once.ends_with('/'));
    }
    assert_eq!(
        normalize_url("  HTTPS://Example.COM:443/A/B/?q=1#top ").unwrap(),
        "https://example.com/A/B/?q=1"
    );
    assert_eq!(normalize_url("https://[::1]:443/x").unwrap(), "https://[::1]:443/x");
    // Blanks inside make another address of what comes out.
    let odd = normalize_url("https://a.com/x #y").unwrap();
    assert_eq!(odd, "https://a.com/x ");
    assert_eq!(normalize_url(&odd).unwrap(), "https://a.com/x");
}

#[test]
fn vectors_are_asked_where_words_find_too_little() {
    assert!(wants_vectors(&Vec::new(), 1));
    assert!(!wants_vectors(&Vec::new(), 0));
}

#[test]
fn hosts_of_other_scripts_are_normalized_once() {
    let once = normalize_url("HTTPS://Bücher.Example:443/Ä/#x").unwrap();
    assert_eq!(once, "https://bücher.example/Ä");
    assert_eq!(normalize_url(&once).unwrap(), once);
    assert_eq!(normalize_url("HTTPS://Bücher.Example:443/Ä/#y").unwrap(), once);
    let greek = normalize_url("http://ΟΔΟΣ.gr").unwrap();
    assert_eq!(normalize_url(&greek).unwrap(), greek);
}
