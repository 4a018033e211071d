//! What becomes of a bookmark while its page is fetched, summed up and embedded.

use crate::bookmark::enrichment;
use crate::bookmark::enrichment::SummaryReply;
use crate::bookmark::fetch;
use crate::bookmark::fetch::{Answer, FetchStepV};
use crate::bookmark::search;
use crate::bookmark::store;
use crate::bookmark::store::{Bookmark, BookmarkV};
use crate::bookmark::url;
use crate::bookmark::url::HostAddr;
use crate::graph::store::opt_view;
use crate::rows;
use crate::text;
use vstd::prelude::*;

verus! {

/// Whether the rest of a bookmark is what it was.
pub open spec fn is_same_page(a: BookmarkV, b: BookmarkV) -> bool {
    &&& b.id == a.id && b.url == a.url && b.canonical_url == a.canonical_url
    &&& b.title == a.title && b.browser_folder == a.browser_folder && b.added_at == a.added_at
    &&& b.source_file == a.source_file && b.revision == a.revision && b.created_at == a.created_at
    &&& b.embedding_text == a.embedding_text
}

/// Whether a bookmark has failed, for the reason given.
pub open spec fn has_failed(a: BookmarkV, b: BookmarkV, error: Seq<char>, dead: bool) -> bool {
    &&& b.status == "failed"@ && b.dead == dead && b.last_error == Some(error)
    &&& b.raw_content == a.raw_content && b.summary == a.summary && b.category == a.category
    &&& b.tags == a.tags
}

proof fn lemma_changed(bs: Seq<BookmarkV>, id: Seq<char>, f: spec_fn(BookmarkV) -> BookmarkV, i: int)
    requires
        rows::unique(bs, store::v_id()),
        0 <= i < bs.len(),
    ensures
        store::changed(bs, id, f).len() == bs.len(),
        bs[i].id == id ==> store::changed(bs, id, f)[i] == f(bs[i]),
        bs[i].id != id ==> store::changed(bs, id, f)[i] == bs[i],
{
    rows::lemma_row_index(bs, store::v_id(), id, 0);
    if bs[i].id == id {
        rows::lemma_row_index_at(bs, store::v_id(), i);
    }
}

/// A bookmark whose page was fetched keeps what the page says, or the beginning of it where
/// it is long; one whose page could not be fetched has failed and counts as dead. Nothing
/// else of it changes, and no other bookmark.
pub proof fn law_a_page_is_kept_or_the_failure_told(
    bs: Seq<BookmarkV>,
    id: Seq<char>,
    page: Result<Seq<char>, Seq<char>>,
    now: i64,
    i: int,
)
    requires
        rows::unique(bs, store::v_id()),
        0 <= i < bs.len(),
    ensures
        ({
            let r = enrichment::after_fetch(bs, id, page, now);
            &&& r.len() == bs.len()
            &&& bs[i].id != id ==> r[i] == bs[i]
            &&& bs[i].id == id ==> is_same_page(bs[i], r[i]) && r[i].updated_at == now && (match page {
                Ok(m) => {
                    &&& m.len() <= 20_000 ==> r[i].raw_content == Some(m)
                    &&& m.len() > 20_000 ==> r[i].raw_content == Some(m.take(20_000))
                    &&& r[i].status == bs[i].status && r[i].dead == bs[i].dead
                    &&& r[i].summary == bs[i].summary && r[i].last_error == bs[i].last_error
                    &&& r[i].category == bs[i].category && r[i].tags == bs[i].tags
                },
                Err(e) => has_failed(bs[i], r[i], e, true),
            })
        }),
{
    let f = match page {
        Ok(m) => store::with_raw_content(
            enrichment::first_chars(m, enrichment::MAX_RAW_CONTENT_CHARS as nat),
            now,
        ),
        Err(e) => store::made_failed(e, true, now),
    };
    lemma_changed(bs, id, f, i);
}

/// A bookmark that was summed up has the summary, the category and the tags of the reply,
/// each where it says something. One that could not be summed up has failed, is not dead, and
/// keeps what it had. No other bookmark changes.
pub proof fn law_a_summary_is_kept_or_the_failure_told(
    bs: Seq<BookmarkV>,
    id: Seq<char>,
    reply: SummaryReply,
    now: i64,
    i: int,
)
    requires
        rows::unique(bs, store::v_id()),
        0 <= i < bs.len(),
    ensures
        ({
            let r = enrichment::after_summary(bs, id, reply, now);
            &&& r.len() == bs.len()
            &&& bs[i].id != id ==> r[i] == bs[i]
            &&& bs[i].id == id ==> is_same_page(bs[i], r[i]) && r[i].updated_at == now && (match reply {
                SummaryReply::Made(o) => {
                    &&& text::trim(o.summary@).len() > 0 ==> r[i].summary == Some(o.summary@)
                    &&& text::trim(o.summary@).len() == 0 ==> r[i].summary is None
                    &&& o.category matches Some(c) ==> (text::trim(c@).len() > 0 ==> r[i].category
                        == Some(c@))
                    &&& o.category is None ==> r[i].category is None
                    &&& r[i].tags is Some <==> o.tags@.len() > 0
                    &&& r[i].status == bs[i].status && r[i].dead == bs[i].dead
                    &&& r[i].raw_content == bs[i].raw_content && r[i].last_error == bs[i].last_error
                },
                SummaryReply::Nothing => exists|e: Seq<char>| has_failed(bs[i], r[i], e, false),
                SummaryReply::Failed(e) => has_failed(bs[i], r[i], "LLM 摘要失败："@ + e@, false),
            })
        }),
{
    let f = match reply {
        SummaryReply::Made(o) => store::with_summary(
            enrichment::not_blank(o.summary@),
            enrichment::not_blank_opt(opt_view(o.category)),
            enrichment::tags_text(text::texts(o.tags@)),
            now,
        ),
        SummaryReply::Nothing => store::made_failed("LLM 摘要空响应或输出不可解析"@, false, now),
        SummaryReply::Failed(e) => store::made_failed("LLM 摘要失败："@ + e@, false, now),
    };
    lemma_changed(bs, id, f, i);
    match reply {
        SummaryReply::Made(o) => {
            assert(text::texts(o.tags@).len() == o.tags@.len());
        },
        SummaryReply::Nothing => {
            let r = enrichment::after_summary(bs, id, reply, now);
            if bs[i].id == id {
                assert(has_failed(bs[i], r[i], "LLM 摘要空响应或输出不可解析"@, false));
            }
        },
        _ => {},
    }
}

/// The bookmarks of the list are ready, without an error, and the others stay as they were.
pub proof fn law_the_listed_are_ready(
    bs: Seq<BookmarkV>,
    ids: Seq<(Seq<char>, Seq<char>)>,
    n: int,
    now: i64,
    i: int,
)
    requires
        rows::unique(bs, store::v_id()),
        0 <= i < bs.len(),
        0 <= n <= ids.len(),
    ensures
        ({
            let r = enrichment::all_ready(bs, ids, n, now);
            &&& r.len() == bs.len() && r[i].id == bs[i].id
            &&& rows::unique(r, store::v_id())
            &&& if exists|k: int| 0 <= k < n && (#[trigger] ids[k]).0 == bs[i].id {
                r[i] == (BookmarkV { status: "ready"@, last_error: None, updated_at: now, ..bs[i] })
            } else {
                r[i] == bs[i]
            }
        }),
    decreases n,
{
    if n > 0 {
        let before = enrichment::all_ready(bs, ids, n - 1, now);
        let r = enrichment::all_ready(bs, ids, n, now);
        let id = ids[n - 1].0;
        law_the_listed_are_ready(bs, ids, n - 1, now, i);
        lemma_changed(before, id, store::made_ready(now), i);
        rows::lemma_row_index(before, store::v_id(), id, 0);
        if let Some(x) = store::find_id(before, id) {
            rows::lemma_unique_update(before, store::v_id(), x, r[x]);
        }
        if exists|k: int| 0 <= k < n && (#[trigger] ids[k]).0 == bs[i].id {
            let k = choose|k: int| 0 <= k < n && (#[trigger] ids[k]).0 == bs[i].id;
            if k < n - 1 {
                assert(ids[k].0 == bs[i].id);
            }
        }
    }
}

/// Whether one text stands in another.
pub open spec fn stands_in(s: Seq<char>, p: Seq<char>) -> bool {
    exists|i: int| #[trigger] text::occurs_at(s, p, i)
}

/// Each part stands in what is joined.
proof fn lemma_joined(parts: Seq<Seq<char>>, sep: Seq<char>, k: int)
    requires
        0 <= k < parts.len(),
    ensures
        stands_in(text::join(parts, sep), parts[k]),
    decreases parts.len(),
{
    let all = text::join(parts, sep);
    if parts.len() == 1 {
        assert(all.subrange(0, all.len() as int) =~= parts[k]);
        assert(text::occurs_at(all, parts[k], 0));
    } else if k == parts.len() - 1 {
        let at = all.len() - parts[k].len();
        assert(all.subrange(at, at + parts[k].len()) =~= parts[k]);
        assert(text::occurs_at(all, parts[k], at));
    } else {
        let init = parts.drop_last();
        lemma_joined(init, sep, k);
        let front = text::join(init, sep);
        let i = choose|i: int| #[trigger] text::occurs_at(front, init[k], i);
        assert(all.subrange(i, i + parts[k].len()) =~= front.subrange(i, i + parts[k].len()));
        assert(text::occurs_at(all, parts[k], i));
    }
}

/// The text that is embedded has the tags, the category, the title and the summary in it,
/// each that there is; of a long summary it has the beginning.
pub proof fn law_the_embedded_text_has_all_parts(
    title: Seq<char>,
    summary: Seq<char>,
    tags: Option<Seq<char>>,
    category: Option<Seq<char>>,
)
    ensures
        ({
            let r = enrichment::embedding_text(title, summary, tags, category);
            &&& tags matches Some(t) ==> (t.len() > 0 && t != "[]"@ ==> stands_in(r, "Tags: "@ + t))
            &&& category matches Some(c) ==> (c.len() > 0 ==> stands_in(r, "Category: "@ + c))
            &&& title.len() > 0 ==> stands_in(r, "Title: "@ + title)
            &&& text::trim(summary).len() > 0 && summary.len() <= 300 ==> stands_in(
                r,
                "Summary: "@ + summary,
            )
            &&& summary.len() > 300 && text::trim(summary.take(300)).len() > 0 ==> stands_in(
                r,
                "Summary: "@ + summary.take(300),
            )
        }),
{
    let short = enrichment::first_chars(summary, enrichment::MAX_SUMMARY_CHARS_IN_EMBED as nat);
    let a = enrichment::part(enrichment::has_tags(tags), "Tags: "@, tags->0);
    let b = enrichment::part(enrichment::has_text(category), "Category: "@, category->0);
    let c = enrichment::part(title.len() > 0, "Title: "@, title);
    let d = enrichment::part(text::trim(short).len() > 0, "Summary: "@, short);
    let all = a + b + c + d;
    if a.len() > 0 {
        assert(all[0] == a[0]);
        lemma_joined(all, "\n"@, 0);
    }
    if b.len() > 0 {
        assert(all[a.len() as int] == b[0]);
        lemma_joined(all, "\n"@, a.len() as int);
    }
    if c.len() > 0 {
        assert(all[(a.len() + b.len()) as int] == c[0]);
        lemma_joined(all, "\n"@, (a.len() + b.len()) as int);
    }
    if d.len() > 0 {
        assert(all[(a.len() + b.len() + c.len()) as int] == d[0]);
        lemma_joined(all, "\n"@, (a.len() + b.len() + c.len()) as int);
    }
}

pub open spec fn age_of() -> spec_fn(Bookmark) -> int {
    |b: Bookmark| -(b.created_at as int)
}

/// Those that wait come in the order in which they came.
pub proof fn law_the_oldest_come_first(bs: Seq<Bookmark>, limit: nat)
    ensures
        rows::is_top(bs, age_of(), limit, store::oldest(bs, limit)),
{
    rows::lemma_top(bs, age_of(), store::oldest_keys(bs), limit);
}

/// A page is read just where the answer says that all is well and that it is not too large; a
/// new address is asked just where the answer leads to one and not too many have been asked
/// before, and then that one.
pub proof fn law_an_answer_is_read_followed_or_refused(
    redirects: nat,
    a: Answer,
    target: Option<Result<Seq<char>, Seq<char>>>,
)
    ensures
        ({
            let r = fetch::next_step(redirects, a, target);
            &&& r is Read <==> 200 <= a.status < 300 && (a.content_length matches Some(n) ==> n
                <= fetch::MAX_BODY_BYTES)
            &&& r is Follow <==> 300 <= a.status < 400 && redirects < fetch::MAX_REDIRECTS
                && target is Some && target->0 is Ok
            &&& r matches FetchStepV::Follow(u, n) ==> target == Some(Ok::<Seq<char>, Seq<char>>(u)) && n
                == redirects + 1
        }),
{
}

/// Nothing is asked at an address of this machine or of a network at home: neither of the
/// machine itself, nor of one of the ranges that are set aside for such networks.
pub proof fn law_addresses_at_home_are_private(a: u8, b: u8, c: u8, d: u8)
    ensures
        url::is_private_addr(HostAddr::V4(127, b, c, d)),
        url::is_private_addr(HostAddr::V4(10, b, c, d)),
        url::is_private_addr(HostAddr::V4(192, 168, c, d)),
        16 <= b <= 31 ==> url::is_private_addr(HostAddr::V4(172, b, c, d)),
        url::is_private_addr(HostAddr::V4(169, 254, c, d)),
        url::is_private_addr(HostAddr::V4(0, 0, 0, 0)),
        url::is_private_addr(HostAddr::V6(0, 0, 0, 0, 0, 0, 0, 1)),
        a != 127 && a != 10 && a != 192 && a != 172 && a != 169 && 0 < a < 224
            ==> !url::is_private_addr(HostAddr::V4(a, b, c, d)),
{
}

/// A text is written for a query part by part: a quotation mark twice, everything else as it
/// is.
pub proof fn law_quotation_marks_are_doubled(a: Seq<char>, b: Seq<char>)
    ensures
        search::sql_inner(a + b) == search::sql_inner(a) + search::sql_inner(b),
        search::sql_inner(seq!['\'']) == seq!['\'', '\''],
        !a.contains('\'') ==> search::sql_inner(a) == a,
        search::sql_text(a) == seq!['\''] + search::sql_inner(a) + seq!['\''],
    decreases b.len(),
{
    let q = seq!['\''];
    assert(q.drop_last() =~= Seq::<char>::empty());
    assert(q.last() == '\'');
    assert(search::sql_inner(q.drop_last()) =~= Seq::<char>::empty());
    assert(search::sql_inner(q) =~= seq!['\'', '\'']);
    if b.len() == 0 {
        assert(a + b =~= a);
        assert(search::sql_inner(a) + search::sql_inner(b) =~= search::sql_inner(a));
    } else {
        law_quotation_marks_are_doubled(a, b.drop_last());
        assert((a + b).drop_last() =~= a + b.drop_last());
        assert((a + b).last() == b.last());
        assert(search::sql_inner(a + b) =~= search::sql_inner(a) + search::sql_inner(b));
    }
    if !a.contains('\'') {
        lemma_no_marks(a);
    }
}

proof fn lemma_no_marks(a: Seq<char>)
    requires
        !a.contains('\''),
    ensures
        search::sql_inner(a) == a,
    decreases a.len(),
{
    if a.len() > 0 {
        let init = a.drop_last();
        assert(a.contains(a[a.len() - 1]));
        if init.contains('\'') {
            let k = choose|k: int| 0 <= k < init.len() && init[k] == '\'';
            assert(a[k] == '\'');
        }
        lemma_no_marks(init);
        assert(search::sql_inner(a) =~= a);
    } else {
        assert(search::sql_inner(a) =~= a);
    }
}

} // verus!
