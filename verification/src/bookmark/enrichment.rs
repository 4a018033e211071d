//! Working on bookmarks: what a page said, what it is summed up as, and what is embedded.

use crate::bookmark::store;
use crate::bookmark::store::{Bookmark, BookmarkStore, BookmarkV};
use crate::graph::model::clone_opt;
use crate::graph::store::opt_view;
use crate::json;
use crate::rows;
use crate::text;
use vstd::prelude::*;

verus! {

/// How much of a page is kept.
pub const MAX_RAW_CONTENT_CHARS: usize = 20_000;

/// How much of a summary is embedded.
pub const MAX_SUMMARY_CHARS_IN_EMBED: usize = 300;

/// How many bookmarks are worked on at a time.
pub const FETCH_BATCH: usize = 256;

/// What a page is summed up as.
#[derive(Debug, PartialEq, Eq)]
pub struct BookmarkSummaryOut {
    pub summary: String,
    pub category: Option<String>,
    pub tags: Vec<String>,
}

/// What came of summing a page up.
#[derive(Debug, PartialEq, Eq)]
pub enum SummaryReply {
    Made(BookmarkSummaryOut),
    /// Nothing that could be read.
    Nothing,
    Failed(String),
}

// ---- The text that is embedded

pub open spec fn first_chars(s: Seq<char>, n: nat) -> Seq<char> {
    if s.len() <= n {
        s
    } else {
        s.take(n as int)
    }
}

/// The part with its name, where there is one.
pub open spec fn part(there: bool, name: Seq<char>, value: Seq<char>) -> Seq<Seq<char>> {
    if there {
        seq![name + value]
    } else {
        Seq::empty()
    }
}

pub open spec fn has_tags(tags: Option<Seq<char>>) -> bool {
    tags matches Some(t) && t.len() > 0 && t != "[]"@
}

pub open spec fn has_text(o: Option<Seq<char>>) -> bool {
    o matches Some(t) && t.len() > 0
}

/// The text that is embedded: the tags, the category and the title, then the beginning of
/// the summary, so that a long summary leaves out none of the others.
pub open spec fn embedding_text(
    title: Seq<char>,
    summary: Seq<char>,
    tags: Option<Seq<char>>,
    category: Option<Seq<char>>,
) -> Seq<char> {
    let short = first_chars(summary, MAX_SUMMARY_CHARS_IN_EMBED as nat);
    text::join(
        part(has_tags(tags), "Tags: "@, tags->0) + part(
            has_text(category),
            "Category: "@,
            category->0,
        ) + part(title.len() > 0, "Title: "@, title) + part(
            text::trim(short).len() > 0,
            "Summary: "@,
            short,
        ),
        "\n"@,
    )
}

fn add_part(parts: &mut Vec<String>, name: &str, value: &str)
    ensures
        text::texts(final(parts)@) == text::texts(old(parts)@) + seq![name@ + value@],
{
    let mut t = name.to_owned();
    t.push_str(value);
    let ghost before = text::texts(parts@);
    proof {
        assert(t@ =~= name@ + value@);
        text::lemma_texts_push(parts@, t);
        assert(before.push(name@ + value@) =~= before + seq![name@ + value@]);
    }
    parts.push(t);
}

/// The text that is embedded.
pub fn build_embedding_text(
    title: &str,
    summary: &str,
    tags: Option<&str>,
    category: Option<&str>,
) -> (r: String)
    ensures
        r@ == embedding_text(title@, summary@, store::str_opt(tags), store::str_opt(category)),
{
    let short = text::take_chars(summary, MAX_SUMMARY_CHARS_IN_EMBED);
    let ghost p1 = part(
        has_tags(store::str_opt(tags)),
        "Tags: "@,
        store::str_opt(tags)->0,
    );
    let ghost p2 = part(
        has_text(store::str_opt(category)),
        "Category: "@,
        store::str_opt(category)->0,
    );
    let ghost p3 = part(title@.len() > 0, "Title: "@, title@);
    let ghost p4 = part(text::trim(short@).len() > 0, "Summary: "@, short@);
    let mut parts: Vec<String> = Vec::new();
    if let Some(t) = tags {
        if text::chars_of(t).len() > 0 && !text::str_eq(t, "[]") {
            add_part(&mut parts, "Tags: ", t);
        }
    }
    assert(text::texts(parts@) =~= p1);
    if let Some(c) = category {
        if text::chars_of(c).len() > 0 {
            add_part(&mut parts, "Category: ", c);
        }
    }
    assert(text::texts(parts@) =~= p1 + p2);
    if text::chars_of(title).len() > 0 {
        add_part(&mut parts, "Title: ", title);
    }
    assert(text::texts(parts@) =~= p1 + p2 + p3);
    if text::chars_of(&text::trim_space(&short)).len() > 0 {
        add_part(&mut parts, "Summary: ", &short);
    }
    assert(text::texts(parts@) =~= p1 + p2 + p3 + p4);
    text::join_of(&parts, "\n")
}

/// Where there are tags, the text that is embedded begins with them.
pub proof fn law_tags_come_first(
    title: Seq<char>,
    summary: Seq<char>,
    tags: Seq<char>,
    category: Option<Seq<char>>,
)
    requires
        has_tags(Some(tags)),
    ensures
        text::starts_with(embedding_text(title, summary, Some(tags), category), "Tags: "@ + tags),
{
    let short = first_chars(summary, MAX_SUMMARY_CHARS_IN_EMBED as nat);
    let rest = part(has_text(category), "Category: "@, category->0) + part(
        title.len() > 0,
        "Title: "@,
        title,
    ) + part(text::trim(short).len() > 0, "Summary: "@, short);
    let all = part(true, "Tags: "@, tags) + part(
        has_text(category),
        "Category: "@,
        category->0,
    ) + part(title.len() > 0, "Title: "@, title) + part(
        text::trim(short).len() > 0,
        "Summary: "@,
        short,
    );
    assert(all =~= seq!["Tags: "@ + tags] + rest);
    lemma_join_first(all, "\n"@);
}

proof fn lemma_join_first(parts: Seq<Seq<char>>, sep: Seq<char>)
    requires
        parts.len() > 0,
    ensures
        text::starts_with(text::join(parts, sep), parts[0]),
    decreases parts.len(),
{
    if parts.len() > 1 {
        let front = parts.drop_last();
        lemma_join_first(front, sep);
        let j = text::join(front, sep);
        let whole = text::join(parts, sep);
        assert(whole.subrange(0, parts[0].len() as int) =~= j.subrange(
            0,
            parts[0].len() as int,
        ));
    } else {
        assert(text::join(parts, sep) =~= parts[0]);
        assert(parts[0].subrange(0, parts[0].len() as int) =~= parts[0]);
    }
}

// ---- Pages that were fetched

/// The bookmarks after a page was fetched, or could not be.
pub open spec fn after_fetch(
    bs: Seq<BookmarkV>,
    id: Seq<char>,
    page: Result<Seq<char>, Seq<char>>,
    now: i64,
) -> Seq<BookmarkV> {
    match page {
        Ok(m) => store::changed(
            bs,
            id,
            store::with_raw_content(first_chars(m, MAX_RAW_CONTENT_CHARS as nat), now),
        ),
        Err(e) => store::changed(bs, id, store::made_failed(e, true, now)),
    }
}

pub open spec fn page_view(page: Result<String, String>) -> Result<Seq<char>, Seq<char>> {
    match page {
        Ok(m) => Ok(m@),
        Err(e) => Err(e@),
    }
}

impl BookmarkStore {
    /// Keeps what a page says, or that it is gone. Returns the bookmark where there is
    /// something to be summed up.
    pub fn take_fetched(&mut self, id: &str, page: &Result<String, String>, now: i64) -> (r: Option<
        Bookmark,
    >)
        requires
            old(self).wf(),
        ensures
            final(self).wf(),
            final(self).dir_path == old(self).dir_path,
            final(self).list_view() == after_fetch(
                old(self).list_view(),
                id@,
                page_view(*page),
                now,
            ),
            match r {
                Some(b) => {
                    &&& page is Ok
                    &&& store::find_id(final(self).list_view(), id@) matches Some(i) && b
                        == final(self).rows@[i]
                },
                None => page is Err || store::find_id(final(self).list_view(), id@) is None,
            },
    {
        match page {
            Ok(m) => {
                let short = text::take_chars(m, MAX_RAW_CONTENT_CHARS);
                self.update_raw_content(id, &short, now);
                self.get(id)
            },
            Err(e) => {
                self.mark_failed(id, e, true, now);
                None
            },
        }
    }
}

// ---- Summaries

pub open spec fn not_blank(s: Seq<char>) -> Option<Seq<char>> {
    if text::trim(s).len() == 0 {
        None
    } else {
        Some(s)
    }
}

pub open spec fn not_blank_opt(o: Option<Seq<char>>) -> Option<Seq<char>> {
    match o {
        Some(s) => not_blank(s),
        None => None,
    }
}

pub open spec fn tags_text(tags: Seq<Seq<char>>) -> Option<Seq<char>> {
    if tags.len() == 0 {
        None
    } else {
        Some(json::strings_text(tags))
    }
}

/// The bookmarks after a page was summed up, or could not be.
pub open spec fn after_summary(bs: Seq<BookmarkV>, id: Seq<char>, reply: SummaryReply, now: i64) -> Seq<
    BookmarkV,
> {
    match reply {
        SummaryReply::Made(o) => store::changed(
            bs,
            id,
            store::with_summary(
                not_blank(o.summary@),
                not_blank_opt(opt_view(o.category)),
                tags_text(text::texts(o.tags@)),
                now,
            ),
        ),
        SummaryReply::Nothing => store::changed(
            bs,
            id,
            store::made_failed("LLM 摘要空响应或输出不可解析"@, false, now),
        ),
        SummaryReply::Failed(e) => store::changed(
            bs,
            id,
            store::made_failed("LLM 摘要失败："@ + e@, false, now),
        ),
    }
}

/// The bookmarks after the first `n` pages were summed up.
pub open spec fn after_summaries(
    bs: Seq<BookmarkV>,
    list: Seq<(Bookmark, SummaryReply)>,
    n: int,
    now: i64,
) -> Seq<BookmarkV>
    decreases n,
{
    if n <= 0 {
        bs
    } else {
        after_summary(
            after_summaries(bs, list, n - 1, now),
            list[n - 1].0.id@,
            list[n - 1].1,
            now,
        )
    }
}

/// Which of the first `n` pages have a summary.
pub open spec fn summed_up(list: Seq<(Bookmark, SummaryReply)>, n: int) -> Seq<int>
    decreases n,
{
    if n <= 0 {
        Seq::empty()
    } else if list[n - 1].1 is Made {
        summed_up(list, n - 1).push(n - 1)
    } else {
        summed_up(list, n - 1)
    }
}

fn keep_if_said(s: &String) -> (r: Option<String>)
    ensures
        opt_view(r) == not_blank(s@),
{
    if text::chars_of(&text::trim_space(s)).len() == 0 {
        None
    } else {
        Some(s.clone())
    }
}

impl BookmarkStore {
    fn take_summary(&mut self, id: &str, reply: &SummaryReply, now: i64)
        requires
            old(self).wf(),
        ensures
            final(self).wf(),
            final(self).dir_path == old(self).dir_path,
            final(self).list_view() == after_summary(old(self).list_view(), id@, *reply, now),
    {
        match reply {
            SummaryReply::Made(o) => {
                assert(text::texts(o.tags@).len() == o.tags@.len());
                let tags = if o.tags.len() == 0 {
                    None
                } else {
                    Some(json::write_strings(&o.tags))
                };
                let category = match &o.category {
                    Some(c) => keep_if_said(c),
                    None => None,
                };
                self.update_summary(id, keep_if_said(&o.summary), category, tags, now);
            },
            SummaryReply::Nothing => {
                self.mark_failed(id, "LLM 摘要空响应或输出不可解析", false, now);
            },
            SummaryReply::Failed(e) => {
                let mut t = "LLM 摘要失败：".to_owned();
                t.push_str(e);
                assert(t@ =~= "LLM 摘要失败："@ + e@);
                self.mark_failed(id, &t, false, now);
            },
        }
    }

    /// Keeps what pages are summed up as; one that could not be has failed. Returns which of
    /// them have a summary.
    pub fn summarize_batch(&mut self, list: &Vec<(Bookmark, SummaryReply)>, now: i64) -> (r: Vec<
        usize,
    >)
        requires
            old(self).wf(),
        ensures
            final(self).wf(),
            final(self).dir_path == old(self).dir_path,
            final(self).list_view() == after_summaries(
                old(self).list_view(),
                list@,
                list@.len() as int,
                now,
            ),
            rows::indices(r@) == summed_up(list@, list@.len() as int),
    {
        let mut out: Vec<usize> = Vec::new();
        let mut i: usize = 0;
        assert(rows::indices(out@) =~= Seq::empty());
        while i < list.len()
            invariant
                i <= list.len(),
                self.wf(),
                self.dir_path == old(self).dir_path,
                self.list_view() == after_summaries(old(self).list_view(), list@, i as int, now),
                rows::indices(out@) == summed_up(list@, i as int),
            decreases list.len() - i,
        {
            self.take_summary(&list[i].0.id, &list[i].1, now);
            let made = match &list[i].1 {
                SummaryReply::Made(_) => true,
                _ => false,
            };
            if made {
                let ghost before = rows::indices(out@);
                out.push(i);
                assert(rows::indices(out@) =~= before.push(i as int));
            }
            i += 1;
        }
        out
    }
}

// ---- Texts to be embedded

/// The bookmarks, and the texts to be embedded with the ids of their bookmarks.
pub struct EmbedV {
    pub rows: Seq<BookmarkV>,
    pub texts: Seq<(Seq<char>, Seq<char>)>,
}

pub open spec fn or_empty(o: Option<Seq<char>>) -> Seq<char> {
    match o {
        Some(s) => s,
        None => Seq::empty(),
    }
}

/// The bookmark as it is now, or as it was where it is gone.
pub open spec fn fresh(bs: Seq<BookmarkV>, b: BookmarkV) -> BookmarkV {
    match store::find_id(bs, b.id) {
        Some(i) => bs[i],
        None => b,
    }
}

/// Both after the text of a bookmark was made; one without a summary has none.
pub open spec fn with_text(v: EmbedV, b: BookmarkV, reply: SummaryReply, now: i64) -> EmbedV {
    match reply {
        SummaryReply::Made(o) => {
            let f = fresh(v.rows, b);
            let t = embedding_text(or_empty(f.title), o.summary@, f.tags, opt_view(o.category));
            EmbedV {
                rows: store::changed(v.rows, b.id, store::with_embedding_text(t, now)),
                texts: v.texts.push((b.id, t)),
            }
        },
        _ => v,
    }
}

/// Both after the texts of the first `n` were made.
pub open spec fn with_texts(v: EmbedV, list: Seq<(Bookmark, SummaryReply)>, n: int, now: i64) -> EmbedV
    decreases n,
{
    if n <= 0 {
        v
    } else {
        with_text(
            with_texts(v, list, n - 1, now),
            store::bookmark_view(list[n - 1].0),
            list[n - 1].1,
            now,
        )
    }
}

/// The bookmarks when the first `n` are ready.
pub open spec fn all_ready(bs: Seq<BookmarkV>, ids: Seq<(Seq<char>, Seq<char>)>, n: int, now: i64) -> Seq<
    BookmarkV,
>
    decreases n,
{
    if n <= 0 {
        bs
    } else {
        store::changed(all_ready(bs, ids, n - 1, now), ids[n - 1].0, store::made_ready(now))
    }
}

impl BookmarkStore {
    fn fresh_of(&self, b: &Bookmark) -> (r: Bookmark)
        ensures
            store::bookmark_view(r) == fresh(self.list_view(), store::bookmark_view(*b)),
    {
        match self.get(&b.id) {
            Some(x) => {
                proof {
                    rows::lemma_row_index(self.list_view(), store::v_id(), b.id@, 0);
                    let i = store::find_id(self.list_view(), b.id@)->0;
                    assert(self.list_view()[i] == store::bookmark_view(self.rows@[i]));
                }
                x
            },
            None => b.clone(),
        }
    }

    /// Makes and keeps the texts to be embedded of the bookmarks that have a summary.
    pub fn embedding_texts(&mut self, list: &Vec<(Bookmark, SummaryReply)>, now: i64) -> (r: Vec<
        (String, String),
    >)
        requires
            old(self).wf(),
        ensures
            final(self).wf(),
            final(self).dir_path == old(self).dir_path,
            (EmbedV { rows: final(self).list_view(), texts: json::pairs_view(r@) }) == with_texts(
                (EmbedV { rows: old(self).list_view(), texts: Seq::empty() }),
                list@,
                list@.len() as int,
                now,
            ),
    {
        let ghost start = EmbedV { rows: self.list_view(), texts: Seq::empty() };
        let mut out: Vec<(String, String)> = Vec::new();
        let mut i: usize = 0;
        assert(json::pairs_view(out@) =~= Seq::empty());
        while i < list.len()
            invariant
                i <= list.len(),
                self.wf(),
                self.dir_path == old(self).dir_path,
                (EmbedV { rows: self.list_view(), texts: json::pairs_view(out@) }) == with_texts(
                    start,
                    list@,
                    i as int,
                    now,
                ),
            decreases list.len() - i,
        {
            if let SummaryReply::Made(o) = &list[i].1 {
                let b = &list[i].0;
                let f = self.fresh_of(b);
                let title = match clone_opt(&f.title) {
                    Some(t) => t,
                    None => {
                        let none = String::new();
                        assert(none@ =~= Seq::<char>::empty());
                        none
                    },
                };
                let tags = match &f.tags {
                    Some(t) => Some(t.as_str()),
                    None => None,
                };
                let category = match &o.category {
                    Some(c) => Some(c.as_str()),
                    None => None,
                };
                let t = build_embedding_text(&title, &o.summary, tags, category);
                self.update_embedding_text(&b.id, &t, now);
                let id = b.id.clone();
                let ghost before = out@;
                let ghost pair = (id@, t@);
                out.push((id, t));
                assert(json::pairs_view(out@) =~= json::pairs_view(before).push(pair));
            }
            i += 1;
        }
        out
    }

    /// Says that all was done for the bookmarks whose texts were embedded.
    pub fn finish_batch(&mut self, texts: &Vec<(String, String)>, now: i64)
        requires
            old(self).wf(),
        ensures
            final(self).wf(),
            final(self).dir_path == old(self).dir_path,
            final(self).list_view() == all_ready(
                old(self).list_view(),
                json::pairs_view(texts@),
                texts@.len() as int,
                now,
            ),
    {
        let ghost ids = json::pairs_view(texts@);
        let mut i: usize = 0;
        while i < texts.len()
            invariant
                i <= texts.len(),
                ids == json::pairs_view(texts@),
                self.wf(),
                self.dir_path == old(self).dir_path,
                self.list_view() == all_ready(old(self).list_view(), ids, i as int, now),
            decreases texts.len() - i,
        {
            assert(ids[i as int].0 == texts@[i as int].0@);
            self.mark_ready(&texts[i].0, now);
            i += 1;
        }
    }
}

/// Of a page that could not be summed up no text is embedded, so that it is not made ready.
pub proof fn law_only_what_is_summed_up_is_embedded(
    v: EmbedV,
    list: Seq<(Bookmark, SummaryReply)>,
    n: int,
    now: i64,
)
    requires
        0 <= n <= list.len(),
        v.texts.len() == 0,
    ensures
        with_texts(v, list, n, now).texts.len() == summed_up(list, n).len(),
        forall|k: int|
            0 <= k < summed_up(list, n).len() ==> {
                &&& 0 <= #[trigger] summed_up(list, n)[k] < n
                &&& list[summed_up(list, n)[k]].1 is Made
                &&& with_texts(v, list, n, now).texts[k].0 == list[summed_up(list, n)[k]].0.id@
            },
    decreases n,
{
    if n > 0 {
        law_only_what_is_summed_up_is_embedded(v, list, n - 1, now);
    }
}

} // verus!
