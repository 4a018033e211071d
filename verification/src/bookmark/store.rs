//! The bookmarks of a knowledge base.

use crate::bookmark::said;
use crate::graph::lists;
use crate::graph::model::clone_opt;
use crate::graph::store::opt_view;
use crate::rows;
use crate::text;
use vstd::prelude::*;

verus! {

/// A bookmark that waits to be worked on.
pub const STATUS_PENDING: &'static str = "pending";

/// A bookmark whose page was read, summed up and embedded.
pub const STATUS_READY: &'static str = "ready";

/// A bookmark whose page is gone or could not be summed up. It stays so.
pub const STATUS_FAILED: &'static str = "failed";

/// How many bookmarks are listed, and how many a search finds, at most.
pub const LIST_LIMIT: usize = 500;

pub const SEARCH_LIMIT: usize = 20;

/// A bookmark.
#[derive(Debug, PartialEq, Eq)]
pub struct Bookmark {
    pub id: String,
    pub url: String,
    pub canonical_url: Option<String>,
    pub title: Option<String>,
    pub browser_folder: Option<String>,
    pub added_at: Option<i64>,
    pub source_file: Option<String>,
    pub category: Option<String>,
    pub summary: Option<String>,
    /// A JSON array of strings.
    pub tags: Option<String>,
    pub raw_content: Option<String>,
    pub embedding_text: Option<String>,
    pub status: String,
    pub dead: bool,
    pub last_error: Option<String>,
    pub revision: i64,
    pub created_at: i64,
    pub updated_at: i64,
}

impl Clone for Bookmark {
    fn clone(&self) -> (r: Self)
        ensures
            r == *self,
    {
        Bookmark {
            id: self.id.clone(),
            url: self.url.clone(),
            canonical_url: clone_opt(&self.canonical_url),
            title: clone_opt(&self.title),
            browser_folder: clone_opt(&self.browser_folder),
            added_at: self.added_at,
            source_file: clone_opt(&self.source_file),
            category: clone_opt(&self.category),
            summary: clone_opt(&self.summary),
            tags: clone_opt(&self.tags),
            raw_content: clone_opt(&self.raw_content),
            embedding_text: clone_opt(&self.embedding_text),
            status: self.status.clone(),
            dead: self.dead,
            last_error: clone_opt(&self.last_error),
            revision: self.revision,
            created_at: self.created_at,
            updated_at: self.updated_at,
        }
    }
}

/// A bookmark to be taken in.
#[derive(Debug, PartialEq, Eq)]
pub struct BookmarkEntry {
    pub url: String,
    pub title: Option<String>,
    pub folder: Option<String>,
    pub added_at: Option<i64>,
}

impl Clone for BookmarkEntry {
    fn clone(&self) -> (r: Self)
        ensures
            r == *self,
    {
        BookmarkEntry {
            url: self.url.clone(),
            title: clone_opt(&self.title),
            folder: clone_opt(&self.folder),
            added_at: self.added_at,
        }
    }
}

/// What became of the bookmarks that were taken in.
#[derive(Debug, Clone, Copy, PartialEq, Eq, Structural)]
pub struct BookmarkImportStats {
    pub inserted: usize,
    pub skipped: usize,
    pub failed: usize,
    pub total: usize,
}

/// A bookmark that a search found.
#[derive(Debug, PartialEq, Eq)]
pub struct BookmarkSearchHit {
    pub id: String,
    pub title: Option<String>,
    pub url: String,
    pub summary: Option<String>,
    pub tags: Option<String>,
    pub category: Option<String>,
    pub status: String,
    pub dead: bool,
}

/// How many bookmarks there are of each kind.
#[derive(Debug, Clone, Copy, PartialEq, Eq, Structural)]
pub struct BookmarkStats {
    pub total: u64,
    pub ready: u64,
    pub pending: u64,
    pub failed: u64,
    pub dead: u64,
}

/// A bookmark as plain values.
pub struct BookmarkV {
    pub id: Seq<char>,
    pub url: Seq<char>,
    pub canonical_url: Option<Seq<char>>,
    pub title: Option<Seq<char>>,
    pub browser_folder: Option<Seq<char>>,
    pub added_at: Option<i64>,
    pub source_file: Option<Seq<char>>,
    pub category: Option<Seq<char>>,
    pub summary: Option<Seq<char>>,
    pub tags: Option<Seq<char>>,
    pub raw_content: Option<Seq<char>>,
    pub embedding_text: Option<Seq<char>>,
    pub status: Seq<char>,
    pub dead: bool,
    pub last_error: Option<Seq<char>>,
    pub revision: i64,
    pub created_at: i64,
    pub updated_at: i64,
}

pub open spec fn bookmark_view(b: Bookmark) -> BookmarkV {
    BookmarkV {
        id: b.id@,
        url: b.url@,
        canonical_url: opt_view(b.canonical_url),
        title: opt_view(b.title),
        browser_folder: opt_view(b.browser_folder),
        added_at: b.added_at,
        source_file: opt_view(b.source_file),
        category: opt_view(b.category),
        summary: opt_view(b.summary),
        tags: opt_view(b.tags),
        raw_content: opt_view(b.raw_content),
        embedding_text: opt_view(b.embedding_text),
        status: b.status@,
        dead: b.dead,
        last_error: opt_view(b.last_error),
        revision: b.revision,
        created_at: b.created_at,
        updated_at: b.updated_at,
    }
}

pub open spec fn as_bookmark() -> spec_fn(Bookmark) -> BookmarkV {
    |b: Bookmark| bookmark_view(b)
}

pub open spec fn id_key() -> spec_fn(Bookmark) -> Seq<char> {
    |b: Bookmark| b.id@
}

pub open spec fn url_key() -> spec_fn(Bookmark) -> Option<Seq<char>> {
    |b: Bookmark| opt_view(b.canonical_url)
}

pub open spec fn v_id() -> spec_fn(BookmarkV) -> Seq<char> {
    |b: BookmarkV| b.id
}

pub open spec fn v_url() -> spec_fn(BookmarkV) -> Option<Seq<char>> {
    |b: BookmarkV| b.canonical_url
}

pub open spec fn find_id(bs: Seq<BookmarkV>, id: Seq<char>) -> Option<int> {
    rows::row_index(bs, v_id(), id, 0)
}

pub open spec fn find_url(bs: Seq<BookmarkV>, url: Seq<char>) -> Option<int> {
    rows::row_index(bs, v_url(), Some(url), 0)
}

/// The bookmarks with one changed, where it is there.
pub open spec fn changed(
    bs: Seq<BookmarkV>,
    id: Seq<char>,
    f: spec_fn(BookmarkV) -> BookmarkV,
) -> Seq<BookmarkV> {
    match find_id(bs, id) {
        Some(i) => bs.update(i, f(bs[i])),
        None => bs,
    }
}

pub open spec fn with_raw_content(content: Seq<char>, now: i64) -> spec_fn(BookmarkV) -> BookmarkV {
    |b: BookmarkV| BookmarkV { raw_content: Some(content), updated_at: now, ..b }
}

pub open spec fn with_summary(
    summary: Option<Seq<char>>,
    category: Option<Seq<char>>,
    tags: Option<Seq<char>>,
    now: i64,
) -> spec_fn(BookmarkV) -> BookmarkV {
    |b: BookmarkV| BookmarkV { summary, category, tags, updated_at: now, ..b }
}

pub open spec fn with_embedding_text(t: Seq<char>, now: i64) -> spec_fn(BookmarkV) -> BookmarkV {
    |b: BookmarkV| BookmarkV { embedding_text: Some(t), updated_at: now, ..b }
}

pub open spec fn made_ready(now: i64) -> spec_fn(BookmarkV) -> BookmarkV {
    |b: BookmarkV| BookmarkV { status: STATUS_READY@, last_error: None, updated_at: now, ..b }
}

pub open spec fn made_failed(error: Seq<char>, dead: bool, now: i64) -> spec_fn(BookmarkV) -> BookmarkV {
    |b: BookmarkV|
        BookmarkV {
            status: STATUS_FAILED@,
            dead,
            last_error: Some(error),
            updated_at: now,
            ..b
        }
}

/// The bookmarks of a knowledge base. No two have the same id, or lead to the same page.
pub struct BookmarkStore {
    pub dir_path: String,
    pub rows: Vec<Bookmark>,
}

// ---- Reading

pub open spec fn str_opt(o: Option<&str>) -> Option<Seq<char>> {
    match o {
        Some(s) => Some(s@),
        None => None,
    }
}

/// Whether a wish that is not empty is met: a text that begins so, as SQL compares.
pub open spec fn is_under(folder: Option<Seq<char>>, value: Option<Seq<char>>) -> bool {
    match folder {
        Some(f) if f.len() > 0 => value matches Some(v) && lists::like(folder_pattern(f), v),
        _ => true,
    }
}

/// Whether a wish that is not empty is met: a text that is the same.
pub open spec fn is_wanted(wish: Option<Seq<char>>, value: Option<Seq<char>>) -> bool {
    match wish {
        Some(w) if w.len() > 0 => value == Some(w),
        _ => true,
    }
}

/// The text with what has a meaning in a pattern escaped.
pub open spec fn pattern_text(s: Seq<char>) -> Seq<char>
    decreases s.len(),
{
    if s.len() == 0 {
        Seq::empty()
    } else {
        let c = s.last();
        pattern_text(s.drop_last()) + if c == '\\' || c == '%' || c == '_' {
            seq!['\\', c]
        } else {
            seq![c]
        }
    }
}

pub open spec fn folder_pattern(folder: Seq<char>) -> Seq<char> {
    pattern_text(folder) + seq!['%']
}

pub open spec fn keyword_pattern(keyword: Seq<char>) -> Seq<char> {
    seq!['%'] + pattern_text(keyword) + seq!['%']
}

pub open spec fn listed(
    folder: Option<Seq<char>>,
    category: Option<Seq<char>>,
    status: Option<Seq<char>>,
) -> spec_fn(Bookmark) -> bool {
    |b: Bookmark|
        is_under(folder, opt_view(b.browser_folder)) && is_wanted(category, opt_view(b.category))
            && is_wanted(status, Some(b.status@))
}

pub open spec fn has_pattern(value: Option<Seq<char>>, pattern: Seq<char>) -> bool {
    value matches Some(v) && lists::like(pattern, v)
}

/// Whether a bookmark has the keyword in its title, summary, category or tags.
pub open spec fn found(
    query: Seq<char>,
    category: Option<Seq<char>>,
    folder: Option<Seq<char>>,
) -> spec_fn(Bookmark) -> bool {
    |b: Bookmark|
        {
            let p = keyword_pattern(query);
            &&& has_pattern(opt_view(b.title), p) || has_pattern(opt_view(b.summary), p)
                || has_pattern(opt_view(b.category), p) || has_pattern(opt_view(b.tags), p)
            &&& is_under(folder, opt_view(b.browser_folder))
            &&& is_wanted(category, opt_view(b.category))
        }
}

pub open spec fn latest_keys(bs: Seq<Bookmark>) -> Seq<Seq<int>> {
    Seq::new(bs.len(), |i: int| seq![-(bs[i].updated_at as int)])
}

pub open spec fn oldest_keys(bs: Seq<Bookmark>) -> Seq<Seq<int>> {
    Seq::new(bs.len(), |i: int| seq![bs[i].created_at as int])
}

/// Those that were changed last first.
pub open spec fn latest(bs: Seq<Bookmark>, limit: nat) -> Seq<Bookmark> {
    rows::limited(rows::rows_at(bs, rows::order_of(latest_keys(bs))), limit)
}

/// Those that came first first.
pub open spec fn oldest(bs: Seq<Bookmark>, limit: nat) -> Seq<Bookmark> {
    rows::limited(rows::rows_at(bs, rows::order_of(oldest_keys(bs))), limit)
}

pub open spec fn hit_of(b: Bookmark) -> BookmarkSearchHit {
    BookmarkSearchHit {
        id: b.id,
        title: b.title,
        url: b.url,
        summary: b.summary,
        tags: b.tags,
        category: b.category,
        status: b.status,
        dead: b.dead,
    }
}

pub open spec fn hits_of(bs: Seq<Bookmark>) -> Seq<BookmarkSearchHit> {
    Seq::new(bs.len(), |i: int| hit_of(bs[i]))
}

pub open spec fn in_state(status: Seq<char>) -> spec_fn(Bookmark) -> bool {
    |b: Bookmark| b.status@ == status
}

pub open spec fn is_dead() -> spec_fn(Bookmark) -> bool {
    |b: Bookmark| b.dead
}

pub open spec fn capped(n: usize, max: usize) -> nat {
    if n < max {
        n as nat
    } else {
        max as nat
    }
}

pub(crate) fn make_hit(b: &Bookmark) -> (r: BookmarkSearchHit)
    ensures
        r == hit_of(*b),
{
    BookmarkSearchHit {
        id: b.id.clone(),
        title: clone_opt(&b.title),
        url: b.url.clone(),
        summary: clone_opt(&b.summary),
        tags: clone_opt(&b.tags),
        category: clone_opt(&b.category),
        status: b.status.clone(),
        dead: b.dead,
    }
}

/// The text with what has a meaning in a pattern escaped.
pub fn escape_like(s: &str) -> (r: String)
    ensures
        r@ == pattern_text(s@),
{
    let cs = text::chars_of(s);
    let mut r = String::new();
    let mut i: usize = 0;
    assert(r@ =~= pattern_text(cs@.take(0)));
    while i < cs.len()
        invariant
            i <= cs.len(),
            r@ == pattern_text(cs@.take(i as int)),
        decreases cs.len() - i,
    {
        assert(cs@.take(i + 1).drop_last() =~= cs@.take(i as int));
        let ghost before = r@;
        let c = cs[i];
        if c == '\\' || c == '%' || c == '_' {
            r.push('\\');
            r.push(c);
            assert(r@ =~= before + seq!['\\', c]);
        } else {
            r.push(c);
            assert(r@ =~= before + seq![c]);
        }
        i += 1;
    }
    assert(cs@.take(i as int) =~= cs@);
    r
}

fn lies_under(folder: Option<&str>, value: &Option<String>) -> (r: bool)
    ensures
        r == is_under(str_opt(folder), opt_view(*value)),
{
    match folder {
        Some(f) => {
            if text::chars_of(f).len() == 0 {
                return true;
            }
            let mut p = escape_like(f);
            p.push('%');
            assert(p@ =~= folder_pattern(f@));
            match value {
                Some(v) => lists::is_like(&p, v),
                None => false,
            }
        },
        None => true,
    }
}

fn meets(wish: Option<&str>, value: &Option<String>) -> (r: bool)
    ensures
        r == is_wanted(str_opt(wish), opt_view(*value)),
{
    match wish {
        Some(w) => {
            if text::chars_of(w).len() == 0 {
                return true;
            }
            match value {
                Some(v) => text::str_eq(v, w),
                None => false,
            }
        },
        None => true,
    }
}

fn fits(value: &Option<String>, pattern: &str) -> (r: bool)
    ensures
        r == has_pattern(opt_view(*value), pattern@),
{
    match value {
        Some(v) => lists::is_like(pattern, v),
        None => false,
    }
}

fn pick(bs: &Vec<Bookmark>, order: &Vec<usize>, limit: usize) -> (r: Vec<Bookmark>)
    requires
        forall|k: int| 0 <= k < order@.len() ==> (#[trigger] order@[k]) < bs@.len(),
    ensures
        r@ == rows::limited(rows::rows_at(bs@, rows::indices(order@)), limit as nat),
{
    let ghost want = rows::rows_at(bs@, rows::indices(order@));
    let mut r: Vec<Bookmark> = Vec::new();
    let mut i: usize = 0;
    while i < order.len() && i < limit
        invariant
            i <= order.len(),
            i <= limit,
            want == rows::rows_at(bs@, rows::indices(order@)),
            forall|k: int| 0 <= k < order@.len() ==> (#[trigger] order@[k]) < bs@.len(),
            r@ == want.take(i as int),
        decreases order.len() - i,
    {
        assert(want[i as int] == bs@[order@[i as int] as int]);
        assert(want.take(i + 1) =~= want.take(i as int).push(want[i as int]));
        r.push(bs[order[i]].clone());
        i += 1;
    }
    assert(r@ =~= rows::limited(want, limit as nat));
    r
}

fn sort_latest(bs: &Vec<Bookmark>, limit: usize) -> (r: Vec<Bookmark>)
    ensures
        r@ == latest(bs@, limit as nat),
{
    let mut keys: Vec<Vec<i128>> = Vec::new();
    let mut i: usize = 0;
    while i < bs.len()
        invariant
            i <= bs.len(),
            keys@.len() == i,
            forall|k: int|
                0 <= k < i ==> rows::key_view(#[trigger] keys@[k]@) == seq![
                    -(bs@[k].updated_at as int),
                ],
        decreases bs.len() - i,
    {
        keys.push(rows::number_key(-(bs[i].updated_at as i128)));
        i += 1;
    }
    assert(rows::keys_view(keys@) =~= latest_keys(bs@));
    let order = rows::order_rows(&keys);
    pick(bs, &order, limit)
}

fn sort_oldest(bs: &Vec<Bookmark>, limit: usize) -> (r: Vec<Bookmark>)
    ensures
        r@ == oldest(bs@, limit as nat),
{
    let mut keys: Vec<Vec<i128>> = Vec::new();
    let mut i: usize = 0;
    while i < bs.len()
        invariant
            i <= bs.len(),
            keys@.len() == i,
            forall|k: int|
                0 <= k < i ==> rows::key_view(#[trigger] keys@[k]@) == seq![
                    bs@[k].created_at as int,
                ],
        decreases bs.len() - i,
    {
        keys.push(rows::number_key(bs[i].created_at as i128));
        i += 1;
    }
    assert(rows::keys_view(keys@) =~= oldest_keys(bs@));
    let order = rows::order_rows(&keys);
    pick(bs, &order, limit)
}

/// The error of a bookmark that cannot be added.
pub open spec fn insert_error(bs: Seq<BookmarkV>, b: BookmarkV) -> Option<Seq<char>> {
    if b.canonical_url is None {
        Some("插入书签失败: NOT NULL constraint failed: bookmarks.canonical_url"@)
    } else if find_id(bs, b.id) is Some {
        Some("插入书签失败: UNIQUE constraint failed: bookmarks.id"@)
    } else if find_url(bs, b.canonical_url->0) is Some {
        Some("插入书签失败: UNIQUE constraint failed: bookmarks.canonical_url"@)
    } else {
        None
    }
}

impl BookmarkStore {
    /// The bookmarks as plain values.
    pub open spec fn list_view(&self) -> Seq<BookmarkV> {
        rows::mapped(self.rows@, as_bookmark())
    }

    pub open spec fn wf(&self) -> bool {
        &&& rows::unique(self.rows@, id_key())
        &&& rows::unique(self.rows@, url_key())
        &&& forall|i: int| 0 <= i < self.rows@.len() ==> (#[trigger] self.rows@[i]).canonical_url is Some
    }

    /// Bookmarks of a knowledge base that has none yet.
    pub fn new(dir_path: String) -> (r: Self)
        ensures
            r.wf(),
            r.dir_path == dir_path,
            r.rows@.len() == 0,
    {
        BookmarkStore { dir_path, rows: Vec::new() }
    }

    pub fn dir_path(&self) -> (r: &str)
        ensures
            r@ == self.dir_path@,
    {
        &self.dir_path
    }

    /// The id of a bookmark that came at the time; `nanos` is the time in nanoseconds.
    pub fn new_id(now: i64, nanos: u128) -> (r: String)
        ensures
            r@ == "bm_"@ + text::int_text(now as int) + seq!['_'] + text::nat_text(
                (nanos % 1_000_000) as nat,
            ),
    {
        let mut r = "bm_".to_owned();
        r.push_str(&text::i64_text(now));
        r.push('_');
        r.push_str(&text::u64_text((nanos % 1_000_000) as u64));
        assert(r@ =~= "bm_"@ + text::int_text(now as int) + seq!['_'] + text::nat_text(
            (nanos % 1_000_000) as nat,
        ));
        r
    }

    pub(crate) fn find(&self, id: &str) -> (r: Option<usize>)
        ensures
            match r {
                Some(i) => find_id(self.list_view(), id@) == Some(i as int) && i < self.rows@.len()
                    && self.rows@[i as int].id@ == id@,
                None => find_id(self.list_view(), id@) is None,
            },
    {
        proof {
            rows::lemma_mapped_index(self.rows@, as_bookmark(), id_key(), v_id(), id@, 0);
        }
        let mut i: usize = 0;
        while i < self.rows.len()
            invariant
                i <= self.rows.len(),
                find_id(self.list_view(), id@) == rows::row_index(
                    self.rows@,
                    id_key(),
                    id@,
                    i as int,
                ),
            decreases self.rows.len() - i,
        {
            if text::str_eq(&self.rows[i].id, id) {
                return Some(i);
            }
            i += 1;
        }
        None
    }

    pub(crate) fn find_page(&self, url: &str) -> (r: Option<usize>)
        ensures
            match r {
                Some(i) => find_url(self.list_view(), url@) == Some(i as int) && i
                    < self.rows@.len() && opt_view(self.rows@[i as int].canonical_url) == Some(
                    url@,
                ),
                None => find_url(self.list_view(), url@) is None,
            },
    {
        proof {
            rows::lemma_mapped_index(
                self.rows@,
                as_bookmark(),
                url_key(),
                v_url(),
                Some(url@),
                0,
            );
        }
        let mut i: usize = 0;
        while i < self.rows.len()
            invariant
                i <= self.rows.len(),
                find_url(self.list_view(), url@) == rows::row_index(
                    self.rows@,
                    url_key(),
                    Some(url@),
                    i as int,
                ),
            decreases self.rows.len() - i,
        {
            let same = match &self.rows[i].canonical_url {
                Some(u) => text::str_eq(u, url),
                None => false,
            };
            if same {
                return Some(i);
            }
            i += 1;
        }
        None
    }

    /// Adds a bookmark. One whose id or page is there, or that has no page, is refused.
    pub fn insert(&mut self, b: &Bookmark) -> (r: Result<(), String>)
        requires
            old(self).wf(),
        ensures
            final(self).wf(),
            final(self).dir_path == old(self).dir_path,
            match r {
                Ok(_) => insert_error(old(self).list_view(), bookmark_view(*b)) is None
                    && final(self).rows@ == old(self).rows@.push(*b),
                Err(e) => insert_error(old(self).list_view(), bookmark_view(*b)) == Some(e@)
                    && *final(self) == *old(self),
            },
    {
        let url = match &b.canonical_url {
            Some(u) => u,
            None => {
                return Err(
                    "插入书签失败: NOT NULL constraint failed: bookmarks.canonical_url".to_owned(),
                );
            },
        };
        if self.find(&b.id).is_some() {
            return Err("插入书签失败: UNIQUE constraint failed: bookmarks.id".to_owned());
        }
        if self.find_page(url).is_some() {
            return Err("插入书签失败: UNIQUE constraint failed: bookmarks.canonical_url".to_owned());
        }
        proof {
            rows::lemma_mapped_index(self.rows@, as_bookmark(), id_key(), v_id(), b.id@, 0);
            rows::lemma_mapped_index(
                self.rows@,
                as_bookmark(),
                url_key(),
                v_url(),
                Some(url@),
                0,
            );
            rows::lemma_unique_push(self.rows@, id_key(), *b);
            rows::lemma_unique_push(self.rows@, url_key(), *b);
        }
        self.rows.push(b.clone());
        Ok(())
    }

    /// The bookmark with the id.
    pub fn get(&self, id: &str) -> (r: Option<Bookmark>)
        ensures
            match r {
                Some(b) => find_id(self.list_view(), id@) matches Some(i) && b == self.rows@[i],
                None => find_id(self.list_view(), id@) is None,
            },
    {
        match self.find(id) {
            Some(i) => Some(self.rows[i].clone()),
            None => None,
        }
    }

    /// The bookmark of a page.
    pub fn get_by_canonical_url(&self, canonical_url: &str) -> (r: Option<Bookmark>)
        ensures
            match r {
                Some(b) => find_url(self.list_view(), canonical_url@) matches Some(i) && b
                    == self.rows@[i],
                None => find_url(self.list_view(), canonical_url@) is None,
            },
    {
        match self.find_page(canonical_url) {
            Some(i) => Some(self.rows[i].clone()),
            None => None,
        }
    }

    /// All bookmarks, as they came.
    pub fn all(&self) -> (r: Vec<Bookmark>)
        ensures
            r@ == self.rows@,
    {
        let mut out: Vec<Bookmark> = Vec::new();
        let mut i: usize = 0;
        while i < self.rows.len()
            invariant
                i <= self.rows.len(),
                out@ == self.rows@.take(i as int),
            decreases self.rows.len() - i,
        {
            assert(self.rows@.take(i + 1) =~= self.rows@.take(i as int).push(self.rows@[i as int]));
            out.push(self.rows[i].clone());
            i += 1;
        }
        assert(self.rows@.take(i as int) =~= self.rows@);
        out
    }

    /// The bookmarks that wait to be worked on, those that came first first.
    pub fn claim_pending(&self, limit: usize) -> (r: Vec<Bookmark>)
        ensures
            r@ == oldest(rows::kept(self.rows@, in_state(STATUS_PENDING@)), limit as nat),
    {
        let ghost p = in_state(STATUS_PENDING@);
        let mut hits: Vec<Bookmark> = Vec::new();
        let mut i: usize = 0;
        while i < self.rows.len()
            invariant
                i <= self.rows.len(),
                p == in_state(STATUS_PENDING@),
                hits@ == rows::kept(self.rows@.take(i as int), p),
            decreases self.rows.len() - i,
        {
            proof {
                assert(self.rows@.take(i + 1) == self.rows@.take(i as int).push(
                    self.rows@[i as int],
                ));
                rows::lemma_kept_push(self.rows@.take(i as int), self.rows@[i as int], p);
            }
            if text::str_eq(&self.rows[i].status, STATUS_PENDING) {
                hits.push(self.rows[i].clone());
            }
            i += 1;
        }
        assert(self.rows@.take(i as int) == self.rows@);
        sort_oldest(&hits, limit)
    }

    fn put_row(&mut self, i: usize, b: Bookmark)
        requires
            old(self).wf(),
            i < old(self).rows@.len(),
            b.id@ == old(self).rows@[i as int].id@,
            b.canonical_url == old(self).rows@[i as int].canonical_url,
        ensures
            final(self).wf(),
            final(self).dir_path == old(self).dir_path,
            final(self).list_view() == old(self).list_view().update(i as int, bookmark_view(b)),
    {
        proof {
            rows::lemma_unique_update(self.rows@, id_key(), i as int, b);
            rows::lemma_unique_update(self.rows@, url_key(), i as int, b);
            rows::lemma_mapped_update(self.rows@, as_bookmark(), i as int, b);
        }
        self.rows.set(i, b);
    }

    /// Keeps what a page says.
    pub fn update_raw_content(&mut self, id: &str, raw_content: &str, now: i64)
        requires
            old(self).wf(),
        ensures
            final(self).wf(),
            final(self).dir_path == old(self).dir_path,
            final(self).list_view() == changed(
                old(self).list_view(),
                id@,
                with_raw_content(raw_content@, now),
            ),
    {
        if let Some(i) = self.find(id) {
            assert(self.list_view()[i as int] == bookmark_view(self.rows@[i as int]));
            let mut b = self.rows[i].clone();
            b.raw_content = Some(raw_content.to_owned());
            b.updated_at = now;
            self.put_row(i, b);
        }
    }

    /// Keeps what a page is summed up as.
    pub fn update_summary(
        &mut self,
        id: &str,
        summary: Option<String>,
        category: Option<String>,
        tags: Option<String>,
        now: i64,
    )
        requires
            old(self).wf(),
        ensures
            final(self).wf(),
            final(self).dir_path == old(self).dir_path,
            final(self).list_view() == changed(
                old(self).list_view(),
                id@,
                with_summary(opt_view(summary), opt_view(category), opt_view(tags), now),
            ),
    {
        if let Some(i) = self.find(id) {
            assert(self.list_view()[i as int] == bookmark_view(self.rows@[i as int]));
            let mut b = self.rows[i].clone();
            b.summary = summary;
            b.category = category;
            b.tags = tags;
            b.updated_at = now;
            self.put_row(i, b);
        }
    }

    /// Keeps the text that is embedded.
    pub fn update_embedding_text(&mut self, id: &str, t: &str, now: i64)
        requires
            old(self).wf(),
        ensures
            final(self).wf(),
            final(self).dir_path == old(self).dir_path,
            final(self).list_view() == changed(
                old(self).list_view(),
                id@,
                with_embedding_text(t@, now),
            ),
    {
        if let Some(i) = self.find(id) {
            assert(self.list_view()[i as int] == bookmark_view(self.rows@[i as int]));
            let mut b = self.rows[i].clone();
            b.embedding_text = Some(t.to_owned());
            b.updated_at = now;
            self.put_row(i, b);
        }
    }

    /// Says that all was done.
    pub fn mark_ready(&mut self, id: &str, now: i64)
        requires
            old(self).wf(),
        ensures
            final(self).wf(),
            final(self).dir_path == old(self).dir_path,
            final(self).list_view() == changed(old(self).list_view(), id@, made_ready(now)),
    {
        if let Some(i) = self.find(id) {
            assert(self.list_view()[i as int] == bookmark_view(self.rows@[i as int]));
            let mut b = self.rows[i].clone();
            b.status = STATUS_READY.to_owned();
            b.last_error = None;
            b.updated_at = now;
            self.put_row(i, b);
        }
    }

    /// Says that something failed, and whether the page is gone.
    pub fn mark_failed(&mut self, id: &str, error: &str, dead: bool, now: i64)
        requires
            old(self).wf(),
        ensures
            final(self).wf(),
            final(self).dir_path == old(self).dir_path,
            final(self).list_view() == changed(
                old(self).list_view(),
                id@,
                made_failed(error@, dead, now),
            ),
    {
        if let Some(i) = self.find(id) {
            assert(self.list_view()[i as int] == bookmark_view(self.rows@[i as int]));
            let mut b = self.rows[i].clone();
            b.status = STATUS_FAILED.to_owned();
            b.dead = dead;
            b.last_error = Some(error.to_owned());
            b.updated_at = now;
            self.put_row(i, b);
        }
    }

    /// The bookmarks that meet the wishes, those that were changed last first. The folder is
    /// the beginning of one; a wish for nothing is none.
    pub fn list(
        &self,
        folder: Option<&str>,
        category: Option<&str>,
        status: Option<&str>,
        limit: usize,
    ) -> (r: Vec<Bookmark>)
        ensures
            r@ == latest(
                rows::kept(
                    self.rows@,
                    listed(str_opt(folder), str_opt(category), str_opt(status)),
                ),
                capped(limit, LIST_LIMIT),
            ),
            rows::is_top(
                self.rows@.filter(said::is_listed(folder, category, status)),
                said::lateness(),
                if limit < 500 {
                    limit as nat
                } else {
                    500
                },
                r@,
            ),
    {
        proof {
            said::law_a_list_holds_what_is_wished_for(
                self.rows@,
                folder,
                category,
                status,
                capped(limit, LIST_LIMIT),
            );
        }
        let ghost p = listed(str_opt(folder), str_opt(category), str_opt(status));
        let mut hits: Vec<Bookmark> = Vec::new();
        let mut i: usize = 0;
        while i < self.rows.len()
            invariant
                i <= self.rows.len(),
                p == listed(str_opt(folder), str_opt(category), str_opt(status)),
                hits@ == rows::kept(self.rows@.take(i as int), p),
            decreases self.rows.len() - i,
        {
            let b = &self.rows[i];
            proof {
                assert(self.rows@.take(i + 1) == self.rows@.take(i as int).push(*b));
                rows::lemma_kept_push(self.rows@.take(i as int), *b, p);
            }
            let state = Some(b.status.clone());
            if lies_under(folder, &b.browser_folder) && meets(category, &b.category) && meets(
                status,
                &state,
            ) {
                hits.push(b.clone());
            }
            i += 1;
        }
        assert(self.rows@.take(i as int) == self.rows@);
        let n = if limit < LIST_LIMIT {
            limit
        } else {
            LIST_LIMIT
        };
        sort_latest(&hits, n)
    }

    /// How many bookmarks there are of each kind.
    pub fn stats(&self) -> (r: BookmarkStats)
        ensures
            r.total == self.rows@.len(),
            r.ready == rows::kept(self.rows@, in_state(STATUS_READY@)).len(),
            r.pending == rows::kept(self.rows@, in_state(STATUS_PENDING@)).len(),
            r.failed == rows::kept(self.rows@, in_state(STATUS_FAILED@)).len(),
            r.dead == rows::kept(self.rows@, is_dead()).len(),
    {
        let mut s = BookmarkStats {
            total: self.rows.len() as u64,
            ready: 0,
            pending: 0,
            failed: 0,
            dead: 0,
        };
        let mut i: usize = 0;
        while i < self.rows.len()
            invariant
                i <= self.rows.len(),
                s.total == self.rows@.len(),
                s.ready <= i,
                s.pending <= i,
                s.failed <= i,
                s.dead <= i,
                s.ready == rows::kept(self.rows@.take(i as int), in_state(STATUS_READY@)).len(),
                s.pending == rows::kept(
                    self.rows@.take(i as int),
                    in_state(STATUS_PENDING@),
                ).len(),
                s.failed == rows::kept(self.rows@.take(i as int), in_state(STATUS_FAILED@)).len(),
                s.dead == rows::kept(self.rows@.take(i as int), is_dead()).len(),
            decreases self.rows.len() - i,
        {
            let b = &self.rows[i];
            proof {
                let before = self.rows@.take(i as int);
                assert(self.rows@.take(i + 1) == before.push(*b));
                rows::lemma_kept_push(before, *b, in_state(STATUS_READY@));
                rows::lemma_kept_push(before, *b, in_state(STATUS_PENDING@));
                rows::lemma_kept_push(before, *b, in_state(STATUS_FAILED@));
                rows::lemma_kept_push(before, *b, is_dead());
            }
            if text::str_eq(&b.status, STATUS_READY) {
                s.ready = s.ready + 1;
            }
            if text::str_eq(&b.status, STATUS_PENDING) {
                s.pending = s.pending + 1;
            }
            if text::str_eq(&b.status, STATUS_FAILED) {
                s.failed = s.failed + 1;
            }
            if b.dead {
                s.dead = s.dead + 1;
            }
            i += 1;
        }
        assert(self.rows@.take(i as int) == self.rows@);
        s
    }

    /// The bookmarks that have the keyword in their title, summary, category or tags, those
    /// that were changed last first.
    pub fn search(
        &self,
        query: &str,
        limit: usize,
        category: Option<&str>,
        folder: Option<&str>,
    ) -> (r: Vec<BookmarkSearchHit>)
        ensures
            r@ == hits_of(
                latest(
                    rows::kept(self.rows@, found(query@, str_opt(category), str_opt(folder))),
                    capped(limit, SEARCH_LIMIT),
                ),
            ),
            said::is_answer(
                self.rows@,
                query@,
                category,
                folder,
                if limit < 20 {
                    limit as nat
                } else {
                    20
                },
                r@,
            ),
    {
        let ghost p = found(query@, str_opt(category), str_opt(folder));
        let mut pattern = "%".to_owned();
        pattern.push_str(&escape_like(query));
        pattern.push('%');
        proof {
            reveal_strlit("%");
            assert(pattern@ =~= keyword_pattern(query@));
        }
        let mut hits: Vec<Bookmark> = Vec::new();
        let mut i: usize = 0;
        while i < self.rows.len()
            invariant
                i <= self.rows.len(),
                pattern@ == keyword_pattern(query@),
                p == found(query@, str_opt(category), str_opt(folder)),
                hits@ == rows::kept(self.rows@.take(i as int), p),
            decreases self.rows.len() - i,
        {
            let b = &self.rows[i];
            proof {
                assert(self.rows@.take(i + 1) == self.rows@.take(i as int).push(*b));
                rows::lemma_kept_push(self.rows@.take(i as int), *b, p);
            }
            let has = fits(&b.title, &pattern) || fits(&b.summary, &pattern) || fits(
                &b.category,
                &pattern,
            ) || fits(&b.tags, &pattern);
            if has && lies_under(folder, &b.browser_folder) && meets(category, &b.category) {
                hits.push(b.clone());
            }
            i += 1;
        }
        assert(self.rows@.take(i as int) == self.rows@);
        let n = if limit < SEARCH_LIMIT {
            limit
        } else {
            SEARCH_LIMIT
        };
        let list = sort_latest(&hits, n);
        proof {
            said::law_a_search_finds_what_holds_the_word(
                self.rows@,
                query@,
                category,
                folder,
                n as nat,
            );
        }
        let ghost want = hits_of(list@);
        let mut out: Vec<BookmarkSearchHit> = Vec::new();
        let mut j: usize = 0;
        while j < list.len()
            invariant
                j <= list.len(),
                want == hits_of(list@),
                out@ == want.take(j as int),
            decreases list.len() - j,
        {
            assert(want.take(j + 1) =~= want.take(j as int).push(want[j as int]));
            out.push(make_hit(&list[j]));
            j += 1;
        }
        assert(want.take(j as int) =~= want);
        out
    }
}

/// What has failed or is ready does not wait any more, and a failure writes neither a summary
/// nor a text to be embedded.
pub proof fn law_what_failed_does_not_wait(b: BookmarkV, error: Seq<char>, dead: bool, now: i64)
    ensures
        made_failed(error, dead, now)(b).status != STATUS_PENDING@,
        made_ready(now)(b).status != STATUS_PENDING@,
        made_failed(error, dead, now)(b).summary == b.summary,
        made_failed(error, dead, now)(b).embedding_text == b.embedding_text,
{
    reveal_strlit("pending");
    reveal_strlit("failed");
    reveal_strlit("ready");
    assert(STATUS_PENDING@.len() == 7);
    assert(STATUS_FAILED@.len() == 6);
    assert(STATUS_READY@.len() == 5);
}

} // verus!
