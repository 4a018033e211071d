//! Taking bookmarks in.

use crate::bookmark::said;
use crate::bookmark::store;
use crate::bookmark::store::{
    Bookmark, BookmarkEntry, BookmarkImportStats, BookmarkStore, BookmarkV, STATUS_PENDING,
};
use crate::bookmark::url;
use crate::graph::model::clone_opt;
use crate::graph::store::opt_view;
use crate::rows;
use crate::text;
use vstd::hash_set::StringHashSet;
use vstd::prelude::*;

verus! {

/// How many bookmarks are taken in at a time.
pub const MAX_IMPORT_ENTRIES: usize = 50_000;

/// The bookmarks and what became of those that came.
pub struct ImportV {
    pub rows: Seq<BookmarkV>,
    pub inserted: nat,
    pub skipped: nat,
    pub failed: nat,
    /// What was wrong, where an id was taken.
    pub error: Option<Seq<char>>,
}

/// The bookmark that an entry becomes.
pub open spec fn new_bookmark(
    e: BookmarkEntry,
    id: Seq<char>,
    canonical: Seq<char>,
    source_file: Option<Seq<char>>,
    now: i64,
) -> BookmarkV {
    BookmarkV {
        id,
        url: text::trim(e.url@),
        canonical_url: Some(canonical),
        title: opt_view(e.title),
        browser_folder: opt_view(e.folder),
        added_at: e.added_at,
        source_file,
        category: None,
        summary: None,
        tags: None,
        raw_content: None,
        embedding_text: None,
        status: STATUS_PENDING@,
        dead: false,
        last_error: None,
        revision: 1,
        created_at: now,
        updated_at: now,
    }
}

/// All after an entry came: one without a good address fails, one whose page is there is
/// skipped, and another is added.
pub open spec fn imported(
    v: ImportV,
    e: BookmarkEntry,
    id: Seq<char>,
    source_file: Option<Seq<char>>,
    now: i64,
) -> ImportV {
    if v.error is Some {
        v
    } else {
        match url::normalized(e.url@) {
            Err(_) => ImportV { failed: v.failed + 1, ..v },
            Ok(c) => if store::find_url(v.rows, c) is Some {
                ImportV { skipped: v.skipped + 1, ..v }
            } else {
                let b = new_bookmark(e, id, c, source_file, now);
                match store::insert_error(v.rows, b) {
                    Some(x) => ImportV { error: Some(x), ..v },
                    None => ImportV { rows: v.rows.push(b), inserted: v.inserted + 1, ..v },
                }
            },
        }
    }
}

/// All after the first `n` entries came.
pub open spec fn all_imported(
    v: ImportV,
    es: Seq<BookmarkEntry>,
    ids: Seq<String>,
    n: int,
    source_file: Option<Seq<char>>,
    now: i64,
) -> ImportV
    decreases n,
{
    if n <= 0 {
        v
    } else {
        imported(
            all_imported(v, es, ids, n - 1, source_file, now),
            es[n - 1],
            ids[n - 1]@,
            source_file,
            now,
        )
    }
}

pub open spec fn import_start(bs: Seq<BookmarkV>) -> ImportV {
    ImportV { rows: bs, inserted: 0, skipped: 0, failed: 0, error: None }
}

/// How many of so many entries are taken in.
pub open spec fn taken(n: nat) -> int {
    if n < MAX_IMPORT_ENTRIES {
        n as int
    } else {
        MAX_IMPORT_ENTRIES as int
    }
}

enum Fate {
    Inserted,
    Skipped,
    Failed,
    Broken(String),
}

/// Whatever became of entries, each was added, skipped or failed, until an id was taken.
pub proof fn law_every_entry_is_counted(
    bs: Seq<BookmarkV>,
    es: Seq<BookmarkEntry>,
    ids: Seq<String>,
    n: int,
    source_file: Option<Seq<char>>,
    now: i64,
)
    requires
        0 <= n <= es.len(),
    ensures
        ({
            let v = all_imported(import_start(bs), es, ids, n, source_file, now);
            &&& v.error is None ==> v.inserted + v.skipped + v.failed == n
            &&& v.inserted + v.skipped + v.failed <= n
            &&& v.rows.len() == bs.len() + v.inserted
        }),
    decreases n,
{
    if n > 0 {
        law_every_entry_is_counted(bs, es, ids, n - 1, source_file, now);
    }
}

/// A page that is there stays there, and what is kept of it stays as it is.
pub proof fn law_what_is_there_stays(
    v: ImportV,
    es: Seq<BookmarkEntry>,
    ids: Seq<String>,
    n: int,
    source_file: Option<Seq<char>>,
    now: i64,
)
    requires
        0 <= n <= es.len(),
    ensures
        ({
            let r = all_imported(v, es, ids, n, source_file, now);
            &&& v.rows.len() <= r.rows.len()
            &&& r.rows.take(v.rows.len() as int) == v.rows
        }),
    decreases n,
{
    if n > 0 {
        law_what_is_there_stays(v, es, ids, n - 1, source_file, now);
        let before = all_imported(v, es, ids, n - 1, source_file, now);
        let r = all_imported(v, es, ids, n, source_file, now);
        assert(r.rows.take(v.rows.len() as int) =~= before.rows.take(v.rows.len() as int));
    } else {
        assert(v.rows.take(v.rows.len() as int) =~= v.rows);
    }
}

proof fn lemma_found_stays(a: Seq<BookmarkV>, b: Seq<BookmarkV>, c: Seq<char>)
    requires
        a.len() <= b.len(),
        b.take(a.len() as int) == a,
        store::find_url(a, c) is Some,
    ensures
        store::find_url(b, c) is Some,
{
    rows::lemma_row_index(a, store::v_url(), Some(c), 0);
    rows::lemma_row_index(b, store::v_url(), Some(c), 0);
    let i = store::find_url(a, c)->0;
    assert(b.take(a.len() as int)[i] == b[i]);
    assert(store::v_url()(b[i]) == Some(c));
}

/// When entries have come, the page of each that has a good address is there.
proof fn lemma_pages_are_there(
    v: ImportV,
    es: Seq<BookmarkEntry>,
    ids: Seq<String>,
    n: int,
    source_file: Option<Seq<char>>,
    now: i64,
    k: int,
)
    requires
        0 <= k < n <= es.len(),
        all_imported(v, es, ids, n, source_file, now).error is None,
        url::normalized(es[k].url@) is Ok,
    ensures
        store::find_url(
            all_imported(v, es, ids, n, source_file, now).rows,
            url::normalized(es[k].url@)->Ok_0,
        ) is Some,
    decreases n,
{
    let before = all_imported(v, es, ids, n - 1, source_file, now);
    let after = all_imported(v, es, ids, n, source_file, now);
    let c = url::normalized(es[k].url@)->Ok_0;
    if k < n - 1 {
        lemma_pages_are_there(v, es, ids, n - 1, source_file, now, k);
        assert(after.rows.take(before.rows.len() as int) =~= before.rows);
        lemma_found_stays(before.rows, after.rows, c);
    } else if store::find_url(before.rows, c) is None {
        rows::lemma_row_index(after.rows, store::v_url(), Some(c), 0);
        assert(store::v_url()(after.rows[before.rows.len() as int]) == Some(c));
    }
}

/// Taking the same entries in again adds nothing, whatever ids they would get.
pub proof fn law_taking_in_again_adds_nothing(
    bs: Seq<BookmarkV>,
    es: Seq<BookmarkEntry>,
    ids: Seq<String>,
    again: Seq<String>,
    n: int,
    source_file: Option<Seq<char>>,
    now: i64,
    later: i64,
    m: int,
)
    requires
        0 <= m <= n <= es.len(),
        all_imported(import_start(bs), es, ids, n, source_file, now).error is None,
    ensures
        ({
            let first = all_imported(import_start(bs), es, ids, n, source_file, now);
            let second = all_imported(
                import_start(first.rows),
                es,
                again,
                m,
                source_file,
                later,
            );
            &&& second.rows == first.rows
            &&& second.inserted == 0
            &&& second.error is None
        }),
    decreases m,
{
    if m > 0 {
        law_taking_in_again_adds_nothing(
            bs,
            es,
            ids,
            again,
            n,
            source_file,
            now,
            later,
            m - 1,
        );
        if url::normalized(es[m - 1].url@) is Ok {
            lemma_pages_are_there(import_start(bs), es, ids, n, source_file, now, m - 1);
        }
    }
}

/// Whether the sets hold the pages and the ids of the bookmarks.
pub open spec fn are_known(bs: Seq<BookmarkV>, pages: Set<Seq<char>>, names: Set<Seq<char>>) -> bool {
    &&& forall|c: Seq<char>| #[trigger] pages.contains(c) <==> store::find_url(bs, c) is Some
    &&& forall|n: Seq<char>| #[trigger] names.contains(n) <==> store::find_id(bs, n) is Some
}

proof fn lemma_known_push(
    bs: Seq<BookmarkV>,
    b: BookmarkV,
    pages: Set<Seq<char>>,
    names: Set<Seq<char>>,
    c: Seq<char>,
)
    requires
        are_known(bs, pages, names),
        b.canonical_url == Some(c),
    ensures
        are_known(bs.push(b), pages.insert(c), names.insert(b.id)),
{
    let more = bs.push(b);
    assert forall|x: Seq<char>| #[trigger] pages.insert(c).contains(x) <==> store::find_url(more, x)
        is Some by {
        rows::lemma_row_index(bs, store::v_url(), Some(x), 0);
        rows::lemma_row_index(more, store::v_url(), Some(x), 0);
        assert(pages.contains(x) <==> store::find_url(bs, x) is Some);
        match store::find_url(bs, x) {
            Some(i) => {
                assert(store::v_url()(more[i]) == Some(x));
            },
            None => {
                if x == c {
                    assert(store::v_url()(more[bs.len() as int]) == Some(x));
                } else if let Some(i) = store::find_url(more, x) {
                    if i < bs.len() {
                        assert(store::v_url()(bs[i]) == Some(x));
                    }
                }
            },
        }
    }
    assert forall|x: Seq<char>| #[trigger] names.insert(b.id).contains(x) <==> store::find_id(
        more,
        x,
    ) is Some by {
        rows::lemma_row_index(bs, store::v_id(), x, 0);
        rows::lemma_row_index(more, store::v_id(), x, 0);
        assert(names.contains(x) <==> store::find_id(bs, x) is Some);
        match store::find_id(bs, x) {
            Some(i) => {
                assert(store::v_id()(more[i]) == x);
            },
            None => {
                if x == b.id {
                    assert(store::v_id()(more[bs.len() as int]) == x);
                } else if let Some(i) = store::find_id(more, x) {
                    if i < bs.len() {
                        assert(store::v_id()(bs[i]) == x);
                    }
                }
            },
        }
    }
}

/// The bookmarks while they are taken in, with their pages and ids at hand.
struct Intake {
    list: BookmarkStore,
    pages: StringHashSet,
    names: StringHashSet,
}

impl Intake {
    spec fn wf(&self) -> bool {
        self.list.wf() && are_known(self.list.list_view(), self.pages@, self.names@)
    }

    fn new(list: BookmarkStore) -> (r: Self)
        requires
            list.wf(),
        ensures
            r.wf(),
            r.list == list,
    {
        let mut pages = StringHashSet::new();
        let mut names = StringHashSet::new();
        let ghost all = list.list_view();
        let mut i: usize = 0;
        while i < list.rows.len()
            invariant
                i <= list.rows.len(),
                list.wf(),
                all == list.list_view(),
                are_known(all.take(i as int), pages@, names@),
            decreases list.rows.len() - i,
        {
            let ghost b = list.rows@[i as int];
            proof {
                assert(b.canonical_url is Some);
                assert(all[i as int] == store::bookmark_view(b));
                assert(all.take(i + 1) =~= all.take(i as int).push(all[i as int]));
            }
            if let Some(u) = &list.rows[i].canonical_url {
                proof {
                    lemma_known_push(all.take(i as int), all[i as int], pages@, names@, u@);
                }
                pages.insert(u.clone());
            }
            names.insert(list.rows[i].id.clone());
            i += 1;
        }
        assert(all.take(i as int) =~= all);
        Intake { list, pages, names }
    }

    fn import_one(
        &mut self,
        e: &BookmarkEntry,
        id: &String,
        source_file: Option<&str>,
        now: i64,
    ) -> (r: Fate)
        requires
            old(self).wf(),
        ensures
            final(self).wf(),
            final(self).list.dir_path == old(self).list.dir_path,
            ({
                let v = import_start(old(self).list.list_view());
                let w = imported(v, *e, id@, store::str_opt(source_file), now);
                &&& final(self).list.list_view() == w.rows
                &&& match r {
                    Fate::Inserted => w.inserted == 1 && w.skipped == 0 && w.failed == 0
                        && w.error is None,
                    Fate::Skipped => w.inserted == 0 && w.skipped == 1 && w.failed == 0
                        && w.error is None,
                    Fate::Failed => w.inserted == 0 && w.skipped == 0 && w.failed == 1
                        && w.error is None,
                    Fate::Broken(x) => w.inserted == 0 && w.skipped == 0 && w.failed == 0
                        && w.error == Some(x@),
                }
            }),
    {
        let canonical = match url::normalize_url(&e.url) {
            Ok(c) => c,
            Err(_) => {
                return Fate::Failed;
            },
        };
        if self.pages.contains(&canonical) {
            return Fate::Skipped;
        }
        if self.names.contains(id) {
            return Fate::Broken("插入书签失败: UNIQUE constraint failed: bookmarks.id".to_owned());
        }
        let file = match source_file {
            Some(f) => Some(f.to_owned()),
            None => None,
        };
        let page = canonical.clone();
        let b = Bookmark {
            id: id.clone(),
            url: text::trim_space(&e.url),
            canonical_url: Some(canonical),
            title: clone_opt(&e.title),
            browser_folder: clone_opt(&e.folder),
            added_at: e.added_at,
            source_file: file,
            category: None,
            summary: None,
            tags: None,
            raw_content: None,
            embedding_text: None,
            status: STATUS_PENDING.to_owned(),
            dead: false,
            last_error: None,
            revision: 1,
            created_at: now,
            updated_at: now,
        };
        let ghost bv = store::bookmark_view(b);
        proof {
            assert(bv == new_bookmark(*e, id@, page@, store::str_opt(source_file), now));
            rows::lemma_mapped_push(self.list.rows@, store::as_bookmark(), b);
            lemma_known_push(self.list.list_view(), bv, self.pages@, self.names@, page@);
        }
        self.list.add_row(b);
        self.pages.insert(page);
        self.names.insert(id.clone());
        Fate::Inserted
    }
}

impl BookmarkStore {
    fn add_row(&mut self, b: Bookmark)
        requires
            old(self).wf(),
            store::insert_error(old(self).list_view(), store::bookmark_view(b)) is None,
        ensures
            final(self).wf(),
            final(self).dir_path == old(self).dir_path,
            final(self).rows@ == old(self).rows@.push(b),
    {
        proof {
            rows::lemma_mapped_index(
                self.rows@,
                store::as_bookmark(),
                store::id_key(),
                store::v_id(),
                b.id@,
                0,
            );
            rows::lemma_mapped_index(
                self.rows@,
                store::as_bookmark(),
                store::url_key(),
                store::v_url(),
                opt_view(b.canonical_url),
                0,
            );
            rows::lemma_unique_push(self.rows@, store::id_key(), b);
            rows::lemma_unique_push(self.rows@, store::url_key(), b);
        }
        self.rows.push(b);
    }

    /// The pages of all bookmarks.
    pub fn all_canonical_urls(&self) -> (r: StringHashSet)
        requires
            self.wf(),
        ensures
            forall|c: Seq<char>| #[trigger]
                r@.contains(c) <==> store::find_url(self.list_view(), c) is Some,
    {
        let copy = BookmarkStore { dir_path: self.dir_path.clone(), rows: self.all() };
        let known = Intake::new(copy);
        known.pages
    }

    /// Takes bookmarks in, at most so many at a time. There is an id for each. One whose page
    /// is there is left as it is. Where an id is taken, nothing is taken in.
    pub fn import_entries(
        &mut self,
        entries: &Vec<BookmarkEntry>,
        source_file: Option<&str>,
        ids: &Vec<String>,
        now: i64,
    ) -> (r: Result<BookmarkImportStats, String>)
        requires
            old(self).wf(),
            ids@.len() >= taken(entries@.len()),
        ensures
            final(self).wf(),
            final(self).dir_path == old(self).dir_path,
            ({
                let w = all_imported(
                    import_start(old(self).list_view()),
                    entries@,
                    ids@,
                    taken(entries@.len()),
                    store::str_opt(source_file),
                    now,
                );
                match r {
                    Ok(s) => {
                        &&& w.error is None
                        &&& final(self).list_view() == w.rows
                        &&& s.total == taken(entries@.len())
                        &&& s.inserted == w.inserted
                        &&& s.skipped == w.skipped
                        &&& s.failed == w.failed
                        &&& said::are_taken(
                            old(self).list_view(),
                            entries@,
                            ids@,
                            taken(entries@.len()),
                            store::str_opt(source_file),
                            now,
                            w,
                        )
                    },
                    Err(e) => w.error == Some(e@) && *final(self) == *old(self),
                }
            }),
    {
        proof {
            said::law_entries_become_bookmarks(
                self.list_view(),
                entries@,
                ids@,
                taken(entries@.len()),
                store::str_opt(source_file),
                now,
            );
        }
        let total: usize = if entries.len() < MAX_IMPORT_ENTRIES {
            entries.len()
        } else {
            MAX_IMPORT_ENTRIES
        };
        let ghost start = import_start(self.list_view());
        let ghost file = store::str_opt(source_file);
        let copy = BookmarkStore { dir_path: self.dir_path.clone(), rows: self.all() };
        let mut work = Intake::new(copy);
        let mut s = BookmarkImportStats { inserted: 0, skipped: 0, failed: 0, total };
        let mut i: usize = 0;
        while i < total
            invariant
                i <= total,
                total == taken(entries@.len()),
                total <= entries@.len(),
                ids@.len() >= total,
                *self == *old(self),
                old(self).wf(),
                work.wf(),
                work.list.dir_path == old(self).dir_path,
                start == import_start(old(self).list_view()),
                file == store::str_opt(source_file),
                s.total == total,
                s.inserted <= i,
                s.skipped <= i,
                s.failed <= i,
                ({
                    let w = all_imported(start, entries@, ids@, i as int, file, now);
                    &&& w.error is None
                    &&& work.list.list_view() == w.rows
                    &&& s.inserted == w.inserted
                    &&& s.skipped == w.skipped
                    &&& s.failed == w.failed
                }),
            decreases total - i,
        {
            match work.import_one(&entries[i], &ids[i], source_file, now) {
                Fate::Inserted => {
                    s.inserted = s.inserted + 1;
                },
                Fate::Skipped => {
                    s.skipped = s.skipped + 1;
                },
                Fate::Failed => {
                    s.failed = s.failed + 1;
                },
                Fate::Broken(x) => {
                    proof {
                        lemma_broken(start, entries@, ids@, i + 1, total as int, file, now);
                    }
                    return Err(x);
                },
            }
            i += 1;
        }
        *self = work.list;
        Ok(s)
    }
}

/// What is broken stays broken.
proof fn lemma_broken(
    v: ImportV,
    es: Seq<BookmarkEntry>,
    ids: Seq<String>,
    n: int,
    m: int,
    source_file: Option<Seq<char>>,
    now: i64,
)
    requires
        0 <= n <= m,
        all_imported(v, es, ids, n, source_file, now).error is Some,
    ensures
        all_imported(v, es, ids, m, source_file, now).error == all_imported(
            v,
            es,
            ids,
            n,
            source_file,
            now,
        ).error,
    decreases m - n,
{
    if n < m {
        lemma_broken(v, es, ids, n, m - 1, source_file, now);
    }
}

} // verus!
