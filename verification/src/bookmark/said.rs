//! What a search for bookmarks finds and what entries become, said of texts and rows alone.

use crate::bookmark::import;
use crate::bookmark::import::ImportV;
use crate::bookmark::store;
use crate::bookmark::store::{
    Bookmark, BookmarkEntry, BookmarkSearchHit, BookmarkV, STATUS_PENDING,
};
use crate::bookmark::url;
use crate::graph::lists;
use crate::graph::store::opt_view;
use crate::rows;
use crate::text;
use vstd::prelude::*;

verus! {

/// Whether the word stands in the text at the place, Latin letters in either case.
pub open spec fn stands_at(v: Seq<char>, word: Seq<char>, at: int) -> bool {
    &&& 0 <= at
    &&& at + word.len() <= v.len()
    &&& forall|j: int|
        0 <= j < word.len() ==> text::ascii_lower(v[at + j]) == text::ascii_lower(
            #[trigger] word[j],
        )
}

pub open spec fn has_word(v: Seq<char>, word: Seq<char>) -> bool {
    exists|at: int| #[trigger] stands_at(v, word, at)
}

proof fn lemma_pattern_first(s: Seq<char>)
    requires
        s.len() > 0,
    ensures
        store::pattern_text(s) == (if s[0] == '\\' || s[0] == '%' || s[0] == '_' {
            seq!['\\', s[0]]
        } else {
            seq![s[0]]
        }) + store::pattern_text(s.skip(1)),
    decreases s.len(),
{
    let first = if s[0] == '\\' || s[0] == '%' || s[0] == '_' {
        seq!['\\', s[0]]
    } else {
        seq![s[0]]
    };
    if s.len() == 1 {
        assert(s.drop_last() =~= Seq::empty());
        assert(s.skip(1) =~= Seq::empty());
        reveal_with_fuel(store::pattern_text, 2);
        assert(store::pattern_text(s) =~= first + store::pattern_text(s.skip(1)));
    } else {
        let init = s.drop_last();
        lemma_pattern_first(init);
        assert(init.skip(1) =~= s.skip(1).drop_last());
        assert(s.skip(1).last() == s.last());
        assert(store::pattern_text(s) =~= first + store::pattern_text(s.skip(1)));
    }
}

/// A text that is taken as it is fits where it stands.
proof fn lemma_like_plain(word: Seq<char>, rest: Seq<char>, v: Seq<char>)
    ensures
        lists::like(store::pattern_text(word) + rest, v) <==> stands_at(v, word, 0) && lists::like(
            rest,
            v.skip(word.len() as int),
        ),
    decreases word.len(),
{
    let p = store::pattern_text(word) + rest;
    if word.len() == 0 {
        assert(p =~= rest);
        assert(v.skip(0) =~= v);
    } else {
        lemma_pattern_first(word);
        let c = word[0];
        let tail = word.skip(1);
        let odd = c == '\\' || c == '%' || c == '_';
        if v.len() > 0 {
            lemma_like_plain(tail, rest, v.skip(1));
            if word.len() <= v.len() {
                assert(v.skip(1).skip(tail.len() as int) =~= v.skip(word.len() as int));
            }
            if odd {
                assert(p[0] == '\\' && p[1] == c);
                assert(p.skip(2) =~= store::pattern_text(tail) + rest);
            } else {
                assert(p[0] == c);
                assert(p.skip(1) =~= store::pattern_text(tail) + rest);
            }
            if stands_at(v, word, 0) {
                assert(text::ascii_lower(v[0]) == text::ascii_lower(word[0]));
                assert forall|j: int| 0 <= j < tail.len() implies text::ascii_lower(
                    v.skip(1)[0 + j],
                ) == text::ascii_lower(#[trigger] tail[j]) by {
                    assert(tail[j] == word[j + 1]);
                    assert(text::ascii_lower(v[j + 1]) == text::ascii_lower(word[j + 1]));
                }
                assert(stands_at(v.skip(1), tail, 0));
            }
            if text::ascii_lower(v[0]) == text::ascii_lower(c) && stands_at(v.skip(1), tail, 0) {
                assert forall|j: int| 0 <= j < word.len() implies text::ascii_lower(v[0 + j])
                    == text::ascii_lower(#[trigger] word[j]) by {
                    if j > 0 {
                        assert(tail[j - 1] == word[j]);
                        assert(text::ascii_lower(v.skip(1)[j - 1]) == text::ascii_lower(
                            tail[j - 1],
                        ));
                    }
                }
            }
        } else {
            assert(!stands_at(v, word, 0));
            assert(p[0] == c || p[0] == '\\');
        }
    }
}

proof fn lemma_like_any(v: Seq<char>)
    ensures
        lists::like(seq!['%'], v),
    decreases v.len(),
{
    let p = seq!['%'];
    reveal_with_fuel(lists::like, 2);
    assert(p.skip(1) =~= Seq::<char>::empty());
    if v.len() > 0 {
        lemma_like_any(v.skip(1));
    }
}

proof fn lemma_like_somewhere(p: Seq<char>, v: Seq<char>)
    requires
        p.len() > 0,
        p[0] == '%',
    ensures
        lists::like(p, v) <==> exists|at: int|
            0 <= at <= v.len() && lists::like(p.skip(1), #[trigger] v.skip(at)),
    decreases v.len(),
{
    assert(v.skip(0) =~= v);
    if v.len() > 0 {
        lemma_like_somewhere(p, v.skip(1));
        let rest = v.skip(1);
        if exists|at: int| 0 <= at <= rest.len() && lists::like(p.skip(1), #[trigger] rest.skip(at)) {
            let at = choose|at: int|
                0 <= at <= rest.len() && lists::like(p.skip(1), #[trigger] rest.skip(at));
            assert(rest.skip(at) =~= v.skip(at + 1));
        }
        if exists|at: int| 0 <= at <= v.len() && lists::like(p.skip(1), #[trigger] v.skip(at)) {
            let at = choose|at: int|
                0 <= at <= v.len() && lists::like(p.skip(1), #[trigger] v.skip(at));
            if at > 0 {
                assert(rest.skip(at - 1) =~= v.skip(at));
            }
        }
    } else {
        if exists|at: int| 0 <= at <= v.len() && lists::like(p.skip(1), #[trigger] v.skip(at)) {
            let at = choose|at: int|
                0 <= at <= v.len() && lists::like(p.skip(1), #[trigger] v.skip(at));
            assert(v.skip(at) =~= v);
        }
    }
}

/// A keyword is looked for as it is, whatever characters it has, and Latin letters count the
/// same in either case: a text fits exactly where it holds the keyword, and is under a folder
/// exactly where it begins with it.
pub proof fn law_a_keyword_is_taken_as_it_is(word: Seq<char>, v: Seq<char>)
    ensures
        lists::like(store::keyword_pattern(word), v) <==> has_word(v, word),
        lists::like(store::folder_pattern(word), v) <==> stands_at(v, word, 0),
{
    let any = seq!['%'];
    let p = store::keyword_pattern(word);
    let inner = store::pattern_text(word) + any;
    assert(p.skip(1) =~= inner);
    lemma_like_somewhere(p, v);
    lemma_like_plain(word, any, v);
    lemma_like_any(v.skip(word.len() as int));
    if lists::like(p, v) {
        let at = choose|at: int|
            0 <= at <= v.len() && lists::like(p.skip(1), #[trigger] v.skip(at));
        let w = v.skip(at);
        lemma_like_plain(word, any, w);
        assert forall|j: int| 0 <= j < word.len() implies text::ascii_lower(v[at + j])
            == text::ascii_lower(#[trigger] word[j]) by {
            assert(text::ascii_lower(w[0 + j]) == text::ascii_lower(word[j]));
        }
        assert(stands_at(v, word, at));
    }
    if has_word(v, word) {
        let at = choose|at: int| #[trigger] stands_at(v, word, at);
        let w = v.skip(at);
        assert forall|j: int| 0 <= j < word.len() implies text::ascii_lower(w[0 + j])
            == text::ascii_lower(#[trigger] word[j]) by {
            assert(text::ascii_lower(v[at + j]) == text::ascii_lower(word[j]));
        }
        assert(stands_at(w, word, 0));
        lemma_like_plain(word, any, w);
        lemma_like_any(w.skip(word.len() as int));
        assert(lists::like(p.skip(1), v.skip(at)));
    }
}

pub open spec fn holds(o: Option<String>, word: Seq<char>) -> bool {
    o matches Some(s) && has_word(s@, word)
}

/// Whether a wish for a folder or another text, where there is one, is met.
pub open spec fn is_in(folder: Option<&str>, b: Bookmark) -> bool {
    folder matches Some(f) ==> f@.len() == 0 || (b.browser_folder matches Some(x) && stands_at(
        x@,
        f@,
        0,
    ))
}

pub open spec fn is_of(category: Option<&str>, b: Bookmark) -> bool {
    category matches Some(c) ==> c@.len() == 0 || (b.category matches Some(x) && x@ == c@)
}

pub open spec fn is_at(status: Option<&str>, b: Bookmark) -> bool {
    status matches Some(s) ==> s@.len() == 0 || b.status@ == s@
}

/// What a search finds: the word in one of four texts, and the wishes met.
pub open spec fn is_found(
    query: Seq<char>,
    category: Option<&str>,
    folder: Option<&str>,
) -> spec_fn(Bookmark) -> bool {
    |b: Bookmark|
        (holds(b.title, query) || holds(b.summary, query) || holds(b.category, query) || holds(
            b.tags,
            query,
        )) && is_in(folder, b) && is_of(category, b)
}

pub open spec fn is_listed(
    folder: Option<&str>,
    category: Option<&str>,
    status: Option<&str>,
) -> spec_fn(Bookmark) -> bool {
    |b: Bookmark| is_in(folder, b) && is_of(category, b) && is_at(status, b)
}

pub open spec fn lateness() -> spec_fn(Bookmark) -> int {
    |b: Bookmark| b.updated_at as int
}

/// Whether hits are what a search shows: the bookmarks that it finds, those that were changed
/// last first and no more than so many.
pub open spec fn is_answer(
    all: Seq<Bookmark>,
    query: Seq<char>,
    category: Option<&str>,
    folder: Option<&str>,
    limit: nat,
    r: Seq<BookmarkSearchHit>,
) -> bool {
    exists|list: Seq<Bookmark>| #[trigger]
        rows::is_top(all.filter(is_found(query, category, folder)), lateness(), limit, list)
            && list.len() == r.len() && forall|i: int|
            0 <= i < r.len() ==> shows(#[trigger] r[i], list[i])
}

pub open spec fn shows(h: BookmarkSearchHit, b: Bookmark) -> bool {
    h.id == b.id && h.title == b.title && h.url == b.url && h.summary == b.summary && h.tags
        == b.tags && h.category == b.category && h.status == b.status && h.dead == b.dead
}

/// A search finds the bookmarks that hold the word, those that were changed last first.
pub proof fn law_a_search_finds_what_holds_the_word(
    all: Seq<Bookmark>,
    query: Seq<char>,
    category: Option<&str>,
    folder: Option<&str>,
    limit: nat,
)
    ensures
        rows::is_top(
            all.filter(is_found(query, category, folder)),
            lateness(),
            limit,
            store::latest(
                rows::kept(
                    all,
                    store::found(query, store::str_opt(category), store::str_opt(folder)),
                ),
                limit,
            ),
        ),
{
    let p = store::found(query, store::str_opt(category), store::str_opt(folder));
    let q = is_found(query, category, folder);
    assert forall|i: int| 0 <= i < all.len() implies p(#[trigger] all[i]) == q(all[i]) by {
        let b = all[i];
        if let Some(s) = b.title {
            law_a_keyword_is_taken_as_it_is(query, s@);
        }
        if let Some(s) = b.summary {
            law_a_keyword_is_taken_as_it_is(query, s@);
        }
        if let Some(s) = b.category {
            law_a_keyword_is_taken_as_it_is(query, s@);
        }
        if let Some(s) = b.tags {
            law_a_keyword_is_taken_as_it_is(query, s@);
        }
        lemma_wishes(b, folder);
    }
    rows::lemma_kept_same(all, p, q);
    let hits = rows::kept(all, p);
    rows::lemma_top(hits, lateness(), store::latest_keys(hits), limit);
}

proof fn lemma_wishes(b: Bookmark, folder: Option<&str>)
    ensures
        store::is_under(store::str_opt(folder), opt_view(b.browser_folder)) <==> is_in(folder, b),
{
    if let Some(f) = folder {
        if let Some(x) = b.browser_folder {
            law_a_keyword_is_taken_as_it_is(f@, x@);
        }
    }
}

/// A list holds the bookmarks that meet the wishes, those that were changed last first.
pub proof fn law_a_list_holds_what_is_wished_for(
    all: Seq<Bookmark>,
    folder: Option<&str>,
    category: Option<&str>,
    status: Option<&str>,
    limit: nat,
)
    ensures
        rows::is_top(
            all.filter(is_listed(folder, category, status)),
            lateness(),
            limit,
            store::latest(
                rows::kept(
                    all,
                    store::listed(
                        store::str_opt(folder),
                        store::str_opt(category),
                        store::str_opt(status),
                    ),
                ),
                limit,
            ),
        ),
{
    let p = store::listed(
        store::str_opt(folder),
        store::str_opt(category),
        store::str_opt(status),
    );
    let q = is_listed(folder, category, status);
    assert forall|i: int| 0 <= i < all.len() implies p(#[trigger] all[i]) == q(all[i]) by {
        lemma_wishes(all[i], folder);
    }
    rows::lemma_kept_same(all, p, q);
    let hits = rows::kept(all, p);
    rows::lemma_top(hits, lateness(), store::latest_keys(hits), limit);
}

// ---- What entries become

/// Whether a bookmark is what the entry becomes.
pub open spec fn comes_from(
    b: BookmarkV,
    e: BookmarkEntry,
    id: Seq<char>,
    source_file: Option<Seq<char>>,
    now: i64,
) -> bool {
    &&& b.id == id
    &&& text::is_trimmed(e.url@, text::space(), b.url)
    &&& url::normalized(e.url@) matches Ok(c) && b.canonical_url == Some(c)
    &&& b.title == opt_view(e.title)
    &&& b.browser_folder == opt_view(e.folder)
    &&& b.added_at == e.added_at
    &&& b.source_file == source_file
    &&& b.status == STATUS_PENDING@
    &&& !b.dead
    &&& b.summary is None && b.category is None && b.tags is None
    &&& b.raw_content is None && b.embedding_text is None && b.last_error is None
    &&& b.created_at == now && b.updated_at == now
}

pub open spec fn is_bad() -> spec_fn(BookmarkEntry) -> bool {
    |e: BookmarkEntry| url::normalized(e.url@) is Err
}

/// Whether the page of an address is kept.
pub open spec fn is_kept(bs: Seq<BookmarkV>, c: Seq<char>) -> bool {
    exists|i: int| 0 <= i < bs.len() && (#[trigger] bs[i]).canonical_url == Some(c)
}

/// Whether the bookmarks behind the first are what entries become: each from an entry whose
/// page was not kept before, in the order of the entries; `from` tells which.
pub open spec fn are_from(
    bs: Seq<BookmarkV>,
    es: Seq<BookmarkEntry>,
    ids: Seq<String>,
    n: int,
    source_file: Option<Seq<char>>,
    now: i64,
    after: Seq<BookmarkV>,
    from: Seq<int>,
) -> bool {
    &&& after.len() == bs.len() + from.len()
    &&& after.take(bs.len() as int) == bs
    &&& forall|j: int|
        0 <= j < from.len() ==> 0 <= #[trigger] from[j] < n && comes_from(
            after[bs.len() + j],
            es[from[j]],
            ids[from[j]]@,
            source_file,
            now,
        )
    &&& forall|i: int, j: int| 0 <= i < j < from.len() ==> #[trigger] from[i] < #[trigger] from[j]
}

/// Whether entries were taken in: the bad addresses are counted, each new page is kept once as
/// a bookmark, and the page of every other entry is kept.
pub open spec fn are_taken(
    bs: Seq<BookmarkV>,
    es: Seq<BookmarkEntry>,
    ids: Seq<String>,
    n: int,
    source_file: Option<Seq<char>>,
    now: i64,
    v: ImportV,
) -> bool {
    &&& exists|from: Seq<int>| #[trigger]
        are_from(bs, es, ids, n, source_file, now, v.rows, from) && v.inserted == from.len()
    &&& v.error is None ==> v.failed == es.take(n).filter(is_bad()).len()
    &&& v.error is None ==> forall|k: int|
        0 <= k < n ==> (url::normalized((#[trigger] es[k]).url@) matches Ok(c) ==> is_kept(
            v.rows,
            c,
        ))
}

proof fn lemma_kept(bs: Seq<BookmarkV>, c: Seq<char>)
    ensures
        is_kept(bs, c) <==> store::find_url(bs, c) is Some,
{
    rows::lemma_row_index(bs, store::v_url(), Some(c), 0);
    if let Some(i) = store::find_url(bs, c) {
        assert(bs[i].canonical_url == Some(c));
    } else {
        assert forall|i: int| 0 <= i < bs.len() implies (#[trigger] bs[i]).canonical_url != Some(
            c,
        ) by {
            assert(store::v_url()(bs[i]) != Some(c));
        }
    }
}

/// Taking entries in keeps each new page once, as it was given, and counts the bad addresses.
pub proof fn law_entries_become_bookmarks(
    bs: Seq<BookmarkV>,
    es: Seq<BookmarkEntry>,
    ids: Seq<String>,
    n: int,
    source_file: Option<Seq<char>>,
    now: i64,
)
    requires
        0 <= n <= es.len(),
    ensures
        are_taken(
            bs,
            es,
            ids,
            n,
            source_file,
            now,
            import::all_imported(import::import_start(bs), es, ids, n, source_file, now),
        ),
    decreases n,
{
    let v = import::all_imported(import::import_start(bs), es, ids, n, source_file, now);
    reveal(Seq::filter);
    if n == 0 {
        assert(bs.take(bs.len() as int) =~= bs);
        assert(are_from(bs, es, ids, n, source_file, now, v.rows, Seq::empty()));
    } else {
        law_entries_become_bookmarks(bs, es, ids, n - 1, source_file, now);
        let w = import::all_imported(import::import_start(bs), es, ids, n - 1, source_file, now);
        let e = es[n - 1];
        let from = choose|from: Seq<int>| #[trigger]
            are_from(bs, es, ids, n - 1, source_file, now, w.rows, from) && w.inserted
                == from.len();
        assert(es.take(n).drop_last() =~= es.take(n - 1));
        assert(es.take(n).last() == e);
        if v.rows == w.rows {
            assert(are_from(bs, es, ids, n, source_file, now, v.rows, from));
        } else {
            let b = v.rows.last();
            assert(v.rows == w.rows.push(b));
            text::law_trim_takes_the_ends(e.url@, text::space());
            let more = from.push(n - 1);
            assert(v.rows.take(bs.len() as int) =~= w.rows.take(bs.len() as int));
            assert forall|j: int| 0 <= j < more.len() implies 0 <= #[trigger] more[j] < n
                && comes_from(v.rows[bs.len() + j], es[more[j]], ids[more[j]]@, source_file, now) by {
                if j < from.len() {
                    assert(more[j] == from[j]);
                    assert(v.rows[bs.len() + j] == w.rows[bs.len() + j]);
                }
            }
            assert(are_from(bs, es, ids, n, source_file, now, v.rows, more));
        }
        if v.error is None {
            assert forall|k: int| 0 <= k < n implies (url::normalized(
                (#[trigger] es[k]).url@,
            ) matches Ok(c) ==> is_kept(v.rows, c)) by {
                if let Ok(c) = url::normalized(es[k].url@) {
                    if k < n - 1 {
                        assert(is_kept(w.rows, c));
                        let i = choose|i: int|
                            0 <= i < w.rows.len() && (#[trigger] w.rows[i]).canonical_url == Some(
                                c,
                            );
                        assert(v.rows[i] == w.rows[i]);
                    } else {
                        lemma_kept(w.rows, c);
                        if v.rows != w.rows {
                            assert(v.rows[w.rows.len() as int].canonical_url == Some(c));
                        }
                    }
                }
            }
        }
    }
}

} // verus!
