//! What becomes of the hits of a search: filtering, weighing, thinning out, and the text
//! around each hit.
//!
//! Scores are integers that order as the scores do; weights are thousandths.

use crate::graph::model::clone_opt;
use crate::graph::store::opt_view;
use crate::indexer::around;
use crate::indexer::paths;
use crate::indexer::shown;
use crate::json;
use crate::rows;
use crate::text;
use crate::text::CharClass;
use vstd::prelude::*;

verus! {

/// A part of a document that a search found.
#[derive(Debug, PartialEq, Eq)]
pub struct SearchHit {
    pub doc_name: String,
    pub text: String,
    pub chunk_index: u32,
    pub score: i64,
    pub score_vec: i64,
    pub score_bm25: i64,
    pub symbol_name: Option<String>,
    /// Where the part stands in its document, as a JSON array of strings.
    pub path_json: Option<String>,
    /// The text around the part.
    pub sentence_window: Option<String>,
}

impl Clone for SearchHit {
    fn clone(&self) -> (r: Self)
        ensures
            r == *self,
    {
        SearchHit {
            doc_name: self.doc_name.clone(),
            text: self.text.clone(),
            chunk_index: self.chunk_index,
            score: self.score,
            score_vec: self.score_vec,
            score_bm25: self.score_bm25,
            symbol_name: clone_opt(&self.symbol_name),
            path_json: clone_opt(&self.path_json),
            sentence_window: clone_opt(&self.sentence_window),
        }
    }
}

/// What a question is about.
#[derive(Debug, Clone, Copy, PartialEq, Eq, Structural)]
pub enum RetrievalIntent {
    Code,
    Document,
    Outline,
    General,
}

/// How many symbols of a question are looked for.
pub const SYMBOL_LIMIT: usize = 3;

/// How much longer the text around a hit has to be than the hit, in bytes.
pub const WINDOW_GAIN: usize = 10;

// ---- Filtering by extension

/// What a name ends with that has the extension.
pub open spec fn suffix_of(ext: Seq<char>) -> Seq<char> {
    seq!['.'] + text::lowercase(ext)
}

pub open spec fn has_extension(name: Seq<char>, exts: Seq<Seq<char>>) -> bool {
    exists|i: int|
        0 <= i < exts.len() && text::ends_with(text::lowercase(name), suffix_of(#[trigger] exts[i]))
}

pub open spec fn of_extension(exts: Seq<Seq<char>>) -> spec_fn(SearchHit) -> bool {
    |h: SearchHit| exts.len() == 0 || has_extension(h.doc_name@, exts)
}

fn suffix_text(ext: &str) -> (r: String)
    ensures
        r@ == suffix_of(ext@),
{
    let mut r = ".".to_owned();
    r.push_str(&text::to_lower(ext));
    proof {
        reveal_strlit(".");
        assert(r@ =~= suffix_of(ext@));
    }
    r
}

fn name_has_extension(name: &str, exts: &Vec<String>) -> (r: bool)
    ensures
        r == has_extension(name@, text::texts(exts@)),
{
    let ghost ev = text::texts(exts@);
    let low = text::to_lower(name);
    let mut i: usize = 0;
    while i < exts.len()
        invariant
            i <= exts.len(),
            low@ == text::lowercase(name@),
            ev == text::texts(exts@),
            forall|k: int| 0 <= k < i ==> !text::ends_with(low@, suffix_of(#[trigger] ev[k])),
        decreases exts.len() - i,
    {
        assert(ev[i as int] == exts@[i as int]@);
        if text::has_suffix(&low, &suffix_text(&exts[i])) {
            return true;
        }
        i += 1;
    }
    false
}

/// The hits in files of the extensions; no extensions are all.
pub fn filter_hits_by_ext(hits: &Vec<SearchHit>, exts: &Vec<String>) -> (r: Vec<SearchHit>)
    ensures
        r@ == rows::kept(hits@, of_extension(text::texts(exts@))),
        r@ == hits@.filter(
            |h: SearchHit|
                exts@.len() == 0 || exists|i: int|
                    0 <= i < exts@.len() && text::ends_with(
                        text::lowercase(h.doc_name@),
                        seq!['.'] + text::lowercase((#[trigger] exts@[i])@),
                    ),
        ),
{
    let ghost p = of_extension(text::texts(exts@));
    assert(text::texts(exts@).len() == exts@.len());
    let mut out: Vec<SearchHit> = Vec::new();
    let mut i: usize = 0;
    while i < hits.len()
        invariant
            i <= hits.len(),
            text::texts(exts@).len() == exts@.len(),
            p == of_extension(text::texts(exts@)),
            out@ == rows::kept(hits@.take(i as int), p),
        decreases hits.len() - i,
    {
        proof {
            assert(hits@.take(i + 1) == hits@.take(i as int).push(hits@[i as int]));
            rows::lemma_kept_push(hits@.take(i as int), hits@[i as int], p);
        }
        if exts.len() == 0 || name_has_extension(&hits[i].doc_name, exts) {
            out.push(hits[i].clone());
        }
        i += 1;
    }
    assert(hits@.take(i as int) == hits@);
    proof {
        let q = |h: SearchHit|
            exts@.len() == 0 || exists|i: int|
                0 <= i < exts@.len() && text::ends_with(
                    text::lowercase(h.doc_name@),
                    seq!['.'] + text::lowercase((#[trigger] exts@[i])@),
                );
        let ev = text::texts(exts@);
        assert forall|k: int| 0 <= k < hits@.len() implies p(#[trigger] hits@[k]) == q(
            hits@[k],
        ) by {
            let low = text::lowercase(hits@[k].doc_name@);
            if has_extension(hits@[k].doc_name@, ev) {
                let x = choose|x: int|
                    0 <= x < ev.len() && text::ends_with(low, suffix_of(#[trigger] ev[x]));
                assert(ev[x] == exts@[x]@);
            }
            if exists|x: int|
                0 <= x < exts@.len() && text::ends_with(
                    low,
                    seq!['.'] + text::lowercase((#[trigger] exts@[x])@),
                ) {
                let x = choose|x: int|
                    0 <= x < exts@.len() && text::ends_with(
                        low,
                        seq!['.'] + text::lowercase((#[trigger] exts@[x])@),
                    );
                assert(ev[x] == exts@[x]@);
                assert(text::ends_with(low, suffix_of(ev[x])));
            }
        }
        rows::lemma_kept_same(hits@, p, q);
    }
    out
}

pub open spec fn like_clause(ext: Seq<char>) -> Seq<char> {
    "LOWER(doc_name) LIKE '%."@ + text::lowercase(ext) + "'"@
}

pub open spec fn like_clauses(exts: Seq<Seq<char>>) -> Seq<Seq<char>> {
    Seq::new(exts.len(), |i: int| like_clause(exts[i]))
}

/// The condition on documents that have one of the extensions, in SQL.
pub fn ext_filter_sql(exts: &Vec<String>) -> (r: String)
    ensures
        r@ == "("@ + text::join(like_clauses(text::texts(exts@)), " OR "@) + ")"@,
{
    let mut parts: Vec<String> = Vec::new();
    let mut i: usize = 0;
    while i < exts.len()
        invariant
            i <= exts.len(),
            parts@.len() == i,
            forall|k: int| 0 <= k < i ==> (#[trigger] parts@[k])@ == like_clause(exts@[k]@),
        decreases exts.len() - i,
    {
        let mut t = "LOWER(doc_name) LIKE '%.".to_owned();
        t.push_str(&text::to_lower(&exts[i]));
        t.push_str("'");
        assert(t@ =~= like_clause(exts@[i as int]@));
        parts.push(t);
        i += 1;
    }
    assert(text::texts(parts@) =~= like_clauses(text::texts(exts@)));
    let mut r = "(".to_owned();
    r.push_str(&text::join_of(&parts, " OR "));
    r.push_str(")");
    assert(r@ =~= "("@ + text::join(like_clauses(text::texts(exts@)), " OR "@) + ")"@);
    r
}

// ---- Weights

/// How many of the first `n` words have a character of ASCII.
pub open spec fn ascii_words(words: Seq<Seq<char>>, n: int) -> nat
    decreases n,
{
    if n <= 0 {
        0
    } else {
        ascii_words(words, n - 1) + if has_ascii(words[n - 1]) {
            1nat
        } else {
            0
        }
    }
}

pub open spec fn has_ascii(w: Seq<char>) -> bool {
    exists|i: int| 0 <= i < w.len() && (#[trigger] w[i] as u32) <= 127
}

/// How many of the first `n` characters are letters beyond ASCII.
pub open spec fn wide_letters(s: Seq<char>, n: int) -> nat
    decreases n,
{
    if n <= 0 {
        0
    } else {
        wide_letters(s, n - 1) + if (s[n - 1] as u32) > 127 && text::alphabetic(s[n - 1]) {
            1nat
        } else {
            0
        }
    }
}

pub open spec fn clamped(x: int, lo: int, hi: int) -> int {
    if x < lo {
        lo
    } else if x > hi {
        hi
    } else {
        x
    }
}

/// What the intent adds to the weight of the vectors.
pub open spec fn intent_delta(intent: RetrievalIntent) -> int {
    match intent {
        RetrievalIntent::Code => -200,
        RetrievalIntent::Document => 100,
        RetrievalIntent::Outline => 50,
        RetrievalIntent::General => 0,
    }
}

/// The weight of the vectors, given how many words and letters a question has: less where it
/// is short, more where it is long.
pub open spec fn alpha_of(words: nat, letters: nat, base: int, intent: RetrievalIntent) -> int {
    let b = clamped(base + intent_delta(intent), 300, 950);
    if words <= 2 && letters <= 6 {
        clamped(b - 200, 200, 1000)
    } else if words >= 5 || letters >= 14 {
        if b + 100 < 950 {
            b + 100
        } else {
            950
        }
    } else {
        b
    }
}

/// The words of a question.
pub open spec fn query_words(query: Seq<char>) -> Seq<Seq<char>> {
    text::split_by(query, text::non_word())
}

fn word_has_ascii(w: &Vec<char>) -> (r: bool)
    ensures
        r == has_ascii(w@),
{
    let mut i: usize = 0;
    while i < w.len()
        invariant
            i <= w.len(),
            forall|k: int| 0 <= k < i ==> (#[trigger] w@[k] as u32) > 127,
        decreases w.len() - i,
    {
        if (w[i] as u32) <= 127 {
            return true;
        }
        i += 1;
    }
    false
}

/// The weight of the vectors for so many words and letters.
pub fn weigh(words: usize, letters: usize, base_alpha: u32, intent: RetrievalIntent) -> (r: u32)
    ensures
        r == alpha_of(words as nat, letters as nat, base_alpha as int, intent),
        200 <= r <= 950,
{
    let delta: i64 = match intent {
        RetrievalIntent::Code => -200,
        RetrievalIntent::Document => 100,
        RetrievalIntent::Outline => 50,
        RetrievalIntent::General => 0,
    };
    let sum: i64 = base_alpha as i64 + delta;
    let b: i64 = if sum < 300 {
        300
    } else if sum > 950 {
        950
    } else {
        sum
    };
    let r: i64 = if words <= 2 && letters <= 6 {
        if b - 200 < 200 {
            200
        } else {
            b - 200
        }
    } else if words >= 5 || letters >= 14 {
        if b + 100 < 950 {
            b + 100
        } else {
            950
        }
    } else {
        b
    };
    r as u32
}

/// The weight of the vectors in a search, in thousandths; the other way has the rest.
pub fn compute_alpha(query: &str, base_alpha: u32, intent: RetrievalIntent) -> (r: u32)
    ensures
        r == alpha_of(
            ascii_words(query_words(query@), query_words(query@).len() as int),
            wide_letters(query@, query@.len() as int),
            base_alpha as int,
            intent,
        ),
        r == alpha_of(
            text::split_by(query@, |c: char| !text::alphanumeric(c) && c != '_').filter(
                |w: Seq<char>| exists|i: int| 0 <= i < w.len() && (#[trigger] w[i] as u32) <= 127,
            ).len(),
            query@.filter(|c: char| (c as u32) > 127 && text::alphabetic(c)).len(),
            base_alpha as int,
            intent,
        ),
        200 <= r <= 950,
{
    let parts = text::split_of(query, &CharClass::NonWord);
    let ghost pv = text::texts(parts@);
    assert(pv.len() == parts@.len());
    let mut words: usize = 0;
    let mut i: usize = 0;
    while i < parts.len()
        invariant
            i <= parts.len(),
            pv == text::texts(parts@),
            words <= i,
            words == ascii_words(pv, i as int),
        decreases parts.len() - i,
    {
        assert(pv[i as int] == parts@[i as int]@);
        if word_has_ascii(&text::chars_of(&parts[i])) {
            words += 1;
        }
        i += 1;
    }
    let cs = text::chars_of(query);
    let mut letters: usize = 0;
    let mut j: usize = 0;
    while j < cs.len()
        invariant
            j <= cs.len(),
            letters <= j,
            letters == wide_letters(cs@, j as int),
        decreases cs.len() - j,
    {
        if (cs[j] as u32) > 127 && text::is_alpha(cs[j]) {
            letters += 1;
        }
        j += 1;
    }
    proof {
        around::lemma_words_counted(pv, pv.len() as int);
        around::lemma_letters_counted(query@, query@.len() as int);
        assert(pv.take(pv.len() as int) =~= pv);
        assert(query@.take(query@.len() as int) =~= query@);
        assert((|c: char| !text::alphanumeric(c) && c != '_') =~= text::non_word());
    }
    weigh(words, letters, base_alpha, intent)
}

// ---- Noise

/// Whether a hit is more than a vector that happens to be near: it has the words, it is a
/// symbol, it is ranked again, or it is near enough.
pub open spec fn is_sound(min_score: i64, ranked_again: bool) -> spec_fn(SearchHit) -> bool {
    |h: SearchHit|
        h.score_bm25 > 0 || h.symbol_name is Some || ranked_again || h.score_vec >= min_score
}

/// The hits that are more than noise.
pub fn drop_noise(hits: &Vec<SearchHit>, min_score: i64, ranked_again: bool) -> (r: Vec<SearchHit>)
    ensures
        r@ == rows::kept(hits@, is_sound(min_score, ranked_again)),
        r@ == hits@.filter(
            |h: SearchHit|
                ranked_again || h.score_bm25 > 0 || h.symbol_name is Some || h.score_vec
                    >= min_score,
        ),
{
    let ghost p = is_sound(min_score, ranked_again);
    let mut out: Vec<SearchHit> = Vec::new();
    let mut i: usize = 0;
    while i < hits.len()
        invariant
            i <= hits.len(),
            p == is_sound(min_score, ranked_again),
            out@ == rows::kept(hits@.take(i as int), p),
        decreases hits.len() - i,
    {
        proof {
            assert(hits@.take(i + 1) == hits@.take(i as int).push(hits@[i as int]));
            rows::lemma_kept_push(hits@.take(i as int), hits@[i as int], p);
        }
        let h = &hits[i];
        if h.score_bm25 > 0 || h.symbol_name.is_some() || ranked_again || h.score_vec >= min_score {
            out.push(h.clone());
        }
        i += 1;
    }
    assert(hits@.take(i as int) == hits@);
    proof {
        rows::lemma_kept_same(
            hits@,
            p,
            |h: SearchHit|
                ranked_again || h.score_bm25 > 0 || h.symbol_name is Some || h.score_vec
                    >= min_score,
        );
    }
    out
}

// ---- Outlines

/// Whether a path leads to a node above another.
pub open spec fn is_above(parent: Seq<Seq<char>>, child: Seq<Seq<char>>) -> bool {
    parent.len() < child.len() && child.take(parent.len() as int) == parent
}

pub open spec fn path_of(h: SearchHit) -> Option<Seq<Seq<char>>> {
    match h.path_json {
        Some(p) => json::json_strings(p@),
        None => None,
    }
}

pub open spec fn path_views(paths: Seq<Option<Vec<String>>>) -> Seq<Option<Seq<Seq<char>>>> {
    Seq::new(
        paths.len(),
        |i: int|
            match paths[i] {
                Some(v) => Some(text::texts(v@)),
                None => None,
            },
    )
}

/// Whether a hit is in an outline in which another hit is below it.
pub open spec fn is_covered(
    hits: Seq<SearchHit>,
    paths: Seq<Option<Seq<Seq<char>>>>,
    i: int,
) -> bool {
    paths::is_outline(hits[i].doc_name@) && exists|j: int|
        0 <= j < hits.len() && #[trigger] covers(hits, paths, i, j)
}

pub open spec fn covers(
    hits: Seq<SearchHit>,
    paths: Seq<Option<Seq<Seq<char>>>>,
    i: int,
    j: int,
) -> bool {
    &&& hits[j].doc_name@ == hits[i].doc_name@
    &&& paths[i] matches Some(p) && (paths[j] matches Some(q) && is_above(p, q))
}

/// The first `n` hits that are not covered.
pub open spec fn uncovered(
    hits: Seq<SearchHit>,
    paths: Seq<Option<Seq<Seq<char>>>>,
    n: int,
) -> Seq<SearchHit>
    decreases n,
{
    if n <= 0 {
        Seq::empty()
    } else if is_covered(hits, paths, n - 1) {
        uncovered(hits, paths, n - 1)
    } else {
        uncovered(hits, paths, n - 1).push(hits[n - 1])
    }
}

pub open spec fn score_keys(hits: Seq<SearchHit>) -> Seq<Seq<int>> {
    Seq::new(hits.len(), |i: int| seq![-(hits[i].score as int)])
}

/// The best hits first.
pub open spec fn by_score(hits: Seq<SearchHit>) -> Seq<SearchHit> {
    rows::rows_at(hits, rows::order_of(score_keys(hits)))
}

/// The hits without those that others are below, the best first.
pub open spec fn deduped(hits: Seq<SearchHit>, paths: Seq<Option<Seq<Seq<char>>>>) -> Seq<SearchHit> {
    if hits.len() <= 1 {
        hits
    } else {
        by_score(uncovered(hits, paths, hits.len() as int))
    }
}

pub open spec fn paths_of(hits: Seq<SearchHit>) -> Seq<Option<Seq<Seq<char>>>> {
    Seq::new(hits.len(), |i: int| path_of(hits[i]))
}

/// Whether a path leads to a node above another.
pub fn is_path_prefix_vec(parent: &Vec<String>, child: &Vec<String>) -> (r: bool)
    ensures
        r == is_above(text::texts(parent@), text::texts(child@)),
{
    let ghost pv = text::texts(parent@);
    let ghost cv = text::texts(child@);
    assert(pv.len() == parent@.len());
    assert(cv.len() == child@.len());
    if parent.len() >= child.len() {
        return false;
    }
    let mut i: usize = 0;
    while i < parent.len()
        invariant
            i <= parent.len(),
            parent.len() < child.len(),
            pv == text::texts(parent@),
            cv == text::texts(child@),
            forall|k: int| 0 <= k < i ==> cv[k] == pv[k],
        decreases parent.len() - i,
    {
        assert(pv[i as int] == parent@[i as int]@);
        assert(cv[i as int] == child@[i as int]@);
        if parent[i] != child[i] {
            assert(cv.take(pv.len() as int)[i as int] != pv[i as int]);
            return false;
        }
        i += 1;
    }
    assert(cv.take(pv.len() as int) =~= pv);
    true
}

/// Whether one JSON path leads to a node above another.
pub open spec fn is_json_above(
    parent: Option<Seq<Seq<char>>>,
    child: Option<Seq<Seq<char>>>,
) -> bool {
    parent matches Some(p) && (child matches Some(c) && is_above(p, c))
}

/// Whether a path, written as a JSON array of strings, leads to a node above another.
pub fn is_path_prefix(parent_json: &str, child_json: &str) -> (r: bool)
    ensures
        r == is_json_above(json::json_strings(parent_json@), json::json_strings(child_json@)),
{
    match (json::parse_strings(parent_json), json::parse_strings(child_json)) {
        (Some(p), Some(c)) => is_path_prefix_vec(&p, &c),
        _ => false,
    }
}

fn hit_is_covered(hits: &Vec<SearchHit>, paths: &Vec<Option<Vec<String>>>, i: usize) -> (r: bool)
    requires
        i < hits@.len(),
        paths@.len() == hits@.len(),
    ensures
        r == is_covered(hits@, path_views(paths@), i as int),
{
    let ghost pv = path_views(paths@);
    if !paths::is_outline_doc(&hits[i].doc_name) {
        return false;
    }
    let mut j: usize = 0;
    while j < hits.len()
        invariant
            j <= hits.len(),
            i < hits@.len(),
            paths@.len() == hits@.len(),
            pv == path_views(paths@),
            paths::is_outline(hits@[i as int].doc_name@),
            forall|k: int| 0 <= k < j ==> !(#[trigger] covers(hits@, pv, i as int, k)),
        decreases hits.len() - j,
    {
        let above = match (&paths[i], &paths[j]) {
            (Some(p), Some(q)) => is_path_prefix_vec(p, q),
            _ => false,
        };
        if above && hits[j].doc_name == hits[i].doc_name {
            assert(covers(hits@, pv, i as int, j as int));
            return true;
        }
        j += 1;
    }
    false
}

fn sort_by_score(hits: &Vec<SearchHit>) -> (r: Vec<SearchHit>)
    ensures
        r@ == by_score(hits@),
{
    let mut keys: Vec<Vec<i128>> = Vec::new();
    let mut i: usize = 0;
    while i < hits.len()
        invariant
            i <= hits.len(),
            keys@.len() == i,
            forall|k: int|
                0 <= k < i ==> rows::key_view(#[trigger] keys@[k]@) == seq![
                    -(hits@[k].score as int),
                ],
        decreases hits.len() - i,
    {
        keys.push(rows::number_key(-(hits[i].score as i128)));
        i += 1;
    }
    assert(rows::keys_view(keys@) =~= score_keys(hits@));
    let order = rows::order_rows(&keys);
    let ghost want = by_score(hits@);
    assert(want == rows::rows_at(hits@, rows::indices(order@)));
    let mut r: Vec<SearchHit> = Vec::new();
    let mut j: usize = 0;
    while j < order.len()
        invariant
            j <= order.len(),
            want == rows::rows_at(hits@, rows::indices(order@)),
            forall|k: int| 0 <= k < order@.len() ==> (#[trigger] order@[k]) < hits@.len(),
            r@ == want.take(j as int),
        decreases order.len() - j,
    {
        assert(want[j as int] == hits@[order@[j as int] as int]);
        assert(want.take(j + 1) =~= want.take(j as int).push(want[j as int]));
        r.push(hits[order[j]].clone());
        j += 1;
    }
    assert(want.take(j as int) =~= want);
    r
}

/// The hits without those of an outline that others are below, the best first; `paths` says
/// where each stands in its document.
pub fn dedup_with_paths(hits: Vec<SearchHit>, paths: &Vec<Option<Vec<String>>>) -> (r: Vec<
    SearchHit,
>)
    requires
        paths@.len() == hits@.len(),
    ensures
        r@ == deduped(hits@, path_views(paths@)),
        shown::is_pruned(hits@, path_views(paths@), r@),
{
    proof {
        shown::law_only_nodes_above_others_go(hits@, path_views(paths@));
    }
    if hits.len() <= 1 {
        return hits;
    }
    let ghost pv = path_views(paths@);
    let mut out: Vec<SearchHit> = Vec::new();
    let mut i: usize = 0;
    while i < hits.len()
        invariant
            i <= hits.len(),
            paths@.len() == hits@.len(),
            pv == path_views(paths@),
            out@ == uncovered(hits@, pv, i as int),
        decreases hits.len() - i,
    {
        if !hit_is_covered(&hits, paths, i) {
            out.push(hits[i].clone());
        }
        i += 1;
    }
    sort_by_score(&out)
}

/// The hits without those of an outline that others are below, the best first.
pub fn dedup_opml_hierarchy(hits: Vec<SearchHit>) -> (r: Vec<SearchHit>)
    ensures
        r@ == deduped(hits@, paths_of(hits@)),
        shown::is_pruned(hits@, shown::places_of(hits@), r@),
{
    let mut paths: Vec<Option<Vec<String>>> = Vec::new();
    let mut i: usize = 0;
    while i < hits.len()
        invariant
            i <= hits.len(),
            paths@.len() == i,
            forall|k: int|
                0 <= k < i ==> #[trigger] path_views(paths@)[k] == path_of(hits@[k]),
        decreases hits.len() - i,
    {
        let p = match &hits[i].path_json {
            Some(t) => json::parse_strings(t),
            None => None,
        };
        let ghost before = paths@;
        paths.push(p);
        proof {
            assert forall|k: int| 0 <= k < i + 1 implies #[trigger] path_views(paths@)[k]
                == path_of(hits@[k]) by {
                if k < i {
                    assert(path_views(before)[k] == path_of(hits@[k]));
                }
            }
        }
        i += 1;
    }
    assert(path_views(paths@) =~= paths_of(hits@));
    assert(paths_of(hits@) =~= shown::places_of(hits@));
    dedup_with_paths(hits, &paths)
}

// ---- Not too much of one document

pub open spec fn of_doc(name: Seq<char>) -> spec_fn(SearchHit) -> bool {
    |h: SearchHit| h.doc_name@ == name
}

/// The first `n` hits, of each document the first so many.
pub open spec fn thinned(hits: Seq<SearchHit>, max: nat, n: int) -> Seq<SearchHit>
    decreases n,
{
    if n <= 0 {
        Seq::empty()
    } else {
        let before = thinned(hits, max, n - 1);
        let h = hits[n - 1];
        if rows::kept(before, of_doc(h.doc_name@)).len() >= max {
            before
        } else {
            before.push(h)
        }
    }
}

fn count_of_doc(hits: &Vec<SearchHit>, name: &String) -> (n: usize)
    ensures
        n == rows::kept(hits@, of_doc(name@)).len(),
{
    let ghost p = of_doc(name@);
    let mut n: usize = 0;
    let mut i: usize = 0;
    while i < hits.len()
        invariant
            i <= hits.len(),
            n <= i,
            p == of_doc(name@),
            n == rows::kept(hits@.take(i as int), p).len(),
        decreases hits.len() - i,
    {
        proof {
            assert(hits@.take(i + 1) == hits@.take(i as int).push(hits@[i as int]));
            rows::lemma_kept_push(hits@.take(i as int), hits@[i as int], p);
        }
        if hits[i].doc_name == *name {
            n += 1;
        }
        i += 1;
    }
    assert(hits@.take(i as int) == hits@);
    n
}

/// The best of the hits: of each document at most so many (at least one), and at most
/// `top_k` in all.
pub fn cluster_hits(hits: &Vec<SearchHit>, max_per_doc: u32, top_k: u32) -> (r: Vec<SearchHit>)
    ensures
        r@ == rows::limited(
            thinned(
                hits@,
                if max_per_doc < 1 {
                    1
                } else {
                    max_per_doc as nat
                },
                hits@.len() as int,
            ),
            top_k as nat,
        ),
        exists|few: Seq<SearchHit>|
            #![trigger shown::is_front(few, top_k as nat, r@)]
            shown::is_front(few, top_k as nat, r@) && shown::is_thinned(
                hits@,
                if max_per_doc < 1 {
                    1
                } else {
                    max_per_doc as nat
                },
                few,
            ),
{
    let max: usize = if max_per_doc < 1 {
        1
    } else {
        max_per_doc as usize
    };
    let mut out: Vec<SearchHit> = Vec::new();
    let mut i: usize = 0;
    while i < hits.len()
        invariant
            i <= hits.len(),
            out@ == thinned(hits@, max as nat, i as int),
        decreases hits.len() - i,
    {
        if count_of_doc(&out, &hits[i].doc_name) < max {
            out.push(hits[i].clone());
        }
        i += 1;
    }
    let ghost all = out@;
    if out.len() > top_k as usize {
        out.truncate(top_k as usize);
        assert(out@ =~= all.take(top_k as int));
    } else {
        assert(all.take(all.len() as int) =~= all);
    }
    proof {
        shown::law_the_first_of_each_document_stay(hits@, max as nat);
        assert(shown::is_front(all, top_k as nat, out@));
    }
    out
}

// ---- The text around a hit

/// The words of a question, for which the text around a hit is read.
pub open spec fn context_words(query: Seq<char>) -> Seq<Seq<char>> {
    rows::kept(text::split_by(query, text::non_query()), not_empty())
}

pub open spec fn not_empty() -> spec_fn(Seq<char>) -> bool {
    |s: Seq<char>| s.len() > 0
}

/// How far around a hit is read: the further the fewer words there are.
pub open spec fn window_for(words: nat) -> u32 {
    if words <= 3 {
        3
    } else if words <= 10 {
        2
    } else {
        1
    }
}

/// How far around a hit is read.
pub fn compute_context_window(query: &str) -> (r: u32)
    ensures
        r == window_for(context_words(query@).len()),
        ({
            let n = text::split_by(
                query@,
                |c: char| !text::alphanumeric(c) && c != '\'' && c != '"',
            ).filter(|s: Seq<char>| s.len() > 0).len();
            r == if n <= 3 {
                3u32
            } else if n <= 10 {
                2
            } else {
                1
            }
        }),
{
    let parts = text::split_of(query, &CharClass::NonQuery);
    let ghost pv = text::texts(parts@);
    let mut n: usize = 0;
    let mut i: usize = 0;
    assert(rows::kept(pv.take(0), not_empty()).len() == 0);
    while i < parts.len()
        invariant
            i <= parts.len(),
            pv == text::texts(parts@),
            n <= i,
            n == rows::kept(pv.take(i as int), not_empty()).len(),
        decreases parts.len() - i,
    {
        proof {
            assert(pv[i as int] == parts@[i as int]@);
            assert(pv.take(i + 1) == pv.take(i as int).push(pv[i as int]));
            rows::lemma_kept_push(pv.take(i as int), pv[i as int], not_empty());
        }
        if text::chars_of(&parts[i]).len() > 0 {
            n += 1;
        }
        i += 1;
    }
    assert(pv.take(i as int) == pv);
    proof {
        rows::lemma_kept_same(pv, not_empty(), |s: Seq<char>| s.len() > 0);
        assert((|c: char| !text::alphanumeric(c) && c != '\'' && c != '"') =~= text::non_query());
    }
    if n <= 3 {
        3
    } else if n <= 10 {
        2
    } else {
        1
    }
}

pub open spec fn low_end(index: u32, window: u32) -> u32 {
    if index < window {
        0
    } else {
        (index - window) as u32
    }
}

pub open spec fn high_end(index: u32, window: u32) -> u32 {
    if index + window > u32::MAX {
        u32::MAX
    } else {
        (index + window) as u32
    }
}

/// The parts of a document that are read around its hits among the first `n`: from the
/// lowest to the highest.
pub open spec fn range_of(hits: Seq<SearchHit>, doc: Seq<char>, window: u32, n: int) -> Option<
    (u32, u32),
>
    decreases n,
{
    if n <= 0 {
        None
    } else {
        let before = range_of(hits, doc, window, n - 1);
        let h = hits[n - 1];
        if h.doc_name@ != doc {
            before
        } else {
            let lo = low_end(h.chunk_index, window);
            let hi = high_end(h.chunk_index, window);
            match before {
                None => Some((lo, hi)),
                Some(r) => Some(
                    (
                        if lo < r.0 {
                            lo
                        } else {
                            r.0
                        },
                        if hi > r.1 {
                            hi
                        } else {
                            r.1
                        },
                    ),
                ),
            }
        }
    }
}

/// Which parts of a document are read around its hits; of one without hits none.
pub fn context_range(hits: &Vec<SearchHit>, doc: &String, window: u32) -> (r: Option<(u32, u32)>)
    ensures
        r == range_of(hits@, doc@, window, hits@.len() as int),
        around::is_read(hits@, doc@, window, r),
{
    let mut r: Option<(u32, u32)> = None;
    let mut i: usize = 0;
    while i < hits.len()
        invariant
            i <= hits.len(),
            r == range_of(hits@, doc@, window, i as int),
        decreases hits.len() - i,
    {
        if hits[i].doc_name == *doc {
            let lo = hits[i].chunk_index.saturating_sub(window);
            let hi = hits[i].chunk_index.saturating_add(window);
            r = match r {
                None => Some((lo, hi)),
                Some(x) => Some(
                    (
                        if lo < x.0 {
                            lo
                        } else {
                            x.0
                        },
                        if hi > x.1 {
                            hi
                        } else {
                            x.1
                        },
                    ),
                ),
            };
        }
        i += 1;
    }
    proof {
        around::law_what_is_near_a_hit_is_read(hits@, doc@, window, hits@.len() as int);
        assert(hits@.take(hits@.len() as int) =~= hits@);
    }
    r
}

/// The documents of hits, each once, in the order in which they come.
pub fn docs_of_hits(hits: &Vec<SearchHit>) -> (r: Vec<String>)
    ensures
        text::texts(r@) == text::distinct(doc_names(hits@)),
{
    let ghost names = doc_names(hits@);
    let mut out: Vec<String> = Vec::new();
    let mut i: usize = 0;
    assert(text::texts(out@) =~= text::distinct(names.take(0)));
    while i < hits.len()
        invariant
            i <= hits.len(),
            names == doc_names(hits@),
            text::texts(out@) == text::distinct(names.take(i as int)),
        decreases hits.len() - i,
    {
        proof {
            assert(names.take(i + 1) == names.take(i as int).push(names[i as int]));
            text::lemma_distinct_push(names.take(i as int), names[i as int]);
        }
        text::push_distinct(&mut out, hits[i].doc_name.clone());
        i += 1;
    }
    assert(names.take(i as int) == names);
    out
}

pub open spec fn doc_names(hits: Seq<SearchHit>) -> Seq<Seq<char>> {
    Seq::new(hits.len(), |i: int| hits[i].doc_name@)
}

pub open spec fn in_window(center: u32, window: u32) -> spec_fn((u32, String)) -> bool {
    |c: (u32, String)| low_end(center, window) <= c.0 <= high_end(center, window)
}

/// The first `n` texts with line breaks between, once one is not empty.
pub open spec fn merged(chunks: Seq<(u32, String)>, n: int) -> Seq<char>
    decreases n,
{
    if n <= 0 {
        Seq::empty()
    } else {
        let before = merged(chunks, n - 1);
        if before.len() == 0 {
            chunks[n - 1].1@
        } else {
            before + seq!['\n'] + chunks[n - 1].1@
        }
    }
}

/// The text around a hit, where there is more than the hit.
pub open spec fn window_text(h: SearchHit, chunks: Seq<(u32, String)>, window: u32) -> Option<Seq<char>> {
    let near = rows::kept(chunks, in_window(h.chunk_index, window));
    let m = merged(near, near.len() as int);
    if near.len() <= 1 || text::byte_size(m) <= text::byte_size(h.text@) + WINDOW_GAIN {
        opt_view(h.sentence_window)
    } else {
        Some(m)
    }
}

/// Whether a hit has got the text around it.
pub open spec fn is_widened(
    a: SearchHit,
    b: SearchHit,
    doc: Seq<char>,
    chunks: Seq<(u32, String)>,
    window: u32,
) -> bool {
    if a.doc_name@ != doc {
        b == a
    } else {
        &&& opt_view(b.sentence_window) == window_text(a, chunks, window)
        &&& b == (SearchHit { sentence_window: b.sentence_window, ..a })
    }
}

fn widen(h: &SearchHit, chunks: &Vec<(u32, String)>, window: u32) -> (r: SearchHit)
    ensures
        is_widened(*h, r, h.doc_name@, chunks@, window),
{
    let lo = h.chunk_index.saturating_sub(window);
    let hi = h.chunk_index.saturating_add(window);
    let ghost p = in_window(h.chunk_index, window);
    let ghost mut near: Seq<(u32, String)> = Seq::empty();
    let mut m = String::new();
    let mut n: usize = 0;
    let mut i: usize = 0;
    assert(m@ =~= merged(near, 0));
    while i < chunks.len()
        invariant
            i <= chunks.len(),
            lo == low_end(h.chunk_index, window),
            hi == high_end(h.chunk_index, window),
            p == in_window(h.chunk_index, window),
            near == rows::kept(chunks@.take(i as int), p),
            n == near.len(),
            n <= i,
            m@ == merged(near, near.len() as int),
        decreases chunks.len() - i,
    {
        let ghost c = chunks@[i as int];
        proof {
            assert(chunks@.take(i + 1) == chunks@.take(i as int).push(c));
            rows::lemma_kept_push(chunks@.take(i as int), c, p);
        }
        if lo <= chunks[i].0 && chunks[i].0 <= hi {
            let ghost before = m@;
            if text::chars_of(&m).len() > 0 {
                m.push('\n');
            }
            m.push_str(&chunks[i].1);
            n += 1;
            proof {
                let more = near.push(c);
                lemma_merged_front(near, more, near.len() as int);
                if before.len() == 0 {
                    assert(m@ =~= c.1@);
                } else {
                    assert(m@ =~= before + seq!['\n'] + c.1@);
                }
                near = more;
            }
        }
        i += 1;
    }
    assert(chunks@.take(i as int) == chunks@);
    let mut r = h.clone();
    let room = h.text.as_str().len();
    let size = m.as_str().len();
    if n > 1 && size > WINDOW_GAIN && size - WINDOW_GAIN > room {
        r.sentence_window = Some(m);
    }
    r
}

proof fn lemma_merged_front(a: Seq<(u32, String)>, b: Seq<(u32, String)>, n: int)
    requires
        0 <= n <= a.len(),
        n <= b.len(),
        forall|i: int| 0 <= i < n ==> a[i] == b[i],
    ensures
        merged(a, n) == merged(b, n),
    decreases n,
{
    if n > 0 {
        lemma_merged_front(a, b, n - 1);
    }
}

/// Gives the hits of a document the text around them; `chunks` are parts of the document
/// with their numbers.
pub fn fill_context(
    hits: &Vec<SearchHit>,
    doc: &String,
    chunks: &Vec<(u32, String)>,
    window: u32,
) -> (r: Vec<SearchHit>)
    ensures
        r@.len() == hits@.len(),
        forall|i: int|
            0 <= i < r@.len() ==> is_widened(hits@[i], #[trigger] r@[i], doc@, chunks@, window),
        forall|i: int|
            0 <= i < r@.len() ==> if hits@[i].doc_name@ == doc@ {
                (#[trigger] r@[i]) == (SearchHit {
                    sentence_window: r@[i].sentence_window,
                    ..hits@[i]
                }) && around::is_around(
                    hits@[i],
                    chunks@,
                    window,
                    opt_view(r@[i].sentence_window),
                )
            } else {
                r@[i] == hits@[i]
            },
{
    let mut out: Vec<SearchHit> = Vec::new();
    let mut i: usize = 0;
    while i < hits.len()
        invariant
            i <= hits.len(),
            out@.len() == i,
            forall|k: int|
                0 <= k < i ==> is_widened(hits@[k], #[trigger] out@[k], doc@, chunks@, window),
        decreases hits.len() - i,
    {
        if hits[i].doc_name == *doc {
            out.push(widen(&hits[i], chunks, window));
        } else {
            out.push(hits[i].clone());
        }
        i += 1;
    }
    proof {
        assert forall|k: int| 0 <= k < out@.len() && hits@[k].doc_name@ == doc@ implies around::is_around(
            hits@[k],
            chunks@,
            window,
            opt_view((#[trigger] out@[k]).sentence_window),
        ) by {
            around::law_what_stands_near_is_put_around(hits@[k], chunks@, window);
        }
    }
    out
}

// ---- The search as a whole

/// What is asked of the index before hits are ranked.
#[derive(Debug, PartialEq, Eq)]
pub struct SearchPlan {
    pub filter_sql: Option<String>,
    pub candidates: u32,
    pub symbols: Vec<String>,
    pub alpha: u32,
    pub rrf_k: u32,
}

pub open spec fn max_u32(a: u32, b: u32) -> u32 {
    if a >= b {
        a
    } else {
        b
    }
}

/// What is asked of the index for a question: with the extensions that the question wants,
/// as many candidates as are configured but not fewer than hits are wanted, and of a
/// question about code its first symbols.
pub fn plan_search(
    query: &str,
    intent: RetrievalIntent,
    exts: Option<&Vec<String>>,
    symbols: &Vec<String>,
    candidate_k: u32,
    top_k: u32,
    base_alpha: u32,
    rrf_k: u32,
) -> (r: SearchPlan)
    ensures
        match exts {
            Some(e) => opt_view(r.filter_sql) == Some(
                "("@ + text::join(like_clauses(text::texts(e@)), " OR "@) + ")"@,
            ),
            None => r.filter_sql is None,
        },
        r.candidates == max_u32(candidate_k, top_k),
        text::texts(r.symbols@) == if intent == RetrievalIntent::Code {
            rows::limited(text::texts(symbols@), SYMBOL_LIMIT as nat)
        } else {
            Seq::empty()
        },
        r.alpha == alpha_of(
            ascii_words(query_words(query@), query_words(query@).len() as int),
            wide_letters(query@, query@.len() as int),
            base_alpha as int,
            intent,
        ),
        r.rrf_k == max_u32(rrf_k, 1),
{
    let ghost sv = text::texts(symbols@);
    let mut some: Vec<String> = Vec::new();
    let mut i: usize = 0;
    if intent == RetrievalIntent::Code {
        while i < symbols.len() && i < SYMBOL_LIMIT
            invariant
                i <= symbols.len(),
                i <= SYMBOL_LIMIT,
                some@.len() == i,
                forall|k: int| 0 <= k < i ==> (#[trigger] some@[k])@ == symbols@[k]@,
            decreases symbols.len() - i,
        {
            some.push(symbols[i].clone());
            i += 1;
        }
        assert(text::texts(some@) =~= rows::limited(sv, SYMBOL_LIMIT as nat));
    } else {
        assert(text::texts(some@) =~= Seq::empty());
    }
    let filter_sql = match exts {
        Some(e) => Some(ext_filter_sql(e)),
        None => None,
    };
    SearchPlan {
        filter_sql,
        candidates: if candidate_k >= top_k {
            candidate_k
        } else {
            top_k
        },
        symbols: some,
        alpha: compute_alpha(query, base_alpha, intent),
        rrf_k: if rrf_k >= 1 {
            rrf_k
        } else {
            1
        },
    }
}

/// What of the hits is shown: where the candidates were ranked again the result of that, else
/// the candidates; without nodes of an outline that others are below; not too many of one
/// document.
pub fn final_hits(
    candidates: Vec<SearchHit>,
    ranked: Option<Vec<SearchHit>>,
    max_per_doc: u32,
    top_k: u32,
) -> (r: Vec<SearchHit>)
    ensures
        ({
            let all = match ranked {
                Some(v) => v@,
                None => candidates@,
            };
            let once = deduped(all, paths_of(all));
            let max = if max_per_doc < 1 {
                1nat
            } else {
                max_per_doc as nat
            };
            r@ == rows::limited(thinned(once, max, once.len() as int), top_k as nat)
        }),
        shown::is_shown(
            match ranked {
                Some(v) => v@,
                None => candidates@,
            },
            if max_per_doc < 1 {
                1
            } else {
                max_per_doc as nat
            },
            top_k as nat,
            r@,
        ),
{
    let all = match ranked {
        Some(v) => v,
        None => candidates,
    };
    let once = dedup_opml_hierarchy(all);
    cluster_hits(&once, max_per_doc, top_k)
}

/// Of each document there are at most so many hits.
pub proof fn law_no_document_takes_over(hits: Seq<SearchHit>, max: nat, n: int, doc: Seq<char>)
    requires
        0 <= n <= hits.len(),
    ensures
        rows::kept(thinned(hits, max, n), of_doc(doc)).len() <= max,
    decreases n,
{
    if n > 0 {
        law_no_document_takes_over(hits, max, n - 1, doc);
        rows::lemma_kept_push(thinned(hits, max, n - 1), hits[n - 1], of_doc(doc));
    }
}

/// Of an outline the deepest nodes stay: what goes has a node below it that stays.
pub proof fn law_the_deepest_stay(
    hits: Seq<SearchHit>,
    paths: Seq<Option<Seq<Seq<char>>>>,
    i: int,
) -> (j: int)
    requires
        paths.len() == hits.len(),
        0 <= i < hits.len(),
        is_covered(hits, paths, i),
    ensures
        0 <= j < hits.len(),
        covers(hits, paths, i, j),
        !is_covered(hits, paths, j),
    decreases longest(paths, paths.len() as int) - paths[i]->0.len(),
{
    let k = choose|k: int| 0 <= k < hits.len() && #[trigger] covers(hits, paths, i, k);
    lemma_longest(paths, paths.len() as int, i);
    lemma_longest(paths, paths.len() as int, k);
    if is_covered(hits, paths, k) {
        let j = law_the_deepest_stay(hits, paths, k);
        let a = paths[i]->0;
        let b = paths[k]->0;
        let c = paths[j]->0;
        assert(c.take(a.len() as int) =~= c.take(b.len() as int).take(a.len() as int));
        assert(covers(hits, paths, i, j));
        j
    } else {
        k
    }
}

/// The length of the longest of the first `n` paths.
pub open spec fn longest(paths: Seq<Option<Seq<Seq<char>>>>, n: int) -> nat
    decreases n,
{
    if n <= 0 {
        0
    } else {
        let before = longest(paths, n - 1);
        match paths[n - 1] {
            Some(p) if p.len() > before => p.len(),
            _ => before,
        }
    }
}

proof fn lemma_longest(paths: Seq<Option<Seq<Seq<char>>>>, n: int, i: int)
    requires
        0 <= i < n <= paths.len(),
    ensures
        paths[i] matches Some(p) ==> p.len() <= longest(paths, n),
    decreases n,
{
    if i < n - 1 {
        lemma_longest(paths, n - 1, i);
    }
}

} // verus!
