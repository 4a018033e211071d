//! What of a document is read around its hits, and how heavily vectors weigh in a search.

use crate::graph::store::opt_view;
use crate::indexer::rank;
use crate::indexer::rank::{RetrievalIntent, SearchHit};
use crate::rows;
use crate::text;
use vstd::prelude::*;

verus! {

/// Whether `lo` to `hi` is the least range that holds all that is at most `window` away from a
/// hit of the document; below zero and above the highest number there is nothing.
pub open spec fn is_range(hits: Seq<SearchHit>, doc: Seq<char>, window: u32, lo: u32, hi: u32) -> bool {
    &&& forall|i: int|
        0 <= i < hits.len() && (#[trigger] hits[i]).doc_name@ == doc ==> lo <= hits[i].chunk_index
            && hits[i].chunk_index <= hi && (lo + window <= hits[i].chunk_index || lo == 0) && (
        hits[i].chunk_index + window <= hi || hi == u32::MAX)
    &&& exists|i: int|
        0 <= i < hits.len() && (#[trigger] hits[i]).doc_name@ == doc && (lo + window
            == hits[i].chunk_index || (lo == 0 && hits[i].chunk_index <= window))
    &&& exists|i: int|
        0 <= i < hits.len() && (#[trigger] hits[i]).doc_name@ == doc && (hits[i].chunk_index
            + window == hi || (hi == u32::MAX && hits[i].chunk_index + window >= u32::MAX))
}

/// Around the hits of a document everything is read that is near one of them, and no more on
/// either side; of a document without hits nothing is.
pub open spec fn is_read(
    hits: Seq<SearchHit>,
    doc: Seq<char>,
    window: u32,
    r: Option<(u32, u32)>,
) -> bool {
    match r {
        Some(x) => is_range(hits, doc, window, x.0, x.1),
        None => forall|i: int| 0 <= i < hits.len() ==> (#[trigger] hits[i]).doc_name@ != doc,
    }
}

pub proof fn law_what_is_near_a_hit_is_read(
    hits: Seq<SearchHit>,
    doc: Seq<char>,
    window: u32,
    n: int,
)
    requires
        0 <= n <= hits.len(),
    ensures
        is_read(hits.take(n), doc, window, rank::range_of(hits, doc, window, n)),
    decreases n,
{
    let some = hits.take(n);
    if n > 0 {
        law_what_is_near_a_hit_is_read(hits, doc, window, n - 1);
        let fewer = hits.take(n - 1);
        let h = hits[n - 1];
        let r = rank::range_of(hits, doc, window, n);
        assert(some[n - 1] == h);
        assert forall|i: int| 0 <= i < n - 1 implies #[trigger] some[i] == fewer[i] by {}
        match rank::range_of(hits, doc, window, n - 1) {
            Some(x) => {
                let end = r->0;
                let (lo, hi) = end;
                assert forall|i: int|
                    0 <= i < some.len() && (#[trigger] some[i]).doc_name@ == doc implies lo
                    <= some[i].chunk_index && some[i].chunk_index <= hi && (lo + window
                    <= some[i].chunk_index || lo == 0) && (some[i].chunk_index + window
                    <= hi || hi == u32::MAX) by {
                    if i < n - 1 {
                        assert(fewer[i].doc_name@ == doc);
                    }
                }
                let a = choose|i: int|
                    0 <= i < fewer.len() && (#[trigger] fewer[i]).doc_name@ == doc && (x.0 + window
                        == fewer[i].chunk_index || (x.0 == 0 && fewer[i].chunk_index <= window));
                let b = choose|i: int|
                    0 <= i < fewer.len() && (#[trigger] fewer[i]).doc_name@ == doc && (
                    fewer[i].chunk_index + window == x.1 || (x.1 == u32::MAX && fewer[i].chunk_index
                        + window >= u32::MAX));
                assert(some[a] == fewer[a] && some[b] == fewer[b]);
            },
            None => {
                assert forall|i: int| 0 <= i < n - 1 implies (#[trigger] some[i]).doc_name@
                    != doc by {
                    assert(fewer[i].doc_name@ != doc);
                }
            },
        }
    }
}

/// The texts of parts.
pub open spec fn texts_of(parts: Seq<(u32, String)>) -> Seq<Seq<char>> {
    Seq::new(parts.len(), |i: int| parts[i].1@)
}

/// Whether `w` is what stands around a hit: the parts of the document near it, in their order
/// and each on lines of its own, where there are several and they say enough more than the
/// hit; else what was there before.
pub open spec fn is_around(
    h: SearchHit,
    parts: Seq<(u32, String)>,
    window: u32,
    w: Option<Seq<char>>,
) -> bool {
    let near = parts.filter(
        |c: (u32, String)| h.chunk_index <= c.0 + window && c.0 <= h.chunk_index + window,
    );
    let all = text::join(texts_of(near), seq!['\n']);
    (near.len() > 0 && near[0].1@.len() > 0) ==> if near.len() >= 2 && text::byte_size(all)
        > text::byte_size(h.text@) + rank::WINDOW_GAIN {
        w == Some(all)
    } else {
        w == opt_view(h.sentence_window)
    }
}

proof fn lemma_merged(parts: Seq<(u32, String)>, n: int)
    requires
        0 < n <= parts.len(),
        parts[0].1@.len() > 0,
    ensures
        rank::merged(parts, n) == text::join(texts_of(parts.take(n)), seq!['\n']),
        rank::merged(parts, n).len() > 0,
    decreases n,
{
    let ts = texts_of(parts.take(n));
    if n == 1 {
        reveal_with_fuel(rank::merged, 2);
        assert(ts[0] == parts[0].1@);
    } else {
        lemma_merged(parts, n - 1);
        assert(ts.drop_last() =~= texts_of(parts.take(n - 1)));
        assert(ts.last() == parts[n - 1].1@);
    }
}

/// What is put around a hit is what stands near it in its document.
pub proof fn law_what_stands_near_is_put_around(
    h: SearchHit,
    parts: Seq<(u32, String)>,
    window: u32,
)
    ensures
        is_around(h, parts, window, rank::window_text(h, parts, window)),
{
    let p = rank::in_window(h.chunk_index, window);
    let q = |c: (u32, String)| h.chunk_index <= c.0 + window && c.0 <= h.chunk_index + window;
    assert forall|i: int| 0 <= i < parts.len() implies p(#[trigger] parts[i]) == q(parts[i]) by {}
    rows::lemma_kept_same(parts, p, q);
    let near = parts.filter(q);
    if near.len() > 0 && near[0].1@.len() > 0 {
        lemma_merged(near, near.len() as int);
        assert(near.take(near.len() as int) =~= near);
    }
}

/// A short question gives vectors less weight and a long one more, within bounds; a question
/// about code gives them less than any other, one about documents more.
pub proof fn law_the_weight_follows_the_question(
    words: nat,
    letters: nat,
    base: int,
    intent: RetrievalIntent,
)
    requires
        500 <= base <= 750,
    ensures
        ({
            let w = rank::alpha_of(words, letters, base, intent);
            let plain = rank::alpha_of(3, 0, base, intent);
            &&& 200 <= w <= 950
            &&& words <= 2 && letters <= 6 ==> w == plain - 200 || (w == 200 && plain < 400)
            &&& words >= 5 || letters >= 14 ==> w == plain + 100
            &&& 3 <= words <= 4 && letters < 14 ==> w == plain
            &&& words < 5 && 7 <= letters < 14 ==> w == plain
            &&& intent == RetrievalIntent::General ==> plain == base
            &&& intent == RetrievalIntent::Code ==> plain == base - 200
            &&& intent == RetrievalIntent::Document ==> plain == base + 100
            &&& intent == RetrievalIntent::Outline ==> plain == base + 50
        }),
{
}

/// More weight at first is never less weight in the end.
pub proof fn law_the_weight_rises_with_the_base(
    words: nat,
    letters: nat,
    a: int,
    b: int,
    intent: RetrievalIntent,
)
    requires
        0 <= a <= b,
    ensures
        200 <= rank::alpha_of(words, letters, a, intent) <= rank::alpha_of(
            words,
            letters,
            b,
            intent,
        ) <= 950,
{
}

/// The words of a question that count are those with a character of ASCII.
pub proof fn lemma_words_counted(ws: Seq<Seq<char>>, n: int)
    requires
        0 <= n <= ws.len(),
    ensures
        rank::ascii_words(ws, n) == ws.take(n).filter(
            |w: Seq<char>| exists|i: int| 0 <= i < w.len() && (#[trigger] w[i] as u32) <= 127,
        ).len(),
    decreases n,
{
    reveal(Seq::filter);
    if n > 0 {
        lemma_words_counted(ws, n - 1);
        assert(ws.take(n).drop_last() =~= ws.take(n - 1));
        assert(ws.take(n).last() == ws[n - 1]);
    }
}

/// The letters of a question that count are those beyond ASCII.
pub proof fn lemma_letters_counted(s: Seq<char>, n: int)
    requires
        0 <= n <= s.len(),
    ensures
        rank::wide_letters(s, n) == s.take(n).filter(
            |c: char| (c as u32) > 127 && text::alphabetic(c),
        ).len(),
    decreases n,
{
    reveal(Seq::filter);
    if n > 0 {
        lemma_letters_counted(s, n - 1);
        assert(s.take(n).drop_last() =~= s.take(n - 1));
        assert(s.take(n).last() == s[n - 1]);
    }
}

} // verus!
