//! A search from its recall to its result: what comes back from the tables, from the model that
//! ranks, and from the parts around the hits, is taken in step by step.

use crate::indexer::rank;
use crate::indexer::rank::SearchHit;
use crate::rows;
use crate::text;
use vstd::prelude::*;

verus! {

/// What the searches have found, ready to be joined.
pub struct Recall {
    pub vectors: Vec<SearchHit>,
    pub words: Vec<SearchHit>,
    pub symbols: Vec<SearchHit>,
}

/// What comes of joining: the hits that may be shown, whether they are to be ranked again, and
/// whether the model for that is to be got first.
pub struct Candidates {
    pub hits: Vec<SearchHit>,
    pub rank: bool,
    pub get_model: bool,
}

/// The hits of a search; one that failed has none.
pub open spec fn found_by(o: Option<Vec<SearchHit>>) -> Seq<SearchHit> {
    match o {
        Some(v) => v@,
        None => Seq::empty(),
    }
}

/// The hits of the first `n` searches, one behind the other.
pub open spec fn found_by_all(list: Seq<Option<Vec<SearchHit>>>, n: int) -> Seq<SearchHit>
    decreases n,
{
    if n <= 0 {
        Seq::empty()
    } else {
        found_by_all(list, n - 1) + found_by(list[n - 1])
    }
}

/// The hits in files of the wanted kinds.
pub open spec fn wanted(hits: Seq<SearchHit>, exts: Option<&Vec<String>>) -> Seq<SearchHit> {
    match exts {
        Some(e) => rows::kept(hits, rank::of_extension(text::texts(e@))),
        None => hits,
    }
}

fn hits_of(o: Option<Vec<SearchHit>>) -> (r: Vec<SearchHit>)
    ensures
        r@ == found_by(o),
{
    match o {
        Some(v) => v,
        None => Vec::new(),
    }
}

fn keep_wanted(hits: Vec<SearchHit>, exts: Option<&Vec<String>>) -> (r: Vec<SearchHit>)
    ensures
        r@ == wanted(hits@, exts),
{
    match exts {
        Some(e) => rank::filter_hits_by_ext(&hits, e),
        None => hits,
    }
}

/// Takes in what the searches have found. A search that failed finds nothing. The table of
/// vectors has looked for the wanted kinds only; the other searches have not.
pub fn recall(
    vectors: Option<Vec<SearchHit>>,
    words: Option<Vec<SearchHit>>,
    symbols: Vec<Option<Vec<SearchHit>>>,
    exts: Option<&Vec<String>>,
) -> (r: Recall)
    ensures
        r.vectors@ == found_by(vectors),
        r.words@ == wanted(found_by(words), exts),
        r.symbols@ == wanted(found_by_all(symbols@, symbols@.len() as int), exts),
{
    let ghost all = symbols@;
    let mut rest = symbols;
    let mut back: Vec<SearchHit> = Vec::new();
    let mut parts: Vec<Vec<SearchHit>> = Vec::new();
    while rest.len() > 0
        invariant
            rest@.len() + parts@.len() == all.len(),
            rest@ == all.take(rest@.len() as int),
            forall|k: int|
                0 <= k < parts@.len() ==> (#[trigger] parts@[k])@ == found_by(all[all.len() - 1 - k]),
        decreases rest.len(),
    {
        let ghost before = rest@;
        let last = rest.pop();
        if let Some(o) = last {
            assert(o == all[before.len() - 1]);
            parts.push(hits_of(o));
            assert(rest@ =~= all.take(rest@.len() as int));
        }
    }
    let ghost n = all.len() as int;
    while parts.len() > 0
        invariant
            parts@.len() <= n,
            n == all.len(),
            back@ == found_by_all(all, n - parts@.len()),
            forall|k: int|
                0 <= k < parts@.len() ==> (#[trigger] parts@[k])@ == found_by(all[all.len() - 1 - k]),
        decreases parts.len(),
    {
        let ghost m = parts@.len();
        if let Some(mut v) = parts.pop() {
            assert(v@ == found_by(all[n - m]));
            back.append(&mut v);
        }
    }
    Recall {
        vectors: hits_of(vectors),
        words: keep_wanted(hits_of(words), exts),
        symbols: keep_wanted(back, exts),
    }
}

/// What is done with the joined hits: noise is dropped, unless they are ranked again. They are
/// where that is wanted and the model is there; where it is wanted and the model is not there,
/// it is got, and this time they stay in their order.
pub fn candidates(
    joined: &Vec<SearchHit>,
    min_score: i64,
    rank_wanted: bool,
    model_ready: bool,
) -> (r: Candidates)
    ensures
        r.rank == (rank_wanted && model_ready),
        r.get_model == (rank_wanted && !model_ready),
        r.hits@ == rows::kept(joined@, rank::is_sound(min_score, rank_wanted && model_ready)),
{
    let again = rank_wanted && model_ready;
    Candidates {
        hits: rank::drop_noise(joined, min_score, again),
        rank: again,
        get_model: rank_wanted && !model_ready,
    }
}

/// Whether the hits of a document have got the text around them, read from its parts; parts
/// that could not be read add nothing.
pub open spec fn is_widened_by(
    before: Seq<SearchHit>,
    after: Seq<SearchHit>,
    doc: Seq<char>,
    parts: Option<Vec<(u32, String)>>,
    window: u32,
) -> bool {
    match parts {
        None => after == before,
        Some(ps) => after.len() == before.len() && forall|i: int|
            0 <= i < after.len() ==> rank::is_widened(
                before[i],
                #[trigger] after[i],
                doc,
                ps@,
                window,
            ),
    }
}

/// Whether hits are others with the text around them, read from the parts of the documents,
/// one document behind the other.
pub open spec fn are_widened(
    before: Seq<SearchHit>,
    after: Seq<SearchHit>,
    found: Seq<(String, Option<Vec<(u32, String)>>)>,
    window: u32,
) -> bool {
    exists|steps: Seq<Seq<SearchHit>>| #[trigger]
        are_steps(steps, found, found.len() as int, window) && steps[0] == before
            && steps.last() == after
}

pub open spec fn are_steps(
    steps: Seq<Seq<SearchHit>>,
    found: Seq<(String, Option<Vec<(u32, String)>>)>,
    n: int,
    window: u32,
) -> bool {
    &&& steps.len() == n + 1
    &&& forall|k: int|
        0 <= k < n ==> is_widened_by(
            #[trigger] steps[k],
            steps[k + 1],
            found[k].0@,
            found[k].1,
            window,
        )
}

/// Gives the hits the text around them.
pub fn widen(
    hits: Vec<SearchHit>,
    found: &Vec<(String, Option<Vec<(u32, String)>>)>,
    window: u32,
) -> (r: Vec<SearchHit>)
    ensures
        are_widened(hits@, r@, found@, window),
{
    let ghost start = hits@;
    let ghost mut steps = seq![hits@];
    let mut out = hits;
    let mut i: usize = 0;
    while i < found.len()
        invariant
            i <= found.len(),
            are_steps(steps, found@, i as int, window),
            steps[0] == start,
            steps.last() == out@,
        decreases found.len() - i,
    {
        let ghost before = steps;
        if let Some(parts) = &found[i].1 {
            out = rank::fill_context(&out, &found[i].0, parts, window);
        }
        proof {
            steps = before.push(out@);
            assert forall|k: int| 0 <= k < i + 1 implies is_widened_by(
                #[trigger] steps[k],
                steps[k + 1],
                found@[k].0@,
                found@[k].1,
                window,
            ) by {
                assert(steps[k] == before[k]);
                if k < i {
                    assert(steps[k + 1] == before[k + 1]);
                }
            }
        }
        i += 1;
    }
    assert(are_steps(steps, found@, found@.len() as int, window));
    out
}

/// Reading around hits changes nothing but what is around them: they are as many and in their
/// order, of the same documents and with the same texts and scores.
pub proof fn law_widening_keeps_the_hits(
    before: Seq<SearchHit>,
    after: Seq<SearchHit>,
    found: Seq<(String, Option<Vec<(u32, String)>>)>,
    window: u32,
)
    requires
        are_widened(before, after, found, window),
    ensures
        after.len() == before.len(),
        forall|i: int|
            0 <= i < after.len() ==> #[trigger] after[i] == (SearchHit {
                sentence_window: after[i].sentence_window,
                ..before[i]
            }),
{
    let steps = choose|steps: Seq<Seq<SearchHit>>| #[trigger]
        are_steps(steps, found, found.len() as int, window) && steps[0] == before && steps.last()
            == after;
    lemma_steps_keep_the_hits(steps, found, found.len() as int, window, found.len() as int);
}

proof fn lemma_steps_keep_the_hits(
    steps: Seq<Seq<SearchHit>>,
    found: Seq<(String, Option<Vec<(u32, String)>>)>,
    n: int,
    window: u32,
    k: int,
)
    requires
        are_steps(steps, found, n, window),
        0 <= k <= n,
    ensures
        steps[k].len() == steps[0].len(),
        forall|i: int|
            0 <= i < steps[k].len() ==> #[trigger] steps[k][i] == (SearchHit {
                sentence_window: steps[k][i].sentence_window,
                ..steps[0][i]
            }),
    decreases k,
{
    if k > 0 {
        lemma_steps_keep_the_hits(steps, found, n, window, k - 1);
        let mid = steps[k - 1];
        assert(is_widened_by(
            steps[k - 1],
            steps[k - 1 + 1],
            found[k - 1].0@,
            found[k - 1].1,
            window,
        ));
        assert forall|i: int| 0 <= i < steps[k].len() implies #[trigger] steps[k][i] == (SearchHit {
            sentence_window: steps[k][i].sentence_window,
            ..steps[0][i]
        }) by {
            assert(mid[i] == (SearchHit {
                sentence_window: mid[i].sentence_window,
                ..steps[0][i]
            }));
        }
    }
}

} // verus!
