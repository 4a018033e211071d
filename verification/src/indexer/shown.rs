//! Which hits of a search are shown and why the others are not, said of the hits that are given
//! and those that come out.

use crate::indexer::rank;
use crate::indexer::rank::SearchHit;
use crate::json;
use crate::rows;
use crate::text;
use vstd::prelude::*;

verus! {

// ---- Nodes of an outline

/// Where a hit stands in its document.
pub open spec fn place_of(h: SearchHit) -> Option<Seq<Seq<char>>> {
    match h.path_json {
        Some(p) => json::json_strings(p@),
        None => None,
    }
}

pub open spec fn places_of(hits: Seq<SearchHit>) -> Seq<Option<Seq<Seq<char>>>> {
    Seq::new(hits.len(), |i: int| place_of(hits[i]))
}

/// Whether the hit numbered `j` is of the same document as the one numbered `i`, and stands
/// below it: its path is longer and begins with the other's.
pub open spec fn is_below(
    hits: Seq<SearchHit>,
    places: Seq<Option<Seq<Seq<char>>>>,
    i: int,
    j: int,
) -> bool {
    &&& 0 <= j < hits.len()
    &&& hits[j].doc_name@ == hits[i].doc_name@
    &&& places[i] matches Some(p) && (places[j] matches Some(q) && p.len() < q.len() && forall|
        k: int,
    | 0 <= k < p.len() ==> #[trigger] p[k] == q[k])
}

/// Whether a hit is of a file that holds an outline, and another hit stands below it.
pub open spec fn has_one_below(
    hits: Seq<SearchHit>,
    places: Seq<Option<Seq<Seq<char>>>>,
    i: int,
) -> bool {
    let name = text::lowercase(hits[i].doc_name@);
    &&& text::ends_with(name, ".opml"@) || text::ends_with(name, ".mm"@)
    &&& exists|j: int| #[trigger] is_below(hits, places, i, j)
}

/// The hits that come out are those that were given but for the nodes of outlines that others
/// stand below, each once, with the best first; of hits that are equally good the earlier one.
/// `at` tells which of the given hits each is.
pub open spec fn is_pruned_at(
    hits: Seq<SearchHit>,
    places: Seq<Option<Seq<Seq<char>>>>,
    r: Seq<SearchHit>,
    at: Seq<int>,
) -> bool {
    &&& at.len() == r.len()
    &&& forall|i: int|
        0 <= i < at.len() ==> 0 <= #[trigger] at[i] < hits.len() && r[i] == hits[at[i]]
    &&& forall|i: int, j: int|
        0 <= i < j < at.len() ==> hits[#[trigger] at[i]].score > hits[#[trigger] at[j]].score || (
        hits[at[i]].score == hits[at[j]].score && at[i] < at[j])
    &&& forall|k: int|
        0 <= k < hits.len() ==> (#[trigger] at.contains(k) <==> !has_one_below(hits, places, k))
}

pub open spec fn is_pruned(
    hits: Seq<SearchHit>,
    places: Seq<Option<Seq<Seq<char>>>>,
    r: Seq<SearchHit>,
) -> bool {
    exists|at: Seq<int>| #[trigger] is_pruned_at(hits, places, r, at)
}

proof fn lemma_below(
    hits: Seq<SearchHit>,
    places: Seq<Option<Seq<Seq<char>>>>,
    i: int,
)
    requires
        0 <= i < hits.len(),
    ensures
        rank::is_covered(hits, places, i) == has_one_below(hits, places, i),
{
    assert forall|j: int| 0 <= j < hits.len() implies rank::covers(hits, places, i, j) == is_below(
        hits,
        places,
        i,
        j,
    ) by {
        match (places[i], places[j]) {
            (Some(p), Some(q)) => {
                if p.len() < q.len() {
                    if forall|k: int| 0 <= k < p.len() ==> #[trigger] p[k] == q[k] {
                        assert(q.take(p.len() as int) =~= p);
                    }
                    if q.take(p.len() as int) == p {
                        assert forall|k: int| 0 <= k < p.len() implies #[trigger] p[k] == q[k] by {
                            assert(q.take(p.len() as int)[k] == q[k]);
                        }
                    }
                }
            },
            _ => {},
        }
    }
    if rank::is_covered(hits, places, i) {
        let j = choose|j: int| 0 <= j < hits.len() && #[trigger] rank::covers(hits, places, i, j);
        assert(is_below(hits, places, i, j));
    }
    if has_one_below(hits, places, i) {
        let j = choose|j: int| #[trigger] is_below(hits, places, i, j);
        assert(rank::covers(hits, places, i, j));
    }
}

proof fn lemma_uncovered(
    hits: Seq<SearchHit>,
    places: Seq<Option<Seq<Seq<char>>>>,
    n: int,
) -> (at: Seq<int>)
    requires
        0 <= n <= hits.len(),
    ensures
        at.len() == rank::uncovered(hits, places, n).len(),
        forall|i: int|
            0 <= i < at.len() ==> 0 <= #[trigger] at[i] < n && rank::uncovered(hits, places, n)[i]
                == hits[at[i]],
        forall|i: int, j: int| 0 <= i < j < at.len() ==> (#[trigger] at[i]) < (#[trigger] at[j]),
        forall|k: int|
            0 <= k < n ==> (#[trigger] at.contains(k) <==> !has_one_below(hits, places, k)),
    decreases n,
{
    if n == 0 {
        Seq::empty()
    } else {
        let before = lemma_uncovered(hits, places, n - 1);
        lemma_below(hits, places, n - 1);
        let at = if rank::is_covered(hits, places, n - 1) {
            before
        } else {
            before.push(n - 1)
        };
        assert forall|k: int| 0 <= k < n implies (#[trigger] at.contains(k) <==> !has_one_below(
            hits,
            places,
            k,
        )) by {
            if k < n - 1 {
                assert(before.contains(k) <==> !has_one_below(hits, places, k));
                if before.contains(k) {
                    let x = choose|x: int| 0 <= x < before.len() && before[x] == k;
                    assert(at[x] == k);
                }
                if at.contains(k) {
                    let x = choose|x: int| 0 <= x < at.len() && at[x] == k;
                    assert(before[x] == k);
                }
            } else {
                if !rank::is_covered(hits, places, n - 1) {
                    assert(at[at.len() - 1] == k);
                } else if at.contains(k) {
                    let x = choose|x: int| 0 <= x < at.len() && at[x] == k;
                    assert(at[x] < n - 1);
                }
            }
        }
        at
    }
}

/// Of an outline only a node that another hit of the same document stands below goes; every
/// other hit comes out, once and as it was, with the best first.
pub proof fn law_only_nodes_above_others_go(
    hits: Seq<SearchHit>,
    places: Seq<Option<Seq<Seq<char>>>>,
)
    requires
        places.len() == hits.len(),
    ensures
        is_pruned(hits, places, rank::deduped(hits, places)),
{
    let n = hits.len() as int;
    let r = rank::deduped(hits, places);
    let stay = lemma_uncovered(hits, places, n);
    let left = rank::uncovered(hits, places, n);
    if n <= 1 {
        let at = Seq::new(hits.len(), |i: int| i);
        assert forall|k: int| 0 <= k < hits.len() implies (#[trigger] at.contains(k)
            <==> !has_one_below(hits, places, k)) by {
            assert(at[k] == k);
            if has_one_below(hits, places, k) {
                let j = choose|j: int| #[trigger] is_below(hits, places, k, j);
                assert(j == k);
            }
        }
        assert(is_pruned_at(hits, places, r, at));
    } else {
        let keys = rank::score_keys(left);
        let order = rows::order_of(keys);
        rows::lemma_order_of_first(keys, keys.len() as int);
        let at = Seq::new(order.len(), |i: int| stay[order[i]]);
        assert forall|i: int| 0 <= i < at.len() implies 0 <= #[trigger] at[i] < hits.len() && r[i]
            == hits[at[i]] by {
            assert(r[i] == left[order[i]]);
            assert(at[i] == stay[order[i]]);
        }
        assert forall|i: int, j: int| 0 <= i < j < at.len() implies hits[#[trigger] at[i]].score
            > hits[#[trigger] at[j]].score || (hits[at[i]].score == hits[at[j]].score && at[i]
            < at[j]) by {
            let (a, b) = (order[i], order[j]);
            assert(rows::row_lt(keys, a, b));
            assert(left[a] == hits[stay[a]] && left[b] == hits[stay[b]]);
            reveal_with_fuel(rows::key_lt, 3);
            assert(keys[a] == seq![-(left[a].score as int)]);
            assert(keys[b] == seq![-(left[b].score as int)]);
            assert(keys[a][0] == -(left[a].score as int));
            assert(keys[b][0] == -(left[b].score as int));
            assert(keys[a].drop_first().len() == 0 && keys[b].drop_first().len() == 0);
        }
        assert forall|k: int| 0 <= k < hits.len() implies (#[trigger] at.contains(k)
            <==> !has_one_below(hits, places, k)) by {
            assert(stay.contains(k) <==> !has_one_below(hits, places, k));
            if stay.contains(k) {
                let x = choose|x: int| 0 <= x < stay.len() && stay[x] == k;
                assert(order.contains(x));
                let y = choose|y: int| 0 <= y < order.len() && order[y] == x;
                assert(at[y] == k);
            }
            if at.contains(k) {
                let y = choose|y: int| 0 <= y < at.len() && at[y] == k;
                assert(stay[order[y]] == k);
            }
        }
        assert(is_pruned_at(hits, places, r, at));
    }
}

/// A hit that is the only one of its document is never dropped.
pub proof fn law_a_lone_hit_stays(
    hits: Seq<SearchHit>,
    places: Seq<Option<Seq<Seq<char>>>>,
    i: int,
)
    requires
        places.len() == hits.len(),
        0 <= i < hits.len(),
        forall|j: int|
            0 <= j < hits.len() && j != i ==> (#[trigger] hits[j]).doc_name@ != hits[i].doc_name@,
    ensures
        rank::deduped(hits, places).contains(hits[i]),
{
    law_only_nodes_above_others_go(hits, places);
    let r = rank::deduped(hits, places);
    let at = choose|at: Seq<int>| #[trigger] is_pruned_at(hits, places, r, at);
    if has_one_below(hits, places, i) {
        let j = choose|j: int| #[trigger] is_below(hits, places, i, j);
        assert(j == i);
    }
    assert(at.contains(i));
    let x = choose|x: int| 0 <= x < at.len() && at[x] == i;
    assert(r[x] == hits[i]);
}

// ---- Not too much of one document

pub open spec fn names(doc: Seq<char>) -> spec_fn(SearchHit) -> bool {
    |h: SearchHit| h.doc_name@ == doc
}

/// The hits that come out are given ones in their order; of no document are there more than
/// `max`, and one is left out only where `max` of its document come out that stand before it.
pub open spec fn is_thinned_at(
    hits: Seq<SearchHit>,
    max: nat,
    r: Seq<SearchHit>,
    at: Seq<int>,
) -> bool {
    &&& at.len() == r.len()
    &&& forall|i: int|
        0 <= i < at.len() ==> 0 <= #[trigger] at[i] < hits.len() && r[i] == hits[at[i]]
    &&& forall|i: int, j: int| 0 <= i < j < at.len() ==> (#[trigger] at[i]) < (#[trigger] at[j])
    &&& forall|doc: Seq<char>| (#[trigger] r.filter(names(doc))).len() <= max
    &&& forall|k: int|
        0 <= k < hits.len() && !(#[trigger] at.contains(k)) ==> at.filter(
            |a: int| a < k && hits[a].doc_name@ == hits[k].doc_name@,
        ).len() >= max
}

pub open spec fn is_thinned(hits: Seq<SearchHit>, max: nat, r: Seq<SearchHit>) -> bool {
    exists|at: Seq<int>| #[trigger] is_thinned_at(hits, max, r, at)
}

proof fn lemma_thinned(hits: Seq<SearchHit>, max: nat, n: int) -> (at: Seq<int>)
    requires
        0 <= n <= hits.len(),
    ensures
        at.len() == rank::thinned(hits, max, n).len(),
        forall|i: int|
            0 <= i < at.len() ==> 0 <= #[trigger] at[i] < n && rank::thinned(hits, max, n)[i]
                == hits[at[i]],
        forall|i: int, j: int| 0 <= i < j < at.len() ==> (#[trigger] at[i]) < (#[trigger] at[j]),
        forall|doc: Seq<char>|
            (#[trigger] rank::thinned(hits, max, n).filter(names(doc))).len() <= max,
        forall|k: int|
            0 <= k < n && !(#[trigger] at.contains(k)) ==> at.filter(
                |a: int| a < k && hits[a].doc_name@ == hits[k].doc_name@,
            ).len() >= max,
    decreases n,
{
    reveal(Seq::filter);
    if n == 0 {
        Seq::empty()
    } else {
        let b = lemma_thinned(hits, max, n - 1);
        let before = rank::thinned(hits, max, n - 1);
        let all = rank::thinned(hits, max, n);
        let h = hits[n - 1];
        let doc = h.doc_name@;
        rows::lemma_kept_is_filter(before, rank::of_doc(doc));
        lemma_same_filter(before, rank::of_doc(doc), names(doc));
        if before.filter(names(doc)).len() >= max {
            let p = |a: int| a < n - 1 && hits[a].doc_name@ == hits[n - 1].doc_name@;
            lemma_filter_at(hits, before, b, names(doc), p);
            assert forall|k: int| 0 <= k < n && !(#[trigger] b.contains(k)) implies b.filter(
                |a: int| a < k && hits[a].doc_name@ == hits[k].doc_name@,
            ).len() >= max by {
                if k == n - 1 {
                    lemma_same_filter(
                        b,
                        p,
                        |a: int| a < k && hits[a].doc_name@ == hits[k].doc_name@,
                    );
                }
            }
            b
        } else {
            let at = b.push(n - 1);
            assert(at.drop_last() =~= b);
            assert forall|d: Seq<char>| (#[trigger] all.filter(names(d))).len() <= max by {
                assert(all.drop_last() =~= before);
                assert(before.filter(names(d)).len() <= max);
            }
            assert forall|k: int| 0 <= k < n && !(#[trigger] at.contains(k)) implies at.filter(
                |a: int| a < k && hits[a].doc_name@ == hits[k].doc_name@,
            ).len() >= max by {
                let q = |a: int| a < k && hits[a].doc_name@ == hits[k].doc_name@;
                assert(at[at.len() - 1] == n - 1);
                if b.contains(k) {
                    let x = choose|x: int| 0 <= x < b.len() && b[x] == k;
                    assert(at[x] == k);
                }
                assert(!b.contains(k));
                assert(at.filter(q) == b.filter(q));
            }
            at
        }
    }
}

proof fn lemma_same_filter<T>(s: Seq<T>, p: spec_fn(T) -> bool, q: spec_fn(T) -> bool)
    requires
        forall|i: int| 0 <= i < s.len() ==> p(#[trigger] s[i]) == q(s[i]),
    ensures
        s.filter(p) == s.filter(q),
    decreases s.len(),
{
    reveal(Seq::filter);
    if s.len() > 0 {
        let init = s.drop_last();
        assert forall|i: int| 0 <= i < init.len() implies p(#[trigger] init[i]) == q(init[i]) by {
            assert(init[i] == s[i]);
        }
        lemma_same_filter(init, p, q);
        assert(p(s[s.len() - 1]) == q(s[s.len() - 1]));
    }
}

/// As many places fit as rows at these places do.
proof fn lemma_filter_at(
    hits: Seq<SearchHit>,
    r: Seq<SearchHit>,
    at: Seq<int>,
    p: spec_fn(SearchHit) -> bool,
    q: spec_fn(int) -> bool,
)
    requires
        at.len() == r.len(),
        forall|i: int| 0 <= i < at.len() ==> p(#[trigger] r[i]) == q(at[i]),
    ensures
        r.filter(p).len() == at.filter(q).len(),
    decreases at.len(),
{
    reveal(Seq::filter);
    if at.len() > 0 {
        let (r0, a0) = (r.drop_last(), at.drop_last());
        assert forall|i: int| 0 <= i < a0.len() implies p(#[trigger] r0[i]) == q(a0[i]) by {
            assert(r0[i] == r[i]);
        }
        lemma_filter_at(hits, r0, a0, p, q);
        assert(p(r[r.len() - 1]) == q(at[at.len() - 1]));
    }
}

/// Of each document the first so many hits stay, and nothing else is left out.
pub proof fn law_the_first_of_each_document_stay(hits: Seq<SearchHit>, max: nat)
    ensures
        is_thinned(hits, max, rank::thinned(hits, max, hits.len() as int)),
{
    let at = lemma_thinned(hits, max, hits.len() as int);
    assert(is_thinned_at(hits, max, rank::thinned(hits, max, hits.len() as int), at));
}

/// The start of a list, of at most `n` rows; all of them where there are no more.
pub open spec fn is_front(all: Seq<SearchHit>, n: nat, r: Seq<SearchHit>) -> bool {
    &&& r.len() <= n
    &&& r.len() <= all.len()
    &&& r.len() == n || r.len() == all.len()
    &&& forall|i: int| 0 <= i < r.len() ==> #[trigger] r[i] == all[i]
}

/// The hits that are shown of those found: first nodes of outlines above others go, then what
/// is too much of one document, then what is too much in all.
pub open spec fn is_shown(all: Seq<SearchHit>, max: nat, top: nat, r: Seq<SearchHit>) -> bool {
    exists|once: Seq<SearchHit>, few: Seq<SearchHit>|
        {
            &&& #[trigger] is_pruned(all, places_of(all), once)
            &&& #[trigger] is_thinned(once, max, few)
            &&& is_front(few, top, r)
        }
}

} // verus!
