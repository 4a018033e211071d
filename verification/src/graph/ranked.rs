//! What comes first where things are compared, and how they are counted.

use crate::graph::advice;
use crate::graph::advice::RecommendationV;
use crate::graph::candidates;
use crate::graph::engine;
use crate::graph::evolution;
use crate::graph::model::{GraphAiCandidate, GraphNode};
use crate::graph::similar;
use crate::graph::similar::DuplicateV;
use crate::graph::store::{EdgeRow, FavoriteRow};
use crate::rows;
use crate::text;
use vstd::prelude::*;

verus! {

// ---- Documents

pub open spec fn importance() -> spec_fn((Seq<char>, u32)) -> int {
    |d: (Seq<char>, u32)| d.1 as int
}

/// The documents come with the most important ones first, all of them.
pub proof fn law_important_documents_come_first(ds: Seq<(Seq<char>, u32)>)
    ensures
        rows::is_top(ds, importance(), ds.len(), engine::by_importance(ds)),
{
    let keys = engine::importance_keys(ds);
    rows::lemma_order_of_first(keys, keys.len() as int);
    rows::lemma_top(ds, importance(), keys, ds.len());
}

/// A document with more edges, or a later one, is never less important; the name counts two
/// tenths, the edges one half and the time three tenths where they are at their most.
pub proof fn law_importance_rises_with_edges_and_time(
    path: Seq<char>,
    a: nat,
    b: nat,
    max_degree: nat,
    earlier: i64,
    later: i64,
    now: i64,
)
    requires
        a <= b,
        max_degree > 0,
        0 < earlier <= later,
        now >= 0,
    ensures
        engine::importance_of(path, a, max_degree, earlier, now) <= engine::importance_of(
            path,
            b,
            max_degree,
            earlier,
            now,
        ),
        engine::importance_of(path, a, max_degree, earlier, now) <= engine::importance_of(
            path,
            a,
            max_degree,
            later,
            now,
        ),
        engine::degree_share(max_degree, max_degree) == 500_000,
        engine::degree_share(0, max_degree) == 0,
        engine::recency(now, now) * 3 / 10 == 300_000 || now <= 0,
        engine::is_telling(text::lowercase(text::after_last(path, '/'))) ==> engine::importance_of(
            path,
            a,
            max_degree,
            earlier,
            now,
        ) == engine::degree_share(a, max_degree) + 3 * engine::recency(earlier, now) / 10 + 200_000,
        !engine::is_telling(text::lowercase(text::after_last(path, '/'))) ==> engine::importance_of(
            path,
            a,
            max_degree,
            earlier,
            now,
        ) == engine::degree_share(a, max_degree) + 3 * engine::recency(earlier, now) / 10,
{
    assert(engine::degree_share(a, max_degree) <= engine::degree_share(b, max_degree)) by {
        if b < max_degree {
            assert(500_000 * a as int / max_degree as int <= 500_000 * b as int / max_degree as int)
                by (nonlinear_arith)
                requires
                    a <= b,
                    max_degree > 0,
            ;
        } else if a < max_degree {
            assert(500_000 * a as int / max_degree as int <= 500_000) by (nonlinear_arith)
                requires
                    0 <= a < max_degree,
            ;
        }
    }
    assert(engine::degree_share(0, max_degree) == 0) by {
        assert(500_000 * 0int / max_degree as int == 0) by (nonlinear_arith)
            requires
                max_degree > 0,
        ;
    }
}

/// The most edges are at least one, at least those of each document, and those of one unless
/// none has any.
pub proof fn law_the_most_edges_are_those_of_one(ds: Seq<(Seq<char>, u64)>, n: int)
    requires
        0 <= n <= ds.len(),
    ensures
        engine::max_count(ds, n) >= 1,
        forall|i: int| 0 <= i < n ==> (#[trigger] ds[i]).1 <= engine::max_count(ds, n),
        engine::max_count(ds, n) == 1 || exists|i: int|
            0 <= i < n && (#[trigger] ds[i]).1 == engine::max_count(ds, n),
    decreases n,
{
    if n > 0 {
        law_the_most_edges_are_those_of_one(ds, n - 1);
        if ds[n - 1].1 <= engine::max_count(ds, n - 1) && engine::max_count(ds, n - 1) != 1 {
            let i = choose|i: int|
                0 <= i < n - 1 && (#[trigger] ds[i]).1 == engine::max_count(ds, n - 1);
            assert(ds[i].1 == engine::max_count(ds, n));
        }
        assert(ds[n - 1].1 == ds[n - 1].1);
    }
}

// ---- Proposals and marks

pub open spec fn sureness() -> spec_fn(GraphAiCandidate) -> int {
    |c: GraphAiCandidate| c.confidence as int
}

/// A list of proposals holds those in the state that is asked for, the surer ones first.
pub proof fn law_the_surer_come_first(
    cs: Seq<GraphAiCandidate>,
    status: Option<Seq<char>>,
    limit: u32,
)
    ensures
        rows::is_top(
            cs.filter(|c: GraphAiCandidate| status matches Some(s) ==> c.status@ == s),
            sureness(),
            limit as nat,
            candidates::candidate_list(cs, status, limit),
        ),
{
    let p = candidates::in_state(status);
    let q = |c: GraphAiCandidate| status matches Some(s) ==> c.status@ == s;
    assert forall|i: int| 0 <= i < cs.len() implies p(#[trigger] cs[i]) == q(cs[i]) by {}
    rows::lemma_kept_same(cs, p, q);
    let hits = rows::kept(cs, p);
    rows::lemma_top(hits, sureness(), candidates::confidence_keys(hits), limit as nat);
}

pub open spec fn mark_time() -> spec_fn(FavoriteRow) -> int {
    |f: FavoriteRow| f.created_at as int
}

/// The marks that are shown are those of nodes that are there, the latest first.
pub proof fn law_the_latest_marks_come_first(
    fs: Seq<FavoriteRow>,
    nodes: Seq<GraphNode>,
    limit: u32,
)
    ensures
        rows::is_top(
            fs.filter(
                |f: FavoriteRow|
                    exists|i: int| 0 <= i < nodes.len() && (#[trigger] nodes[i]).id@ == f.node_id@,
            ),
            mark_time(),
            limit as nat,
            candidates::recent_favorites(fs, nodes, limit),
        ),
{
    let p = candidates::marks_node(nodes);
    let q = |f: FavoriteRow|
        exists|i: int| 0 <= i < nodes.len() && (#[trigger] nodes[i]).id@ == f.node_id@;
    assert forall|i: int| 0 <= i < fs.len() implies p(#[trigger] fs[i]) == q(fs[i]) by {
        let key = crate::graph::store::node_key();
        rows::lemma_row_index(nodes, key, fs[i].node_id@, 0);
        match crate::graph::store::node_index(nodes, fs[i].node_id@) {
            Some(x) => {
                assert(nodes[x].id@ == fs[i].node_id@);
            },
            None => {
                assert forall|j: int| 0 <= j < nodes.len() implies (#[trigger] nodes[j]).id@
                    != fs[i].node_id@ by {
                    assert(key(nodes[j]) != fs[i].node_id@);
                }
            },
        }
    }
    rows::lemma_kept_same(fs, p, q);
    let hits = rows::kept(fs, p);
    rows::lemma_top(hits, mark_time(), candidates::recent_keys(hits), limit as nat);
}

// ---- Duplicates

/// Whether the pairs are those of entities that may be the same, each once, the earlier ones
/// first; `at` tells which two each is of.
pub open spec fn are_pairs(
    es: Seq<GraphNode>,
    n: int,
    r: Seq<DuplicateV>,
    at: Seq<(int, int)>,
) -> bool {
    &&& at.len() == r.len()
    &&& forall|k: int|
        0 <= k < at.len() ==> 0 <= (#[trigger] at[k]).0 < n && at[k].0 < at[k].1 < es.len()
            && similar::may_be_same(es[at[k].0], es[at[k].1]) && r[k].node_a == es[at[k].0].id@
            && r[k].node_b == es[at[k].1].id@ && r[k].name_a == es[at[k].0].name@ && r[k].name_b
            == es[at[k].1].name@
    &&& forall|j: int, k: int|
        0 <= j < k < at.len() ==> (#[trigger] at[j]).0 < (#[trigger] at[k]).0 || (at[j].0
            == at[k].0 && at[j].1 < at[k].1)
    &&& forall|a: int, b: int|
        0 <= a < n && a < b < es.len() && #[trigger] similar::may_be_same(es[a], es[b])
            ==> at.contains((a, b))
}

proof fn lemma_like_one(es: Seq<GraphNode>, i: int, j: int) -> (at: Seq<int>)
    requires
        0 <= i < es.len(),
        i < j <= es.len(),
    ensures
        at.len() == similar::like_one(es, i, j).len(),
        forall|k: int|
            0 <= k < at.len() ==> i < #[trigger] at[k] < j && similar::may_be_same(es[i], es[at[k]])
                && similar::like_one(es, i, j)[k] == similar::duplicate_of(es[i], es[at[k]]),
        forall|a: int, b: int| 0 <= a < b < at.len() ==> #[trigger] at[a] < #[trigger] at[b],
        forall|b: int|
            i < b < j && #[trigger] similar::may_be_same(es[i], es[b]) ==> at.contains(b),
    decreases j - i,
{
    if j <= i + 1 {
        Seq::empty()
    } else {
        let at = lemma_like_one(es, i, j - 1);
        if similar::may_be_same(es[i], es[j - 1]) {
            let more = at.push(j - 1);
            assert forall|b: int| i < b < j && #[trigger] similar::may_be_same(
                es[i],
                es[b],
            ) implies more.contains(b) by {
                if b < j - 1 {
                    assert(at.contains(b));
                    let x = choose|x: int| 0 <= x < at.len() && at[x] == b;
                    assert(more[x] == b);
                } else {
                    assert(more[at.len() as int] == b);
                }
            }
            more
        } else {
            at
        }
    }
}

/// All pairs of different names that are alike enough come up, each once.
pub proof fn law_all_that_is_alike_comes_up(es: Seq<GraphNode>, n: int)
    requires
        0 <= n <= es.len(),
    ensures
        exists|at: Seq<(int, int)>| #[trigger] are_pairs(es, n, similar::like_any(es, n), at),
    decreases n,
{
    let r = similar::like_any(es, n);
    if n == 0 {
        assert(are_pairs(es, n, r, Seq::empty()));
    } else {
        law_all_that_is_alike_comes_up(es, n - 1);
        let before = similar::like_any(es, n - 1);
        let at = choose|at: Seq<(int, int)>| #[trigger] are_pairs(es, n - 1, before, at);
        let own = lemma_like_one(es, n - 1, es.len() as int);
        let more = at + Seq::new(own.len(), |k: int| (n - 1, own[k]));
        assert forall|k: int| 0 <= k < more.len() implies 0 <= (#[trigger] more[k]).0 < n
            && more[k].0 < more[k].1 < es.len() && similar::may_be_same(
            es[more[k].0],
            es[more[k].1],
        ) && r[k].node_a == es[more[k].0].id@ && r[k].node_b == es[more[k].1].id@ && r[k].name_a
            == es[more[k].0].name@ && r[k].name_b == es[more[k].1].name@ by {
            if k < at.len() {
                assert(more[k] == at[k]);
                assert(r[k] == before[k]);
            } else {
                let x = own[k - at.len()];
                assert(more[k] == (n - 1, x));
            }
        }
        assert forall|j: int, k: int| 0 <= j < k < more.len() implies (#[trigger] more[j]).0 < (
        #[trigger] more[k]).0 || (more[j].0 == more[k].0 && more[j].1 < more[k].1) by {
            if k < at.len() {
                assert(more[j] == at[j] && more[k] == at[k]);
            } else if j < at.len() {
                assert(more[j] == at[j]);
            } else {
                assert(own[j - at.len()] < own[k - at.len()]);
            }
        }
        assert forall|a: int, b: int|
            0 <= a < n && a < b < es.len() && #[trigger] similar::may_be_same(
                es[a],
                es[b],
            ) implies more.contains((a, b)) by {
            if a < n - 1 {
                assert(at.contains((a, b)));
                let x = choose|x: int| 0 <= x < at.len() && at[x] == (a, b);
                assert(more[x] == (a, b));
            } else {
                assert(own.contains(b));
                let x = choose|x: int| 0 <= x < own.len() && own[x] == b;
                assert(more[at.len() + x] == (a, b));
            }
        }
        assert(are_pairs(es, n, r, more));
    }
}

/// Two entities may be the same where both have a name, the names differ, and of the longer
/// name at most three characters in twenty would have to be changed.
pub proof fn law_the_same_differ_by_little(a: GraphNode, b: GraphNode)
    ensures
        ({
            let x = crate::graph::merger::canonical(a.name@);
            let y = crate::graph::merger::canonical(b.name@);
            let d = similar::distance(x, y, x.len() as int, y.len() as int);
            let most = if x.len() >= y.len() {
                x.len()
            } else {
                y.len()
            };
            similar::may_be_same(a, b) <==> x.len() > 0 && y.len() > 0 && x != y && 20 * d <= 3
                * most
        }),
{
    let x = crate::graph::merger::canonical(a.name@);
    let y = crate::graph::merger::canonical(b.name@);
    let d = similar::distance(x, y, x.len() as int, y.len() as int) as int;
    let n = similar::longer(x, y) as int;
    if n > 0 {
        let m = (n - d) * 1_000_000;
        assert(m / n >= 850_000 <==> m >= 850_000 * n) by (nonlinear_arith)
            requires
                n > 0,
        ;
        assert(m == 1_000_000 * n - 1_000_000 * d) by (nonlinear_arith)
            requires
                m == (n - d) * 1_000_000,
        ;
    }
}

// ---- Recommendations

/// How many neighbours two nodes have in common.
pub open spec fn shared(edges: Seq<EdgeRow>, id: Seq<char>, x: Seq<char>) -> nat {
    advice::neighbors(edges, id).filter(
        |y: Seq<char>| advice::neighbors(edges, y).contains(x),
    ).len()
}

proof fn lemma_once(s: Seq<Seq<char>>, x: Seq<char>)
    requires
        s.no_duplicates(),
    ensures
        text::count_of(s, x) == if s.contains(x) {
            1nat
        } else {
            0
        },
    decreases s.len(),
{
    if s.len() > 0 {
        let init = s.drop_last();
        assert(init.no_duplicates()) by {
            assert forall|i: int, j: int|
                0 <= i < init.len() && 0 <= j < init.len() && i != j implies init[i]
                != init[j] by {
                assert(s[i] != s[j]);
            }
        }
        lemma_once(init, x);
        if init.contains(x) {
            let i = choose|i: int| 0 <= i < init.len() && init[i] == x;
            assert(s[i] == x);
            assert(s[i] != s[s.len() - 1]);
        }
        if s.contains(x) && s.last() != x {
            let i = choose|i: int| 0 <= i < s.len() && s[i] == x;
            assert(init[i] == x);
        }
        if s.last() == x {
            assert(s[s.len() - 1] == x);
        }
    }
}

proof fn lemma_count_sum(a: Seq<Seq<char>>, b: Seq<Seq<char>>, x: Seq<char>)
    ensures
        text::count_of(a + b, x) == text::count_of(a, x) + text::count_of(b, x),
    decreases b.len(),
{
    if b.len() == 0 {
        assert(a + b =~= a);
    } else {
        lemma_count_sum(a, b.drop_last(), x);
        assert((a + b).drop_last() =~= a + b.drop_last());
        assert((a + b).last() == b.last());
    }
}

proof fn lemma_second(
    edges: Seq<EdgeRow>,
    id: Seq<char>,
    near: Seq<Seq<char>>,
    n: int,
    x: Seq<char>,
)
    requires
        0 <= n <= near.len(),
    ensures
        text::count_of(advice::second_neighbors(edges, id, near, n), x) == if x != id
            && !near.contains(x) {
            near.take(n).filter(|y: Seq<char>| advice::neighbors(edges, y).contains(x)).len()
        } else {
            0
        },
    decreases n,
{
    reveal(Seq::filter);
    if n > 0 {
        lemma_second(edges, id, near, n - 1, x);
        let y = near[n - 1];
        let all = advice::neighbors(edges, y);
        let p = advice::is_new_to(id, near);
        let few = rows::kept(all, p);
        rows::lemma_kept(all, p);
        text::lemma_distinct(crate::graph::explore::way_ids(
            edges,
            y,
            crate::graph::path::path_scope(),
        ));
        let same = |z: Seq<char>| z;
        rows::lemma_kept_distinct(all, p, same);
        lemma_once(few, x);
        if few.contains(x) {
            let i = choose|i: int| 0 <= i < few.len() && few[i] == x;
            assert(p(few[i]));
            assert(all.contains(few[i]));
        }
        if all.contains(x) && p(x) {
            let i = choose|i: int| 0 <= i < all.len() && all[i] == x;
            assert(p(all[i]));
            assert(few.contains(all[i]));
        }
        lemma_count_sum(advice::second_neighbors(edges, id, near, n - 1), few, x);
        assert(near.take(n).drop_last() =~= near.take(n - 1));
        assert(near.take(n).last() == y);
    }
}

/// What is two steps away comes up as often as it shares neighbours with the node; the node
/// itself and its neighbours do not.
pub proof fn law_what_shares_neighbours_is_recommended(
    edges: Seq<EdgeRow>,
    id: Seq<char>,
    x: Seq<char>,
)
    ensures
        text::count_of(advice::two_steps_away(edges, id), x) == if x != id && !advice::neighbors(
            edges,
            id,
        ).contains(x) {
            shared(edges, id, x)
        } else {
            0
        },
{
    let near = advice::neighbors(edges, id);
    lemma_second(edges, id, near, near.len() as int, x);
    assert(near.take(near.len() as int) =~= near);
}

pub open spec fn worth() -> spec_fn(RecommendationV) -> int {
    |r: RecommendationV| r.score as int
}

/// A common neighbour counts two and an edge one, and what counts most is recommended first.
pub proof fn law_the_most_recommended_come_first(
    all: Seq<RecommendationV>,
    limit: nat,
    common: nat,
    degree: u32,
)
    requires
        common * 2 + degree <= u64::MAX,
    ensures
        rows::is_top(
            all,
            worth(),
            limit,
            rows::limited(rows::rows_at(all, rows::order_of(advice::score_keys(all))), limit),
        ),
        advice::score_of(common, degree) == 2 * common + degree,
{
    rows::lemma_top(all, worth(), advice::score_keys(all), limit);
}

// ---- Months

/// How many days lie before the year in the calendar, counted from the year nought on.
pub open spec fn days_before(y: int) -> int {
    365 * y + (y + 3) / 4 - (y + 99) / 100 + (y + 399) / 400
}

/// How many days of a year lie before its month.
pub open spec fn days_of_months_before(y: int, m: int) -> int
    decreases m,
{
    if m <= 1 {
        0
    } else {
        days_of_months_before(y, m - 1) + evolution::month_days(y, m - 1)
    }
}

/// Whether a day lies in the month.
pub open spec fn lies_in_month(day: int, y: int, m: int) -> bool {
    let first = days_before(y) + days_of_months_before(y, m);
    1 <= m <= 12 && first <= day < first + evolution::month_days(y, m)
}

proof fn lemma_year(y: int)
    requires
        0 <= y,
    ensures
        days_before(y + 1) == days_before(y) + (if y % 4 == 0 && (y % 100 != 0 || y % 400 == 0) {
            366int
        } else {
            365
        }),
{
}

proof fn lemma_months(y: int)
    ensures
        days_of_months_before(y, 12) + 31 == (if y % 4 == 0 && (y % 100 != 0 || y % 400 == 0) {
            366int
        } else {
            365
        }),
{
    reveal_with_fuel(days_of_months_before, 13);
}

proof fn lemma_month_from(days: int, y: int, m: int, all: int)
    requires
        1 <= m <= 12,
        0 <= days,
        all == days_before(y) + days_of_months_before(y, m) + days,
        days_of_months_before(y, m) + days < days_of_months_before(y, 12) + 31,
    ensures
        lies_in_month(all, y, evolution::month_from(days, y, m).month),
        evolution::month_from(days, y, m).year == y,
    decreases 12 - m,
{
    if m < 12 && days >= evolution::month_days(y, m) {
        assert(days_of_months_before(y, m + 1) == days_of_months_before(y, m)
            + evolution::month_days(y, m));
        lemma_month_from(days - evolution::month_days(y, m), y, m + 1, all);
    }
}

proof fn lemma_month_after(days: int, y: int)
    requires
        0 <= days,
        0 <= y,
    ensures
        ({
            let m = evolution::month_after(days, y);
            lies_in_month(days_before(y) + days, m.year, m.month)
        }),
    decreases days,
{
    lemma_year(y);
    lemma_months(y);
    if days < evolution::year_days(y) {
        assert(days_of_months_before(y, 1) == 0);
        lemma_month_from(days, y, 1, days_before(y) + days);
    } else {
        lemma_month_after(days - evolution::year_days(y), y + 1);
    }
}

/// The month that is named is the one in which the day lies: a year has 365 days, and one more
/// every fourth year but for the hundredth, save the four hundredth.
pub proof fn law_a_day_lies_in_its_month(day: int)
    requires
        0 <= day < 146_097,
    ensures
        ({
            let m = evolution::month_after(day, 0);
            lies_in_month(day, m.year, m.month)
        }),
{
    lemma_month_after(day, 0);
    assert(days_before(0) == 0);
}

pub open spec fn same_as(x: Seq<char>) -> spec_fn(Seq<char>) -> bool {
    |y: Seq<char>| y == x
}

/// Each of the texts is counted once, under itself, as often as it occurs.
pub proof fn law_every_month_is_counted(ts: Seq<Seq<char>>)
    ensures
        ({
            let r = evolution::tallied(ts);
            &&& forall|i: int|
                0 <= i < r.len() ==> ts.contains((#[trigger] r[i]).0) && (ts.len() <= u64::MAX
                    ==> r[i].1 == ts.filter(same_as(r[i].0)).len())
            &&& forall|i: int, j: int|
                0 <= i < j < r.len() ==> (#[trigger] r[i]).0 != (#[trigger] r[j]).0
            &&& forall|k: int|
                0 <= k < ts.len() ==> exists|i: int|
                    0 <= i < r.len() && (#[trigger] r[i]).0 == #[trigger] ts[k]
        }),
{
    let d = text::distinct(ts);
    let keys = evolution::text_keys(d);
    let order = rows::order_of(keys);
    let r = evolution::tallied(ts);
    text::lemma_distinct(ts);
    rows::lemma_order_of_first(keys, keys.len() as int);
    assert forall|i: int| 0 <= i < r.len() implies ts.contains((#[trigger] r[i]).0) && (ts.len()
        <= u64::MAX ==> r[i].1 == ts.filter(same_as(r[i].0)).len()) by {
        assert(r[i].0 == d[order[i]]);
        assert(d.contains(d[order[i]]));
        lemma_counted_alike(ts, r[i].0);
    }
    assert forall|i: int, j: int| 0 <= i < j < r.len() implies (#[trigger] r[i]).0 != (
    #[trigger] r[j]).0 by {
        assert(r[i].0 == d[order[i]] && r[j].0 == d[order[j]]);
        assert(rows::row_lt(keys, order[i], order[j]));
        if order[i] == order[j] {
            rows::lemma_key_lt_irreflexive(keys[order[i]]);
        }
        assert(d[order[i]] != d[order[j]]);
    }
    assert forall|k: int| 0 <= k < ts.len() implies exists|i: int|
        0 <= i < r.len() && (#[trigger] r[i]).0 == #[trigger] ts[k] by {
        assert(ts.contains(ts[k]));
        assert(d.contains(ts[k]));
        let x = choose|x: int| 0 <= x < d.len() && d[x] == ts[k];
        assert(order.contains(x));
        let i = choose|i: int| 0 <= i < order.len() && order[i] == x;
        assert(r[i].0 == ts[k]);
    }
}

proof fn lemma_counted_alike(ts: Seq<Seq<char>>, x: Seq<char>)
    ensures
        text::count_of(ts, x) == ts.filter(same_as(x)).len(),
        text::count_of(ts, x) <= ts.len(),
    decreases ts.len(),
{
    reveal(Seq::filter);
    if ts.len() > 0 {
        lemma_counted_alike(ts.drop_last(), x);
    }
}

} // verus!
