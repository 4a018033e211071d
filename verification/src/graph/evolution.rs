//! How the graph grew, month by month.

use crate::graph::clusters;
use crate::graph::model::{ClusterGrowth, GraphEvolution, GraphNode};
use crate::graph::store::{EdgeRow, GraphStore};
use crate::rows;
use crate::text;
use crate::text::CharClass;
use vstd::prelude::*;

verus! {

/// The first and the last second, from the beginning of 1970, of which the month is known.
pub const MIN_SECOND: i64 = -210_866_760_000;

pub const MAX_SECOND: i64 = 253_402_300_799;

/// The days from the beginning of the year 0 to the beginning of 1970.
pub const EPOCH_DAYS: i64 = 719_528;

/// The days of 400 years, after which the calendar repeats.
pub const CYCLE_DAYS: i64 = 146_097;

pub open spec fn is_leap(y: int) -> bool {
    y % 4 == 0 && (y % 100 != 0 || y % 400 == 0)
}

pub open spec fn year_days(y: int) -> int {
    if is_leap(y) {
        366
    } else {
        365
    }
}

pub open spec fn month_days(y: int, m: int) -> int {
    if m == 2 {
        if is_leap(y) {
            29
        } else {
            28
        }
    } else if m == 4 || m == 6 || m == 9 || m == 11 {
        30
    } else {
        31
    }
}

/// A month of a year.
pub struct MonthV {
    pub year: int,
    pub month: int,
}

/// The month that lies `days` behind the beginning of the month `m` of the year `y`.
pub open spec fn month_from(days: int, y: int, m: int) -> MonthV
    decreases (if days > 0 { days } else { 0 }) + 12 - m,
{
    if m >= 12 || days < month_days(y, m) {
        MonthV { year: y, month: m }
    } else {
        month_from(days - month_days(y, m), y, m + 1)
    }
}

/// The month that lies `days` behind the beginning of the year `y`.
pub open spec fn month_after(days: int, y: int) -> MonthV
    decreases days,
{
    if days < year_days(y) {
        month_from(days, y, 1)
    } else {
        month_after(days - year_days(y), y + 1)
    }
}

/// The second that a number of milliseconds belongs to, counted towards zero.
pub open spec fn second_of(ms: int) -> int {
    if ms >= 0 {
        ms / 1000
    } else {
        -((-ms) / 1000)
    }
}

/// The month of a second.
pub open spec fn month_of_second(s: int) -> MonthV {
    let days = s / 86_400 + EPOCH_DAYS;
    month_after(days % (CYCLE_DAYS as int), 400 * (days / (CYCLE_DAYS as int)))
}

pub open spec fn zeros(n: nat) -> Seq<char> {
    Seq::new(n, |i: int| '0')
}

/// A number in at least `width` places.
pub open spec fn padded(n: nat, width: nat) -> Seq<char> {
    let t = text::nat_text(n);
    if t.len() < width {
        zeros((width - t.len()) as nat) + t
    } else {
        t
    }
}

/// A year in at least four places, with its sign where it is before the year 0.
pub open spec fn year_text(y: int) -> Seq<char> {
    if y < 0 {
        seq!['-'] + padded((-y) as nat, 3)
    } else {
        padded(y as nat, 4)
    }
}

/// The name of the month of a time, such as `2024-05`.
pub open spec fn month_text(ms: i64) -> Option<Seq<char>> {
    let s = second_of(ms as int);
    if MIN_SECOND <= s <= MAX_SECOND {
        let m = month_of_second(s);
        Some(year_text(m.year) + seq!['-'] + padded(m.month as nat, 2))
    } else {
        None
    }
}

fn leap(y: i64) -> (r: bool)
    requires
        -100_000 < y < 100_000,
    ensures
        r == is_leap(y as int),
{
    let z: i64 = y + 100_000;
    assert(z % 4 == (y as int) % 4 && z % 100 == (y as int) % 100 && z % 400 == (y as int) % 400);
    z % 4 == 0 && (z % 100 != 0 || z % 400 == 0)
}

fn days_in_month(y: i64, m: i64) -> (r: i64)
    requires
        -100_000 < y < 100_000,
    ensures
        r == month_days(y as int, m as int),
{
    if m == 2 {
        if leap(y) {
            29
        } else {
            28
        }
    } else if m == 4 || m == 6 || m == 9 || m == 11 {
        30
    } else {
        31
    }
}

fn pad(n: u64, width: usize) -> (r: String)
    ensures
        r@ == padded(n as nat, width as nat),
{
    let t = text::u64_text(n);
    let len = text::chars_of(&t).len();
    let mut r = String::new();
    let mut i: usize = len;
    assert(r@ =~= zeros(0));
    while i < width
        invariant
            i >= len,
            len <= width ==> i <= width,
            len >= width ==> i == len,
            r@ == zeros((i - len) as nat),
        decreases width - i,
    {
        r.push('0');
        assert(r@ =~= zeros((i + 1 - len) as nat));
        i += 1;
    }
    r.push_str(&t);
    assert(r@ =~= padded(n as nat, width as nat));
    r
}

/// The name of the month of a time, where it is one that the calendar knows.
pub fn month_of(ms: i64) -> (r: Option<String>)
    ensures
        match r {
            Some(t) => month_text(ms) == Some(t@),
            None => month_text(ms) is None,
        },
{
    let whole: i128 = ms as i128;
    let s: i64 = if whole >= 0 {
        (whole / 1000) as i64
    } else {
        -(((-whole) / 1000) as i64)
    };
    if s < MIN_SECOND || s > MAX_SECOND {
        return None;
    }
    // Both numbers are shifted to where they are not negative, by whole days and cycles.
    let days: i64 = (s + 86_400 * 3_000_000) / 86_400 - 3_000_000 + EPOCH_DAYS;
    let cycle: i64 = (days + CYCLE_DAYS * 20) / CYCLE_DAYS - 20;
    assert(days == (s as int) / 86_400 + EPOCH_DAYS);
    assert(cycle == (days as int) / (CYCLE_DAYS as int));
    let mut rest: i64 = days - cycle * CYCLE_DAYS;
    let mut y: i64 = 400 * cycle;
    let ghost goal = month_of_second(s as int);
    assert(month_after(rest as int, y as int) == goal);
    let ghost y0 = y;
    loop
        invariant
            0 <= rest < CYCLE_DAYS,
            -100_000 < y0 < 50_000,
            y0 <= y,
            365 * (y - y0) + rest < CYCLE_DAYS,
            month_after(rest as int, y as int) == goal,
        ensures
            0 <= rest < year_days(y as int),
            -100_000 < y < 100_000,
            month_from(rest as int, y as int, 1) == goal,
        decreases rest,
    {
        let len: i64 = if leap(y) {
            366
        } else {
            365
        };
        if rest < len {
            break;
        }
        rest -= len;
        y += 1;
    }
    let mut m: i64 = 1;
    while m < 12 && rest >= days_in_month(y, m)
        invariant
            1 <= m <= 12,
            0 <= rest < 400,
            -100_000 < y < 100_000,
            month_from(rest as int, y as int, m as int) == goal,
        decreases 12 - m,
    {
        rest -= days_in_month(y, m);
        m += 1;
    }
    let mut r = if y < 0 {
        let mut t = "-".to_owned();
        let p = pad((-y) as u64, 3);
        t.push_str(&p);
        proof {
            reveal_strlit("-");
        }
        assert(t@ =~= year_text(y as int));
        t
    } else {
        pad(y as u64, 4)
    };
    r.push('-');
    let p = pad(m as u64, 2);
    r.push_str(&p);
    assert(r@ =~= year_text(goal.year) + seq!['-'] + padded(goal.month as nat, 2));
    Some(r)
}

pub open spec fn text_keys(ts: Seq<Seq<char>>) -> Seq<Seq<int>> {
    Seq::new(ts.len(), |i: int| rows::text_key(ts[i]))
}

/// The different texts, in order.
pub open spec fn in_order(ts: Seq<Seq<char>>) -> Seq<Seq<char>> {
    let d = text::distinct(ts);
    rows::rows_at(d, rows::order_of(text_keys(d)))
}

/// The different texts, in order, and how often each occurs.
pub open spec fn tallied(ts: Seq<Seq<char>>) -> Seq<(Seq<char>, u64)> {
    Seq::new(
        in_order(ts).len(),
        |i: int| (in_order(ts)[i], text::count_of(ts, in_order(ts)[i]) as u64),
    )
}

pub open spec fn tally_view(v: Seq<(String, u64)>) -> Seq<(Seq<char>, u64)> {
    Seq::new(v.len(), |i: int| (v[i].0@, v[i].1))
}

/// The times at which the nodes came.
pub open spec fn node_times(nodes: Seq<GraphNode>) -> Seq<i64> {
    Seq::new(nodes.len(), |i: int| nodes[i].created_at->0)
}

pub open spec fn edge_times(edges: Seq<EdgeRow>) -> Seq<i64> {
    Seq::new(edges.len(), |i: int| edges[i].created_at)
}

/// Whether the calendar knows all the times.
pub open spec fn all_known(times: Seq<i64>) -> bool {
    forall|i: int| 0 <= i < times.len() ==> month_text(#[trigger] times[i]) is Some
}

pub open spec fn months_of(times: Seq<i64>) -> Seq<Seq<char>> {
    Seq::new(times.len(), |i: int| month_text(times[i])->0)
}

/// The cluster under which the growth of a path counts.
pub open spec fn growth_cluster(path: Seq<char>) -> Seq<char> {
    match text::index_from(path, text::only('/'), 0) {
        Some(i) => "cluster:"@ + path.take(i),
        None => clusters::ROOT_CLUSTER_ID@,
    }
}

pub open spec fn has_path() -> spec_fn(GraphNode) -> bool {
    |n: GraphNode| n.path is Some
}

/// The clusters under which the nodes count.
pub open spec fn growth_clusters(nodes: Seq<GraphNode>) -> Seq<Seq<char>> {
    Seq::new(nodes.len(), |i: int| growth_cluster(nodes[i].path->0@))
}

pub open spec fn counts_under(c: Seq<char>) -> spec_fn(GraphNode) -> bool {
    |n: GraphNode| n.path is Some && growth_cluster(n.path->0@) == c
}

/// The clusters that grew, in the reverse of their order.
pub open spec fn grown_clusters(nodes: Seq<GraphNode>) -> Seq<Seq<char>> {
    in_order(growth_clusters(rows::kept(nodes, has_path()))).reverse()
}

/// Whether the growth is that of the cluster.
pub open spec fn is_growth(g: ClusterGrowth, nodes: Seq<GraphNode>, c: Seq<char>) -> bool {
    &&& g.cluster_id@ == c
    &&& g.cluster_name@ == clusters::display_name(c)
    &&& tally_view(g.monthly@) == tallied(
        months_of(node_times(rows::kept(nodes, counts_under(c)))),
    )
}

fn sorted_texts(ts: &Vec<String>) -> (r: Vec<String>)
    ensures
        text::texts(r@) == in_order(text::texts(ts@)),
{
    let ghost vs = text::texts(ts@);
    let mut d: Vec<String> = Vec::new();
    let mut i: usize = 0;
    assert(text::texts(d@) =~= text::distinct(vs.take(0)));
    while i < ts.len()
        invariant
            i <= ts.len(),
            vs == text::texts(ts@),
            text::texts(d@) == text::distinct(vs.take(i as int)),
        decreases ts.len() - i,
    {
        proof {
            assert(vs.take(i + 1) =~= vs.take(i as int).push(vs[i as int]));
            text::lemma_distinct_push(vs.take(i as int), vs[i as int]);
        }
        text::push_distinct(&mut d, ts[i].clone());
        i += 1;
    }
    assert(vs.take(i as int) == vs);
    let ghost ds = text::texts(d@);
    let mut keys: Vec<Vec<i128>> = Vec::new();
    let mut j: usize = 0;
    while j < d.len()
        invariant
            j <= d.len(),
            keys@.len() == j,
            forall|k: int|
                0 <= k < j ==> rows::key_view(#[trigger] keys@[k]@) == rows::text_key(d@[k]@),
        decreases d.len() - j,
    {
        keys.push(rows::text_key_of(&d[j]));
        j += 1;
    }
    assert(rows::keys_view(keys@) =~= text_keys(ds));
    let order = rows::order_rows(&keys);
    let ghost sorted = rows::rows_at(ds, rows::indices(order@));
    let mut r: Vec<String> = Vec::new();
    let mut k: usize = 0;
    assert(text::texts(r@) =~= sorted.take(0));
    while k < order.len()
        invariant
            k <= order.len(),
            ds == text::texts(d@),
            forall|x: int| 0 <= x < order@.len() ==> (#[trigger] order@[x]) < d@.len(),
            sorted == rows::rows_at(ds, rows::indices(order@)),
            text::texts(r@) == sorted.take(k as int),
        decreases order.len() - k,
    {
        proof {
            assert(sorted[k as int] == d@[order@[k as int] as int]@);
            assert(sorted.take(k + 1) =~= sorted.take(k as int).push(sorted[k as int]));
            text::lemma_texts_push(r@, d@[order@[k as int] as int]);
        }
        r.push(d[order[k]].clone());
        k += 1;
    }
    assert(sorted.take(k as int) == sorted);
    r
}

fn tally_texts(ts: &Vec<String>) -> (r: Vec<(String, u64)>)
    ensures
        tally_view(r@) == tallied(text::texts(ts@)),
{
    let ghost vs = text::texts(ts@);
    let sorted = sorted_texts(ts);
    assert(text::texts(sorted@).len() == sorted@.len());
    let mut r: Vec<(String, u64)> = Vec::new();
    let mut i: usize = 0;
    while i < sorted.len()
        invariant
            i <= sorted.len(),
            vs == text::texts(ts@),
            r@.len() == i,
            forall|k: int|
                0 <= k < i ==> (#[trigger] r@[k]).0@ == sorted@[k]@ && r@[k].1 == text::count_of(
                    vs,
                    sorted@[k]@,
                ) as u64,
        decreases sorted.len() - i,
    {
        let n = text::count_text(ts, &sorted[i]);
        r.push((sorted[i].clone(), n as u64));
        i += 1;
    }
    assert(tally_view(r@) =~= tallied(vs));
    r
}

/// The months of the times, or nothing where the calendar does not know one.
fn months(times: &Vec<i64>) -> (r: Option<Vec<String>>)
    ensures
        match r {
            Some(v) => all_known(times@) && text::texts(v@) == months_of(times@),
            None => !all_known(times@),
        },
{
    let mut out: Vec<String> = Vec::new();
    let mut i: usize = 0;
    while i < times.len()
        invariant
            i <= times.len(),
            out@.len() == i,
            forall|k: int| 0 <= k < i ==> month_text(times@[k]) == Some((#[trigger] out@[k])@),
        decreases times.len() - i,
    {
        match month_of(times[i]) {
            Some(m) => {
                out.push(m);
            },
            None => {
                assert(month_text(times@[i as int]) is None);
                return None;
            },
        }
        i += 1;
    }
    assert forall|k: int| 0 <= k < times@.len() implies month_text(#[trigger] times@[k]) is Some by {
        assert(month_text(times@[k]) == Some(out@[k]@));
    }
    assert(text::texts(out@) =~= months_of(times@));
    Some(out)
}

fn cluster_of_growth(path: &str) -> (r: String)
    ensures
        r@ == growth_cluster(path@),
{
    let cs = text::chars_of(path);
    match text::index_at(&cs, &CharClass::Only('/'), 0) {
        Some(i) => {
            let mut r = "cluster:".to_owned();
            let top = text::slice_text(&cs, 0, i);
            assert(top@ =~= path@.take(i as int));
            r.push_str(&top);
            r
        },
        None => clusters::ROOT_CLUSTER_ID.to_owned(),
    }
}

/// Whether the growth of a graph is told; a time beyond the calendar cannot be.
pub open spec fn is_evolution(s: GraphStore, r: Result<GraphEvolution, String>) -> bool {
    match r {
        Ok(e) => {
            &&& all_known(node_times(s.nodes@))
            &&& all_known(edge_times(s.edges@))
            &&& tally_view(e.monthly_nodes@) == tallied(months_of(node_times(s.nodes@)))
            &&& tally_view(e.monthly_edges@) == tallied(months_of(edge_times(s.edges@)))
            &&& e.cluster_growth@.len() == grown_clusters(s.nodes@).len()
            &&& forall|i: int|
                0 <= i < e.cluster_growth@.len() ==> is_growth(
                    #[trigger] e.cluster_growth@[i],
                    s.nodes@,
                    grown_clusters(s.nodes@)[i],
                )
            &&& e.graph_version == s.version.value()
        },
        Err(e) => if !all_known(node_times(s.nodes@)) {
            e@ == "读取节点月度统计失败"@
        } else {
            !all_known(edge_times(s.edges@)) && e@ == "读取边月度统计失败"@
        },
    }
}

impl GraphStore {
    fn times_of_nodes(&self) -> (r: Vec<i64>)
        requires
            self.wf(),
        ensures
            r@ == node_times(self.nodes@),
    {
        let mut out: Vec<i64> = Vec::new();
        let mut i: usize = 0;
        while i < self.nodes.len()
            invariant
                i <= self.nodes.len(),
                self.wf(),
                out@.len() == i,
                forall|k: int| 0 <= k < i ==> #[trigger] out@[k] == self.nodes@[k].created_at->0,
            decreases self.nodes.len() - i,
        {
            assert(self.nodes@[i as int].created_at is Some);
            let t: i64 = match self.nodes[i].created_at {
                Some(t) => t,
                None => 0,
            };
            out.push(t);
            i += 1;
        }
        assert(out@ =~= node_times(self.nodes@));
        out
    }

    fn times_of_edges(&self) -> (r: Vec<i64>)
        ensures
            r@ == edge_times(self.edges@),
    {
        let mut out: Vec<i64> = Vec::new();
        let mut i: usize = 0;
        while i < self.edges.len()
            invariant
                i <= self.edges.len(),
                out@.len() == i,
                forall|k: int| 0 <= k < i ==> #[trigger] out@[k] == self.edges@[k].created_at,
            decreases self.edges.len() - i,
        {
            out.push(self.edges[i].created_at);
            i += 1;
        }
        assert(out@ =~= edge_times(self.edges@));
        out
    }

    fn clusters_of_growth(&self) -> (r: Vec<String>)
        ensures
            text::texts(r@) == growth_clusters(rows::kept(self.nodes@, has_path())),
    {
        let ghost all = self.nodes@;
        let mut out: Vec<String> = Vec::new();
        let mut i: usize = 0;
        assert(text::texts(out@) =~= growth_clusters(rows::kept(all.take(0), has_path())));
        while i < self.nodes.len()
            invariant
                i <= self.nodes.len(),
                all == self.nodes@,
                text::texts(out@) == growth_clusters(rows::kept(all.take(i as int), has_path())),
            decreases self.nodes.len() - i,
        {
            proof {
                assert(all.take(i + 1) == all.take(i as int).push(all[i as int]));
                rows::lemma_kept_push(all.take(i as int), all[i as int], has_path());
            }
            if let Some(p) = &self.nodes[i].path {
                let c = cluster_of_growth(p);
                proof {
                    text::lemma_texts_push(out@, c);
                    let before = rows::kept(all.take(i as int), has_path());
                    assert(growth_clusters(before.push(all[i as int])) =~= growth_clusters(
                        before,
                    ).push(c@));
                }
                out.push(c);
            }
            i += 1;
        }
        assert(all.take(i as int) == all);
        out
    }

    fn times_under(&self, c: &String) -> (r: Vec<i64>)
        requires
            self.wf(),
        ensures
            r@ == node_times(rows::kept(self.nodes@, counts_under(c@))),
    {
        let ghost all = self.nodes@;
        let mut out: Vec<i64> = Vec::new();
        let mut i: usize = 0;
        assert(out@ =~= node_times(rows::kept(all.take(0), counts_under(c@))));
        while i < self.nodes.len()
            invariant
                i <= self.nodes.len(),
                self.wf(),
                all == self.nodes@,
                out@ == node_times(rows::kept(all.take(i as int), counts_under(c@))),
            decreases self.nodes.len() - i,
        {
            proof {
                assert(all.take(i + 1) == all.take(i as int).push(all[i as int]));
                rows::lemma_kept_push(all.take(i as int), all[i as int], counts_under(c@));
                assert(self.nodes@[i as int].created_at is Some);
            }
            if let Some(p) = &self.nodes[i].path {
                if cluster_of_growth(p) == *c {
                    let t: i64 = match self.nodes[i].created_at {
                        Some(t) => t,
                        None => 0,
                    };
                    proof {
                        let before = rows::kept(all.take(i as int), counts_under(c@));
                        assert(node_times(before.push(all[i as int])) =~= node_times(before).push(t));
                    }
                    out.push(t);
                }
            }
            i += 1;
        }
        assert(all.take(i as int) == all);
        out
    }

    /// The growth of nodes, edges and clusters by months. It fails where the calendar does
    /// not know the time of a node or an edge.
    pub fn evolution(&self) -> (r: Result<GraphEvolution, String>)
        requires
            self.wf(),
        ensures
            is_evolution(*self, r),
    {
        let node_months = match months(&self.times_of_nodes()) {
            Some(v) => v,
            None => {
                return Err("读取节点月度统计失败".to_owned());
            },
        };
        let edge_months = match months(&self.times_of_edges()) {
            Some(v) => v,
            None => {
                return Err("读取边月度统计失败".to_owned());
            },
        };
        let under = self.clusters_of_growth();
        let sorted = sorted_texts(&under);
        let ghost want = grown_clusters(self.nodes@);
        assert(text::texts(sorted@).len() == sorted@.len());
        let mut growth: Vec<ClusterGrowth> = Vec::new();
        let mut i: usize = sorted.len();
        while i > 0
            invariant
                i <= sorted.len(),
                self.wf(),
                all_known(node_times(self.nodes@)),
                want == text::texts(sorted@).reverse(),
                want == grown_clusters(self.nodes@),
                want.len() == sorted@.len(),
                growth@.len() == sorted@.len() - i,
                forall|k: int|
                    0 <= k < growth@.len() ==> is_growth(
                        #[trigger] growth@[k],
                        self.nodes@,
                        want[k],
                    ),
            decreases i,
        {
            let c = &sorted[i - 1];
            let times = self.times_under(c);
            proof {
                assert(want[sorted@.len() - i] == c@);
                lemma_some_known(self.nodes@, counts_under(c@));
            }
            let own = match months(&times) {
                Some(v) => v,
                None => Vec::new(),
            };
            growth.push(
                ClusterGrowth {
                    cluster_id: c.clone(),
                    cluster_name: clusters::cluster_display_name(c),
                    monthly: tally_texts(&own),
                },
            );
            i -= 1;
        }
        Ok(
            GraphEvolution {
                monthly_nodes: tally_texts(&node_months),
                monthly_edges: tally_texts(&edge_months),
                cluster_growth: growth,
                graph_version: self.version.number(),
            },
        )
    }
}

proof fn lemma_some_known(nodes: Seq<GraphNode>, p: spec_fn(GraphNode) -> bool)
    requires
        all_known(node_times(nodes)),
    ensures
        all_known(node_times(rows::kept(nodes, p))),
{
    let some = rows::kept(nodes, p);
    rows::lemma_kept(nodes, p);
    assert forall|i: int| 0 <= i < node_times(some).len() implies month_text(
        #[trigger] node_times(some)[i],
    ) is Some by {
        let x = choose|x: int| 0 <= x < nodes.len() && nodes[x] == some[i];
        assert(node_times(nodes)[x] == node_times(some)[i]);
    }
}

} // verus!
