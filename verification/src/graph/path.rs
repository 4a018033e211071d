//! Shortest paths between two nodes.

use crate::graph::explore;
use crate::graph::model::{GraphEdge, GraphNode, GraphPath};
use crate::graph::query;
use crate::graph::query::Scope;
use crate::graph::store;
use crate::graph::store::{EdgeRow, GraphStore};
use crate::rows;
use crate::text;
use vstd::prelude::*;

verus! {

/// How many edges a path may take at each node and direction, the heaviest ones.
pub const PATH_FANOUT: u32 = 500;

/// Paths follow edges of every relation and weight.
pub open spec fn path_scope() -> Scope {
    Scope { relations: None, weight_min: 0, limit: PATH_FANOUT }
}

pub open spec fn path_step(edges: Seq<EdgeRow>, a: Seq<char>, b: Seq<char>) -> bool {
    query::is_step(edges, path_scope(), a, b)
}

/// Whether a step from one of `from` leads to `x`.
pub open spec fn steps_into(edges: Seq<EdgeRow>, from: Set<Seq<char>>, x: Seq<char>) -> bool {
    exists|y: Seq<char>| #[trigger] from.contains(y) && path_step(edges, y, x)
}

/// What is at most `k` steps from `root`.
pub open spec fn reach(edges: Seq<EdgeRow>, root: Seq<char>, k: nat) -> Set<Seq<char>>
    decreases k,
{
    if k == 0 {
        set![root]
    } else {
        let inner = reach(edges, root, (k - 1) as nat);
        inner.union(Set::new(|x: Seq<char>| steps_into(edges, inner, x)))
    }
}

/// Whether each of the ids is a step from the one before it.
pub open spec fn is_chain(edges: Seq<EdgeRow>, p: Seq<Seq<char>>) -> bool {
    forall|i: int, j: int|
        #![trigger p[i], p[j]]
        0 <= i && j == i + 1 && j < p.len() ==> path_step(edges, p[i], p[j])
}

/// The nodes of the first `n` ids that are in the table, with their degrees.
pub open spec fn counted_all(
    nodes: Seq<GraphNode>,
    edges: Seq<EdgeRow>,
    ids: Seq<Seq<char>>,
    n: int,
) -> Seq<GraphNode>
    decreases n,
{
    if n <= 0 {
        Seq::empty()
    } else {
        let before = counted_all(nodes, edges, ids, n - 1);
        match store::node_index(nodes, ids[n - 1]) {
            Some(i) => before.push(query::counted(edges, nodes[i])),
            None => before,
        }
    }
}

/// Whether two edges join the same nodes by the same relation, in whichever direction.
pub open spec fn same_link(x: GraphEdge, e: GraphEdge) -> bool {
    x.relation == e.relation && ((x.source@ == e.source@ && x.target@ == e.target@) || (x.source@
        == e.target@ && x.target@ == e.source@))
}

pub open spec fn has_link(found: Seq<GraphEdge>, e: GraphEdge) -> bool {
    exists|i: int| 0 <= i < found.len() && same_link(#[trigger] found[i], e)
}

/// Whether the edge joins two neighbours of the path.
pub open spec fn along(edges: Seq<EdgeRow>, ids: Seq<Seq<char>>, e: GraphEdge) -> bool {
    exists|i: int, j: int|
        0 <= i && j == i + 1 && j < ids.len() && query::edges_of(
            rows::kept(edges, query::between(#[trigger] ids[i], #[trigger] ids[j])),
        ).contains(e)
}

/// The links of a path: edges along it, each link once, none left out.
pub open spec fn is_links(
    edges: Seq<EdgeRow>,
    ids: Seq<Seq<char>>,
    found: Seq<GraphEdge>,
) -> bool {
    &&& forall|i: int| 0 <= i < found.len() ==> along(edges, ids, #[trigger] found[i])
    &&& forall|i: int, j: int|
        #![trigger found[i], found[j]]
        0 <= i < j < found.len() ==> !same_link(found[i], found[j])
    &&& forall|e: GraphEdge| #[trigger] along(edges, ids, e) ==> has_link(found, e)
}

/// The walk that looks for a path: the ids found, for each but the first the index of the
/// one that it was found from, and its distance.
pub struct Search {
    pub ids: Vec<String>,
    pub from: Vec<usize>,
    pub dist: Vec<u32>,
}

/// What a search has found so far, whether it has met the target, and whether it gave up for
/// having found too much.
pub struct SearchV {
    pub ids: Seq<Seq<char>>,
    pub from: Seq<int>,
    pub met: bool,
    pub full: bool,
}

pub open spec fn search_view(s: Search, met: bool, full: bool) -> SearchV {
    SearchV {
        ids: text::texts(s.ids@),
        from: Seq::new(s.from@.len(), |i: int| s.from@[i] as int),
        met,
        full,
    }
}

/// The search with what the first `n` ways lead to, in their order, up to the target.
pub open spec fn with_met(
    s: SearchV,
    ways: Seq<EdgeRow>,
    outgoing: bool,
    cur: int,
    target: Seq<char>,
    n: int,
) -> SearchV
    decreases n,
{
    if n <= 0 {
        s
    } else {
        let before = with_met(s, ways, outgoing, cur, target, n - 1);
        let id = explore::far_end(ways[n - 1], outgoing);
        if before.met || before.ids.contains(id) {
            before
        } else {
            SearchV {
                ids: before.ids.push(id),
                from: before.from.push(cur),
                met: id == target,
                ..before
            }
        }
    }
}

/// The search when it has looked around at the id numbered `cur`: first along the edges that
/// lead from it, then along those that lead to it, the heavier ones first.
pub open spec fn spread_at(edges: Seq<EdgeRow>, s: SearchV, cur: int, target: Seq<char>) -> SearchV {
    let outs = query::adjacent_rows(edges, s.ids[cur], true, path_scope());
    let ins = query::adjacent_rows(edges, s.ids[cur], false, path_scope());
    with_met(
        with_met(s, outs, true, cur, target, outs.len() as int),
        ins,
        false,
        cur,
        target,
        ins.len() as int,
    )
}

/// The search when it has looked around at the ids from the one numbered `lo` up to that
/// before `c`, unless it has come to its end before.
pub open spec fn ring_searched(
    edges: Seq<EdgeRow>,
    s: SearchV,
    lo: int,
    c: int,
    target: Seq<char>,
    max_nodes: nat,
) -> SearchV
    decreases c - lo,
{
    if c <= lo {
        s
    } else {
        let before = ring_searched(edges, s, lo, c - 1, target, max_nodes);
        if before.met || before.full {
            before
        } else if before.ids.len() >= max_nodes {
            SearchV { full: true, ..before }
        } else {
            spread_at(edges, before, c - 1, target)
        }
    }
}

/// The search at most `steps` steps further, where the ids from the one numbered `lo` on have
/// not been looked around at.
pub open spec fn searched_on(
    edges: Seq<EdgeRow>,
    s: SearchV,
    lo: int,
    steps: nat,
    target: Seq<char>,
    max_nodes: nat,
) -> SearchV
    decreases steps,
{
    let hi = s.ids.len() as int;
    if steps == 0 || lo >= hi {
        s
    } else {
        let next = ring_searched(edges, s, lo, hi, target, max_nodes);
        if next.met || next.full {
            next
        } else {
            searched_on(edges, next, hi, (steps - 1) as nat, target, max_nodes)
        }
    }
}

/// What the search for the target finds.
pub open spec fn searched_from(
    edges: Seq<EdgeRow>,
    source: Seq<char>,
    target: Seq<char>,
    depth: nat,
    max_nodes: nat,
) -> SearchV {
    let start = SearchV { ids: seq![source], from: seq![0], met: false, full: false };
    searched_on(edges, start, 0, depth, target, max_nodes)
}

/// The ids by which the one numbered `k` was found, and itself.
pub open spec fn traced(s: SearchV, k: int) -> Seq<Seq<char>>
    decreases k,
{
    if k <= 0 || !(0 <= s.from[k] < k) {
        seq![s.ids[k]]
    } else {
        traced(s, s.from[k]).push(s.ids[k])
    }
}

proof fn lemma_listed(ids: Seq<String>, id: Seq<char>)
    ensures
        listed(ids, id) == text::texts(ids).contains(id),
{
    let ts = text::texts(ids);
    if listed(ids, id) {
        let i = choose|i: int| 0 <= i < ids.len() && (#[trigger] ids[i])@ == id;
        assert(ts[i] == id);
    }
    if ts.contains(id) {
        let i = choose|i: int| 0 <= i < ts.len() && ts[i] == id;
        assert(ids[i]@ == id);
    }
}

proof fn lemma_met_stays(
    s: SearchV,
    ways: Seq<EdgeRow>,
    outgoing: bool,
    cur: int,
    target: Seq<char>,
    m: int,
    n: int,
)
    requires
        m <= n,
        with_met(s, ways, outgoing, cur, target, m).met,
    ensures
        with_met(s, ways, outgoing, cur, target, n) == with_met(
            s,
            ways,
            outgoing,
            cur,
            target,
            m,
        ),
    decreases n - m,
{
    if m < n {
        lemma_met_stays(s, ways, outgoing, cur, target, m, n - 1);
    }
}

proof fn lemma_ring_stays(
    edges: Seq<EdgeRow>,
    s: SearchV,
    lo: int,
    m: int,
    n: int,
    target: Seq<char>,
    max_nodes: nat,
)
    requires
        lo <= m <= n,
        ring_searched(edges, s, lo, m, target, max_nodes).met || ring_searched(
            edges,
            s,
            lo,
            m,
            target,
            max_nodes,
        ).full,
    ensures
        ring_searched(edges, s, lo, n, target, max_nodes) == ring_searched(
            edges,
            s,
            lo,
            m,
            target,
            max_nodes,
        ),
    decreases n - m,
{
    if m < n {
        lemma_ring_stays(edges, s, lo, m, n - 1, target, max_nodes);
    }
}

proof fn lemma_traced_alike(a: SearchV, b: SearchV, k: int)
    requires
        a.ids == b.ids,
        a.from == b.from,
    ensures
        traced(a, k) == traced(b, k),
    decreases k,
{
    if k > 0 && 0 <= a.from[k] < k {
        lemma_traced_alike(a, b, a.from[k]);
    }
}

proof fn lemma_traced(s: SearchV, back: Seq<usize>, k: int)
    requires
        0 <= k < back.len(),
        s.from.len() == s.ids.len(),
        back.last() == 0,
        forall|i: int| 0 <= i < back.len() ==> (#[trigger] back[i]) < s.ids.len(),
        forall|i: int, j: int|
            #![trigger back[i], back[j]]
            0 <= i && j == i + 1 && j < back.len() ==> s.from[back[i] as int] == back[j] && back[j]
                < back[i],
    ensures
        traced(s, back[k] as int) == Seq::new(
            (back.len() - k) as nat,
            |i: int| s.ids[back[back.len() - 1 - i] as int],
        ),
    decreases back.len() - k,
{
    let n = back.len();
    let want = Seq::new((n - k) as nat, |i: int| s.ids[back[n - 1 - i] as int]);
    if k == n - 1 {
        assert(want =~= seq![s.ids[0]]);
    } else {
        assert(back[k + 1] < back[k]);
        lemma_traced(s, back, k + 1);
        let rest = Seq::new((n - k - 1) as nat, |i: int| s.ids[back[n - 1 - i] as int]);
        assert(want =~= rest.push(s.ids[back[k] as int]));
    }
}

pub open spec fn listed(ids: Seq<String>, id: Seq<char>) -> bool {
    exists|i: int| 0 <= i < ids.len() && (#[trigger] ids[i])@ == id
}

pub open spec fn id_text() -> spec_fn(String) -> Seq<char> {
    |s: String| s@
}

impl Search {
    pub open spec fn wf(&self, edges: Seq<EdgeRow>, source: Seq<char>) -> bool {
        &&& self.ids@.len() > 0
        &&& self.ids@[0]@ == source
        &&& self.from@.len() == self.ids@.len()
        &&& self.dist@.len() == self.ids@.len()
        &&& self.dist@[0] == 0
        &&& rows::unique(self.ids@, id_text())
        &&& forall|i: int|
            0 < i < self.ids@.len() ==> (#[trigger] self.from@[i]) < i && path_step(
                edges,
                self.ids@[self.from@[i] as int]@,
                self.ids@[i]@,
            ) && self.dist@[i] == self.dist@[self.from@[i] as int] + 1
    }
}

fn lists(ids: &Vec<String>, id: &String) -> (r: bool)
    ensures
        r == listed(ids@, id@),
{
    let mut i: usize = 0;
    while i < ids.len()
        invariant
            i <= ids.len(),
            forall|k: int| 0 <= k < i ==> (#[trigger] ids@[k])@ != id@,
        decreases ids.len() - i,
    {
        if ids[i] == *id {
            assert(ids@[i as int]@ == id@);
            return true;
        }
        i += 1;
    }
    false
}

proof fn lemma_listed_extends(a: Seq<String>, b: Seq<String>, id: Seq<char>)
    requires
        explore::extends(a, b),
        listed(a, id),
    ensures
        listed(b, id),
{
    let i = choose|i: int| 0 <= i < a.len() && (#[trigger] a[i])@ == id;
    assert(b.take(a.len() as int)[i] == b[i]);
}

impl GraphStore {
    /// Adds what the edges lead to, until the target is met.
    fn spread(
        &self,
        ways: &Vec<EdgeRow>,
        outgoing: bool,
        cur: usize,
        target: &String,
        s: &mut Search,
        Ghost(source): Ghost<Seq<char>>,
    ) -> (met: bool)
        requires
            old(s).wf(self.edges@, source),
            cur < old(s).ids@.len(),
            old(s).dist@[cur as int] < u32::MAX,
            ways@ == query::adjacent_rows(
                self.edges@,
                old(s).ids@[cur as int]@,
                outgoing,
                path_scope(),
            ),
            !listed(old(s).ids@, target@),
        ensures
            search_view(*final(s), met, false) == with_met(
                search_view(*old(s), false, false),
                ways@,
                outgoing,
                cur as int,
                target@,
                ways@.len() as int,
            ),
            final(s).wf(self.edges@, source),
            explore::extends(old(s).ids@, final(s).ids@),
            explore::extends(old(s).dist@, final(s).dist@),
            forall|i: int|
                old(s).ids@.len() <= i < final(s).ids@.len() ==> #[trigger] final(s).dist@[i]
                    == old(s).dist@[cur as int] + 1,
            met ==> final(s).ids@.len() > old(s).ids@.len() && final(s).ids@.last()@ == target@,
            !met ==> !listed(final(s).ids@, target@),
            !met ==> forall|i: int|
                0 <= i < ways@.len() ==> listed(
                    final(s).ids@,
                    explore::far_end(#[trigger] ways@[i], outgoing),
                ),
    {
        let ghost ids0 = s.ids@;
        let ghost dist0 = s.dist@;
        let ghost cur_id = s.ids@[cur as int]@;
        assert(ids0.take(ids0.len() as int) == ids0);
        assert(dist0.take(dist0.len() as int) == dist0);
        let d: u32 = s.dist[cur] + 1;
        let ghost start = search_view(*s, false, false);
        let mut i: usize = 0;
        while i < ways.len()
            invariant
                i <= ways.len(),
                start == search_view(*old(s), false, false),
                search_view(*s, false, false) == with_met(
                    start,
                    ways@,
                    outgoing,
                    cur as int,
                    target@,
                    i as int,
                ),
                s.wf(self.edges@, source),
                ids0 == old(s).ids@,
                dist0 == old(s).dist@,
                cur < ids0.len(),
                cur_id == ids0[cur as int]@,
                explore::extends(ids0, s.ids@),
                explore::extends(dist0, s.dist@),
                dist0.len() == ids0.len(),
                d == dist0[cur as int] + 1,
                ways@ == query::adjacent_rows(self.edges@, cur_id, outgoing, path_scope()),
                forall|k: int|
                    ids0.len() <= k < s.ids@.len() ==> #[trigger] s.dist@[k] == d,
                !listed(s.ids@, target@),
                forall|k: int|
                    0 <= k < i ==> listed(
                        s.ids@,
                        explore::far_end(#[trigger] ways@[k], outgoing),
                    ),
            decreases ways.len() - i,
        {
            let id = if outgoing {
                ways[i].target.clone()
            } else {
                ways[i].source.clone()
            };
            assert(id@ == explore::far_end(ways@[i as int], outgoing));
            proof {
                lemma_listed(s.ids@, id@);
            }
            if !lists(&s.ids, &id) {
                let ghost before = *s;
                assert(before.ids@.take(ids0.len() as int)[cur as int] == before.ids@[cur as int]);
                assert(before.dist@.take(dist0.len() as int)[cur as int]
                    == before.dist@[cur as int]);
                let same = id == *target;
                let ghost new_id = id@;
                s.ids.push(id);
                s.from.push(cur);
                s.dist.push(d);
                proof {
                    assert(query::leads_out(ways@, new_id) || query::leads_in(ways@, new_id));
                    assert(path_step(self.edges@, cur_id, new_id));
                    assert(s.ids@.take(ids0.len() as int) =~= ids0);
                    assert(s.dist@.take(dist0.len() as int) =~= dist0);
                    assert(rows::unique(s.ids@, id_text())) by {
                        assert forall|a: int, b: int|
                            #![trigger s.ids@[a], s.ids@[b]]
                            0 <= a < b < s.ids@.len() implies id_text()(s.ids@[a]) != id_text()(
                            s.ids@[b],
                        ) by {
                            assert(s.ids@[a] == before.ids@[a]);
                            if b < before.ids@.len() {
                                assert(s.ids@[b] == before.ids@[b]);
                            }
                        }
                    }
                    assert forall|k: int| 0 < k < s.ids@.len() implies (#[trigger] s.from@[k]) < k
                        && path_step(self.edges@, s.ids@[s.from@[k] as int]@, s.ids@[k]@)
                        && s.dist@[k] == s.dist@[s.from@[k] as int] + 1 by {
                        if k < before.ids@.len() {
                            assert(s.from@[k] == before.from@[k]);
                            assert(before.from@[k] < k);
                        }
                    }
                    assert(explore::extends(before.ids@, s.ids@)) by {
                        assert(s.ids@.take(before.ids@.len() as int) =~= before.ids@);
                    }
                    assert forall|k: int| 0 <= k < i implies listed(
                        s.ids@,
                        explore::far_end(#[trigger] ways@[k], outgoing),
                    ) by {
                        lemma_listed_extends(
                            before.ids@,
                            s.ids@,
                            explore::far_end(ways@[k], outgoing),
                        );
                    }
                    assert(s.ids@[before.ids@.len() as int]@ == new_id);
                    assert(listed(s.ids@, new_id));
                }
                proof {
                    let v0 = search_view(before, false, false);
                    let v1 = search_view(*s, same, false);
                    assert(v1.ids =~= v0.ids.push(new_id));
                    assert(v1.from =~= v0.from.push(cur as int));
                    assert(v1 == with_met(
                        start,
                        ways@,
                        outgoing,
                        cur as int,
                        target@,
                        i + 1,
                    ));
                    if same {
                        lemma_met_stays(
                            start,
                            ways@,
                            outgoing,
                            cur as int,
                            target@,
                            i + 1,
                            ways@.len() as int,
                        );
                    }
                }
                if same {
                    return true;
                }
            }
            i += 1;
        }
        false
    }

    /// Adds the neighbours of one id, until the target is met.
    fn spread_from(
        &self,
        cur: usize,
        target: &String,
        s: &mut Search,
        Ghost(source): Ghost<Seq<char>>,
    ) -> (met: bool)
        requires
            old(s).wf(self.edges@, source),
            cur < old(s).ids@.len(),
            old(s).dist@[cur as int] < u32::MAX,
            !listed(old(s).ids@, target@),
        ensures
            search_view(*final(s), met, false) == spread_at(
                self.edges@,
                search_view(*old(s), false, false),
                cur as int,
                target@,
            ),
            final(s).wf(self.edges@, source),
            explore::extends(old(s).ids@, final(s).ids@),
            explore::extends(old(s).dist@, final(s).dist@),
            forall|i: int|
                old(s).ids@.len() <= i < final(s).ids@.len() ==> #[trigger] final(s).dist@[i]
                    == old(s).dist@[cur as int] + 1,
            met ==> final(s).ids@.len() > old(s).ids@.len() && final(s).ids@.last()@ == target@,
            !met ==> !listed(final(s).ids@, target@),
            !met ==> forall|x: Seq<char>| #[trigger]
                path_step(self.edges@, old(s).ids@[cur as int]@, x) ==> listed(final(s).ids@, x),
    {
        let id = s.ids[cur].clone();
        let outs = self.adjacent(&id, true, None, 0, PATH_FANOUT);
        let ins = self.adjacent(&id, false, None, 0, PATH_FANOUT);
        let ghost ids0 = s.ids@;
        let ghost dist0 = s.dist@;
        assert(text::texts(ids0)[cur as int] == id@);
        if self.spread(&outs, true, cur, target, s, Ghost(source)) {
            proof {
                lemma_met_stays(
                    search_view(*s, true, false),
                    ins@,
                    false,
                    cur as int,
                    target@,
                    0,
                    ins@.len() as int,
                );
            }
            return true;
        }
        let ghost ids1 = s.ids@;
        let ghost dist1 = s.dist@;
        proof {
            assert(ids1.take(ids0.len() as int)[cur as int] == ids1[cur as int]);
            assert(dist1.take(dist0.len() as int)[cur as int] == dist1[cur as int]);
        }
        let met = self.spread(&ins, false, cur, target, s, Ghost(source));
        proof {
            explore::lemma_extends_trans(ids0, ids1, s.ids@);
            explore::lemma_extends_trans(dist0, dist1, s.dist@);
            assert forall|i: int| ids0.len() <= i < s.ids@.len() implies #[trigger] s.dist@[i]
                == dist0[cur as int] + 1 by {
                if i < ids1.len() {
                    assert(s.dist@.take(dist1.len() as int)[i] == s.dist@[i]);
                }
            }
            if !met {
                assert forall|x: Seq<char>| #[trigger]
                    path_step(self.edges@, ids0[cur as int]@, x) implies listed(s.ids@, x) by {
                    if query::leads_out(outs@, x) {
                        let k = choose|k: int|
                            0 <= k < outs@.len() && (#[trigger] outs@[k]).target@ == x;
                        assert(explore::far_end(outs@[k], true) == x);
                        lemma_listed_extends(ids1, s.ids@, x);
                    } else {
                        let k = choose|k: int|
                            0 <= k < ins@.len() && (#[trigger] ins@[k]).source@ == x;
                        assert(explore::far_end(ins@[k], false) == x);
                    }
                }
            }
        }
        met
    }
}

proof fn lemma_reach_mono(edges: Seq<EdgeRow>, root: Seq<char>, j: nat, k: nat)
    requires
        j <= k,
    ensures
        reach(edges, root, j).subset_of(reach(edges, root, k)),
    decreases k,
{
    if j < k {
        lemma_reach_mono(edges, root, j, (k - 1) as nat);
    }
}

/// Every id of a search lies as far from the source as the search says, or nearer.
proof fn lemma_search_reach(edges: Seq<EdgeRow>, source: Seq<char>, s: Search, i: int)
    requires
        s.wf(edges, source),
        0 <= i < s.ids@.len(),
    ensures
        reach(edges, source, s.dist@[i] as nat).contains(s.ids@[i]@),
    decreases i,
{
    if i > 0 {
        let p = s.from@[i] as int;
        assert(s.from@[i] < i);
        lemma_search_reach(edges, source, s, p);
        let inner = reach(edges, source, s.dist@[p] as nat);
        assert(inner.contains(s.ids@[p]@));
        assert(steps_into(edges, inner, s.ids@[i]@));
    }
}

/// A list that is closed under steps holds everything that steps lead to.
proof fn lemma_closed_reach(edges: Seq<EdgeRow>, root: Seq<char>, ids: Seq<String>, k: nat)
    requires
        listed(ids, root),
        forall|i: int, x: Seq<char>|
            0 <= i < ids.len() && #[trigger] path_step(edges, (#[trigger] ids[i])@, x) ==> listed(
                ids,
                x,
            ),
    ensures
        forall|x: Seq<char>| #[trigger] reach(edges, root, k).contains(x) ==> listed(ids, x),
    decreases k,
{
    if k > 0 {
        lemma_closed_reach(edges, root, ids, (k - 1) as nat);
        assert forall|x: Seq<char>| #[trigger] reach(edges, root, k).contains(x) implies listed(
            ids,
            x,
        ) by {
            let inner = reach(edges, root, (k - 1) as nat);
            if !inner.contains(x) {
                let y = choose|y: Seq<char>| #[trigger]
                    inner.contains(y) && path_step(edges, y, x);
                let i = choose|i: int| 0 <= i < ids.len() && (#[trigger] ids[i])@ == y;
                assert(path_step(edges, ids[i]@, x));
            }
        }
    }
}

/// What the search for a path ends with: the target found at its distance, which is the
/// least, or no way to it within the depth but where too many ids are as near as it is.
pub open spec fn searched(
    edges: Seq<EdgeRow>,
    source: Seq<char>,
    target: Seq<char>,
    depth: nat,
    max_nodes: nat,
    s: Search,
    met: bool,
) -> bool {
    &&& s.wf(edges, source)
    &&& met ==> s.ids@.last()@ == target && 0 < s.dist@.last() <= depth && !reach(
        edges,
        source,
        (s.dist@.last() - 1) as nat,
    ).contains(target)
    &&& !met ==> is_out_of_reach(edges, source, target, depth, max_nodes)
}

/// Whether at least `n` different ids are at most `k` steps from the source.
pub open spec fn crowded(edges: Seq<EdgeRow>, source: Seq<char>, k: nat, n: nat) -> bool {
    exists|ids: Seq<String>| #[trigger]
        rows::unique(ids, id_text()) && ids.len() >= n && forall|i: int|
            0 <= i < ids.len() ==> reach(edges, source, k).contains((#[trigger] ids[i])@)
}

/// Whether each number of steps, up to the depth, that would do to get to the target leads to
/// `n` ids or more.
pub open spec fn is_out_of_reach(
    edges: Seq<EdgeRow>,
    source: Seq<char>,
    target: Seq<char>,
    depth: nat,
    n: nat,
) -> bool {
    forall|k: nat|
        k <= depth && (#[trigger] reach(edges, source, k)).contains(target) ==> crowded(
            edges,
            source,
            k,
            n,
        )
}

impl GraphStore {
    fn search(&self, source: &String, target: &String, depth: u32, max_nodes: usize) -> (r: (
        Search,
        bool,
    ))
        requires
            source@ != target@,
            1 <= depth < u32::MAX,
        ensures
            searched(
                self.edges@,
                source@,
                target@,
                depth as nat,
                max_nodes as nat,
                r.0,
                r.1,
            ),
            ({
                let v = searched_from(
                    self.edges@,
                    source@,
                    target@,
                    depth as nat,
                    max_nodes as nat,
                );
                r.1 == v.met && search_view(r.0, v.met, v.full) == v
            }),
    {
        let mut s = Search { ids: Vec::new(), from: Vec::new(), dist: Vec::new() };
        s.ids.push(source.clone());
        s.from.push(0);
        s.dist.push(0);
        let mut lo: usize = 0;
        let mut hi: usize = 1;
        let mut hops: u32 = 0;
        let ghost goal = searched_from(
            self.edges@,
            source@,
            target@,
            depth as nat,
            max_nodes as nat,
        );
        proof {
            let v = search_view(s, false, false);
            assert(v.ids =~= seq![source@]);
            assert(v.from =~= seq![0int]);
        }
        assert(s.ids@[0]@ == source@);
        assert(listed(s.ids@, source@));
        while lo < hi && hops < depth
            invariant
                s.wf(self.edges@, source@),
                1 <= depth < u32::MAX,
                lo <= hi == s.ids@.len(),
                hops <= depth,
                goal == searched_from(
                    self.edges@,
                    source@,
                    target@,
                    depth as nat,
                    max_nodes as nat,
                ),
                goal == searched_on(
                    self.edges@,
                    search_view(s, false, false),
                    lo as int,
                    (depth - hops) as nat,
                    target@,
                    max_nodes as nat,
                ),
                !listed(s.ids@, target@),
                forall|i: int| 0 <= i < hi ==> #[trigger] s.dist@[i] <= hops,
                forall|i: int| lo <= i < hi ==> #[trigger] s.dist@[i] == hops,
                forall|i: int, x: Seq<char>|
                    0 <= i < lo && #[trigger] path_step(self.edges@, (#[trigger] s.ids@[i])@, x)
                        ==> listed(s.ids@, x),
                forall|x: Seq<char>| #[trigger]
                    reach(self.edges@, source@, hops as nat).contains(x) ==> listed(s.ids@, x),
            decreases depth - hops,
        {
            let ghost v0 = search_view(s, false, false);
            let ghost ids0 = s.ids@;
            let ghost dist0 = s.dist@;
            assert(ids0.take(ids0.len() as int) == ids0);
            assert(dist0.take(dist0.len() as int) == dist0);
            let mut c: usize = lo;
            while c < hi
                invariant
                    lo <= c <= hi,
                    hi == ids0.len(),
                    v0.ids.len() == hi,
                    goal == searched_from(
                        self.edges@,
                        source@,
                        target@,
                        depth as nat,
                        max_nodes as nat,
                    ),
                    lo < hi,
                    goal == searched_on(
                        self.edges@,
                        v0,
                        lo as int,
                        (depth - hops) as nat,
                        target@,
                        max_nodes as nat,
                    ),
                    search_view(s, false, false) == ring_searched(
                        self.edges@,
                        v0,
                        lo as int,
                        c as int,
                        target@,
                        max_nodes as nat,
                    ),
                    hops < depth < u32::MAX,
                    s.wf(self.edges@, source@),
                    dist0.len() == ids0.len(),
                    explore::extends(ids0, s.ids@),
                    explore::extends(dist0, s.dist@),
                    !listed(s.ids@, target@),
                    forall|i: int| 0 <= i < hi ==> #[trigger] dist0[i] <= hops,
                    forall|i: int| lo <= i < hi ==> #[trigger] dist0[i] == hops,
                    forall|i: int| hi <= i < s.ids@.len() ==> #[trigger] s.dist@[i] == hops + 1,
                    forall|i: int, x: Seq<char>|
                        0 <= i < c && #[trigger] path_step(self.edges@, (#[trigger] ids0[i])@, x)
                            ==> listed(s.ids@, x),
                    forall|x: Seq<char>| #[trigger]
                        reach(self.edges@, source@, hops as nat).contains(x) ==> listed(ids0, x),
                decreases hi - c,
            {
                let ghost s1 = s;
                proof {
                    assert(s.ids@.take(ids0.len() as int)[c as int] == s.ids@[c as int]);
                    assert(s.dist@.take(dist0.len() as int)[c as int] == s.dist@[c as int]);
                    assert(dist0[c as int] == hops);
                }
                assert(search_view(s, false, false).ids.len() == s.ids@.len());
                if s.ids.len() >= max_nodes {
                    proof {
                        lemma_ring_stays(
                            self.edges@,
                            v0,
                            lo as int,
                            c + 1,
                            hi as int,
                            target@,
                            max_nodes as nat,
                        );
                        assert forall|i: int| 0 <= i < s.ids@.len() implies #[trigger] s.dist@[i]
                            <= hops + 1 by {
                            if i < hi {
                                assert(s.dist@.take(dist0.len() as int)[i] == dist0[i]);
                            }
                        }
                        assert forall|k: nat|
                            k <= depth && (#[trigger] reach(self.edges@, source@, k)).contains(
                                target@,
                            ) implies crowded(self.edges@, source@, k, max_nodes as nat) by {
                            if k <= hops {
                                lemma_reach_mono(self.edges@, source@, k, hops as nat);
                                lemma_listed_extends(ids0, s.ids@, target@);
                            }
                            lemma_crowd(
                                self.edges@,
                                source@,
                                s,
                                k,
                                max_nodes as nat,
                                hops as nat,
                            );
                        }
                    }
                    return (s, false);
                }
                let met = self.spread_from(c, target, &mut s, Ghost(source@));
                proof {
                    explore::lemma_extends_trans(ids0, s1.ids@, s.ids@);
                    explore::lemma_extends_trans(dist0, s1.dist@, s.dist@);
                    assert forall|i: int| hi <= i < s.ids@.len() implies #[trigger] s.dist@[i]
                        == hops + 1 by {
                        if i < s1.ids@.len() {
                            assert(s.dist@.take(s1.dist@.len() as int)[i] == s.dist@[i]);
                        }
                    }
                }
                if met {
                    proof {
                        lemma_ring_stays(
                            self.edges@,
                            v0,
                            lo as int,
                            c + 1,
                            hi as int,
                            target@,
                            max_nodes as nat,
                        );
                        assert(s.dist@.last() == hops + 1);
                        if reach(self.edges@, source@, hops as nat).contains(target@) {
                            lemma_listed_extends(ids0, s1.ids@, target@);
                        }
                    }
                    return (s, true);
                }
                proof {
                    assert forall|i: int, x: Seq<char>|
                        0 <= i < c + 1 && #[trigger] path_step(
                            self.edges@,
                            (#[trigger] ids0[i])@,
                            x,
                        ) implies listed(s.ids@, x) by {
                        if i < c {
                            lemma_listed_extends(s1.ids@, s.ids@, x);
                        }
                    }
                }
                c += 1;
            }
            proof {
                assert forall|i: int, x: Seq<char>|
                    0 <= i < hi && #[trigger] path_step(
                        self.edges@,
                        (#[trigger] s.ids@[i])@,
                        x,
                    ) implies listed(s.ids@, x) by {
                    assert(s.ids@.take(ids0.len() as int)[i] == ids0[i]);
                    assert(path_step(self.edges@, ids0[i]@, x));
                }
                assert forall|x: Seq<char>| #[trigger]
                    reach(self.edges@, source@, (hops + 1) as nat).contains(x) implies listed(
                    s.ids@,
                    x,
                ) by {
                    let inner = reach(self.edges@, source@, hops as nat);
                    if inner.contains(x) {
                        lemma_listed_extends(ids0, s.ids@, x);
                    } else {
                        let y = choose|y: Seq<char>| #[trigger]
                            inner.contains(y) && path_step(self.edges@, y, x);
                        let i = choose|i: int| 0 <= i < ids0.len() && (#[trigger] ids0[i])@ == y;
                        assert(path_step(self.edges@, ids0[i]@, x));
                    }
                }
                assert forall|i: int| 0 <= i < s.ids@.len() implies #[trigger] s.dist@[i] <= hops
                    + 1 by {
                    if i < hi {
                        assert(s.dist@.take(dist0.len() as int)[i] == s.dist@[i]);
                    }
                }
            }
            let ghost ring = reach(self.edges@, source@, (hops + 1) as nat);
            lo = hi;
            hi = s.ids.len();
            hops += 1;
            assert(ring == reach(self.edges@, source@, hops as nat));
        }
        proof {
            if hops < depth {
                assert(s.ids@[0]@ == source@);
                lemma_closed_reach(self.edges@, source@, s.ids@, depth as nat);
            }
            assert forall|k: nat|
                k <= depth && (#[trigger] reach(self.edges@, source@, k)).contains(
                    target@,
                ) implies crowded(self.edges@, source@, k, max_nodes as nat) by {
                lemma_reach_mono(self.edges@, source@, k, depth as nat);
            }
        }
        (s, false)
    }
}

proof fn lemma_crowd(
    edges: Seq<EdgeRow>,
    source: Seq<char>,
    s: Search,
    depth: nat,
    n: nat,
    hops: nat,
)
    requires
        s.wf(edges, source),
        s.ids@.len() >= n,
        hops + 1 <= depth,
        forall|i: int| 0 <= i < s.ids@.len() ==> #[trigger] s.dist@[i] <= hops + 1,
    ensures
        crowded(edges, source, depth, n),
{
    assert forall|i: int| 0 <= i < s.ids@.len() implies reach(edges, source, depth).contains(
        (#[trigger] s.ids@[i])@,
    ) by {
        lemma_search_reach(edges, source, s, i);
        lemma_reach_mono(edges, source, s.dist@[i] as nat, depth);
    }
    assert(rows::unique(s.ids@, id_text()));
}

/// The way back from the last id of a search, in the order from the source.
fn trace(s: &Search, Ghost(edges): Ghost<Seq<EdgeRow>>, Ghost(source): Ghost<Seq<char>>) -> (r: Vec<
    String,
>)
    requires
        s.wf(edges, source),
    ensures
        r@.len() == s.dist@.last() + 1,
        text::texts(r@)[0] == source,
        text::texts(r@).last() == s.ids@.last()@,
        is_chain(edges, text::texts(r@)),
        text::texts(r@) == traced(search_view(*s, true, false), s.ids@.len() - 1),
{
    let last: usize = s.ids.len() - 1;
    let mut back: Vec<usize> = Vec::new();
    back.push(last);
    let mut cur: usize = last;
    while cur > 0
        invariant
            s.wf(edges, source),
            last == s.ids@.len() - 1,
            cur < s.ids@.len(),
            back@.len() > 0,
            back@[0] == last,
            back@.last() == cur,
            forall|k: int| 0 <= k < back@.len() ==> (#[trigger] back@[k]) < s.ids@.len(),
            forall|k: int|
                0 <= k < back@.len() ==> s.dist@[(#[trigger] back@[k]) as int] + k
                    == s.dist@[last as int],
            forall|k: int, j: int|
                #![trigger back@[k], back@[j]]
                0 <= k && j == k + 1 && j < back@.len() ==> path_step(
                    edges,
                    s.ids@[back@[j] as int]@,
                    s.ids@[back@[k] as int]@,
                ) && s.from@[back@[k] as int] == back@[j] && back@[j] < back@[k],
        decreases cur,
    {
        assert(s.from@[cur as int] < cur);
        let ghost before = back@;
        let p: usize = s.from[cur];
        back.push(p);
        assert(back@[before.len() - 1] == cur);
        assert forall|k: int, j: int|
            #![trigger back@[k], back@[j]]
            0 <= k && j == k + 1 && j < back@.len() implies path_step(
            edges,
            s.ids@[back@[j] as int]@,
            s.ids@[back@[k] as int]@,
        ) && s.from@[back@[k] as int] == back@[j] && back@[j] < back@[k] by {
            if j < before.len() {
                assert(back@[k] == before[k] && back@[j] == before[j]);
            } else {
                assert(back@[k] == cur && back@[j] == p);
            }
        }
        cur = p;
    }
    proof {
        assert(s.dist@[back@[back@.len() - 1] as int] + (back@.len() - 1) == s.dist@[last as int]);
    }
    let n: usize = back.len();
    let mut r: Vec<String> = Vec::new();
    let mut i: usize = 0;
    while i < n
        invariant
            i <= n,
            n == back@.len(),
            forall|k: int| 0 <= k < back@.len() ==> (#[trigger] back@[k]) < s.ids@.len(),
            r@.len() == i,
            forall|k: int| 0 <= k < i ==> #[trigger] r@[k] == s.ids@[back@[n - 1 - k] as int],
        decreases n - i,
    {
        r.push(s.ids[back[n - 1 - i]].clone());
        i += 1;
    }
    proof {
        let t = text::texts(r@);
        assert(t[0] == source);
        assert(t.last() == s.ids@[back@[0] as int]@);
        assert forall|a: int, b: int|
            #![trigger t[a], t[b]]
            0 <= a && b == a + 1 && b < t.len() implies path_step(edges, t[a], t[b]) by {
            assert(r@[a] == s.ids@[back@[n - 1 - a] as int]);
            assert(r@[b] == s.ids@[back@[n - 1 - b] as int]);
            let k = n - 1 - b;
            let j = n - 1 - a;
            assert(path_step(edges, s.ids@[back@[j] as int]@, s.ids@[back@[k] as int]@));
        }
        let v = search_view(*s, true, false);
        lemma_traced(v, back@, 0);
        assert(t =~= traced(v, last as int));
    }
    r
}

fn holds_link(found: &Vec<GraphEdge>, e: &GraphEdge) -> (r: bool)
    ensures
        r == has_link(found@, *e),
{
    let mut i: usize = 0;
    while i < found.len()
        invariant
            i <= found.len(),
            forall|k: int| 0 <= k < i ==> !same_link(#[trigger] found@[k], *e),
        decreases found.len() - i,
    {
        let x = &found[i];
        if x.relation == e.relation && ((x.source == e.source && x.target == e.target) || (x.source
            == e.target && x.target == e.source)) {
            assert(same_link(found@[i as int], *e));
            return true;
        }
        i += 1;
    }
    false
}

impl GraphStore {
    fn path_nodes(&self, ids: &Vec<String>) -> (r: Vec<GraphNode>)
        ensures
            r@ == counted_all(
                self.nodes@,
                self.edges@,
                text::texts(ids@),
                ids@.len() as int,
            ),
    {
        let mut r: Vec<GraphNode> = Vec::new();
        let mut i: usize = 0;
        while i < ids.len()
            invariant
                i <= ids.len(),
                r@ == counted_all(self.nodes@, self.edges@, text::texts(ids@), i as int),
            decreases ids.len() - i,
        {
            assert(text::texts(ids@)[i as int] == ids@[i as int]@);
            if let Some(n) = self.counted_node(&ids[i]) {
                r.push(n);
            }
            i += 1;
        }
        r
    }

    fn path_links(&self, ids: &Vec<String>) -> (r: Vec<GraphEdge>)
        ensures
            is_links(self.edges@, text::texts(ids@), r@),
    {
        let ghost t = text::texts(ids@);
        let mut r: Vec<GraphEdge> = Vec::new();
        let mut i: usize = 0;
        while ids.len() >= 1 && i < ids.len() - 1
            invariant
                i <= ids.len(),
                t == text::texts(ids@),
                forall|k: int| 0 <= k < r@.len() ==> along(self.edges@, t, #[trigger] r@[k]),
                forall|a: int, b: int|
                    #![trigger r@[a], r@[b]]
                    0 <= a < b < r@.len() ==> !same_link(r@[a], r@[b]),
                forall|a: int, b: int, e: GraphEdge|
                    0 <= a < i && b == a + 1 && #[trigger] query::edges_of(
                        rows::kept(
                            self.edges@,
                            query::between(#[trigger] t[a], #[trigger] t[b]),
                        ),
                    ).contains(e) ==> has_link(r@, e),
            decreases ids.len() - i,
        {
            assert(t[i as int] == ids@[i as int]@);
            assert(t[i + 1] == ids@[i + 1]@);
            let more = self.all_edges_between(&ids[i], &ids[i + 1]);
            let ghost r0 = r@;
            assert(r0.take(r0.len() as int) == r0);
            let mut j: usize = 0;
            while j < more.len()
                invariant
                    j <= more.len(),
                    i + 1 < ids@.len(),
                    t == text::texts(ids@),
                    more@ == query::edges_of(
                        rows::kept(self.edges@, query::between(t[i as int], t[i + 1])),
                    ),
                    explore::extends(r0, r@),
                    forall|k: int| 0 <= k < r@.len() ==> along(self.edges@, t, #[trigger] r@[k]),
                    forall|a: int, b: int|
                        #![trigger r@[a], r@[b]]
                        0 <= a < b < r@.len() ==> !same_link(r@[a], r@[b]),
                    forall|k: int| 0 <= k < j ==> has_link(r@, #[trigger] more@[k]),
                decreases more.len() - j,
            {
                let ghost before = r@;
                let e = more[j].clone();
                if !holds_link(&r, &e) {
                    assert(more@.contains(e));
                    assert(along(self.edges@, t, e));
                    r.push(e);
                    proof {
                        assert(r@.take(r0.len() as int) =~= r0);
                        assert(r@[before.len() as int] == e);
                        assert(same_link(r@[before.len() as int], e));
                        assert forall|a: int, b: int|
                            #![trigger r@[a], r@[b]]
                            0 <= a < b < r@.len() implies !same_link(r@[a], r@[b]) by {
                            assert(r@[a] == before[a]);
                            if b < before.len() {
                                assert(r@[b] == before[b]);
                            }
                        }
                        assert forall|k: int| 0 <= k < j implies has_link(
                            r@,
                            #[trigger] more@[k],
                        ) by {
                            let x = choose|x: int|
                                0 <= x < before.len() && same_link(#[trigger] before[x], more@[k]);
                            assert(r@[x] == before[x]);
                        }
                    }
                }
                j += 1;
            }
            proof {
                assert forall|a: int, b: int, e: GraphEdge|
                    0 <= a < i + 1 && b == a + 1 && #[trigger] query::edges_of(
                        rows::kept(
                            self.edges@,
                            query::between(#[trigger] t[a], #[trigger] t[b]),
                        ),
                    ).contains(e) implies has_link(r@, e) by {
                    if a < i {
                        assert(has_link(r0, e));
                        let x = choose|x: int|
                            0 <= x < r0.len() && same_link(#[trigger] r0[x], e);
                        assert(r@.take(r0.len() as int)[x] == r@[x]);
                    } else {
                        let k = choose|k: int| 0 <= k < more@.len() && more@[k] == e;
                        assert(has_link(r@, more@[k]));
                    }
                }
            }
            i += 1;
        }
        proof {
            assert forall|e: GraphEdge| #[trigger] along(self.edges@, t, e) implies has_link(
                r@,
                e,
            ) by {
                let (a, b) = choose|a: int, b: int|
                    0 <= a && b == a + 1 && b < t.len() && query::edges_of(
                        rows::kept(
                            self.edges@,
                            query::between(#[trigger] t[a], #[trigger] t[b]),
                        ),
                    ).contains(e);
                assert(query::edges_of(
                    rows::kept(self.edges@, query::between(t[a], t[b])),
                ).contains(e));
            }
        }
        r
    }

    /// The shortest path between two nodes, of at most `max_depth` steps (1 to 6). It looks
    /// at ids until it has `max_nodes` of them (1 to 500). A node is its own path.
    pub fn find_path(&self, source: &str, target: &str, max_depth: u32, max_nodes: u32) -> (r:
        GraphPath)
        ensures
            ({
                let depth = explore::clamped(max_depth, 1, 6) as nat;
                let most = explore::clamped(max_nodes, 1, 500) as nat;
                let ids = text::texts(r.path_ids@);
                let both = explore::is_node(self.nodes@, source@) && explore::is_node(
                    self.nodes@,
                    target@,
                );
                &&& r.found ==> both && ids.len() > 0 && ids[0] == source@ && ids.last() == target@
                    && is_chain(self.edges@, ids) && ids.len() <= depth + 1
                &&& r.found && source@ == target@ ==> ids.len() == 1
                // No way is shorter.
                &&& r.found && ids.len() > 1 ==> !reach(
                    self.edges@,
                    source@,
                    (ids.len() - 2) as nat,
                ).contains(target@)
                &&& !r.found ==> ids.len() == 0
                // Of the shortest ways it is the one that the search meets first.
                &&& both && source@ != target@ ==> {
                    let v = searched_from(self.edges@, source@, target@, depth, most);
                    r.found == v.met && (v.met ==> ids == traced(v, v.ids.len() - 1))
                }
                // A way within the depth is found, unless too many ids are as near.
                &&& !r.found && both ==> source@ != target@ && is_out_of_reach(
                    self.edges@,
                    source@,
                    target@,
                    depth,
                    most,
                )
                &&& r.nodes@ == counted_all(self.nodes@, self.edges@, ids, ids.len() as int)
                &&& is_links(self.edges@, ids, r.edges@)
            }),
    {
        let depth = if max_depth < 1 {
            1
        } else if max_depth > 6 {
            6
        } else {
            max_depth
        };
        let most: usize = if max_nodes < 1 {
            1
        } else if max_nodes > 500 {
            500
        } else {
            max_nodes as usize
        };
        let a = source.to_owned();
        let b = target.to_owned();
        let mut ids: Vec<String> = Vec::new();
        let mut found = false;
        if self.find_node(&a).is_some() && self.find_node(&b).is_some() {
            if a == b {
                found = true;
                ids.push(a.clone());
                assert(text::texts(ids@) =~= seq![source@]);
            } else {
                let (s, met) = self.search(&a, &b, depth, most);
                if met {
                    found = true;
                    ids = trace(&s, Ghost(self.edges@), Ghost(source@));
                    proof {
                        let v = searched_from(
                            self.edges@,
                            source@,
                            target@,
                            depth as nat,
                            most as nat,
                        );
                        lemma_traced_alike(v, search_view(s, true, false), v.ids.len() - 1);
                    }
                }
            }
        }
        assert(text::texts(ids@).len() == ids@.len());
        let nodes = self.path_nodes(&ids);
        let edges = self.path_links(&ids);
        GraphPath { found, path_ids: ids, nodes, edges }
    }
}

/// Where a chain of steps leads is within as many steps: a path that is found is never
/// longer than another way to its target.
pub proof fn law_chains_are_within_reach(edges: Seq<EdgeRow>, p: Seq<Seq<char>>)
    requires
        p.len() > 0,
        is_chain(edges, p),
    ensures
        reach(edges, p[0], (p.len() - 1) as nat).contains(p.last()),
    decreases p.len(),
{
    if p.len() > 1 {
        let init = p.drop_last();
        assert(is_chain(edges, init)) by {
            assert forall|i: int, j: int|
                #![trigger init[i], init[j]]
                0 <= i && j == i + 1 && j < init.len() implies path_step(
                edges,
                init[i],
                init[j],
            ) by {
                assert(path_step(edges, p[i], p[j]));
            }
        }
        law_chains_are_within_reach(edges, init);
        let inner = reach(edges, p[0], (p.len() - 2) as nat);
        assert(inner.contains(init.last()));
        assert(path_step(edges, p[p.len() - 2], p[p.len() - 1]));
        assert(steps_into(edges, inner, p.last()));
    }
}

} // verus!
