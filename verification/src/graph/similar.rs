//! Entities whose names are nearly the same.

use crate::graph::lists;
use crate::graph::merger;
use crate::graph::model;
use crate::graph::model::{GraphDuplicate, GraphNode, NodeType};
use crate::graph::store::{EdgeRow, GraphStore};
use crate::rows;
use crate::text;
use vstd::prelude::*;

verus! {

/// How alike two names are that may mean the same, in millionths.
pub const DUPLICATE_MIN: u32 = 850_000;

/// How many nodes are looked at for entities, and how many entities are compared at most.
pub const DUPLICATE_NODES: u32 = 200_000;

pub const DUPLICATE_ENTITIES: u32 = 5000;

pub open spec fn min_of(a: nat, b: nat) -> nat {
    if a <= b {
        a
    } else {
        b
    }
}

/// How many characters have to be added, removed or replaced to make the first `i`
/// characters of `a` the first `j` characters of `b`.
pub open spec fn distance(a: Seq<char>, b: Seq<char>, i: int, j: int) -> nat
    decreases (if i > 0 { i } else { 0 }) + (if j > 0 { j } else { 0 }),
{
    if i <= 0 {
        if j <= 0 {
            0
        } else {
            j as nat
        }
    } else if j <= 0 {
        i as nat
    } else {
        min_of(
            min_of(distance(a, b, i - 1, j) + 1, distance(a, b, i, j - 1) + 1),
            distance(a, b, i - 1, j - 1) + if a[i - 1] == b[j - 1] {
                0nat
            } else {
                1
            },
        )
    }
}

pub open spec fn longer(a: Seq<char>, b: Seq<char>) -> nat {
    if a.len() >= b.len() {
        a.len()
    } else {
        b.len()
    }
}

/// How alike two texts are, in millionths: a whole where they are equal, less by the part of
/// the longer one that has to be changed.
pub open spec fn likeness(a: Seq<char>, b: Seq<char>) -> int {
    let n = longer(a, b) as int;
    if n == 0 {
        model::WHOLE as int
    } else {
        (n - distance(a, b, a.len() as int, b.len() as int)) * model::WHOLE as int / n
    }
}

proof fn lemma_distance(a: Seq<char>, b: Seq<char>, i: int, j: int)
    requires
        0 <= i,
        0 <= j,
    ensures
        distance(a, b, i, j) <= (if i >= j {
            i
        } else {
            j
        }),
    decreases i + j,
{
    if i > 0 && j > 0 {
        lemma_distance(a, b, i - 1, j - 1);
    }
}

fn edit_distance(a: &Vec<char>, b: &Vec<char>) -> (r: usize)
    ensures
        r == distance(a@, b@, a@.len() as int, b@.len() as int),
        r <= longer(a@, b@),
{
    let n = b.len();
    let mut prev: Vec<usize> = Vec::new();
    let mut k: usize = 0;
    while k < n
        invariant
            k <= n,
            n == b@.len(),
            prev@.len() == k,
            forall|x: int| 0 <= x < k ==> #[trigger] prev@[x] == distance(a@, b@, 0, x),
        decreases n - k,
    {
        prev.push(k);
        k += 1;
    }
    prev.push(n);
    let mut i: usize = 0;
    while i < a.len()
        invariant
            i <= a.len(),
            n == b@.len(),
            prev@.len() == n + 1,
            forall|x: int| 0 <= x <= n ==> #[trigger] prev@[x] == distance(a@, b@, i as int, x),
        decreases a.len() - i,
    {
        let mut cur: Vec<usize> = Vec::new();
        cur.push(i + 1);
        let mut j: usize = 0;
        while j < n
            invariant
                i < a.len(),
                j <= n,
                n == b@.len(),
                prev@.len() == n + 1,
                cur@.len() == j + 1,
                forall|x: int| 0 <= x <= n ==> #[trigger] prev@[x] == distance(a@, b@, i as int, x),
                forall|x: int| 0 <= x <= j ==> #[trigger] cur@[x] == distance(a@, b@, i + 1, x),
            decreases n - j,
        {
            proof {
                lemma_distance(a@, b@, i as int, j + 1);
                lemma_distance(a@, b@, i + 1, j as int);
                lemma_distance(a@, b@, i as int, j as int);
                assert(prev@[j + 1] == distance(a@, b@, i as int, j + 1));
                assert(prev@[j as int] == distance(a@, b@, i as int, j as int));
                assert(cur@[j as int] == distance(a@, b@, i + 1, j as int));
            }
            let up: u128 = prev[j + 1] as u128 + 1;
            let left: u128 = cur[j] as u128 + 1;
            let both: u128 = prev[j] as u128 + (if a[i] == b[j] {
                0
            } else {
                1
            });
            let two: u128 = if up <= left {
                up
            } else {
                left
            };
            let best: u128 = if two <= both {
                two
            } else {
                both
            };
            assert(best == distance(a@, b@, i + 1, j + 1));
            proof {
                lemma_distance(a@, b@, i + 1, j + 1);
            }
            cur.push(best as usize);
            j += 1;
        }
        prev = cur;
        i += 1;
    }
    proof {
        lemma_distance(a@, b@, a@.len() as int, b@.len() as int);
        assert(prev@[n as int] == distance(a@, b@, i as int, n as int));
    }
    prev[n]
}

/// How alike two texts are, in millionths.
pub fn levenshtein_ratio(a: &str, b: &str) -> (r: u32)
    ensures
        r == likeness(a@, b@),
        r <= model::WHOLE,
{
    let x = text::chars_of(a);
    let y = text::chars_of(b);
    let n: usize = if x.len() >= y.len() {
        x.len()
    } else {
        y.len()
    };
    if n == 0 {
        return model::WHOLE;
    }
    let d = edit_distance(&x, &y);
    let m: u128 = (n - d) as u128;
    let w: u128 = model::WHOLE as u128;
    assert(m * w <= u64::MAX * 1_000_000) by (nonlinear_arith)
        requires
            m <= u64::MAX,
            w == 1_000_000,
    ;
    let q: u128 = m * w / n as u128;
    proof {
        let m = m as int;
        let t = n as int;
        let w = w as int;
        assert(m * w / t <= w) by (nonlinear_arith)
            requires
                0 <= m <= t,
                t > 0,
                w > 0,
        ;
    }
    q as u32
}

/// Whether two entities may be the same: their names are not the same and nearly so.
pub open spec fn may_be_same(a: GraphNode, b: GraphNode) -> bool {
    let x = merger::canonical(a.name@);
    let y = merger::canonical(b.name@);
    x.len() > 0 && y.len() > 0 && x != y && likeness(x, y) >= DUPLICATE_MIN
}

pub struct DuplicateV {
    pub node_a: Seq<char>,
    pub node_b: Seq<char>,
    pub name_a: Seq<char>,
    pub name_b: Seq<char>,
    pub similarity: int,
}

pub open spec fn duplicate_of(a: GraphNode, b: GraphNode) -> DuplicateV {
    DuplicateV {
        node_a: a.id@,
        node_b: b.id@,
        name_a: a.name@,
        name_b: b.name@,
        similarity: likeness(merger::canonical(a.name@), merger::canonical(b.name@)),
    }
}

pub open spec fn duplicate_view(d: GraphDuplicate) -> DuplicateV {
    DuplicateV {
        node_a: d.node_a@,
        node_b: d.node_b@,
        name_a: d.name_a@,
        name_b: d.name_b@,
        similarity: d.similarity as int,
    }
}

pub open spec fn as_duplicate() -> spec_fn(GraphDuplicate) -> DuplicateV {
    |d: GraphDuplicate| duplicate_view(d)
}

/// What is like the `i`th entity among those behind it and before the `j`th.
pub open spec fn like_one(es: Seq<GraphNode>, i: int, j: int) -> Seq<DuplicateV>
    decreases j - i,
{
    if j <= i + 1 {
        Seq::empty()
    } else {
        let before = like_one(es, i, j - 1);
        if may_be_same(es[i], es[j - 1]) {
            before.push(duplicate_of(es[i], es[j - 1]))
        } else {
            before
        }
    }
}

/// What is like one of the first `i` entities among those behind it.
pub open spec fn like_any(es: Seq<GraphNode>, i: int) -> Seq<DuplicateV>
    decreases i,
{
    if i <= 0 {
        Seq::empty()
    } else {
        like_any(es, i - 1) + like_one(es, i - 1, es.len() as int)
    }
}

/// The entities that are compared: all of them, or of too many those with the most edges.
pub open spec fn compared(nodes: Seq<GraphNode>, edges: Seq<EdgeRow>) -> Seq<GraphNode> {
    let all = rows::kept(
        lists::overview(nodes, DUPLICATE_NODES),
        lists::of_type(NodeType::Entity),
    );
    if all.len() > DUPLICATE_ENTITIES {
        lists::by_degree(edges, all, DUPLICATE_ENTITIES)
    } else {
        all
    }
}

proof fn lemma_like_one_prefix(es: Seq<GraphNode>, i: int, j: int, k: int)
    requires
        j <= k,
    ensures
        like_one(es, i, j).len() <= like_one(es, i, k).len(),
        like_one(es, i, k).take(like_one(es, i, j).len() as int) == like_one(es, i, j),
    decreases k - j,
{
    if j < k {
        lemma_like_one_prefix(es, i, j, k - 1);
        let a = like_one(es, i, j);
        let b = like_one(es, i, k - 1);
        let c = like_one(es, i, k);
        if k > i + 1 {
            assert(c.take(b.len() as int) =~= b);
            assert(c.take(a.len() as int) =~= b.take(a.len() as int));
        }
    } else {
        assert(like_one(es, i, k).take(like_one(es, i, j).len() as int) =~= like_one(es, i, j));
    }
}

proof fn lemma_like_any_prefix(es: Seq<GraphNode>, i: int, k: int)
    requires
        0 <= i <= k,
    ensures
        like_any(es, i).len() <= like_any(es, k).len(),
        like_any(es, k).take(like_any(es, i).len() as int) == like_any(es, i),
    decreases k - i,
{
    if i < k {
        lemma_like_any_prefix(es, i, k - 1);
        let a = like_any(es, i);
        let b = like_any(es, k - 1);
        let c = like_any(es, k);
        assert(c.take(b.len() as int) =~= b);
        assert(c.take(a.len() as int) =~= b.take(a.len() as int));
    } else {
        assert(like_any(es, k).take(like_any(es, i).len() as int) =~= like_any(es, i));
    }
}

/// What was found so far is the beginning of all.
proof fn lemma_found_prefix(es: Seq<GraphNode>, i: int, j: int)
    requires
        0 <= i < es.len(),
        j <= es.len(),
    ensures
        ({
            let so_far = like_any(es, i) + like_one(es, i, j);
            let all = like_any(es, es.len() as int);
            so_far.len() <= all.len() && all.take(so_far.len() as int) == so_far
        }),
{
    let so_far = like_any(es, i) + like_one(es, i, j);
    let next = like_any(es, i + 1);
    let all = like_any(es, es.len() as int);
    lemma_like_one_prefix(es, i, j, es.len() as int);
    lemma_like_any_prefix(es, i + 1, es.len() as int);
    assert(next.take(so_far.len() as int) =~= so_far) by {
        let whole = like_one(es, i, es.len() as int);
        let part = like_one(es, i, j);
        assert forall|x: int| 0 <= x < so_far.len() implies next[x] == so_far[x] by {
            if x >= like_any(es, i).len() {
                let y = x - like_any(es, i).len();
                assert(whole.take(part.len() as int)[y] == whole[y]);
            }
        }
    }
    assert(all.take(so_far.len() as int) =~= next.take(so_far.len() as int)) by {
        assert forall|x: int| 0 <= x < so_far.len() implies all[x] == next[x] by {
            assert(all.take(next.len() as int)[x] == all[x]);
        }
    }
}

impl GraphStore {
    fn entities_to_compare(&self) -> (r: Vec<GraphNode>)
        ensures
            r@ == compared(self.nodes@, self.edges@),
    {
        let all = self.all_nodes(DUPLICATE_NODES);
        let mut out: Vec<GraphNode> = Vec::new();
        let mut i: usize = 0;
        while i < all.len()
            invariant
                i <= all.len(),
                out@ == rows::kept(all@.take(i as int), lists::of_type(NodeType::Entity)),
            decreases all.len() - i,
        {
            proof {
                assert(all@.take(i + 1) == all@.take(i as int).push(all@[i as int]));
                rows::lemma_kept_push(
                    all@.take(i as int),
                    all@[i as int],
                    lists::of_type(NodeType::Entity),
                );
            }
            if all[i].node_type == NodeType::Entity {
                out.push(all[i].clone());
            }
            i += 1;
        }
        assert(all@.take(i as int) == all@);
        if out.len() > DUPLICATE_ENTITIES as usize {
            self.sort_by_degree(&out, DUPLICATE_ENTITIES)
        } else {
            out
        }
    }

    /// Pairs of entities whose names are nearly the same, at most `limit` and at least the
    /// first.
    pub fn detect_duplicates(&self, limit: usize) -> (r: Vec<GraphDuplicate>)
        ensures
            ({
                let es = compared(self.nodes@, self.edges@);
                rows::mapped(r@, as_duplicate()) == rows::limited(
                    like_any(es, es.len() as int),
                    if limit < 1 {
                        1
                    } else {
                        limit as nat
                    },
                )
            }),
    {
        let es = self.entities_to_compare();
        let max: usize = if limit < 1 {
            1
        } else {
            limit
        };
        let mut names: Vec<String> = Vec::new();
        let mut k: usize = 0;
        while k < es.len()
            invariant
                k <= es.len(),
                names@.len() == k,
                forall|x: int| 0 <= x < k ==> (#[trigger] names@[x])@ == merger::canonical(es@[x].name@),
            decreases es.len() - k,
        {
            names.push(merger::canonicalize(&es[k].name));
            k += 1;
        }
        let ghost all = like_any(es@, es@.len() as int);
        let mut out: Vec<GraphDuplicate> = Vec::new();
        let mut i: usize = 0;
        assert(rows::mapped(out@, as_duplicate()) =~= Seq::empty());
        while i < es.len()
            invariant
                i <= es.len(),
                max >= 1,
                max == (if limit < 1 {
                    1
                } else {
                    limit
                }),
                es@ == compared(self.nodes@, self.edges@),
                names@.len() == es@.len(),
                forall|x: int|
                    0 <= x < names@.len() ==> (#[trigger] names@[x])@ == merger::canonical(
                        es@[x].name@,
                    ),
                all == like_any(es@, es@.len() as int),
                rows::mapped(out@, as_duplicate()) == like_any(es@, i as int),
                out@.len() < max,
            decreases es.len() - i,
        {
            let mut j: usize = i + 1;
            assert(like_any(es@, i as int) + like_one(es@, i as int, j as int) =~= like_any(
                es@,
                i as int,
            ));
            while j < es.len()
                invariant
                    i < es.len(),
                    i + 1 <= j <= es.len(),
                    max >= 1,
                    max == (if limit < 1 {
                        1
                    } else {
                        limit
                    }),
                    es@ == compared(self.nodes@, self.edges@),
                    names@.len() == es@.len(),
                    forall|x: int|
                        0 <= x < names@.len() ==> (#[trigger] names@[x])@ == merger::canonical(
                            es@[x].name@,
                        ),
                    all == like_any(es@, es@.len() as int),
                    rows::mapped(out@, as_duplicate()) == like_any(es@, i as int) + like_one(
                        es@,
                        i as int,
                        j as int,
                    ),
                    out@.len() < max,
                decreases es.len() - j,
            {
                let same = names[i] == names[j];
                let named = text::chars_of(&names[i]).len() > 0 && text::chars_of(&names[j]).len()
                    > 0;
                if named && !same {
                    let sim = levenshtein_ratio(&names[i], &names[j]);
                    if sim >= DUPLICATE_MIN {
                        let d = GraphDuplicate {
                            node_a: es[i].id.clone(),
                            node_b: es[j].id.clone(),
                            name_a: es[i].name.clone(),
                            name_b: es[j].name.clone(),
                            similarity: sim,
                        };
                        proof {
                            rows::lemma_mapped_push(out@, as_duplicate(), d);
                            assert(like_any(es@, i as int) + like_one(es@, i as int, j + 1) =~= (
                            like_any(es@, i as int) + like_one(es@, i as int, j as int)).push(
                                duplicate_view(d),
                            ));
                        }
                        out.push(d);
                        if out.len() >= max {
                            proof {
                                lemma_found_prefix(es@, i as int, j + 1);
                                assert(rows::mapped(out@, as_duplicate()).len() == out@.len());
                                if all.len() == max {
                                    assert(all.take(max as int) =~= all);
                                }
                            }
                            return out;
                        }
                    }
                }
                j += 1;
            }
            i += 1;
        }
        assert(rows::mapped(out@, as_duplicate()).len() == out@.len());
        out
    }
}

/// Two texts are a whole alike exactly where they are equal.
pub proof fn law_only_equal_texts_are_a_whole_alike(a: Seq<char>, b: Seq<char>)
    ensures
        likeness(a, b) == model::WHOLE <==> a == b,
{
    let n = longer(a, b) as int;
    let d = distance(a, b, a.len() as int, b.len() as int) as int;
    let w = model::WHOLE as int;
    lemma_distance(a, b, a.len() as int, b.len() as int);
    if a == b {
        lemma_same_distance(a, a.len() as int);
        if n > 0 {
            assert(n * w / n == w) by (nonlinear_arith)
                requires
                    n > 0,
            ;
        }
    } else if n > 0 {
        if d == 0 {
            lemma_no_distance(a, b, a.len() as int, b.len() as int);
            assert(a.take(a.len() as int) =~= a);
            assert(b.take(b.len() as int) =~= b);
        }
        assert((n - d) * w / n < w) by (nonlinear_arith)
            requires
                n > 0,
                0 < d <= n,
                w > 0,
        ;
    } else {
        assert(a =~= b);
    }
}

/// It does not matter which of two texts is named first.
pub proof fn law_likeness_goes_both_ways(a: Seq<char>, b: Seq<char>)
    ensures
        likeness(a, b) == likeness(b, a),
{
    lemma_distance_both_ways(a, b, a.len() as int, b.len() as int);
}

proof fn lemma_distance_both_ways(a: Seq<char>, b: Seq<char>, i: int, j: int)
    requires
        0 <= i,
        0 <= j,
    ensures
        distance(a, b, i, j) == distance(b, a, j, i),
    decreases i + j,
{
    if i > 0 && j > 0 {
        lemma_distance_both_ways(a, b, i - 1, j);
        lemma_distance_both_ways(a, b, i, j - 1);
        lemma_distance_both_ways(a, b, i - 1, j - 1);
    }
}

proof fn lemma_same_distance(a: Seq<char>, n: int)
    requires
        0 <= n <= a.len(),
    ensures
        distance(a, a, n, n) == 0,
    decreases n,
{
    if n > 0 {
        lemma_same_distance(a, n - 1);
    }
}

proof fn lemma_no_distance(a: Seq<char>, b: Seq<char>, i: int, j: int)
    requires
        0 <= i <= a.len(),
        0 <= j <= b.len(),
        distance(a, b, i, j) == 0,
    ensures
        i == j,
        a.take(i) == b.take(j),
    decreases i,
{
    if i > 0 && j > 0 {
        lemma_no_distance(a, b, i - 1, j - 1);
        assert(a.take(i) =~= a.take(i - 1).push(a[i - 1]));
        assert(b.take(j) =~= b.take(j - 1).push(b[j - 1]));
    } else {
        assert(a.take(i) =~= b.take(j));
    }
}

} // verus!
