//! What questions bring up, said of names, words, nodes and edges.

use crate::graph::experience;
use crate::graph::experience::{EventV, HitV};
use crate::graph::explore;
use crate::graph::hung;
use crate::graph::ids;
use crate::graph::lists;
use crate::graph::merger;
use crate::graph::model;
use crate::graph::model::{GraphEdge, GraphNeighborhood, GraphNode, NodeType, Relation};
use crate::graph::rag;
use crate::graph::views;
use crate::graph::views::GraphV;
use crate::rows;
use crate::text;
use vstd::prelude::*;

verus! {

// ---- The node that a name means

/// Whether one name is within the other.
pub open spec fn overlap(a: Seq<char>, b: Seq<char>) -> bool {
    (a.len() > 0 && text::contains(b, a)) || text::contains(a, b)
}

/// Whether a node is the best of what a search for the name finds: the first of the very name,
/// or where there is none the first whose name overlaps, or where there is none the first.
pub open spec fn is_best(hits: Seq<GraphNode>, name: Seq<char>, r: Option<GraphNode>) -> bool {
    let c = merger::canonical(name);
    match r {
        None => hits.len() == 0,
        Some(n) => exists|i: int| #[trigger] is_best_at(hits, c, i) && n == hits[i],
    }
}

pub open spec fn is_best_at(hits: Seq<GraphNode>, c: Seq<char>, i: int) -> bool {
    &&& 0 <= i < hits.len()
    &&& if exists|k: int|
        0 <= k < hits.len() && merger::canonical((#[trigger] hits[k]).name@) == c {
        merger::canonical(hits[i].name@) == c && forall|k: int|
            0 <= k < i ==> merger::canonical((#[trigger] hits[k]).name@) != c
    } else if exists|k: int|
        0 <= k < hits.len() && overlap(c, merger::canonical((#[trigger] hits[k]).name@)) {
        overlap(c, merger::canonical(hits[i].name@)) && forall|k: int|
            0 <= k < i ==> !overlap(c, merger::canonical((#[trigger] hits[k]).name@))
    } else {
        i == 0
    }
}

proof fn lemma_first_where(s: Seq<GraphNode>, p: spec_fn(GraphNode) -> bool, i: int)
    requires
        0 <= i,
    ensures
        match rag::first_where(s, p, i) {
            Some(k) => i <= k < s.len() && p(s[k]) && forall|j: int|
                i <= j < k ==> !p(#[trigger] s[j]),
            None => forall|j: int| i <= j < s.len() ==> !p(#[trigger] s[j]),
        },
    decreases s.len() - i,
{
    if i < s.len() && !p(s[i]) {
        lemma_first_where(s, p, i + 1);
    }
}

/// A name means the node of the very name before one whose name only overlaps, and such a node
/// before any other that a search finds.
pub proof fn law_a_name_means_the_node_of_the_name(nodes: Seq<GraphNode>, name: Seq<char>)
    ensures
        is_best(
            lists::found_nodes(nodes, name, rag::NAME_HITS),
            name,
            rag::best_node(nodes, name),
        ),
{
    let c = merger::canonical(name);
    let hits = lists::found_nodes(nodes, name, rag::NAME_HITS);
    let same = rag::same_name(c);
    let near = rag::overlapping_name(c);
    lemma_first_where(hits, same, 0);
    lemma_first_where(hits, near, 0);
    assert forall|k: int| 0 <= k < hits.len() implies same(#[trigger] hits[k]) == (
    merger::canonical(hits[k].name@) == c) by {}
    assert forall|k: int| 0 <= k < hits.len() implies near(#[trigger] hits[k]) == overlap(
        c,
        merger::canonical(hits[k].name@),
    ) by {}
    if hits.len() > 0 {
        let i = match rag::first_where(hits, same, 0) {
            Some(i) => i,
            None => match rag::first_where(hits, near, 0) {
                Some(i) => i,
                None => 0,
            },
        };
        assert(same(hits[i]) == (merger::canonical(hits[i].name@) == c));
        assert(near(hits[i]) == overlap(c, merger::canonical(hits[i].name@)));
        assert(is_best_at(hits, c, i));
    }
}

/// The nodes that names mean are those that the names mean one by one, and none is left out.
pub proof fn law_every_name_brings_its_node(
    nodes: Seq<GraphNode>,
    names: Seq<Seq<char>>,
    n: int,
)
    requires
        0 <= n <= names.len(),
    ensures
        ({
            let r = rag::nodes_named(nodes, names, n);
            &&& forall|k: int|
                0 <= k < n ==> (rag::best_node(nodes, #[trigger] names[k]) matches Some(x)
                    ==> explore::has_id(r, x.id@))
            &&& forall|i: int|
                0 <= i < r.len() ==> exists|k: int|
                    0 <= k < n && rag::best_node(nodes, #[trigger] names[k]) == Some(
                        #[trigger] r[i],
                    )
        }),
    decreases n,
{
    if n > 0 {
        law_every_name_brings_its_node(nodes, names, n - 1);
        let before = rag::nodes_named(nodes, names, n - 1);
        let r = rag::nodes_named(nodes, names, n);
        assert forall|k: int| 0 <= k < n implies (rag::best_node(
            nodes,
            #[trigger] names[k],
        ) matches Some(x) ==> explore::has_id(r, x.id@)) by {
            if let Some(x) = rag::best_node(nodes, names[k]) {
                if k < n - 1 {
                    lemma_still_listed(before, r, x.id@);
                } else if !explore::has_id(before, x.id@) {
                    assert(r[r.len() - 1].id@ == x.id@);
                }
            }
        }
        assert forall|i: int| 0 <= i < r.len() implies exists|k: int|
            0 <= k < n && rag::best_node(nodes, #[trigger] names[k]) == Some(#[trigger] r[i]) by {
            if i < before.len() {
                assert(r[i] == before[i]);
                let k = choose|k: int|
                    0 <= k < n - 1 && rag::best_node(nodes, #[trigger] names[k]) == Some(before[i]);
                assert(rag::best_node(nodes, names[k]) == Some(r[i]));
            } else {
                assert(rag::best_node(nodes, names[n - 1]) == Some(r[i]));
            }
        }
    }
}

proof fn lemma_still_listed(before: Seq<GraphNode>, r: Seq<GraphNode>, id: Seq<char>)
    requires
        explore::has_id(before, id),
        before.len() <= r.len(),
        forall|i: int| 0 <= i < before.len() ==> r[i] == #[trigger] before[i],
    ensures
        explore::has_id(r, id),
{
    let i = choose|i: int| 0 <= i < before.len() && (#[trigger] before[i]).id@ == id;
    assert(r[i].id@ == id);
}

// ---- What is around

proof fn lemma_around(related: Seq<GraphNode>, root: Seq<char>, nodes: Seq<GraphNode>, n: int)
    requires
        0 <= n <= nodes.len(),
    ensures
        ({
            let r = rag::with_around(related, root, nodes, n);
            &&& related.len() <= r.len()
            &&& forall|i: int| 0 <= i < related.len() ==> r[i] == #[trigger] related[i]
            &&& forall|k: int|
                0 <= k < n && (#[trigger] nodes[k]).id@ != root ==> explore::has_id(
                    r,
                    nodes[k].id@,
                )
            &&& forall|i: int|
                related.len() <= i < r.len() ==> (#[trigger] r[i]).id@ != root
                    && nodes.contains(r[i])
        }),
    decreases n,
{
    if n > 0 {
        lemma_around(related, root, nodes, n - 1);
        let before = rag::with_around(related, root, nodes, n - 1);
        let r = rag::with_around(related, root, nodes, n);
        assert forall|k: int| 0 <= k < n && (#[trigger] nodes[k]).id@ != root implies explore::has_id(
            r,
            nodes[k].id@,
        ) by {
            if k < n - 1 {
                lemma_still_listed(before, r, nodes[k].id@);
            } else if !explore::has_id(before, nodes[k].id@) {
                assert(r[r.len() - 1].id@ == nodes[k].id@);
            }
        }
        assert forall|i: int| related.len() <= i < r.len() implies (#[trigger] r[i]).id@ != root
            && nodes.contains(r[i]) by {
            if i < before.len() {
                assert(r[i] == before[i]);
            } else {
                assert(r[i] == nodes[n - 1]);
            }
        }
    }
}

/// How many edges the first `n` surroundings have.
pub open spec fn edges_around(around: Seq<GraphNeighborhood>, n: int) -> nat
    decreases n,
{
    if n <= 0 {
        0
    } else {
        edges_around(around, n - 1) + around[n - 1].edges@.len()
    }
}

/// Whether a line speaks of the edge: it gives the relation by its name.
pub open spec fn speaks_of(line: Seq<char>, e: GraphEdge) -> bool {
    exists|a: Seq<char>, b: Seq<char>| line == #[trigger] arrow(a, e.relation, b)
}

pub open spec fn arrow(a: Seq<char>, r: Relation, b: Seq<char>) -> Seq<char> {
    a + " --"@ + r.name() + "--> "@ + b
}

/// Everything around the entities that a question is about comes up: each node near one of
/// them, and a line for each edge, in the order of the entities and of their edges.
pub proof fn law_all_around_comes_up(
    entities: Seq<GraphNode>,
    around: Seq<GraphNeighborhood>,
    n: int,
)
    requires
        0 <= n <= entities.len(),
        n <= around.len(),
    ensures
        ({
            let r = rag::surroundings(entities, around, n);
            &&& forall|k: int, j: int|
                0 <= k < n && 0 <= j < around[k].nodes@.len() && (
                #[trigger] around[k].nodes@[j]).id@ != entities[k].id@ ==> explore::has_id(
                    r.related,
                    around[k].nodes@[j].id@,
                )
            &&& r.lines.len() == edges_around(around, n)
            &&& forall|k: int, j: int|
                0 <= k < n && 0 <= j < around[k].edges@.len() ==> speaks_of(
                    r.lines[edges_around(around, k) + j],
                    #[trigger] around[k].edges@[j],
                )
        }),
    decreases n,
{
    if n > 0 {
        law_all_around_comes_up(entities, around, n - 1);
        let before = rag::surroundings(entities, around, n - 1);
        let r = rag::surroundings(entities, around, n);
        let a = around[n - 1];
        lemma_around(before.related, entities[n - 1].id@, a.nodes@, a.nodes@.len() as int);
        assert forall|k: int, j: int|
            0 <= k < n && 0 <= j < around[k].nodes@.len() && (#[trigger] around[k].nodes@[j]).id@
                != entities[k].id@ implies explore::has_id(r.related, around[k].nodes@[j].id@) by {
            if k < n - 1 {
                lemma_still_listed(before.related, r.related, around[k].nodes@[j].id@);
            } else {
                let x = a.nodes@[j];
            }
        }
        assert forall|k: int, j: int| 0 <= k < n && 0 <= j < around[k].edges@.len() implies speaks_of(
            r.lines[edges_around(around, k) + j],
            #[trigger] around[k].edges@[j],
        ) by {
            let at = edges_around(around, k) + j;
            lemma_edges_below(around, k, n - 1);
            if k < n - 1 {
                lemma_edges_below(around, k + 1, n - 1);
                assert(r.lines[at] == before.lines[at]);
            } else {
                let e = a.edges@[j];
                let from = rag::name_among(r.related, entities, e.source@);
                let to = rag::name_among(r.related, entities, e.target@);
                assert(r.lines[at] == arrow(from, e.relation, to));
            }
        }
    }
}

proof fn lemma_edges_below(around: Seq<GraphNeighborhood>, a: int, b: int)
    requires
        0 <= a <= b <= around.len(),
    ensures
        edges_around(around, a) <= edges_around(around, b),
    decreases b - a,
{
    if a < b {
        lemma_edges_below(around, a, b - 1);
    }
}

/// A line names the ends of its edge by what they are called, wherever they are known.
pub proof fn law_ends_go_by_their_names(
    related: Seq<GraphNode>,
    entities: Seq<GraphNode>,
    id: Seq<char>,
)
    ensures
        ({
            let name = rag::name_among(related, entities, id);
            if explore::has_id(related, id) {
                exists|i: int|
                    0 <= i < related.len() && (#[trigger] related[i]).id@ == id && name
                        == related[i].name@
            } else if explore::has_id(entities, id) {
                exists|i: int|
                    0 <= i < entities.len() && (#[trigger] entities[i]).id@ == id && name
                        == entities[i].name@
            } else {
                name == "?"@
            }
        }),
{
    let p = rag::has_the_id(id);
    lemma_first_where(related, p, 0);
    lemma_first_where(entities, p, 0);
    if explore::has_id(related, id) {
        let i = choose|i: int| 0 <= i < related.len() && (#[trigger] related[i]).id@ == id;
        assert(p(related[i]));
    }
    if explore::has_id(entities, id) {
        let i = choose|i: int| 0 <= i < entities.len() && (#[trigger] entities[i]).id@ == id;
        assert(p(entities[i]));
    }
    match rag::first_where(related, p, 0) {
        Some(k) => {
            assert(related[k].id@ == id);
        },
        None => match rag::first_where(entities, p, 0) {
            Some(k) => {
                assert(entities[k].id@ == id);
            },
            None => {},
        },
    }
}

// ---- What was lived through

/// How many of the words stand in a text.
pub open spec fn words_within(words: Seq<Seq<char>>, s: Seq<char>) -> nat {
    words.filter(|w: Seq<char>| text::contains(text::lowercase(s), w)).len()
}

/// What an event says in one text: its problem and its solution.
pub open spec fn says(e: EventV) -> Seq<char> {
    experience::problem_in(e.title) + " "@ + experience::solution_in(e.title, e.body)
}

pub open spec fn likeness() -> spec_fn(HitV) -> int {
    |h: HitV| h.hits as int
}

/// Whether hits are the events that hold one of the words, each with how many it holds, in the
/// order of the events.
pub open spec fn are_hits(words: Seq<Seq<char>>, es: Seq<EventV>, hs: Seq<HitV>) -> bool {
    let some = es.filter(
        |e: EventV|
            experience::problem_in(e.title).len() > 0 && experience::solution_in(
                e.title,
                e.body,
            ).len() > 0 && words_within(words, says(e)) > 0,
    );
    &&& hs.len() == some.len()
    &&& forall|i: int|
        0 <= i < hs.len() ==> (#[trigger] hs[i]).event == some[i] && hs[i].hits == words_within(
            words,
            says(some[i]),
        ) && hs[i].problem == experience::problem_in(some[i].title) && hs[i].solution
            == experience::solution_in(some[i].title, some[i].body)
}

proof fn lemma_word_hits(words: Seq<Seq<char>>, lower: Seq<char>, n: int)
    requires
        0 <= n <= words.len(),
    ensures
        experience::word_hits(words, lower, n) == words.take(n).filter(
            |w: Seq<char>| text::contains(lower, w),
        ).len(),
    decreases n,
{
    reveal(Seq::filter);
    if n > 0 {
        lemma_word_hits(words, lower, n - 1);
        assert(words.take(n).drop_last() =~= words.take(n - 1));
        assert(words.take(n).last() == words[n - 1]);
    }
}

proof fn lemma_hits(words: Seq<Seq<char>>, es: Seq<EventV>, n: int)
    requires
        0 <= n <= es.len(),
    ensures
        are_hits(words, es.take(n), experience::all_hits(words, es, n)),
    decreases n,
{
    reveal(Seq::filter);
    if n > 0 {
        lemma_hits(words, es, n - 1);
        let e = es[n - 1];
        assert(es.take(n).drop_last() =~= es.take(n - 1));
        assert(es.take(n).last() == e);
        let lower = text::lowercase(says(e));
        lemma_word_hits(words, lower, words.len() as int);
        assert(words.take(words.len() as int) =~= words);
    }
}

/// What is like a problem is found by its words: the events that hold one of them, those that
/// hold more of them first, at most fifty and at least one where there is one.
pub proof fn law_the_likest_events_come_first(es: Seq<EventV>, problem: Seq<char>, limit: nat)
    ensures
        ({
            let words = experience::keywords_of(problem);
            let r = experience::similar(es, problem, limit);
            &&& words.len() == 0 ==> r.len() == 0
            &&& words.len() > 0 ==> exists|hs: Seq<HitV>| #[trigger]
                are_hits(words, es, hs) && rows::is_top(
                    hs,
                    likeness(),
                    if limit < 1 {
                        1
                    } else if limit > 50 {
                        50
                    } else {
                        limit
                    },
                    r,
                )
        }),
{
    let words = experience::keywords_of(problem);
    let hs = experience::all_hits(words, es, es.len() as int);
    let most = if limit < 1 {
        1
    } else if limit > 50 {
        50
    } else {
        limit
    };
    if words.len() == 0 {
        let none = Seq::<HitV>::empty();
        rows::lemma_top(none, likeness(), experience::hit_keys(none), most);
    } else {
        lemma_hits(words, es, es.len() as int);
        assert(es.take(es.len() as int) =~= es);
        rows::lemma_top(hs, likeness(), experience::hit_keys(hs), most);
    }
}

/// What is recorded hangs together: the problem is solved by the solution, the solution stands
/// in the file and was proved by the event; no other edge comes or goes.
pub proof fn law_an_experience_hangs_together(
    g: GraphV,
    e: EventV,
    problem: Seq<char>,
    solution: Seq<char>,
    now: i64,
    s: Seq<char>,
    t: Seq<char>,
    q: Relation,
)
    ensures
        hung::has_edge(
            experience::with_experience(g, e, problem, solution, now),
            s,
            t,
            q,
        ) <==> hung::has_edge(g, s, t, q) || (s == experience::problem_id(problem) && t
            == experience::solution_id(solution) && q == Relation::SolvedBy) || (s
            == experience::solution_id(solution) && q == Relation::ImplementedIn && (
        e.file_path matches Some(f) && t == ids::node_id(NodeType::Doc, f))) || (s
            == experience::solution_id(solution) && t == experience::event_id(e.id) && q
            == Relation::ValidatedBy),
{
    let pid = experience::problem_id(problem);
    let sid = experience::solution_id(solution);
    let eid = experience::event_id(e.id);
    let whole = model::WHOLE;
    let own = Some(e.id);
    let one = views::put_node(
        views::put_node(g, experience::problem_node(problem), now),
        experience::solution_node(solution),
        now,
    );
    assert(hung::has_edge(one, s, t, q) == hung::has_edge(g, s, t, q));
    hung::lemma_put_edge(one, pid, sid, Relation::SolvedBy, whole, whole, own, now, s, t, q);
    let two = views::put_whole_edge(one, pid, sid, Relation::SolvedBy, e.id, now);
    let three = match e.file_path {
        Some(f) => {
            let doc = ids::node_id(NodeType::Doc, f);
            hung::lemma_put_edge(
                two,
                sid,
                doc,
                Relation::ImplementedIn,
                whole,
                whole,
                own,
                now,
                s,
                t,
                q,
            );
            views::put_whole_edge(two, sid, doc, Relation::ImplementedIn, e.id, now)
        },
        None => two,
    };
    let four = views::put_node(three, experience::event_node(e), now);
    assert(hung::has_edge(four, s, t, q) == hung::has_edge(three, s, t, q));
    hung::lemma_put_edge(four, sid, eid, Relation::ValidatedBy, whole, whole, own, now, s, t, q);
}

} // verus!
