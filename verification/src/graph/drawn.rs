//! What a model proposes, what links name and what titles tell, and what comes of it.

use crate::graph::ai;
use crate::graph::ai::{ProposalV, WorkV};
use crate::graph::experience;
use crate::graph::extractor;
use crate::graph::hung;
use crate::graph::joined;
use crate::graph::links;
use crate::graph::merger;
use crate::graph::model::Relation;
use crate::graph::views;
use crate::graph::views::{EdgeV, GraphV};
use crate::rows;
use crate::text;
use vstd::prelude::*;

verus! {

/// An item proposes something just where it names two things that differ and a relation that
/// is known, and it proposes what it says.
pub proof fn law_a_proposal_says_what_the_item_says(
    source: Seq<char>,
    target: Seq<char>,
    label: Seq<char>,
    confidence: u32,
    evidence: Seq<char>,
)
    ensures
        ({
            let r = ai::proposal_of(source, target, label, confidence, evidence);
            &&& r is Some <==> source.len() > 0 && target.len() > 0 && source != target
                && ai::relation_meant(label) is Some
            &&& r matches Some(p) ==> p.source == source && p.target == target && p.confidence
                == confidence && ai::relation_meant(label) == Some(p.relation) && (match p.evidence {
                Some(e) => e == evidence && e.len() > 0,
                None => evidence.len() == 0,
            })
        }),
{
}

/// The places of the items that propose something lead to the proposals, in their order.
pub open spec fn are_proposals(t: Seq<char>, n: int, r: Seq<ProposalV>, at: Seq<int>) -> bool {
    &&& at.len() == r.len()
    &&& forall|k: int|
        0 <= k < at.len() ==> 0 <= #[trigger] at[k] < n && ai::proposal_at(t, at[k]) == Some(r[k])
    &&& forall|a: int, b: int| 0 <= a < b < at.len() ==> #[trigger] at[a] < #[trigger] at[b]
    &&& forall|i: int| 0 <= i < n && #[trigger] ai::proposal_at(t, i) is Some ==> at.contains(i)
}

/// The proposals of a reply are those of its items, in their order, and no item that
/// proposes something is passed over.
pub proof fn law_proposals_come_in_their_order(t: Seq<char>, n: int) -> (at: Seq<int>)
    requires
        0 <= n,
    ensures
        are_proposals(t, n, ai::first_proposals(t, n), at),
    decreases n,
{
    if n == 0 {
        Seq::empty()
    } else {
        let before = law_proposals_come_in_their_order(t, n - 1);
        let r = ai::first_proposals(t, n);
        match ai::proposal_at(t, n - 1) {
            Some(p) => {
                let at = before.push(n - 1);
                assert forall|i: int| 0 <= i < n && #[trigger] ai::proposal_at(t, i) is Some implies at.contains(
                    i,
                ) by {
                    if i < n - 1 {
                        assert(before.contains(i));
                        let k = choose|k: int| 0 <= k < before.len() && before[k] == i;
                        assert(at[k] == i);
                    } else {
                        assert(at[before.len() as int] == i);
                    }
                }
                at
            },
            None => before,
        }
    }
}

/// A proposal between two names becomes one between the entities that the names mean, with
/// the same relation, confidence and evidence, from the source to the target. A sure one is
/// an edge of the graph at once and says so; any other waits, and the graph has no more than
/// the two entities. The target hangs at the document.
pub proof fn law_a_proposal_joins_what_the_names_mean(
    w: WorkV,
    p: ProposalV,
    rel_path: Seq<char>,
    now: i64,
)
    requires
        merger::canonical(p.source).len() > 0,
        merger::canonical(p.target).len() > 0,
        rows::unique(w.m.g.nodes, views::nv_key()),
    ensures
        ({
            let doc = "doc"@ + seq![':'] + text::replace_char(rel_path, '\\', '/');
            let one = merger::entity_step(w.m, p.source, Seq::empty(), Some(doc), now);
            let two = merger::entity_step(one, p.target, Seq::empty(), Some(doc), now);
            let r = ai::proposed(w, p, rel_path, now);
            exists|k: int|
                0 <= k < r.proposals.len() && {
                    let c = #[trigger] r.proposals[k];
                    &&& joined::means(one.index, merger::canonical(p.source), c.source)
                    &&& joined::means(two.index, merger::canonical(p.target), c.target)
                    &&& c.relation == p.relation && c.confidence == p.confidence
                    &&& c.evidence == p.evidence && c.source_doc == Some(rel_path)
                    &&& c.created_at == now
                    &&& if p.confidence >= 900_000 {
                        &&& c.status == "auto_confirmed"@
                        &&& hung::has_edge(r.m.g, c.source, c.target, p.relation)
                        &&& r.m.g.nodes == two.g.nodes
                    } else {
                        c.status == "candidate"@ && r.m.g == two.g
                    }
                    &&& hung::has_edge(r.m.g, c.target, doc, Relation::DerivedFrom)
                } && r.added == w.added + 1
        }),
{
    let doc = crate::graph::ids::node_id(crate::graph::model::NodeType::Doc, rel_path);
    let one = ai::mention(w.m, p.source, doc, now);
    let two = ai::mention(one, p.target, doc, now);
    let r = ai::proposed(w, p, rel_path, now);
    let a = ai::meant_entity(w.m, p.source);
    let b = ai::meant_entity(one, p.target);
    let c = ai::new_candidate(a, b, p, rel_path, now, w.added + 1);
    joined::lemma_takes_its_names(w.m, p.source, Seq::empty(), Some(doc), now);
    joined::lemma_takes_its_names(one, p.target, Seq::empty(), Some(doc), now);
    rows::lemma_row_index(w.proposals, ai::cv_key(), c.id, 0);
    let k: int = match rows::row_index(w.proposals, ai::cv_key(), c.id, 0) {
        Some(i) => i,
        None => w.proposals.len() as int,
    };
    assert(r.proposals[k] == c);
    hung::lemma_put_edge(
        two.g,
        a,
        b,
        p.relation,
        p.confidence,
        p.confidence,
        Some(c.id),
        now,
        a,
        b,
        p.relation,
    );
    hung::lemma_put_edge(
        two.g,
        a,
        b,
        p.relation,
        p.confidence,
        p.confidence,
        Some(c.id),
        now,
        b,
        doc,
        Relation::DerivedFrom,
    );
}

/// An edge that is written again is the same edge, stronger by the weight that is added, but
/// never beyond the whole, and as sure as the surer of the two says; it keeps its age.
pub proof fn law_an_edge_written_again_is_stronger(
    g: GraphV,
    source: Seq<char>,
    target: Seq<char>,
    relation: Relation,
    weight: u32,
    confidence: u32,
    from: Option<Seq<char>>,
    now: i64,
    k: int,
)
    requires
        rows::unique(g.edges, views::ev_key()),
        0 <= k < g.edges.len(),
    ensures
        ({
            let r = views::put_edge(g, source, target, relation, weight, confidence, from, now);
            let e = g.edges[k];
            if e.source == source && e.target == target && e.relation == relation {
                &&& r.edges.len() == g.edges.len()
                &&& r.edges[k] == (EdgeV {
                    weight: r.edges[k].weight,
                    confidence: r.edges[k].confidence,
                    updated_at: now,
                    ..e
                })
                &&& e.weight + weight <= 1_000_000 ==> r.edges[k].weight == e.weight + weight
                &&& e.weight + weight > 1_000_000 ==> r.edges[k].weight == 1_000_000
                &&& r.edges[k].confidence >= e.confidence && r.edges[k].confidence >= confidence
                &&& r.edges[k].confidence == e.confidence || r.edges[k].confidence == confidence
            } else {
                r.edges[k] == e
            }
        }),
{
    rows::lemma_row_index(g.edges, views::ev_key(), (source, target, relation), 0);
    if g.edges[k].source == source && g.edges[k].target == target && g.edges[k].relation == relation {
        rows::lemma_row_index_at(g.edges, views::ev_key(), k);
    }
}

/// Whether the host is what stands in an address between the first `://` and the next slash.
pub open spec fn is_host(target: Seq<char>, host: Seq<char>) -> bool {
    &&& !host.contains('/')
    &&& exists|i: int|
        #![trigger text::occurs_at(target, "://"@, i)]
        0 <= i && text::occurs_at(target, "://"@, i) && (forall|j: int|
            0 <= j < i ==> !text::occurs_at(target, "://"@, j)) && text::occurs_at(
            target,
            host,
            i + 3,
        ) && (i + 3 + host.len() == target.len() || target[i + 3 + host.len()] == '/'
            || text::occurs_at(target, "://"@, i + 3 + host.len()))
}

/// The entity that an address on the web names is called by what stands in its host before
/// the first dot.
pub proof fn law_a_link_names_its_host(target: Seq<char>)
    ensures
        extractor::host_entity(target) matches Some(h) ==> {
            &&& links::is_web(target)
            &&& is_host(target, h.host)
            &&& h.name.len() > 0 && !h.name.contains('.')
            &&& h.host == h.name || exists|rest: Seq<char>| h.host == h.name + seq!['.'] + rest
        },
{
    if let Some(h) = extractor::host_entity(target) {
        text::lemma_find_from(target, "://"@, 0);
        reveal_strlit("://");
        let host = h.host;
        let none = Seq::<char>::empty();
        if text::find(target, "://"@) is None {
            text::law_the_first_place_is_found(none, text::only('.'), 0);
            assert(host.len() == 0);
            assert(h.name.len() == 0);
        }
        let i = text::find(target, "://"@)->0;
        let rest = target.skip(i + 3);
        let upto = text::before_text(rest, "://"@);
        text::lemma_find_from(rest, "://"@, 0);
        text::law_the_first_place_is_found(upto, text::only('/'), 0);
        text::law_the_first_place_is_found(host, text::only('.'), 0);
        assert(host.len() <= upto.len() <= rest.len());
        assert(host =~= rest.take(host.len() as int)) by {
            assert(upto =~= rest.take(upto.len() as int));
            assert(host =~= upto.take(host.len() as int));
        }
        assert(target.subrange(i + 3, i + 3 + host.len()) =~= host);
        assert(text::occurs_at(target, host, i + 3));
        if host.contains('/') {
            let j = choose|j: int| 0 <= j < host.len() && host[j] == '/';
            assert(upto[j] == '/');
            assert(text::only('/')(upto[j]));
        }
        if host.len() < upto.len() {
            assert(target[i + 3 + host.len()] == upto[host.len() as int]);
            assert(text::only('/')(upto[host.len() as int]));
        } else if upto.len() < rest.len() {
            let k = text::find(rest, "://"@)->0;
            assert(k == upto.len());
            assert(target.subrange(i + 3 + k, i + 3 + k + 3) =~= rest.subrange(k, k + 3));
            assert(text::occurs_at(target, "://"@, i + 3 + host.len()));
        }
        assert(text::occurs_at(target, "://"@, i));
        assert(h.name =~= host.take(h.name.len() as int));
        if h.name.contains('.') {
            let j = choose|j: int| 0 <= j < h.name.len() && h.name[j] == '.';
            assert(host[j] == '.');
            assert(text::only('.')(host[j]));
        }
        if h.name.len() < host.len() {
            let tail = host.skip(h.name.len() as int + 1);
            assert(text::only('.')(host[h.name.len() as int]));
            assert(host =~= h.name + seq!['.'] + tail);
        }
    }
}

/// Each entity that the links name is named by one of them, comes once, and none is missing.
pub proof fn law_each_link_brings_its_entity(targets: Seq<Seq<char>>, n: int)
    requires
        0 <= n <= targets.len(),
    ensures
        ({
            let r = extractor::host_entities(targets, n);
            &&& forall|k: int|
                0 <= k < r.len() ==> exists|i: int|
                    0 <= i < n && extractor::host_entity(#[trigger] targets[i]) == Some(#[trigger] r[k])
            &&& forall|i: int|
                0 <= i < n ==> (extractor::host_entity(#[trigger] targets[i]) matches Some(h)
                    ==> extractor::has_host(r, h.name))
            &&& forall|a: int, b: int|
                0 <= a < b < r.len() ==> (#[trigger] r[a]).name != (#[trigger] r[b]).name
        }),
    decreases n,
{
    if n > 0 {
        let before = extractor::host_entities(targets, n - 1);
        let r = extractor::host_entities(targets, n);
        law_each_link_brings_its_entity(targets, n - 1);
        assert forall|k: int| 0 <= k < r.len() implies exists|i: int|
            0 <= i < n && extractor::host_entity(#[trigger] targets[i]) == Some(#[trigger] r[k]) by {
            if k < before.len() {
                assert(r[k] == before[k]);
            } else {
                assert(extractor::host_entity(targets[n - 1]) == Some(r[k]));
            }
        }
        assert forall|i: int| 0 <= i < n implies (extractor::host_entity(#[trigger] targets[i]) matches Some(
            h,
        ) ==> extractor::has_host(r, h.name)) by {
            if let Some(h) = extractor::host_entity(targets[i]) {
                if extractor::has_host(before, h.name) {
                    let k = choose|k: int| 0 <= k < before.len() && (#[trigger] before[k]).name == h.name;
                    assert(r[k].name == h.name);
                } else {
                    assert(r[r.len() - 1].name == h.name);
                }
            }
        }
    }
}

/// Whether the text is what stands in the title from the place on, without blanks around.
pub open spec fn is_rest(title: Seq<char>, at: int, r: Seq<char>) -> bool {
    0 <= at <= title.len() && r == text::trim(title.skip(at))
}

proof fn lemma_from_word(title: Seq<char>, words: Seq<Seq<char>>, i: int)
    requires
        0 <= i,
    ensures
        match experience::from_word(title, words, i) {
            Some(r) => exists|k: int, at: int|
                i <= k < words.len() && #[trigger] text::occurs_at(title, #[trigger] words[k], at)
                    && is_rest(title, at, r) && (forall|j: int|
                    i <= j < k ==> !text::contains(title, #[trigger] words[j])) && (forall|b: int|
                    0 <= b < at ==> !text::occurs_at(title, words[k], b)),
            None => forall|j: int| i <= j < words.len() ==> !text::contains(title, #[trigger] words[j]),
        },
    decreases words.len() - i,
{
    if i < words.len() {
        text::lemma_find_from(title, words[i], 0);
        match text::find(title, words[i]) {
            Some(at) => {
                assert(text::occurs_at(title, words[i], at));
                assert(is_rest(title, at, experience::from_word(title, words, i)->0));
            },
            None => {
                lemma_from_word(title, words, i + 1);
                if let Some(r) = experience::from_word(title, words, i + 1) {
                    let (k, at) = choose|k: int, at: int|
                        i + 1 <= k < words.len() && #[trigger] text::occurs_at(
                            title,
                            #[trigger] words[k],
                            at,
                        ) && is_rest(title, at, r) && (forall|j: int|
                            i + 1 <= j < k ==> !text::contains(title, #[trigger] words[j])) && (forall|
                            b: int,
                        |
                            0 <= b < at ==> !text::occurs_at(title, words[k], b));
                    assert(text::occurs_at(title, words[k], at));
                }
            },
        }
    }
}

/// The problem that a title speaks of begins where the first word that begins a problem
/// first stands; a title without such a word is the problem.
pub proof fn law_a_problem_begins_with_its_word(title: Seq<char>)
    ensures
        ({
            let words = experience::problem_words();
            let r = experience::problem_in(title);
            if exists|k: int| 0 <= k < words.len() && text::contains(title, #[trigger] words[k]) {
                exists|k: int, at: int|
                    0 <= k < words.len() && #[trigger] text::occurs_at(title, #[trigger] words[k], at)
                        && (is_rest(title, at, r) || r == text::trim(title)) && (forall|j: int|
                        0 <= j < k ==> !text::contains(title, #[trigger] words[j])) && (forall|b: int|
                        0 <= b < at ==> !text::occurs_at(title, words[k], b)) && (text::trim(
                        title.skip(at),
                    ).len() > 0 ==> is_rest(title, at, r))
            } else {
                r == text::trim(title)
            }
        }),
{
    let words = experience::problem_words();
    let r = experience::problem_in(title);
    lemma_from_word(title, words, 0);
    if let Some(rest) = experience::from_word(title, words, 0) {
        let (k, at) = choose|k: int, at: int|
            0 <= k < words.len() && #[trigger] text::occurs_at(title, #[trigger] words[k], at) && is_rest(
                title,
                at,
                rest,
            ) && (forall|j: int| 0 <= j < k ==> !text::contains(title, #[trigger] words[j])) && (forall|
                b: int,
            |
                0 <= b < at ==> !text::occurs_at(title, words[k], b));
        assert(text::occurs_at(title, words[k], at));
        assert(is_rest(title, at, r) || r == text::trim(title));
        text::lemma_find_from(title, words[k], 0);
        assert(text::contains(title, words[k]));
    }
}

/// The first line that is not blank.
pub proof fn law_the_first_line_tells(lines: Seq<Seq<char>>, i: int)
    requires
        0 <= i,
    ensures
        if exists|k: int| i <= k < lines.len() && text::trim(#[trigger] lines[k]).len() > 0 {
            exists|k: int|
                i <= k < lines.len() && experience::first_line(lines, i) == text::trim(
                    #[trigger] lines[k],
                ) && text::trim(lines[k]).len() > 0 && forall|j: int|
                    i <= j < k ==> text::trim(#[trigger] lines[j]).len() == 0
        } else {
            experience::first_line(lines, i).len() == 0
        },
    decreases lines.len() - i,
{
    if i < lines.len() {
        if text::trim(lines[i]).len() == 0 {
            law_the_first_line_tells(lines, i + 1);
            if exists|k: int| i + 1 <= k < lines.len() && text::trim(#[trigger] lines[k]).len() > 0 {
                let k = choose|k: int|
                    i + 1 <= k < lines.len() && experience::first_line(lines, i + 1) == text::trim(
                        #[trigger] lines[k],
                    ) && text::trim(lines[k]).len() > 0 && forall|j: int|
                        i + 1 <= j < k ==> text::trim(#[trigger] lines[j]).len() == 0;
                assert(experience::first_line(lines, i) == text::trim(lines[k]));
            }
        } else {
            assert(experience::first_line(lines, i) == text::trim(lines[i]));
        }
    }
}

} // verus!
