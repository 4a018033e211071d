//! Entities that follow from the links of documents by rules.

use crate::graph::cluster_engine;
use crate::graph::ids;
use crate::graph::links;
use crate::graph::merger;
use crate::graph::merger::{AliasRow, MergeV};
use crate::graph::model::{GraphNode, NodeType};
use crate::graph::store::GraphStore;
use crate::graph::views;
use crate::graph::views::GraphV;
use crate::rows;
use crate::text;
use vstd::prelude::*;

verus! {

/// The host of an address on the web.
pub open spec fn host_of(target: Seq<char>) -> Seq<char> {
    match text::find(target, "://"@) {
        Some(i) => text::before_first(text::before_text(target.skip(i + 3), "://"@), '/'),
        None => Seq::empty(),
    }
}

/// An entity that a link names: the first part of the host, and the host.
pub struct HostV {
    pub name: Seq<char>,
    pub host: Seq<char>,
}

/// The entity that a target names.
pub open spec fn host_entity(target: Seq<char>) -> Option<HostV> {
    let host = host_of(target);
    let name = text::before_first(host, '.');
    if links::is_web(target) && name.len() > 0 && text::byte_size(name) >= 2 {
        Some(HostV { name, host })
    } else {
        None
    }
}

pub open spec fn has_host(hs: Seq<HostV>, name: Seq<char>) -> bool {
    exists|i: int| 0 <= i < hs.len() && (#[trigger] hs[i]).name == name
}

/// The entities that the first `n` targets name, each once.
pub open spec fn host_entities(targets: Seq<Seq<char>>, n: int) -> Seq<HostV>
    decreases n,
{
    if n <= 0 {
        Seq::empty()
    } else {
        let before = host_entities(targets, n - 1);
        match host_entity(targets[n - 1]) {
            Some(h) => if has_host(before, h.name) {
                before
            } else {
                before.push(h)
            },
            None => before,
        }
    }
}

/// The entities that a document names.
pub open spec fn entities_in(rel: Seq<char>, content: Seq<char>) -> Seq<HostV> {
    let m = links::link_matches(content);
    let ts = links::all_targets(m, m.len() as int);
    if links::has_links(rel) {
        host_entities(ts, ts.len() as int)
    } else {
        Seq::empty()
    }
}

pub open spec fn candidates_view(v: Seq<(String, Vec<String>)>) -> Seq<HostV> {
    Seq::new(v.len(), |i: int| HostV { name: v[i].0@, host: v[i].1@[0]@ })
}

/// The graph and the names after the first `n` entities of a document.
pub open spec fn with_hosts(m: MergeV, hs: Seq<HostV>, doc: Seq<char>, n: int, now: i64) -> MergeV
    decreases n,
{
    if n <= 0 {
        m
    } else {
        merger::entity_step(
            with_hosts(m, hs, doc, n - 1, now),
            hs[n - 1].name,
            seq![hs[n - 1].host],
            Some(doc),
            now,
        )
    }
}

/// How many of the first `n` entities have a name.
pub open spec fn named_count(hs: Seq<HostV>, n: int) -> nat
    decreases n,
{
    if n <= 0 {
        0
    } else {
        named_count(hs, n - 1) + if merger::canonical(hs[n - 1].name).len() > 0 {
            1nat
        } else {
            0
        }
    }
}

/// The graph with the entities of a document.
pub open spec fn with_doc_entities(g: GraphV, rel: Seq<char>, content: Seq<char>, now: i64) -> GraphV {
    let hs = entities_in(rel, content);
    with_hosts(
        (MergeV { g, index: Seq::empty() }),
        hs,
        ids::node_id(NodeType::Doc, rel),
        hs.len() as int,
        now,
    ).g
}

/// The graph with the entities of the first `n` documents.
pub open spec fn with_docs_entities(
    g: GraphV,
    docs: Seq<(String, String)>,
    n: int,
    now: i64,
) -> GraphV
    decreases n,
{
    if n <= 0 {
        g
    } else {
        with_doc_entities(
            with_docs_entities(g, docs, n - 1, now),
            docs[n - 1].0@,
            docs[n - 1].1@,
            now,
        )
    }
}

/// How many entities the first `n` documents give.
pub open spec fn entity_count(docs: Seq<(String, String)>, n: int) -> nat
    decreases n,
{
    if n <= 0 {
        0
    } else {
        let hs = entities_in(docs[n - 1].0@, docs[n - 1].1@);
        entity_count(docs, n - 1) + named_count(hs, hs.len() as int)
    }
}

/// A number as far as a counter reaches.
pub open spec fn counted(n: nat) -> usize {
    if n <= usize::MAX {
        n as usize
    } else {
        usize::MAX
    }
}

fn host_of_target(t: &str) -> (r: String)
    ensures
        r@ == host_of(t@),
{
    let cs = text::chars_of(t);
    let mark = text::chars_of("://");
    proof {
        reveal_strlit("://");
    }
    match text::find_at(&cs, &mark, 0) {
        Some(i) => {
            let rest = text::slice_text(&cs, i + 3, cs.len());
            assert(rest@ =~= t@.skip(i + 3));
            let second = text::before_text_of(&rest, "://");
            text::before_first_of(&second, '/')
        },
        None => {
            let r = String::new();
            assert(r@ =~= Seq::empty());
            r
        },
    }
}

fn lists_host(v: &Vec<(String, Vec<String>)>, name: &String) -> (r: bool)
    ensures
        r == has_host(candidates_view(v@), name@),
{
    let ghost hs = candidates_view(v@);
    let mut i: usize = 0;
    while i < v.len()
        invariant
            i <= v.len(),
            hs == candidates_view(v@),
            forall|k: int| 0 <= k < i ==> (#[trigger] hs[k]).name != name@,
        decreases v.len() - i,
    {
        assert(hs[i as int].name == v@[i as int].0@);
        if v[i].0 == *name {
            return true;
        }
        i += 1;
    }
    false
}

/// The entities that a document names by its links to the web: the first part of each host,
/// with the host as another name.
pub fn rule_entities(rel_path: &str, content: &str) -> (r: Vec<(String, Vec<String>)>)
    ensures
        candidates_view(r@) == entities_in(rel_path@, content@),
        forall|i: int| 0 <= i < r@.len() ==> (#[trigger] r@[i]).1@.len() == 1,
{
    let mut out: Vec<(String, Vec<String>)> = Vec::new();
    assert(candidates_view(out@) =~= Seq::empty());
    if !links::is_linkable(rel_path) {
        return out;
    }
    let targets = links::all_link_targets(content);
    let ghost ts = text::texts(targets@);
    assert(ts.len() == targets@.len());
    let mut i: usize = 0;
    while i < targets.len()
        invariant
            i <= targets.len(),
            ts == text::texts(targets@),
            candidates_view(out@) == host_entities(ts, i as int),
            forall|k: int| 0 <= k < out@.len() ==> (#[trigger] out@[k]).1@.len() == 1,
        decreases targets.len() - i,
    {
        let t = &targets[i];
        if text::has_prefix(t, "http://") || text::has_prefix(t, "https://") {
            let host = host_of_target(t);
            let name = text::before_first_of(&host, '.');
            if text::chars_of(&name).len() > 0 && name.as_str().len() >= 2 && !lists_host(
                &out,
                &name,
            ) {
                let ghost before = out@;
                let ghost h = HostV { name: name@, host: host@ };
                let mut one: Vec<String> = Vec::new();
                one.push(host);
                out.push((name, one));
                assert(candidates_view(out@) =~= candidates_view(before).push(h));
            }
        }
        i += 1;
    }
    out
}

impl GraphStore {
    /// Adds the entities that a document names. Returns how many there were.
    pub fn extract_doc_entities(&mut self, rel_path: &str, content: &str, now: i64) -> (n: usize)
        requires
            old(self).wf(),
        ensures
            final(self).wf(),
            views::graph_of(*final(self)) == with_doc_entities(
                views::graph_of(*old(self)),
                rel_path@,
                content@,
                now,
            ),
            n == named_count(
                entities_in(rel_path@, content@),
                entities_in(rel_path@, content@).len() as int,
            ),
            views::same_rest(*old(self), *final(self)),
    {
        let found = rule_entities(rel_path, content);
        let ghost hs = entities_in(rel_path@, content@);
        let ghost start = MergeV { g: views::graph_of(*self), index: Seq::empty() };
        let doc = ids::node_id_for(NodeType::Doc, rel_path);
        let mut index: Vec<AliasRow> = Vec::new();
        assert(merger::aliases_view(index@) =~= Seq::empty());
        assert(hs.len() == found@.len());
        let mut n: usize = 0;
        let mut i: usize = 0;
        while i < found.len()
            invariant
                i <= found.len(),
                hs == candidates_view(found@),
                forall|k: int| 0 <= k < found@.len() ==> (#[trigger] found@[k]).1@.len() == 1,
                doc@ == ids::node_id(NodeType::Doc, rel_path@),
                self.wf(),
                n <= i,
                n == named_count(hs, i as int),
                (MergeV { g: views::graph_of(*self), index: merger::aliases_view(index@) })
                    == with_hosts(start, hs, doc@, i as int, now),
                views::same_rest(*old(self), *self),
            decreases found.len() - i,
        {
            assert(hs[i as int] == HostV {
                name: found@[i as int].0@,
                host: found@[i as int].1@[0]@,
            });
            assert(found@[i as int].1@.len() == 1);
            assert(text::texts(found@[i as int].1@) =~= seq![hs[i as int].host]);
            if self.merge_entity(&mut index, &found[i].0, &found[i].1, Some(&doc), now).is_ok() {
                n += 1;
            }
            i += 1;
        }
        n
    }
}

/// Finds the entities of documents by rules.
pub struct EntityExtractor<'a> {
    pub store: &'a mut GraphStore,
}

impl<'a> EntityExtractor<'a> {
    pub fn new(store: &'a mut GraphStore) -> (r: Self)
        ensures
            *r.store == *old(store),
            *final(r.store) == *final(store),
    {
        EntityExtractor { store }
    }

    /// The entities that a document names, each with its other names.
    pub fn rule_candidates(&self, rel_path: &str, content: &str) -> (r: Vec<(String, Vec<String>)>)
        ensures
            candidates_view(r@) == entities_in(rel_path@, content@),
            forall|i: int| 0 <= i < r@.len() ==> (#[trigger] r@[i]).1@.len() == 1,
    {
        rule_entities(rel_path, content)
    }

    /// Adds the entities of the documents that could be read, each with its path and text.
    /// Returns how many there were.
    pub fn extract_all_docs(&mut self, docs: &Vec<(String, String)>, now: i64) -> (n: usize)
        requires
            old(self).store.wf(),
        ensures
            final(self).store.wf(),
            views::graph_of(*final(self).store) == with_docs_entities(
                views::graph_of(*old(self).store),
                docs@,
                docs@.len() as int,
                now,
            ),
            n == counted(entity_count(docs@, docs@.len() as int)),
            views::same_rest(*old(self).store, *final(self).store),
            *final(final(self).store) == *final(old(self).store),
    {
        let ghost g0 = views::graph_of(*self.store);
        let mut n: usize = 0;
        let mut i: usize = 0;
        while i < docs.len()
            invariant
                i <= docs.len(),
                g0 == views::graph_of(*old(self).store),
                self.store.wf(),
                views::graph_of(*self.store) == with_docs_entities(g0, docs@, i as int, now),
                n == counted(entity_count(docs@, i as int)),
                views::same_rest(*old(self).store, *self.store),
                *final(self.store) == *final(old(self).store),
            decreases docs.len() - i,
        {
            let more = self.store.extract_doc_entities(&docs[i].0, &docs[i].1, now);
            n = n.saturating_add(more);
            i += 1;
        }
        n
    }
}

/// What gives entities for a collection of documents: each a name and the documents that it
/// stands for.
pub trait ClusterEntitySource {
    fn cluster_entities(&self, docs: &Vec<GraphNode>) -> Vec<(String, Vec<String>)>;
}

/// The directory at the top of a document's path.
pub open spec fn top_dir(n: GraphNode) -> Seq<char> {
    match n.path {
        Some(p) => text::before_first(p@, '/'),
        None => Seq::empty(),
    }
}

/// Whether a node counts under the directory.
pub open spec fn is_below(top: Seq<char>) -> spec_fn(GraphNode) -> bool {
    |n: GraphNode| n.node_type == NodeType::Doc && top_dir(n) == top
}

/// The directories at the top of the paths of the first `n` documents.
pub open spec fn top_dirs(docs: Seq<GraphNode>, n: int) -> Seq<Seq<char>>
    decreases n,
{
    if n <= 0 {
        Seq::empty()
    } else {
        let before = top_dirs(docs, n - 1);
        let top = top_dir(docs[n - 1]);
        if docs[n - 1].node_type != NodeType::Doc || top.len() == 0 || before.contains(top) {
            before
        } else {
            before.push(top)
        }
    }
}

/// Takes the directories at the top for the entities.
pub struct DirPrefixCluster;

fn top_of(n: &GraphNode) -> (r: String)
    ensures
        r@ == top_dir(*n),
{
    match &n.path {
        Some(p) => text::before_first_of(p, '/'),
        None => {
            let r = String::new();
            assert(r@ =~= Seq::empty());
            r
        },
    }
}

fn ids_below(docs: &Vec<GraphNode>, top: &String) -> (r: Vec<String>)
    ensures
        text::texts(r@) == cluster_engine::ids_of(rows::kept(docs@, is_below(top@))),
{
    let mut out: Vec<String> = Vec::new();
    let mut i: usize = 0;
    assert(text::texts(out@) =~= cluster_engine::ids_of(rows::kept(docs@.take(0), is_below(top@))));
    while i < docs.len()
        invariant
            i <= docs.len(),
            text::texts(out@) == cluster_engine::ids_of(
                rows::kept(docs@.take(i as int), is_below(top@)),
            ),
        decreases docs.len() - i,
    {
        proof {
            assert(docs@.take(i + 1) == docs@.take(i as int).push(docs@[i as int]));
            rows::lemma_kept_push(docs@.take(i as int), docs@[i as int], is_below(top@));
        }
        if docs[i].node_type == NodeType::Doc && top_of(&docs[i]) == *top {
            proof {
                text::lemma_texts_push(out@, docs@[i as int].id);
                let before = rows::kept(docs@.take(i as int), is_below(top@));
                assert(cluster_engine::ids_of(before.push(docs@[i as int]))
                    =~= cluster_engine::ids_of(before).push(docs@[i as int].id@));
            }
            out.push(docs[i].id.clone());
        }
        i += 1;
    }
    assert(docs@.take(i as int) == docs@);
    out
}

impl ClusterEntitySource for DirPrefixCluster {
    fn cluster_entities(&self, docs: &Vec<GraphNode>) -> (r: Vec<(String, Vec<String>)>)
        ensures
            r@.len() == top_dirs(docs@, docs@.len() as int).len(),
            forall|i: int|
                0 <= i < r@.len() ==> (#[trigger] r@[i]).0@ == top_dirs(
                    docs@,
                    docs@.len() as int,
                )[i] && text::texts(r@[i].1@) == cluster_engine::ids_of(
                    rows::kept(docs@, is_below(r@[i].0@)),
                ),
    {
        let mut tops: Vec<String> = Vec::new();
        let mut i: usize = 0;
        assert(text::texts(tops@) =~= Seq::empty());
        while i < docs.len()
            invariant
                i <= docs.len(),
                text::texts(tops@) == top_dirs(docs@, i as int),
            decreases docs.len() - i,
        {
            let top = top_of(&docs[i]);
            if docs[i].node_type == NodeType::Doc && text::chars_of(&top).len() != 0 {
                text::push_distinct(&mut tops, top);
            }
            i += 1;
        }
        let ghost all = top_dirs(docs@, docs@.len() as int);
        assert(text::texts(tops@).len() == tops@.len());
        let mut out: Vec<(String, Vec<String>)> = Vec::new();
        let mut j: usize = 0;
        while j < tops.len()
            invariant
                j <= tops.len(),
                all == text::texts(tops@),
                out@.len() == j,
                forall|k: int|
                    0 <= k < j ==> (#[trigger] out@[k]).0@ == all[k] && text::texts(out@[k].1@)
                        == cluster_engine::ids_of(rows::kept(docs@, is_below(out@[k].0@))),
            decreases tops.len() - j,
        {
            let members = ids_below(docs, &tops[j]);
            out.push((tops[j].clone(), members));
            j += 1;
        }
        out
    }
}

} // verus!
