//! Lists over the whole graph: nodes and edges in order, searches, figures.

use crate::graph::ids;
use crate::graph::model::{GraphEdge, GraphNode, GraphStats, NodeType};
use crate::graph::query;
use crate::graph::store;
use crate::graph::store::{EdgeRow, GraphStore};
use crate::rows;
use crate::text;
use vstd::prelude::*;

verus! {

/// How many nodes the figures about degrees name.
pub const TOP_DEGREE: u32 = 10;

pub open spec fn id_keys(nodes: Seq<GraphNode>) -> Seq<Seq<int>> {
    Seq::new(nodes.len(), |i: int| rows::text_key(nodes[i].id@))
}

/// The nodes in the order of their ids, at most `limit`.
pub open spec fn by_id(nodes: Seq<GraphNode>, limit: u32) -> Seq<GraphNode> {
    rows::limited(rows::rows_at(nodes, rows::order_of(id_keys(nodes))), limit as nat)
}

/// Whether a node stands for more than a part of a document.
pub open spec fn is_structural(n: GraphNode) -> bool {
    n.node_type != NodeType::Chunk && n.node_type != NodeType::Section
}

pub open spec fn structural() -> spec_fn(GraphNode) -> bool {
    |n: GraphNode| is_structural(n)
}

/// The nodes that an overview shows.
pub open spec fn overview(nodes: Seq<GraphNode>, limit: u32) -> Seq<GraphNode> {
    by_id(rows::kept(nodes, structural()), limit)
}

/// Whether a text fits a pattern: `%` stands for any text, `_` for one character, a
/// backslash takes the next character as it is; Latin letters fit in either case.
pub open spec fn like(p: Seq<char>, s: Seq<char>) -> bool
    decreases p.len() + s.len(),
{
    if p.len() == 0 {
        s.len() == 0
    } else if p[0] == '%' {
        like(p.skip(1), s) || (s.len() > 0 && like(p, s.skip(1)))
    } else if p[0] == '\\' {
        p.len() >= 2 && s.len() > 0 && text::ascii_lower(p[1]) == text::ascii_lower(s[0]) && like(
            p.skip(2),
            s.skip(1),
        )
    } else {
        s.len() > 0 && (p[0] == '_' || text::ascii_lower(p[0]) == text::ascii_lower(s[0])) && like(
            p.skip(1),
            s.skip(1),
        )
    }
}

/// The text with what has a meaning in a pattern written so that an underscore is one.
pub open spec fn escaped(s: Seq<char>) -> Seq<char>
    decreases s.len(),
{
    if s.len() == 0 {
        Seq::empty()
    } else {
        escaped(s.drop_last()) + (if s.last() == '%' {
            seq!['%', '%']
        } else if s.last() == '_' {
            seq!['\\', '_']
        } else {
            seq![s.last()]
        })
    }
}

/// The pattern that fits every text with the keyword in it.
pub open spec fn keyword_pattern(keyword: Seq<char>) -> Seq<char> {
    seq!['%'] + escaped(keyword) + seq!['%']
}

pub open spec fn named_like(pattern: Seq<char>) -> spec_fn(GraphNode) -> bool {
    |n: GraphNode| like(pattern, n.name@)
}

pub open spec fn name_length_keys(nodes: Seq<GraphNode>) -> Seq<Seq<int>> {
    Seq::new(nodes.len(), |i: int| seq![nodes[i].name@.len() as int])
}

/// The nodes whose name has the keyword, the shorter names first.
pub open spec fn found_nodes(nodes: Seq<GraphNode>, keyword: Seq<char>, limit: u32) -> Seq<GraphNode> {
    let hits = rows::kept(nodes, named_like(keyword_pattern(keyword)));
    rows::limited(rows::rows_at(hits, rows::order_of(name_length_keys(hits))), limit as nat)
}

/// Keys by which the nodes with more edges come first.
pub open spec fn degree_keys(edges: Seq<EdgeRow>, nodes: Seq<GraphNode>) -> Seq<Seq<int>> {
    Seq::new(nodes.len(), |i: int| seq![-(query::degree_of(edges, nodes[i].id@) as int)])
}

/// The nodes with the most edges.
pub open spec fn by_degree(edges: Seq<EdgeRow>, nodes: Seq<GraphNode>, limit: u32) -> Seq<GraphNode> {
    rows::limited(rows::rows_at(nodes, rows::order_of(degree_keys(edges, nodes))), limit as nat)
}

pub open spec fn of_type(t: NodeType) -> spec_fn(GraphNode) -> bool {
    |n: GraphNode| n.node_type == t
}

/// Whether a node stands for a document with a path.
pub open spec fn is_doc(n: GraphNode) -> bool {
    n.node_type == NodeType::Doc && n.path is Some
}

pub open spec fn docs() -> spec_fn(GraphNode) -> bool {
    |n: GraphNode| is_doc(n)
}

pub open spec fn path_of(n: GraphNode) -> Seq<char> {
    n.path->0@
}

pub open spec fn paths_of(nodes: Seq<GraphNode>) -> Seq<Seq<char>> {
    Seq::new(nodes.len(), |i: int| path_of(nodes[i]))
}

/// What is known of a node's degree.
pub open spec fn degree_entries(edges: Seq<EdgeRow>, nodes: Seq<GraphNode>) -> Seq<(Seq<char>, u32)> {
    Seq::new(nodes.len(), |i: int| (nodes[i].id@, query::degree_of(edges, nodes[i].id@) as u32))
}

pub open spec fn entries_view(v: Seq<(String, u32)>) -> Seq<(Seq<char>, u32)> {
    Seq::new(v.len(), |i: int| (v[i].0@, v[i].1))
}

/// The paths and degrees of documents.
pub open spec fn doc_entries(edges: Seq<EdgeRow>, nodes: Seq<GraphNode>) -> Seq<(Seq<char>, u64)> {
    Seq::new(nodes.len(), |i: int| (path_of(nodes[i]), query::degree_of(edges, nodes[i].id@) as u64))
}

pub open spec fn counts_view(v: Seq<(String, u64)>) -> Seq<(Seq<char>, u64)> {
    Seq::new(v.len(), |i: int| (v[i].0@, v[i].1))
}

/// The highest degree of the first `n` nodes that stand for documents, at least one.
pub open spec fn max_doc_degree(edges: Seq<EdgeRow>, nodes: Seq<GraphNode>, n: int) -> nat
    decreases n,
{
    if n <= 0 {
        1
    } else {
        let before = max_doc_degree(edges, nodes, n - 1);
        let d = query::degree_of(edges, nodes[n - 1].id@);
        if nodes[n - 1].node_type == NodeType::Doc && d > before {
            d
        } else {
            before
        }
    }
}

/// The paths of the documents that the first `n` edges connect with the node.
pub open spec fn source_docs(nodes: Seq<GraphNode>, edges: Seq<EdgeRow>, id: Seq<char>, n: int) -> Seq<
    Seq<char>,
>
    decreases n,
{
    if n <= 0 {
        Seq::empty()
    } else {
        let before = source_docs(nodes, edges, id, n - 1);
        let e = edges[n - 1];
        if e.source@ == id {
            with_doc_path(before, nodes, id, e.target@)
        } else if e.target@ == id {
            with_doc_path(before, nodes, id, e.source@)
        } else {
            before
        }
    }
}

/// The paths with that of the node `x`, where it is another document and its path is new.
pub open spec fn with_doc_path(
    paths: Seq<Seq<char>>,
    nodes: Seq<GraphNode>,
    id: Seq<char>,
    x: Seq<char>,
) -> Seq<Seq<char>> {
    match store::node_index(nodes, x) {
        Some(i) => if x != id && is_doc(nodes[i]) && !paths.contains(path_of(nodes[i])) {
            paths.push(path_of(nodes[i]))
        } else {
            paths
        },
        None => paths,
    }
}

/// The latest change of an edge among the first `n`.
pub open spec fn last_change(edges: Seq<EdgeRow>, n: int) -> Option<i64>
    decreases n,
{
    if n <= 0 {
        None
    } else {
        match last_change(edges, n - 1) {
            Some(t) => if t >= edges[n - 1].updated_at {
                Some(t)
            } else {
                Some(edges[n - 1].updated_at)
            },
            None => Some(edges[n - 1].updated_at),
        }
    }
}

/// Every kind of node.
pub open spec fn all_types() -> Seq<NodeType> {
    seq![
        NodeType::Doc,
        NodeType::Folder,
        NodeType::Chunk,
        NodeType::Section,
        NodeType::Entity,
        NodeType::Experience,
        NodeType::Memory,
        NodeType::Cluster,
    ]
}

/// How many nodes there are of each of the first `n` kinds, where there are some.
pub open spec fn type_counts(nodes: Seq<GraphNode>, types: Seq<NodeType>, n: int) -> Seq<(NodeType, u64)>
    decreases n,
{
    if n <= 0 {
        Seq::empty()
    } else {
        let before = type_counts(nodes, types, n - 1);
        let k = rows::kept(nodes, of_type(types[n - 1])).len();
        if k > 0 {
            before.push((types[n - 1], k as u64))
        } else {
            before
        }
    }
}

/// The first rows in the order.
pub(crate) fn nodes_at(nodes: &Vec<GraphNode>, order: &Vec<usize>, limit: u32) -> (r: Vec<GraphNode>)
    requires
        forall|k: int| 0 <= k < order@.len() ==> (#[trigger] order@[k]) < nodes@.len(),
    ensures
        r@ == rows::limited(rows::rows_at(nodes@, rows::indices(order@)), limit as nat),
{
    let ghost sorted = rows::rows_at(nodes@, rows::indices(order@));
    let mut r: Vec<GraphNode> = Vec::new();
    let mut j: usize = 0;
    while j < order.len() && j < limit as usize
        invariant
            j <= order.len(),
            j <= limit,
            forall|k: int| 0 <= k < order@.len() ==> (#[trigger] order@[k]) < nodes@.len(),
            sorted == rows::rows_at(nodes@, rows::indices(order@)),
            r@ == sorted.take(j as int),
        decreases order.len() - j,
    {
        assert(sorted[j as int] == nodes@[order@[j as int] as int]);
        assert(sorted.take(j + 1) =~= sorted.take(j as int).push(sorted[j as int]));
        r.push(nodes[order[j]].clone());
        j += 1;
    }
    assert(r@ =~= rows::limited(sorted, limit as nat));
    r
}

/// The rows in the order.
pub(crate) fn nodes_in_order(nodes: &Vec<GraphNode>, order: &Vec<usize>) -> (r: Vec<GraphNode>)
    requires
        forall|k: int| 0 <= k < order@.len() ==> (#[trigger] order@[k]) < nodes@.len(),
    ensures
        r@ == rows::rows_at(nodes@, rows::indices(order@)),
{
    let ghost sorted = rows::rows_at(nodes@, rows::indices(order@));
    let mut r: Vec<GraphNode> = Vec::new();
    let mut j: usize = 0;
    while j < order.len()
        invariant
            j <= order.len(),
            forall|k: int| 0 <= k < order@.len() ==> (#[trigger] order@[k]) < nodes@.len(),
            sorted == rows::rows_at(nodes@, rows::indices(order@)),
            r@ == sorted.take(j as int),
        decreases order.len() - j,
    {
        assert(sorted[j as int] == nodes@[order@[j as int] as int]);
        assert(sorted.take(j + 1) =~= sorted.take(j as int).push(sorted[j as int]));
        r.push(nodes[order[j]].clone());
        j += 1;
    }
    assert(sorted.take(j as int) == sorted);
    r
}

fn sort_by_id(nodes: &Vec<GraphNode>, limit: u32) -> (r: Vec<GraphNode>)
    ensures
        r@ == by_id(nodes@, limit),
{
    let mut keys: Vec<Vec<i128>> = Vec::new();
    let mut i: usize = 0;
    while i < nodes.len()
        invariant
            i <= nodes.len(),
            keys@.len() == i,
            forall|k: int|
                0 <= k < i ==> rows::key_view(#[trigger] keys@[k]@) == rows::text_key(
                    nodes@[k].id@,
                ),
        decreases nodes.len() - i,
    {
        keys.push(rows::text_key_of(&nodes[i].id));
        i += 1;
    }
    assert(rows::keys_view(keys@) =~= id_keys(nodes@));
    let order = rows::order_rows(&keys);
    nodes_at(nodes, &order, limit)
}

/// Whether the text fits the pattern.
pub fn is_like(pattern: &str, s: &str) -> (r: bool)
    ensures
        r == like(pattern@, s@),
{
    let p = text::chars_of(pattern);
    let t = text::chars_of(s);
    like_chars(&p, &t)
}

fn like_chars(p: &Vec<char>, t: &Vec<char>) -> (r: bool)
    ensures
        r == like(p@, t@),
{
    // What fits from each place of the text on, for the pattern from the next place on and
    // from the one behind it on.
    let mut behind: Vec<bool> = Vec::new();
    let mut next: Vec<bool> = Vec::new();
    let mut j: usize = 0;
    while j < t.len()
        invariant
            j <= t.len(),
            next@.len() == j,
            behind@.len() == j,
            forall|k: int|
                0 <= k < j ==> #[trigger] next@[k] == like(p@.skip(p@.len() as int), t@.skip(k)),
        decreases t.len() - j,
    {
        assert(p@.skip(p@.len() as int).len() == 0);
        next.push(false);
        behind.push(false);
        j += 1;
    }
    assert(p@.skip(p@.len() as int).len() == 0);
    next.push(true);
    behind.push(false);
    let mut i: usize = p.len();
    while i > 0
        invariant
            i <= p.len(),
            next@.len() == t.len() + 1,
            behind@.len() == t.len() + 1,
            forall|k: int| 0 <= k <= t.len() ==> #[trigger] next@[k] == like(p@.skip(i as int), t@.skip(k)),
            i < p.len() ==> forall|k: int|
                0 <= k <= t.len() ==> #[trigger] behind@[k] == like(p@.skip(i + 1), t@.skip(k)),
        decreases i,
    {
        let row = like_row(p, t, i - 1, &next, &behind);
        behind = next;
        next = row;
        i -= 1;
    }
    assert(p@.skip(0) == p@);
    assert(t@.skip(0) == t@);
    next[0]
}

/// What fits from each place of the text on, for the pattern from place `i` on.
fn like_row(p: &Vec<char>, t: &Vec<char>, i: usize, next: &Vec<bool>, behind: &Vec<bool>) -> (r: Vec<
    bool,
>)
    requires
        i < p@.len(),
        next@.len() == t@.len() + 1,
        behind@.len() == t@.len() + 1,
        forall|k: int| 0 <= k <= t@.len() ==> #[trigger] next@[k] == like(p@.skip(i + 1), t@.skip(k)),
        i + 1 < p@.len() ==> forall|k: int|
            0 <= k <= t@.len() ==> #[trigger] behind@[k] == like(p@.skip(i + 2), t@.skip(k)),
    ensures
        r@.len() == t@.len() + 1,
        forall|k: int| 0 <= k <= t@.len() ==> #[trigger] r@[k] == like(p@.skip(i as int), t@.skip(k)),
{
    let n = t.len();
    let ghost pat = p@.skip(i as int);
    let mut back: Vec<bool> = Vec::new();
    let mut m: usize = 0;
    proof {
        assert(pat.skip(1) =~= p@.skip(i + 1));
        if i + 1 < p@.len() {
            assert(pat.skip(2) =~= p@.skip(i + 2));
            assert(pat[1] == p@[i + 1]);
        }
    }
    while m <= n
        invariant_except_break
            m <= n,
            back@.len() == m,
        invariant
            n == t@.len(),
            i < p@.len(),
            pat == p@.skip(i as int),
            pat.skip(1) == p@.skip(i + 1),
            i + 1 < p@.len() ==> pat.skip(2) == p@.skip(i + 2) && pat[1] == p@[i + 1],
            next@.len() == t@.len() + 1,
            behind@.len() == t@.len() + 1,
            forall|k: int| 0 <= k <= t@.len() ==> #[trigger] next@[k] == like(p@.skip(i + 1), t@.skip(k)),
            i + 1 < p@.len() ==> forall|k: int|
                0 <= k <= t@.len() ==> #[trigger] behind@[k] == like(p@.skip(i + 2), t@.skip(k)),
            forall|k: int|
                0 <= k < back@.len() ==> #[trigger] back@[k] == like(pat, t@.skip(n - k)),
        ensures
            back@.len() == n + 1,
        decreases n + 1 - m,
    {
        let j = n - m;
        let ghost s = t@.skip(j as int);
        assert(s.len() == m);
        if m > 0 {
            assert(s.skip(1) =~= t@.skip(j + 1));
            assert(s[0] == t@[j as int]);
        }
        let fits = if p[i] == '%' {
            next[j] || (m > 0 && back[m - 1])
        } else if p[i] == '\\' {
            p.len() - i > 1 && m > 0 && text::ascii_lower_of(p[i + 1]) == text::ascii_lower_of(t[j])
                && behind[j + 1]
        } else {
            m > 0 && (p[i] == '_' || text::ascii_lower_of(p[i]) == text::ascii_lower_of(t[j]))
                && next[j + 1]
        };
        assert(fits == like(pat, s));
        back.push(fits);
        if m == n {
            break;
        }
        m += 1;
    }
    let mut r: Vec<bool> = Vec::new();
    let mut k: usize = 0;
    while k <= n
        invariant_except_break
            k <= n,
            r@.len() == k,
        invariant
            n == t@.len(),
            pat == p@.skip(i as int),
            back@.len() == n + 1,
            forall|x: int| 0 <= x < back@.len() ==> #[trigger] back@[x] == like(pat, t@.skip(n - x)),
            forall|x: int| 0 <= x < r@.len() ==> #[trigger] r@[x] == like(pat, t@.skip(x)),
        ensures
            r@.len() == n + 1,
        decreases n + 1 - k,
    {
        assert(back@[n - k] == like(pat, t@.skip(n - (n - k))));
        r.push(back[n - k]);
        if k == n {
            break;
        }
        k += 1;
    }
    r
}

fn escape(s: &str) -> (r: String)
    ensures
        r@ == escaped(s@),
{
    let cs = text::chars_of(s);
    let mut r = String::new();
    let mut i: usize = 0;
    assert(r@ =~= escaped(cs@.take(0)));
    while i < cs.len()
        invariant
            i <= cs.len(),
            r@ == escaped(cs@.take(i as int)),
        decreases cs.len() - i,
    {
        assert(cs@.take(i + 1).drop_last() =~= cs@.take(i as int));
        let ghost before = r@;
        let c = cs[i];
        if c == '%' {
            r.push('%');
            r.push('%');
            assert(r@ =~= before + seq!['%', '%']);
        } else if c == '_' {
            r.push('\\');
            r.push('_');
            assert(r@ =~= before + seq!['\\', '_']);
        } else {
            r.push(c);
            assert(r@ =~= before + seq![c]);
        }
        i += 1;
    }
    assert(cs@.take(i as int) == cs@);
    r
}

fn sort_by_length(nodes: &Vec<GraphNode>, limit: u32) -> (r: Vec<GraphNode>)
    ensures
        r@ == rows::limited(
            rows::rows_at(nodes@, rows::order_of(name_length_keys(nodes@))),
            limit as nat,
        ),
{
    let mut keys: Vec<Vec<i128>> = Vec::new();
    let mut i: usize = 0;
    while i < nodes.len()
        invariant
            i <= nodes.len(),
            keys@.len() == i,
            forall|k: int|
                0 <= k < i ==> rows::key_view(#[trigger] keys@[k]@) == seq![
                    nodes@[k].name@.len() as int,
                ],
        decreases nodes.len() - i,
    {
        let n = text::chars_of(&nodes[i].name).len();
        keys.push(rows::number_key(n as i128));
        i += 1;
    }
    assert(rows::keys_view(keys@) =~= name_length_keys(nodes@));
    let order = rows::order_rows(&keys);
    nodes_at(nodes, &order, limit)
}

impl GraphStore {
    fn structural_nodes(&self) -> (r: Vec<GraphNode>)
        ensures
            r@ == rows::kept(self.nodes@, structural()),
    {
        let ghost all = self.nodes@;
        let mut out: Vec<GraphNode> = Vec::new();
        let mut i: usize = 0;
        while i < self.nodes.len()
            invariant
                i <= self.nodes.len(),
                all == self.nodes@,
                out@ == rows::kept(all.take(i as int), structural()),
            decreases self.nodes.len() - i,
        {
            proof {
                assert(all.take(i + 1) == all.take(i as int).push(all[i as int]));
                rows::lemma_kept_push(all.take(i as int), all[i as int], structural());
            }
            if self.nodes[i].node_type != NodeType::Chunk && self.nodes[i].node_type
                != NodeType::Section {
                out.push(self.nodes[i].clone());
            }
            i += 1;
        }
        assert(all.take(i as int) == all);
        out
    }

    /// The nodes but for the parts of documents, in the order of their ids.
    pub fn all_nodes(&self, limit: u32) -> (r: Vec<GraphNode>)
        ensures
            r@ == overview(self.nodes@, limit),
    {
        let out = self.structural_nodes();
        sort_by_id(&out, limit)
    }

    /// The edges, the heavier ones first.
    pub fn all_edges(&self, limit: u32) -> (r: Vec<GraphEdge>)
        ensures
            r@ == query::edges_of(query::heaviest(self.edges@, limit)),
    {
        let list = query::heaviest_of(&self.edges, limit);
        let mut r: Vec<GraphEdge> = Vec::new();
        let mut i: usize = 0;
        while i < list.len()
            invariant
                i <= list.len(),
                r@.len() == i,
                forall|k: int| 0 <= k < i ==> #[trigger] r@[k] == query::edge_of(list@[k]),
            decreases list.len() - i,
        {
            r.push(query::edge_from_row(&list[i]));
            i += 1;
        }
        assert(r@ =~= query::edges_of(list@));
        r
    }

    /// The parts of a document, in the order of their ids.
    pub fn list_content_nodes_for_doc(&self, rel_path: &str, limit: u32) -> (r: Vec<GraphNode>)
        ensures
            r@ == by_id(
                rows::kept(self.nodes@, store::content_of(text::replace_char(rel_path@, '\\', '/'))),
                limit,
            ),
    {
        let path = text::replace_char_of(rel_path, '\\', '/');
        let ghost all = self.nodes@;
        let mut out: Vec<GraphNode> = Vec::new();
        let mut i: usize = 0;
        while i < self.nodes.len()
            invariant
                i <= self.nodes.len(),
                all == self.nodes@,
                out@ == rows::kept(all.take(i as int), store::content_of(path@)),
            decreases self.nodes.len() - i,
        {
            proof {
                assert(all.take(i + 1) == all.take(i as int).push(all[i as int]));
                rows::lemma_kept_push(all.take(i as int), all[i as int], store::content_of(path@));
            }
            if store::is_content_node(&self.nodes[i], &path) {
                out.push(self.nodes[i].clone());
            }
            i += 1;
        }
        assert(all.take(i as int) == all);
        sort_by_id(&out, limit)
    }

    /// The nodes whose name has the keyword in it, the shorter names first.
    pub fn search_nodes(&self, keyword: &str, limit: u32) -> (r: Vec<GraphNode>)
        ensures
            r@ == found_nodes(self.nodes@, keyword@, limit),
    {
        let mut pattern = String::new();
        pattern.push('%');
        let inner = escape(keyword);
        pattern.push_str(&inner);
        pattern.push('%');
        assert(pattern@ =~= keyword_pattern(keyword@));
        let ghost all = self.nodes@;
        let mut out: Vec<GraphNode> = Vec::new();
        let mut i: usize = 0;
        while i < self.nodes.len()
            invariant
                i <= self.nodes.len(),
                all == self.nodes@,
                out@ == rows::kept(all.take(i as int), named_like(pattern@)),
            decreases self.nodes.len() - i,
        {
            proof {
                assert(all.take(i + 1) == all.take(i as int).push(all[i as int]));
                rows::lemma_kept_push(all.take(i as int), all[i as int], named_like(pattern@));
            }
            if is_like(&pattern, &self.nodes[i].name) {
                out.push(self.nodes[i].clone());
            }
            i += 1;
        }
        assert(all.take(i as int) == all);
        sort_by_length(&out, limit)
    }

    fn nodes_of_type(&self, t: NodeType) -> (r: Vec<GraphNode>)
        ensures
            r@ == rows::kept(self.nodes@, of_type(t)),
    {
        let ghost all = self.nodes@;
        let mut out: Vec<GraphNode> = Vec::new();
        let mut i: usize = 0;
        while i < self.nodes.len()
            invariant
                i <= self.nodes.len(),
                all == self.nodes@,
                out@ == rows::kept(all.take(i as int), of_type(t)),
            decreases self.nodes.len() - i,
        {
            proof {
                assert(all.take(i + 1) == all.take(i as int).push(all[i as int]));
                rows::lemma_kept_push(all.take(i as int), all[i as int], of_type(t));
            }
            if self.nodes[i].node_type == t {
                out.push(self.nodes[i].clone());
            }
            i += 1;
        }
        assert(all.take(i as int) == all);
        out
    }

    fn doc_nodes(&self) -> (r: Vec<GraphNode>)
        ensures
            r@ == rows::kept(self.nodes@, docs()),
    {
        let ghost all = self.nodes@;
        let mut out: Vec<GraphNode> = Vec::new();
        let mut i: usize = 0;
        while i < self.nodes.len()
            invariant
                i <= self.nodes.len(),
                all == self.nodes@,
                out@ == rows::kept(all.take(i as int), docs()),
            decreases self.nodes.len() - i,
        {
            proof {
                assert(all.take(i + 1) == all.take(i as int).push(all[i as int]));
                rows::lemma_kept_push(all.take(i as int), all[i as int], docs());
            }
            if self.nodes[i].node_type == NodeType::Doc && self.nodes[i].path.is_some() {
                out.push(self.nodes[i].clone());
            }
            i += 1;
        }
        assert(all.take(i as int) == all);
        out
    }

    pub(crate) fn sort_by_degree(&self, nodes: &Vec<GraphNode>, limit: u32) -> (r: Vec<GraphNode>)
        ensures
            r@ == by_degree(self.edges@, nodes@, limit),
    {
        let mut keys: Vec<Vec<i128>> = Vec::new();
        let mut i: usize = 0;
        while i < nodes.len()
            invariant
                i <= nodes.len(),
                keys@.len() == i,
                forall|k: int|
                    0 <= k < i ==> rows::key_view(#[trigger] keys@[k]@) == seq![
                        -(query::degree_of(self.edges@, nodes@[k].id@) as int),
                    ],
            decreases nodes.len() - i,
        {
            let d = self.count_edges_at(&nodes[i].id);
            keys.push(rows::number_key(-(d as i128)));
            i += 1;
        }
        assert(rows::keys_view(keys@) =~= degree_keys(self.edges@, nodes@));
        let order = rows::order_rows(&keys);
        nodes_at(nodes, &order, limit)
    }

    fn with_degrees(&self, nodes: &Vec<GraphNode>) -> (r: Vec<(String, u32)>)
        ensures
            entries_view(r@) == degree_entries(self.edges@, nodes@),
    {
        let mut r: Vec<(String, u32)> = Vec::new();
        let mut i: usize = 0;
        while i < nodes.len()
            invariant
                i <= nodes.len(),
                r@.len() == i,
                forall|k: int|
                    0 <= k < i ==> (#[trigger] r@[k]).0@ == nodes@[k].id@ && r@[k].1
                        == query::degree_of(self.edges@, nodes@[k].id@) as u32,
            decreases nodes.len() - i,
        {
            r.push((nodes[i].id.clone(), self.degree(&nodes[i].id)));
            i += 1;
        }
        assert(entries_view(r@) =~= degree_entries(self.edges@, nodes@));
        r
    }

    /// The entities with the most edges, and how many they have.
    pub fn top_degree_entities(&self, limit: u32) -> (r: Vec<(String, u32)>)
        ensures
            entries_view(r@) == degree_entries(
                self.edges@,
                by_degree(self.edges@, rows::kept(self.nodes@, of_type(NodeType::Entity)), limit),
            ),
    {
        let entities = self.nodes_of_type(NodeType::Entity);
        let top = self.sort_by_degree(&entities, limit);
        self.with_degrees(&top)
    }

    fn push_doc_path(&self, paths: &mut Vec<String>, id: &String, x: &String)
        ensures
            text::texts(final(paths)@) == with_doc_path(
                text::texts(old(paths)@),
                self.nodes@,
                id@,
                x@,
            ),
    {
        if *x == *id {
            return;
        }
        if let Some(i) = self.find_node(x) {
            if self.nodes[i].node_type == NodeType::Doc {
                if let Some(p) = &self.nodes[i].path {
                    text::push_distinct(paths, p.clone());
                }
            }
        }
    }

    /// The paths of the documents that edges connect with the entity, each once.
    pub fn source_docs_for_entity(&self, entity_id: &str) -> (r: Vec<String>)
        ensures
            text::texts(r@) == source_docs(
                self.nodes@,
                self.edges@,
                entity_id@,
                self.edges@.len() as int,
            ),
    {
        let id = entity_id.to_owned();
        let mut paths: Vec<String> = Vec::new();
        let mut i: usize = 0;
        assert(text::texts(paths@) =~= Seq::empty());
        while i < self.edges.len()
            invariant
                i <= self.edges.len(),
                id@ == entity_id@,
                text::texts(paths@) == source_docs(self.nodes@, self.edges@, id@, i as int),
            decreases self.edges.len() - i,
        {
            if self.edges[i].source == id {
                self.push_doc_path(&mut paths, &id, &self.edges[i].target);
            } else if self.edges[i].target == id {
                self.push_doc_path(&mut paths, &id, &self.edges[i].source);
            }
            i += 1;
        }
        paths
    }

    /// The paths of the documents with the most edges.
    pub fn priority_doc_paths(&self, limit: u32) -> (r: Vec<String>)
        ensures
            text::texts(r@) == paths_of(
                by_degree(self.edges@, rows::kept(self.nodes@, docs()), limit),
            ),
    {
        let all = self.doc_nodes();
        let top = self.sort_by_degree(&all, limit);
        proof {
            lemma_docs_by_degree(self.edges@, self.nodes@, limit);
        }
        let mut r: Vec<String> = Vec::new();
        let mut i: usize = 0;
        while i < top.len()
            invariant
                i <= top.len(),
                r@.len() == i,
                forall|k: int| 0 <= k < top@.len() ==> (#[trigger] top@[k]).path is Some,
                forall|k: int| 0 <= k < i ==> (#[trigger] r@[k])@ == path_of(top@[k]),
            decreases top.len() - i,
        {
            if let Some(p) = &top[i].path {
                r.push(p.clone());
            }
            i += 1;
        }
        assert(text::texts(r@) =~= paths_of(top@));
        r
    }

    /// The paths of all documents and how many edges they have.
    pub fn doc_degrees(&self) -> (r: Vec<(String, u64)>)
        ensures
            counts_view(r@) == doc_entries(self.edges@, rows::kept(self.nodes@, docs())),
    {
        let all = self.doc_nodes();
        proof {
            rows::lemma_kept(self.nodes@, docs());
        }
        let mut r: Vec<(String, u64)> = Vec::new();
        let mut i: usize = 0;
        while i < all.len()
            invariant
                i <= all.len(),
                r@.len() == i,
                all@ == rows::kept(self.nodes@, docs()),
                forall|k: int| 0 <= k < all@.len() ==> docs()(#[trigger] all@[k]),
                forall|k: int|
                    0 <= k < i ==> (#[trigger] r@[k]).0@ == path_of(all@[k]) && r@[k].1
                        == query::degree_of(self.edges@, all@[k].id@) as u64,
            decreases all.len() - i,
        {
            assert(docs()(all@[i as int]));
            if let Some(p) = &all[i].path {
                r.push((p.clone(), self.count_edges_at(&all[i].id)));
            }
            i += 1;
        }
        assert(counts_view(r@) =~= doc_entries(self.edges@, all@));
        r
    }

    /// How many edges a document has, and how many the one with the most, at least one.
    pub fn doc_degree_rank(&self, rel_path: &str) -> (r: (u64, u64))
        ensures
            r.0 == query::degree_of(self.edges@, ids::node_id(NodeType::Doc, rel_path@)),
            r.1 == max_doc_degree(self.edges@, self.nodes@, self.nodes@.len() as int),
            r.1 >= 1,
    {
        let id = ids::node_id_for(NodeType::Doc, rel_path);
        let degree = self.count_edges_at(&id);
        let mut max: u64 = 1;
        let mut i: usize = 0;
        while i < self.nodes.len()
            invariant
                i <= self.nodes.len(),
                max >= 1,
                max == max_doc_degree(self.edges@, self.nodes@, i as int),
            decreases self.nodes.len() - i,
        {
            if self.nodes[i].node_type == NodeType::Doc {
                let d = self.count_edges_at(&self.nodes[i].id);
                if d > max {
                    max = d;
                }
            }
            i += 1;
        }
        (degree, max)
    }

    fn count_type(&self, t: NodeType) -> (n: u64)
        ensures
            n == rows::kept(self.nodes@, of_type(t)).len(),
    {
        self.nodes_of_type(t).len() as u64
    }

    fn count_types(&self) -> (r: Vec<(NodeType, u64)>)
        ensures
            r@ == type_counts(self.nodes@, all_types(), 8),
    {
        let types: Vec<NodeType> = vec![
            NodeType::Doc,
            NodeType::Folder,
            NodeType::Chunk,
            NodeType::Section,
            NodeType::Entity,
            NodeType::Experience,
            NodeType::Memory,
            NodeType::Cluster,
        ];
        assert(types@ =~= all_types());
        let mut r: Vec<(NodeType, u64)> = Vec::new();
        let mut i: usize = 0;
        while i < types.len()
            invariant
                i <= types.len(),
                types@ == all_types(),
                r@ == type_counts(self.nodes@, all_types(), i as int),
            decreases types.len() - i,
        {
            let t = types[i];
            let n = self.count_type(t);
            if n > 0 {
                r.push((t, n));
            }
            i += 1;
        }
        r
    }

    /// Figures about the graph.
    pub fn stats(&self) -> (r: GraphStats)
        ensures
            r.by_type@ == type_counts(self.nodes@, all_types(), 8),
            entries_view(r.top_degree@) == degree_entries(
                self.edges@,
                by_degree(self.edges@, self.nodes@, TOP_DEGREE),
            ),
            r.last_built_at == last_change(self.edges@, self.edges@.len() as int),
            r.graph_version == self.version.value(),
            r.cluster_count == self.clusters@.len(),
            r.cluster_mode@ == store::mode_of(self.properties@),
    {
        let top = self.sort_by_degree(&self.nodes, TOP_DEGREE);
        let mut last: Option<i64> = None;
        let mut i: usize = 0;
        while i < self.edges.len()
            invariant
                i <= self.edges.len(),
                last == last_change(self.edges@, i as int),
            decreases self.edges.len() - i,
        {
            let t = self.edges[i].updated_at;
            last = match last {
                Some(l) => if l >= t {
                    Some(l)
                } else {
                    Some(t)
                },
                None => Some(t),
            };
            i += 1;
        }
        GraphStats {
            by_type: self.count_types(),
            top_degree: self.with_degrees(&top),
            last_built_at: last,
            graph_version: self.version.number(),
            cluster_count: self.clusters.len() as u64,
            cluster_mode: self.cluster_mode(),
        }
    }
}

proof fn lemma_docs_by_degree(edges: Seq<EdgeRow>, nodes: Seq<GraphNode>, limit: u32)
    ensures
        forall|k: int|
            0 <= k < by_degree(edges, rows::kept(nodes, docs()), limit).len() ==> (
            #[trigger] by_degree(edges, rows::kept(nodes, docs()), limit)[k]).path is Some,
{
    let all = rows::kept(nodes, docs());
    let keys = degree_keys(edges, all);
    rows::lemma_kept(nodes, docs());
    rows::lemma_order_of_first(keys, keys.len() as int);
    let top = by_degree(edges, all, limit);
    assert forall|k: int| 0 <= k < top.len() implies (#[trigger] top[k]).path is Some by {
        let x = rows::order_of(keys)[k];
        assert(top[k] == all[x]);
        assert(docs()(all[x]));
    }
}

/// A search finds exactly the nodes whose name fits, as far as the limit reaches.
pub proof fn law_search_finds_what_fits(nodes: Seq<GraphNode>, keyword: Seq<char>, limit: u32)
    ensures
        forall|k: int|
            0 <= k < found_nodes(nodes, keyword, limit).len() ==> like(
                keyword_pattern(keyword),
                (#[trigger] found_nodes(nodes, keyword, limit)[k]).name@,
            ) && nodes.contains(found_nodes(nodes, keyword, limit)[k]),
        forall|a: int, b: int|
            0 <= a < b < found_nodes(nodes, keyword, limit).len() ==> (#[trigger] found_nodes(
                nodes,
                keyword,
                limit,
            )[a]).name@.len() <= (#[trigger] found_nodes(nodes, keyword, limit)[b]).name@.len(),
        forall|x: int|
            0 <= x < nodes.len() && like(keyword_pattern(keyword), (#[trigger] nodes[x]).name@)
                && !found_nodes(nodes, keyword, limit).contains(nodes[x]) ==> found_nodes(
                nodes,
                keyword,
                limit,
            ).len() == limit,
{
    let p = named_like(keyword_pattern(keyword));
    let hits = rows::kept(nodes, p);
    let keys = name_length_keys(hits);
    let order = rows::order_of(keys);
    let sorted = rows::rows_at(hits, order);
    let found = found_nodes(nodes, keyword, limit);
    rows::lemma_kept(nodes, p);
    rows::lemma_order_of_first(keys, keys.len() as int);
    assert forall|k: int| 0 <= k < found.len() implies like(
        keyword_pattern(keyword),
        (#[trigger] found[k]).name@,
    ) && nodes.contains(found[k]) by {
        assert(found[k] == hits[order[k]]);
        assert(p(hits[order[k]]));
    }
    assert forall|a: int, b: int| 0 <= a < b < found.len() implies (#[trigger] found[a]).name@.len()
        <= (#[trigger] found[b]).name@.len() by {
        assert(found[a] == hits[order[a]] && found[b] == hits[order[b]]);
        assert(rows::row_lt(keys, order[a], order[b]));
        assert(keys[order[a]] == seq![hits[order[a]].name@.len() as int]);
        assert(keys[order[b]] == seq![hits[order[b]].name@.len() as int]);
    }
    assert forall|x: int|
        0 <= x < nodes.len() && like(keyword_pattern(keyword), (#[trigger] nodes[x]).name@)
            && !found.contains(nodes[x]) implies found.len() == limit by {
        assert(p(nodes[x]));
        let w = choose|w: int| 0 <= w < hits.len() && hits[w] == nodes[x];
        assert(order.contains(w));
        let y = choose|y: int| 0 <= y < order.len() && order[y] == w;
        assert(sorted[y] == nodes[x]);
        if y < found.len() {
            assert(found[y] == nodes[x]);
        }
    }
}

} // verus!
