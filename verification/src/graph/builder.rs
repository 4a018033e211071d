//! How directories, files and the links between them become nodes and edges.

use crate::graph::ids;
use crate::graph::laid;
use crate::graph::links;
use crate::graph::model::{GraphNode, NodeType, Relation};
use crate::graph::store;
use crate::graph::store::GraphStore;
use crate::graph::views;
use crate::graph::views::{EdgeV, GraphV, NodeV};
use crate::rows;
use crate::text;
use vstd::prelude::*;

verus! {

pub open spec fn folder_id(dir: Seq<char>) -> Seq<char> {
    ids::node_id(NodeType::Folder, dir)
}

pub open spec fn doc_id(rel: Seq<char>) -> Seq<char> {
    ids::node_id(NodeType::Doc, rel)
}

/// The node of a directory.
pub open spec fn folder_node(dir: Seq<char>) -> NodeV {
    views::plain_node(
        folder_id(dir),
        NodeType::Folder,
        text::after_last(dir, '/'),
        Some(dir),
        None,
        None,
    )
}

/// What is noted of a file: its extension in small letters.
pub open spec fn ext_meta(rel: Seq<char>) -> Seq<char> {
    "{\"ext\":\""@ + text::lowercase(text::after_last(rel, '.')) + "\"}"@
}

/// The node of a file.
pub open spec fn doc_node(rel: Seq<char>) -> NodeV {
    views::plain_node(
        doc_id(rel),
        NodeType::Doc,
        text::after_last(rel, '/'),
        Some(rel),
        Some(ext_meta(rel)),
        None,
    )
}

/// The graph with the edge from the directory that the path is in.
pub open spec fn under_parent(g: GraphV, rel: Seq<char>, id: Seq<char>, now: i64) -> GraphV {
    match links::parent_of(rel) {
        Some(p) => views::put_whole_edge(
            g,
            folder_id(p),
            id,
            Relation::Contains,
            folder_id(p),
            now,
        ),
        None => g,
    }
}

pub open spec fn with_folder(g: GraphV, dir: Seq<char>, now: i64) -> GraphV {
    under_parent(views::put_node(g, folder_node(dir), now), dir, folder_id(dir), now)
}

/// The graph with the first `n` directories.
pub open spec fn with_folders(g: GraphV, dirs: Seq<Seq<char>>, n: int, now: i64) -> GraphV
    decreases n,
{
    if n <= 0 {
        g
    } else {
        with_folder(with_folders(g, dirs, n - 1, now), dirs[n - 1], now)
    }
}

pub open spec fn with_doc(g: GraphV, rel: Seq<char>, now: i64) -> GraphV {
    under_parent(views::put_node(g, doc_node(rel), now), rel, doc_id(rel), now)
}

/// The graph with the first `n` files.
pub open spec fn with_docs(g: GraphV, files: Seq<Seq<char>>, n: int, now: i64) -> GraphV
    decreases n,
{
    if n <= 0 {
        g
    } else {
        with_doc(with_docs(g, files, n - 1, now), files[n - 1], now)
    }
}

/// The graph with the edges for the first `n` targets of a document's links.
pub open spec fn with_targets(
    g: GraphV,
    rel: Seq<char>,
    targets: Seq<Seq<char>>,
    files: Seq<Seq<char>>,
    n: int,
    now: i64,
) -> GraphV
    decreases n,
{
    if n <= 0 {
        g
    } else {
        let before = with_targets(g, rel, targets, files, n - 1, now);
        match links::resolved(targets[n - 1], rel, files) {
            Some(dst) => if dst == rel {
                before
            } else {
                views::put_whole_edge(
                    before,
                    doc_id(rel),
                    doc_id(dst),
                    Relation::References,
                    doc_id(rel),
                    now,
                )
            },
            None => before,
        }
    }
}

/// The targets of the links in a document.
pub open spec fn targets_in(content: Seq<char>) -> Seq<Seq<char>> {
    rows::kept(
        links::all_targets(
            links::link_matches(content),
            links::link_matches(content).len() as int,
        ),
        links::internal(),
    )
}

/// The graph with the edges for the links of a document.
pub open spec fn with_links(
    g: GraphV,
    rel: Seq<char>,
    content: Seq<char>,
    files: Seq<Seq<char>>,
    now: i64,
) -> GraphV {
    with_targets(g, rel, targets_in(content), files, targets_in(content).len() as int, now)
}

/// The graph with the edges for the links of the first `n` files. A file without content
/// could not be read.
pub open spec fn with_all_links(
    g: GraphV,
    files: Seq<Seq<char>>,
    contents: Seq<Option<Seq<char>>>,
    n: int,
    now: i64,
) -> GraphV
    decreases n,
{
    if n <= 0 {
        g
    } else {
        let before = with_all_links(g, files, contents, n - 1, now);
        match contents[n - 1] {
            Some(c) => if links::has_links(files[n - 1]) {
                with_links(before, files[n - 1], c, files, now)
            } else {
                before
            },
            None => before,
        }
    }
}

/// The graph with a tree of directories and files.
pub open spec fn with_tree(
    g: GraphV,
    dirs: Seq<Seq<char>>,
    files: Seq<Seq<char>>,
    contents: Seq<Option<Seq<char>>>,
    now: i64,
) -> GraphV {
    with_all_links(
        with_docs(
            with_folders(g, dirs, dirs.len() as int, now),
            files,
            files.len() as int,
            now,
        ),
        files,
        contents,
        files.len() as int,
        now,
    )
}

pub open spec fn contents_view(v: Seq<Option<String>>) -> Seq<Option<Seq<char>>> {
    Seq::new(v.len(), |i: int| store::opt_view(v[i]))
}

/// The paths of the documents among the first `n` nodes.
pub open spec fn paths_in(nodes: Seq<NodeV>, n: int) -> Seq<Seq<char>>
    decreases n,
{
    if n <= 0 {
        Seq::empty()
    } else {
        let before = paths_in(nodes, n - 1);
        match nodes[n - 1].path {
            Some(p) => if nodes[n - 1].node_type == NodeType::Doc {
                before.push(p)
            } else {
                before
            },
            None => before,
        }
    }
}

/// The graph with a file and, where its content is known and may hold links, with its links
/// in place of those that it had.
pub open spec fn with_file(g: GraphV, rel: Seq<char>, content: Option<Seq<char>>, now: i64) -> GraphV {
    let bare = views::fewer_edges(with_doc(g, rel, now), views::not_made_from(doc_id(rel)));
    match content {
        Some(c) => if links::has_links(rel) {
            with_links(bare, rel, c, paths_in(bare.nodes, bare.nodes.len() as int), now)
        } else {
            bare
        },
        None => bare,
    }
}

proof fn lemma_doc_paths(nodes: Seq<GraphNode>, n: int)
    requires
        0 <= n <= nodes.len(),
    ensures
        store::doc_paths(nodes, n) == paths_in(views::nodes_view(nodes), n),
    decreases n,
{
    if n > 0 {
        lemma_doc_paths(nodes, n - 1);
        assert(views::nodes_view(nodes)[n - 1] == views::node_view(nodes[n - 1]));
    }
}

fn ext_meta_of(rel: &str) -> (r: String)
    ensures
        r@ == ext_meta(rel@),
{
    let ext = text::after_last_of(rel, '.');
    let lower = text::to_lower(&ext);
    let mut r = "{\"ext\":\"".to_owned();
    r.push_str(&lower);
    r.push_str("\"}");
    r
}

impl GraphStore {
    fn link_parent(&mut self, rel: &String, id: &String, now: i64)
        requires
            old(self).wf(),
        ensures
            final(self).wf(),
            views::graph_of(*final(self)) == under_parent(
                views::graph_of(*old(self)),
                rel@,
                id@,
                now,
            ),
            views::same_rest(*old(self), *final(self)),
    {
        if let Some(p) = links::parent_dir(rel) {
            let pid = ids::node_id_for(NodeType::Folder, &p);
            self.write_whole_edge(&pid, id, Relation::Contains, &pid, now);
        }
    }

    fn write_folder(&mut self, dir: &String, now: i64)
        requires
            old(self).wf(),
        ensures
            final(self).wf(),
            views::graph_of(*final(self)) == with_folder(views::graph_of(*old(self)), dir@, now),
            views::same_rest(*old(self), *final(self)),
    {
        let id = ids::node_id_for(NodeType::Folder, dir);
        let node = GraphNode {
            id: id.clone(),
            node_type: NodeType::Folder,
            name: text::after_last_of(dir, '/'),
            path: Some(dir.clone()),
            meta: None,
            degree: None,
            created_at: None,
            content: None,
        };
        assert(views::node_view(node) == folder_node(dir@));
        self.write_node(&node, now);
        self.link_parent(dir, &id, now);
    }

    fn write_doc(&mut self, rel: &String, now: i64)
        requires
            old(self).wf(),
        ensures
            final(self).wf(),
            views::graph_of(*final(self)) == with_doc(views::graph_of(*old(self)), rel@, now),
            views::same_rest(*old(self), *final(self)),
    {
        let id = ids::node_id_for(NodeType::Doc, rel);
        let node = GraphNode {
            id: id.clone(),
            node_type: NodeType::Doc,
            name: text::after_last_of(rel, '/'),
            path: Some(rel.clone()),
            meta: Some(ext_meta_of(rel)),
            degree: None,
            created_at: None,
            content: None,
        };
        assert(views::node_view(node) == doc_node(rel@));
        self.write_node(&node, now);
        self.link_parent(rel, &id, now);
    }

    fn write_links(&mut self, rel: &String, content: &str, files: &Vec<String>, now: i64)
        requires
            old(self).wf(),
        ensures
            final(self).wf(),
            views::graph_of(*final(self)) == with_links(
                views::graph_of(*old(self)),
                rel@,
                content@,
                text::texts(files@),
                now,
            ),
            views::same_rest(*old(self), *final(self)),
    {
        let targets = links::extract_link_targets(content);
        let ghost ts = targets_in(content@);
        let ghost fs = text::texts(files@);
        assert(text::texts(targets@).len() == targets@.len());
        let src = ids::node_id_for(NodeType::Doc, rel);
        let mut i: usize = 0;
        while i < targets.len()
            invariant
                i <= targets.len(),
                ts == text::texts(targets@),
                fs == text::texts(files@),
                src@ == doc_id(rel@),
                self.wf(),
                views::graph_of(*self) == with_targets(
                    views::graph_of(*old(self)),
                    rel@,
                    ts,
                    fs,
                    i as int,
                    now,
                ),
                views::same_rest(*old(self), *self),
            decreases targets.len() - i,
        {
            if let Some(dst) = links::resolve_link(&targets[i], rel, files) {
                if dst != *rel {
                    let dst_id = ids::node_id_for(NodeType::Doc, &dst);
                    self.write_whole_edge(&src, &dst_id, Relation::References, &src, now);
                }
            }
            i += 1;
        }
    }

    fn write_tree(
        &mut self,
        dirs: &Vec<String>,
        files: &Vec<String>,
        contents: &Vec<Option<String>>,
        now: i64,
    )
        requires
            old(self).wf(),
            contents@.len() == files@.len(),
        ensures
            final(self).wf(),
            views::graph_of(*final(self)) == with_tree(
                views::graph_of(*old(self)),
                text::texts(dirs@),
                text::texts(files@),
                contents_view(contents@),
                now,
            ),
            views::same_rest(*old(self), *final(self)),
    {
        let ghost g0 = views::graph_of(*self);
        let ghost ds = text::texts(dirs@);
        let ghost fs = text::texts(files@);
        let ghost cs = contents_view(contents@);
        let mut i: usize = 0;
        while i < dirs.len()
            invariant
                i <= dirs.len(),
                ds == text::texts(dirs@),
                self.wf(),
                views::graph_of(*self) == with_folders(g0, ds, i as int, now),
                views::same_rest(*old(self), *self),
            decreases dirs.len() - i,
        {
            self.write_folder(&dirs[i], now);
            i += 1;
        }
        let ghost g1 = views::graph_of(*self);
        let mut j: usize = 0;
        while j < files.len()
            invariant
                j <= files.len(),
                fs == text::texts(files@),
                self.wf(),
                views::graph_of(*self) == with_docs(g1, fs, j as int, now),
                views::same_rest(*old(self), *self),
            decreases files.len() - j,
        {
            self.write_doc(&files[j], now);
            j += 1;
        }
        let ghost g2 = views::graph_of(*self);
        let mut k: usize = 0;
        while k < files.len()
            invariant
                k <= files.len(),
                contents@.len() == files@.len(),
                fs == text::texts(files@),
                cs == contents_view(contents@),
                self.wf(),
                views::graph_of(*self) == with_all_links(g2, fs, cs, k as int, now),
                views::same_rest(*old(self), *self),
            decreases files.len() - k,
        {
            assert(cs[k as int] == store::opt_view(contents@[k as int]));
            if let Some(c) = &contents[k] {
                if links::is_linkable(&files[k]) {
                    self.write_links(&files[k], c, files, now);
                }
            }
            k += 1;
        }
    }
}

/// Writes directories, files and links into a graph.
pub struct GraphBuilder<'a> {
    pub store: &'a mut GraphStore,
}

impl<'a> GraphBuilder<'a> {
    pub fn new(store: &'a mut GraphStore) -> (r: Self)
        ensures
            *r.store == *old(store),
            *final(r.store) == *final(store),
    {
        GraphBuilder { store }
    }

    /// Builds the graph anew from a tree: everything that was goes first.
    pub fn build_all(
        &mut self,
        dirs: &Vec<String>,
        files: &Vec<String>,
        contents: &Vec<Option<String>>,
        now: i64,
    )
        requires
            old(self).store.wf(),
            contents@.len() == files@.len(),
        ensures
            final(self).store.wf(),
            views::graph_of(*final(self).store) == with_tree(
                (GraphV {
                    nodes: Seq::empty(),
                    edges: Seq::empty(),
                    version: store::next_version(old(self).store.version),
                }),
                text::texts(dirs@),
                text::texts(files@),
                contents_view(contents@),
                now,
            ),
            laid::is_laid(
                (GraphV {
                    nodes: Seq::empty(),
                    edges: Seq::empty(),
                    version: store::next_version(old(self).store.version),
                }),
                text::texts(dirs@),
                text::texts(files@),
                contents_view(contents@),
                views::graph_of(*final(self).store),
            ),
            store::is_cleared(*old(self).store, *final(self).store),
            *final(final(self).store) == *final(old(self).store),
    {
        self.store.clear();
        assert(views::nodes_view(self.store.nodes@) =~= Seq::empty());
        assert(views::edges_view(self.store.edges@) =~= Seq::empty());
        proof {
            laid::law_a_tree_is_laid_out(
                views::graph_of(*self.store),
                text::texts(dirs@),
                text::texts(files@),
                contents_view(contents@),
                now,
            );
        }
        self.store.write_tree(dirs, files, contents, now);
    }

    /// Adds a tree: directories, files and the links between them. `contents` holds the
    /// text of each file that could be read.
    pub fn build_incremental(
        &mut self,
        dirs: &Vec<String>,
        files: &Vec<String>,
        contents: &Vec<Option<String>>,
        now: i64,
    )
        requires
            old(self).store.wf(),
            contents@.len() == files@.len(),
        ensures
            final(self).store.wf(),
            views::graph_of(*final(self).store) == with_tree(
                views::graph_of(*old(self).store),
                text::texts(dirs@),
                text::texts(files@),
                contents_view(contents@),
                now,
            ),
            laid::is_laid(
                views::graph_of(*old(self).store),
                text::texts(dirs@),
                text::texts(files@),
                contents_view(contents@),
                views::graph_of(*final(self).store),
            ),
            views::same_rest(*old(self).store, *final(self).store),
            *final(final(self).store) == *final(old(self).store),
    {
        proof {
            laid::law_a_tree_is_laid_out(
                views::graph_of(*self.store),
                text::texts(dirs@),
                text::texts(files@),
                contents_view(contents@),
                now,
            );
        }
        self.store.write_tree(dirs, files, contents, now);
    }

    /// Brings one file up to date: its node, and its links in place of those that it had.
    /// Without content only the node is brought up to date and the old links go.
    pub fn build_file(&mut self, rel_path: &str, content: Option<&str>, now: i64)
        requires
            old(self).store.wf(),
        ensures
            final(self).store.wf(),
            views::graph_of(*final(self).store) == with_file(
                views::graph_of(*old(self).store),
                text::replace_char(rel_path@, '\\', '/'),
                match content {
                    Some(c) => Some(c@),
                    None => None,
                },
                now,
            ),
            views::same_rest(*old(self).store, *final(self).store),
            *final(final(self).store) == *final(old(self).store),
    {
        let rel = text::replace_char_of(rel_path, '\\', '/');
        let id = ids::node_id_for(NodeType::Doc, &rel);
        self.store.write_doc(&rel, now);
        self.store.drop_edges_from(&id);
        let body = match content {
            Some(c) => c,
            None => {
                return ;
            },
        };
        if !links::is_linkable(&rel) {
            return ;
        }
        let files = self.store.list_doc_paths();
        proof {
            lemma_doc_paths(self.store.nodes@, self.store.nodes@.len() as int);
        }
        self.store.write_links(&rel, body, &files, now);
    }

    /// Removes a file, or a directory with everything below it. Returns how many nodes went.
    pub fn remove_path(&mut self, rel_path: &str) -> (n: u64)
        requires
            old(self).store.wf(),
        ensures
            final(self).store.wf(),
            n == rows::kept(
                old(self).store.nodes@,
                store::under_path(text::replace_char(rel_path@, '\\', '/')),
            ).len(),
            store::is_without_path(
                *old(self).store,
                *final(self).store,
                text::replace_char(rel_path@, '\\', '/'),
            ),
            *final(final(self).store) == *final(old(self).store),
    {
        self.store.delete_by_path(rel_path)
    }
}

/// Links that a file no longer has leave nothing behind: whatever is made from the file
/// after it has been brought up to date is a reference to a file that one of its links
/// leads to.
pub proof fn law_old_links_leave_nothing_behind(
    g: GraphV,
    rel: Seq<char>,
    content: Option<Seq<char>>,
    now: i64,
    i: int,
)
    requires
        0 <= i < with_file(g, rel, content, now).edges.len(),
        with_file(g, rel, content, now).edges[i].source_id == Some(doc_id(rel)),
    ensures
        content is Some,
        exists|k: int|
            0 <= k < targets_in(content->0).len() && is_reference(
                with_file(g, rel, content, now).edges[i],
                rel,
                #[trigger] targets_in(content->0)[k],
                paths_of_known(g, rel, now),
            ),
{
    let bare = views::fewer_edges(with_doc(g, rel, now), views::not_made_from(doc_id(rel)));
    rows::lemma_kept(with_doc(g, rel, now).edges, views::not_made_from(doc_id(rel)));
    let after = with_file(g, rel, content, now);
    if content is Some && links::has_links(rel) {
        let ts = targets_in(content->0);
        let files = paths_of_known(g, rel, now);
        lemma_made_from(bare, rel, ts, files, ts.len() as int, now, i);
    } else {
        assert(views::not_made_from(doc_id(rel))(after.edges[i]));
    }
}

/// The paths of the documents that are known when the links of a file are looked at.
pub open spec fn paths_of_known(g: GraphV, rel: Seq<char>, now: i64) -> Seq<Seq<char>> {
    let nodes = with_doc(g, rel, now).nodes;
    paths_in(nodes, nodes.len() as int)
}

/// Whether an edge stands for a link with the target.
pub open spec fn is_reference(e: EdgeV, rel: Seq<char>, target: Seq<char>, files: Seq<Seq<char>>) -> bool {
    e.source == doc_id(rel) && e.relation == Relation::References && (links::resolved(
        target,
        rel,
        files,
    ) matches Some(dst) && e.target == doc_id(dst))
}

proof fn lemma_made_from(
    g: GraphV,
    rel: Seq<char>,
    ts: Seq<Seq<char>>,
    files: Seq<Seq<char>>,
    n: int,
    now: i64,
    i: int,
)
    requires
        0 <= n <= ts.len(),
        forall|x: int|
            0 <= x < g.edges.len() ==> (#[trigger] g.edges[x]).source_id != Some(doc_id(rel)),
        0 <= i < with_targets(g, rel, ts, files, n, now).edges.len(),
        with_targets(g, rel, ts, files, n, now).edges[i].source_id == Some(doc_id(rel)),
    ensures
        exists|k: int|
            0 <= k < n && is_reference(
                with_targets(g, rel, ts, files, n, now).edges[i],
                rel,
                #[trigger] ts[k],
                files,
            ),
    decreases n,
{
    if n > 0 {
        let before = with_targets(g, rel, ts, files, n - 1, now);
        let after = with_targets(g, rel, ts, files, n, now);
        match links::resolved(ts[n - 1], rel, files) {
            Some(dst) if dst != rel => {
                let key = (doc_id(rel), doc_id(dst), Relation::References);
                rows::lemma_row_index(before.edges, views::ev_key(), key, 0);
                if i < before.edges.len() {
                    assert(before.edges[i].source_id == Some(doc_id(rel)));
                    lemma_made_from(g, rel, ts, files, n - 1, now, i);
                    let k = choose|k: int|
                        0 <= k < n - 1 && is_reference(
                            before.edges[i],
                            rel,
                            #[trigger] ts[k],
                            files,
                        );
                    assert(is_reference(after.edges[i], rel, ts[k], files));
                } else {
                    assert(is_reference(after.edges[i], rel, ts[n - 1], files));
                }
            },
            _ => {
                lemma_made_from(g, rel, ts, files, n - 1, now, i);
                let k = choose|k: int|
                    0 <= k < n - 1 && is_reference(before.edges[i], rel, #[trigger] ts[k], files);
                assert(is_reference(after.edges[i], rel, ts[k], files));
            },
        }
    }
}

} // verus!
