//! What a tree of directories and files becomes in the graph, said of paths, nodes and edges.

use crate::graph::builder;
use crate::graph::hung;
use crate::graph::links;
use crate::graph::model;
use crate::graph::model::{NodeType, Relation};
use crate::graph::views;
use crate::graph::views::{GraphV, NodeV};
use crate::rows;
use crate::text;
use vstd::prelude::*;

verus! {

/// Whether a path is a name in the directory.
pub open spec fn stands_in(path: Seq<char>, dir: Seq<char>) -> bool {
    &&& 0 < dir.len() < path.len()
    &&& path.take(dir.len() as int) == dir
    &&& path[dir.len() as int] == '/'
    &&& forall|i: int| dir.len() < i < path.len() ==> #[trigger] path[i] != '/'
}

/// A path is in the directory before its last separator, and in no other.
pub proof fn law_a_path_is_in_one_directory(path: Seq<char>, dir: Seq<char>)
    ensures
        links::parent_of(path) == Some(dir) <==> stands_in(path, dir),
{
    text::law_the_last_place_is_found(path, '/');
    let n = dir.len() as int;
    match text::last_index(path, '/') {
        Some(i) => {
            if stands_in(path, dir) {
                if i < n {
                    assert(path[n] != '/');
                }
                if i > n {
                    assert(path[i] != '/');
                }
                assert(path.take(i) =~= dir);
            }
            if links::parent_of(path) == Some(dir) {
                assert(path.take(i).len() == i);
                assert(n == i);
            }
        },
        None => {
            if stands_in(path, dir) {
                assert(path[n] != '/');
            }
        },
    }
}

/// Whether the directory of one of the paths has the edge to it; `t` is what it is known by.
pub open spec fn some_stands(
    paths: Seq<Seq<char>>,
    n: int,
    id: spec_fn(Seq<char>) -> Seq<char>,
    s: Seq<char>,
    t: Seq<char>,
) -> bool {
    exists|k: int, dir: Seq<char>|
        0 <= k < n && #[trigger] stands_in(paths[k], dir) && s == builder::folder_id(dir) && t
            == id(paths[k])
}

pub open spec fn as_folder() -> spec_fn(Seq<char>) -> Seq<char> {
    |p: Seq<char>| builder::folder_id(p)
}

pub open spec fn as_doc() -> spec_fn(Seq<char>) -> Seq<char> {
    |p: Seq<char>| builder::doc_id(p)
}

/// Whether a link of the content leads from the file to another one of the files.
pub open spec fn links_to(
    rel: Seq<char>,
    targets: Seq<Seq<char>>,
    files: Seq<Seq<char>>,
    n: int,
    s: Seq<char>,
    t: Seq<char>,
) -> bool {
    s == builder::doc_id(rel) && exists|m: int|
        0 <= m < n && (links::resolved(#[trigger] targets[m], rel, files) matches Some(dst) && dst
            != rel && t == builder::doc_id(dst))
}

pub open spec fn some_links(
    files: Seq<Seq<char>>,
    contents: Seq<Option<Seq<char>>>,
    n: int,
    s: Seq<char>,
    t: Seq<char>,
) -> bool {
    exists|k: int|
        0 <= k < n && links::has_links(#[trigger] files[k]) && (contents[k] matches Some(c)
            && links_to(
            files[k],
            builder::targets_in(c),
            files,
            builder::targets_in(c).len() as int,
            s,
            t,
        ))
}

/// Whether a node is that of the path: of the kind, with the path and with the last segment of
/// the path for its name.
pub open spec fn is_node_at(x: NodeV, kind: NodeType, path: Seq<char>) -> bool {
    &&& x.node_type == kind
    &&& x.path == Some(path)
    &&& x.name == path || (x.name.len() < path.len() && path[path.len() - x.name.len() - 1] == '/'
        && path.skip(path.len() - x.name.len()) == x.name)
    &&& forall|i: int| 0 <= i < x.name.len() ==> #[trigger] x.name[i] != '/'
}

/// Whether each path has its node. Paths of one id share it.
pub open spec fn have_nodes(
    paths: Seq<Seq<char>>,
    n: int,
    kind: NodeType,
    id: spec_fn(Seq<char>) -> Seq<char>,
    after: GraphV,
) -> bool {
    forall|k: int| 0 <= k < n ==> has_node_at(paths, n, kind, id, id(#[trigger] paths[k]), after)
}

pub open spec fn has_node_at(
    paths: Seq<Seq<char>>,
    n: int,
    kind: NodeType,
    id: spec_fn(Seq<char>) -> Seq<char>,
    own: Seq<char>,
    after: GraphV,
) -> bool {
    exists|i: int, j: int|
        0 <= i < after.nodes.len() && 0 <= j < n && id(paths[j]) == own && after.nodes[i].id == own
            && #[trigger] is_node_at(after.nodes[i], kind, paths[j])
}

/// Whether the tree is in the graph: each directory and file has its node, each is contained
/// in its directory, each file refers to the files that its links lead to, and all other edges
/// are those that were there.
pub open spec fn is_laid(
    g: GraphV,
    dirs: Seq<Seq<char>>,
    files: Seq<Seq<char>>,
    contents: Seq<Option<Seq<char>>>,
    after: GraphV,
) -> bool {
    &&& forall|s: Seq<char>, t: Seq<char>, q: Relation| #[trigger]
        hung::has_edge(after, s, t, q) <==> hung::has_edge(g, s, t, q) || (q == Relation::Contains
            && (some_stands(dirs, dirs.len() as int, as_folder(), s, t) || some_stands(
            files,
            files.len() as int,
            as_doc(),
            s,
            t,
        ))) || (q == Relation::References && some_links(
            files,
            contents,
            files.len() as int,
            s,
            t,
        ))
    &&& have_nodes(dirs, dirs.len() as int, NodeType::Folder, as_folder(), after)
    &&& have_nodes(files, files.len() as int, NodeType::Doc, as_doc(), after)
}

proof fn lemma_under_parent(
    g: GraphV,
    rel: Seq<char>,
    id: Seq<char>,
    now: i64,
    s: Seq<char>,
    t: Seq<char>,
    q: Relation,
)
    ensures
        builder::under_parent(g, rel, id, now).nodes == g.nodes,
        hung::has_edge(builder::under_parent(g, rel, id, now), s, t, q) <==> hung::has_edge(
            g,
            s,
            t,
            q,
        ) || (q == Relation::Contains && t == id && exists|dir: Seq<char>| #[trigger]
            stands_in(rel, dir) && s == builder::folder_id(dir)),
{
    match links::parent_of(rel) {
        Some(p) => {
            law_a_path_is_in_one_directory(rel, p);
            let pid = builder::folder_id(p);
            hung::lemma_put_edge(
                g,
                pid,
                id,
                Relation::Contains,
                model::WHOLE,
                model::WHOLE,
                Some(pid),
                now,
                s,
                t,
                q,
            );
            assert forall|dir: Seq<char>| #[trigger] stands_in(rel, dir) implies dir == p by {
                law_a_path_is_in_one_directory(rel, dir);
            }
        },
        None => {
            assert forall|dir: Seq<char>| !#[trigger] stands_in(rel, dir) by {
                law_a_path_is_in_one_directory(rel, dir);
            }
        },
    }
}

proof fn lemma_one_more_stands(
    paths: Seq<Seq<char>>,
    n: int,
    id: spec_fn(Seq<char>) -> Seq<char>,
    s: Seq<char>,
    t: Seq<char>,
)
    requires
        0 < n <= paths.len(),
    ensures
        some_stands(paths, n, id, s, t) <==> some_stands(paths, n - 1, id, s, t) || (t == id(
            paths[n - 1],
        ) && exists|dir: Seq<char>| #[trigger]
            stands_in(paths[n - 1], dir) && s == builder::folder_id(dir)),
{
    if some_stands(paths, n, id, s, t) {
        let (k, dir) = choose|k: int, dir: Seq<char>|
            0 <= k < n && #[trigger] stands_in(paths[k], dir) && s == builder::folder_id(dir) && t
                == id(paths[k]);
        assert(stands_in(paths[k], dir));
    }
    if some_stands(paths, n - 1, id, s, t) {
        let (k, dir) = choose|k: int, dir: Seq<char>|
            0 <= k < n - 1 && #[trigger] stands_in(paths[k], dir) && s == builder::folder_id(dir)
                && t == id(paths[k]);
        assert(stands_in(paths[k], dir));
    }
}

proof fn lemma_folders_stand(
    g: GraphV,
    dirs: Seq<Seq<char>>,
    n: int,
    now: i64,
    s: Seq<char>,
    t: Seq<char>,
    q: Relation,
)
    requires
        0 <= n <= dirs.len(),
    ensures
        hung::has_edge(builder::with_folders(g, dirs, n, now), s, t, q) <==> hung::has_edge(
            g,
            s,
            t,
            q,
        ) || (q == Relation::Contains && some_stands(dirs, n, as_folder(), s, t)),
    decreases n,
{
    if n > 0 {
        lemma_folders_stand(g, dirs, n - 1, now, s, t, q);
        let before = builder::with_folders(g, dirs, n - 1, now);
        let put = views::put_node(before, builder::folder_node(dirs[n - 1]), now);
        assert(hung::has_edge(put, s, t, q) == hung::has_edge(before, s, t, q));
        lemma_under_parent(put, dirs[n - 1], builder::folder_id(dirs[n - 1]), now, s, t, q);
        lemma_one_more_stands(dirs, n, as_folder(), s, t);
    }
}

proof fn lemma_docs_stand(
    g: GraphV,
    files: Seq<Seq<char>>,
    n: int,
    now: i64,
    s: Seq<char>,
    t: Seq<char>,
    q: Relation,
)
    requires
        0 <= n <= files.len(),
    ensures
        hung::has_edge(builder::with_docs(g, files, n, now), s, t, q) <==> hung::has_edge(
            g,
            s,
            t,
            q,
        ) || (q == Relation::Contains && some_stands(files, n, as_doc(), s, t)),
    decreases n,
{
    if n > 0 {
        lemma_docs_stand(g, files, n - 1, now, s, t, q);
        let before = builder::with_docs(g, files, n - 1, now);
        let put = views::put_node(before, builder::doc_node(files[n - 1]), now);
        assert(hung::has_edge(put, s, t, q) == hung::has_edge(before, s, t, q));
        lemma_under_parent(put, files[n - 1], builder::doc_id(files[n - 1]), now, s, t, q);
        lemma_one_more_stands(files, n, as_doc(), s, t);
    }
}

proof fn lemma_targets_linked(
    g: GraphV,
    rel: Seq<char>,
    targets: Seq<Seq<char>>,
    files: Seq<Seq<char>>,
    n: int,
    now: i64,
    s: Seq<char>,
    t: Seq<char>,
    q: Relation,
)
    requires
        0 <= n <= targets.len(),
    ensures
        builder::with_targets(g, rel, targets, files, n, now).nodes == g.nodes,
        hung::has_edge(
            builder::with_targets(g, rel, targets, files, n, now),
            s,
            t,
            q,
        ) <==> hung::has_edge(g, s, t, q) || (q == Relation::References && links_to(
            rel,
            targets,
            files,
            n,
            s,
            t,
        )),
    decreases n,
{
    if n > 0 {
        lemma_targets_linked(g, rel, targets, files, n - 1, now, s, t, q);
        let before = builder::with_targets(g, rel, targets, files, n - 1, now);
        let doc = builder::doc_id(rel);
        if links_to(rel, targets, files, n - 1, s, t) {
            let m = choose|m: int|
                0 <= m < n - 1 && (links::resolved(#[trigger] targets[m], rel, files) matches Some(
                    dst,
                ) && dst != rel && t == builder::doc_id(dst));
            assert(links::resolved(targets[m], rel, files) is Some);
        }
        if links_to(rel, targets, files, n, s, t) {
            let m = choose|m: int|
                0 <= m < n && (links::resolved(#[trigger] targets[m], rel, files) matches Some(dst)
                    && dst != rel && t == builder::doc_id(dst));
            if m < n - 1 {
                assert(links::resolved(targets[m], rel, files) is Some);
                assert(links_to(rel, targets, files, n - 1, s, t));
            }
        }
        match links::resolved(targets[n - 1], rel, files) {
            Some(dst) => {
                hung::lemma_put_edge(
                    before,
                    doc,
                    builder::doc_id(dst),
                    Relation::References,
                    model::WHOLE,
                    model::WHOLE,
                    Some(doc),
                    now,
                    s,
                    t,
                    q,
                );
                if dst != rel && s == doc && t == builder::doc_id(dst) {
                    assert(links::resolved(targets[n - 1], rel, files) is Some);
                    assert(links_to(rel, targets, files, n, s, t));
                }
            },
            None => {},
        }
    }
}

proof fn lemma_all_linked(
    g: GraphV,
    files: Seq<Seq<char>>,
    contents: Seq<Option<Seq<char>>>,
    n: int,
    now: i64,
    s: Seq<char>,
    t: Seq<char>,
    q: Relation,
)
    requires
        0 <= n <= files.len(),
    ensures
        builder::with_all_links(g, files, contents, n, now).nodes == g.nodes,
        hung::has_edge(
            builder::with_all_links(g, files, contents, n, now),
            s,
            t,
            q,
        ) <==> hung::has_edge(g, s, t, q) || (q == Relation::References && some_links(
            files,
            contents,
            n,
            s,
            t,
        )),
    decreases n,
{
    if n > 0 {
        lemma_all_linked(g, files, contents, n - 1, now, s, t, q);
        let before = builder::with_all_links(g, files, contents, n - 1, now);
        let rel = files[n - 1];
        if some_links(files, contents, n - 1, s, t) {
            let k = choose|k: int|
                0 <= k < n - 1 && links::has_links(#[trigger] files[k]) && (
                contents[k] matches Some(c) && links_to(
                    files[k],
                    builder::targets_in(c),
                    files,
                    builder::targets_in(c).len() as int,
                    s,
                    t,
                ));
            assert(links::has_links(files[k]));
        }
        if some_links(files, contents, n, s, t) {
            let k = choose|k: int|
                0 <= k < n && links::has_links(#[trigger] files[k]) && (contents[k] matches Some(c)
                    && links_to(
                    files[k],
                    builder::targets_in(c),
                    files,
                    builder::targets_in(c).len() as int,
                    s,
                    t,
                ));
            if k < n - 1 {
                assert(links::has_links(files[k]));
                assert(some_links(files, contents, n - 1, s, t));
            }
        }
        match contents[n - 1] {
            Some(c) => {
                let ts = builder::targets_in(c);
                lemma_targets_linked(before, rel, ts, files, ts.len() as int, now, s, t, q);
                if links::has_links(rel) && links_to(rel, ts, files, ts.len() as int, s, t) {
                    assert(links::has_links(files[n - 1]));
                    assert(some_links(files, contents, n, s, t));
                }
            },
            None => {},
        }
    } else {
        assert(!some_links(files, contents, 0, s, t));
    }
}

proof fn lemma_name(path: Seq<char>, kind: NodeType, x: NodeV)
    requires
        x.node_type == kind,
        x.path == Some(path),
        x.name == text::after_last(path, '/'),
    ensures
        is_node_at(x, kind, path),
{
    text::law_the_last_place_is_found(path, '/');
    match text::last_index(path, '/') {
        Some(i) => {
            let n = path.len() - x.name.len();
            assert(n == i + 1);
            assert(path.skip(n) =~= x.name);
            assert forall|k: int| 0 <= k < x.name.len() implies #[trigger] x.name[k] != '/' by {
                assert(x.name[k] == path[i + 1 + k]);
            }
        },
        None => {},
    }
}

/// A node that is put is there, and whatever has another id stays.
proof fn lemma_node_put(
    g: GraphV,
    x: NodeV,
    now: i64,
    paths: Seq<Seq<char>>,
    n: int,
    kind: NodeType,
    id: spec_fn(Seq<char>) -> Seq<char>,
    own: Seq<char>,
)
    requires
        has_node_at(paths, n, kind, id, own, g),
        x.id != own,
    ensures
        has_node_at(paths, n, kind, id, own, views::put_node(g, x, now)),
{
    let g2 = views::put_node(g, x, now);
    rows::lemma_row_index(g.nodes, views::nv_key(), x.id, 0);
    let (i, j) = choose|i: int, j: int|
        0 <= i < g.nodes.len() && 0 <= j < n && id(paths[j]) == own && g.nodes[i].id == own
            && #[trigger] is_node_at(g.nodes[i], kind, paths[j]);
    assert(g2.nodes[i] == g.nodes[i]);
    assert(is_node_at(g2.nodes[i], kind, paths[j]));
}

proof fn lemma_more_paths(
    paths: Seq<Seq<char>>,
    n: int,
    kind: NodeType,
    id: spec_fn(Seq<char>) -> Seq<char>,
    own: Seq<char>,
    g: GraphV,
)
    requires
        has_node_at(paths, n, kind, id, own, g),
    ensures
        has_node_at(paths, n + 1, kind, id, own, g),
{
    let (i, j) = choose|i: int, j: int|
        0 <= i < g.nodes.len() && 0 <= j < n && id(paths[j]) == own && g.nodes[i].id == own
            && #[trigger] is_node_at(g.nodes[i], kind, paths[j]);
    assert(is_node_at(g.nodes[i], kind, paths[j]));
}

proof fn lemma_own_node(
    g: GraphV,
    x: NodeV,
    now: i64,
    paths: Seq<Seq<char>>,
    n: int,
    kind: NodeType,
    id: spec_fn(Seq<char>) -> Seq<char>,
)
    requires
        0 < n <= paths.len(),
        x.id == id(paths[n - 1]),
        x.node_type == kind,
        x.path == Some(paths[n - 1]),
        x.name == text::after_last(paths[n - 1], '/'),
    ensures
        has_node_at(paths, n, kind, id, x.id, views::put_node(g, x, now)),
{
    let g2 = views::put_node(g, x, now);
    hung::lemma_put_node(g, x, now, x);
    let i = choose|i: int|
        0 <= i < g2.nodes.len() && (#[trigger] g2.nodes[i]) == (NodeV {
            degree: None,
            created_at: g2.nodes[i].created_at,
            ..x
        });
    lemma_name(paths[n - 1], kind, g2.nodes[i]);
}

proof fn lemma_folders_there(g: GraphV, dirs: Seq<Seq<char>>, n: int, now: i64)
    requires
        0 <= n <= dirs.len(),
    ensures
        have_nodes(dirs, n, NodeType::Folder, as_folder(), builder::with_folders(g, dirs, n, now)),
    decreases n,
{
    if n > 0 {
        lemma_folders_there(g, dirs, n - 1, now);
        let before = builder::with_folders(g, dirs, n - 1, now);
        let x = builder::folder_node(dirs[n - 1]);
        let put = views::put_node(before, x, now);
        let after = builder::with_folders(g, dirs, n, now);
        let kind = NodeType::Folder;
        lemma_under_parent(
            put,
            dirs[n - 1],
            x.id,
            now,
            Seq::empty(),
            Seq::empty(),
            Relation::Contains,
        );
        assert(after.nodes == put.nodes);
        lemma_own_node(before, x, now, dirs, n, kind, as_folder());
        assert forall|k: int| 0 <= k < n implies has_node_at(
            dirs,
            n,
            kind,
            as_folder(),
            as_folder()(#[trigger] dirs[k]),
            after,
        ) by {
            let own = as_folder()(dirs[k]);
            if own != x.id {
                assert(has_node_at(dirs, n - 1, kind, as_folder(), own, before));
                lemma_node_put(before, x, now, dirs, n - 1, kind, as_folder(), own);
                lemma_more_paths(dirs, n - 1, kind, as_folder(), own, put);
            }
            lemma_same_nodes(dirs, n, kind, as_folder(), own, put, after);
        }
    }
}

proof fn lemma_same_nodes(
    paths: Seq<Seq<char>>,
    n: int,
    kind: NodeType,
    id: spec_fn(Seq<char>) -> Seq<char>,
    own: Seq<char>,
    a: GraphV,
    b: GraphV,
)
    requires
        has_node_at(paths, n, kind, id, own, a),
        a.nodes == b.nodes,
    ensures
        has_node_at(paths, n, kind, id, own, b),
{
    let (i, j) = choose|i: int, j: int|
        0 <= i < a.nodes.len() && 0 <= j < n && id(paths[j]) == own && a.nodes[i].id == own
            && #[trigger] is_node_at(a.nodes[i], kind, paths[j]);
    assert(is_node_at(b.nodes[i], kind, paths[j]));
}

proof fn lemma_kinds_apart(dir: Seq<char>, rel: Seq<char>)
    ensures
        builder::folder_id(dir) != builder::doc_id(rel),
{
    reveal_strlit("doc");
    reveal_strlit("folder");
    assert(builder::doc_id(rel)[0] == 'd');
    assert(builder::folder_id(dir)[0] == 'f');
}

proof fn lemma_docs_there(
    g: GraphV,
    dirs: Seq<Seq<char>>,
    files: Seq<Seq<char>>,
    n: int,
    now: i64,
)
    requires
        0 <= n <= files.len(),
        have_nodes(dirs, dirs.len() as int, NodeType::Folder, as_folder(), g),
    ensures
        have_nodes(files, n, NodeType::Doc, as_doc(), builder::with_docs(g, files, n, now)),
        have_nodes(
            dirs,
            dirs.len() as int,
            NodeType::Folder,
            as_folder(),
            builder::with_docs(g, files, n, now),
        ),
    decreases n,
{
    if n > 0 {
        lemma_docs_there(g, dirs, files, n - 1, now);
        let before = builder::with_docs(g, files, n - 1, now);
        let x = builder::doc_node(files[n - 1]);
        let put = views::put_node(before, x, now);
        let after = builder::with_docs(g, files, n, now);
        lemma_under_parent(
            put,
            files[n - 1],
            x.id,
            now,
            Seq::empty(),
            Seq::empty(),
            Relation::Contains,
        );
        assert(after.nodes == put.nodes);
        lemma_own_node(before, x, now, files, n, NodeType::Doc, as_doc());
        assert forall|k: int| 0 <= k < n implies has_node_at(
            files,
            n,
            NodeType::Doc,
            as_doc(),
            as_doc()(#[trigger] files[k]),
            after,
        ) by {
            let own = as_doc()(files[k]);
            if own != x.id {
                assert(has_node_at(files, n - 1, NodeType::Doc, as_doc(), own, before));
                lemma_node_put(before, x, now, files, n - 1, NodeType::Doc, as_doc(), own);
                lemma_more_paths(files, n - 1, NodeType::Doc, as_doc(), own, put);
            }
            lemma_same_nodes(files, n, NodeType::Doc, as_doc(), own, put, after);
        }
        let d = dirs.len() as int;
        assert forall|k: int| 0 <= k < d implies has_node_at(
            dirs,
            d,
            NodeType::Folder,
            as_folder(),
            as_folder()(#[trigger] dirs[k]),
            after,
        ) by {
            let own = as_folder()(dirs[k]);
            assert(has_node_at(dirs, d, NodeType::Folder, as_folder(), own, before));
            lemma_kinds_apart(dirs[k], files[n - 1]);
            lemma_node_put(before, x, now, dirs, d, NodeType::Folder, as_folder(), own);
            lemma_same_nodes(dirs, d, NodeType::Folder, as_folder(), own, put, after);
        }
    }
}

/// A tree becomes a node for each directory and file, an edge from each directory to what is
/// in it, and an edge from each document to every other file that one of its links leads to;
/// no other edge comes or goes.
pub proof fn law_a_tree_is_laid_out(
    g: GraphV,
    dirs: Seq<Seq<char>>,
    files: Seq<Seq<char>>,
    contents: Seq<Option<Seq<char>>>,
    now: i64,
)
    ensures
        is_laid(g, dirs, files, contents, builder::with_tree(g, dirs, files, contents, now)),
{
    let d = dirs.len() as int;
    let f = files.len() as int;
    let g1 = builder::with_folders(g, dirs, d, now);
    let g2 = builder::with_docs(g1, files, f, now);
    let after = builder::with_tree(g, dirs, files, contents, now);
    assert forall|s: Seq<char>, t: Seq<char>, q: Relation| #[trigger]
        hung::has_edge(after, s, t, q) <==> hung::has_edge(g, s, t, q) || (q == Relation::Contains
            && (some_stands(dirs, d, as_folder(), s, t) || some_stands(files, f, as_doc(), s, t)))
            || (q == Relation::References && some_links(files, contents, f, s, t)) by {
        lemma_folders_stand(g, dirs, d, now, s, t, q);
        lemma_docs_stand(g1, files, f, now, s, t, q);
        lemma_all_linked(g2, files, contents, f, now, s, t, q);
    }
    lemma_folders_there(g, dirs, d, now);
    lemma_docs_there(g1, dirs, files, f, now);
    lemma_all_linked(
        g2,
        files,
        contents,
        f,
        now,
        Seq::empty(),
        Seq::empty(),
        Relation::Contains,
    );
    assert(after.nodes == g2.nodes);
    assert forall|k: int| 0 <= k < d implies has_node_at(
        dirs,
        d,
        NodeType::Folder,
        as_folder(),
        as_folder()(#[trigger] dirs[k]),
        after,
    ) by {
        lemma_same_nodes(dirs, d, NodeType::Folder, as_folder(), as_folder()(dirs[k]), g2, after);
    }
    assert forall|k: int| 0 <= k < f implies has_node_at(
        files,
        f,
        NodeType::Doc,
        as_doc(),
        as_doc()(#[trigger] files[k]),
        after,
    ) by {
        lemma_same_nodes(files, f, NodeType::Doc, as_doc(), as_doc()(files[k]), g2, after);
    }
}

/// Whether there is such an edge that was not made from the document.
pub open spec fn survives(
    g: GraphV,
    doc: Seq<char>,
    s: Seq<char>,
    t: Seq<char>,
    q: Relation,
) -> bool {
    exists|i: int|
        0 <= i < g.edges.len() && (#[trigger] g.edges[i]).source == s && g.edges[i].target == t
            && g.edges[i].relation == q && g.edges[i].source_id != Some(doc)
}

proof fn lemma_survives(
    g: GraphV,
    a: Seq<char>,
    b: Seq<char>,
    r: Relation,
    sid: Seq<char>,
    now: i64,
    doc: Seq<char>,
    s: Seq<char>,
    t: Seq<char>,
    q: Relation,
)
    requires
        survives(g, doc, s, t, q),
    ensures
        survives(views::put_whole_edge(g, a, b, r, sid, now), doc, s, t, q),
{
    let g2 = views::put_whole_edge(g, a, b, r, sid, now);
    rows::lemma_row_index(g.edges, views::ev_key(), (a, b, r), 0);
    let i = choose|i: int|
        0 <= i < g.edges.len() && (#[trigger] g.edges[i]).source == s && g.edges[i].target == t
            && g.edges[i].relation == q && g.edges[i].source_id != Some(doc);
    assert(g2.edges[i].source == s && g2.edges[i].source_id == g.edges[i].source_id);
}

/// A file that is brought up to date refers to every other file of the graph that one of its
/// links leads to, and edges that were not made from it stay.
pub proof fn law_a_file_refers_where_its_links_lead(
    g: GraphV,
    rel: Seq<char>,
    content: Option<Seq<char>>,
    now: i64,
    s: Seq<char>,
    t: Seq<char>,
    q: Relation,
)
    ensures
        ({
            let after = builder::with_file(g, rel, content, now);
            let doc = builder::doc_id(rel);
            &&& survives(g, doc, s, t, q) ==> hung::has_edge(after, s, t, q)
            &&& match content {
                Some(c) => links::has_links(rel) && q == Relation::References && links_to(
                    rel,
                    builder::targets_in(c),
                    builder::paths_in(after.nodes, after.nodes.len() as int),
                    builder::targets_in(c).len() as int,
                    s,
                    t,
                ) ==> hung::has_edge(after, s, t, q),
                None => true,
            }
        }),
{
    let after = builder::with_file(g, rel, content, now);
    let doc = builder::doc_id(rel);
    let put = views::put_node(g, builder::doc_node(rel), now);
    let with = builder::with_doc(g, rel, now);
    let p = views::not_made_from(doc);
    let bare = views::fewer_edges(with, p);
    if survives(g, doc, s, t, q) {
        assert(survives(put, doc, s, t, q));
        if let Some(dir) = links::parent_of(rel) {
            let pid = builder::folder_id(dir);
            lemma_survives(put, pid, doc, Relation::Contains, pid, now, doc, s, t, q);
        }
        let i = choose|i: int|
            0 <= i < with.edges.len() && (#[trigger] with.edges[i]).source == s
                && with.edges[i].target == t && with.edges[i].relation == q
                && with.edges[i].source_id != Some(doc);
        rows::lemma_kept(with.edges, p);
        assert(p(with.edges[i]));
        assert(bare.edges.contains(with.edges[i]));
        let j = choose|j: int| 0 <= j < bare.edges.len() && bare.edges[j] == with.edges[i];
        assert(bare.edges[j].source == s);
        assert(hung::has_edge(bare, s, t, q));
    }
    if let Some(c) = content {
        let ts = builder::targets_in(c);
        let files = builder::paths_in(bare.nodes, bare.nodes.len() as int);
        lemma_targets_linked(bare, rel, ts, files, ts.len() as int, now, s, t, q);
    }
}

} // verus!
