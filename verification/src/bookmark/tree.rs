//! The bookmarks as a tree of folders.

use crate::bookmark::placed;
use crate::bookmark::store;
use crate::bookmark::store::{Bookmark, BookmarkStore, BookmarkV};
use crate::graph::model::clone_opt;
use crate::graph::store::opt_view;
use crate::rows;
use crate::text;
use crate::text::CharClass;
use vstd::multiset::Multiset;
use vstd::prelude::*;

verus! {

/// A folder, which has no address, or a bookmark, which has one and no children.
#[derive(Debug, PartialEq, Eq)]
pub struct BookmarkTreeNode {
    pub title: Option<String>,
    pub url: Option<String>,
    pub added_at: Option<i64>,
    pub summary: Option<String>,
    pub tags: Option<String>,
    pub category: Option<String>,
    pub status: Option<String>,
    pub dead: bool,
    pub children: Vec<BookmarkTreeNode>,
}

#[verifier::ext_equal]
pub struct TreeV {
    pub title: Option<Seq<char>>,
    pub url: Option<Seq<char>>,
    pub added_at: Option<i64>,
    pub summary: Option<Seq<char>>,
    pub tags: Option<Seq<char>>,
    pub category: Option<Seq<char>>,
    pub status: Option<Seq<char>>,
    pub dead: bool,
    pub children: Seq<TreeV>,
}

/// A folder with nothing in it.
pub open spec fn folder_view(title: Seq<char>) -> TreeV {
    TreeV {
        title: Some(title),
        url: None,
        added_at: None,
        summary: None,
        tags: None,
        category: None,
        status: None,
        dead: false,
        children: Seq::empty(),
    }
}

/// What a node and those below it are.
pub open spec fn tree_view(t: BookmarkTreeNode) -> TreeV
    decreases t,
{
    TreeV {
        title: opt_view(t.title),
        url: opt_view(t.url),
        added_at: t.added_at,
        summary: opt_view(t.summary),
        tags: opt_view(t.tags),
        category: opt_view(t.category),
        status: opt_view(t.status),
        dead: t.dead,
        children: Seq::new(
            t.children@.len(),
            |i: int|
                if 0 <= i < t.children@.len() {
                    tree_view(t.children@[i])
                } else {
                    folder_view(Seq::empty())
                },
        ),
    }
}

impl View for BookmarkTreeNode {
    type V = TreeV;

    open spec fn view(&self) -> TreeV {
        tree_view(*self)
    }
}

pub open spec fn children_view(cs: Seq<BookmarkTreeNode>) -> Seq<TreeV> {
    Seq::new(cs.len(), |i: int| cs[i]@)
}

proof fn lemma_children(t: BookmarkTreeNode)
    ensures
        t@.children == children_view(t.children@),
{
    assert(t@.children =~= children_view(t.children@));
}

/// A bookmark in the tree.
pub open spec fn leaf_view(b: BookmarkV) -> TreeV {
    TreeV {
        title: b.title,
        url: Some(b.url),
        added_at: b.added_at,
        summary: b.summary,
        tags: b.tags,
        category: b.category,
        status: Some(b.status),
        dead: b.dead,
        children: Seq::empty(),
    }
}

/// The index of the folder of the name, from `i` on.
pub open spec fn folder_index(cs: Seq<TreeV>, name: Seq<char>, i: int) -> Option<int>
    decreases cs.len() - i,
{
    if i < 0 || i >= cs.len() {
        None
    } else if cs[i].url is None && cs[i].title == Some(name) {
        Some(i)
    } else {
        folder_index(cs, name, i + 1)
    }
}

/// The tree with a bookmark in the folder that the names from the `k`th on lead to; folders
/// that are not there are made.
pub open spec fn with_leaf(t: TreeV, names: Seq<Seq<char>>, k: int, leaf: TreeV) -> TreeV
    decreases names.len() - k,
{
    if k < 0 || k >= names.len() {
        TreeV { children: t.children.push(leaf), ..t }
    } else {
        match folder_index(t.children, names[k], 0) {
            Some(i) => TreeV {
                children: t.children.update(i, with_leaf(t.children[i], names, k + 1, leaf)),
                ..t
            },
            None => TreeV {
                children: t.children.push(with_leaf(folder_view(names[k]), names, k + 1, leaf)),
                ..t
            },
        }
    }
}

pub open spec fn is_name() -> spec_fn(Seq<char>) -> bool {
    |s: Seq<char>| text::trim(s).len() > 0
}

/// The folders that lead to a bookmark.
pub open spec fn folders_of(b: BookmarkV) -> Seq<Seq<char>> {
    let path = match b.browser_folder {
        Some(f) => f,
        None => Seq::empty(),
    };
    rows::kept(text::split_by(path, text::only('/')), is_name())
}

/// The tree of the first `n` bookmarks.
pub open spec fn tree_of(bs: Seq<BookmarkV>, n: int) -> TreeV
    decreases n,
{
    if n <= 0 {
        folder_view("书签栏"@)
    } else {
        with_leaf(tree_of(bs, n - 1), folders_of(bs[n - 1]), 0, leaf_view(bs[n - 1]))
    }
}

impl BookmarkTreeNode {
    fn dir(title: &str) -> (r: Self)
        ensures
            r@ == folder_view(title@),
    {
        let r = BookmarkTreeNode {
            title: Some(title.to_owned()),
            url: None,
            added_at: None,
            summary: None,
            tags: None,
            category: None,
            status: None,
            dead: false,
            children: Vec::new(),
        };
        assert(r@.children =~= Seq::empty());
        r
    }

    fn leaf(b: &Bookmark) -> (r: Self)
        ensures
            r@ == leaf_view(store::bookmark_view(*b)),
    {
        let r = BookmarkTreeNode {
            title: clone_opt(&b.title),
            url: Some(b.url.clone()),
            added_at: b.added_at,
            summary: clone_opt(&b.summary),
            tags: clone_opt(&b.tags),
            category: clone_opt(&b.category),
            status: Some(b.status.clone()),
            dead: b.dead,
            children: Vec::new(),
        };
        assert(r@.children =~= Seq::empty());
        r
    }

    fn find_dir(&self, name: &str) -> (r: Option<usize>)
        ensures
            match r {
                Some(i) => folder_index(self@.children, name@, 0) == Some(i as int) && i
                    < self.children@.len(),
                None => folder_index(self@.children, name@, 0) is None,
            },
    {
        proof {
            lemma_children(*self);
        }
        let mut i: usize = 0;
        while i < self.children.len()
            invariant
                i <= self.children.len(),
                self@.children == children_view(self.children@),
                folder_index(self@.children, name@, 0) == folder_index(
                    self@.children,
                    name@,
                    i as int,
                ),
            decreases self.children.len() - i,
        {
            let c = &self.children[i];
            assert(self@.children[i as int] == c@);
            let named = match &c.title {
                Some(t) => text::str_eq(t, name),
                None => false,
            };
            if c.url.is_none() && named {
                return Some(i);
            }
            i += 1;
        }
        None
    }

    fn put(&mut self, names: &Vec<String>, k: usize, leaf: BookmarkTreeNode)
        ensures
            final(self)@ == with_leaf(old(self)@, text::texts(names@), k as int, leaf@),
        decreases names.len() - k,
    {
        let ghost nv = text::texts(names@);
        let ghost before = *self;
        proof {
            lemma_children(before);
            assert(nv.len() == names@.len());
        }
        if k >= names.len() {
            let ghost lv = leaf@;
            self.children.push(leaf);
            proof {
                lemma_children(*self);
                assert(self@.children =~= before@.children.push(lv));
            }
            return;
        }
        assert(nv[k as int] == names@[k as int]@);
        match self.find_dir(&names[k]) {
            Some(i) => {
                let mut child = self.children.remove(i);
                let ghost was = child@;
                assert(before@.children[i as int] == was);
                child.put(names, k + 1, leaf);
                let ghost now = child@;
                self.children.insert(i, child);
                proof {
                    lemma_children(*self);
                    assert(self@.children =~= before@.children.update(i as int, now));
                }
            },
            None => {
                let mut child = BookmarkTreeNode::dir(&names[k]);
                child.put(names, k + 1, leaf);
                let ghost now = child@;
                self.children.push(child);
                proof {
                    lemma_children(*self);
                    assert(self@.children =~= before@.children.push(now));
                }
            },
        }
    }
}

fn folder_names(b: &Bookmark) -> (r: Vec<String>)
    ensures
        text::texts(r@) == folders_of(store::bookmark_view(*b)),
{
    let parts = match &b.browser_folder {
        Some(f) => text::split_of(f, &CharClass::Only('/')),
        None => {
            let none = String::new();
            assert(none@ =~= Seq::<char>::empty());
            text::split_of(&none, &CharClass::Only('/'))
        },
    };
    let ghost pv = text::texts(parts@);
    let mut out: Vec<String> = Vec::new();
    let mut i: usize = 0;
    assert(text::texts(out@) =~= rows::kept(pv.take(0), is_name()));
    while i < parts.len()
        invariant
            i <= parts.len(),
            pv == text::texts(parts@),
            text::texts(out@) == rows::kept(pv.take(i as int), is_name()),
        decreases parts.len() - i,
    {
        proof {
            assert(pv[i as int] == parts@[i as int]@);
            assert(pv.take(i + 1) == pv.take(i as int).push(pv[i as int]));
            rows::lemma_kept_push(pv.take(i as int), pv[i as int], is_name());
        }
        if text::chars_of(&text::trim_space(&parts[i])).len() > 0 {
            let s = parts[i].clone();
            proof {
                text::lemma_texts_push(out@, s);
            }
            out.push(s);
        }
        i += 1;
    }
    assert(pv.take(i as int) == pv);
    out
}

impl BookmarkStore {
    /// The bookmarks as a tree of folders. All of them are in it.
    pub fn tree(&self) -> (r: BookmarkTreeNode)
        ensures
            r@ == tree_of(self.list_view(), self.list_view().len() as int),
            placed::are_placed(self.list_view(), r@),
    {
        let ghost all = self.list_view();
        let mut root = BookmarkTreeNode::dir("书签栏");
        let mut i: usize = 0;
        while i < self.rows.len()
            invariant
                i <= self.rows.len(),
                all == self.list_view(),
                root@ == tree_of(all, i as int),
            decreases self.rows.len() - i,
        {
            assert(all[i as int] == store::bookmark_view(self.rows@[i as int]));
            let names = folder_names(&self.rows[i]);
            root.put(&names, 0, BookmarkTreeNode::leaf(&self.rows[i]));
            i += 1;
        }
        proof {
            placed::law_bookmarks_stand_in_their_folders(all, all.len() as int);
            assert(all.take(all.len() as int) =~= all);
        }
        root
    }
}

// ---- Everything is in the tree

/// The bookmarks under the first `n` children.
pub open spec fn leaves_under(t: TreeV, n: int) -> Multiset<TreeV>
    decreases t, n,
{
    if n <= 0 || n > t.children.len() {
        Multiset::empty()
    } else {
        let c = t.children[n - 1];
        leaves_under(t, n - 1).add(
            if c.url is Some {
                Multiset::singleton(c)
            } else {
                leaves_under(c, c.children.len() as int)
            },
        )
    }
}

/// All bookmarks of a tree.
pub open spec fn leaves(t: TreeV) -> Multiset<TreeV> {
    leaves_under(t, t.children.len() as int)
}

/// The bookmarks that a child is or has.
pub open spec fn leaves_at(c: TreeV) -> Multiset<TreeV> {
    if c.url is Some {
        Multiset::singleton(c)
    } else {
        leaves(c)
    }
}

/// The first `n` bookmarks as they stand in a tree.
pub open spec fn bag_of(bs: Seq<BookmarkV>, n: int) -> Multiset<TreeV>
    decreases n,
{
    if n <= 0 {
        Multiset::empty()
    } else {
        bag_of(bs, n - 1).insert(leaf_view(bs[n - 1]))
    }
}

proof fn lemma_same_front(a: TreeV, b: TreeV, n: int)
    requires
        0 <= n <= a.children.len(),
        n <= b.children.len(),
        forall|i: int| 0 <= i < n ==> a.children[i] == b.children[i],
    ensures
        leaves_under(a, n) == leaves_under(b, n),
    decreases n,
{
    if n > 0 {
        lemma_same_front(a, b, n - 1);
    }
}

proof fn lemma_leaf_pushed(t: TreeV, c: TreeV, leaf: TreeV)
    requires
        leaves_at(c) == Multiset::singleton(leaf),
    ensures
        leaves(TreeV { children: t.children.push(c), ..t }) == leaves(t).insert(leaf),
{
    let more = TreeV { children: t.children.push(c), ..t };
    let n = t.children.len() as int;
    lemma_same_front(more, t, n);
    assert(more.children[n] == c);
    assert(leaves_under(t, n).add(Multiset::singleton(leaf)) =~= leaves(t).insert(leaf));
}

proof fn lemma_child_grown(t: TreeV, i: int, c: TreeV, leaf: TreeV, n: int)
    requires
        0 <= i < n <= t.children.len(),
        leaves_at(c) == leaves_at(t.children[i]).insert(leaf),
    ensures
        leaves_under(TreeV { children: t.children.update(i, c), ..t }, n) == leaves_under(
            t,
            n,
        ).insert(leaf),
    decreases n,
{
    let more = TreeV { children: t.children.update(i, c), ..t };
    if i == n - 1 {
        lemma_same_front(more, t, n - 1);
        assert(more.children[i] == c);
        assert(leaves_under(t, n - 1).add(leaves_at(t.children[i]).insert(leaf)) =~= leaves_under(
            t,
            n - 1,
        ).add(leaves_at(t.children[i])).insert(leaf));
    } else {
        lemma_child_grown(t, i, c, leaf, n - 1);
        let last = t.children[n - 1];
        assert(more.children[n - 1] == last);
        assert(leaves_under(t, n - 1).insert(leaf).add(leaves_at(last)) =~= leaves_under(
            t,
            n - 1,
        ).add(leaves_at(last)).insert(leaf));
    }
}

proof fn lemma_folder_index(cs: Seq<TreeV>, name: Seq<char>, i: int)
    requires
        0 <= i,
    ensures
        folder_index(cs, name, i) matches Some(k) ==> i <= k < cs.len() && cs[k].url is None,
    decreases cs.len() - i,
{
    if i < cs.len() && !(cs[i].url is None && cs[i].title == Some(name)) {
        lemma_folder_index(cs, name, i + 1);
    }
}

proof fn lemma_leaf_added(t: TreeV, names: Seq<Seq<char>>, k: int, leaf: TreeV)
    requires
        0 <= k,
        leaf.url is Some,
    ensures
        leaves(with_leaf(t, names, k, leaf)) == leaves(t).insert(leaf),
        with_leaf(t, names, k, leaf).url == t.url,
    decreases names.len() - k,
{
    if k >= names.len() {
        lemma_leaf_pushed(t, leaf, leaf);
    } else {
        lemma_folder_index(t.children, names[k], 0);
        match folder_index(t.children, names[k], 0) {
            Some(i) => {
                lemma_leaf_added(t.children[i], names, k + 1, leaf);
                lemma_child_grown(
                    t,
                    i,
                    with_leaf(t.children[i], names, k + 1, leaf),
                    leaf,
                    t.children.len() as int,
                );
            },
            None => {
                let fresh = folder_view(names[k]);
                lemma_leaf_added(fresh, names, k + 1, leaf);
                assert(leaves(fresh) =~= Multiset::empty());
                assert(Multiset::<TreeV>::empty().insert(leaf) =~= Multiset::singleton(leaf));
                lemma_leaf_pushed(t, with_leaf(fresh, names, k + 1, leaf), leaf);
            },
        }
    }
}

/// The tree holds every bookmark, once, and nothing else.
pub proof fn law_the_tree_holds_every_bookmark(bs: Seq<BookmarkV>, n: int)
    requires
        0 <= n <= bs.len(),
    ensures
        leaves(tree_of(bs, n)) == bag_of(bs, n),
    decreases n,
{
    if n > 0 {
        law_the_tree_holds_every_bookmark(bs, n - 1);
        lemma_leaf_added(
            tree_of(bs, n - 1),
            folders_of(bs[n - 1]),
            0,
            leaf_view(bs[n - 1]),
        );
    } else {
        assert(leaves(tree_of(bs, 0)) =~= Multiset::empty());
    }
}

} // verus!
