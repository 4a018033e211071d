//! Where bookmarks stand in the tree, said by following the titles of folders from the root.

use crate::bookmark::store::BookmarkV;
use crate::bookmark::tree;
use crate::bookmark::tree::TreeV;
use crate::rows;
use crate::text;
use vstd::prelude::*;

verus! {

/// The segments of the path of a bookmark's folder that are not blank.
pub open spec fn way_of(b: BookmarkV) -> Seq<Seq<char>> {
    match b.browser_folder {
        Some(f) => text::split_by(f, |c: char| c == '/').filter(
            |s: Seq<char>| exists|i: int| 0 <= i < s.len() && !text::is_space(#[trigger] s[i]),
        ),
        None => Seq::empty(),
    }
}

/// Whether a node is what a bookmark looks like in the tree.
pub open spec fn stands_for(c: TreeV, b: BookmarkV) -> bool {
    &&& c.title == b.title
    &&& c.url == Some(b.url)
    &&& c.added_at == b.added_at
    &&& c.summary == b.summary
    &&& c.tags == b.tags
    &&& c.category == b.category
    &&& c.status == Some(b.status)
    &&& c.dead == b.dead
    &&& c.children.len() == 0
}

pub open spec fn is_folder(t: TreeV, i: int, name: Seq<char>) -> bool {
    0 <= i < t.children.len() && t.children[i].url is None && t.children[i].title == Some(name)
}

/// Whether no folder has two child folders of the same title, here and further down.
pub open spec fn is_tidy(t: TreeV) -> bool
    decreases t,
{
    &&& forall|i: int, j: int|
        0 <= i < j < t.children.len() && (#[trigger] t.children[i]).url is None && (
        #[trigger] t.children[j]).url is None ==> t.children[i].title != t.children[j].title
    &&& forall|i: int| 0 <= i < t.children.len() ==> is_tidy(#[trigger] t.children[i])
}

/// Whether folders of these titles follow each other from here on.
pub open spec fn leads(t: TreeV, way: Seq<Seq<char>>) -> bool
    decreases way.len(),
{
    way.len() == 0 || exists|i: int|
        #[trigger] is_folder(t, i, way[0]) && leads(t.children[i], way.skip(1))
}

/// The bookmarks that stand in the very folder to which the titles lead, in their order.
pub open spec fn held(t: TreeV, way: Seq<Seq<char>>) -> Seq<TreeV>
    decreases way.len(),
{
    if way.len() == 0 {
        t.children.filter(|c: TreeV| c.url is Some)
    } else if exists|i: int| #[trigger] is_folder(t, i, way[0]) {
        held(t.children[choose|i: int| #[trigger] is_folder(t, i, way[0])], way.skip(1))
    } else {
        Seq::empty()
    }
}

/// The bookmarks whose folder the titles lead to.
pub open spec fn of_way(bs: Seq<BookmarkV>, way: Seq<Seq<char>>) -> Seq<BookmarkV> {
    bs.filter(|b: BookmarkV| way_of(b) == way)
}

/// Whether every bookmark stands where the path of its folder says and no folder is doubled:
/// to whichever folder titles lead, the bookmarks in it are those with that path, in order.
pub open spec fn are_placed(bs: Seq<BookmarkV>, t: TreeV) -> bool {
    &&& is_tidy(t)
    &&& forall|k: int| 0 <= k < bs.len() ==> leads(t, way_of(#[trigger] bs[k]))
    &&& forall|way: Seq<Seq<char>>|
        {
            let there = #[trigger] held(t, way);
            let own = of_way(bs, way);
            &&& there.len() == own.len()
            &&& forall|i: int| 0 <= i < own.len() ==> stands_for(#[trigger] there[i], own[i])
        }
    &&& forall|way: Seq<Seq<char>>| #[trigger]
        leads(t, way) && way.len() > 0 ==> exists|k: int|
            0 <= k < bs.len() && way.is_prefix_of(way_of(#[trigger] bs[k]))
}

proof fn lemma_folder_found(cs: Seq<TreeV>, name: Seq<char>, i: int)
    requires
        0 <= i,
    ensures
        match tree::folder_index(cs, name, i) {
            Some(k) => i <= k < cs.len() && cs[k].url is None && cs[k].title == Some(name),
            None => forall|k: int|
                i <= k < cs.len() ==> !((#[trigger] cs[k]).url is None && cs[k].title == Some(
                    name,
                )),
        },
    decreases cs.len() - i,
{
    if i < cs.len() {
        lemma_folder_found(cs, name, i + 1);
    }
}

proof fn lemma_held_at(t: TreeV, way: Seq<Seq<char>>, i: int)
    requires
        is_tidy(t),
        way.len() > 0,
        is_folder(t, i, way[0]),
    ensures
        held(t, way) == held(t.children[i], way.skip(1)),
        leads(t, way) == leads(t.children[i], way.skip(1)),
{
    let j = choose|j: int| #[trigger] is_folder(t, j, way[0]);
    assert(is_folder(t, j, way[0]));
    if i != j {
        assert(t.children[i].title == t.children[j].title);
    }
    if leads(t, way) {
        let k = choose|k: int|
            #[trigger] is_folder(t, k, way[0]) && leads(t.children[k], way.skip(1));
        if i != k {
            assert(t.children[i].title == t.children[k].title);
        }
    }
}

proof fn lemma_leaves_pushed(cs: Seq<TreeV>, c: TreeV)
    ensures
        cs.push(c).filter(|c: TreeV| c.url is Some) == if c.url is Some {
            cs.filter(|c: TreeV| c.url is Some).push(c)
        } else {
            cs.filter(|c: TreeV| c.url is Some)
        },
{
    reveal(Seq::filter);
    assert(cs.push(c).drop_last() =~= cs);
}

proof fn lemma_leaves_kept(cs: Seq<TreeV>, i: int, c: TreeV)
    requires
        0 <= i < cs.len(),
        cs[i].url is None,
        c.url is None,
    ensures
        cs.update(i, c).filter(|c: TreeV| c.url is Some) == cs.filter(|c: TreeV| c.url is Some),
    decreases cs.len(),
{
    reveal(Seq::filter);
    let init = cs.drop_last();
    if i == cs.len() - 1 {
        assert(cs.update(i, c).drop_last() =~= init);
    } else {
        assert(cs.update(i, c).drop_last() =~= init.update(i, c));
        lemma_leaves_kept(init, i, c);
    }
}

/// What a bookmark changes: it stands behind the others in its own folder, and folders are
/// there along its way.
proof fn lemma_one_more(
    t: TreeV,
    names: Seq<Seq<char>>,
    k: int,
    leaf: TreeV,
    way: Seq<Seq<char>>,
)
    requires
        is_tidy(t),
        0 <= k <= names.len(),
        leaf.url is Some,
        leaf.children.len() == 0,
    ensures
        is_tidy(tree::with_leaf(t, names, k, leaf)),
        tree::with_leaf(t, names, k, leaf).url == t.url,
        tree::with_leaf(t, names, k, leaf).title == t.title,
        held(tree::with_leaf(t, names, k, leaf), way) == if way == names.skip(k) {
            held(t, way).push(leaf)
        } else {
            held(t, way)
        },
        leads(tree::with_leaf(t, names, k, leaf), way) <==> leads(t, way) || way.is_prefix_of(
            names.skip(k),
        ),
    decreases names.len() - k,
{
    let t2 = tree::with_leaf(t, names, k, leaf);
    if k >= names.len() {
        assert(names.skip(k) =~= Seq::empty());
        assert(is_tidy(leaf));
        assert forall|i: int| 0 <= i < t2.children.len() implies is_tidy(
            #[trigger] t2.children[i],
        ) by {
            if i < t.children.len() {
                assert(t2.children[i] == t.children[i]);
            }
        }
        assert(is_tidy(t2)) by {
            assert forall|i: int, j: int|
                0 <= i < j < t2.children.len() && (#[trigger] t2.children[i]).url is None && (
                #[trigger] t2.children[j]).url is None implies t2.children[i].title
                != t2.children[j].title by {
                assert(t2.children[i] == t.children[i] && t2.children[j] == t.children[j]);
            }
        }
        if way.len() == 0 {
            assert(way =~= names.skip(k));
            lemma_leaves_pushed(t.children, leaf);
        } else {
            lemma_same_folders(t, t2, way);
        }
    } else {
        lemma_folder_found(t.children, names[k], 0);
        let rest = names.skip(k);
        assert(rest[0] == names[k]);
        assert(rest.skip(1) =~= names.skip(k + 1));
        match tree::folder_index(t.children, names[k], 0) {
            Some(i) => {
                let sub = t.children[i];
                let sub2 = tree::with_leaf(sub, names, k + 1, leaf);
                assert(is_tidy(sub));
                lemma_one_more(sub, names, k + 1, leaf, way.skip(1));
                assert(t2.children[i] == sub2);
                lemma_tidy_grown(t, i, sub2);
                if way.len() == 0 {
                    lemma_leaves_kept(t.children, i, sub2);
                } else if way[0] == names[k] {
                    assert(is_folder(t, i, way[0]));
                    assert(is_folder(t2, i, way[0]));
                    lemma_held_at(t, way, i);
                    lemma_held_at(t2, way, i);
                    lemma_way_tail(way, rest);
                } else {
                    assert forall|j: int| #[trigger] is_folder(t, j, way[0]) implies is_folder(
                        t2,
                        j,
                        way[0],
                    ) && t2.children[j] == t.children[j] by {}
                    assert forall|j: int| #[trigger] is_folder(t2, j, way[0]) implies is_folder(
                        t,
                        j,
                        way[0],
                    ) && t2.children[j] == t.children[j] by {}
                    lemma_way_apart(t, t2, way);
                }
            },
            None => {
                let fresh = tree::folder_view(names[k]);
                let sub2 = tree::with_leaf(fresh, names, k + 1, leaf);
                assert(is_tidy(fresh));
                lemma_one_more(fresh, names, k + 1, leaf, way.skip(1));
                let n = t.children.len() as int;
                assert(t2.children[n] == sub2);
                lemma_tidy_pushed(t, sub2, names[k]);
                if way.len() == 0 {
                    lemma_leaves_pushed(t.children, sub2);
                } else if way[0] == names[k] {
                    assert forall|j: int| !(#[trigger] is_folder(t, j, way[0])) by {}
                    assert(is_folder(t2, n, way[0]));
                    lemma_held_at(t2, way, n);
                    lemma_way_tail(way, rest);
                    lemma_fresh_is_bare(fresh, way.skip(1));
                } else {
                    lemma_way_apart(t, t2, way);
                }
            },
        }
    }
}

proof fn lemma_fresh_is_bare(t: TreeV, way: Seq<Seq<char>>)
    requires
        t.children.len() == 0,
    ensures
        held(t, way) == Seq::<TreeV>::empty(),
        leads(t, way) <==> way.len() == 0,
{
    reveal(Seq::filter);
}

proof fn lemma_way_tail(way: Seq<Seq<char>>, rest: Seq<Seq<char>>)
    requires
        way.len() > 0,
        rest.len() > 0,
        way[0] == rest[0],
    ensures
        way == rest <==> way.skip(1) == rest.skip(1),
        way.is_prefix_of(rest) <==> way.skip(1).is_prefix_of(rest.skip(1)),
{
    if way.skip(1) == rest.skip(1) {
        assert forall|i: int| 0 <= i < way.len() implies way[i] == rest[i] by {
            if i > 0 {
                assert(way.skip(1)[i - 1] == rest.skip(1)[i - 1]);
            }
        }
        assert(way.len() == way.skip(1).len() + 1 && rest.len() == rest.skip(1).len() + 1);
        assert(way =~= rest);
    }
    if way.is_prefix_of(rest) {
        assert(way.skip(1) =~= rest.skip(1).subrange(0, way.len() - 1)) by {
            assert forall|i: int| 0 <= i < way.len() - 1 implies way.skip(1)[i] == rest.skip(
                1,
            )[i] by {
                assert(way[i + 1] == rest.subrange(0, way.len() as int)[i + 1]);
            }
        }
    }
    if way.skip(1).is_prefix_of(rest.skip(1)) {
        assert(way =~= rest.subrange(0, way.len() as int)) by {
            assert forall|i: int| 0 <= i < way.len() implies way[i] == rest[i] by {
                if i > 0 {
                    assert(way.skip(1)[i - 1] == rest.skip(1).subrange(0, way.len() - 1)[i - 1]);
                }
            }
        }
    }
}

proof fn lemma_same_folders(t: TreeV, t2: TreeV, way: Seq<Seq<char>>)
    requires
        is_tidy(t),
        is_tidy(t2),
        way.len() > 0,
        t.children.len() <= t2.children.len(),
        forall|i: int| 0 <= i < t.children.len() ==> t2.children[i] == #[trigger] t.children[i],
        forall|i: int|
            t.children.len() <= i < t2.children.len() ==> !((#[trigger] t2.children[i]).url is None
                && t2.children[i].title == Some(way[0])),
    ensures
        held(t2, way) == held(t, way),
        leads(t2, way) == leads(t, way),
{
    lemma_way_apart_at(t, t2, way);
}

/// Where the child folders of a title are the same, so is what the titles lead to.
proof fn lemma_way_apart_at(t: TreeV, t2: TreeV, way: Seq<Seq<char>>)
    requires
        is_tidy(t),
        is_tidy(t2),
        way.len() > 0,
        forall|j: int| #[trigger]
            is_folder(t, j, way[0]) ==> is_folder(t2, j, way[0]) && t2.children[j]
                == t.children[j],
        forall|j: int| #[trigger]
            is_folder(t2, j, way[0]) ==> is_folder(t, j, way[0]) && t2.children[j]
                == t.children[j],
    ensures
        held(t2, way) == held(t, way),
        leads(t2, way) == leads(t, way),
{
    if exists|j: int| #[trigger] is_folder(t, j, way[0]) {
        let j = choose|j: int| #[trigger] is_folder(t, j, way[0]);
        lemma_held_at(t, way, j);
        lemma_held_at(t2, way, j);
    }
}

proof fn lemma_way_apart(t: TreeV, t2: TreeV, way: Seq<Seq<char>>)
    requires
        is_tidy(t),
        is_tidy(t2),
        way.len() > 0,
        t.children.len() <= t2.children.len(),
        forall|i: int|
            #![trigger t2.children[i]]
            0 <= i < t2.children.len() ==> (i < t.children.len() && t2.children[i]
                == t.children[i]) || ((i < t.children.len() ==> !(t.children[i].url is None
                && t.children[i].title == Some(way[0]))) && !(t2.children[i].url is None
                && t2.children[i].title == Some(way[0]))),
    ensures
        held(t2, way) == held(t, way),
        leads(t2, way) == leads(t, way),
{
    assert forall|j: int| #[trigger] is_folder(t, j, way[0]) implies is_folder(t2, j, way[0])
        && t2.children[j] == t.children[j] by {
        let c = t2.children[j];
    }
    assert forall|j: int| #[trigger] is_folder(t2, j, way[0]) implies is_folder(t, j, way[0])
        && t2.children[j] == t.children[j] by {
        let c = t2.children[j];
    }
    lemma_way_apart_at(t, t2, way);
}

proof fn lemma_tidy_grown(t: TreeV, i: int, c: TreeV)
    requires
        is_tidy(t),
        is_tidy(c),
        0 <= i < t.children.len(),
        c.url == t.children[i].url,
        c.title == t.children[i].title,
    ensures
        is_tidy(TreeV { children: t.children.update(i, c), ..t }),
{
    let t2 = TreeV { children: t.children.update(i, c), ..t };
    assert forall|a: int, b: int|
        0 <= a < b < t2.children.len() && (#[trigger] t2.children[a]).url is None && (
        #[trigger] t2.children[b]).url is None implies t2.children[a].title
        != t2.children[b].title by {
        let x = t.children[a];
        let y = t.children[b];
    }
    assert forall|a: int| 0 <= a < t2.children.len() implies is_tidy(#[trigger] t2.children[a]) by {
        if a != i {
            assert(is_tidy(t.children[a]));
        }
    }
}

proof fn lemma_tidy_pushed(t: TreeV, c: TreeV, name: Seq<char>)
    requires
        is_tidy(t),
        is_tidy(c),
        c.title == Some(name),
        forall|k: int|
            0 <= k < t.children.len() ==> !((#[trigger] t.children[k]).url is None
                && t.children[k].title == Some(name)),
    ensures
        is_tidy(TreeV { children: t.children.push(c), ..t }),
{
    let t2 = TreeV { children: t.children.push(c), ..t };
    assert forall|a: int, b: int|
        0 <= a < b < t2.children.len() && (#[trigger] t2.children[a]).url is None && (
        #[trigger] t2.children[b]).url is None implies t2.children[a].title
        != t2.children[b].title by {
        let x = t.children[a];
        if b < t.children.len() {
            let y = t.children[b];
        }
    }
    assert forall|a: int| 0 <= a < t2.children.len() implies is_tidy(#[trigger] t2.children[a]) by {
        if a < t.children.len() {
            assert(is_tidy(t.children[a]));
        }
    }
}

/// The folders of a bookmark are the segments of its path that are not blank.
proof fn lemma_way(b: BookmarkV)
    ensures
        tree::folders_of(b) == way_of(b),
{
    let p = |s: Seq<char>| exists|i: int| 0 <= i < s.len() && !text::is_space(#[trigger] s[i]);
    let path = match b.browser_folder {
        Some(f) => f,
        None => Seq::empty(),
    };
    assert forall|s: Seq<char>| #[trigger] p(s) == (tree::is_name())(s) by {
        text::lemma_blank(s);
    }
    assert(p =~= tree::is_name());
    assert((|c: char| c == '/') =~= text::only('/'));
    rows::lemma_kept_is_filter(text::split_by(path, text::only('/')), tree::is_name());
    if b.browser_folder is None {
        reveal_with_fuel(Seq::filter, 3);
        let one = text::split_by(path, text::only('/'));
        assert(one =~= seq![Seq::<char>::empty()]);
        assert(one.drop_last().len() == 0);
        assert(!p(one.last()));
        assert(one.filter(p) =~= Seq::empty());
    }
}

/// Every bookmark stands in the folder that the path of its folder names, segment by segment
/// and blank ones left out, and nowhere else; no folder has two child folders of one title.
pub proof fn law_bookmarks_stand_in_their_folders(bs: Seq<BookmarkV>, n: int)
    requires
        0 <= n <= bs.len(),
    ensures
        are_placed(bs.take(n), tree::tree_of(bs, n)),
    decreases n,
{
    let t2 = tree::tree_of(bs, n);
    let some = bs.take(n);
    if n == 0 {
        assert forall|way: Seq<Seq<char>>| (#[trigger] held(t2, way)).len() == of_way(
            some,
            way,
        ).len() by {
            lemma_fresh_is_bare(t2, way);
            reveal(Seq::filter);
        }
        assert forall|way: Seq<Seq<char>>| #[trigger]
            leads(t2, way) && way.len() > 0 implies exists|k: int|
            0 <= k < some.len() && way.is_prefix_of(way_of(#[trigger] some[k])) by {
            lemma_fresh_is_bare(t2, way);
        }
    } else {
        law_bookmarks_stand_in_their_folders(bs, n - 1);
        let t = tree::tree_of(bs, n - 1);
        let fewer = bs.take(n - 1);
        let b = bs[n - 1];
        let names = tree::folders_of(b);
        let leaf = tree::leaf_view(b);
        assert(names.skip(0) =~= names);
        assert(some =~= fewer.push(b));
        lemma_way(b);
        lemma_one_more(t, names, 0, leaf, names);
        assert forall|k: int| 0 <= k < some.len() implies leads(t2, way_of(#[trigger] some[k])) by {
            let way = way_of(some[k]);
            lemma_one_more(t, names, 0, leaf, way);
            if k < n - 1 {
                assert(some[k] == fewer[k]);
                assert(leads(t, way_of(fewer[k])));
            } else {
                assert(way.is_prefix_of(names)) by {
                    assert(way =~= names.subrange(0, way.len() as int));
                }
            }
        }
        assert forall|way: Seq<Seq<char>>|
            {
                let there = #[trigger] held(t2, way);
                let own = of_way(some, way);
                &&& there.len() == own.len()
                &&& forall|i: int| 0 <= i < own.len() ==> stands_for(#[trigger] there[i], own[i])
            } by {
            lemma_one_more(t, names, 0, leaf, way);
            reveal(Seq::filter);
            assert(some.drop_last() =~= fewer);
            let before = held(t, way);
            let mine = of_way(fewer, way);
            assert(before.len() == mine.len());
            if way == names {
                assert(of_way(some, way) == mine.push(b));
                assert(stands_for(leaf, b));
            } else {
                assert(of_way(some, way) == mine);
            }
        }
        assert forall|way: Seq<Seq<char>>| #[trigger]
            leads(t2, way) && way.len() > 0 implies exists|k: int|
            0 <= k < some.len() && way.is_prefix_of(way_of(#[trigger] some[k])) by {
            lemma_one_more(t, names, 0, leaf, way);
            if leads(t, way) {
                let k = choose|k: int|
                    0 <= k < fewer.len() && way.is_prefix_of(way_of(#[trigger] fewer[k]));
                assert(some[k] == fewer[k]);
            } else {
                assert(some[n - 1] == b);
            }
        }
    }
}

} // verus!
