//! What becomes of an entity that comes under many names.

use crate::graph::hung;
use crate::graph::merger;
use crate::graph::merger::{AliasV, MergeV};
use crate::graph::model::{NodeType, Relation};
use crate::graph::views;
use crate::graph::views::{GraphV, NodeV};
use crate::rows;
use crate::text;
use vstd::prelude::*;

verus! {

/// Whether an entity comes under the name: it is its own or one of the others, as names are
/// known, and is not empty.
pub open spec fn is_name_of(x: Seq<char>, name: Seq<char>, aliases: Seq<Seq<char>>) -> bool {
    ||| x == merger::canonical(name)
    ||| x.len() > 0 && exists|j: int|
        0 <= j < aliases.len() && merger::canonical(#[trigger] aliases[j]) == x
}

proof fn lemma_more_names(aliases: Seq<Seq<char>>, n: int, x: Seq<char>)
    requires
        0 <= n <= aliases.len(),
    ensures
        merger::more_names(aliases, n).contains(x) <==> x.len() > 0 && exists|j: int|
            0 <= j < n && merger::canonical(#[trigger] aliases[j]) == x,
    decreases n,
{
    if n > 0 {
        let before = merger::more_names(aliases, n - 1);
        let all = merger::more_names(aliases, n);
        lemma_more_names(aliases, n - 1, x);
        if before.contains(x) {
            let k = choose|k: int| 0 <= k < before.len() && before[k] == x;
            assert(all[k] == x);
        }
        if all.contains(x) {
            let k = choose|k: int| 0 <= k < all.len() && all[k] == x;
            if k < before.len() {
                assert(before[k] == x);
            } else {
                assert(merger::canonical(aliases[n - 1]) == x);
            }
        }
        if x.len() > 0 && merger::canonical(aliases[n - 1]) == x {
            assert(all[all.len() - 1] == x);
        }
    }
}

/// The names under which an entity comes are those that are names of it.
pub proof fn lemma_names(name: Seq<char>, aliases: Seq<Seq<char>>, x: Seq<char>)
    ensures
        merger::names_of(name, aliases).contains(x) <==> is_name_of(x, name, aliases),
        merger::names_of(name, aliases).len() > 0,
        merger::names_of(name, aliases)[0] == merger::canonical(name),
{
    let names = merger::names_of(name, aliases);
    let more = merger::more_names(aliases, aliases.len() as int);
    lemma_more_names(aliases, aliases.len() as int, x);
    assert(names[0] == merger::canonical(name));
    if more.contains(x) {
        let k = choose|k: int| 0 <= k < more.len() && more[k] == x;
        assert(names[k + 1] == x);
    }
    if names.contains(x) {
        let k = choose|k: int| 0 <= k < names.len() && names[k] == x;
        if k > 0 {
            assert(more[k - 1] == x);
        }
    }
}

/// Whether the index says that the name means the entity.
pub open spec fn means(index: Seq<AliasV>, x: Seq<char>, id: Seq<char>) -> bool {
    exists|i: int|
        0 <= i < index.len() && (#[trigger] index[i]).alias == x && index[i].id == id && forall|j: int|
            0 <= j < i ==> (#[trigger] index[j]).alias != x
}

/// Whether the index knows the name.
pub open spec fn is_known(index: Seq<AliasV>, x: Seq<char>) -> bool {
    exists|i: int| 0 <= i < index.len() && (#[trigger] index[i]).alias == x
}

proof fn lemma_meaning(index: Seq<AliasV>, x: Seq<char>)
    ensures
        forall|id: Seq<char>|
            #![trigger means(index, x, id)]
            means(index, x, id) <==> merger::meant(index, x) == Some(id),
        is_known(index, x) <==> merger::meant(index, x) is Some,
{
    rows::lemma_row_index(index, merger::alias_key(), x, 0);
    match rows::row_index(index, merger::alias_key(), x, 0) {
        Some(i) => {
            assert(index[i].alias == x);
            assert(means(index, x, index[i].id)) by {
                assert forall|j: int| 0 <= j < i implies (#[trigger] index[j]).alias != x by {
                    assert(merger::alias_key()(index[j]) != x);
                }
            }
            assert forall|id: Seq<char>| means(index, x, id) implies merger::meant(index, x) == Some(
                id,
            ) by {
                let k = choose|k: int|
                    0 <= k < index.len() && (#[trigger] index[k]).alias == x && index[k].id == id
                        && forall|j: int| 0 <= j < k ==> (#[trigger] index[j]).alias != x;
                if k < i {
                    assert(merger::alias_key()(index[k]) != x);
                }
                if i < k {
                    assert(index[i].alias != x);
                }
            }
        },
        None => {
            assert forall|j: int| 0 <= j < index.len() implies (#[trigger] index[j]).alias != x by {
                assert(merger::alias_key()(index[j]) != x);
            }
        },
    }
}

proof fn lemma_with_aliases(
    index: Seq<AliasV>,
    names: Seq<Seq<char>>,
    id: Seq<char>,
    n: int,
    x: Seq<char>,
)
    requires
        0 <= n <= names.len(),
    ensures
        merger::meant(merger::with_aliases(index, names, id, n), x) == if names.take(n).contains(x) {
            Some(id)
        } else {
            merger::meant(index, x)
        },
    decreases n,
{
    if n > 0 {
        let before = merger::with_aliases(index, names, id, n - 1);
        let after = merger::with_aliases(index, names, id, n);
        let a = names[n - 1];
        lemma_with_aliases(index, names, id, n - 1, x);
        rows::lemma_row_index(before, merger::alias_key(), a, 0);
        rows::lemma_row_index(before, merger::alias_key(), x, 0);
        rows::lemma_row_index(after, merger::alias_key(), x, 0);
        let key = merger::alias_key();
        let at: int = match rows::row_index(before, key, a, 0) {
            Some(i) => i,
            None => before.len() as int,
        };
        assert(after[at] == (AliasV { alias: a, id }));
        assert forall|k: int| 0 <= k < before.len() && k != at implies after[k] == before[k] by {}
        let front = names.take(n - 1);
        let whole = names.take(n);
        assert(whole[n - 1] == a);
        if front.contains(x) {
            let k = choose|k: int| 0 <= k < front.len() && front[k] == x;
            assert(whole[k] == x);
        }
        if whole.contains(x) && x != a {
            let k = choose|k: int| 0 <= k < whole.len() && whole[k] == x;
            assert(front[k] == x);
        }
        if x == a {
            assert(key(after[at]) == x);
            match rows::row_index(after, key, x, 0) {
                Some(i) => {
                    if i < at {
                        assert(key(before[i]) == x);
                    }
                },
                None => {},
            }
        } else {
            match rows::row_index(before, key, x, 0) {
                Some(i) => {
                    assert(i != at);
                    assert(key(after[i]) == x);
                    match rows::row_index(after, key, x, 0) {
                        Some(k) => {
                            if k < i {
                                assert(k != at);
                                assert(key(before[k]) == x);
                            }
                        },
                        None => {},
                    }
                },
                None => {
                    match rows::row_index(after, key, x, 0) {
                        Some(k) => {
                            assert(k != at);
                            assert(key(before[k]) == x);
                        },
                        None => {},
                    }
                },
            }
        }
    }
}

/// Whether a node has the id.
pub open spec fn is_there(g: GraphV, id: Seq<char>) -> bool {
    exists|i: int| 0 <= i < g.nodes.len() && (#[trigger] g.nodes[i]).id == id
}

proof fn lemma_there(g: GraphV, id: Seq<char>)
    ensures
        views::has_node(g, id) <==> is_there(g, id),
{
    rows::lemma_row_index(g.nodes, views::nv_key(), id, 0);
    match views::find_node(g.nodes, id) {
        Some(i) => {
            assert(g.nodes[i].id == id);
        },
        None => {
            assert forall|i: int| 0 <= i < g.nodes.len() implies (#[trigger] g.nodes[i]).id != id by {
                assert(views::nv_key()(g.nodes[i]) != id);
            }
        },
    }
}

/// Whether an entity under one of the names may stand apart under the id.
pub open spec fn is_other(other: Seq<char>, names: Seq<Seq<char>>, id: Seq<char>) -> bool {
    other != id && exists|k: int| 0 <= k < names.len() && merger::entity_id(#[trigger] names[k]) == other
}

proof fn lemma_merged(g: GraphV, names: Seq<Seq<char>>, id: Seq<char>, n: int, now: i64)
    requires
        0 <= n <= names.len(),
    ensures
        ({
            let r = merger::merged_names(g, names, id, n, now);
            &&& forall|x: NodeV|
                #![trigger r.nodes.contains(x)]
                r.nodes.contains(x) <==> g.nodes.contains(x) && !is_other(x.id, names.take(n), id)
        }),
    decreases n,
{
    let r = merger::merged_names(g, names, id, n, now);
    if n > 0 {
        let before = merger::merged_names(g, names, id, n - 1, now);
        let other = merger::entity_id(names[n - 1]);
        lemma_merged(g, names, id, n - 1, now);
        lemma_there(before, other);
        rows::lemma_kept(before.nodes, views::not_node(other));
        let front = names.take(n - 1);
        let whole = names.take(n);
        assert(whole[n - 1] == names[n - 1]);
        assert forall|o: Seq<char>| #[trigger]
            is_other(o, whole, id) == (is_other(o, front, id) || (o == other && o != id)) by {
            if is_other(o, front, id) {
                let k = choose|k: int|
                    0 <= k < front.len() && merger::entity_id(#[trigger] front[k]) == o;
                assert(merger::entity_id(whole[k]) == o);
            }
            if is_other(o, whole, id) && o != other {
                let k = choose|k: int|
                    0 <= k < whole.len() && merger::entity_id(#[trigger] whole[k]) == o;
                assert(merger::entity_id(front[k]) == o);
            }
        }
        assert forall|x: NodeV|
            #![trigger r.nodes.contains(x)]
            r.nodes.contains(x) <==> before.nodes.contains(x) && !(x.id == other && x.id != id) by {
            if other != id && views::has_node(before, other) {
                if r.nodes.contains(x) {
                    let k = choose|k: int| 0 <= k < r.nodes.len() && r.nodes[k] == x;
                    assert(views::not_node(other)(r.nodes[k]));
                }
                if before.nodes.contains(x) && x.id != other {
                    let k = choose|k: int| 0 <= k < before.nodes.len() && before.nodes[k] == x;
                    assert(views::not_node(other)(before.nodes[k]));
                }
            } else if before.nodes.contains(x) {
                let k = choose|k: int| 0 <= k < before.nodes.len() && before.nodes[k] == x;
                assert(before.nodes[k].id == x.id);
            }
        }
    }
}

/// An entity that comes stands in the graph under one id. From then on each of its names
/// means it, and other names mean what they meant; no entity stands apart under one of its
/// names; it keeps the name that it was first shown with; it hangs at the document that it
/// comes from; and all other nodes stay as they were.
#[verifier::rlimit(40)]
pub proof fn law_an_entity_is_one_under_all_its_names(
    m: MergeV,
    name: Seq<char>,
    aliases: Seq<Seq<char>>,
    doc: Option<Seq<char>>,
    now: i64,
    x: Seq<char>,
)
    requires
        merger::canonical(name).len() > 0,
        rows::unique(m.g.nodes, views::nv_key()),
    ensures
        ({
            let id = merger::entity_of(
                merger::known_entity(m.g, m.index, merger::names_of(name, aliases)),
                name,
            );
            let r = merger::entity_step(m, name, aliases, doc, now);
            &&& is_name_of(x, name, aliases) ==> means(r.index, x, id)
            &&& is_name_of(x, name, aliases) && "entity:"@ + x != id ==> !is_there(
                r.g,
                "entity:"@ + x,
            )
            &&& !is_name_of(x, name, aliases) ==> forall|o: Seq<char>| #[trigger]
                means(r.index, x, o) <==> means(m.index, x, o)
            &&& exists|i: int|
                0 <= i < r.g.nodes.len() && (#[trigger] r.g.nodes[i]).id == id
                    && r.g.nodes[i].node_type == NodeType::Entity && (if is_there(m.g, id) {
                    exists|j: int|
                        0 <= j < m.g.nodes.len() && (#[trigger] m.g.nodes[j]).id == id
                            && m.g.nodes[j].name == r.g.nodes[i].name
                } else {
                    r.g.nodes[i].name == if merger::known_entity(
                        m.g,
                        m.index,
                        merger::names_of(name, aliases),
                    ) is Some {
                        name
                    } else {
                        text::trim(name)
                    }
                })
            &&& doc matches Some(d) ==> hung::has_edge(r.g, id, d, Relation::DerivedFrom)
            &&& forall|n: NodeV|
                n.id != id && !is_other(n.id, merger::names_of(name, aliases), id) ==> (
                #[trigger] r.g.nodes.contains(n) <==> m.g.nodes.contains(n))
        }),
{
    let names = merger::names_of(name, aliases);
    let known = merger::known_entity(m.g, m.index, names);
    let id = merger::entity_of(known, name);
    let r = merger::entity_step(m, name, aliases, doc, now);
    lemma_names(name, aliases, x);
    assert(names.take(names.len() as int) == names);
    lemma_with_aliases(m.index, names, id, names.len() as int, x);
    lemma_meaning(m.index, x);
    lemma_meaning(r.index, x);
    let node = match known {
        Some(k) => merger::grown_entity(m.g, k, name, names),
        None => merger::new_entity(name, names),
    };
    assert(node.id == id);
    let put = views::put_node(m.g, node, now);
    let all = match known {
        Some(_) => merger::merged_names(put, names, id, names.len() as int, now),
        None => put,
    };
    if let Some(d) = doc {
        hung::lemma_put_edge(
            all,
            id,
            d,
            Relation::DerivedFrom,
            crate::graph::model::WHOLE,
            crate::graph::model::WHOLE,
            Some(d),
            now,
            id,
            d,
            Relation::DerivedFrom,
        );
    }
    assert(r.g.nodes == all.nodes);
    rows::lemma_row_index(m.g.nodes, views::nv_key(), id, 0);
    lemma_there(m.g, id);
    let at: int = match views::find_node(m.g.nodes, id) {
        Some(i) => i,
        None => m.g.nodes.len() as int,
    };
    let mine = put.nodes[at];
    assert(mine.id == id && mine.node_type == NodeType::Entity);
    assert(put.nodes.contains(mine));
    if is_there(m.g, id) {
        if known is None {
            lemma_not_known(m.g, names, 0);
            assert(names[0] == merger::canonical(name));
        }
        assert(m.g.nodes[at].id == id && m.g.nodes[at].name == mine.name);
    }
    assert forall|n: NodeV| n.id != id implies (#[trigger] put.nodes.contains(n)
        <==> m.g.nodes.contains(n)) by {
        if put.nodes.contains(n) {
            let k = choose|k: int| 0 <= k < put.nodes.len() && put.nodes[k] == n;
            assert(k != at);
            assert(m.g.nodes[k] == n);
        }
        if m.g.nodes.contains(n) {
            let k = choose|k: int| 0 <= k < m.g.nodes.len() && m.g.nodes[k] == n;
            if k == at {
                assert(views::nv_key()(m.g.nodes[at]) == id);
            }
            assert(put.nodes[k] == n);
        }
    }
    if known is Some {
        lemma_merged(put, names, id, names.len() as int, now);
    } else {
        lemma_not_known(m.g, names, 0);
    }
    assert(all.nodes.contains(mine));
    let i = choose|i: int| 0 <= i < all.nodes.len() && all.nodes[i] == mine;
    assert(r.g.nodes[i] == mine);
    if is_name_of(x, name, aliases) && merger::entity_id(x) != id && is_there(r.g, merger::entity_id(x)) {
        let j = choose|j: int|
            0 <= j < r.g.nodes.len() && (#[trigger] r.g.nodes[j]).id == merger::entity_id(x);
        let k = choose|k: int| 0 <= k < names.len() && names[k] == x;
        assert(merger::entity_id(names[k]) == merger::entity_id(x));
        assert(is_other(merger::entity_id(x), names, id));
        assert(r.g.nodes.contains(r.g.nodes[j]));
        if known is None {
            assert(put.nodes.contains(r.g.nodes[j]));
            let y = choose|y: int| 0 <= y < m.g.nodes.len() && m.g.nodes[y] == r.g.nodes[j];
            assert(m.g.nodes[y].id == merger::entity_id(names[k]));
            lemma_there(m.g, merger::entity_id(names[k]));
        }
    }
}

/// The name of an entity that comes means it, and it hangs at its document.
pub proof fn lemma_takes_its_names(
    m: MergeV,
    name: Seq<char>,
    aliases: Seq<Seq<char>>,
    doc: Option<Seq<char>>,
    now: i64,
)
    requires
        merger::canonical(name).len() > 0,
    ensures
        ({
            let id = merger::entity_of(
                merger::known_entity(m.g, m.index, merger::names_of(name, aliases)),
                name,
            );
            let r = merger::entity_step(m, name, aliases, doc, now);
            &&& means(r.index, merger::canonical(name), id)
            &&& doc matches Some(d) ==> hung::has_edge(r.g, id, d, Relation::DerivedFrom)
        }),
{
    let names = merger::names_of(name, aliases);
    let known = merger::known_entity(m.g, m.index, names);
    let id = merger::entity_of(known, name);
    let r = merger::entity_step(m, name, aliases, doc, now);
    let x = merger::canonical(name);
    lemma_names(name, aliases, x);
    assert(names.take(names.len() as int) == names);
    lemma_with_aliases(m.index, names, id, names.len() as int, x);
    lemma_meaning(r.index, x);
    if let Some(d) = doc {
        let all = match known {
            Some(k) => merger::merged_names(
                views::put_node(m.g, merger::grown_entity(m.g, k, name, names), now),
                names,
                k,
                names.len() as int,
                now,
            ),
            None => views::put_node(m.g, merger::new_entity(name, names), now),
        };
        hung::lemma_put_edge(
            all,
            id,
            d,
            Relation::DerivedFrom,
            crate::graph::model::WHOLE,
            crate::graph::model::WHOLE,
            Some(d),
            now,
            id,
            d,
            Relation::DerivedFrom,
        );
    }
}

/// Where no name is the id of an entity, none is there.
proof fn lemma_not_known(g: GraphV, names: Seq<Seq<char>>, i: int)
    requires
        0 <= i,
    ensures
        merger::first_known(g, names, i) is None ==> forall|k: int|
            i <= k < names.len() ==> !views::has_node(g, merger::entity_id(#[trigger] names[k])),
        match merger::first_known(g, names, i) {
            Some(id) => exists|k: int|
                i <= k < names.len() && merger::entity_id(#[trigger] names[k]) == id && is_there(g, id)
                    && forall|j: int|
                    i <= j < k ==> !is_there(g, merger::entity_id(#[trigger] names[j])),
            None => true,
        },
    decreases names.len() - i,
{
    if i < names.len() {
        lemma_there(g, merger::entity_id(names[i]));
        if !views::has_node(g, merger::entity_id(names[i])) {
            lemma_not_known(g, names, i + 1);
            if let Some(id) = merger::first_known(g, names, i + 1) {
                let k = choose|k: int|
                    i + 1 <= k < names.len() && merger::entity_id(#[trigger] names[k]) == id && is_there(
                        g,
                        id,
                    ) && forall|j: int|
                        i + 1 <= j < k ==> !is_there(g, merger::entity_id(#[trigger] names[j]));
                assert(merger::entity_id(names[k]) == id);
            }
        } else {
            assert(merger::entity_id(names[i]) == merger::first_known(g, names, i)->0);
        }
    }
}

proof fn lemma_first_meant(index: Seq<AliasV>, names: Seq<Seq<char>>, i: int)
    requires
        0 <= i,
    ensures
        match merger::first_meant(index, names, i) {
            Some(id) => exists|k: int|
                i <= k < names.len() && means(index, #[trigger] names[k], id) && forall|j: int|
                    i <= j < k ==> !is_known(index, #[trigger] names[j]),
            None => forall|k: int| i <= k < names.len() ==> !is_known(index, #[trigger] names[k]),
        },
    decreases names.len() - i,
{
    if i < names.len() {
        lemma_meaning(index, names[i]);
        if merger::meant(index, names[i]) is Some {
            assert(means(index, names[i], merger::meant(index, names[i])->0));
        } else {
            lemma_first_meant(index, names, i + 1);
            if let Some(id) = merger::first_meant(index, names, i + 1) {
                let k = choose|k: int|
                    i + 1 <= k < names.len() && means(index, #[trigger] names[k], id) && forall|j: int|
                        i + 1 <= j < k ==> !is_known(index, #[trigger] names[j]);
                assert(means(index, names[k], id));
            }
        }
    }
}

/// An entity that comes is the one that the first of its names that means one means; where
/// none does, the one that stands under the first of its names under which one stands; else
/// one that is shown under its name; and else a new one under its own name.
pub proof fn law_an_entity_is_known_by_its_names(
    g: GraphV,
    index: Seq<AliasV>,
    name: Seq<char>,
    aliases: Seq<Seq<char>>,
)
    ensures
        ({
            let names = merger::names_of(name, aliases);
            let id = merger::entity_of(merger::known_entity(g, index, names), name);
            if exists|k: int| 0 <= k < names.len() && is_known(index, #[trigger] names[k]) {
                exists|k: int|
                    0 <= k < names.len() && means(index, #[trigger] names[k], id) && forall|j: int|
                        0 <= j < k ==> !is_known(index, #[trigger] names[j])
            } else if exists|k: int|
                0 <= k < names.len() && is_there(g, "entity:"@ + #[trigger] names[k]) {
                exists|k: int|
                    0 <= k < names.len() && "entity:"@ + #[trigger] names[k] == id && forall|j: int|
                        0 <= j < k ==> !is_there(g, "entity:"@ + #[trigger] names[j])
            } else {
                ||| exists|i: int|
                    0 <= i < g.nodes.len() && (#[trigger] g.nodes[i]).id == id && g.nodes[i].node_type
                        == NodeType::Entity && merger::canonical(g.nodes[i].name)
                        == merger::canonical(name)
                ||| id == "entity:"@ + merger::canonical(name)
            }
        }),
{
    let names = merger::names_of(name, aliases);
    let known = merger::known_entity(g, index, names);
    let id = merger::entity_of(known, name);
    lemma_names(name, aliases, name);
    lemma_first_meant(index, names, 0);
    lemma_not_known(g, names, 0);
    assert forall|k: int| 0 <= k < names.len() implies views::has_node(
        g,
        merger::entity_id(#[trigger] names[k]),
    ) == is_there(g, merger::entity_id(names[k])) by {
        lemma_there(g, merger::entity_id(names[k]));
    }
    assert forall|k: int| 0 <= k < names.len() implies merger::entity_id(#[trigger] names[k])
        == "entity:"@ + names[k] by {}
    if merger::first_meant(index, names, 0) is Some {
        let k = choose|k: int|
            0 <= k < names.len() && means(index, #[trigger] names[k], id) && forall|j: int|
                0 <= j < k ==> !is_known(index, #[trigger] names[j]);
        lemma_meaning(index, names[k]);
        assert(is_known(index, names[k]));
    } else if merger::first_known(g, names, 0) is Some {
        let k = choose|k: int|
            0 <= k < names.len() && merger::entity_id(#[trigger] names[k]) == id && is_there(g, id)
                && forall|j: int|
                0 <= j < k ==> !is_there(g, merger::entity_id(#[trigger] names[j]));
        assert("entity:"@ + names[k] == id);
    } else if known is Some {
        let hits = views::v_found_nodes(g.nodes, names[0], merger::NAME_HITS);
        lemma_first_named(hits, names[0], 0);
        lemma_found_are_there(g, names[0]);
        let k = choose|k: int|
            0 <= k < hits.len() && (#[trigger] hits[k]).id == id && hits[k].node_type
                == NodeType::Entity && merger::canonical(hits[k].name) == names[0];
        let i = choose|i: int| 0 <= i < g.nodes.len() && g.nodes[i] == hits[k];
        assert(g.nodes[i].id == id);
    }
}

/// What is found by its name is in the graph.
proof fn lemma_found_are_there(g: GraphV, c: Seq<char>)
    ensures
        forall|k: int|
            0 <= k < views::v_found_nodes(g.nodes, c, merger::NAME_HITS).len() ==> g.nodes.contains(
                #[trigger] views::v_found_nodes(g.nodes, c, merger::NAME_HITS)[k],
            ),
{
    let p = views::v_named_like(crate::graph::lists::keyword_pattern(c));
    let hits = rows::kept(g.nodes, p);
    let keys = views::v_length_keys(hits);
    rows::lemma_kept(g.nodes, p);
    rows::lemma_order_of_first(keys, keys.len() as int);
    let found = views::v_found_nodes(g.nodes, c, merger::NAME_HITS);
    assert forall|k: int| 0 <= k < found.len() implies g.nodes.contains(#[trigger] found[k]) by {
        assert(found[k] == hits[rows::order_of(keys)[k]]);
    }
}

proof fn lemma_first_named(hits: Seq<NodeV>, c: Seq<char>, i: int)
    requires
        0 <= i,
    ensures
        merger::first_named(hits, c, i) matches Some(id) ==> exists|k: int|
            0 <= k < hits.len() && (#[trigger] hits[k]).id == id && hits[k].node_type == NodeType::Entity
                && merger::canonical(hits[k].name) == c,
    decreases hits.len() - i,
{
    if i < hits.len() {
        if hits[i].node_type == NodeType::Entity && merger::canonical(hits[i].name) == c {
            assert(hits[i].id == merger::first_named(hits, c, i)->0);
        } else {
            lemma_first_named(hits, c, i + 1);
        }
    }
}

/// More names come to those that are noted, each once; none is lost and none is made up.
pub proof fn law_names_are_noted_once(list: Seq<Seq<char>>, more: Seq<Seq<char>>, n: int)
    requires
        0 <= n <= more.len(),
    ensures
        ({
            let r = merger::with_missing(list, more, n);
            &&& r.len() >= list.len() && r.take(list.len() as int) == list
            &&& forall|k: int| 0 <= k < n ==> r.contains(#[trigger] more[k])
            &&& forall|k: int| list.len() <= k < r.len() ==> more.contains(#[trigger] r[k])
            &&& forall|a: int, b: int|
                0 <= a < b < r.len() && list.len() <= b ==> #[trigger] r[a] != #[trigger] r[b]
        }),
    decreases n,
{
    let r = merger::with_missing(list, more, n);
    if n > 0 {
        let before = merger::with_missing(list, more, n - 1);
        law_names_are_noted_once(list, more, n - 1);
        assert(r.take(list.len() as int) =~= before.take(list.len() as int));
        assert forall|k: int| 0 <= k < n implies r.contains(#[trigger] more[k]) by {
            if before.contains(more[k]) {
                let j = choose|j: int| 0 <= j < before.len() && before[j] == more[k];
                assert(r[j] == more[k]);
            } else {
                assert(r[r.len() - 1] == more[k]);
            }
        }
    } else {
        assert(r.take(list.len() as int) =~= list);
    }
}

} // verus!
