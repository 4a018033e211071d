//! How nodes and edges are named.

use crate::graph::model::{NodeType, Relation};
use crate::text;
use vstd::prelude::*;

verus! {

/// The id of a node that stands for a path: its kind, a colon and the path with slashes.
pub open spec fn node_id(t: NodeType, path: Seq<char>) -> Seq<char> {
    t.name() + seq![':'] + text::replace_char(path, '\\', '/')
}

/// The id of an edge: its source, target and relation with bars between.
pub open spec fn edge_name(source: Seq<char>, target: Seq<char>, relation: Relation) -> Seq<char> {
    source + seq!['|'] + target + seq!['|'] + relation.name()
}

pub fn node_id_for(node_type: NodeType, path: &str) -> (r: String)
    ensures
        r@ == node_id(node_type, path@),
{
    let mut r = node_type.as_str().to_owned();
    r.push(':');
    let p = text::replace_char_of(path, '\\', '/');
    r.push_str(&p);
    assert(r@ =~= node_id(node_type, path@));
    r
}

pub fn edge_id(source: &str, target: &str, relation: Relation) -> (r: String)
    ensures
        r@ == edge_name(source@, target@, relation),
{
    let mut r = source.to_owned();
    r.push('|');
    r.push_str(target);
    r.push('|');
    r.push_str(relation.as_str());
    assert(r@ =~= edge_name(source@, target@, relation));
    r
}

} // verus!
