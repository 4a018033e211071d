//! What may interest whoever reads the graph: recommendations, preferences and trends.

use crate::graph::ai;
use crate::graph::ai::{LlmReply, LlmRequest};
use crate::graph::evolution;
use crate::graph::explore;
use crate::graph::ids;
use crate::graph::merger;
use crate::graph::merger::{AliasRow, MergeV};
use crate::graph::model::{
    ClusterGrowth, GraphEvolution, GraphNode, GraphRecommendation, NodeType, Relation,
};
use crate::graph::path;
use crate::graph::query;
use crate::graph::store;
use crate::graph::store::{EdgeRow, GraphStore};
use crate::graph::views;
use crate::graph::views::GraphV;
use crate::rows;
use crate::text;
use vstd::prelude::*;

verus! {

/// The node that stands for the user.
pub const USER_ID: &'static str = "memory:user";

pub const USER_NAME: &'static str = "我（我的知识偏好）";

pub const TREND_MONTHS: usize = 12;

pub const TREND_CLUSTERS: usize = 10;

pub const TREND_TOKENS: u32 = 400;

pub const TREND_SYSTEM: &'static str = "你是知识演化分析师。根据知识库月度增长统计，用中文输出 3-5 句洞察：增长最快的领域、最近变化、可能的趋势。语气客观，不超过 150 字。只输出正文，不要任何前缀。";

// ---- Recommendations

/// The direct neighbours of a node, each once.
pub open spec fn neighbors(edges: Seq<EdgeRow>, id: Seq<char>) -> Seq<Seq<char>> {
    text::distinct(explore::way_ids(edges, id, path::path_scope()))
}

pub open spec fn is_new_to(id: Seq<char>, near: Seq<Seq<char>>) -> spec_fn(Seq<char>) -> bool {
    |x: Seq<char>| x != id && !near.contains(x)
}

/// The neighbours of the first `n` neighbours of a node, without it and its neighbours; one
/// that several of them have comes as often.
pub open spec fn second_neighbors(
    edges: Seq<EdgeRow>,
    id: Seq<char>,
    near: Seq<Seq<char>>,
    n: int,
) -> Seq<Seq<char>>
    decreases n,
{
    if n <= 0 {
        Seq::empty()
    } else {
        second_neighbors(edges, id, near, n - 1) + rows::kept(
            neighbors(edges, near[n - 1]),
            is_new_to(id, near),
        )
    }
}

/// All neighbours of neighbours of a node.
pub open spec fn two_steps_away(edges: Seq<EdgeRow>, id: Seq<char>) -> Seq<Seq<char>> {
    let near = neighbors(edges, id);
    second_neighbors(edges, id, near, near.len() as int)
}

/// How much a node is recommended: two for each common neighbour, and one for each edge.
pub open spec fn score_of(common: nat, degree: u32) -> u64 {
    if common * 2 + degree > u64::MAX {
        u64::MAX
    } else {
        (common * 2 + degree) as u64
    }
}

pub open spec fn reason_of(name: Seq<char>, common: nat) -> Seq<char> {
    "与「"@ + name + "」存在 "@ + text::nat_text(common) + " 个共同关联节点，关联强度较高"@
}

pub struct RecommendationV {
    pub node: GraphNode,
    pub reason: Seq<char>,
    pub score: u64,
}

pub open spec fn recommendation_view(r: GraphRecommendation) -> RecommendationV {
    RecommendationV { node: r.node, reason: r.reason@, score: r.score }
}

pub open spec fn as_recommendation() -> spec_fn(GraphRecommendation) -> RecommendationV {
    |r: GraphRecommendation| recommendation_view(r)
}

/// The node of the id, with its edges counted.
pub open spec fn node_counted(s: GraphStore, id: Seq<char>) -> Option<GraphNode> {
    match store::node_index(s.nodes@, id) {
        Some(i) => Some(query::counted(s.edges@, s.nodes@[i])),
        None => None,
    }
}

/// The recommendations for the first `n` of the ids, of which `ways` has each as often as
/// there are common neighbours.
pub open spec fn recommended(
    s: GraphStore,
    name: Seq<char>,
    ways: Seq<Seq<char>>,
    them: Seq<Seq<char>>,
    n: int,
) -> Seq<RecommendationV>
    decreases n,
{
    if n <= 0 {
        Seq::empty()
    } else {
        let before = recommended(s, name, ways, them, n - 1);
        match node_counted(s, them[n - 1]) {
            Some(node) => {
                let common = text::count_of(ways, them[n - 1]);
                before.push(
                    RecommendationV {
                        node,
                        reason: reason_of(name, common),
                        score: score_of(common, query::degree_of(s.edges@, them[n - 1]) as u32),
                    },
                )
            },
            None => before,
        }
    }
}

pub open spec fn score_keys(rs: Seq<RecommendationV>) -> Seq<Seq<int>> {
    Seq::new(rs.len(), |i: int| seq![-(rs[i].score as int)])
}

/// The nodes two steps away, the most recommended first.
pub open spec fn recommendations(s: GraphStore, id: Seq<char>, limit: nat) -> Seq<RecommendationV> {
    match store::node_index(s.nodes@, id) {
        None => Seq::empty(),
        Some(i) => {
            let ways = two_steps_away(s.edges@, id);
            let them = text::distinct(ways);
            let all = recommended(s, s.nodes@[i].name@, ways, them, them.len() as int);
            rows::limited(rows::rows_at(all, rows::order_of(score_keys(all))), limit)
        },
    }
}

fn reason_text(name: &str, common: usize) -> (r: String)
    ensures
        r@ == reason_of(name@, common as nat),
{
    let mut r = "与「".to_owned();
    r.push_str(name);
    r.push_str("」存在 ");
    r.push_str(&text::u64_text(common as u64));
    r.push_str(" 个共同关联节点，关联强度较高");
    assert(r@ =~= reason_of(name@, common as nat));
    r
}

fn score_for(common: usize, degree: u32) -> (r: u64)
    ensures
        r == score_of(common as nat, degree),
{
    let v: u128 = common as u128 * 2 + degree as u128;
    if v > u64::MAX as u128 {
        u64::MAX
    } else {
        v as u64
    }
}

impl Clone for GraphRecommendation {
    fn clone(&self) -> (r: Self)
        ensures
            r == *self,
    {
        GraphRecommendation {
            node: self.node.clone(),
            reason: self.reason.clone(),
            score: self.score,
        }
    }
}

impl GraphStore {
    fn two_steps(&self, node_id: &str) -> (r: Vec<String>)
        ensures
            text::texts(r@) == two_steps_away(self.edges@, node_id@),
    {
        let id = node_id.to_owned();
        let near = self.neighbors_of(node_id);
        let ghost nv = neighbors(self.edges@, node_id@);
        assert(nv.len() == near@.len());
        let mut out: Vec<String> = Vec::new();
        let mut i: usize = 0;
        assert(text::texts(out@) =~= Seq::empty());
        while i < near.len()
            invariant
                i <= near.len(),
                id@ == node_id@,
                nv == text::texts(near@),
                text::texts(out@) == second_neighbors(self.edges@, node_id@, nv, i as int),
            decreases near.len() - i,
        {
            assert(nv[i as int] == near@[i as int]@);
            let far = self.neighbors_of(&near[i]);
            let ghost fv = text::texts(far@);
            let ghost before = text::texts(out@);
            let ghost p = is_new_to(node_id@, nv);
            let mut j: usize = 0;
            assert(before + rows::kept(fv.take(0), p) =~= before);
            while j < far.len()
                invariant
                    j <= far.len(),
                    id@ == node_id@,
                    fv == text::texts(far@),
                    nv == text::texts(near@),
                    p == is_new_to(node_id@, nv),
                    text::texts(out@) == before + rows::kept(fv.take(j as int), p),
                decreases far.len() - j,
            {
                proof {
                    assert(fv[j as int] == far@[j as int]@);
                    assert(fv.take(j + 1) == fv.take(j as int).push(fv[j as int]));
                    rows::lemma_kept_push(fv.take(j as int), fv[j as int], p);
                }
                if far[j] != id && !text::lists_text(&near, &far[j]) {
                    let s = far[j].clone();
                    proof {
                        text::lemma_texts_push(out@, s);
                        assert(before + rows::kept(fv.take(j as int), p).push(s@) =~= (before
                            + rows::kept(fv.take(j as int), p)).push(s@));
                    }
                    out.push(s);
                }
                j += 1;
            }
            assert(fv.take(j as int) == fv);
            i += 1;
        }
        out
    }

    fn recommend_each(&self, name: &str, ways: &Vec<String>, them: &Vec<String>) -> (r: Vec<
        GraphRecommendation,
    >)
        ensures
            rows::mapped(r@, as_recommendation()) == recommended(
                *self,
                name@,
                text::texts(ways@),
                text::texts(them@),
                them@.len() as int,
            ),
    {
        let ghost wv = text::texts(ways@);
        let ghost tv = text::texts(them@);
        let mut out: Vec<GraphRecommendation> = Vec::new();
        let mut i: usize = 0;
        assert(rows::mapped(out@, as_recommendation()) =~= Seq::empty());
        while i < them.len()
            invariant
                i <= them.len(),
                wv == text::texts(ways@),
                tv == text::texts(them@),
                rows::mapped(out@, as_recommendation()) == recommended(
                    *self,
                    name@,
                    wv,
                    tv,
                    i as int,
                ),
            decreases them.len() - i,
        {
            assert(tv[i as int] == them@[i as int]@);
            if let Some(node) = self.counted_node(&them[i]) {
                let common = text::count_text(ways, &them[i]);
                let degree = self.degree(&them[i]);
                let rec = GraphRecommendation {
                    node,
                    reason: reason_text(name, common),
                    score: score_for(common, degree),
                };
                proof {
                    rows::lemma_mapped_push(out@, as_recommendation(), rec);
                }
                out.push(rec);
            }
            i += 1;
        }
        out
    }

    /// The nodes two steps away from a node, the most recommended first.
    pub fn recommend(&self, node_id: &str, limit: usize) -> (r: Vec<GraphRecommendation>)
        ensures
            rows::mapped(r@, as_recommendation()) == recommendations(
                *self,
                node_id@,
                limit as nat,
            ),
    {
        let mut out: Vec<GraphRecommendation> = Vec::new();
        let node = match self.get_node(node_id) {
            Some(n) => n,
            None => {
                assert(rows::mapped(out@, as_recommendation()) =~= Seq::empty());
                return out;
            },
        };
        let ways = self.two_steps(node_id);
        let ghost wv = text::texts(ways@);
        let mut them: Vec<String> = Vec::new();
        let mut i: usize = 0;
        assert(text::texts(them@) =~= text::distinct(wv.take(0)));
        while i < ways.len()
            invariant
                i <= ways.len(),
                wv == text::texts(ways@),
                text::texts(them@) == text::distinct(wv.take(i as int)),
            decreases ways.len() - i,
        {
            proof {
                assert(wv[i as int] == ways@[i as int]@);
                assert(wv.take(i + 1) == wv.take(i as int).push(wv[i as int]));
                text::lemma_distinct_push(wv.take(i as int), wv[i as int]);
            }
            text::push_distinct(&mut them, ways[i].clone());
            i += 1;
        }
        assert(wv.take(i as int) == wv);
        assert(text::texts(them@).len() == them@.len());
        let all = self.recommend_each(&node.name, &ways, &them);
        let ghost av = rows::mapped(all@, as_recommendation());
        let mut keys: Vec<Vec<i128>> = Vec::new();
        let mut j: usize = 0;
        while j < all.len()
            invariant
                j <= all.len(),
                keys@.len() == j,
                forall|k: int|
                    0 <= k < j ==> rows::key_view(#[trigger] keys@[k]@) == seq![
                        -(all@[k].score as int),
                    ],
            decreases all.len() - j,
        {
            keys.push(rows::number_key(-(all[j].score as i128)));
            j += 1;
        }
        assert(rows::keys_view(keys@) =~= score_keys(av));
        let order = rows::order_rows(&keys);
        let ghost want = rows::rows_at(av, rows::indices(order@));
        let mut m: usize = 0;
        assert(rows::mapped(out@, as_recommendation()) =~= want.take(0));
        while m < order.len() && m < limit
            invariant
                m <= order.len(),
                m <= limit,
                av == rows::mapped(all@, as_recommendation()),
                want == rows::rows_at(av, rows::indices(order@)),
                forall|k: int| 0 <= k < order@.len() ==> (#[trigger] order@[k]) < all@.len(),
                rows::mapped(out@, as_recommendation()) == want.take(m as int),
            decreases order.len() - m,
        {
            let rec = all[order[m]].clone();
            proof {
                rows::lemma_mapped_push(out@, as_recommendation(), rec);
                assert(want[m as int] == av[order@[m as int] as int]);
                assert(want.take(m + 1) =~= want.take(m as int).push(want[m as int]));
            }
            out.push(rec);
            m += 1;
        }
        assert(rows::mapped(out@, as_recommendation()) =~= rows::limited(want, limit as nat));
        out
    }
}

// ---- Preferences

pub open spec fn liking(preference: bool) -> Relation {
    if preference {
        Relation::Prefers
    } else {
        Relation::Avoids
    }
}

/// The graph when the user has said what they think of an entity.
pub open spec fn with_preference(g: GraphV, entity: Seq<char>, preference: bool, now: i64) -> GraphV {
    views::put_whole_edge(
        views::put_node(
            g,
            views::plain_node(USER_ID@, NodeType::Memory, USER_NAME@, None, None, None),
            now,
        ),
        USER_ID@,
        entity,
        liking(preference),
        USER_ID@,
        now,
    )
}

pub open spec fn doc_id(source: Option<Seq<char>>) -> Option<Seq<char>> {
    match source {
        Some(p) => Some(ids::node_id(NodeType::Doc, p)),
        None => None,
    }
}

pub open spec fn str_opt(o: Option<&str>) -> Option<Seq<char>> {
    match o {
        Some(s) => Some(s@),
        None => None,
    }
}

/// The graph when the user has said what they think of a topic.
pub open spec fn remembered(
    g: GraphV,
    topic: Seq<char>,
    preference: bool,
    source: Option<Seq<char>>,
    now: i64,
) -> GraphV {
    let m = MergeV { g, index: Seq::empty() };
    with_preference(
        merger::entity_step(m, topic, Seq::empty(), doc_id(source), now).g,
        ai::meant_entity(m, topic),
        preference,
        now,
    )
}

/// What the user prefers or avoids, as a recommendation.
pub open spec fn preference_reason(edges: Seq<EdgeRow>, id: Seq<char>) -> Seq<char> {
    if is_preferred(edges, id) {
        "我的偏好（喜欢）"@
    } else {
        "我的偏好（回避）"@
    }
}

pub open spec fn is_preferred(edges: Seq<EdgeRow>, id: Seq<char>) -> bool {
    exists|i: int|
        0 <= i < edges.len() && query::is_between(#[trigger] edges[i], USER_ID@, id)
            && edges[i].relation == Relation::Prefers
}

/// The preferences among the first `n` ids.
pub open spec fn preferences_in(s: GraphStore, them: Seq<Seq<char>>, n: int) -> Seq<RecommendationV>
    decreases n,
{
    if n <= 0 {
        Seq::empty()
    } else {
        let before = preferences_in(s, them, n - 1);
        match node_counted(s, them[n - 1]) {
            Some(node) => before.push(
                RecommendationV {
                    node,
                    reason: preference_reason(s.edges@, them[n - 1]),
                    score: 1,
                },
            ),
            None => before,
        }
    }
}

/// What the user prefers and avoids.
pub open spec fn preferences(s: GraphStore) -> Seq<RecommendationV> {
    if store::node_index(s.nodes@, USER_ID@) is None {
        Seq::empty()
    } else {
        let them = neighbors(s.edges@, USER_ID@);
        preferences_in(s, them, them.len() as int)
    }
}

impl GraphStore {
    /// Remembers what the user thinks of a topic. A topic of nothing is refused.
    pub fn memory_set(
        &mut self,
        topic: &String,
        preference: bool,
        source: Option<&str>,
        now: i64,
    ) -> (r: Result<(), String>)
        requires
            old(self).wf(),
        ensures
            final(self).wf(),
            match r {
                Ok(_) => {
                    &&& merger::canonical(topic@).len() > 0
                    &&& views::graph_of(*final(self)) == remembered(
                        views::graph_of(*old(self)),
                        topic@,
                        preference,
                        str_opt(source),
                        now,
                    )
                },
                Err(e) => merger::canonical(topic@).len() == 0 && e@ == "实体名为空"@ && *final(self)
                    == *old(self),
            },
            views::same_rest(*old(self), *final(self)),
    {
        let mut index: Vec<AliasRow> = Vec::new();
        assert(merger::aliases_view(index@) =~= Seq::empty());
        let none: Vec<String> = Vec::new();
        assert(text::texts(none@) =~= Seq::empty());
        let doc = match source {
            Some(p) => Some(ids::node_id_for(NodeType::Doc, p)),
            None => None,
        };
        let id = match self.merge_entity(&mut index, topic, &none, doc.as_ref(), now) {
            Ok(id) => id,
            Err(e) => {
                return Err(e);
            },
        };
        let user = USER_ID.to_owned();
        let node = GraphNode {
            id: user.clone(),
            node_type: NodeType::Memory,
            name: USER_NAME.to_owned(),
            path: None,
            meta: None,
            degree: None,
            created_at: None,
            content: None,
        };
        self.write_node(&node, now);
        let relation = if preference {
            Relation::Prefers
        } else {
            Relation::Avoids
        };
        self.write_whole_edge(&user, &id, relation, &user, now);
        Ok(())
    }

    fn prefers(&self, id: &str) -> (r: bool)
        ensures
            r == is_preferred(self.edges@, id@),
    {
        let es = self.all_edges_between(USER_ID, id);
        let ghost rows_between = rows::kept(self.edges@, query::between(USER_ID@, id@));
        proof {
            rows::lemma_kept(self.edges@, query::between(USER_ID@, id@));
            assert(es@.len() == rows_between.len());
        }
        let mut i: usize = 0;
        while i < es.len()
            invariant
                i <= es.len(),
                es@ == query::edges_of(rows_between),
                es@.len() == rows_between.len(),
                rows_between == rows::kept(self.edges@, query::between(USER_ID@, id@)),
                forall|k: int|
                    0 <= k < rows_between.len() ==> query::between(USER_ID@, id@)(
                        #[trigger] rows_between[k],
                    ) && self.edges@.contains(rows_between[k]),
                forall|k: int|
                    0 <= k < i ==> (#[trigger] rows_between[k]).relation != Relation::Prefers,
            decreases es.len() - i,
        {
            assert(es@[i as int] == query::edge_of(rows_between[i as int]));
            if es[i].relation == Relation::Prefers {
                proof {
                    let row = rows_between[i as int];
                    let x = choose|x: int| 0 <= x < self.edges@.len() && self.edges@[x] == row;
                    assert(query::is_between(self.edges@[x], USER_ID@, id@));
                }
                return true;
            }
            i += 1;
        }
        proof {
            if is_preferred(self.edges@, id@) {
                let x = choose|x: int|
                    0 <= x < self.edges@.len() && query::is_between(
                        #[trigger] self.edges@[x],
                        USER_ID@,
                        id@,
                    ) && self.edges@[x].relation == Relation::Prefers;
                assert(query::between(USER_ID@, id@)(self.edges@[x]));
                assert(rows_between.contains(self.edges@[x]));
                let k = choose|k: int|
                    0 <= k < rows_between.len() && rows_between[k] == self.edges@[x];
                assert(rows_between[k].relation != Relation::Prefers);
            }
        }
        false
    }

    /// What the user prefers and avoids.
    pub fn memory_preferences(&self) -> (r: Vec<GraphRecommendation>)
        ensures
            rows::mapped(r@, as_recommendation()) == preferences(*self),
    {
        let mut out: Vec<GraphRecommendation> = Vec::new();
        assert(rows::mapped(out@, as_recommendation()) =~= Seq::empty());
        if self.get_node(USER_ID).is_none() {
            return out;
        }
        let them = self.neighbors_of(USER_ID);
        let ghost tv = text::texts(them@);
        assert(tv.len() == them@.len());
        let mut i: usize = 0;
        while i < them.len()
            invariant
                i <= them.len(),
                tv == text::texts(them@),
                rows::mapped(out@, as_recommendation()) == preferences_in(*self, tv, i as int),
            decreases them.len() - i,
        {
            assert(tv[i as int] == them@[i as int]@);
            if let Some(node) = self.counted_node(&them[i]) {
                let reason = if self.prefers(&them[i]) {
                    "我的偏好（喜欢）".to_owned()
                } else {
                    "我的偏好（回避）".to_owned()
                };
                let rec = GraphRecommendation { node, reason, score: 1 };
                proof {
                    rows::lemma_mapped_push(out@, as_recommendation(), rec);
                }
                out.push(rec);
            }
            i += 1;
        }
        out
    }
}

/// What the user said is in the graph: the user is there, and the edge that says it.
pub proof fn law_preferences_are_remembered(
    g: GraphV,
    topic: Seq<char>,
    preference: bool,
    source: Option<Seq<char>>,
    now: i64,
)
    ensures
        ({
            let after = remembered(g, topic, preference, source, now);
            let entity = ai::meant_entity(MergeV { g, index: Seq::empty() }, topic);
            &&& views::has_node(after, USER_ID@)
            &&& views::find_edge(after.edges, USER_ID@, entity, liking(preference)) is Some
        }),
{
    let m = MergeV { g, index: Seq::empty() };
    let g1 = merger::entity_step(m, topic, Seq::empty(), doc_id(source), now).g;
    let entity = ai::meant_entity(m, topic);
    let user = views::plain_node(USER_ID@, NodeType::Memory, USER_NAME@, None, None, None);
    let g2 = views::put_node(g1, user, now);
    let g3 = with_preference(g1, entity, preference, now);
    rows::lemma_row_index(g1.nodes, views::nv_key(), USER_ID@, 0);
    rows::lemma_row_index(g2.nodes, views::nv_key(), USER_ID@, 0);
    match views::find_node(g1.nodes, USER_ID@) {
        Some(i) => {
            assert(views::nv_key()(g2.nodes[i]) == USER_ID@);
        },
        None => {
            assert(views::nv_key()(g2.nodes[g1.nodes.len() as int]) == USER_ID@);
        },
    }
    let key = (USER_ID@, entity, liking(preference));
    rows::lemma_row_index(g2.edges, views::ev_key(), key, 0);
    rows::lemma_row_index(g3.edges, views::ev_key(), key, 0);
    match views::find_edge(g2.edges, USER_ID@, entity, liking(preference)) {
        Some(i) => {
            assert(views::ev_key()(g3.edges[i]) == key);
        },
        None => {
            assert(views::ev_key()(g3.edges[g2.edges.len() as int]) == key);
        },
    }
}

// ---- Trends

pub open spec fn month_line(m: (String, u64)) -> Seq<char> {
    m.0@ + ": +"@ + text::nat_text(m.1 as nat) + " 节点"@
}

/// The latest months first, at most so many.
pub open spec fn month_lines(months: Seq<(String, u64)>, n: int) -> Seq<Seq<char>>
    decreases n,
{
    if n <= 0 {
        Seq::empty()
    } else {
        month_lines(months, n - 1).push(month_line(months[months.len() - n]))
    }
}

pub open spec fn at_most(n: nat, max: nat) -> int {
    if n < max {
        n as int
    } else {
        max as int
    }
}

/// The sum of the counts, as far as it can be counted.
pub open spec fn total_of(months: Seq<(String, u64)>, n: int) -> nat
    decreases n,
{
    if n <= 0 {
        0
    } else {
        let v = total_of(months, n - 1) + months[n - 1].1 as nat;
        if v > u64::MAX {
            u64::MAX as nat
        } else {
            v
        }
    }
}

pub open spec fn growth_line(g: ClusterGrowth) -> Seq<char> {
    g.cluster_name@ + ": 累计 "@ + text::nat_text(total_of(g.monthly@, g.monthly@.len() as int))
        + " 节点"@
}

pub open spec fn has_grown() -> spec_fn(ClusterGrowth) -> bool {
    |g: ClusterGrowth| g.monthly@.len() > 0
}

pub open spec fn growth_lines(gs: Seq<ClusterGrowth>) -> Seq<Seq<char>> {
    Seq::new(gs.len(), |i: int| growth_line(gs[i]))
}

pub open spec fn trend_question(e: GraphEvolution) -> Seq<char> {
    "月度节点增长：\n"@ + text::join(
        month_lines(e.monthly_nodes@, at_most(e.monthly_nodes@.len(), TREND_MONTHS as nat)),
        "\n"@,
    ) + "\n\n领域累计：\n"@ + text::join(
        rows::limited(
            growth_lines(rows::kept(e.cluster_growth@, has_grown())),
            TREND_CLUSTERS as nat,
        ),
        "\n"@,
    )
}

fn growth_text(g: &ClusterGrowth) -> (r: String)
    ensures
        r@ == growth_line(*g),
{
    let mut total: u64 = 0;
    let mut i: usize = 0;
    while i < g.monthly.len()
        invariant
            i <= g.monthly.len(),
            total == total_of(g.monthly@, i as int),
        decreases g.monthly.len() - i,
    {
        let v: u128 = total as u128 + g.monthly[i].1 as u128;
        total = if v > u64::MAX as u128 {
            u64::MAX
        } else {
            v as u64
        };
        i += 1;
    }
    let mut r = g.cluster_name.clone();
    r.push_str(": 累计 ");
    r.push_str(&text::u64_text(total));
    r.push_str(" 节点");
    assert(r@ =~= growth_line(*g));
    r
}

/// What is asked of a model about the growth of a graph; of one without months nothing.
pub fn trend_request(e: &GraphEvolution) -> (r: Option<LlmRequest>)
    ensures
        match r {
            Some(q) => e.monthly_nodes@.len() > 0 && q.system@ == TREND_SYSTEM@ && q.user@
                == trend_question(*e) && q.max_tokens == Some(TREND_TOKENS),
            None => e.monthly_nodes@.len() == 0,
        },
{
    if e.monthly_nodes.len() == 0 {
        return None;
    }
    let ghost ms = e.monthly_nodes@;
    let mut months: Vec<String> = Vec::new();
    let mut i: usize = 0;
    assert(text::texts(months@) =~= month_lines(ms, 0));
    while i < e.monthly_nodes.len() && i < TREND_MONTHS
        invariant
            i <= e.monthly_nodes.len(),
            i <= TREND_MONTHS,
            ms == e.monthly_nodes@,
            text::texts(months@) == month_lines(ms, i as int),
        decreases e.monthly_nodes.len() - i,
    {
        let m = &e.monthly_nodes[e.monthly_nodes.len() - 1 - i];
        let mut line = m.0.clone();
        line.push_str(": +");
        line.push_str(&text::u64_text(m.1));
        line.push_str(" 节点");
        proof {
            assert(line@ =~= month_line(ms[ms.len() - (i + 1)]));
            text::lemma_texts_push(months@, line);
        }
        months.push(line);
        i += 1;
    }
    let ghost gs = e.cluster_growth@;
    let mut growth: Vec<String> = Vec::new();
    let mut j: usize = 0;
    assert(text::texts(growth@) =~= growth_lines(rows::kept(gs.take(0), has_grown())));
    while j < e.cluster_growth.len()
        invariant
            j <= e.cluster_growth.len(),
            gs == e.cluster_growth@,
            text::texts(growth@) == growth_lines(rows::kept(gs.take(j as int), has_grown())),
        decreases e.cluster_growth.len() - j,
    {
        let ghost g = gs[j as int];
        let ghost before = rows::kept(gs.take(j as int), has_grown());
        proof {
            assert(gs.take(j + 1) == gs.take(j as int).push(g));
            rows::lemma_kept_push(gs.take(j as int), g, has_grown());
        }
        if e.cluster_growth[j].monthly.len() > 0 {
            let line = growth_text(&e.cluster_growth[j]);
            proof {
                text::lemma_texts_push(growth@, line);
                assert(growth_lines(before.push(g)) =~= growth_lines(before).push(line@));
            }
            growth.push(line);
        }
        j += 1;
    }
    assert(gs.take(j as int) == gs);
    let ghost all = text::texts(growth@);
    assert(all.len() == growth@.len());
    if growth.len() > TREND_CLUSTERS {
        growth.truncate(TREND_CLUSTERS);
        assert(text::texts(growth@) =~= all.take(TREND_CLUSTERS as int));
    } else {
        assert(all.take(all.len() as int) =~= all);
    }
    let mut user = "月度节点增长：\n".to_owned();
    user.push_str(&text::join_of(&months, "\n"));
    user.push_str("\n\n领域累计：\n");
    user.push_str(&text::join_of(&growth, "\n"));
    assert(user@ =~= trend_question(*e));
    Some(
        LlmRequest { system: TREND_SYSTEM.to_owned(), user, max_tokens: Some(TREND_TOKENS) },
    )
}

impl GraphStore {
    /// The growth of the graph and what a model says about it, where one was asked.
    pub fn evolution_insights(&mut self, reply: Option<&LlmReply>) -> (r: Result<
        (GraphEvolution, Option<String>),
        String,
    >)
        requires
            old(self).wf(),
        ensures
            final(self).wf(),
            match r {
                Ok(p) => {
                    &&& evolution::is_evolution(*old(self), Ok(p.0))
                    &&& match reply {
                        Some(x) if p.0.monthly_nodes@.len() > 0 => {
                            &&& match *x {
                                LlmReply::Text(t) => p.1 == Some(t) && ai::is_counted(
                                    old(self).metrics@,
                                    final(self).metrics@,
                                    ai::CALLS@,
                                ),
                                _ => p.1 is None && ai::is_counted(
                                    old(self).metrics@,
                                    final(self).metrics@,
                                    ai::FAILURES@,
                                ),
                            }
                            &&& *final(self) == (GraphStore {
                                metrics: final(self).metrics,
                                ..*old(self)
                            })
                        },
                        _ => p.1 is None && *final(self) == *old(self),
                    }
                },
                Err(e) => evolution::is_evolution(*old(self), Err(e)) && *final(self) == *old(
                    self,
                ),
            },
    {
        let e = match self.evolution() {
            Ok(e) => e,
            Err(e) => {
                return Err(e);
            },
        };
        if e.monthly_nodes.len() == 0 {
            return Ok((e, None));
        }
        match reply {
            Some(LlmReply::Text(t)) => {
                self.count_one(ai::CALLS);
                Ok((e, Some(t.clone())))
            },
            Some(_) => {
                self.count_one(ai::FAILURES);
                Ok((e, None))
            },
            None => Ok((e, None)),
        }
    }
}

} // verus!
