//! The rows of the graph and the results of queries.
//!
//! Weights, confidences and importances are fractions of one, counted in millionths.

use crate::text;
use vstd::prelude::*;

verus! {

/// A whole, in millionths.
pub const WHOLE: u32 = 1_000_000;

/// The kinds of nodes.
#[derive(Debug, Clone, Copy, PartialEq, Eq, Structural)]
pub enum NodeType {
    Doc,
    Folder,
    /// A piece of a document's text.
    Chunk,
    /// A section of a document, by its headings.
    Section,
    Entity,
    Experience,
    Memory,
    Cluster,
}

impl NodeType {
    pub open spec fn name(self) -> Seq<char> {
        match self {
            NodeType::Doc => "doc"@,
            NodeType::Folder => "folder"@,
            NodeType::Chunk => "chunk"@,
            NodeType::Section => "section"@,
            NodeType::Entity => "entity"@,
            NodeType::Experience => "experience"@,
            NodeType::Memory => "memory"@,
            NodeType::Cluster => "cluster"@,
        }
    }

    /// The kind of the name; an unknown name is taken for a cluster.
    pub open spec fn named(s: Seq<char>) -> NodeType {
        if s == "doc"@ {
            NodeType::Doc
        } else if s == "folder"@ {
            NodeType::Folder
        } else if s == "chunk"@ {
            NodeType::Chunk
        } else if s == "section"@ {
            NodeType::Section
        } else if s == "entity"@ {
            NodeType::Entity
        } else if s == "experience"@ {
            NodeType::Experience
        } else if s == "memory"@ {
            NodeType::Memory
        } else {
            NodeType::Cluster
        }
    }

    pub fn as_str(&self) -> (r: &'static str)
        ensures
            r@ == self.name(),
    {
        match self {
            NodeType::Doc => "doc",
            NodeType::Folder => "folder",
            NodeType::Chunk => "chunk",
            NodeType::Section => "section",
            NodeType::Entity => "entity",
            NodeType::Experience => "experience",
            NodeType::Memory => "memory",
            NodeType::Cluster => "cluster",
        }
    }

    pub fn from_str(s: &str) -> (r: NodeType)
        ensures
            r == NodeType::named(s@),
    {
        if text::str_eq(s, "doc") {
            NodeType::Doc
        } else if text::str_eq(s, "folder") {
            NodeType::Folder
        } else if text::str_eq(s, "chunk") {
            NodeType::Chunk
        } else if text::str_eq(s, "section") {
            NodeType::Section
        } else if text::str_eq(s, "entity") {
            NodeType::Entity
        } else if text::str_eq(s, "experience") {
            NodeType::Experience
        } else if text::str_eq(s, "memory") {
            NodeType::Memory
        } else {
            NodeType::Cluster
        }
    }
}

/// Every kind of node is the one that its name stands for.
pub proof fn law_node_type_round_trip(t: NodeType)
    ensures
        NodeType::named(t.name()) == t,
{
    reveal_strlit("doc");
    reveal_strlit("folder");
    reveal_strlit("chunk");
    reveal_strlit("section");
    reveal_strlit("entity");
    reveal_strlit("experience");
    reveal_strlit("memory");
    reveal_strlit("cluster");
    lemma_first_two("doc"@, "folder"@);
    lemma_first_two("doc"@, "chunk"@);
    lemma_first_two("doc"@, "section"@);
    lemma_first_two("doc"@, "entity"@);
    lemma_first_two("doc"@, "experience"@);
    lemma_first_two("doc"@, "memory"@);
    lemma_first_two("doc"@, "cluster"@);
    assert("folder"@[0] != "chunk"@[0]);
    assert("entity"@[1] != "experience"@[1]);
    assert("chunk"@[1] != "cluster"@[1]);
}

proof fn lemma_first_two(a: Seq<char>, b: Seq<char>)
    requires
        a.len() >= 2,
        b.len() >= 2,
        a[0] != b[0] || a[1] != b[1],
    ensures
        a != b,
{
}

/// The kinds of edges.
#[derive(Debug, Clone, Copy, PartialEq, Eq, Structural)]
pub enum Relation {
    Contains,
    References,
    Imports,
    DerivedFrom,
    SameTopic,
    SolvedBy,
    ImplementedIn,
    ValidatedBy,
    Prefers,
    Avoids,
    ReplacedBy,
    Deprecated,
    Uses,
    BelongsTo,
    SimilarTo,
    DependsOn,
}

impl Relation {
    pub open spec fn name(self) -> Seq<char> {
        match self {
            Relation::Contains => "CONTAINS"@,
            Relation::References => "REFERENCES"@,
            Relation::Imports => "IMPORTS"@,
            Relation::DerivedFrom => "DERIVED_FROM"@,
            Relation::SameTopic => "SAME_TOPIC"@,
            Relation::SolvedBy => "SOLVED_BY"@,
            Relation::ImplementedIn => "IMPLEMENTED_IN"@,
            Relation::ValidatedBy => "VALIDATED_BY"@,
            Relation::Prefers => "PREFERS"@,
            Relation::Avoids => "AVOIDS"@,
            Relation::ReplacedBy => "REPLACED_BY"@,
            Relation::Deprecated => "DEPRECATED"@,
            Relation::Uses => "USES"@,
            Relation::BelongsTo => "BELONGS_TO"@,
            Relation::SimilarTo => "SIMILAR_TO"@,
            Relation::DependsOn => "DEPENDS_ON"@,
        }
    }

    /// The relation of the name; an unknown name is taken for a reference.
    pub open spec fn named(s: Seq<char>) -> Relation {
        if s == "CONTAINS"@ {
            Relation::Contains
        } else if s == "REFERENCES"@ {
            Relation::References
        } else if s == "IMPORTS"@ {
            Relation::Imports
        } else if s == "DERIVED_FROM"@ {
            Relation::DerivedFrom
        } else if s == "SAME_TOPIC"@ {
            Relation::SameTopic
        } else if s == "SOLVED_BY"@ {
            Relation::SolvedBy
        } else if s == "IMPLEMENTED_IN"@ {
            Relation::ImplementedIn
        } else if s == "VALIDATED_BY"@ {
            Relation::ValidatedBy
        } else if s == "PREFERS"@ {
            Relation::Prefers
        } else if s == "AVOIDS"@ {
            Relation::Avoids
        } else if s == "REPLACED_BY"@ {
            Relation::ReplacedBy
        } else if s == "DEPRECATED"@ {
            Relation::Deprecated
        } else if s == "USES"@ {
            Relation::Uses
        } else if s == "BELONGS_TO"@ {
            Relation::BelongsTo
        } else if s == "SIMILAR_TO"@ {
            Relation::SimilarTo
        } else if s == "DEPENDS_ON"@ {
            Relation::DependsOn
        } else {
            Relation::References
        }
    }

    pub fn as_str(&self) -> (r: &'static str)
        ensures
            r@ == self.name(),
    {
        match self {
            Relation::Contains => "CONTAINS",
            Relation::References => "REFERENCES",
            Relation::Imports => "IMPORTS",
            Relation::DerivedFrom => "DERIVED_FROM",
            Relation::SameTopic => "SAME_TOPIC",
            Relation::SolvedBy => "SOLVED_BY",
            Relation::ImplementedIn => "IMPLEMENTED_IN",
            Relation::ValidatedBy => "VALIDATED_BY",
            Relation::Prefers => "PREFERS",
            Relation::Avoids => "AVOIDS",
            Relation::ReplacedBy => "REPLACED_BY",
            Relation::Deprecated => "DEPRECATED",
            Relation::Uses => "USES",
            Relation::BelongsTo => "BELONGS_TO",
            Relation::SimilarTo => "SIMILAR_TO",
            Relation::DependsOn => "DEPENDS_ON",
        }
    }

    pub fn from_str(s: &str) -> (r: Relation)
        ensures
            r == Relation::named(s@),
    {
        if text::str_eq(s, "CONTAINS") {
            Relation::Contains
        } else if text::str_eq(s, "REFERENCES") {
            Relation::References
        } else if text::str_eq(s, "IMPORTS") {
            Relation::Imports
        } else if text::str_eq(s, "DERIVED_FROM") {
            Relation::DerivedFrom
        } else if text::str_eq(s, "SAME_TOPIC") {
            Relation::SameTopic
        } else if text::str_eq(s, "SOLVED_BY") {
            Relation::SolvedBy
        } else if text::str_eq(s, "IMPLEMENTED_IN") {
            Relation::ImplementedIn
        } else if text::str_eq(s, "VALIDATED_BY") {
            Relation::ValidatedBy
        } else if text::str_eq(s, "PREFERS") {
            Relation::Prefers
        } else if text::str_eq(s, "AVOIDS") {
            Relation::Avoids
        } else if text::str_eq(s, "REPLACED_BY") {
            Relation::ReplacedBy
        } else if text::str_eq(s, "DEPRECATED") {
            Relation::Deprecated
        } else if text::str_eq(s, "USES") {
            Relation::Uses
        } else if text::str_eq(s, "BELONGS_TO") {
            Relation::BelongsTo
        } else if text::str_eq(s, "SIMILAR_TO") {
            Relation::SimilarTo
        } else if text::str_eq(s, "DEPENDS_ON") {
            Relation::DependsOn
        } else {
            Relation::References
        }
    }
}

/// Every relation is the one that its name stands for.
pub proof fn law_relation_round_trip(r: Relation)
    ensures
        Relation::named(r.name()) == r,
{
    reveal_strlit("CONTAINS");
    reveal_strlit("REFERENCES");
    reveal_strlit("IMPORTS");
    reveal_strlit("DERIVED_FROM");
    reveal_strlit("SAME_TOPIC");
    reveal_strlit("SOLVED_BY");
    reveal_strlit("IMPLEMENTED_IN");
    reveal_strlit("VALIDATED_BY");
    reveal_strlit("PREFERS");
    reveal_strlit("AVOIDS");
    reveal_strlit("REPLACED_BY");
    reveal_strlit("DEPRECATED");
    reveal_strlit("USES");
    reveal_strlit("BELONGS_TO");
    reveal_strlit("SIMILAR_TO");
    reveal_strlit("DEPENDS_ON");
    assert("IMPORTS"@[3] != "IMPLEMENTED_IN"@[3]);
    assert("DERIVED_FROM"@[2] != "DEPRECATED"@[2]);
    assert("DERIVED_FROM"@[2] != "DEPENDS_ON"@[2]);
    assert("DEPRECATED"@[3] != "DEPENDS_ON"@[3]);
    assert("REFERENCES"@[2] != "REPLACED_BY"@[2]);
    assert("SAME_TOPIC"@[1] != "SOLVED_BY"@[1]);
    assert("SAME_TOPIC"@[1] != "SIMILAR_TO"@[1]);
    assert("SOLVED_BY"@[1] != "SIMILAR_TO"@[1]);
    assert("CONTAINS"@[0] == 'C');
    assert("VALIDATED_BY"@[0] == 'V');
    assert("PREFERS"@[0] == 'P');
    assert("AVOIDS"@[0] == 'A');
    assert("USES"@[0] == 'U');
    assert("BELONGS_TO"@[0] == 'B');
    assert("IMPORTS"@[0] == 'I');
    assert("IMPLEMENTED_IN"@[0] == 'I');
    assert("DERIVED_FROM"@[0] == 'D');
    assert("DEPRECATED"@[0] == 'D');
    assert("DEPENDS_ON"@[0] == 'D');
    assert("REFERENCES"@[0] == 'R');
    assert("REPLACED_BY"@[0] == 'R');
    assert("SAME_TOPIC"@[0] == 'S');
    assert("SOLVED_BY"@[0] == 'S');
    assert("SIMILAR_TO"@[0] == 'S');
}

pub fn clone_opt(o: &Option<String>) -> (r: Option<String>)
    ensures
        r == *o,
{
    match o {
        Some(s) => Some(s.clone()),
        None => None,
    }
}

/// A node.
#[derive(Debug, PartialEq, Eq)]
pub struct GraphNode {
    pub id: String,
    pub node_type: NodeType,
    pub name: String,
    /// The path of the file, with slashes, for nodes that stand for a file or a part of it.
    pub path: Option<String>,
    pub meta: Option<String>,
    /// The number of edges, where a query counted them.
    pub degree: Option<u32>,
    pub created_at: Option<i64>,
    pub content: Option<String>,
}

impl Clone for GraphNode {
    fn clone(&self) -> (r: Self)
        ensures
            r == *self,
    {
        GraphNode {
            id: self.id.clone(),
            node_type: self.node_type,
            name: self.name.clone(),
            path: clone_opt(&self.path),
            meta: clone_opt(&self.meta),
            degree: self.degree,
            created_at: self.created_at,
            content: clone_opt(&self.content),
        }
    }
}

/// An edge. A missing weight or confidence stands for a whole.
#[derive(Debug, PartialEq, Eq)]
pub struct GraphEdge {
    pub source: String,
    pub target: String,
    pub relation: Relation,
    pub weight: Option<u32>,
    pub confidence: Option<u32>,
}

impl Clone for GraphEdge {
    fn clone(&self) -> (r: Self)
        ensures
            r == *self,
    {
        GraphEdge {
            source: self.source.clone(),
            target: self.target.clone(),
            relation: self.relation,
            weight: self.weight,
            confidence: self.confidence,
        }
    }
}

/// Nodes and the edges between them. `truncated` says that there is more.
#[derive(Debug, PartialEq, Eq)]
pub struct GraphNeighborhood {
    pub nodes: Vec<GraphNode>,
    pub edges: Vec<GraphEdge>,
    pub truncated: bool,
}

/// Figures about the graph.
#[derive(Debug, PartialEq, Eq)]
pub struct GraphStats {
    /// How many nodes there are of each kind that occurs.
    pub by_type: Vec<(NodeType, u64)>,
    /// The nodes with the most edges.
    pub top_degree: Vec<(String, u32)>,
    pub last_built_at: Option<i64>,
    pub graph_version: u64,
    pub cluster_count: u64,
    pub cluster_mode: String,
}

/// The state of the graph.
#[derive(Debug, PartialEq, Eq)]
pub struct GraphStatus {
    pub schema_version: u32,
    pub node_count: u64,
    pub edge_count: u64,
    pub building: bool,
    pub progress_pct: Option<u32>,
    pub graph_version: u64,
    pub cluster_count: u64,
    pub cluster_mode: String,
}

/// A cluster of nodes.
#[derive(Debug, PartialEq, Eq)]
pub struct GraphCluster {
    pub id: String,
    pub name: String,
    pub description: Option<String>,
    pub algorithm: String,
    pub centroid: Option<String>,
    pub node_count: u32,
    pub edge_count: u32,
    pub confidence: u32,
    pub created_at: i64,
    pub updated_at: i64,
    pub links: Vec<ClusterLink>,
    pub top_files: Vec<GraphNode>,
}

/// How many edges lead from one cluster to another.
#[derive(Debug, PartialEq, Eq)]
pub struct ClusterLink {
    pub source: String,
    pub target: String,
    pub count: u32,
}

impl Clone for ClusterLink {
    fn clone(&self) -> (r: Self)
        ensures
            r == *self,
    {
        ClusterLink {
            source: self.source.clone(),
            target: self.target.clone(),
            count: self.count,
        }
    }
}

/// A path between two nodes.
#[derive(Debug, PartialEq, Eq)]
pub struct GraphPath {
    pub found: bool,
    pub path_ids: Vec<String>,
    pub nodes: Vec<GraphNode>,
    pub edges: Vec<GraphEdge>,
}

/// A relation that a model proposes.
#[derive(Debug, PartialEq, Eq)]
pub struct GraphAiCandidate {
    pub id: String,
    pub source: String,
    pub target: String,
    pub relation: Relation,
    pub confidence: u32,
    /// `candidate`, `confirmed`, `auto_confirmed` or `rejected`.
    pub status: String,
    pub source_doc: Option<String>,
    pub evidence: Option<String>,
    pub created_at: i64,
}

impl Clone for GraphAiCandidate {
    fn clone(&self) -> (r: Self)
        ensures
            r == *self,
    {
        GraphAiCandidate {
            id: self.id.clone(),
            source: self.source.clone(),
            target: self.target.clone(),
            relation: self.relation,
            confidence: self.confidence,
            status: self.status.clone(),
            source_doc: clone_opt(&self.source_doc),
            evidence: clone_opt(&self.evidence),
            created_at: self.created_at,
        }
    }
}

/// Where an item of the queue stands.
#[derive(Debug, Clone, Copy, PartialEq, Eq, Structural)]
pub enum QueueStatus {
    Pending,
    Processing,
    Done,
    Failed,
}

/// A document that waits for a model to read it.
#[derive(Debug, PartialEq, Eq)]
pub struct AiQueueItem {
    pub id: i64,
    pub dir_path: String,
    pub rel_path: String,
    pub importance: u32,
    pub status: QueueStatus,
    pub attempts: u32,
    pub created_at: i64,
    pub updated_at: i64,
}

impl Clone for AiQueueItem {
    fn clone(&self) -> (r: Self)
        ensures
            r == *self,
    {
        AiQueueItem {
            id: self.id,
            dir_path: self.dir_path.clone(),
            rel_path: self.rel_path.clone(),
            importance: self.importance,
            status: self.status,
            attempts: self.attempts,
            created_at: self.created_at,
            updated_at: self.updated_at,
        }
    }
}

/// The answer to a question to the graph.
#[derive(Debug, PartialEq, Eq)]
pub struct GraphQueryResult {
    pub answer: String,
    pub entities: Vec<GraphNode>,
    pub evidence: Vec<GraphEvidence>,
    pub related: Vec<GraphNode>,
    pub used_llm: bool,
}

/// Where an answer comes from.
#[derive(Debug, PartialEq, Eq)]
pub struct GraphEvidence {
    pub source_doc: String,
    pub snippet: String,
    pub relation: Option<String>,
    pub chunk_id: Option<String>,
}

/// What a cluster covers, and what it lacks.
#[derive(Debug, PartialEq, Eq)]
pub struct GraphGap {
    pub cluster_id: String,
    pub cluster_name: String,
    pub covered: Vec<String>,
    pub missing: Vec<String>,
}

/// Two claims that contradict each other.
#[derive(Debug, PartialEq, Eq)]
pub struct GraphConflict {
    pub topic: String,
    pub claim_a: String,
    pub source_a: String,
    pub claim_b: String,
    pub source_b: String,
    pub analysis: String,
}

/// Two nodes that may be the same.
#[derive(Debug, PartialEq, Eq)]
pub struct GraphDuplicate {
    pub node_a: String,
    pub node_b: String,
    pub name_a: String,
    pub name_b: String,
    pub similarity: u32,
}

/// The growth of the graph by months.
#[derive(Debug, PartialEq, Eq)]
pub struct GraphEvolution {
    pub monthly_nodes: Vec<(String, u64)>,
    pub monthly_edges: Vec<(String, u64)>,
    pub cluster_growth: Vec<ClusterGrowth>,
    pub graph_version: u64,
}

/// The growth of a cluster by months.
#[derive(Debug, PartialEq, Eq)]
pub struct ClusterGrowth {
    pub cluster_id: String,
    pub cluster_name: String,
    pub monthly: Vec<(String, u64)>,
}

/// A node that may be of interest.
#[derive(Debug, PartialEq, Eq)]
pub struct GraphRecommendation {
    pub node: GraphNode,
    pub reason: String,
    pub score: u64,
}

/// Figures about the use of models.
#[derive(Debug, PartialEq, Eq)]
pub struct GraphMetrics {
    pub llm_calls: u64,
    pub llm_tokens: u64,
    pub llm_failures: u64,
    pub candidates_pending: u64,
    pub candidates_confirmed: u64,
    pub favorites: u64,
    pub worker_processed: u64,
    pub worker_failed: u64,
}

} // verus!
