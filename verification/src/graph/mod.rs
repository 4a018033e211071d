//! The knowledge graph: its tables, the queries over them, and the rules by which
//! documents, entities, clusters and experience become nodes and edges.

pub mod hung;
pub mod ids;
pub mod model;
pub mod store;
pub mod views;
pub mod query;
pub mod ranked;
pub mod lists;
pub mod queue;
pub mod served;
pub mod candidates;
pub mod clusters;
pub mod grouped;
pub mod cluster_engine;
pub mod settled;
pub mod evolution;
pub mod laid;
pub mod links;
pub mod builder;
pub mod imports;
pub mod meant;
pub mod chunk;
pub mod merger;
pub mod joined;
pub mod extractor;
pub mod experience;
pub mod similar;
pub mod ai;
pub mod drawn;
pub mod insight;
pub mod rag;
pub mod advice;
pub mod counted;
pub mod told;
pub mod again;
pub mod engine;
pub mod asked;
pub mod assemble;
pub mod explore;
pub mod path;
