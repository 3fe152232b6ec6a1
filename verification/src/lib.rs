//! An in-memory XML data model: an arena of typed nodes with interned names,
//! an event-driven tree builder, navigation over the finished tree and
//! XPath-style axis steps.

pub mod collection_builder;
pub mod document_order;
pub mod event;
pub mod mem_nodes;
pub mod node_collection;
pub mod nodes;
pub mod steps;
pub mod symbols;
pub mod tree;
pub mod xmerl_sax;
pub mod xml_rs_bridge;
pub mod xpath;

pub use node_collection::{NodeCollection, NodeTup};
pub use nodes::{Node, NodeId};
