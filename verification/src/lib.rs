//! Thought graphs: comments, replies and references as the nodes and edges of
//! a graph. The library draws such graphs in the DOT language of Graphviz and
//! finds the shortest paths between their nodes.
pub mod color;
pub mod dot;
pub mod drawings;
pub mod label;
pub mod label_laws;
pub mod model;
pub mod paths_dot;
pub mod quoting;
pub mod render;
pub mod routes;
pub mod search;
mod seqs;
pub mod text;
pub mod turned;
pub mod walk;
