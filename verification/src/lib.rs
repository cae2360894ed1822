//! A graph of hyperlinks and the degrees of separation in it.
//!
//! Lines of tab-separated text give directed edges ([`ingest`]); the edges,
//! each followed both ways, give an undirected graph ([`adjacency`]); a
//! breadth-first traversal of the graph from a node gives the distance of
//! every node that can be reached, and from these the greatest and the mean
//! degree of separation ([`traversal`]). What these words mean is laid down
//! in [`text`] for lines and in [`separation`] for walks and distances.

pub mod adjacency;
pub mod ingest;
pub mod separation;
pub mod text;
pub mod traversal;

pub use crate::adjacency::{adjacency_list, AdjacencyMap};
pub use crate::ingest::{read_lines, EdgeIngestor, GraphEdge, IngestError};
pub use crate::traversal::{average_degree, breadth_first, max_degree, MeanDegree};
