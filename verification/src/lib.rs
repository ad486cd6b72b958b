//! Assembly of a circular DNA sequence from reads of one length.
//!
//! The reads and their reverse complements are cut into windows. Each window
//! gives two k-mers, its first and its last k characters, and an edge from
//! the first to the second: together they make a de Bruijn graph. A walk
//! that comes back to its first node is read as a cyclic superstring, and
//! its edges are pruned. The window size is swept from the length of the
//! reads down to 3, in search of a size at which two superstrings are left,
//! one for each strand of the circular template.
//!
//! - [`dna`]: the alphabet and the reverse complement
//! - [`order`]: lexicographic order and search in sorted lists
//! - [`model`]: the graph as a map, and what building, walking and pruning
//!   mean on it
//! - [`graph`]: the graph as it is stored
//! - [`builder`]: adding windows and reads to a graph
//! - [`cycles`]: closed walks, superstrings and pruning
//! - [`traverse`]: a depth-first reading of the graph
//! - [`trim`]: shaving and filtering superstrings
//! - [`rotation`]: whether one circular string is a rotation of another
//! - [`assembly`]: the sweep over window sizes
//! - [`walks`], [`sorting`], [`rounds`], [`shapes`]: what is proved of
//!   extraction

pub mod assembly;
pub mod builder;
pub mod cycles;
pub mod dna;
pub mod graph;
pub mod model;
pub mod order;
pub mod rotation;
pub mod rounds;
pub mod shapes;
pub mod sorting;
pub mod traverse;
pub mod trim;
pub mod walks;
