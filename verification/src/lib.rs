//! Data structures for network algorithms: a Fibonacci heap with verified
//! heap-order, minimum and key-multiset behaviour, an adjacency-matrix graph
//! with verified traversals, and a factorial over big integers.

pub mod f_heap;
pub mod factorial;
pub mod graph;
