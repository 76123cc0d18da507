//! A character-level bigram language-model toolkit: the vocabulary, the
//! text loader that turns lines into bigram pairs, batching, the shape of a
//! multi-layer perceptron, the walk order of back-propagation and the
//! drawing of a computation graph.

pub mod vocab;
pub mod loader;
pub mod text;
pub mod topo;
pub mod mlp;
pub mod graph;
