//! Render layers: a growable bitset of numbered layers that keeps the first
//! 64 inline, and the propagation of layer membership down an entity tree,
//! where each entity declares its own layers or inherits its parent's.
pub mod blocks;
pub mod laws;
pub mod layers;
pub mod propagate;
