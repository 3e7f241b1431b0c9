//! Core of a path tracer: bounding boxes, the bounding volume hierarchy and
//! the nearest-hit rules that the renderer's traversal follows.
//!
//! Ray parameters, coordinates, spans and costs are floating-point numbers. Here
//! each one is held as its order key: an unsigned integer that orders as the
//! numbers do, for every value but NaN (negation maps key `k` to
//! `u32::MAX - k`). Two differences remain: `-0.0` has a smaller key than
//! `+0.0`, where the numbers compare equal, and a NaN has a key of its own
//! place in the order, where every comparison with the number is false; a
//! caller that can meet a NaN decides which key stands for it. Every decision
//! made in this crate compares quantities and never combines them, so on
//! values other than NaN it is made on keys as it would be on the numbers, up to
//! the order of the two zeros. Measures that need arithmetic (a box's spans and
//! area, a split's cost, a primitive's intersection) are handed in by the caller.
pub mod aabb;
pub mod bvh;
pub mod hitable_list;
pub mod rectangle;
pub mod render;
pub mod shapes;
