//! Euclidean clustering over points in 3-D integer space: a sorted catalog of
//! all pairwise squared distances, a union-find structure with path
//! compression and union by rank, and two connectivity queries driven by a
//! greedy, Kruskal-style consumption of the catalog (`point`, `edge`, `dsu`,
//! `query`, `report`).
//!
//! Beside it stand smaller verified routines over text and numbers: reading
//! the digits of a string (`digits`), detecting a string made of a repeated
//! block (`repeats`), the largest two-digit pair in a line of digits
//! (`joltage`), addition of unbounded naturals (`bignum`), and merging and
//! searching inclusive id ranges (`ranges`).
pub mod point;
pub mod report;
pub mod edge;
pub mod dsu;
pub mod query;
pub mod digits;
pub mod repeats;
pub mod joltage;
pub mod bignum;
pub mod ranges;
