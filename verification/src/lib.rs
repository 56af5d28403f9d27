//! Tour construction and improvement for planar point sets.
//!
//! A tour starts as the convex hull of the points and grows by insertion:
//! in each step the point that fits an edge of the tour best is set into
//! that edge, until no point is left. Three passes then improve the tour:
//! crossing edges are exchanged, short stretches are moved to better
//! places, and the points that were inserted with the least confidence
//! are taken out and inserted again.
//!
//! The library holds the rules of this: how a tour is scanned, cut and
//! spliced, which of two numbers wins, which records are kept, how
//! candidates are indexed, how a file is framed. Coordinates, scores and
//! lengths travel as the bit patterns of single-precision numbers. The
//! library compares such numbers, by their patterns, but does no
//! arithmetic on them: every difference, product or root is asked of the
//! caller, as a function value, and the contracts say what is asked and
//! what is made of the answers.
//!
//! * [`shared`]: points, the order of bit patterns, set difference;
//! * [`tour`]: closed tours as sequences;
//! * [`hull`]: the convex hull by the monotone chain;
//! * [`precompute`]: the uniform grid that indexes candidates;
//! * [`select`]: the choice of the next insertion;
//! * [`expand`]: the insertion step and the expansion;
//! * [`edges`]: the uncrosser;
//! * [`or_opt`]: the relocation of stretches;
//! * [`relp`]: the records of least confidence;
//! * [`reader`] and [`writer`]: the node section of a point file.
pub mod shared;
pub mod tour;
pub mod hull;
pub mod precompute;
pub mod select;
pub mod expand;
pub mod edges;
pub mod or_opt;
pub mod relp;
pub mod reader;
pub mod writer;

pub use shared::Point;
