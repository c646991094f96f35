//! Classification, grouping, and normalization engine for glider handicap
//! reports.
//!
//! The engine turns a flat roster of glider models — each with a name, a
//! numeric handicap, a set of class memberships, and a change-highlight flag —
//! into two derived structures:
//!
//! * a per-class, per-handicap grouping with deterministic ordering
//!   (buckets by descending handicap, entries by ascending name), and
//! * per-class competition eligibility lists with cutoff filtering and
//!   handicaps rescaled against a class reference value.
//!
//! All text is held as UTF-8 bytes and ordered bytewise, which is a total,
//! locale-independent lexicographic order. Rescaled handicaps are kept as
//! exact ratios of the raw handicap to the class reference, so no precision
//! is lost in the engine; rendering may round them as late as possible.

pub mod classifier;
pub mod grouper;
pub mod model;
pub mod text;
