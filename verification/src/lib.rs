//! Skill-matching and job-recommendation engine.
//!
//! Scores a candidate's skill set against job postings using corpus-driven
//! term weighting, with a remote scoring oracle and deterministic local
//! fallbacks.  All fractional quantities (scores, weights) are held in
//! fixed point, in thousandths, so that every computation is exact integer
//! arithmetic.

pub mod corpus;
pub mod fallback;
pub mod jobsearch;
pub mod matching;
pub mod models;
pub mod paths;
pub mod pipeline;
pub mod ranking;
pub mod text;
pub mod urlinfo;
pub mod weights;
