//! Scoring engine for contest assignment plans: a roster of contributors with
//! leveled skills, projects with ordered role requirements, and a plan that
//! assigns contributors to roles in a fixed processing order. The engine
//! indexes the instance into a dense-ID baseline, resolves plan names against
//! it (failing closed on unknown names), replays the plan while tracking
//! availability, mentoring and skill growth, and sums the deterministic score.
//! A versioned binary codec persists the baseline so repeated runs skip
//! re-indexing.
pub mod codec;
pub mod data;
pub mod laws;
pub mod levels;
pub mod model;
pub mod score;
pub mod table;

pub use data::{PContributor, PContributorSkill, PInput, POutput, PPlannedProject, PProject};
