//! Parsed problem-instance and plan records, as handed over by the parsing
//! collaborator. The engine assumes they are structurally well formed
//! (`wf_input`); malformed text is rejected before these records exist.
use vstd::prelude::*;

verus! {

/// Dense integer identifier for contributors, projects and skills.
pub type Id = usize;

/// Skill level (of a contributor) or required level (of a project role).
pub type Level = usize;

/// One named, leveled skill entry of a contributor record or a project role.
#[derive(Debug, PartialEq)]
pub struct PContributorSkill {
    pub name: String,
    pub level: usize,
}

/// One contributor record of the instance, in roster order.
#[derive(Debug, PartialEq)]
pub struct PContributor {
    pub name: String,
    pub n_skills: usize,
    pub skills: Vec<PContributorSkill>,
    pub id: Id,
}

/// One project record of the instance, in input order. `skills` is the
/// ordered role list: position `i` is role `i`.
#[derive(Debug, PartialEq)]
pub struct PProject {
    pub name: String,
    pub days_to_completion: usize,
    pub score: usize,
    pub best_before: usize,
    pub n_roles: usize,
    pub skills: Vec<PContributorSkill>,
    pub id: Id,
}

/// A whole parsed problem instance.
#[derive(Debug, PartialEq)]
pub struct PInput {
    pub n_contributors: usize,
    pub n_projects: usize,
    pub contributors: Vec<PContributor>,
    pub projects: Vec<PProject>,
}

/// One line of a parsed assignment plan: a project name and the contributor
/// names filling its roles, in role order.
#[derive(Debug, PartialEq)]
pub struct PPlannedProject {
    pub name: String,
    pub roles: Vec<String>,
}

/// A whole parsed assignment plan; entry order is the processing order.
#[derive(Debug, PartialEq)]
pub struct POutput {
    pub n_projects: usize,
    pub projects: Vec<PPlannedProject>,
}

/// Structural well-formedness of a parsed instance: counts agree, the `id`
/// fields equal the record's position, and contributor and project names are
/// pairwise distinct.
pub open spec fn wf_input(input: PInput) -> bool {
    &&& input.n_contributors == input.contributors@.len()
    &&& input.n_projects == input.projects@.len()
    &&& forall|i: int|
        0 <= i < input.contributors@.len() ==> {
            let c = #[trigger] input.contributors@[i];
            c.id == i && c.n_skills == c.skills@.len()
        }
    &&& forall|i: int|
        0 <= i < input.projects@.len() ==> {
            let p = #[trigger] input.projects@[i];
            p.id == i && p.n_roles == p.skills@.len()
        }
    &&& forall|i: int, j: int|
        0 <= i < j < input.contributors@.len()
            ==> input.contributors@[i].name@ != input.contributors@[j].name@
    &&& forall|i: int, j: int|
        0 <= i < j < input.projects@.len()
            ==> input.projects@[i].name@ != input.projects@[j].name@
}

} // verus!
