//! The executable engine: indexing an instance into a baseline, resolving a
//! plan against it, and replaying the plan into a score.
use crate::data::{wf_input, PInput, POutput};
use crate::levels::{assoc_set, level_of, LevelMap};
use crate::model::{
    avail_of, baseline_model, contrib_levels, contrib_model, contributors_table, cskill_names,
    entry_model, entry_ok, flat_cskill_names, flat_role_names, init_state, job_table,
    lemma_model_wf, levels_model, levels_model_to, max_avail, mentoring_applies, plan_model,
    plan_ok, pre_model, proj_model, projects_table, resolve_err, resolve_model, role_bad,
    role_names, roles_ok, same_static, score_model, score_post, set_avail, sim_entry, sim_plan,
    skill_table, team_max_level, train_one, train_roles, train_roles_ok, validation_err,
    BaselineV, ContribV, EntryV, ErrV, PreV, ProjV, SimState,
};
use crate::table::{
    add_name, add_names, distinct, find_name, idx_of, lemma_add_name_facts, lemma_add_names_app,
    lemma_add_names_facts, lemma_idx_of, lemma_names_of_push, names_of,
};
use vstd::prelude::*;

verus! {

/// A computed point total.
pub type Score = usize;

/// A simulated day count.
pub type Time = usize;

/// An indexed contributor: dense ID, listed skill IDs, and the next time the
/// contributor is free.
#[derive(Debug, Clone, PartialEq)]
pub struct Contributor {
    pub id: usize,
    pub name: String,
    pub skills: Vec<usize>,
    pub next_availability: Time,
}

impl View for Contributor {
    type V = ContribV;

    open spec fn view(&self) -> ContribV {
        ContribV {
            id: self.id,
            name: self.name@,
            skills: self.skills@,
            next_availability: self.next_availability,
        }
    }
}

/// An indexed project: dense ID and `(skill id, level required)` roles.
#[derive(Debug, Clone, PartialEq)]
pub struct Project {
    pub id: usize,
    pub name: String,
    pub skills: Vec<(usize, usize)>,
    pub days_to_completion: usize,
    pub score: usize,
    pub best_before: usize,
}

impl View for Project {
    type V = ProjV;

    open spec fn view(&self) -> ProjV {
        ProjV {
            id: self.id,
            name: self.name@,
            roles: self.skills@,
            days_to_completion: self.days_to_completion,
            score: self.score,
            best_before: self.best_before,
        }
    }
}

/// A resolved plan entry: project ID and the assigned contributor IDs, in
/// role order.
#[derive(Debug, Clone, PartialEq)]
pub struct PlannedProject {
    pub id: usize,
    pub contributors: Vec<usize>,
}

impl View for PlannedProject {
    type V = EntryV;

    open spec fn view(&self) -> EntryV {
        EntryV { id: self.id, team: self.contributors@ }
    }
}

/// The name tables and the level map of a baseline.
#[derive(Debug, Clone, PartialEq)]
pub struct PreComputed {
    pub contributors_id: Vec<String>,
    pub projects_id: Vec<String>,
    pub skills_id: Vec<String>,
    pub levels: LevelMap,
}

impl View for PreComputed {
    type V = PreV;

    open spec fn view(&self) -> PreV {
        PreV {
            contributors_id: names_of(self.contributors_id@),
            projects_id: names_of(self.projects_id@),
            skills_id: names_of(self.skills_id@),
            levels: self.levels@,
        }
    }
}

/// The full precomputed state of one problem instance.
#[derive(Debug, Clone, PartialEq)]
pub struct Baseline {
    pub precomputed: PreComputed,
    pub contributors: Vec<Contributor>,
    pub projects: Vec<Project>,
}

impl View for Baseline {
    type V = BaselineV;

    open spec fn view(&self) -> BaselineV {
        BaselineV {
            pre: self.precomputed@,
            contributors: self.contributors@.map_values(|c: Contributor| c@),
            projects: self.projects@.map_values(|p: Project| p@),
        }
    }
}

/// Why a scoring call failed. Resolution errors carry the offending names;
/// the others carry dense IDs.
#[derive(Debug, PartialEq)]
pub enum EngineError {
    UnknownJob { name: String },
    UnknownWorker { worker: String, job: String },
    InsufficientSkill {
        contributor: usize,
        skill: usize,
        level: usize,
        required: usize,
        project: usize,
        mentoring: bool,
    },
    NoWorkersAssigned { project: usize },
    RoleCountMismatch { project: usize },
    UnknownJobId { id: usize },
    ScoreOverflow,
}

impl View for EngineError {
    type V = ErrV;

    open spec fn view(&self) -> ErrV {
        match self {
            EngineError::UnknownJob { name } => ErrV::UnknownJob { name: name@ },
            EngineError::UnknownWorker { worker, job } => ErrV::UnknownWorker {
                worker: worker@,
                job: job@,
            },
            EngineError::InsufficientSkill {
                contributor,
                skill,
                level,
                required,
                project,
                mentoring,
            } => ErrV::InsufficientSkill {
                contributor: *contributor,
                skill: *skill,
                level: *level,
                required: *required,
                project: *project,
                mentoring: *mentoring,
            },
            EngineError::NoWorkersAssigned { project } => ErrV::NoWorkersAssigned {
                project: *project,
            },
            EngineError::RoleCountMismatch { project } => ErrV::RoleCountMismatch {
                project: *project,
            },
            EngineError::UnknownJobId { id } => ErrV::UnknownJobId { id: *id },
            EngineError::ScoreOverflow => ErrV::ScoreOverflow,
        }
    }
}

/// The view of a whole scoring result.
pub open spec fn res_view(r: Result<Score, EngineError>) -> Result<usize, ErrV> {
    match r {
        Ok(s) => Ok(s),
        Err(e) => Err(e@),
    }
}

/// Index a parsed instance: allocate skill IDs (project roles first, then
/// contributor listings), build the three name tables, the initial level map,
/// and the indexed contributor and project records.
pub fn precompute_from_input(input: &PInput) -> (r: (PreComputed, Vec<Contributor>, Vec<Project>))
    requires
        wf_input(*input),
    ensures
        r.0@ == pre_model(*input),
        r.1@.map_values(|c: Contributor| c@) == baseline_model(*input).contributors,
        r.2@.map_values(|p: Project| p@) == baseline_model(*input).projects,
{
    let np = input.projects.len();
    let nc = input.contributors.len();

    // Pass 1a: allocate a skill ID for every unseen project role name.
    let mut skills_id: Vec<String> = Vec::new();
    for k in 0..np
        invariant
            np == input.projects@.len(),
            distinct(names_of(skills_id@)),
            names_of(skills_id@) == add_names(
                Seq::<Seq<char>>::empty(),
                flat_role_names(input.projects@.take(k as int)),
            ),
    {
        let nr = input.projects[k].skills.len();
        let ghost t0 = names_of(skills_id@);
        for j in 0..nr
            invariant
                np == input.projects@.len(),
                k < np,
                nr == input.projects@[k as int].skills@.len(),
                distinct(names_of(skills_id@)),
                t0 == add_names(
                    Seq::<Seq<char>>::empty(),
                    flat_role_names(input.projects@.take(k as int)),
                ),
                names_of(skills_id@) == add_names(
                    t0,
                    role_names(input.projects@[k as int]).take(j as int),
                ),
        {
            let ghost tprev = names_of(skills_id@);
            let ghost rn = role_names(input.projects@[k as int]);
            let found = find_name(&skills_id, &input.projects[k].skills[j].name);
            proof {
                assert(rn[j as int] == input.projects@[k as int].skills@[j as int].name@);
            }
            match found {
                Some(_) => {
                    proof {
                        assert(tprev.contains(rn[j as int]));
                        assert(rn.take(j + 1).drop_last() =~= rn.take(j as int));
                        assert(rn.take(j + 1).last() == rn[j as int]);
                        assert(add_names(t0, rn.take(j + 1)) == add_name(tprev, rn[j as int]));
                    }
                },
                None => {
                    let ghost vprev = skills_id@;
                    skills_id.push(input.projects[k].skills[j].name.clone());
                    proof {
                        lemma_names_of_push(vprev, skills_id@.last());
                        assert(names_of(skills_id@) == tprev.push(rn[j as int]));
                    }
                },
            }
            proof {
                lemma_add_name_facts(tprev, rn[j as int]);
                assert(rn.take(j + 1).drop_last() =~= rn.take(j as int));
                assert(rn.take(j + 1).last() == rn[j as int]);
            }
        }
        proof {
            let ps = input.projects@;
            crate::model::lemma_flat_role_names_take(ps, k as int);
            lemma_add_names_app(
                Seq::<Seq<char>>::empty(),
                flat_role_names(ps.take(k as int)),
                role_names(ps[k as int]),
            );
            assert(role_names(ps[k as int]).take(nr as int) =~= role_names(ps[k as int]));
        }
    }
    proof {
        assert(input.projects@.take(np as int) =~= input.projects@);
        assert(names_of(skills_id@) == job_table(*input));
    }
    let j_count = skills_id.len();

    // Pass 1b: allocate IDs for contributor-only skills.
    for k in 0..nc
        invariant
            nc == input.contributors@.len(),
            j_count == job_table(*input).len(),
            distinct(names_of(skills_id@)),
            names_of(skills_id@) == add_names(
                job_table(*input),
                flat_cskill_names(input.contributors@.take(k as int)),
            ),
    {
        let ns = input.contributors[k].skills.len();
        let ghost t0 = names_of(skills_id@);
        for j in 0..ns
            invariant
                nc == input.contributors@.len(),
                k < nc,
                ns == input.contributors@[k as int].skills@.len(),
                j_count == job_table(*input).len(),
                distinct(names_of(skills_id@)),
                t0 == add_names(
                    job_table(*input),
                    flat_cskill_names(input.contributors@.take(k as int)),
                ),
                names_of(skills_id@) == add_names(
                    t0,
                    cskill_names(input.contributors@[k as int]).take(j as int),
                ),
        {
            let ghost tprev = names_of(skills_id@);
            let ghost rn = cskill_names(input.contributors@[k as int]);
            let found = find_name(&skills_id, &input.contributors[k].skills[j].name);
            proof {
                assert(rn[j as int] == input.contributors@[k as int].skills@[j as int].name@);
            }
            match found {
                Some(_) => {
                    proof {
                        assert(tprev.contains(rn[j as int]));
                    }
                },
                None => {
                    let ghost vprev = skills_id@;
                    skills_id.push(input.contributors[k].skills[j].name.clone());
                    proof {
                        lemma_names_of_push(vprev, skills_id@.last());
                        assert(names_of(skills_id@) == tprev.push(rn[j as int]));
                    }
                },
            }
            proof {
                lemma_add_name_facts(tprev, rn[j as int]);
                assert(rn.take(j + 1).drop_last() =~= rn.take(j as int));
                assert(rn.take(j + 1).last() == rn[j as int]);
            }
        }
        proof {
            let cs = input.contributors@;
            crate::model::lemma_flat_cskill_names_take(cs, k as int);
            lemma_add_names_app(
                job_table(*input),
                flat_cskill_names(cs.take(k as int)),
                cskill_names(cs[k as int]),
            );
            assert(cskill_names(cs[k as int]).take(ns as int) =~= cskill_names(cs[k as int]));
        }
    }
    proof {
        assert(input.contributors@.take(nc as int) =~= input.contributors@);
        assert(names_of(skills_id@) == skill_table(*input));
        lemma_add_names_facts(job_table(*input), flat_cskill_names(input.contributors@));
    }

    // Pass 2: index every project's roles against the finished skill table.
    let mut projects_id: Vec<String> = Vec::new();
    let mut projects: Vec<Project> = Vec::new();
    for k in 0..np
        invariant
            np == input.projects@.len(),
            wf_input(*input),
            distinct(names_of(skills_id@)),
            names_of(skills_id@) == skill_table(*input),
            names_of(projects_id@) == projects_table(*input).take(k as int),
            projects@.map_values(|p: Project| p@) == baseline_model(*input).projects.take(
                k as int,
            ),
    {
        let ghost pidprev = projects_id@;
        projects_id.push(input.projects[k].name.clone());
        proof {
            lemma_names_of_push(pidprev, projects_id@.last());
            assert(projects_table(*input)[k as int] == input.projects@[k as int].name@);
            assert(projects_table(*input).take(k + 1) =~= projects_table(*input).take(
                k as int,
            ).push(input.projects@[k as int].name@));
            assert(names_of(projects_id@) == projects_table(*input).take(k + 1));
        }
        let nr = input.projects[k].skills.len();
        let ghost pm = proj_model(*input, input.projects@[k as int]);
        let mut roles: Vec<(usize, usize)> = Vec::new();
        for j in 0..nr
            invariant
                np == input.projects@.len(),
                k < np,
                wf_input(*input),
                nr == input.projects@[k as int].skills@.len(),
                distinct(names_of(skills_id@)),
                names_of(skills_id@) == skill_table(*input),
                pm == proj_model(*input, input.projects@[k as int]),
                roles@ == pm.roles.take(j as int),
        {
            let found = find_name(&skills_id, &input.projects[k].skills[j].name);
            let ghost nm = input.projects@[k as int].skills@[j as int].name@;
            match found {
                Some(i) => {
                    proof {
                        assert(skill_table(*input)[i as int] == nm);
                        assert(skill_table(*input).contains(nm));
                        lemma_idx_of(skill_table(*input), nm);
                        assert(i as int == idx_of(skill_table(*input), nm));
                        assert(pm.roles[j as int] == (i, input.projects@[k as int].skills@[
                            j as int
                        ].level));
                        assert(pm.roles.take(j + 1) =~= pm.roles.take(j as int).push(
                            pm.roles[j as int],
                        ));
                    }
                    roles.push((i, input.projects[k].skills[j].level));
                },
                None => {
                    proof {
                        crate::model::lemma_flat_role_names_contains(
                            input.projects@,
                            k as int,
                            j as int,
                        );
                        lemma_add_names_facts(
                            Seq::<Seq<char>>::empty(),
                            flat_role_names(input.projects@),
                        );
                        assert(job_table(*input).contains(nm));
                        lemma_add_names_facts(
                            job_table(*input),
                            flat_cskill_names(input.contributors@),
                        );
                        assert(add_names(
                            job_table(*input),
                            flat_cskill_names(input.contributors@),
                        ).contains(nm));
                        assert(skill_table(*input).contains(nm));
                        assert(false);
                    }
                },
            }
        }
        let newp = Project {
            id: input.projects[k].id,
            name: input.projects[k].name.clone(),
            skills: roles,
            days_to_completion: input.projects[k].days_to_completion,
            score: input.projects[k].score,
            best_before: input.projects[k].best_before,
        };
        proof {
            assert(pm.roles.take(nr as int) =~= pm.roles);
            assert(newp@ =~= pm);
            assert(baseline_model(*input).projects[k as int] == pm);
            assert(projects@.push(newp).map_values(|p: Project| p@) =~= projects@.map_values(
                |p: Project| p@,
            ).push(newp@));
            assert(baseline_model(*input).projects.take(k + 1) =~= baseline_model(
                *input,
            ).projects.take(k as int).push(pm));
        }
        projects.push(newp);
    }
    proof {
        assert(projects_table(*input).take(np as int) =~= projects_table(*input));
        assert(baseline_model(*input).projects.take(np as int) =~= baseline_model(
            *input,
        ).projects);
    }

    // Pass 3: index contributor listings; record levels for job-required
    // skills only.
    let mut contributors_id: Vec<String> = Vec::new();
    let mut contributors: Vec<Contributor> = Vec::new();
    let mut levels = LevelMap::new();
    for k in 0..nc
        invariant
            nc == input.contributors@.len(),
            wf_input(*input),
            j_count == job_table(*input).len(),
            distinct(names_of(skills_id@)),
            names_of(skills_id@) == skill_table(*input),
            names_of(contributors_id@) == contributors_table(*input).take(k as int),
            contributors@.map_values(|c: Contributor| c@) == baseline_model(
                *input,
            ).contributors.take(k as int),
            levels.wf(),
            levels@ == levels_model_to(*input, k as int),
    {
        let ghost cidprev = contributors_id@;
        contributors_id.push(input.contributors[k].name.clone());
        proof {
            lemma_names_of_push(cidprev, contributors_id@.last());
            assert(contributors_table(*input)[k as int] == input.contributors@[k as int].name@);
            assert(contributors_table(*input).take(k + 1) =~= contributors_table(*input).take(
                k as int,
            ).push(input.contributors@[k as int].name@));
            assert(names_of(contributors_id@) == contributors_table(*input).take(k + 1));
        }
        let ns = input.contributors[k].skills.len();
        let ghost cm = contrib_model(*input, input.contributors@[k as int]);
        let ghost l0 = levels_model_to(*input, k as int);
        let mut cskills: Vec<usize> = Vec::new();
        for j in 0..ns
            invariant
                nc == input.contributors@.len(),
                k < nc,
                wf_input(*input),
                ns == input.contributors@[k as int].skills@.len(),
                j_count == job_table(*input).len(),
                distinct(names_of(skills_id@)),
                names_of(skills_id@) == skill_table(*input),
                cm == contrib_model(*input, input.contributors@[k as int]),
                l0 == levels_model_to(*input, k as int),
                cskills@ == cm.skills.take(j as int),
                levels.wf(),
                levels@ == contrib_levels(
                    l0,
                    *input,
                    input.contributors@[k as int],
                    j as int,
                ),
        {
            let found = find_name(&skills_id, &input.contributors[k].skills[j].name);
            let ghost nm = input.contributors@[k as int].skills@[j as int].name@;
            let ghost crec = input.contributors@[k as int];
            match found {
                Some(i) => {
                    proof {
                        assert(skill_table(*input)[i as int] == nm);
                        assert(skill_table(*input).contains(nm));
                        lemma_idx_of(skill_table(*input), nm);
                        assert(i as int == idx_of(skill_table(*input), nm));
                        assert(cm.skills[j as int] == i as usize);
                        assert(cm.skills.take(j + 1) =~= cm.skills.take(j as int).push(
                            cm.skills[j as int],
                        ));
                        // In range of the job-derived prefix iff some job
                        // requires the skill.
                        lemma_add_names_facts(
                            job_table(*input),
                            flat_cskill_names(input.contributors@),
                        );
                        if i < j_count {
                            assert(job_table(*input)[i as int] == skill_table(*input)[i as int]);
                            assert(job_table(*input).contains(nm));
                        }
                        if job_table(*input).contains(nm) {
                            let w = choose|w: int|
                                0 <= w < job_table(*input).len() && job_table(*input)[w] == nm;
                            assert(skill_table(*input)[w] == nm);
                            assert(w == i as int);
                        }
                        assert((i < j_count) <==> job_table(*input).contains(nm));
                    }
                    cskills.push(i);
                    if i < j_count {
                        levels.set(
                            input.contributors[k].id,
                            i,
                            input.contributors[k].skills[j].level,
                        );
                        proof {
                            assert(crec.id == k as int);
                            assert(levels@ == assoc_set(
                                contrib_levels(l0, *input, crec, j as int),
                                crec.id,
                                i,
                                crec.skills@[j as int].level,
                            ));
                        }
                    }
                },
                None => {
                    proof {
                        crate::model::lemma_flat_cskill_names_contains(
                            input.contributors@,
                            k as int,
                            j as int,
                        );
                        lemma_add_names_facts(
                            job_table(*input),
                            flat_cskill_names(input.contributors@),
                        );
                        assert(add_names(
                            job_table(*input),
                            flat_cskill_names(input.contributors@),
                        ).contains(nm));
                        assert(skill_table(*input).contains(nm));
                        assert(false);
                    }
                },
            }
        }
        let newc = Contributor {
            id: input.contributors[k].id,
            name: input.contributors[k].name.clone(),
            skills: cskills,
            next_availability: 0,
        };
        proof {
            assert(cm.skills.take(ns as int) =~= cm.skills);
            assert(newc@ =~= cm);
            assert(baseline_model(*input).contributors[k as int] == cm);
            assert(contributors@.push(newc).map_values(|c: Contributor| c@)
                =~= contributors@.map_values(|c: Contributor| c@).push(newc@));
            assert(baseline_model(*input).contributors.take(k + 1) =~= baseline_model(
                *input,
            ).contributors.take(k as int).push(cm));
            assert(levels@ == contrib_levels(l0, *input, input.contributors@[k as int], ns as int));
            assert(levels@ == levels_model_to(*input, k + 1));
        }
        contributors.push(newc);
    }
    proof {
        assert(contributors_table(*input).take(nc as int) =~= contributors_table(*input));
        assert(baseline_model(*input).contributors.take(nc as int) =~= baseline_model(
            *input,
        ).contributors);
        assert(levels@ == levels_model(*input));
    }

    let pre = PreComputed { contributors_id, projects_id, skills_id, levels };
    proof {
        assert(pre@ =~= pre_model(*input));
    }
    (pre, contributors, projects)
}

/// Resolve a parsed plan against the baseline's name tables, preserving file
/// order. Fails closed: the first unknown project or contributor name is an
/// error, never a default ID.
pub fn precompute_from_output(precomputed: &PreComputed, output: &POutput) -> (r: Result<
    Vec<PlannedProject>,
    EngineError,
>)
    requires
        distinct(precomputed@.contributors_id),
        distinct(precomputed@.projects_id),
    ensures
        match r {
            Ok(v) => {
                &&& plan_ok(precomputed@, *output)
                &&& v@.map_values(|e: PlannedProject| e@) == plan_model(precomputed@, *output)
                &&& forall|k: int|
                    0 <= k < v@.len() ==> (#[trigger] v@[k]).id < precomputed@.projects_id.len()
                &&& forall|k: int, i: int|
                    0 <= k < v@.len() && 0 <= i < v@[k].contributors@.len() ==> (#[trigger] v@[
                        k
                    ].contributors@[i]) < precomputed@.contributors_id.len()
            },
            Err(e) => !plan_ok(precomputed@, *output) && e@ == resolve_err(
                precomputed@,
                *output,
            ),
        },
{
    let ghost prev = precomputed@;
    let n = output.projects.len();
    let mut resolved: Vec<PlannedProject> = Vec::new();
    for k in 0..n
        invariant
            n == output.projects@.len(),
            prev == precomputed@,
            distinct(prev.contributors_id),
            distinct(prev.projects_id),
            forall|j: int| 0 <= j < k ==> entry_ok(prev, #[trigger] output.projects@[j]),
            resolved@.map_values(|e: PlannedProject| e@) == plan_model(prev, *output).take(
                k as int,
            ),
            resolved@.len() == k,
            forall|j: int|
                0 <= j < k ==> (#[trigger] resolved@[j]).id < prev.projects_id.len(),
            forall|j: int, i: int|
                0 <= j < k && 0 <= i < resolved@[j].contributors@.len() ==> (#[trigger] resolved@[
                    j
                ].contributors@[i]) < prev.contributors_id.len(),
    {
        let ghost ename = output.projects@[k as int].name@;
        let jid = match find_name(&precomputed.projects_id, &output.projects[k].name) {
            Some(i) => i,
            None => {
                proof {
                    assert(!prev.projects_id.contains(ename));
                    assert(!entry_ok(prev, output.projects@[k as int]));
                    assert(!plan_ok(prev, *output));
                    crate::model::lemma_first_bad_entry_from(prev, output.projects@, 0, k as int);
                }
                return Err(EngineError::UnknownJob { name: output.projects[k].name.clone() });
            },
        };
        proof {
            assert(prev.projects_id[jid as int] == ename);
            assert(prev.projects_id.contains(ename));
            lemma_idx_of(prev.projects_id, ename);
            assert(jid as int == idx_of(prev.projects_id, ename));
        }
        let nr = output.projects[k].roles.len();
        let ghost em = entry_model(prev, output.projects@[k as int]);
        let mut team: Vec<usize> = Vec::new();
        for i in 0..nr
            invariant
                n == output.projects@.len(),
                k < n,
                prev == precomputed@,
                distinct(prev.contributors_id),
                distinct(prev.projects_id),
                nr == output.projects@[k as int].roles@.len(),
                forall|j: int| 0 <= j < k ==> entry_ok(prev, #[trigger] output.projects@[j]),
                prev.projects_id.contains(ename),
                ename == output.projects@[k as int].name@,
                em == entry_model(prev, output.projects@[k as int]),
                forall|j: int|
                    0 <= j < i ==> prev.contributors_id.contains(
                        (#[trigger] output.projects@[k as int].roles@[j])@,
                    ),
                team@ == em.team.take(i as int),
                forall|j: int| 0 <= j < team@.len() ==> team@[j] < prev.contributors_id.len(),
        {
            let ghost wname = output.projects@[k as int].roles@[i as int]@;
            match find_name(&precomputed.contributors_id, &output.projects[k].roles[i]) {
                Some(w) => {
                    proof {
                        assert(prev.contributors_id[w as int] == wname);
                        assert(prev.contributors_id.contains(wname));
                        lemma_idx_of(prev.contributors_id, wname);
                        assert(w as int == idx_of(prev.contributors_id, wname));
                        assert(em.team[i as int] == w as usize);
                        assert(em.team.take(i + 1) =~= em.team.take(i as int).push(
                            em.team[i as int],
                        ));
                    }
                    team.push(w);
                },
                None => {
                    proof {
                        assert(!prev.contributors_id.contains(wname));
                        assert(!entry_ok(prev, output.projects@[k as int]));
                        assert(!plan_ok(prev, *output));
                        crate::model::lemma_first_bad_entry_from(
                            prev,
                            output.projects@,
                            0,
                            k as int,
                        );
                        crate::model::lemma_first_unknown_from(
                            prev.contributors_id,
                            output.projects@[k as int].roles@,
                            0,
                            i as int,
                        );
                    }
                    return Err(
                        EngineError::UnknownWorker {
                            worker: output.projects[k].roles[i].clone(),
                            job: output.projects[k].name.clone(),
                        },
                    );
                },
            }
        }
        let newe = PlannedProject { id: jid, contributors: team };
        proof {
            assert(entry_ok(prev, output.projects@[k as int]));
            assert(em.team.take(nr as int) =~= em.team);
            assert(newe@ =~= em);
            assert(plan_model(prev, *output)[k as int] == em);
            assert(resolved@.push(newe).map_values(|e: PlannedProject| e@) =~= resolved@.map_values(
                |e: PlannedProject| e@,
            ).push(newe@));
            assert(plan_model(prev, *output).take(k + 1) =~= plan_model(prev, *output).take(
                k as int,
            ).push(em));
            lemma_idx_of(prev.projects_id, ename);
        }
        resolved.push(newe);
    }
    proof {
        assert(plan_model(prev, *output).take(n as int) =~= plan_model(prev, *output));
    }
    Ok(resolved)
}

/// Replay one resolved entry against the mutable run state. On success the
/// state advances exactly as `sim_entry` says; on an error the caller must
/// discard the state.
fn sim_step(
    levels: &mut LevelMap,
    avail: &mut Vec<usize>,
    total: &mut usize,
    projects: &Vec<Project>,
    entry: &PlannedProject,
    disable_checks: bool,
) -> (r: Result<(), EngineError>)
    requires
        old(levels).wf(),
        forall|i: int|
            0 <= i < entry.contributors@.len() ==> (#[trigger] entry.contributors@[i]) < old(
                avail,
            )@.len(),
    ensures
        ({
            let stk = SimState {
                levels: old(levels).map_view(),
                avail: old(avail)@,
                total: *old(total),
            };
            match sim_entry(stk, projects@.map_values(|p: Project| p@), entry@, disable_checks) {
                Ok(st) => {
                    &&& r is Ok
                    &&& final(levels).wf()
                    &&& final(levels).map_view() == st.levels
                    &&& final(avail)@ == st.avail
                    &&& final(avail)@.len() == old(avail)@.len()
                    &&& *final(total) == st.total
                },
                Err(e) => r is Err && (r matches Err(x) ==> x@ == e),
            }
        }),
{
    let ghost stk = SimState { levels: levels.map_view(), avail: avail@, total: *total };
    let ghost ps = projects@.map_values(|p: Project| p@);
    let ghost ev = entry@;
    let jid = entry.id;
    if jid >= projects.len() {
        return Err(EngineError::UnknownJobId { id: jid });
    }
    proof {
        assert(ps[jid as int] == projects@[jid as int]@);
    }
    let ghost proj = ps[jid as int];
    let team_len = entry.contributors.len();
    let nr = projects[jid].skills.len();
    if team_len < nr {
        return Err(EngineError::RoleCountMismatch { project: jid });
    }
    if !disable_checks {
        for i in 0..nr
            invariant
                !disable_checks,
                levels.wf(),
                *levels == *old(levels),
                *avail == *old(avail),
                *total == *old(total),
                stk == (SimState { levels: levels.map_view(), avail: avail@, total: *total }),
                ps == projects@.map_values(|p: Project| p@),
                ev == entry@,
                jid == entry.id,
                jid < projects@.len(),
                proj == ps[jid as int],
                team_len == entry.contributors@.len(),
                nr == proj.roles.len(),
                nr <= team_len,
                forall|j: int|
                    0 <= j < team_len ==> (#[trigger] entry.contributors@[j]) < old(
                        avail,
                    )@.len(),
                forall|j: int| 0 <= j < i ==> !role_bad(stk.levels, proj.roles, ev.team, j),
        {
            let skill = projects[jid].skills[i].0;
            let required = projects[jid].skills[i].1;
            proof {
                assert(proj.roles[i as int] == (skill, required));
            }
            let mut tm: usize = 0;
            for t in 0..team_len
                invariant
                    levels.wf(),
                    *levels == *old(levels),
                    stk.levels == levels.map_view(),
                    ev == entry@,
                    team_len == entry.contributors@.len(),
                    tm == team_max_level(stk.levels, ev.team.take(t as int), skill as int),
            {
                let member = entry.contributors[t];
                let l = levels.get_or_zero(member, skill);
                proof {
                    assert(ev.team.take(t + 1).drop_last() =~= ev.team.take(t as int));
                    assert(ev.team.take(t + 1).last() == ev.team[t as int]);
                }
                if l > tm {
                    tm = l;
                }
            }
            proof {
                assert(ev.team.take(team_len as int) =~= ev.team);
            }
            let mentoring = tm >= required;
            let holder = entry.contributors[i];
            let hl = levels.get_or_zero(holder, skill);
            let violation: bool = if mentoring {
                required > 0 && hl < required - 1
            } else {
                hl < required
            };
            proof {
                assert(mentoring == mentoring_applies(stk.levels, ev.team, skill as int, required));
                assert(hl == level_of(stk.levels, ev.team[i as int] as int, skill as int));
                assert(violation == role_bad(stk.levels, proj.roles, ev.team, i as int));
            }
            if violation {
                let eff = if mentoring {
                    required - 1
                } else {
                    required
                };
                proof {
                    crate::model::lemma_first_bad_role_from(
                        stk.levels,
                        proj.roles,
                        ev.team,
                        0,
                        i as int,
                    );
                    assert(validation_err(stk.levels, proj.roles, ev.team, jid)
                        == ErrV::InsufficientSkill {
                        contributor: holder,
                        skill,
                        level: hl,
                        required: eff,
                        project: jid,
                        mentoring,
                    });
                    assert(!roles_ok(stk.levels, proj.roles, ev.team));
                    assert(sim_entry(stk, ps, ev, disable_checks) == Err::<SimState, ErrV>(
                        validation_err(stk.levels, proj.roles, ev.team, jid),
                    ));
                }
                return Err(
                    EngineError::InsufficientSkill {
                        contributor: holder,
                        skill,
                        level: hl,
                        required: eff,
                        project: jid,
                        mentoring,
                    },
                );
            }
        }
        proof {
            assert(roles_ok(stk.levels, proj.roles, ev.team));
        }
    }
    if team_len == 0 {
        proof {
            assert(proj.roles.len() == 0);
            assert(roles_ok(stk.levels, proj.roles, ev.team));
            assert(sim_entry(stk, ps, ev, disable_checks) == Err::<SimState, ErrV>(
                ErrV::NoWorkersAssigned { project: jid },
            ));
        }
        return Err(EngineError::NoWorkersAssigned { project: jid });
    }

    // Start time: the latest next-availability in the team.
    let mut start: usize = 0;
    for t in 0..team_len
        invariant
            *levels == *old(levels),
            *avail == *old(avail),
            *total == *old(total),
            stk == (SimState { levels: levels.map_view(), avail: avail@, total: *total }),
            ev == entry@,
            team_len == entry.contributors@.len(),
            forall|i: int|
                0 <= i < team_len ==> (#[trigger] entry.contributors@[i]) < old(avail)@.len(),
            start == max_avail(stk.avail, ev.team.take(t as int)),
    {
        let member = entry.contributors[t];
        let a = avail[member];
        proof {
            assert(ev.team.take(t + 1).drop_last() =~= ev.team.take(t as int));
            assert(ev.team.take(t + 1).last() == ev.team[t as int]);
        }
        if a > start {
            start = a;
        }
    }
    proof {
        assert(ev.team.take(team_len as int) =~= ev.team);
        assert(start == max_avail(stk.avail, ev.team));
    }

    // End time, lateness, contribution.
    if projects[jid].days_to_completion > usize::MAX - start {
        proof {
            assert(sim_entry(stk, ps, ev, disable_checks) == Err::<SimState, ErrV>(
                ErrV::ScoreOverflow,
            ));
        }
        return Err(EngineError::ScoreOverflow);
    }
    let end = start + projects[jid].days_to_completion;
    let bb = projects[jid].best_before;
    let base = projects[jid].score;
    let gain: usize = if end <= bb {
        base
    } else {
        let late = end - bb;
        if late < base {
            base - late
        } else {
            0
        }
    };
    proof {
        assert(gain as int == crate::model::contribution(
            proj.score,
            end as int,
            proj.best_before as int,
        ));
    }
    if gain > usize::MAX - *total {
        proof {
            assert(stk.total + crate::model::contribution(
                proj.score,
                end as int,
                proj.best_before as int,
            ) > usize::MAX);
            assert(sim_entry(stk, ps, ev, disable_checks) == Err::<SimState, ErrV>(
                ErrV::ScoreOverflow,
            ));
        }
        return Err(EngineError::ScoreOverflow);
    }
    let new_total = *total + gain;

    // The whole team is busy until the job ends.
    let mut t: usize = 0;
    while t < team_len
        invariant
            t <= team_len,
            *levels == *old(levels),
            *total == *old(total),
            levels.wf(),
            stk == (SimState {
                levels: levels.map_view(),
                avail: old(avail)@,
                total: *total,
            }),
            ps == projects@.map_values(|p: Project| p@),
            ev == entry@,
            jid == entry.id,
            jid < projects@.len(),
            proj == ps[jid as int],
            team_len == entry.contributors@.len(),
            nr == proj.roles.len(),
            nr <= team_len,
            team_len > 0,
            !disable_checks ==> roles_ok(stk.levels, proj.roles, ev.team),
            forall|i: int|
                0 <= i < team_len ==> (#[trigger] entry.contributors@[i]) < old(avail)@.len(),
            max_avail(stk.avail, ev.team) + proj.days_to_completion == end as int,
            stk.total + crate::model::contribution(
                proj.score,
                end as int,
                proj.best_before as int,
            ) == new_total as int,
            avail@.len() == old(avail)@.len(),
            avail@ == set_avail(stk.avail, ev.team.take(t as int), end),
        decreases team_len - t,
    {
        let member = entry.contributors[t];
        avail[member] = end;
        proof {
            assert(ev.team.take(t + 1).drop_last() =~= ev.team.take(t as int));
            assert(ev.team.take(t + 1).last() == ev.team[t as int]);
        }
        t = t + 1;
    }
    proof {
        assert(ev.team.take(team_len as int) =~= ev.team);
        assert(avail@ == set_avail(stk.avail, ev.team, end));
    }

    // Training: each role holder at or below the original requirement grows
    // by one.
    let mut i: usize = 0;
    while i < nr
        invariant
            i <= nr,
            *total == *old(total),
            levels.wf(),
            stk == (SimState {
                levels: old(levels).map_view(),
                avail: old(avail)@,
                total: *total,
            }),
            ps == projects@.map_values(|p: Project| p@),
            ev == entry@,
            jid == entry.id,
            jid < projects@.len(),
            proj == ps[jid as int],
            team_len == entry.contributors@.len(),
            nr == proj.roles.len(),
            nr <= team_len,
            team_len > 0,
            !disable_checks ==> roles_ok(stk.levels, proj.roles, ev.team),
            max_avail(stk.avail, ev.team) + proj.days_to_completion == end as int,
            stk.total + crate::model::contribution(
                proj.score,
                end as int,
                proj.best_before as int,
            ) == new_total as int,
            avail@.len() == old(avail)@.len(),
            avail@ == set_avail(stk.avail, ev.team, end),
            levels.map_view() == train_roles(stk.levels, proj.roles, ev.team, i as int),
            train_roles_ok(stk.levels, proj.roles, ev.team, i as int),
        decreases nr - i,
    {
        let holder = entry.contributors[i];
        let skill = projects[jid].skills[i].0;
        let required = projects[jid].skills[i].1;
        proof {
            assert(proj.roles[i as int] == (skill, required));
        }
        let cur = levels.get_or_zero(holder, skill);
        if cur <= required {
            if cur == usize::MAX {
                proof {
                    assert(!train_roles_ok(stk.levels, proj.roles, ev.team, i + 1));
                    assert(!train_roles_ok(
                        stk.levels,
                        proj.roles,
                        ev.team,
                        proj.roles.len() as int,
                    )) by {
                        if train_roles_ok(
                            stk.levels,
                            proj.roles,
                            ev.team,
                            proj.roles.len() as int,
                        ) {
                            crate::model::lemma_train_ok_mono(
                                stk.levels,
                                proj.roles,
                                ev.team,
                                i + 1,
                                proj.roles.len() as int,
                            );
                        }
                    }
                    assert(sim_entry(stk, ps, ev, disable_checks) == Err::<SimState, ErrV>(
                        ErrV::ScoreOverflow,
                    ));
                }
                return Err(EngineError::ScoreOverflow);
            }
            levels.set(holder, skill, cur + 1);
            proof {
                assert(levels.map_view() == train_one(
                    train_roles(stk.levels, proj.roles, ev.team, i as int),
                    ev.team[i as int],
                    proj.roles[i as int].0,
                    proj.roles[i as int].1,
                ));
            }
        } else {
            proof {
                assert(levels.map_view() == train_one(
                    train_roles(stk.levels, proj.roles, ev.team, i as int),
                    ev.team[i as int],
                    proj.roles[i as int].0,
                    proj.roles[i as int].1,
                ));
            }
        }
        i = i + 1;
    }
    *total = new_total;
    proof {
        assert(levels.map_view() == train_roles(
            stk.levels,
            proj.roles,
            ev.team,
            proj.roles.len() as int,
        ));
        assert(sim_entry(stk, ps, ev, disable_checks) == Ok::<SimState, ErrV>(
            SimState {
                levels: train_roles(stk.levels, proj.roles, ev.team, proj.roles.len() as int),
                avail: set_avail(stk.avail, ev.team, end),
                total: new_total,
            },
        ));
    }
    Ok(())
}

/// Score a plan against a baseline, mutating its level map and worker
/// availability exactly when the run succeeds. On any error the baseline is
/// left as it was and no partial score is returned.
pub fn score(baseline: &mut Baseline, plan: &POutput, disable_checks: bool) -> (r: Result<
    Score,
    EngineError,
>)
    requires
        crate::model::wf_baseline(old(baseline)@),
    ensures
        crate::model::wf_baseline(final(baseline)@),
        score_post(old(baseline)@, final(baseline)@, *plan, disable_checks, res_view(r)),
{
    let ghost b0 = baseline@;
    let resolved = match precompute_from_output(&baseline.precomputed, plan) {
        Ok(v) => v,
        Err(e) => {
            return Err(e);
        },
    };
    let ghost entries_v = resolved@.map_values(|e: PlannedProject| e@);
    let ghost st0 = init_state(b0);

    // Work on copies; commit only on success.
    let mut levels = baseline.precomputed.levels.duplicate();
    let nw = baseline.contributors.len();
    let mut avail: Vec<usize> = Vec::new();
    for i in 0..nw
        invariant
            *baseline == *old(baseline),
            b0 == baseline@,
            nw == baseline.contributors@.len(),
            avail@ == avail_of(b0.contributors).take(i as int),
    {
        avail.push(baseline.contributors[i].next_availability);
        proof {
            assert(avail_of(b0.contributors)[i as int] == baseline.contributors@[i as int]@.next_availability);
            assert(avail_of(b0.contributors).take(i + 1) =~= avail_of(b0.contributors).take(
                i as int,
            ).push(avail_of(b0.contributors)[i as int]));
        }
    }
    proof {
        assert(avail_of(b0.contributors).take(nw as int) =~= avail_of(b0.contributors));
        assert(avail@ == st0.avail);
        assert(levels.map_view() == st0.levels);
    }
    let mut total: usize = 0;
    let nplan = resolved.len();
    for k in 0..nplan
        invariant
            *baseline == *old(baseline),
            b0 == baseline@,
            crate::model::wf_baseline(b0),
            nplan == resolved@.len(),
            entries_v == resolved@.map_values(|e: PlannedProject| e@),
            plan_ok(b0.pre, *plan),
            entries_v == plan_model(b0.pre, *plan),
            st0 == init_state(b0),
            forall|j: int, i: int|
                0 <= j < resolved@.len() && 0 <= i < resolved@[j].contributors@.len() ==> (
                #[trigger] resolved@[j].contributors@[i]) < b0.pre.contributors_id.len(),
            levels.wf(),
            avail@.len() == b0.contributors.len(),
            sim_plan(st0, b0.projects, entries_v.take(k as int), disable_checks) == Ok::<
                SimState,
                ErrV,
            >(SimState { levels: levels.map_view(), avail: avail@, total: total }),
    {
        let ghost stk = SimState { levels: levels.map_view(), avail: avail@, total: total };
        let ghost ev = entries_v[k as int];
        proof {
            assert(ev == resolved@[k as int]@);
            assert(b0.projects == baseline.projects@.map_values(|p: Project| p@));
        }
        let step = sim_step(
            &mut levels,
            &mut avail,
            &mut total,
            &baseline.projects,
            &resolved[k],
            disable_checks,
        );
        match step {
            Ok(()) => {
                proof {
                    assert(entries_v.take(k + 1).drop_last() =~= entries_v.take(k as int));
                    assert(entries_v.take(k + 1).last() == ev);
                    assert(sim_plan(st0, b0.projects, entries_v.take(k + 1), disable_checks)
                        == sim_entry(stk, b0.projects, ev, disable_checks));
                }
            },
            Err(e) => {
                proof {
                    let se = sim_entry(stk, b0.projects, ev, disable_checks);
                    assert(se is Err);
                    assert(entries_v.take(k + 1).drop_last() =~= entries_v.take(k as int));
                    assert(entries_v.take(k + 1).last() == ev);
                    assert(sim_plan(st0, b0.projects, entries_v.take(k + 1), disable_checks)
                        == se);
                    crate::model::lemma_sim_plan_prefix_err(
                        st0,
                        b0.projects,
                        entries_v,
                        disable_checks,
                        k + 1,
                        entries_v.len() as int,
                    );
                    assert(entries_v.take(entries_v.len() as int) =~= entries_v);
                }
                return Err(e);
            },
        }
    }
    let ghost stf = SimState { levels: levels.map_view(), avail: avail@, total: total };
    proof {
        assert(entries_v.take(nplan as int) =~= entries_v);
        assert(sim_plan(st0, b0.projects, entries_v, disable_checks) == Ok::<SimState, ErrV>(
            stf,
        ));
        assert(resolve_model(b0.pre, *plan) == Ok::<Seq<EntryV>, ErrV>(entries_v));
    }

    // Commit the run's final state into the baseline.
    baseline.precomputed.levels = levels;
    let mut i: usize = 0;
    while i < nw
        invariant
            i <= nw,
            nw == baseline.contributors@.len(),
            nw == b0.contributors.len(),
            avail@.len() == nw,
            avail@ == stf.avail,
            total == stf.total,
            baseline.precomputed.contributors_id == old(baseline).precomputed.contributors_id,
            baseline.precomputed.projects_id == old(baseline).precomputed.projects_id,
            baseline.precomputed.skills_id == old(baseline).precomputed.skills_id,
            baseline.projects == old(baseline).projects,
            baseline.precomputed.levels.wf(),
            baseline.precomputed.levels.map_view() == stf.levels,
            b0 == old(baseline)@,
            forall|j: int|
                i <= j < nw ==> baseline.contributors@[j] == old(baseline).contributors@[j],
            forall|j: int|
                0 <= j < i ==> {
                    let x = old(baseline).contributors@[j];
                    let y = #[trigger] baseline.contributors@[j];
                    y.id == x.id && y.name == x.name && y.skills == x.skills
                        && y.next_availability == avail@[j]
                },
        decreases nw - i,
    {
        let t = avail[i];
        baseline.contributors[i].next_availability = t;
        i = i + 1;
    }
    proof {
        let b1 = baseline@;
        assert(same_static(b0, b1)) by {
            assert forall|j: int| 0 <= j < b0.contributors.len() implies {
                let x = #[trigger] b0.contributors[j];
                let y = b1.contributors[j];
                y.id == x.id && y.name == x.name && y.skills == x.skills
            } by {
                assert(b0.contributors[j] == old(baseline).contributors@[j]@);
                assert(b1.contributors[j] == baseline.contributors@[j]@);
            }
        }
        assert(avail_of(b1.contributors) =~= avail@);
        assert(crate::model::wf_baseline(b1)) by {
            assert forall|j: int| 0 <= j < b1.contributors.len() implies (
            #[trigger] b1.contributors[j]).id == j by {
                assert(b1.contributors[j].id == b0.contributors[j].id);
            }
            assert forall|j: int| 0 <= j < b1.projects.len() implies (
            #[trigger] b1.projects[j]).id == j by {}
        }
    }
    Ok(total)
}

/// Build the whole baseline of an instance, availability at zero and no
/// mutation history.
pub fn build_baseline(input: &PInput) -> (r: Baseline)
    requires
        wf_input(*input),
    ensures
        r@ == baseline_model(*input),
        crate::model::wf_baseline(r@),
{
    let (precomputed, contributors, projects) = precompute_from_input(input);
    let r = Baseline { precomputed, contributors, projects };
    proof {
        assert(r@ =~= baseline_model(*input));
        lemma_model_wf(*input);
    }
    r
}

/// Build a fresh baseline and score the plan against it, with skill checks
/// enabled. The instance is indexed anew, so no state leaks between calls.
pub fn compute_score(input: &PInput, output: &POutput) -> (r: Result<Score, EngineError>)
    requires
        wf_input(*input),
    ensures
        res_view(r) == score_model(baseline_model(*input), *output, false),
{
    let mut baseline = build_baseline(input);
    let r = score(&mut baseline, output, false);
    proof {
        crate::model::lemma_score_post_result(
            baseline_model(*input),
            baseline@,
            *output,
            false,
            res_view(r),
        );
    }
    r
}

} // verus!
