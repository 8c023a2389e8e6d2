use score_engine::data::{
    PContributor, PContributorSkill, PInput, POutput, PPlannedProject, PProject,
};
use score_engine::score::{build_baseline, compute_score, score, EngineError};

fn skill(name: &str, level: usize) -> PContributorSkill {
    PContributorSkill { name: name.to_string(), level }
}

fn contributor(name: &str, skills: Vec<(&str, usize)>) -> PContributor {
    let skills: Vec<PContributorSkill> = skills.into_iter().map(|(n, l)| skill(n, l)).collect();
    PContributor { name: name.to_string(), n_skills: skills.len(), skills, id: 0 }
}

fn project(
    name: &str,
    days_to_completion: usize,
    score: usize,
    best_before: usize,
    roles: Vec<(&str, usize)>,
) -> PProject {
    let skills: Vec<PContributorSkill> = roles.into_iter().map(|(n, l)| skill(n, l)).collect();
    PProject {
        name: name.to_string(),
        days_to_completion,
        score,
        best_before,
        n_roles: skills.len(),
        skills,
        id: 0,
    }
}

fn instance(mut contributors: Vec<PContributor>, mut projects: Vec<PProject>) -> PInput {
    for (i, c) in contributors.iter_mut().enumerate() {
        c.id = i;
    }
    for (i, p) in projects.iter_mut().enumerate() {
        p.id = i;
    }
    PInput {
        n_contributors: contributors.len(),
        n_projects: projects.len(),
        contributors,
        projects,
    }
}

fn plan(entries: Vec<(&str, Vec<&str>)>) -> POutput {
    let projects: Vec<PPlannedProject> = entries
        .into_iter()
        .map(|(name, roles)| PPlannedProject {
            name: name.to_string(),
            roles: roles.into_iter().map(|r| r.to_string()).collect(),
        })
        .collect();
    POutput { n_projects: projects.len(), projects }
}

#[test]
fn scenario_lone_worker_below_requirement() {
    let input = instance(
        vec![contributor("W", vec![("S", 0)])],
        vec![project("J", 2, 10, 5, vec![("S", 1)])],
    );
    let output = plan(vec![("J", vec!["W"])]);
    let r = compute_score(&input, &output);
    assert_eq!(
        r,
        Err(EngineError::InsufficientSkill {
            contributor: 0,
            skill: 0,
            level: 0,
            required: 1,
            project: 0,
            mentoring: false,
        })
    );
}

#[test]
fn scenario_mentored_worker_passes_and_trains() {
    let input = instance(
        vec![contributor("W", vec![("S", 0)]), contributor("M", vec![("S", 2)])],
        vec![project("J", 2, 10, 5, vec![("S", 1)])],
    );
    let output = plan(vec![("J", vec!["W", "M"])]);
    let mut baseline = build_baseline(&input);
    let r = score(&mut baseline, &output, false);
    assert_eq!(r, Ok(10));
    // W (id 0) grew to level 1 in S (id 0); M (id 1) held no role and stays 2.
    let entries = &baseline.precomputed.levels.entries;
    assert!(entries.contains(&(0, 0, 1)));
    assert!(entries.contains(&(1, 0, 2)));
}

#[test]
fn scenario_availability_carries_between_jobs() {
    let input = instance(
        vec![contributor("W", vec![("S", 1)])],
        vec![
            project("J1", 3, 10, 10, vec![("S", 1)]),
            project("J2", 2, 10, 4, vec![("S", 1)]),
        ],
    );
    // J1 ends at 3, so J2 starts at max(3) = 3, ends at 5, one day late.
    let output = plan(vec![("J1", vec!["W"]), ("J2", vec!["W"])]);
    assert_eq!(compute_score(&input, &output), Ok(10 + 9));
}

#[test]
fn scenario_late_job_saturating_penalty() {
    let input = instance(
        vec![contributor("W", vec![("S", 1)])],
        vec![project("J", 5, 10, 3, vec![("S", 0)])],
    );
    // Starts at 0, ends at 5, lateness 2: max(0, 10 - 2) = 8.
    let output = plan(vec![("J", vec!["W"])]);
    assert_eq!(compute_score(&input, &output), Ok(8));
}

#[test]
fn penalty_never_negative() {
    let input = instance(
        vec![contributor("W", vec![("S", 1)])],
        vec![project("J", 50, 10, 3, vec![("S", 0)])],
    );
    // Lateness 47 exceeds the base score of 10: contribution saturates at 0.
    let output = plan(vec![("J", vec!["W"])]);
    assert_eq!(compute_score(&input, &output), Ok(0));
}

#[test]
fn deadline_increase_never_lowers_score() {
    for deadline in 0..8usize {
        let earlier = instance(
            vec![contributor("W", vec![("S", 1)])],
            vec![project("J", 5, 10, deadline, vec![("S", 0)])],
        );
        let later = instance(
            vec![contributor("W", vec![("S", 1)])],
            vec![project("J", 5, 10, deadline + 1, vec![("S", 0)])],
        );
        let output = plan(vec![("J", vec!["W"])]);
        assert!(compute_score(&earlier, &output).unwrap() <= compute_score(&later, &output).unwrap());
    }
}

#[test]
fn score_deterministic() {
    let input = instance(
        vec![contributor("A", vec![("x", 3), ("y", 1)]), contributor("B", vec![("x", 1)])],
        vec![
            project("P1", 4, 20, 6, vec![("x", 2), ("y", 1)]),
            project("P2", 1, 5, 2, vec![("x", 2)]),
        ],
    );
    let output = plan(vec![("P1", vec!["A", "B"]), ("P2", vec!["B"])]);
    let r1 = compute_score(&input, &output);
    let r2 = compute_score(&input, &output);
    assert_eq!(r1, r2);
}

#[test]
fn unknown_job_fails_closed() {
    let input = instance(
        vec![contributor("W", vec![("S", 1)])],
        vec![project("J", 1, 1, 1, vec![("S", 0)])],
    );
    let output = plan(vec![("nope", vec!["W"])]);
    assert_eq!(
        compute_score(&input, &output),
        Err(EngineError::UnknownJob { name: "nope".to_string() })
    );
}

#[test]
fn unknown_worker_fails_closed() {
    let input = instance(
        vec![contributor("W", vec![("S", 1)])],
        vec![project("J", 1, 1, 1, vec![("S", 0)])],
    );
    let output = plan(vec![("J", vec!["ghost"])]);
    assert_eq!(
        compute_score(&input, &output),
        Err(EngineError::UnknownWorker { worker: "ghost".to_string(), job: "J".to_string() })
    );
}

#[test]
fn zero_workers_is_structural_error() {
    let input = instance(
        vec![contributor("W", vec![("S", 1)])],
        vec![project("J", 1, 1, 1, vec![])],
    );
    let output = plan(vec![("J", vec![])]);
    assert_eq!(compute_score(&input, &output), Err(EngineError::NoWorkersAssigned { project: 0 }));
}

#[test]
fn underfilled_roles_are_a_mismatch() {
    let input = instance(
        vec![contributor("W", vec![("S", 1)])],
        vec![project("J", 1, 1, 1, vec![("S", 0), ("S", 0)])],
    );
    let output = plan(vec![("J", vec!["W"])]);
    assert_eq!(compute_score(&input, &output), Err(EngineError::RoleCountMismatch { project: 0 }));
}

#[test]
fn stale_name_table_is_caught_defensively() {
    let input = instance(
        vec![contributor("W", vec![("S", 1)])],
        vec![project("J", 1, 1, 1, vec![("S", 0)])],
    );
    let mut baseline = build_baseline(&input);
    // A name table entry with no backing project record: the resolver accepts
    // the name, the simulation rejects the dangling ID.
    baseline.precomputed.projects_id.push("phantom".to_string());
    let output = plan(vec![("phantom", vec!["W"])]);
    assert_eq!(
        score(&mut baseline, &output, false),
        Err(EngineError::UnknownJobId { id: 1 })
    );
}

#[test]
fn time_overflow_is_an_error() {
    let input = instance(
        vec![contributor("W", vec![("S", 1)])],
        vec![
            project("J1", usize::MAX, 1, usize::MAX, vec![("S", 0)]),
            project("J2", 1, 1, 1, vec![("S", 0)]),
        ],
    );
    let output = plan(vec![("J1", vec!["W"]), ("J2", vec!["W"])]);
    assert_eq!(compute_score(&input, &output), Err(EngineError::ScoreOverflow));
}

#[test]
fn disabled_checks_skip_validation_only() {
    let input = instance(
        vec![contributor("W", vec![("S", 0)])],
        vec![project("J", 2, 10, 5, vec![("S", 1)])],
    );
    let output = plan(vec![("J", vec!["W"])]);
    let mut baseline = build_baseline(&input);
    assert_eq!(score(&mut baseline, &output, true), Ok(10));
    let mut strict = build_baseline(&input);
    assert!(score(&mut strict, &output, false).is_err());
}

#[test]
fn mentor_at_exact_requirement_suffices() {
    // The mentor holds exactly the original requirement; the holder may be
    // one below it, and no lower.
    let input = instance(
        vec![contributor("W", vec![("S", 1)]), contributor("M", vec![("S", 2)])],
        vec![project("J", 1, 10, 5, vec![("S", 2)])],
    );
    let output = plan(vec![("J", vec!["W", "M"])]);
    assert_eq!(compute_score(&input, &output), Ok(10));

    let too_low = instance(
        vec![contributor("W", vec![("S", 0)]), contributor("M", vec![("S", 2)])],
        vec![project("J", 1, 10, 5, vec![("S", 2)])],
    );
    assert_eq!(
        compute_score(&too_low, &output),
        Err(EngineError::InsufficientSkill {
            contributor: 0,
            skill: 0,
            level: 0,
            required: 1,
            project: 0,
            mentoring: true,
        })
    );
}

#[test]
fn training_increments_only_up_to_requirement() {
    let input = instance(
        vec![contributor("A", vec![("S", 2)]), contributor("B", vec![("S", 5)])],
        vec![project("J", 1, 10, 5, vec![("S", 2), ("S", 2)])],
    );
    let output = plan(vec![("J", vec!["A", "B"])]);
    let mut baseline = build_baseline(&input);
    assert_eq!(score(&mut baseline, &output, false), Ok(10));
    let entries = &baseline.precomputed.levels.entries;
    // A was at the requirement (2 <= 2): grows to 3. B was above it: stays 5.
    assert!(entries.contains(&(0, 0, 3)));
    assert!(entries.contains(&(1, 0, 5)));
}

#[test]
fn worker_only_skills_reserve_ids_but_no_levels() {
    let input = instance(
        vec![contributor("W", vec![("hobby", 9), ("S", 1)])],
        vec![project("J", 1, 1, 1, vec![("S", 1)])],
    );
    let baseline = build_baseline(&input);
    // Job-required skills take the low IDs; "hobby" still gets an ID.
    assert_eq!(baseline.precomputed.skills_id, vec!["S".to_string(), "hobby".to_string()]);
    // Only the job-required skill has a recorded level.
    assert_eq!(baseline.precomputed.levels.entries, vec![(0, 0, 1)]);
}

#[test]
fn whole_team_becomes_unavailable() {
    // M holds no role in J1 but participates, so M is busy until J1 ends; a
    // later job assigned to M alone starts only then.
    let input = instance(
        vec![contributor("W", vec![("S", 0)]), contributor("M", vec![("S", 2)])],
        vec![
            project("J1", 3, 10, 10, vec![("S", 1)]),
            project("J2", 1, 10, 3, vec![("S", 1)]),
        ],
    );
    let output = plan(vec![("J1", vec!["W", "M"]), ("J2", vec!["M"])]);
    // J1: mentored, ends at 3, on time: 10. J2: starts at 3, ends at 4, one
    // day late: 9.
    assert_eq!(compute_score(&input, &output), Ok(19));
}

#[test]
fn entries_processed_in_plan_order() {
    // The same two entries in the other order score differently, because the
    // second job starts only when the shared worker is free again.
    let mk = || {
        instance(
            vec![contributor("W", vec![("S", 1)])],
            vec![
                project("J1", 4, 10, 4, vec![("S", 1)]),
                project("J2", 1, 10, 1, vec![("S", 1)]),
            ],
        )
    };
    let forward = compute_score(&mk(), &plan(vec![("J1", vec!["W"]), ("J2", vec!["W"])]));
    let backward = compute_score(&mk(), &plan(vec![("J2", vec!["W"]), ("J1", vec!["W"])]));
    // Forward: J1 on time (10), J2 ends at 5, 4 late: 6. Backward: J2 on time
    // (10), J1 ends at 5, 1 late: 9.
    assert_eq!(forward, Ok(16));
    assert_eq!(backward, Ok(19));
}
