//! The mathematical model of the engine: ghost views of the baseline, the
//! first-seen skill-ID allocation, the closed-world plan resolution, and the
//! step-by-step replay of a resolved plan.
use crate::data::{PContributor, PContributorSkill, PInput, POutput, PPlannedProject, PProject};
use crate::levels::{assoc_set, distinct_keys, entries_map, level_of};
use crate::table::{add_names, distinct, idx_of};
use vstd::prelude::*;

verus! {

// ---------------------------------------------------------------------------
// Ghost views of the baseline
// ---------------------------------------------------------------------------
/// View of one indexed contributor.
#[verifier::ext_equal]
pub ghost struct ContribV {
    pub id: usize,
    pub name: Seq<char>,
    pub skills: Seq<usize>,
    pub next_availability: usize,
}

/// View of one indexed project; `roles[i]` is `(skill id, level required)`.
#[verifier::ext_equal]
pub ghost struct ProjV {
    pub id: usize,
    pub name: Seq<char>,
    pub roles: Seq<(usize, usize)>,
    pub days_to_completion: usize,
    pub score: usize,
    pub best_before: usize,
}

/// View of one resolved plan entry.
#[verifier::ext_equal]
pub ghost struct EntryV {
    pub id: usize,
    pub team: Seq<usize>,
}

/// View of the name tables and the level map.
#[verifier::ext_equal]
pub ghost struct PreV {
    pub contributors_id: Seq<Seq<char>>,
    pub projects_id: Seq<Seq<char>>,
    pub skills_id: Seq<Seq<char>>,
    pub levels: Seq<(usize, usize, usize)>,
}

/// View of a whole baseline.
#[verifier::ext_equal]
pub ghost struct BaselineV {
    pub pre: PreV,
    pub contributors: Seq<ContribV>,
    pub projects: Seq<ProjV>,
}

/// The mutable per-run state: levels, availability, running total.
#[verifier::ext_equal]
pub ghost struct SimState {
    pub levels: Map<(int, int), usize>,
    pub avail: Seq<usize>,
    pub total: usize,
}

/// View of an engine error.
#[verifier::ext_equal]
pub ghost enum ErrV {
    UnknownJob { name: Seq<char> },
    UnknownWorker { worker: Seq<char>, job: Seq<char> },
    InsufficientSkill {
        contributor: usize,
        skill: usize,
        level: usize,
        required: usize,
        project: usize,
        mentoring: bool,
    },
    NoWorkersAssigned { project: usize },
    RoleCountMismatch { project: usize },
    UnknownJobId { id: usize },
    ScoreOverflow,
}

/// Well-formedness of a baseline: distinct name tables, a table entry per
/// contributor, distinct level keys, and IDs equal to positions.
pub open spec fn wf_baseline(b: BaselineV) -> bool {
    &&& distinct(b.pre.contributors_id)
    &&& distinct(b.pre.projects_id)
    &&& distinct(b.pre.skills_id)
    &&& b.pre.contributors_id.len() == b.contributors.len()
    &&& distinct_keys(b.pre.levels)
    &&& forall|i: int|
        0 <= i < b.contributors.len() ==> (#[trigger] b.contributors[i]).id == i
    &&& forall|i: int| 0 <= i < b.projects.len() ==> (#[trigger] b.projects[i]).id == i
}

// ---------------------------------------------------------------------------
// Indexer model: first-seen skill-ID allocation
// ---------------------------------------------------------------------------
/// The skill names a project's roles mention, in role order.
pub open spec fn role_names(p: PProject) -> Seq<Seq<char>> {
    p.skills@.map_values(|s: PContributorSkill| s.name@)
}

/// All role skill names, in project order then role order.
pub open spec fn flat_role_names(ps: Seq<PProject>) -> Seq<Seq<char>>
    decreases ps.len(),
{
    if ps.len() == 0 {
        Seq::empty()
    } else {
        flat_role_names(ps.drop_last()) + role_names(ps.last())
    }
}

/// The skill names a contributor lists, in listing order.
pub open spec fn cskill_names(c: PContributor) -> Seq<Seq<char>> {
    c.skills@.map_values(|s: PContributorSkill| s.name@)
}

/// All contributor skill names, in roster order then listing order.
pub open spec fn flat_cskill_names(cs: Seq<PContributor>) -> Seq<Seq<char>>
    decreases cs.len(),
{
    if cs.len() == 0 {
        Seq::empty()
    } else {
        flat_cskill_names(cs.drop_last()) + cskill_names(cs.last())
    }
}

/// The skill table after scanning all project roles: exactly the skills some
/// job requires.
pub open spec fn job_table(input: PInput) -> Seq<Seq<char>> {
    add_names(Seq::empty(), flat_role_names(input.projects@))
}

/// The full skill table: job-required skills first, then contributor-only
/// skills in first-seen order.
pub open spec fn skill_table(input: PInput) -> Seq<Seq<char>> {
    add_names(job_table(input), flat_cskill_names(input.contributors@))
}

/// The contributor name table: index equals roster position.
pub open spec fn contributors_table(input: PInput) -> Seq<Seq<char>> {
    input.contributors@.map_values(|c: PContributor| c.name@)
}

/// The project name table: index equals input position.
pub open spec fn projects_table(input: PInput) -> Seq<Seq<char>> {
    input.projects@.map_values(|p: PProject| p.name@)
}

/// A project, with each role's skill name replaced by its dense ID.
pub open spec fn proj_model(input: PInput, p: PProject) -> ProjV {
    ProjV {
        id: p.id,
        name: p.name@,
        roles: p.skills@.map_values(
            |s: PContributorSkill| (idx_of(skill_table(input), s.name@) as usize, s.level),
        ),
        days_to_completion: p.days_to_completion,
        score: p.score,
        best_before: p.best_before,
    }
}

/// A contributor, with each listed skill name replaced by its dense ID and
/// availability at time zero.
pub open spec fn contrib_model(input: PInput, c: PContributor) -> ContribV {
    ContribV {
        id: c.id,
        name: c.name@,
        skills: c.skills@.map_values(
            |s: PContributorSkill| idx_of(skill_table(input), s.name@) as usize,
        ),
        next_availability: 0,
    }
}

/// Level entries contributed by the first `j` skill listings of `c`: only
/// skills some job requires are recorded.
pub open spec fn contrib_levels(
    acc: Seq<(usize, usize, usize)>,
    input: PInput,
    c: PContributor,
    j: int,
) -> Seq<(usize, usize, usize)>
    decreases j,
{
    if j <= 0 {
        acc
    } else {
        let prev = contrib_levels(acc, input, c, j - 1);
        let s = c.skills@[j - 1];
        if job_table(input).contains(s.name@) {
            assoc_set(prev, c.id, idx_of(skill_table(input), s.name@) as usize, s.level)
        } else {
            prev
        }
    }
}

/// Level entries after scanning the first `k` contributors.
pub open spec fn levels_model_to(input: PInput, k: int) -> Seq<(usize, usize, usize)>
    decreases k,
{
    if k <= 0 {
        Seq::empty()
    } else {
        let c = input.contributors@[k - 1];
        contrib_levels(levels_model_to(input, k - 1), input, c, c.skills@.len() as int)
    }
}

/// The whole initial level map, as an entry list.
pub open spec fn levels_model(input: PInput) -> Seq<(usize, usize, usize)> {
    levels_model_to(input, input.contributors@.len() as int)
}

/// The name tables and level map built from an instance.
pub open spec fn pre_model(input: PInput) -> PreV {
    PreV {
        contributors_id: contributors_table(input),
        projects_id: projects_table(input),
        skills_id: skill_table(input),
        levels: levels_model(input),
    }
}

/// The whole baseline built from an instance.
pub open spec fn baseline_model(input: PInput) -> BaselineV {
    BaselineV {
        pre: pre_model(input),
        contributors: input.contributors@.map_values(|c: PContributor| contrib_model(input, c)),
        projects: input.projects@.map_values(|p: PProject| proj_model(input, p)),
    }
}

pub proof fn lemma_flat_role_names_take(ps: Seq<PProject>, k: int)
    requires
        0 <= k < ps.len(),
    ensures
        flat_role_names(ps.take(k + 1)) == flat_role_names(ps.take(k)) + role_names(ps[k]),
{
    assert(ps.take(k + 1).drop_last() =~= ps.take(k));
    assert(ps.take(k + 1).last() == ps[k]);
}

pub proof fn lemma_flat_cskill_names_take(cs: Seq<PContributor>, k: int)
    requires
        0 <= k < cs.len(),
    ensures
        flat_cskill_names(cs.take(k + 1)) == flat_cskill_names(cs.take(k)) + cskill_names(cs[k]),
{
    assert(cs.take(k + 1).drop_last() =~= cs.take(k));
    assert(cs.take(k + 1).last() == cs[k]);
}

pub proof fn lemma_flat_role_names_contains(ps: Seq<PProject>, k: int, j: int)
    requires
        0 <= k < ps.len(),
        0 <= j < ps[k].skills@.len(),
    ensures
        flat_role_names(ps).contains(ps[k].skills@[j].name@),
    decreases ps.len(),
{
    let x = ps[k].skills@[j].name@;
    if k == ps.len() - 1 {
        assert(ps.last() == ps[k]);
        assert(role_names(ps[k])[j] == x);
        let n = flat_role_names(ps.drop_last()).len() as int;
        assert(flat_role_names(ps)[n + j] == x);
        assert(flat_role_names(ps).contains(x));
    } else {
        assert(ps.drop_last()[k] == ps[k]);
        lemma_flat_role_names_contains(ps.drop_last(), k, j);
        let i = choose|i: int|
            0 <= i < flat_role_names(ps.drop_last()).len() && flat_role_names(ps.drop_last())[i]
                == x;
        assert(flat_role_names(ps)[i] == x);
        assert(flat_role_names(ps).contains(x));
    }
}

pub proof fn lemma_flat_cskill_names_contains(cs: Seq<PContributor>, k: int, j: int)
    requires
        0 <= k < cs.len(),
        0 <= j < cs[k].skills@.len(),
    ensures
        flat_cskill_names(cs).contains(cs[k].skills@[j].name@),
    decreases cs.len(),
{
    let x = cs[k].skills@[j].name@;
    if k == cs.len() - 1 {
        assert(cs.last() == cs[k]);
        assert(cskill_names(cs[k])[j] == x);
        let n = flat_cskill_names(cs.drop_last()).len() as int;
        assert(flat_cskill_names(cs)[n + j] == x);
        assert(flat_cskill_names(cs).contains(x));
    } else {
        assert(cs.drop_last()[k] == cs[k]);
        lemma_flat_cskill_names_contains(cs.drop_last(), k, j);
        let i = choose|i: int|
            0 <= i < flat_cskill_names(cs.drop_last()).len() && flat_cskill_names(
                cs.drop_last(),
            )[i] == x;
        assert(flat_cskill_names(cs)[i] == x);
        assert(flat_cskill_names(cs).contains(x));
    }
}

pub proof fn lemma_contrib_levels_distinct(
    acc: Seq<(usize, usize, usize)>,
    input: PInput,
    c: PContributor,
    j: int,
)
    requires
        distinct_keys(acc),
    ensures
        distinct_keys(contrib_levels(acc, input, c, j)),
    decreases j,
{
    if j > 0 {
        lemma_contrib_levels_distinct(acc, input, c, j - 1);
        let s = c.skills@[j - 1];
        if job_table(input).contains(s.name@) {
            crate::levels::lemma_assoc_set(
                contrib_levels(acc, input, c, j - 1),
                c.id,
                idx_of(skill_table(input), s.name@) as usize,
                s.level,
            );
        }
    }
}

pub proof fn lemma_levels_model_to_distinct(input: PInput, k: int)
    ensures
        distinct_keys(levels_model_to(input, k)),
    decreases k,
{
    if k > 0 {
        lemma_levels_model_to_distinct(input, k - 1);
        let c = input.contributors@[k - 1];
        lemma_contrib_levels_distinct(
            levels_model_to(input, k - 1),
            input,
            c,
            c.skills@.len() as int,
        );
    }
}

/// A baseline built from a well-formed instance is well formed.
pub proof fn lemma_model_wf(input: PInput)
    requires
        crate::data::wf_input(input),
    ensures
        wf_baseline(baseline_model(input)),
{
    let b = baseline_model(input);
    assert forall|i: int, j: int|
        0 <= i < j < b.pre.contributors_id.len() implies b.pre.contributors_id[i]
        != b.pre.contributors_id[j] by {
        assert(b.pre.contributors_id[i] == input.contributors@[i].name@);
        assert(b.pre.contributors_id[j] == input.contributors@[j].name@);
    }
    assert forall|i: int, j: int|
        0 <= i < j < b.pre.projects_id.len() implies b.pre.projects_id[i]
        != b.pre.projects_id[j] by {
        assert(b.pre.projects_id[i] == input.projects@[i].name@);
        assert(b.pre.projects_id[j] == input.projects@[j].name@);
    }
    crate::table::lemma_add_names_facts(Seq::empty(), flat_role_names(input.projects@));
    crate::table::lemma_add_names_facts(job_table(input), flat_cskill_names(input.contributors@));
    lemma_levels_model_to_distinct(input, input.contributors@.len() as int);
    assert forall|i: int| 0 <= i < b.contributors.len() implies (#[trigger] b.contributors[i]).id
        == i by {
        assert(b.contributors[i] == contrib_model(input, input.contributors@[i]));
    }
    assert forall|i: int| 0 <= i < b.projects.len() implies (#[trigger] b.projects[i]).id
        == i by {
        assert(b.projects[i] == proj_model(input, input.projects@[i]));
    }
}

/// Training feasibility over a longer prefix implies it over a shorter one.
pub proof fn lemma_train_ok_mono(
    levels: Map<(int, int), usize>,
    roles: Seq<(usize, usize)>,
    team: Seq<usize>,
    j1: int,
    j2: int,
)
    requires
        j1 <= j2,
        train_roles_ok(levels, roles, team, j2),
    ensures
        train_roles_ok(levels, roles, team, j1),
    decreases j2 - j1,
{
    if j1 < j2 {
        lemma_train_ok_mono(levels, roles, team, j1, j2 - 1);
    }
}

// ---------------------------------------------------------------------------
// Resolver model: names to IDs, failing closed
// ---------------------------------------------------------------------------
/// Every name of a plan entry is known to the baseline.
pub open spec fn entry_ok(pre: PreV, e: PPlannedProject) -> bool {
    &&& pre.projects_id.contains(e.name@)
    &&& forall|i: int|
        0 <= i < e.roles@.len() ==> pre.contributors_id.contains((#[trigger] e.roles@[i])@)
}

/// Every entry of a plan resolves.
pub open spec fn plan_ok(pre: PreV, out: POutput) -> bool {
    forall|k: int| 0 <= k < out.projects@.len() ==> entry_ok(pre, #[trigger] out.projects@[k])
}

/// One resolved entry; meaningful when `entry_ok` holds.
pub open spec fn entry_model(pre: PreV, e: PPlannedProject) -> EntryV {
    EntryV {
        id: idx_of(pre.projects_id, e.name@) as usize,
        team: e.roles@.map_values(|n: String| idx_of(pre.contributors_id, n@) as usize),
    }
}

/// The whole resolved plan, in file order.
pub open spec fn plan_model(pre: PreV, out: POutput) -> Seq<EntryV> {
    out.projects@.map_values(|e: PPlannedProject| entry_model(pre, e))
}

/// Index of the first entry at or after `k` that does not resolve.
pub open spec fn first_bad_entry_from(pre: PreV, es: Seq<PPlannedProject>, k: int) -> int
    decreases es.len() - k,
{
    if k < 0 || k >= es.len() {
        k
    } else if !entry_ok(pre, es[k]) {
        k
    } else {
        first_bad_entry_from(pre, es, k + 1)
    }
}

pub proof fn lemma_first_bad_entry_from(pre: PreV, es: Seq<PPlannedProject>, s: int, k: int)
    requires
        0 <= s <= k < es.len(),
        forall|j: int| s <= j < k ==> entry_ok(pre, #[trigger] es[j]),
        !entry_ok(pre, es[k]),
    ensures
        first_bad_entry_from(pre, es, s) == k,
    decreases k - s,
{
    if s < k {
        lemma_first_bad_entry_from(pre, es, s + 1, k);
    }
}

/// Index of the first name at or after `i` that is not in the table.
pub open spec fn first_unknown_from(tbl: Seq<Seq<char>>, names: Seq<String>, i: int) -> int
    decreases names.len() - i,
{
    if i < 0 || i >= names.len() {
        i
    } else if !tbl.contains(names[i]@) {
        i
    } else {
        first_unknown_from(tbl, names, i + 1)
    }
}

pub proof fn lemma_first_unknown_from(tbl: Seq<Seq<char>>, names: Seq<String>, s: int, k: int)
    requires
        0 <= s <= k < names.len(),
        forall|j: int| s <= j < k ==> tbl.contains((#[trigger] names[j])@),
        !tbl.contains(names[k]@),
    ensures
        first_unknown_from(tbl, names, s) == k,
    decreases k - s,
{
    if s < k {
        lemma_first_unknown_from(tbl, names, s + 1, k);
    }
}

/// The resolution error of a plan that does not resolve: the first entry with
/// an unknown project name, or else the first unknown contributor name of the
/// first entry that fails.
pub open spec fn resolve_err(pre: PreV, out: POutput) -> ErrV {
    let k = first_bad_entry_from(pre, out.projects@, 0);
    let e = out.projects@[k];
    if !pre.projects_id.contains(e.name@) {
        ErrV::UnknownJob { name: e.name@ }
    } else {
        let i = first_unknown_from(pre.contributors_id, e.roles@, 0);
        ErrV::UnknownWorker { worker: e.roles@[i]@, job: e.name@ }
    }
}

/// Resolution outcome: the resolved entries, or the first error.
pub open spec fn resolve_model(pre: PreV, out: POutput) -> Result<Seq<EntryV>, ErrV> {
    if plan_ok(pre, out) {
        Ok(plan_model(pre, out))
    } else {
        Err(resolve_err(pre, out))
    }
}

// ---------------------------------------------------------------------------
// Simulation model
// ---------------------------------------------------------------------------
pub open spec fn umax(a: usize, b: usize) -> usize {
    if a > b {
        a
    } else {
        b
    }
}

/// Highest level in `skill` among the team (absent = 0; empty team = 0).
pub open spec fn team_max_level(
    levels: Map<(int, int), usize>,
    team: Seq<usize>,
    skill: int,
) -> usize
    decreases team.len(),
{
    if team.len() == 0 {
        0
    } else {
        umax(
            team_max_level(levels, team.drop_last(), skill),
            level_of(levels, team.last() as int, skill),
        )
    }
}

/// Mentoring applies when some team member reaches the original requirement.
pub open spec fn mentoring_applies(
    levels: Map<(int, int), usize>,
    team: Seq<usize>,
    skill: int,
    required: usize,
) -> bool {
    team_max_level(levels, team, skill) >= required
}

/// The level the role holder must have: one below the requirement when
/// mentoring applies, the requirement itself otherwise.
pub open spec fn effective_req(
    levels: Map<(int, int), usize>,
    team: Seq<usize>,
    skill: int,
    required: usize,
) -> int {
    if mentoring_applies(levels, team, skill, required) {
        required - 1
    } else {
        required as int
    }
}

/// Role `i` is filled by a contributor below the effective requirement.
pub open spec fn role_bad(
    levels: Map<(int, int), usize>,
    roles: Seq<(usize, usize)>,
    team: Seq<usize>,
    i: int,
) -> bool {
    (level_of(levels, team[i] as int, roles[i].0 as int) as int) < effective_req(
        levels,
        team,
        roles[i].0 as int,
        roles[i].1,
    )
}

/// Every role holder meets the effective requirement.
pub open spec fn roles_ok(
    levels: Map<(int, int), usize>,
    roles: Seq<(usize, usize)>,
    team: Seq<usize>,
) -> bool {
    forall|i: int| 0 <= i < roles.len() ==> !role_bad(levels, roles, team, i)
}

/// Index of the first failing role at or after `i`.
pub open spec fn first_bad_role_from(
    levels: Map<(int, int), usize>,
    roles: Seq<(usize, usize)>,
    team: Seq<usize>,
    i: int,
) -> int
    decreases roles.len() - i,
{
    if i < 0 || i >= roles.len() {
        i
    } else if role_bad(levels, roles, team, i) {
        i
    } else {
        first_bad_role_from(levels, roles, team, i + 1)
    }
}

pub proof fn lemma_first_bad_role_from(
    levels: Map<(int, int), usize>,
    roles: Seq<(usize, usize)>,
    team: Seq<usize>,
    s: int,
    k: int,
)
    requires
        0 <= s <= k < roles.len(),
        forall|j: int| s <= j < k ==> !role_bad(levels, roles, team, j),
        role_bad(levels, roles, team, k),
    ensures
        first_bad_role_from(levels, roles, team, s) == k,
    decreases k - s,
{
    if s < k {
        lemma_first_bad_role_from(levels, roles, team, s + 1, k);
    }
}

/// The validation error of a job whose roles do not all pass.
pub open spec fn validation_err(
    levels: Map<(int, int), usize>,
    roles: Seq<(usize, usize)>,
    team: Seq<usize>,
    jid: usize,
) -> ErrV {
    let i = first_bad_role_from(levels, roles, team, 0);
    let skill = roles[i].0;
    ErrV::InsufficientSkill {
        contributor: team[i],
        skill,
        level: level_of(levels, team[i] as int, skill as int),
        required: effective_req(levels, team, skill as int, roles[i].1) as usize,
        project: jid,
        mentoring: mentoring_applies(levels, team, skill as int, roles[i].1),
    }
}

/// Latest next-availability among the team (0 for an empty team).
pub open spec fn max_avail(avail: Seq<usize>, team: Seq<usize>) -> usize
    decreases team.len(),
{
    if team.len() == 0 {
        0
    } else {
        umax(max_avail(avail, team.drop_last()), avail[team.last() as int])
    }
}

/// Every team member becomes available again at time `t`.
pub open spec fn set_avail(avail: Seq<usize>, team: Seq<usize>, t: usize) -> Seq<usize>
    decreases team.len(),
{
    if team.len() == 0 {
        avail
    } else {
        set_avail(avail, team.drop_last(), t).update(team.last() as int, t)
    }
}

/// A job's score contribution from its end time and deadline: the base score
/// when on time, else the base score less the lateness, saturating at zero.
pub open spec fn contribution(base: usize, end: int, deadline: int) -> int {
    if end <= deadline {
        base as int
    } else if end - deadline < base {
        base - (end - deadline)
    } else {
        0
    }
}

/// Training applied to one role: the holder grows by one exactly when their
/// current level is at most the original (pre-mentoring) requirement.
pub open spec fn train_one(
    levels: Map<(int, int), usize>,
    holder: usize,
    skill: usize,
    required: usize,
) -> Map<(int, int), usize> {
    let cur = level_of(levels, holder as int, skill as int);
    if cur <= required {
        levels.insert((holder as int, skill as int), (cur + 1) as usize)
    } else {
        levels
    }
}

/// Training applied to the first `j` roles, in role order.
pub open spec fn train_roles(
    levels: Map<(int, int), usize>,
    roles: Seq<(usize, usize)>,
    team: Seq<usize>,
    j: int,
) -> Map<(int, int), usize>
    decreases j,
{
    if j <= 0 {
        levels
    } else {
        train_one(
            train_roles(levels, roles, team, j - 1),
            team[j - 1],
            roles[j - 1].0,
            roles[j - 1].1,
        )
    }
}

/// No training increment leaves the machine's level range.
pub open spec fn train_roles_ok(
    levels: Map<(int, int), usize>,
    roles: Seq<(usize, usize)>,
    team: Seq<usize>,
    j: int,
) -> bool
    decreases j,
{
    if j <= 0 {
        true
    } else {
        let prev = train_roles(levels, roles, team, j - 1);
        let cur = level_of(prev, team[j - 1] as int, roles[j - 1].0 as int);
        train_roles_ok(levels, roles, team, j - 1) && (cur <= roles[j - 1].1 ==> cur
            < usize::MAX)
    }
}

/// Replay of one resolved plan entry. `team[i]` fills role `i`; teammates
/// beyond the role count hold no role but still mentor, share the start time,
/// and become unavailable with the rest. Fewer teammates than roles is a
/// malformed plan shape.
pub open spec fn sim_entry(
    st: SimState,
    projects: Seq<ProjV>,
    e: EntryV,
    disable_checks: bool,
) -> Result<SimState, ErrV> {
    if e.id >= projects.len() {
        Err(ErrV::UnknownJobId { id: e.id })
    } else {
        let p = projects[e.id as int];
        if e.team.len() < p.roles.len() {
            Err(ErrV::RoleCountMismatch { project: e.id })
        } else if !disable_checks && !roles_ok(st.levels, p.roles, e.team) {
            Err(validation_err(st.levels, p.roles, e.team, e.id))
        } else if e.team.len() == 0 {
            Err(ErrV::NoWorkersAssigned { project: e.id })
        } else {
            let start = max_avail(st.avail, e.team) as int;
            let end = start + p.days_to_completion;
            let gain = contribution(p.score, end, p.best_before as int);
            if end > usize::MAX {
                Err(ErrV::ScoreOverflow)
            } else if st.total + gain > usize::MAX {
                Err(ErrV::ScoreOverflow)
            } else if !train_roles_ok(st.levels, p.roles, e.team, p.roles.len() as int) {
                Err(ErrV::ScoreOverflow)
            } else {
                Ok(
                    SimState {
                        levels: train_roles(st.levels, p.roles, e.team, p.roles.len() as int),
                        avail: set_avail(st.avail, e.team, end as usize),
                        total: (st.total + gain) as usize,
                    },
                )
            }
        }
    }
}

/// Replay of a resolved plan prefix, strictly in list order, stopping at the
/// first error.
pub open spec fn sim_plan(
    st: SimState,
    projects: Seq<ProjV>,
    entries: Seq<EntryV>,
    disable_checks: bool,
) -> Result<SimState, ErrV>
    decreases entries.len(),
{
    if entries.len() == 0 {
        Ok(st)
    } else {
        match sim_plan(st, projects, entries.drop_last(), disable_checks) {
            Ok(s2) => sim_entry(s2, projects, entries.last(), disable_checks),
            Err(e) => Err(e),
        }
    }
}

/// Availability vector of a contributor list.
pub open spec fn avail_of(cs: Seq<ContribV>) -> Seq<usize> {
    cs.map_values(|c: ContribV| c.next_availability)
}

/// The pristine per-run state of a baseline.
pub open spec fn init_state(b: BaselineV) -> SimState {
    SimState { levels: entries_map(b.pre.levels), avail: avail_of(b.contributors), total: 0 }
}

/// The score (or first error) of replaying a plan against a baseline.
pub open spec fn score_model(b: BaselineV, out: POutput, disable_checks: bool) -> Result<
    usize,
    ErrV,
> {
    match resolve_model(b.pre, out) {
        Err(e) => Err(e),
        Ok(entries) => match sim_plan(init_state(b), b.projects, entries, disable_checks) {
            Ok(st) => Ok(st.total),
            Err(e) => Err(e),
        },
    }
}

/// The parts of a baseline that a scoring run never touches.
pub open spec fn same_static(a: BaselineV, b: BaselineV) -> bool {
    &&& b.pre.contributors_id == a.pre.contributors_id
    &&& b.pre.projects_id == a.pre.projects_id
    &&& b.pre.skills_id == a.pre.skills_id
    &&& b.projects == a.projects
    &&& b.contributors.len() == a.contributors.len()
    &&& forall|i: int|
        0 <= i < a.contributors.len() ==> {
            let x = #[trigger] a.contributors[i];
            let y = b.contributors[i];
            y.id == x.id && y.name == x.name && y.skills == x.skills
        }
}

/// Full input/output relation of one scoring call: `b0` the baseline before,
/// `b1` after, `rv` the returned result.
pub open spec fn score_post(
    b0: BaselineV,
    b1: BaselineV,
    out: POutput,
    disable_checks: bool,
    rv: Result<usize, ErrV>,
) -> bool {
    match resolve_model(b0.pre, out) {
        Err(e) => rv == Err::<usize, ErrV>(e) && b1 == b0,
        Ok(entries) => match sim_plan(init_state(b0), b0.projects, entries, disable_checks) {
            Err(e) => rv == Err::<usize, ErrV>(e) && b1 == b0,
            Ok(st) => {
                &&& rv == Ok::<usize, ErrV>(st.total)
                &&& same_static(b0, b1)
                &&& distinct_keys(b1.pre.levels)
                &&& entries_map(b1.pre.levels) == st.levels
                &&& avail_of(b1.contributors) == st.avail
            },
        },
    }
}

/// Once a prefix of the plan fails, every longer prefix fails the same way.
pub proof fn lemma_sim_plan_prefix_err(
    st: SimState,
    ps: Seq<ProjV>,
    es: Seq<EntryV>,
    disable_checks: bool,
    k: int,
    m: int,
)
    requires
        0 <= k <= m <= es.len(),
        sim_plan(st, ps, es.take(k), disable_checks) is Err,
    ensures
        sim_plan(st, ps, es.take(m), disable_checks) == sim_plan(
            st,
            ps,
            es.take(k),
            disable_checks,
        ),
    decreases m - k,
{
    if k < m {
        lemma_sim_plan_prefix_err(st, ps, es, disable_checks, k, m - 1);
        assert(es.take(m).drop_last() =~= es.take(m - 1));
        assert(es.take(m).len() > 0);
    }
}

/// The result a scoring call returns is exactly `score_model`.
pub proof fn lemma_score_post_result(
    b0: BaselineV,
    b1: BaselineV,
    out: POutput,
    disable_checks: bool,
    rv: Result<usize, ErrV>,
)
    requires
        score_post(b0, b1, out, disable_checks, rv),
    ensures
        rv == score_model(b0, out, disable_checks),
{
}

} // verus!
