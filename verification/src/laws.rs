//! Engine-wide laws, each proved against the model the executable contracts
//! use.
use crate::data::POutput;
use crate::levels::{entries_map, level_of};
use crate::model::{
    avail_of, contribution, effective_req, mentoring_applies, score_model, score_post, sim_entry,
    sim_plan, team_max_level, train_one, train_roles, train_roles_ok, BaselineV, EntryV, ErrV,
    ProjV, SimState,
};
use vstd::prelude::*;

verus! {

/// Determinism: for a fixed baseline view, plan and disable-checks flag, any
/// two calls that meet the scoring contract return the same result and leave
/// the same level map and availability.
pub proof fn lemma_score_deterministic(
    b0: BaselineV,
    b1a: BaselineV,
    b1b: BaselineV,
    out: POutput,
    disable_checks: bool,
    r1: Result<usize, ErrV>,
    r2: Result<usize, ErrV>,
)
    requires
        score_post(b0, b1a, out, disable_checks, r1),
        score_post(b0, b1b, out, disable_checks, r2),
    ensures
        r1 == r2,
        entries_map(b1a.pre.levels) == entries_map(b1b.pre.levels),
        avail_of(b1a.contributors) == avail_of(b1b.contributors),
{
}

/// Monotonic deadline effect: with the base score and end time fixed, a later
/// deadline never lowers a job's score contribution.
pub proof fn lemma_deadline_monotonic(base: usize, end: int, d1: int, d2: int)
    requires
        d1 <= d2,
    ensures
        contribution(base, end, d1) <= contribution(base, end, d2),
{
}

/// The team maximum is a level some member holds, and no member exceeds it.
pub proof fn lemma_team_max_attained(
    levels: Map<(int, int), usize>,
    team: Seq<usize>,
    skill: int,
)
    requires
        team.len() > 0,
    ensures
        exists|i: int|
            0 <= i < team.len() && level_of(levels, #[trigger] team[i] as int, skill)
                == team_max_level(levels, team, skill),
        forall|i: int|
            0 <= i < team.len() ==> level_of(levels, #[trigger] team[i] as int, skill)
                <= team_max_level(levels, team, skill),
    decreases team.len(),
{
    let m = team_max_level(levels, team, skill);
    let last = level_of(levels, team.last() as int, skill);
    if team.len() == 1 {
        assert(level_of(levels, team[0] as int, skill) == m);
    } else {
        lemma_team_max_attained(levels, team.drop_last(), skill);
        let mp = team_max_level(levels, team.drop_last(), skill);
        if last >= mp {
            assert(level_of(levels, team[team.len() - 1] as int, skill) == m);
        } else {
            let i = choose|i: int|
                0 <= i < team.drop_last().len() && level_of(
                    levels,
                    #[trigger] team.drop_last()[i] as int,
                    skill,
                ) == mp;
            assert(team.drop_last()[i] == team[i]);
            assert(level_of(levels, team[i] as int, skill) == m);
        }
        assert forall|i: int|
            0 <= i < team.len() implies level_of(levels, #[trigger] team[i] as int, skill)
            <= m by {
            if i < team.len() - 1 {
                assert(team.drop_last()[i] == team[i]);
            }
        }
    }
}

/// Mentoring bound: the effective requirement is never more than one below
/// the original requirement, and it drops only when some participating worker
/// already holds the original requirement in that skill.
pub proof fn lemma_mentoring_bound(
    levels: Map<(int, int), usize>,
    team: Seq<usize>,
    skill: int,
    required: usize,
)
    requires
        team.len() > 0,
    ensures
        effective_req(levels, team, skill, required) >= required - 1,
        effective_req(levels, team, skill, required) <= required,
        effective_req(levels, team, skill, required) < required ==> exists|i: int|
            0 <= i < team.len() && level_of(levels, #[trigger] team[i] as int, skill) >= required,
{
    if mentoring_applies(levels, team, skill, required) {
        lemma_team_max_attained(levels, team, skill);
        let i = choose|i: int|
            0 <= i < team.len() && level_of(levels, #[trigger] team[i] as int, skill)
                == team_max_level(levels, team, skill);
        assert(level_of(levels, team[i] as int, skill) >= required);
    }
}

/// Training of one role: the holder's level in the role's skill rises by
/// exactly one when it was at most the original requirement and representable,
/// stays put otherwise, and no other level changes.
pub proof fn lemma_train_one_exact(
    levels: Map<(int, int), usize>,
    holder: usize,
    skill: usize,
    required: usize,
)
    ensures
        ({
            let cur = level_of(levels, holder as int, skill as int);
            let post = train_one(levels, holder, skill, required);
            &&& (cur <= required && cur < usize::MAX ==> level_of(
                post,
                holder as int,
                skill as int,
            ) == cur + 1)
            &&& (cur > required ==> post == levels)
            &&& forall|c: int, s: int|
                (c, s) != (holder as int, skill as int) ==> level_of(post, c, s) == level_of(
                    levels,
                    c,
                    s,
                )
        }),
{
}

/// Level non-decrease: training a role list never lowers any level, as long
/// as no increment leaves the machine range.
pub proof fn lemma_train_roles_monotonic(
    levels: Map<(int, int), usize>,
    roles: Seq<(usize, usize)>,
    team: Seq<usize>,
    j: int,
)
    requires
        train_roles_ok(levels, roles, team, j),
    ensures
        forall|c: int, s: int|
            level_of(train_roles(levels, roles, team, j), c, s) >= level_of(levels, c, s),
    decreases j,
{
    if j > 0 {
        lemma_train_roles_monotonic(levels, roles, team, j - 1);
        let prev = train_roles(levels, roles, team, j - 1);
        lemma_train_one_exact(prev, team[j - 1], roles[j - 1].0, roles[j - 1].1);
        let post = train_roles(levels, roles, team, j);
        assert forall|c: int, s: int| level_of(post, c, s) >= level_of(levels, c, s) by {
            if (c, s) == (team[j - 1] as int, roles[j - 1].0 as int) {
                let cur = level_of(prev, c, s);
                if cur <= roles[j - 1].1 {
                    assert(cur < usize::MAX);
                }
            }
        }
    }
}

/// Level non-decrease across one whole successful run: no `(worker, skill)`
/// level ever drops below its pre-run value.
pub proof fn lemma_sim_levels_monotonic(
    st: SimState,
    ps: Seq<ProjV>,
    es: Seq<EntryV>,
    disable_checks: bool,
)
    requires
        sim_plan(st, ps, es, disable_checks) is Ok,
    ensures
        forall|c: int, s: int|
            level_of((sim_plan(st, ps, es, disable_checks)->Ok_0).levels, c, s) >= level_of(
                st.levels,
                c,
                s,
            ),
    decreases es.len(),
{
    if es.len() > 0 {
        let mid = sim_plan(st, ps, es.drop_last(), disable_checks);
        assert(mid is Ok);
        lemma_sim_levels_monotonic(st, ps, es.drop_last(), disable_checks);
        let st2 = mid->Ok_0;
        let e = es.last();
        let fin = sim_entry(st2, ps, e, disable_checks);
        assert(fin is Ok);
        let p = ps[e.id as int];
        lemma_train_roles_monotonic(st2.levels, p.roles, e.team, p.roles.len() as int);
    }
}

/// Closed-world resolution: a plan that names an unknown job or contributor
/// never yields a score.
pub proof fn lemma_closed_world(b: BaselineV, out: POutput, disable_checks: bool)
    requires
        !crate::model::plan_ok(b.pre, out),
    ensures
        score_model(b, out, disable_checks) is Err,
{
}

} // verus!
