//! Continuous integration: which targets a change set makes runnable, and
//! how a target list is split across parallel jobs.

use crate::action::{status_proceeds, ActionStatus};
use crate::dep_graph::{run_node_linked, subject_pool, DepGraph};
use crate::errors::DepGraphError;
use crate::errors::ProjectError;
use crate::project::affected_by;
use crate::project_graph::{config_map_value, ProjectGraph};
use crate::strutil::{chars_le, chars_lt, lemma_chars_le_trans, lemma_chars_lt_connected, sorted_ascending, str_seq};
use crate::target::{Target, TargetView};
use vstd::prelude::*;

verus! {

/// Options of a continuous-integration run: the revisions to compare, and
/// this job's slot when the target list is sharded across parallel jobs.
pub struct CiOptions {
    pub base: Option<String>,
    pub head: Option<String>,
    pub job: Option<usize>,
    pub job_total: Option<usize>,
}

/// The views of a sequence of targets.
pub open spec fn target_views(v: Seq<Target>) -> Seq<TargetView> {
    v.map_values(|t: Target| t@)
}

/// The contiguous slice of `s` that job `j` of `t` receives: the first
/// `len / t` entries for job 0, an exact `len / t`-sized slice for every
/// middle job, and everything left — the remainder included — for the
/// last.
pub open spec fn shard<A>(s: Seq<A>, j: int, t: int) -> Seq<A> {
    let bs = s.len() as int / t;
    if j == 0 {
        s.take(bs)
    } else if j == t - 1 {
        s.skip(bs * j)
    } else {
        s.subrange(bs * j, bs * (j + 1))
    }
}

/// The first `j + 1` shards, in job order.
pub open spec fn shards_concat<A>(s: Seq<A>, j: int, t: int) -> Seq<A>
    decreases j,
{
    if j <= 0 {
        shard(s, 0, t)
    } else {
        shards_concat(s, j - 1, t) + shard(s, j, t)
    }
}

/// Sharding covers every target exactly once: laid end to end in job
/// order, the `t` shards rebuild the original list. Every shard but the
/// last holds exactly `len / t` targets; the last absorbs the remainder.
pub proof fn lemma_shards_cover<A>(s: Seq<A>, t: int)
    requires
        t >= 1,
    ensures
        shards_concat(s, t - 1, t) == s,
        shard(s, 0, t).len() == s.len() as int / t || t == 1,
        forall|j: int| 0 < j < t - 1 ==> (#[trigger] shard(s, j, t)).len() == s.len() as int / t,
{
    let n = s.len() as int;
    let bs = n / t;
    assert(0 <= bs * t <= n) by (nonlinear_arith)
        requires
            t >= 1,
            bs == n / t,
            n >= 0,
    ;
    assert forall|j: int| 0 <= j < t implies 0 <= #[trigger] (bs * j) && bs * (j + 1) <= bs
        * t by {
        assert(0 <= bs * j && bs * (j + 1) <= bs * t) by (nonlinear_arith)
            requires
                0 <= j < t,
                bs >= 0,
        ;
    }
    if t == 1 {
        assert(shards_concat(s, 0, 1) == shard(s, 0, 1));
        assert(bs == n);
        assert(s.take(bs) =~= s);
    } else {
        assert forall|j: int| 0 <= j < t - 1 implies #[trigger] shards_concat(s, j, t) == s.take(
            bs * (j + 1),
        ) by {
            lemma_shards_prefix(s, j, t);
        }
        assert(shards_concat(s, t - 1, t) == shards_concat(s, t - 2, t) + shard(s, t - 1, t));
        assert(shards_concat(s, t - 2, t) == s.take(bs * (t - 1)));
        assert(s.take(bs * (t - 1)) + s.skip(bs * (t - 1)) =~= s);
        assert(shard(s, 0, t) == s.take(bs));
        assert(s.take(bs).len() == bs);
        assert forall|j: int| 0 < j < t - 1 implies (#[trigger] shard(s, j, t)).len() == bs by {
            assert(bs * (j + 1) - bs * j == bs) by (nonlinear_arith);
        }
    }
}

/// The first `j + 1` shards are exactly the first `(j + 1) * (len / t)`
/// targets, for every job short of the last.
proof fn lemma_shards_prefix<A>(s: Seq<A>, j: int, t: int)
    requires
        t >= 2,
        0 <= j < t - 1,
    ensures
        shards_concat(s, j, t) == s.take((s.len() as int / t) * (j + 1)),
    decreases j,
{
    let n = s.len() as int;
    let bs = n / t;
    assert(0 <= bs * t <= n) by (nonlinear_arith)
        requires
            t >= 1,
            bs == n / t,
            n >= 0,
    ;
    assert(0 <= bs * j && bs * (j + 1) <= bs * t) by (nonlinear_arith)
        requires
            0 <= j < t,
            bs >= 0,
    ;
    if j == 0 {
        assert(shards_concat(s, 0, t) == s.take(bs));
        assert(bs * 1 == bs) by (nonlinear_arith);
    } else {
        lemma_shards_prefix(s, j - 1, t);
        assert(bs * (j - 1 + 1) == bs * j && bs * j <= bs * (j + 1)) by (nonlinear_arith)
            requires
                0 <= j,
                bs >= 0,
        ;
        assert(s.take(bs * j) + s.subrange(bs * j, bs * (j + 1)) =~= s.take(bs * (j + 1)));
    }
}

/// Splits the target list for this job, when both sharding parameters are
/// given; with either absent, sharding is a no-op and every target runs in
/// the one job.
pub fn distribute_targets_across_jobs(options: &CiOptions, targets: Vec<Target>) -> (r: Vec<
    Target,
>)
    requires
        options.job matches Some(j) ==> (options.job_total matches Some(t) ==> 0 < t && j < t),
    ensures
        options.job is None || options.job_total is None ==> target_views(r@) == target_views(
            targets@,
        ),
        options.job matches Some(j) ==> (options.job_total matches Some(t) ==> target_views(r@)
            == shard(target_views(targets@), j as int, t as int)),
{
    let (job, job_total) = match (&options.job, &options.job_total) {
        (Some(j), Some(t)) => (*j, *t),
        _ => {
            proof {
                assert(target_views(targets@) =~= target_views(targets@));
            }
            return targets;
        },
    };
    let batch_size = targets.len() / job_total;
    let ghost n = targets@.len() as int;
    let ghost bs = batch_size as int;
    proof {
        assert(0 <= bs * (job as int) && bs * (job as int) <= bs * (job as int + 1) && bs * (
        job as int + 1) <= bs * (job_total as int) && bs * (job_total as int) <= n && bs
            <= n) by (nonlinear_arith)
            requires
                0 <= (job as int) < (job_total as int),
                bs == n / (job_total as int),
                n >= 0,
        ;
        assert(bs * (job as int) <= n && bs * (job as int + 1) <= n);
    }
    let (lo, hi) = if job == 0 {
        (0usize, batch_size)
    } else if job == job_total - 1 {
        (batch_size * job, targets.len())
    } else {
        (batch_size * job, batch_size * (job + 1))
    };
    let mut out: Vec<Target> = Vec::new();
    let mut k: usize = lo;
    while k < hi
        invariant
            lo <= k <= hi <= targets@.len(),
            out@.len() == k - lo,
            forall|q: int|
                0 <= q < out@.len() ==> target_views(out@)[q] == target_views(targets@)[lo + q],
        decreases hi - k,
    {
        let ghost prev = out@;
        out.push(targets[k].clone());
        proof {
            assert forall|q: int| 0 <= q < out@.len() implies target_views(out@)[q]
                == target_views(targets@)[lo + q] by {
                if q < prev.len() {
                    assert(out@[q] == prev[q]);
                    assert(target_views(prev)[q] == target_views(targets@)[lo + q]);
                } else {
                    assert(out@[q]@ == targets@[k as int]@);
                }
            }
        }
        k = k + 1;
    }
    proof {
        if job == 0 {
            assert(target_views(out@) =~= shard(target_views(targets@), job as int,
            job_total as int));
        } else if job == job_total - 1 {
            assert(target_views(out@) =~= shard(target_views(targets@), job as int,
            job_total as int));
        } else {
            assert(target_views(out@) =~= shard(target_views(targets@), job as int,
            job_total as int));
        }
    }
    out
}

/// Whether a status makes the whole run fail: a failure always does, and
/// in continuous integration `Invalid` does too, since an action then
/// mutated files that should have been committed.
pub open spec fn status_fails_run(s: ActionStatus, is_ci: bool) -> bool {
    !status_proceeds(s) || (is_ci && s == ActionStatus::Invalid)
}

/// The run's exit signal: whether any assigned status fails the run,
/// under the given continuous-integration mode.
pub fn run_had_failures(statuses: &Vec<ActionStatus>, is_ci: bool) -> (r: bool)
    ensures
        r == exists|i: int|
            0 <= i < statuses@.len() && status_fails_run(#[trigger] statuses@[i], is_ci),
{
    let mut i: usize = 0;
    while i < statuses.len()
        invariant
            i <= statuses@.len(),
            forall|q: int| 0 <= q < i ==> !status_fails_run(#[trigger] statuses@[q], is_ci),
        decreases statuses@.len() - i,
    {
        if crate::action::status_is_failure(statuses[i]) || (is_ci && matches!(
            statuses[i],
            ActionStatus::Invalid,
        )) {
            assert(status_fails_run(statuses@[i as int], is_ci));
            return true;
        }
        i = i + 1;
    }
    false
}

/// The identifier views of a sequence of targets.
pub open spec fn target_ids(v: Seq<Target>) -> Seq<Seq<char>> {
    v.map_values(|t: Target| t@.id)
}

/// Places `x` into the list `v`, which is sorted by target identifier,
/// keeping it sorted.
fn insert_target_sorted(v: &mut Vec<Target>, x: Target)
    requires
        sorted_ascending(target_ids(old(v)@)),
    ensures
        sorted_ascending(target_ids(final(v)@)),
        target_views(final(v)@).to_multiset() == target_views(old(v)@).to_multiset().insert(x@),
        final(v)@.len() == old(v)@.len() + 1,
{
    let mut p: usize = 0;
    while p < v.len() && !crate::strutil::str_lt(x.id.as_str(), v[p].id.as_str())
        invariant
            p <= v.len(),
            v@ == old(v)@,
            forall|k: int| 0 <= k < p ==> chars_le(target_ids(v@)[k], x@.id),
        decreases v.len() - p,
    {
        proof {
            if target_ids(v@)[p as int] != x@.id {
                lemma_chars_lt_connected(target_ids(v@)[p as int], x@.id);
            }
        }
        p = p + 1;
    }
    let ghost oldv = v@;
    let ghost pp = p as int;
    proof {
        crate::strutil::lemma_insert_view_to_multiset(target_views(oldv), pp, x@);
    }
    v.insert(p, x);
    proof {
        assert(target_views(v@) =~= target_views(oldv).insert(pp, x@));
        assert(target_ids(v@) =~= target_ids(oldv).insert(pp, x@.id));
        let s = target_ids(v@);
        let o = target_ids(oldv);
        assert forall|i: int, j: int| 0 <= i < j < s.len() implies chars_le(s[i], s[j]) by {
            if i < pp && j == pp {
                assert(s[i] == o[i] && s[j] == x@.id);
            } else if i == pp && j > pp {
                assert(s[i] == x@.id && s[j] == o[j - 1]);
                if j - 1 > pp {
                    lemma_chars_le_trans(x@.id, o[pp], o[j - 1]);
                }
            } else if i < pp && j > pp {
                assert(s[i] == o[i] && s[j] == o[j - 1]);
                if i == j - 1 {
                    assert(chars_le(s[i], s[j]));
                }
            } else if j < pp {
                assert(s[i] == o[i] && s[j] == o[j]);
            } else if i > pp {
                assert(s[i] == o[i - 1] && s[j] == o[j - 1]);
            }
        }
    }
}

/// Returns the targets of `v` sorted ascending by target identifier: the
/// deterministic order the target list is sharded in.
pub fn sort_targets(v: Vec<Target>) -> (r: Vec<Target>)
    ensures
        sorted_ascending(target_ids(r@)),
        target_views(r@).to_multiset() == target_views(v@).to_multiset(),
        r@.len() == v@.len(),
    decreases 0int,
{
    broadcast use vstd::seq_lib::group_to_multiset_ensures;

    let mut out: Vec<Target> = Vec::new();
    proof {
        assert(target_views(v@.take(0int)) =~= Seq::<TargetView>::empty());
        assert(target_views(out@) =~= target_views(v@.take(0int)));
    }
    let mut i: usize = 0;
    while i < v.len()
        invariant
            i <= v.len(),
            sorted_ascending(target_ids(out@)),
            target_views(out@).to_multiset() == target_views(v@.take(i as int)).to_multiset(),
            out@.len() == i,
        decreases v.len() - i,
    {
        let x = v[i].clone();
        insert_target_sorted(&mut out, x);
        proof {
            broadcast use vstd::seq_lib::group_to_multiset_ensures;

            assert(target_views(v@.take(i as int + 1)) =~= target_views(v@.take(i as int)).push(
                v@[i as int]@,
            ));
            assert(target_views(v@.take(i as int)).push(v@[i as int]@).to_multiset()
                == target_views(v@.take(i as int)).to_multiset().insert(v@[i as int]@));
        }
        i = i + 1;
    }
    proof {
        assert(v@.take(v@.len() as int) =~= v@);
    }
    out
}

/// A target the given change set makes runnable in the workspace: its
/// project is discoverable, names the task, and the task is CI-eligible
/// and affected by the touched files.
pub open spec fn runnable_in(g: ProjectGraph, tv: TargetView, touched: Seq<Seq<char>>) -> bool {
    &&& crate::target::target_wf(tv)
    &&& g.discovery_contains(tv.project_id)
    &&& crate::project::has_task(g.spec_project_for(tv.project_id).tasks, tv.task_id)
    &&& crate::project::task_named(g.spec_project_for(tv.project_id).tasks, tv.task_id).run_in_ci
    &&& affected_by(
        crate::project::task_named(g.spec_project_for(tv.project_id).tasks, tv.task_id).inputs,
        touched,
    )
}

/// One CI-eligible unit of work: project `p` is discoverable and task `w`
/// of its configuration has the CI flag set and inputs the touched files
/// intersect.
pub open spec fn ci_eligible(
    pg: ProjectGraph,
    p: Seq<char>,
    w: int,
    touched: Seq<Seq<char>>,
) -> bool {
    &&& pg.discovery_contains(p)
    &&& 0 <= w < config_map_value(pg.configs@, p).tasks.len()
    &&& config_map_value(pg.configs@, p).tasks[w].run_in_ci
    &&& affected_by(config_map_value(pg.configs@, p).tasks[w].inputs, touched)
}

/// The target list holds an entry for task `w` of project `p`.
pub open spec fn covers(v: Seq<Target>, pg: ProjectGraph, p: Seq<char>, w: int) -> bool {
    exists|k: int|
        0 <= k < v.len() && (#[trigger] target_views(v)[k]).project_id == p && target_views(v)[
            k].task_id == config_map_value(pg.configs@, p).tasks[w].id
}

/// Gathers the runnable targets of a change set: exactly the tasks whose
/// CI-eligibility flag is set and whose declared inputs intersect the
/// touched-file set, sorted ascending by target identifier. Loads every
/// project first, since dependents must be queryable afterwards.
pub fn gather_runnable_targets(
    projects: &mut ProjectGraph,
    touched_files: &Vec<String>,
) -> (r: Result<Vec<Target>, ProjectError>)
    requires
        old(projects).wf(),
        old(projects).fully_loaded(),
    ensures
        final(projects).wf(),
        final(projects).extends(*old(projects)),
        old(projects).discovery_closed() ==> r is Ok,
        r is Ok ==> final(projects).fully_loaded(),
        r matches Err(e) ==> (e matches ProjectError::UnconfiguredID(m) && !old(
            projects,
        ).discovery_contains(m@)),
        r matches Ok(v) ==> forall|k: int|
            0 <= k < v@.len() ==> runnable_in(
                *old(projects),
                #[trigger] target_views(v@)[k],
                str_seq(touched_files@),
            ),
        r matches Ok(v) ==> forall|p: Seq<char>, w: int|
            ci_eligible(*old(projects), p, w, str_seq(touched_files@)) ==> #[trigger] covers(
                v@,
                *old(projects),
                p,
                w,
            ),
        r matches Ok(v) ==> sorted_ascending(target_ids(v@)),
{
    let ghost g0 = *old(projects);
    let ghost touched_view = str_seq(touched_files@);
    match projects.load_all() {
        Ok(_) => {},
        Err(e) => {
            return Err(e);
        },
    }
    let ghost keys_done = *projects;
    let ids = projects.ids();
    let mut targets: Vec<Target> = Vec::new();
    let mut i: usize = 0;
    while i < ids.len()
        invariant
            projects.wf(),
            projects.extends(g0),
            g0.wf(),
            g0 == *old(projects),
            projects.discovery_closed() == g0.discovery_closed(),
            forall|k: int|
                0 <= k < keys_done.discovery_keys().len() ==> projects.is_loaded(
                    #[trigger] keys_done.discovery_keys()[k],
                ),
            keys_done.discovery_keys() == g0.discovery_keys(),
            projects.fully_loaded(),
            str_seq(ids@).to_multiset() == g0.discovery_keys().to_multiset(),
            touched_view == str_seq(touched_files@),
            i <= ids@.len(),
            forall|k: int|
                0 <= k < targets@.len() ==> runnable_in(
                    g0,
                    #[trigger] target_views(targets@)[k],
                    touched_view,
                ),
            forall|q: int, w: int|
                0 <= q < i && ci_eligible(g0, str_seq(ids@)[q], w, touched_view) ==> #[trigger]
                covers(targets@, g0, str_seq(ids@)[q], w),
        decreases ids@.len() - i,
    {
        let ghost pre = *projects;
        proof {
            broadcast use vstd::seq_lib::group_to_multiset_ensures;

            assert(str_seq(ids@).contains(str_seq(ids@)[i as int]));
            assert(g0.discovery_keys().to_multiset().count(str_seq(ids@)[i as int]) > 0);
            assert(g0.discovery_keys().contains(str_seq(ids@)[i as int]));
            let w = choose|w: int|
                0 <= w < g0.discovery_keys().len() && g0.discovery_keys()[w]
                    == str_seq(ids@)[i as int];
            assert(pre.is_loaded(keys_done.discovery_keys()[w]));
            assert(crate::target::valid_id_chars(str_seq(ids@)[i as int]));
            assert(str_seq(ids@)[i as int] != crate::project_graph::root_id_chars());
        }
        let id_ok = crate::target::is_valid_id(ids[i].as_str());
        let root_clash = crate::strutil::str_eq(
            ids[i].as_str(),
            crate::project_graph::root_node_id(),
        );
        if id_ok && !root_clash {
            let project = match projects.load(ids[i].as_str()) {
                Ok(p) => p,
                Err(e) => {
                    proof {
                        projects.lemma_extends_trans(pre, g0);
                        if g0.discovery_closed() {
                            assert(false);
                        }
                    }
                    return Err(e);
                },
            };
            proof {
                projects.lemma_extends_trans(pre, g0);
                assert(projects.discovery_keys() == g0.discovery_keys());
                assert(projects.spec_project_for(project@.id) == g0.spec_project_for(
                    project@.id,
                ));
                g0.lemma_config_wf_for(project@.id);
                assert forall|k: int|
                    0 <= k < keys_done.discovery_keys().len() implies projects.is_loaded(
                    #[trigger] keys_done.discovery_keys()[k],
                ) by {
                    assert(pre.is_loaded(keys_done.discovery_keys()[k]));
                    let w = choose|w: int|
                        1 <= w < pre.projects@.len() && pre.projects@[w]@.id
                            == keys_done.discovery_keys()[k];
                    assert(projects.projects@[w] == pre.projects@[w]);
                }
            }
            let ghost pv = project@;
            let mut t: usize = 0;
            while t < project.tasks.len()
                invariant
                    projects.wf(),
                    projects.extends(g0),
                    g0.wf(),
                    g0 == *old(projects),
                    projects.discovery_closed() == g0.discovery_closed(),
                    forall|k: int|
                        0 <= k < keys_done.discovery_keys().len() ==> projects.is_loaded(
                            #[trigger] keys_done.discovery_keys()[k],
                        ),
                    keys_done.discovery_keys() == g0.discovery_keys(),
                    projects.fully_loaded(),
                    touched_view == str_seq(touched_files@),
                    project@ == pv,
                    i < ids@.len(),
                    pv.id == ids@[i as int]@,
                    crate::target::valid_id_chars(pv.id),
                    g0.discovery_contains(pv.id),
                    pv == g0.spec_project_for(pv.id),
                    pv.tasks == config_map_value(g0.configs@, pv.id).tasks,
                    crate::project::no_dup_chars(
                        pv.tasks.map_values(|x: crate::project::TaskView| x.id),
                    ),
                    forall|q: int|
                        0 <= q < pv.tasks.len() ==> crate::project::task_view_wf(
                            #[trigger] pv.tasks[q],
                        ),
                    t <= pv.tasks.len(),
                    forall|k: int|
                        0 <= k < targets@.len() ==> runnable_in(
                            g0,
                            #[trigger] target_views(targets@)[k],
                            touched_view,
                        ),
                    forall|q: int, w: int|
                        0 <= q < i && ci_eligible(g0, str_seq(ids@)[q], w, touched_view)
                            ==> #[trigger] covers(targets@, g0, str_seq(ids@)[q], w),
                    forall|w: int|
                        0 <= w < t && ci_eligible(g0, pv.id, w, touched_view) ==> #[trigger]
                        covers(targets@, g0, pv.id, w),
                decreases pv.tasks.len() - t,
            {
                let task = &project.tasks[t];
                proof {
                    assert(task@ == pv.tasks[t as int]);
                }
                if task.should_run_in_ci() && task.is_affected(touched_files) {
                    match Target::new(ids[i].as_str(), task.id.as_str()) {
                        Ok(target) => {
                            let ghost prev = targets@;
                            let ghost tv = target@;
                            proof {
                                crate::project::lemma_task_named_at(pv.tasks, t as int);
                                assert(runnable_in(g0, tv, touched_view));
                            }
                            targets.push(target);
                            proof {
                                assert forall|k: int|
                                    0 <= k < targets@.len() implies runnable_in(
                                    g0,
                                    #[trigger] target_views(targets@)[k],
                                    touched_view,
                                ) by {
                                    if k < prev.len() {
                                        assert(targets@[k] == prev[k]);
                                        assert(runnable_in(
                                            g0,
                                            target_views(prev)[k],
                                            touched_view,
                                        ));
                                    } else {
                                        assert(target_views(targets@)[k] == tv);
                                    }
                                }
                                assert(target_views(targets@)[targets@.len() - 1] == tv);
                                assert forall|q: int, w: int|
                                    0 <= q < i && ci_eligible(
                                        g0,
                                        str_seq(ids@)[q],
                                        w,
                                        touched_view,
                                    ) implies #[trigger] covers(
                                    targets@,
                                    g0,
                                    str_seq(ids@)[q],
                                    w,
                                ) by {
                                    assert(covers(prev, g0, str_seq(ids@)[q], w));
                                    let k = choose|k: int|
                                        0 <= k < prev.len() && (#[trigger] target_views(prev)[
                                        k]).project_id == str_seq(ids@)[q] && target_views(
                                            prev,
                                        )[k].task_id == config_map_value(
                                            g0.configs@,
                                            str_seq(ids@)[q],
                                        ).tasks[w].id;
                                    assert(targets@[k] == prev[k]);
                                    assert(target_views(targets@)[k] == target_views(prev)[k]);
                                }
                                assert forall|w: int|
                                    0 <= w < t + 1 && ci_eligible(g0, pv.id, w, touched_view)
                                        implies #[trigger] covers(targets@, g0, pv.id, w) by {
                                    if w < t {
                                        assert(covers(prev, g0, pv.id, w));
                                        let k = choose|k: int|
                                            0 <= k < prev.len() && (#[trigger] target_views(
                                                prev,
                                            )[k]).project_id == pv.id && target_views(prev)[
                                            k].task_id == config_map_value(
                                                g0.configs@,
                                                pv.id,
                                            ).tasks[w].id;
                                        assert(targets@[k] == prev[k]);
                                        assert(target_views(targets@)[k] == target_views(
                                            prev,
                                        )[k]);
                                    } else {
                                        assert(tv.project_id == pv.id);
                                        assert(tv.task_id == pv.tasks[t as int].id);
                                    }
                                }
                            }
                        },
                        Err(_) => {
                            proof {
                                assert(false);
                            }
                        },
                    }
                } else {
                    proof {
                        assert forall|w: int|
                            0 <= w < t + 1 && ci_eligible(g0, pv.id, w, touched_view)
                                implies #[trigger] covers(targets@, g0, pv.id, w) by {
                            if w == t as int {
                                assert(pv.tasks[w].run_in_ci == task@.run_in_ci);
                                assert(affected_by(pv.tasks[w].inputs, touched_view)
                                    == affected_by(task@.inputs, touched_view));
                                assert(false);
                            }
                        }
                    }
                }
                t = t + 1;
            }
            proof {
                assert forall|q: int, w: int|
                    0 <= q < i + 1 && ci_eligible(g0, str_seq(ids@)[q], w, touched_view)
                        implies #[trigger] covers(targets@, g0, str_seq(ids@)[q], w) by {
                    if q == i as int {
                        assert(str_seq(ids@)[q] == pv.id);
                        assert(covers(targets@, g0, pv.id, w));
                    }
                }
            }
        } else {
            proof {
                assert(false);
            }
        }
        i = i + 1;
    }
    let ghost unsorted = targets@;
    let sorted = sort_targets(targets);
    proof {
        broadcast use vstd::seq_lib::group_to_multiset_ensures;

        assert forall|k: int|
            0 <= k < sorted@.len() implies runnable_in(
            g0,
            #[trigger] target_views(sorted@)[k],
            touched_view,
        ) by {
            let tv = target_views(sorted@)[k];
            assert(target_views(sorted@).contains(tv));
            assert(target_views(sorted@).to_multiset().count(tv) > 0);
            assert(target_views(unsorted).contains(tv));
            let k2 = choose|k2: int|
                0 <= k2 < target_views(unsorted).len() && target_views(unsorted)[k2] == tv;
            assert(runnable_in(g0, target_views(unsorted)[k2], touched_view));
        }
        assert forall|p: Seq<char>, w: int|
            ci_eligible(g0, p, w, touched_view) implies #[trigger] covers(
            sorted@,
            g0,
            p,
            w,
        ) by {
            assert(g0.discovery_contains(p));
            assert(g0.discovery_keys().contains(p));
            assert(g0.discovery_keys().to_multiset().count(p) > 0);
            assert(str_seq(ids@).contains(p));
            let q = choose|q: int| 0 <= q < str_seq(ids@).len() && str_seq(ids@)[q] == p;
            assert(covers(unsorted, g0, str_seq(ids@)[q], w));
            let k = choose|k: int|
                0 <= k < unsorted.len() && (#[trigger] target_views(unsorted)[k]).project_id
                    == p && target_views(unsorted)[k].task_id == config_map_value(
                    g0.configs@,
                    p,
                ).tasks[w].id;
            let tv = target_views(unsorted)[k];
            assert(target_views(unsorted).contains(tv));
            assert(target_views(unsorted).to_multiset().count(tv) > 0);
            assert(target_views(sorted@).contains(tv));
            let k3 = choose|k3: int|
                0 <= k3 < target_views(sorted@).len() && target_views(sorted@)[k3] == tv;
            assert(target_views(sorted@)[k3].project_id == p);
        }
    }
    Ok(sorted)
}


/// Builds the action graph for the runnable targets: each target's own
/// subgraph, dependencies included, and then its dependents, so consumers
/// are re-validated. On success every run node's dependencies are linked.
#[verifier::loop_isolation(false)]
pub fn generate_dep_graph(projects: &mut ProjectGraph, targets: &Vec<Target>) -> (r: Result<
    DepGraph,
    DepGraphError,
>)
    requires
        old(projects).wf(),
        old(projects).fully_loaded(),
        subject_pool(*old(projects)).len() < 0xFFFE,
        forall|k: int|
            0 <= k < targets@.len() ==> crate::target::target_wf(
                #[trigger] target_views(targets@)[k],
            ),
    ensures
        final(projects).wf(),
        final(projects).extends(*old(projects)),
        r matches Ok(g) ==> g.wf(*final(projects)) && final(projects).fully_loaded() && (forall|
            i: int,
        |
            0 <= i < g.nodes@.len() ==> run_node_linked(g, *final(projects), i)) && (forall|
            k: int,
        |
            0 <= k < targets@.len() ==> g.has_subject(#[trigger] target_views(targets@)[k].id)),
        r matches Err(e) ==> (e matches DepGraphError::Project(pe) ==> ((
        pe matches ProjectError::UnconfiguredID(m) ==> !old(projects).discovery_contains(m@)) && (
        pe matches ProjectError::UnconfiguredTask(tid, pid) ==> !crate::project::has_task(
            old(projects).spec_project_for(pid@).tasks,
            tid@,
        )))),
        r matches Err(e) ==> !(e matches DepGraphError::Target(te)),
        old(projects).discovery_closed() && crate::dep_graph::targets_closed(*old(projects)) && (
        forall|k: int|
            0 <= k < targets@.len() ==> old(projects).discovery_contains(
                (#[trigger] target_views(targets@)[k]).project_id,
            ) && crate::project::has_task(
                old(projects).spec_project_for(target_views(targets@)[k].project_id).tasks,
                target_views(targets@)[k].task_id,
            )) ==> r is Ok,
{
    let ghost p0 = *projects;
    proof {
        p0.lemma_extends_refl();
    }
    let mut dep_graph = DepGraph::new();
    let mut k: usize = 0;
    while k < targets.len()
        invariant
            projects.wf(),
            projects.extends(p0),
            projects.fully_loaded(),
            dep_graph.wf(*projects),
            subject_pool(*projects) == subject_pool(p0),
            projects.discovery_closed() == p0.discovery_closed(),
            crate::dep_graph::targets_closed(*projects) == crate::dep_graph::targets_closed(p0),
            projects.discovery_keys() == p0.discovery_keys(),
            forall|pid: Seq<char>|
                #[trigger] projects.spec_project_for(pid) == p0.spec_project_for(pid),
            k <= targets@.len(),
            forall|i: int|
                0 <= i < dep_graph.nodes@.len() ==> run_node_linked(dep_graph, *projects, i),
            forall|q: int|
                0 <= q < k ==> dep_graph.has_subject(#[trigger] target_views(targets@)[q].id),
        decreases targets@.len() - k,
    {
        let ghost pre_g = dep_graph;
        let ghost pre_pg = *projects;
        proof {
            assert(targets@[k as int]@ == target_views(targets@)[k as int]);
            assert(crate::target::target_wf(targets@[k as int]@));
        }
        let ix = match dep_graph.run_target(&targets[k], projects, None) {
            Ok(o) => o,
            Err(e) => {
                proof {
                    projects.lemma_extends_trans(pre_pg, p0);
                    if p0.discovery_closed() && crate::dep_graph::targets_closed(p0)
                        && p0.discovery_contains(target_views(targets@)[k as int].project_id)
                        && crate::project::has_task(
                        p0.spec_project_for(target_views(targets@)[k as int].project_id).tasks,
                        target_views(targets@)[k as int].task_id,
                    ) {
                        assert(false);
                    }
                }
                return Err(e);
            },
        };
        proof {
            projects.lemma_extends_trans(pre_pg, p0);
            assert(targets@[k as int]@ == target_views(targets@)[k as int]);
            assert(dep_graph.has_subject(target_views(targets@)[k as int].id)) by {
                let ixv = ix.unwrap();
                assert(dep_graph.node_views()[ixv as int].subject == target_views(targets@)[
                k as int].id);
            }
        }
        let ghost mid_g = dep_graph;
        let ghost mid_pg = *projects;
        match dep_graph.run_target_dependents(&targets[k], projects) {
            Ok(_) => {},
            Err(e) => {
                proof {
                    projects.lemma_extends_trans(mid_pg, pre_pg);
                    projects.lemma_extends_trans(pre_pg, p0);
                    assert(mid_pg.discovery_keys() == p0.discovery_keys());
                    assert forall|pid: Seq<char>|
                        #[trigger] mid_pg.spec_project_for(pid) == p0.spec_project_for(pid)
                        by {}
                    if p0.discovery_closed() && crate::dep_graph::targets_closed(p0)
                        && p0.discovery_contains(target_views(targets@)[k as int].project_id) {
                        assert(mid_pg.discovery_closed() == p0.discovery_closed());
                        assert(crate::dep_graph::targets_closed(mid_pg)
                            == crate::dep_graph::targets_closed(p0));
                        assert(false);
                    }
                }
                return Err(e);
            },
        }
        proof {
            projects.lemma_extends_trans(mid_pg, pre_pg);
            projects.lemma_extends_trans(pre_pg, p0);
            assert forall|q: int|
                0 <= q < k + 1 implies dep_graph.has_subject(
                #[trigger] target_views(targets@)[q].id,
            ) by {
                if q < k {
                    let w = choose|w: int|
                        0 <= w < pre_g.node_views().len() && (#[trigger] pre_g.node_views()[
                        w]).subject == target_views(targets@)[q].id;
                    assert(dep_graph.nodes@[w] == pre_g.nodes@[w]);
                    assert(dep_graph.node_views()[w].subject == target_views(targets@)[q].id);
                } else {
                    let w = choose|w: int|
                        0 <= w < mid_g.node_views().len() && (#[trigger] mid_g.node_views()[
                        w]).subject == target_views(targets@)[q].id;
                    assert(dep_graph.nodes@[w] == mid_g.nodes@[w]);
                    assert(dep_graph.node_views()[w].subject == target_views(targets@)[q].id);
                }
            }
        }
        k = k + 1;
    }
    Ok(dep_graph)
}

} // verus!
