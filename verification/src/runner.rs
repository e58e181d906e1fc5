//! The action runner: a topological scheduler over the action graph.
//!
//! The graph is given as a prerequisite list: `prerequisites[i]` holds the
//! indices of the actions that must reach a terminal status before action
//! `i` may start. An action whose prerequisites all proceeded runs and
//! receives its executor's verdict; an action downstream of a failure is
//! skipped without running, transitively; a `FailedAndAbort` verdict ends
//! the run at once, leaving every unstarted action without a status.

use crate::action::{status_is_failure, status_proceeds, ActionStatus};
use vstd::pervasive::VecAdditionalExecFns;
use vstd::prelude::*;

verus! {

/// Every listed prerequisite is a node of the graph.
pub open spec fn deps_wf(deps: Seq<Seq<usize>>) -> bool {
    forall|i: int, j: int|
        0 <= i < deps.len() && 0 <= j < deps[i].len() ==> (#[trigger] deps[i][j]) < deps.len()
}

/// The same, over the prerequisite vectors as handed in.
pub open spec fn prereqs_wf(p: Seq<Vec<usize>>) -> bool {
    forall|i: int, j: int|
        0 <= i < p.len() && 0 <= j < p[i]@.len() ==> (#[trigger] p[i]@[j]) < p.len()
}

/// Some prerequisite of `i` has finished as part of a failure chain.
pub open spec fn chained_dep_exists(
    p: Seq<Vec<usize>>,
    done: Seq<bool>,
    chained: Seq<bool>,
    i: int,
) -> bool {
    exists|d: int|
        0 <= d < p[i]@.len() && done[#[trigger] p[i]@[d] as int] && chained[p[i]@[d] as int]
}

/// Every prerequisite of `i` has finished, outside any failure chain.
pub open spec fn deps_clear(
    p: Seq<Vec<usize>>,
    done: Seq<bool>,
    chained: Seq<bool>,
    i: int,
) -> bool {
    forall|d: int|
        0 <= d < p[i]@.len() ==> done[#[trigger] p[i]@[d] as int] && !chained[p[i]@[d] as int]
}

/// Whether the action finished at position `k` of the completion order is
/// part of a failure chain: it failed itself, or one of its prerequisites
/// finished earlier as part of a failure chain.
pub open spec fn tainted(r: Seq<(usize, ActionStatus)>, deps: Seq<Seq<usize>>, k: int) -> bool
    decreases k,
{
    if 0 <= k < r.len() {
        !status_proceeds(r[k].1) || (exists|k2: int|
            0 <= k2 < k && deps[r[k].0 as int].contains((#[trigger] r[k2]).0) && tainted(
                r,
                deps,
                k2,
            ))
    } else {
        false
    }
}

/// Whether some prerequisite of the action at position `k` finished
/// earlier as part of a failure chain.
pub open spec fn has_tainted_dep(
    r: Seq<(usize, ActionStatus)>,
    deps: Seq<Seq<usize>>,
    k: int,
) -> bool {
    exists|k2: int|
        0 <= k2 < k && deps[r[k].0 as int].contains((#[trigger] r[k2]).0) && tainted(r, deps, k2)
}

/// Node `x` finished among the first `upto` results.
pub open spec fn listed_before(r: Seq<(usize, ActionStatus)>, x: usize, upto: int) -> bool {
    exists|k2: int| 0 <= k2 < upto && (#[trigger] r[k2]).0 == x
}

/// Every prerequisite of `node` appears among the first `upto` results.
pub open spec fn deps_all_listed(
    deps: Seq<Seq<usize>>,
    r: Seq<(usize, ActionStatus)>,
    node: int,
    upto: int,
) -> bool {
    forall|d: int|
        0 <= d < deps[node].len() ==> listed_before(r, #[trigger] deps[node][d], upto)
}

/// Whether node `i` appears in the completion order.
pub open spec fn finished(r: Seq<(usize, ActionStatus)>, i: int) -> bool {
    exists|k: int| 0 <= k < r.len() && (#[trigger] r[k]).0 == i
}

/// What any completion order produced by the runner satisfies.
pub open spec fn run_post(
    deps: Seq<Seq<usize>>,
    verdicts: Seq<ActionStatus>,
    r: Seq<(usize, ActionStatus)>,
) -> bool {
    &&& forall|k1: int, k2: int|
        0 <= k1 < k2 < r.len() ==> (#[trigger] r[k1]).0 != (#[trigger] r[k2]).0
    &&& forall|k: int| 0 <= k < r.len() ==> (#[trigger] r[k]).0 < deps.len()
    &&& forall|k: int|
        0 <= k < r.len() && (#[trigger] r[k]).1 == ActionStatus::FailedAndAbort ==> k == r.len()
            - 1
    &&& forall|k: int|
        0 <= k < r.len() && !has_tainted_dep(r, deps, k) ==> (#[trigger] r[k]).1 == verdicts[(
        r[k].0) as int] && deps_all_listed(deps, r, r[k].0 as int, k)
    &&& forall|k: int|
        0 <= k < r.len() && has_tainted_dep(r, deps, k) ==> (#[trigger] r[k]).1
            == ActionStatus::Skipped
}

/// How many actions have not finished yet.
pub open spec fn count_false(s: Seq<bool>) -> int
    decreases s.len(),
{
    if s.len() == 0 {
        0
    } else {
        count_false(s.drop_last()) + if s.last() { 0int } else { 1int }
    }
}

proof fn lemma_count_false_bounds(s: Seq<bool>)
    ensures
        0 <= count_false(s) <= s.len(),
    decreases s.len(),
{
    if s.len() > 0 {
        lemma_count_false_bounds(s.drop_last());
    }
}

proof fn lemma_count_false_all(s: Seq<bool>)
    requires
        forall|i: int| 0 <= i < s.len() ==> !s[i],
    ensures
        count_false(s) == s.len(),
    decreases s.len(),
{
    if s.len() > 0 {
        assert(!s.last());
        assert forall|i: int| 0 <= i < s.drop_last().len() implies !s.drop_last()[i] by {
            assert(!s[i]);
        }
        lemma_count_false_all(s.drop_last());
    }
}

proof fn lemma_count_false_pos(s: Seq<bool>)
    requires
        count_false(s) > 0,
    ensures
        exists|i: int| 0 <= i < s.len() && !s[i],
    decreases s.len(),
{
    if s.len() > 0 {
        if !s.last() {
            assert(!s[s.len() - 1]);
        } else {
            lemma_count_false_pos(s.drop_last());
            let i = choose|i: int| 0 <= i < s.drop_last().len() && !s.drop_last()[i];
            assert(!s[i]);
        }
    }
}

proof fn lemma_deps_all_listed_push(
    deps: Seq<Seq<usize>>,
    r: Seq<(usize, ActionStatus)>,
    e: (usize, ActionStatus),
    node: int,
    upto: int,
)
    requires
        0 <= upto <= r.len(),
    ensures
        deps_all_listed(deps, r.push(e), node, upto) == deps_all_listed(deps, r, node, upto),
{
    let rp = r.push(e);
    assert forall|x: usize| true implies #[trigger] listed_before(rp, x, upto) == listed_before(
        r,
        x,
        upto,
    ) by {
        if listed_before(rp, x, upto) {
            let k2 = choose|k2: int| 0 <= k2 < upto && (#[trigger] rp[k2]).0 == x;
            assert(r[k2].0 == x);
        }
        if listed_before(r, x, upto) {
            let k2 = choose|k2: int| 0 <= k2 < upto && (#[trigger] r[k2]).0 == x;
            assert(rp[k2].0 == x);
        }
    }
}

proof fn lemma_has_tainted_dep_push(
    r: Seq<(usize, ActionStatus)>,
    deps: Seq<Seq<usize>>,
    e: (usize, ActionStatus),
    k: int,
)
    requires
        0 <= k < r.len(),
    ensures
        has_tainted_dep(r.push(e), deps, k) == has_tainted_dep(r, deps, k),
{
    let rp = r.push(e);
    assert(rp[k] == r[k]);
    if has_tainted_dep(rp, deps, k) {
        let k2 = choose|k2: int|
            0 <= k2 < k && deps[rp[k].0 as int].contains((#[trigger] rp[k2]).0) && tainted(
                rp,
                deps,
                k2,
            );
        lemma_tainted_push(r, deps, e, k2);
        assert(deps[r[k].0 as int].contains(r[k2].0) && tainted(r, deps, k2));
    }
    if has_tainted_dep(r, deps, k) {
        let k2 = choose|k2: int|
            0 <= k2 < k && deps[r[k].0 as int].contains((#[trigger] r[k2]).0) && tainted(
                r,
                deps,
                k2,
            );
        lemma_tainted_push(r, deps, e, k2);
        assert(deps[rp[k].0 as int].contains(rp[k2].0) && tainted(rp, deps, k2));
    }
}

proof fn lemma_count_false_update(s: Seq<bool>, i: int)
    requires
        0 <= i < s.len(),
        s[i] == false,
    ensures
        count_false(s.update(i, true)) == count_false(s) - 1,
    decreases s.len(),
{
    let t = s.update(i, true);
    if i == s.len() - 1 {
        assert(t.drop_last() =~= s.drop_last());
    } else {
        assert(t.drop_last() =~= s.drop_last().update(i, true));
        lemma_count_false_update(s.drop_last(), i);
    }
}

/// A later entry never changes whether an earlier one is tainted.
proof fn lemma_tainted_push(
    r: Seq<(usize, ActionStatus)>,
    deps: Seq<Seq<usize>>,
    e: (usize, ActionStatus),
    k: int,
)
    requires
        0 <= k < r.len(),
    ensures
        tainted(r.push(e), deps, k) == tainted(r, deps, k),
    decreases k,
{
    let rp = r.push(e);
    assert(rp[k] == r[k]);
    assert forall|k2: int| 0 <= k2 < k implies (tainted(rp, deps, k2) == tainted(r, deps, k2)
        && rp[k2] == r[k2]) by {
        lemma_tainted_push(r, deps, e, k2);
    }
}

/// Scans for the next schedulable action: one whose prerequisite already
/// finished in a failure chain (to be skipped, second component true), or
/// one whose prerequisites all finished outside any failure chain (to be
/// run). `None` once nothing further can be scheduled. This is the
/// decision an interactive executor loop asks for, one action at a time.
pub fn next_schedulable(
    prerequisites: &Vec<Vec<usize>>,
    done: &Vec<bool>,
    chained: &Vec<bool>,
) -> (r: Option<(usize, bool)>)
    requires
        done@.len() == prerequisites@.len(),
        chained@.len() == prerequisites@.len(),
        prereqs_wf(prerequisites@),
    ensures
        r matches Some(p) ==> p.0 < prerequisites@.len() && !done@[p.0 as int],
        r matches Some(p) ==> (p.1 ==> chained_dep_exists(
            prerequisites@,
            done@,
            chained@,
            p.0 as int,
        )),
        r matches Some(p) ==> (!p.1 ==> deps_clear(prerequisites@, done@, chained@, p.0 as int)),
        r is None ==> forall|i: int|
            0 <= i < prerequisites@.len() && !done@[i] ==> (exists|d: int|
                0 <= d < prerequisites@[i]@.len()
                    && !done@[#[trigger] prerequisites@[i]@[d] as int]) && (forall|d: int|
                0 <= d < prerequisites@[i]@.len()
                    ==> !(done@[#[trigger] prerequisites@[i]@[d] as int]
                        && chained@[prerequisites@[i]@[d] as int])),
{
    let n = prerequisites.len();
    let mut i: usize = 0;
    while i < n
        invariant
            n == prerequisites@.len(),
            done@.len() == n,
            chained@.len() == n,
            prereqs_wf(prerequisites@),
            i <= n,
            forall|x: int|
                0 <= x < i && !done@[x] ==> (exists|d: int|
                    0 <= d < prerequisites@[x]@.len()
                        && !done@[#[trigger] prerequisites@[x]@[d] as int]) && (forall|d: int|
                    0 <= d < prerequisites@[x]@.len()
                        ==> !(done@[#[trigger] prerequisites@[x]@[d] as int]
                            && chained@[prerequisites@[x]@[d] as int])),
        decreases n - i,
    {
        if !done[i] {
            let row = &prerequisites[i];
            let mut all_done = true;
            let mut any_chained = false;
            let mut d: usize = 0;
            while d < row.len()
                invariant
                    row == &prerequisites@[i as int],
                    i < n,
                    n == prerequisites@.len(),
                    done@.len() == n,
                    chained@.len() == n,
                    prereqs_wf(prerequisites@),
                    d <= row@.len(),
                    all_done == (forall|q: int|
                        0 <= q < d ==> done@[#[trigger] row@[q] as int]),
                    any_chained == (exists|q: int|
                        0 <= q < d && done@[#[trigger] row@[q] as int]
                            && chained@[row@[q] as int]),
                decreases row@.len() - d,
            {
                proof {
                    assert(row@[d as int] < n);
                }
                let dep = row[d];
                if done[dep] {
                    if chained[dep] {
                        any_chained = true;
                    }
                } else {
                    all_done = false;
                }
                d = d + 1;
            }
            if any_chained {
                proof {
                    assert(row@ == prerequisites@[i as int]@);
                    let q = choose|q: int|
                        0 <= q < row@.len() && done@[row@[q] as int] && chained@[row@[q] as int];
                    assert(prerequisites@[i as int]@[q] == row@[q]);
                    assert(done@[prerequisites@[i as int]@[q] as int]);
                    assert(chained@[prerequisites@[i as int]@[q] as int]);
                    assert(chained_dep_exists(prerequisites@, done@, chained@, i as int));
                }
                return Some((i, true));
            }
            if all_done {
                proof {
                    assert(row@ == prerequisites@[i as int]@);
                    assert(deps_clear(prerequisites@, done@, chained@, i as int)) by {
                        assert forall|d: int|
                            0 <= d < prerequisites@[i as int]@.len() implies done@[#[trigger]
                        prerequisites@[i as int]@[d] as int] && !chained@[prerequisites@[
                            i as int]@[d] as int] by {
                            assert(row@[d] == prerequisites@[i as int]@[d]);
                            assert(done@[row@[d] as int]);
                            if chained@[row@[d] as int] {
                                assert(false);
                            }
                        }
                    }
                }
                return Some((i, false));
            }
            proof {
                assert(!all_done);
                let q = choose|q: int| 0 <= q < row@.len() && !done@[row@[q] as int];
                assert(!done@[prerequisites@[i as int]@[q] as int]);
            }
        }
        i = i + 1;
    }
    None
}

/// Records one action's terminal status for the scheduler's bookkeeping:
/// the action is finished, and it joins the failure chain when it was
/// skipped for a failed prerequisite or its own status is a failure.
pub fn record_outcome(
    done: &mut Vec<bool>,
    chained: &mut Vec<bool>,
    i: usize,
    status: ActionStatus,
    from_failed_dependency: bool,
)
    requires
        i < old(done)@.len(),
        old(chained)@.len() == old(done)@.len(),
    ensures
        final(done)@ == old(done)@.update(i as int, true),
        final(chained)@ == old(chained)@.update(
            i as int,
            from_failed_dependency || !status_proceeds(status),
        ),
{
    done.set(i, true);
    chained.set(i, from_failed_dependency || status_is_failure(status));
}

/// Drains the action graph to completion, one action at a time, taking
/// each action's verdict from `verdicts`. Returns the completion order:
/// one record per action that reached a terminal status. Every action is
/// drained unless the run aborted or a dependency cycle left actions
/// permanently blocked.
#[verifier::rlimit(100)]
pub fn run_actions(prerequisites: &Vec<Vec<usize>>, verdicts: &Vec<ActionStatus>) -> (r: Vec<
    (usize, ActionStatus),
>)
    requires
        verdicts@.len() == prerequisites@.len(),
        prereqs_wf(prerequisites@),
    ensures
        run_post(prerequisites@.map_values(|v: Vec<usize>| v@), verdicts@, r@),
        r@.len() <= prerequisites@.len(),
        (r@.len() == prerequisites@.len() || (r@.len() > 0 && r@[r@.len() - 1].1
            == ActionStatus::FailedAndAbort) || (forall|i: int|
            0 <= i < prerequisites@.len() && !finished(r@, i) ==> exists|d: int|
                0 <= d < prerequisites@[i]@.len() && !finished(
                    r@,
                    #[trigger] prerequisites@[i]@[d] as int,
                ))),
{
    let ghost deps = prerequisites@.map_values(|v: Vec<usize>| v@);
    proof {
        assert forall|x: int| 0 <= x < prerequisites@.len() implies #[trigger] deps[x]
            == prerequisites@[x]@ by {}
    }
    let n = prerequisites.len();
    let mut done: Vec<bool> = Vec::new();
    let mut chained: Vec<bool> = Vec::new();
    let mut i0: usize = 0;
    while i0 < n
        invariant
            i0 <= n,
            done@.len() == i0,
            chained@.len() == i0,
            forall|x: int| 0 <= x < i0 ==> !done@[x] && !chained@[x],
        decreases n - i0,
    {
        done.push(false);
        chained.push(false);
        i0 = i0 + 1;
    }
    let mut results: Vec<(usize, ActionStatus)> = Vec::new();
    let mut aborted = false;
    proof {
        lemma_count_false_all(done@);
        lemma_count_false_bounds(done@);
    }
    loop
        invariant
            n == prerequisites@.len(),
            verdicts@.len() == n,
            deps == prerequisites@.map_values(|v: Vec<usize>| v@),
            prereqs_wf(prerequisites@),
            forall|x: int| 0 <= x < n ==> #[trigger] deps[x] == prerequisites@[x]@,
            done@.len() == n,
            chained@.len() == n,
            count_false(done@) == n - results@.len(),
            results@.len() <= n,
            forall|i: int|
                0 <= i < n ==> (done@[i] <==> finished(results@, i)),
            forall|i: int|
                0 <= i < n ==> (chained@[i] <==> exists|k: int|
                    0 <= k < results@.len() && (#[trigger] results@[k]).0 == i && tainted(
                        results@,
                        deps,
                        k,
                    )),
            run_post(deps, verdicts@, results@),
            aborted == (results@.len() > 0 && results@[results@.len() - 1].1
                == ActionStatus::FailedAndAbort),
            !aborted ==> forall|k: int|
                0 <= k < results@.len() ==> (#[trigger] results@[k]).1
                    != ActionStatus::FailedAndAbort,
        decreases count_false(done@) + (if aborted { 0int } else { 1int }),
    {
        if aborted {
            return results;
        }
        let pick = next_schedulable(prerequisites, &done, &chained);
        match pick {
            None => {
                proof {
                    if results@.len() < n {
                        assert forall|i: int|
                            0 <= i < n && !finished(results@, i) implies exists|d: int|
                            0 <= d < prerequisites@[i]@.len() && !finished(
                                results@,
                                #[trigger] prerequisites@[i]@[d] as int,
                            ) by {
                            assert(!done@[i]);
                            assert(exists|d: int|
                                0 <= d < prerequisites@[i]@.len() && !done@[#[trigger]
                                prerequisites@[i]@[d] as int]);
                            let d = choose|d: int|
                                0 <= d < prerequisites@[i]@.len()
                                    && !done@[prerequisites@[i]@[d] as int];
                            assert(!finished(results@, prerequisites@[i]@[d] as int));
                        }
                    } else {
                        assert(results@.len() == n);
                    }
                }
                return results;
            },
            Some((i, skip_from_failure)) => {
                let ghost old_results = results@;
                let ghost old_done = done@;
                let ghost old_chained = chained@;
                let ghost kk = results@.len() as int;
                let status: ActionStatus = if skip_from_failure {
                    ActionStatus::Skipped
                } else {
                    verdicts[i]
                };
                done.set(i, true);
                let is_chain = if skip_from_failure {
                    true
                } else {
                    status_is_failure(status)
                };
                chained.set(i, is_chain);
                results.push((i, status));
                if matches!(status, ActionStatus::FailedAndAbort) {
                    aborted = true;
                }
                proof {
                    lemma_count_false_update(old_done, i as int);
                    lemma_count_false_bounds(done@);
                    assert forall|k: int| 0 <= k < kk implies (tainted(results@, deps, k)
                        == tainted(old_results, deps, k) && results@[k] == old_results[k]) by {
                        lemma_tainted_push(old_results, deps, (i, status), k);
                    }
                    // The new entry's taint matches its cause.
                    if skip_from_failure {
                        assert(chained_dep_exists(prerequisites@, old_done, old_chained, i as int));
                        let d = choose|d: int|
                            0 <= d < prerequisites@[i as int]@.len()
                                && old_done[#[trigger] prerequisites@[i as int]@[d] as int]
                                && old_chained[prerequisites@[i as int]@[d] as int];
                        let dep = prerequisites@[i as int]@[d] as int;
                        assert(0 <= dep < n);
                        assert(dep != i as int);
                        assert(old_chained[dep]);
                        assert(exists|k2: int|
                            0 <= k2 < old_results.len() && (#[trigger] old_results[k2]).0 == dep
                                && tainted(old_results, deps, k2));
                        let k2 = choose|k2: int|
                            0 <= k2 < old_results.len() && (#[trigger] old_results[k2]).0
                                == dep && tainted(old_results, deps, k2);
                        assert(results@ == old_results.push((i, status)));
                        assert(results@[k2] == old_results[k2]);
                        assert(deps[results@[kk].0 as int].contains(results@[k2].0));
                        lemma_tainted_push(old_results, deps, (i, status), k2);
                        assert(tainted(results@, deps, k2));
                        assert(has_tainted_dep(results@, deps, kk));
                        assert(tainted(results@, deps, kk));
                    } else {
                        assert(!has_tainted_dep(results@, deps, kk)) by {
                            if has_tainted_dep(results@, deps, kk) {
                                let k2 = choose|k2: int|
                                    0 <= k2 < kk && deps[results@[kk].0 as int].contains(
                                        (#[trigger] results@[k2]).0,
                                    ) && tainted(results@, deps, k2);
                                let dep = results@[k2].0 as int;
                                assert(old_results[k2].0 == dep);
                                assert(finished(old_results, dep));
                                assert(old_done[dep]);
                                let dq = choose|dq: int|
                                    0 <= dq < deps[i as int].len() && deps[i as int][dq]
                                        == results@[k2].0;
                                assert(deps_clear(prerequisites@, old_done, old_chained, i as int));
                                assert(old_done[prerequisites@[i as int]@[dq] as int]
                                    && !old_chained[prerequisites@[i as int]@[dq] as int]);
                                assert(old_chained[dep] == false);
                                lemma_tainted_push(old_results, deps, (i, status), k2);
                                assert(tainted(old_results, deps, k2));
                                assert(false);
                            }
                        }
                        assert(deps_clear(prerequisites@, old_done, old_chained, i as int));
                        assert(deps[i as int] == prerequisites@[i as int]@);
                        assert(deps_all_listed(deps, results@, i as int, kk)) by {
                            assert forall|d: int| 0 <= d < deps[i as int].len() implies
                                listed_before(results@, #[trigger] deps[i as int][d], kk) by {
                                assert(old_done[prerequisites@[i as int]@[d] as int]);
                                assert(finished(old_results, deps[i as int][d] as int));
                                let k2 = choose|k2: int|
                                    0 <= k2 < old_results.len() && (#[trigger] old_results[
                                    k2]).0 == deps[i as int][d] as int;
                                assert(results@[k2].0 == deps[i as int][d]);
                            }
                        }
                        assert(tainted(results@, deps, kk) == !status_proceeds(status));
                    }
                    // Finishing one action does not change the others.
                    assert forall|x: int| 0 <= x < n implies (done@[x] <==> finished(
                        results@,
                        x,
                    )) by {
                        if x == i as int {
                            assert(results@[kk].0 == x);
                        } else {
                            if finished(results@, x) {
                                let k = choose|k: int|
                                    0 <= k < results@.len() && (#[trigger] results@[k]).0 == x;
                                assert(k < kk);
                                assert(old_results[k].0 == x);
                            }
                            if finished(old_results, x) {
                                let k = choose|k: int|
                                    0 <= k < old_results.len() && (#[trigger] old_results[k]).0
                                        == x;
                                assert(results@[k].0 == x);
                            }
                        }
                    }
                    assert forall|x: int| 0 <= x < n implies (chained@[x] <==> exists|k: int|
                        0 <= k < results@.len() && (#[trigger] results@[k]).0 == x && tainted(
                            results@,
                            deps,
                            k,
                        )) by {
                        if x == i as int {
                            assert(results@[kk].0 == x);
                            assert(tainted(results@, deps, kk) == is_chain);
                            if !is_chain {
                                if exists|k: int|
                                    0 <= k < results@.len() && (#[trigger] results@[k]).0 == x
                                        && tainted(results@, deps, k) {
                                    let k = choose|k: int|
                                        0 <= k < results@.len() && (#[trigger] results@[k]).0
                                            == x && tainted(results@, deps, k);
                                    if k < kk {
                                        assert(old_results[k].0 == x);
                                        assert(finished(old_results, x));
                                        assert(old_done[x]);
                                        assert(false);
                                    }
                                }
                            }
                        } else {
                            if chained@[x] {
                                let k = choose|k: int|
                                    0 <= k < old_results.len() && (#[trigger] old_results[k]).0
                                        == x && tainted(old_results, deps, k);
                                assert(results@[k].0 == x && tainted(results@, deps, k));
                            }
                            if exists|k: int|
                                0 <= k < results@.len() && (#[trigger] results@[k]).0 == x
                                    && tainted(results@, deps, k) {
                                let k = choose|k: int|
                                    0 <= k < results@.len() && (#[trigger] results@[k]).0 == x
                                        && tainted(results@, deps, k);
                                assert(k < kk);
                                assert(old_results[k].0 == x && tainted(old_results, deps, k));
                            }
                        }
                    }
                    // The completion order still satisfies the runner's
                    // guarantees.
                    assert forall|k: int|
                        0 <= k < results@.len() && !has_tainted_dep(results@, deps, k) implies (
                    #[trigger] results@[k]).1 == verdicts@[results@[k].0 as int]
                        && deps_all_listed(deps, results@, results@[k].0 as int, k) by {
                        if k < kk {
                            lemma_has_tainted_dep_push(old_results, deps, (i, status), k);
                            assert(!has_tainted_dep(old_results, deps, k));
                            assert(results@[k] == old_results[k]);
                            assert(old_results[k].1 == verdicts@[old_results[k].0 as int]);
                            assert(deps_all_listed(deps, old_results, old_results[k].0 as int, k));
                            lemma_deps_all_listed_push(
                                deps,
                                old_results,
                                (i, status),
                                old_results[k].0 as int,
                                k,
                            );
                        } else {
                            assert(k == kk);
                            if skip_from_failure {
                                assert(has_tainted_dep(results@, deps, kk));
                                assert(false);
                            } else {
                                assert(results@[k].0 == i);
                                assert(deps_all_listed(deps, results@, i as int, kk));
                            }
                        }
                    }
                    assert forall|k: int|
                        0 <= k < results@.len() && has_tainted_dep(results@, deps, k) implies (
                    #[trigger] results@[k]).1 == ActionStatus::Skipped by {
                        if k < kk {
                            lemma_has_tainted_dep_push(old_results, deps, (i, status), k);
                            assert(results@[k] == old_results[k]);
                        }
                    }
                }
            },
        }
    }
}

} // verus!
