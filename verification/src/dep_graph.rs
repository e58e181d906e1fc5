//! The action graph: a DAG of the actions one run performs, derived from
//! requested targets. An edge points from an action to an action that must
//! reach a terminal status first.
//!
//! Inserting a run target ensures a node for the target, a sync node for
//! its project (backed by a toolchain setup node), and, recursively, a run
//! node for every target its task declares as a dependency, each linked by
//! an edge. Insertion is idempotent: a target already present is returned
//! unchanged.

use crate::errors::{DepGraphError, ProjectError};
use crate::graph_store::{
    out_targets, store_add_edge, store_add_node, store_edge_pairs, store_new, store_node_slots,
    StoreGraph,
};
use crate::project::{has_task, task_named, ProjectConfig};
use crate::project_graph::{config_map_value, root_id_chars, root_node_id, ProjectGraph};
use crate::strutil::{str_eq, str_seq};
use crate::target::{is_target_split, target_str, valid_id_chars, valid_target_chars, Target};
use vstd::prelude::*;
use vstd::string::StringExecFns;

verus! {

/// What kind of work an action node stands for.
#[derive(Clone, Copy, PartialEq, Eq, Structural, Debug)]
pub enum ActionKind {
    /// Install the toolchain, once per run.
    SetupToolchain,
    /// Synchronize one project's configuration; subject is the project ID.
    SyncProject,
    /// Run one target; subject is the target ID.
    RunTarget,
}

/// Mathematical image of an [`ActionNode`].
pub struct ActionNodeView {
    pub kind: ActionKind,
    pub subject: Seq<char>,
}

/// One node of the action graph.
pub struct ActionNode {
    pub kind: ActionKind,
    /// Empty for setup, a project ID for sync, a target ID for run.
    pub subject: String,
}

impl View for ActionNode {
    type V = ActionNodeView;

    open spec fn view(&self) -> ActionNodeView {
        ActionNodeView { kind: self.kind, subject: self.subject@ }
    }
}

/// The project component of a well-formed target text.
pub open spec fn target_project_of(s: Seq<char>) -> Seq<char> {
    s.take(choose|k: int| is_target_split(s, k))
}

/// The task component of a well-formed target text.
pub open spec fn target_task_of(s: Seq<char>) -> Seq<char> {
    s.skip((choose|k: int| is_target_split(s, k)) + 1)
}

/// All subjects an action node may ever carry in this workspace: the
/// setup node's empty subject, one per project, and one per target.
pub open spec fn subject_pool_for_key(
    configs: Seq<(String, ProjectConfig)>,
    key: Seq<char>,
) -> Seq<Seq<char>> {
    config_map_value(configs, key).tasks.map_values(
        |t: crate::project::TaskView| target_str(key, t.id),
    )
}

pub open spec fn subject_pool_rec(
    keys: Seq<Seq<char>>,
    configs: Seq<(String, ProjectConfig)>,
    upto: int,
) -> Seq<Seq<char>>
    decreases upto,
{
    if upto <= 0 {
        Seq::empty()
    } else {
        subject_pool_rec(keys, configs, upto - 1) + seq![keys[upto - 1]] + subject_pool_for_key(
            configs,
            keys[upto - 1],
        )
    }
}

/// The full pool of possible subjects for a workspace.
pub open spec fn subject_pool(pg: ProjectGraph) -> Seq<Seq<char>> {
    seq![Seq::<char>::empty()] + subject_pool_rec(
        pg.discovery_keys(),
        pg.configs@,
        pg.discovery_keys().len() as int,
    )
}

/// A DAG of actions, with node payloads kept in lock-step with the graph
/// structure.
pub struct DepGraph {
    /// Graph structure; node `k` stands for `nodes[k]`.
    pub graph: StoreGraph,
    /// The actions; edges point from an action to what must run first.
    pub nodes: Vec<ActionNode>,
}

impl DepGraph {
    /// The nodes, as values.
    pub open spec fn node_views(self) -> Seq<ActionNodeView> {
        self.nodes@.map_values(|n: ActionNode| n@)
    }

    /// Whether some node carries `subject`.
    pub open spec fn has_subject(self, subject: Seq<char>) -> bool {
        exists|i: int| 0 <= i < self.node_views().len() && (#[trigger] self.node_views()[i]).subject == subject
    }

    /// One node is well formed for the workspace: its subject matches its
    /// kind and names something the workspace knows.
    pub open spec fn node_wf(self, pg: ProjectGraph, i: int) -> bool {
        let v = self.node_views()[i];
        match v.kind {
            ActionKind::SetupToolchain => v.subject == Seq::<char>::empty(),
            ActionKind::SyncProject => valid_id_chars(v.subject) && pg.discovery_contains(
                v.subject,
            ),
            ActionKind::RunTarget => {
                &&& valid_target_chars(v.subject)
                &&& is_target_split(v.subject, target_project_of(v.subject).len() as int)
                &&& pg.discovery_contains(target_project_of(v.subject))
                &&& has_task(
                    pg.spec_project_for(target_project_of(v.subject)).tasks,
                    target_task_of(v.subject),
                )
            },
        }
    }

    /// The whole structural invariant, relative to the workspace the
    /// actions come from.
    pub open spec fn wf(self, pg: ProjectGraph) -> bool {
        let n = self.nodes@.len() as int;
        let edges = store_edge_pairs(self.graph);
        &&& store_node_slots(self.graph).len() == n
        &&& forall|k: int| 0 <= k < n ==> store_node_slots(self.graph)[k] == k as u32
        &&& forall|i: int|
            0 <= i < edges.len() ==> 0 <= (#[trigger] edges[i]).0 < n && 0 <= edges[i].1 < n
        &&& forall|i: int| 0 <= i < edges.len() ==> (#[trigger] edges[i]).0 != edges[i].1
        &&& forall|i: int, j: int| 0 <= i < j < edges.len() ==> edges[i] != edges[j]
        &&& forall|i: int, j: int|
            0 <= i < j < n ==> (#[trigger] self.node_views()[i]).subject != (
            #[trigger] self.node_views()[j]).subject
        &&& forall|i: int| 0 <= i < n ==> self.node_wf(pg, i)
    }

    /// Every edge endpoint names a node. Any well-formed graph has this.
    pub open spec fn edges_bounded(self) -> bool {
        forall|i: int|
            0 <= i < store_edge_pairs(self.graph).len() ==> 0 <= (#[trigger] store_edge_pairs(
                self.graph,
            )[i]).0 < self.nodes@.len() && 0 <= store_edge_pairs(self.graph)[i].1
                < self.nodes@.len()
    }

    /// What any insertion preserves of the prior graph.
    pub open spec fn dextends(self, pre: DepGraph) -> bool {
        &&& pre.nodes@.is_prefix_of(self.nodes@)
        &&& store_edge_pairs(pre.graph).is_prefix_of(store_edge_pairs(self.graph))
        &&& forall|i: int|
            store_edge_pairs(pre.graph).len() <= i < store_edge_pairs(self.graph).len() ==> (
            #[trigger] store_edge_pairs(self.graph)[i]).0 >= pre.nodes@.len()
    }

    proof fn lemma_dextends_refl(self)
        ensures
            self.dextends(self),
    {
        assert(self.nodes@.is_prefix_of(self.nodes@));
        assert(store_edge_pairs(self.graph).is_prefix_of(store_edge_pairs(self.graph)));
    }

    pub proof fn lemma_dextends_trans(self, mid: DepGraph, pre: DepGraph)
        requires
            self.dextends(mid),
            mid.dextends(pre),
        ensures
            self.dextends(pre),
    {
        assert forall|i: int|
            store_edge_pairs(pre.graph).len() <= i < store_edge_pairs(self.graph).len() implies (
        #[trigger] store_edge_pairs(self.graph)[i]).0 >= pre.nodes@.len() by {
            if i < store_edge_pairs(mid.graph).len() {
                assert(store_edge_pairs(self.graph)[i] == store_edge_pairs(mid.graph)[i]);
            } else {
                assert(mid.nodes@.len() >= pre.nodes@.len());
            }
        }
    }

    /// An empty action graph.
    pub fn new() -> (g: DepGraph)
        ensures
            forall|pg: ProjectGraph| g.wf(pg),
            g.nodes@.len() == 0,
            store_edge_pairs(g.graph) == Seq::<(u32, u32)>::empty(),
    {
        let g = DepGraph { graph: store_new(), nodes: Vec::new() };
        proof {
            assert(store_node_slots(g.graph) =~= Seq::<u32>::empty());
        }
        g
    }

    /// Looks a subject up among the nodes.
    fn find_subject(&self, subject: &str) -> (r: Option<usize>)
        ensures
            r matches Some(ix) ==> ix < self.nodes@.len() && self.node_views()[
                ix as int].subject == subject@,
            r is None ==> !self.has_subject(subject@),
    {
        let mut k: usize = 0;
        while k < self.nodes.len()
            invariant
                k <= self.nodes@.len(),
                forall|j: int| 0 <= j < k ==> (#[trigger] self.node_views()[j]).subject
                    != subject@,
            decreases self.nodes@.len() - k,
        {
            if str_eq(self.nodes[k].subject.as_str(), subject) {
                assert(self.node_views()[k as int].subject == subject@);
                return Some(k);
            }
            k = k + 1;
        }
        None
    }

    /// Re-establishes the invariant after one node is appended with no
    /// edges.
    proof fn lemma_after_node_push(self, pre: DepGraph, pg: ProjectGraph, ix: int)
        requires
            pre.wf(pg),
            ix == pre.nodes@.len(),
            self.nodes@.len() == ix + 1,
            forall|i: int| 0 <= i < ix ==> self.nodes@[i] == pre.nodes@[i],
            store_node_slots(self.graph) == store_node_slots(pre.graph).push(ix as u32),
            store_edge_pairs(self.graph) == store_edge_pairs(pre.graph),
            !pre.has_subject(self.node_views()[ix].subject),
            self.node_wf(pg, ix),
        ensures
            self.wf(pg),
            self.dextends(pre),
            forall|i: int| 0 <= i < ix ==> self.node_views()[i] == pre.node_views()[i],
            forall|s: Seq<char>|
                !pre.has_subject(s) && s != self.node_views()[ix].subject ==> !self.has_subject(
                    s,
                ),
    {
        assert forall|i: int| 0 <= i < ix implies self.node_views()[i] == pre.node_views()[
        i] by {
            assert(self.nodes@[i] == pre.nodes@[i]);
        }
        assert forall|k: int|
            0 <= k < self.nodes@.len() implies store_node_slots(self.graph)[k] == k as u32 by {
            if k < ix {
                assert(store_node_slots(pre.graph)[k] == k as u32);
            }
        }
        assert forall|i: int, j: int|
            0 <= i < j < self.nodes@.len() implies (#[trigger] self.node_views()[i]).subject
            != (#[trigger] self.node_views()[j]).subject by {
            if j < ix {
                assert(pre.node_views()[i].subject != pre.node_views()[j].subject);
            } else {
                if self.node_views()[i].subject == self.node_views()[ix].subject {
                    assert(pre.has_subject(self.node_views()[ix].subject));
                }
            }
        }
        assert forall|i: int| 0 <= i < self.nodes@.len() implies self.node_wf(pg, i) by {
            if i < ix {
                assert(pre.node_wf(pg, i));
            }
        }
        assert(pre.nodes@.is_prefix_of(self.nodes@));
        assert(store_edge_pairs(pre.graph).is_prefix_of(store_edge_pairs(self.graph)));
        assert forall|s: Seq<char>|
            !pre.has_subject(s) && s != self.node_views()[ix].subject implies !self.has_subject(
            s,
        ) by {
            if self.has_subject(s) {
                let w = choose|w: int|
                    0 <= w < self.node_views().len() && (#[trigger] self.node_views()[
                    w]).subject == s;
                if w < ix {
                    assert(pre.node_views()[w].subject == s);
                }
            }
        }
    }

    /// Ensures the per-project sync node, backed by the one toolchain
    /// setup node, creating either on first need.
    fn ensure_sync_node(&mut self, project_id: &str, Ghost(pg): Ghost<ProjectGraph>) -> (r:
        usize)
        requires
            old(self).wf(pg),
            valid_id_chars(project_id@),
            pg.discovery_contains(project_id@),
            old(self).nodes@.len() + 2 < 0xFFFF_FFFF,
            store_edge_pairs(old(self).graph).len() + 2 < 0xFFFF_FFFF,
        ensures
            final(self).wf(pg),
            final(self).dextends(*old(self)),
            final(self).nodes@.len() <= old(self).nodes@.len() + 2,
            store_edge_pairs(final(self).graph).len() <= store_edge_pairs(
                old(self).graph,
            ).len() + 1,
            r < final(self).nodes@.len(),
            final(self).node_views()[r as int].kind == ActionKind::SyncProject,
            final(self).node_views()[r as int].subject == project_id@,
            forall|i: int|
                old(self).nodes@.len() <= i < final(self).nodes@.len() ==> (
                #[trigger] final(self).node_views()[i]).kind != ActionKind::RunTarget,
            forall|s: Seq<char>|
                !old(self).has_subject(s) && s != project_id@ && s != Seq::<char>::empty()
                    ==> !final(self).has_subject(s),
    {
        proof {
            reveal_strlit("");
            assert(""@ =~= Seq::<char>::empty());
        }
        let ghost g0 = *self;
        if let Some(ix) = self.find_subject(project_id) {
            proof {
                self.lemma_dextends_refl();
                let v = self.node_views()[ix as int];
                assert(self.node_wf(pg, ix as int));
                if v.kind == ActionKind::SetupToolchain {
                    assert(v.subject.len() == 0);
                    assert(false);
                }
                if v.kind == ActionKind::RunTarget {
                    let k = choose|k: int| is_target_split(v.subject, k);
                    assert(v.subject[k] == ':');
                    assert(false);
                }
            }
            return ix;
        }
        let setup_ix = match self.find_subject("") {
            Some(ix) => ix,
            None => {
                let ghost pre = *self;
                let ix = store_add_node(&mut self.graph, self.nodes.len() as u32);
                self.nodes.push(
                    ActionNode { kind: ActionKind::SetupToolchain, subject: String::new() },
                );
                proof {
                    assert(self.node_views()[ix as int].subject == Seq::<char>::empty());
                    self.lemma_after_node_push(pre, pg, ix as int);
                }
                ix
            },
        };
        proof {
            let v = self.node_views()[setup_ix as int];
            assert(self.node_wf(pg, setup_ix as int));
            if v.kind == ActionKind::SyncProject {
                assert(v.subject.len() > 0);
            }
            if v.kind == ActionKind::RunTarget {
                let k = choose|k: int| is_target_split(v.subject, k);
                assert(0 <= k < v.subject.len());
            }
            assert(v.kind == ActionKind::SetupToolchain);
            assert(v.subject == Seq::<char>::empty());
        }
        let ghost pre2 = *self;
        let sync_ix = store_add_node(&mut self.graph, self.nodes.len() as u32);
        self.nodes.push(ActionNode { kind: ActionKind::SyncProject, subject: String::from_str(project_id) });
        proof {
            assert(self.node_views()[sync_ix as int].subject == project_id@);
            assert(!pre2.has_subject(project_id@));
            self.lemma_after_node_push(pre2, pg, sync_ix as int);
        }
        let ghost pre3 = *self;
        proof {
            assert(setup_ix < pre2.nodes@.len());
            assert(sync_ix as int == pre2.nodes@.len() as int);
        }
        store_add_edge(&mut self.graph, sync_ix, setup_ix);
        proof {
            let edges = store_edge_pairs(self.graph);
            let e0 = store_edge_pairs(pre3.graph);
            assert(edges.drop_last() =~= e0);
            assert forall|i: int, j: int| 0 <= i < j < edges.len() implies edges[i] != edges[
            j] by {
                if j < edges.len() - 1 {
                    assert(e0[i] != e0[j]);
                } else if i < edges.len() - 1 {
                    assert(0 <= e0[i].0 < pre2.nodes@.len());
                }
            }
            assert forall|i: int| 0 <= i < edges.len() implies (#[trigger] edges[i]).0
                != edges[i].1 by {
                if i < edges.len() - 1 {
                    assert(e0[i].0 != e0[i].1);
                } else {
                    assert(edges[i] == (sync_ix as u32, setup_ix as u32));
                    assert(setup_ix as int != sync_ix as int);
                    assert((sync_ix as u32) != (setup_ix as u32));
                }
            }
            assert forall|i: int| 0 <= i < self.nodes@.len() implies self.node_wf(pg, i) by {
                assert(pre3.node_wf(pg, i));
            }
            assert(self.wf(pg));
            assert(self.dextends(g0)) by {
                assert(g0.nodes@.is_prefix_of(self.nodes@));
                assert(store_edge_pairs(g0.graph).is_prefix_of(edges));
                assert forall|i: int|
                    store_edge_pairs(g0.graph).len() <= i < edges.len() implies (
                #[trigger] edges[i]).0 >= g0.nodes@.len() by {
                    assert(i == edges.len() - 1);
                    assert(edges[i].0 == sync_ix as u32);
                }
            }
            assert forall|s: Seq<char>|
                !g0.has_subject(s) && s != project_id@ && s != Seq::<char>::empty()
                    implies !self.has_subject(s) by {}
        }
        sync_ix
    }

    /// Appending one fresh dependency edge keeps the graph well formed.
    proof fn lemma_after_run_edge(self, pre: DepGraph, pg: ProjectGraph, a: int, b: int)
        requires
            pre.wf(pg),
            pre.nodes@.len() < 0xFFFF_FFFF,
            0 <= a < pre.nodes@.len(),
            0 <= b < pre.nodes@.len(),
            a != b,
            forall|i: int|
                0 <= i < store_edge_pairs(pre.graph).len() ==> #[trigger] store_edge_pairs(
                    pre.graph,
                )[i] != (a as u32, b as u32),
            self.nodes@ == pre.nodes@,
            store_node_slots(self.graph) == store_node_slots(pre.graph),
            store_edge_pairs(self.graph) == store_edge_pairs(pre.graph).push(
                (a as u32, b as u32),
            ),
        ensures
            self.wf(pg),
            forall|i: int| 0 <= i < self.nodes@.len() ==> self.node_views()[i]
                == pre.node_views()[i],
    {
        let edges = store_edge_pairs(self.graph);
        let e0 = store_edge_pairs(pre.graph);
        assert forall|i: int, k: int| 0 <= i < k < edges.len() implies edges[i] != edges[k] by {
            if k < edges.len() - 1 {
                assert(e0[i] != e0[k]);
            } else {
                assert(e0[i] != (a as u32, b as u32));
            }
        }
        assert forall|i: int| 0 <= i < edges.len() implies (#[trigger] edges[i]).0 != edges[
        i].1 by {
            if i < edges.len() - 1 {
                assert(e0[i].0 != e0[i].1);
            } else {
                assert(edges[i] == (a as u32, b as u32));
                assert((a as u32) != (b as u32));
            }
        }
        assert forall|i: int| 0 <= i < self.nodes@.len() implies self.node_wf(pg, i) by {
            assert(pre.node_wf(pg, i));
        }
    }

    /// A well-formed graph within the pool bound has room for more edges.
    proof fn lemma_edge_room(self, pg: ProjectGraph)
        requires
            self.wf(pg),
            pg.wf(),
            subject_pool(pg).len() < 0xFFFE,
        ensures
            store_edge_pairs(self.graph).len() + 2 < 0xFFFF_FFFF,
            self.nodes@.len() + 2 < 0xFFFF_FFFF,
    {
        self.lemma_node_count_bound(pg);
        let n = self.nodes@.len() as int;
        crate::project_graph::lemma_edge_count_bound(store_edge_pairs(self.graph), n);
        assert(n * n < 0xFFFF_FFFD) by (nonlinear_arith)
            requires
                0 <= n < 0xFFFE,
        ;
    }

    /// The dependency edge about to be added is not yet present: every
    /// existing edge out of the run node goes to its sync node or to an
    /// earlier, distinct dependency.
    proof fn lemma_fresh_dep_edge(
        self,
        pre: DepGraph,
        node_ix: int,
        dep_ix: int,
        sync_ix: int,
        project_id: Seq<char>,
        deps_view: Seq<Seq<char>>,
        j: int,
    )
        requires
            self.dextends(pre),
            self.nodes@.len() < 0xFFFE,
            0 <= node_ix < pre.nodes@.len(),
            0 <= dep_ix < self.nodes@.len(),
            0 <= sync_ix < pre.nodes@.len(),
            forall|i: int|
                0 <= i < store_edge_pairs(pre.graph).len() ==> 0 <= (#[trigger] store_edge_pairs(
                    pre.graph,
                )[i]).0 < pre.nodes@.len() && 0 <= store_edge_pairs(pre.graph)[i].1
                    < pre.nodes@.len(),
            0 <= j < deps_view.len(),
            crate::project::no_dup_chars(deps_view),
            valid_target_chars(deps_view[j]),
            crate::target::valid_id_chars(project_id),
            self.node_views()[dep_ix].subject == deps_view[j],
            self.node_views()[sync_ix].subject == project_id,
            forall|i: int|
                0 <= i < store_edge_pairs(pre.graph).len() && (#[trigger] store_edge_pairs(
                    pre.graph,
                )[i]).0 == node_ix as u32 ==> (store_edge_pairs(pre.graph)[i].1 == sync_ix as u32
                    || exists|q: int|
                    0 <= q < j && pre.node_views()[store_edge_pairs(pre.graph)[
                    i].1 as int].subject == #[trigger] deps_view[q]),
        ensures
            forall|i: int|
                0 <= i < store_edge_pairs(self.graph).len() ==> #[trigger] store_edge_pairs(
                    self.graph,
                )[i] != (node_ix as u32, dep_ix as u32),
    {
        assert forall|i: int|
            0 <= i < store_edge_pairs(self.graph).len() implies #[trigger] store_edge_pairs(
            self.graph,
        )[i] != (node_ix as u32, dep_ix as u32) by {
            if store_edge_pairs(self.graph)[i] == (node_ix as u32, dep_ix as u32) {
                if i < store_edge_pairs(pre.graph).len() {
                    assert(store_edge_pairs(pre.graph)[i] == (node_ix as u32, dep_ix as u32));
                    if store_edge_pairs(pre.graph)[i].1 == sync_ix as u32 {
                        assert(dep_ix as u32 == sync_ix as u32);
                        assert(dep_ix == sync_ix);
                        assert(deps_view[j] == project_id);
                        let k = choose|k: int| is_target_split(deps_view[j], k);
                        assert(deps_view[j][k] == ':');
                        assert(false);
                    } else {
                        let q = choose|q: int|
                            0 <= q < j && pre.node_views()[store_edge_pairs(pre.graph)[
                            i].1 as int].subject == #[trigger] deps_view[q];
                        let other = store_edge_pairs(pre.graph)[i].1 as int;
                        assert(other == dep_ix) by {
                            assert(store_edge_pairs(pre.graph)[i].1 == dep_ix as u32);
                            assert(0 <= other < pre.nodes@.len());
                        }
                        assert(self.nodes@[dep_ix] == pre.nodes@[dep_ix]);
                        assert(self.node_views()[dep_ix].subject == pre.node_views()[
                        dep_ix].subject);
                        assert(deps_view[q] == deps_view[j]);
                        assert(false);
                    }
                } else {
                    assert(store_edge_pairs(self.graph)[i].0 >= pre.nodes@.len());
                    assert(false);
                }
            }
        }
    }

    /// Inserts a run node for `target`, its project sync chain, and,
    /// recursively, a run node and edge for every target its task depends
    /// on. Idempotent: a target already present is returned as is. Fails
    /// exactly when a needed project is undiscoverable or a named task is
    /// missing.
    #[verifier::loop_isolation(false)]
    #[verifier::rlimit(100)]
    fn insert_run(&mut self, target: &Target, projects: &mut ProjectGraph) -> (r: Result<
        usize,
        DepGraphError,
    >)
        requires
            crate::target::target_wf(target@),
            old(self).wf(*old(projects)),
            old(projects).wf(),
            subject_pool(*old(projects)).len() < 0xFFFE,
        ensures
            final(projects).wf(),
            final(projects).extends(*old(projects)),
            final(self).wf(*final(projects)),
            final(self).dextends(*old(self)),
            old(projects).fully_loaded() && r is Ok ==> final(projects).fully_loaded(),
            old(self).has_subject(target@.id) ==> *final(self) == *old(self) && *final(projects)
                == *old(projects) && r is Ok,
            r matches Ok(ix) ==> ix < final(self).nodes@.len() && final(self).node_views()[
                ix as int].kind == ActionKind::RunTarget && final(self).node_views()[
                ix as int].subject == target@.id,
            r matches Err(e) ==> (e matches DepGraphError::Project(pe) ==> ((
            pe matches ProjectError::UnconfiguredID(m) ==> !old(projects).discovery_contains(
                m@,
            )) && (pe matches ProjectError::UnconfiguredTask(tid, pid)
                ==> !crate::project::has_task(
                old(projects).spec_project_for(pid@).tasks,
                tid@,
            )))),
            r matches Err(e) ==> !(e matches DepGraphError::Target(te)),
            r is Ok ==> forall|i: int|
                old(self).nodes@.len() <= i < final(self).nodes@.len() ==> run_node_linked(
                    *final(self),
                    *final(projects),
                    i,
                ),
            old(projects).discovery_closed() && targets_closed(*old(projects)) && old(
                projects,
            ).discovery_contains(target@.project_id) && has_task(
                old(projects).spec_project_for(target@.project_id).tasks,
                target@.task_id,
            ) ==> r is Ok,
        decreases subject_pool(*projects).len() + 1 - self.nodes@.len(),
    {
        let ghost s0 = *self;
        let ghost p0 = *projects;
        proof {
            s0.lemma_dextends_refl();
            p0.lemma_extends_refl();
        }
        if let Some(ix) = self.find_subject(target.id.as_str()) {
            proof {
                let v = self.node_views()[ix as int];
                assert(self.node_wf(p0, ix as int));
                assert(target@.id[target@.project_id.len() as int] == ':') by {
                    crate::target::lemma_target_round_trip(target@.project_id, target@.task_id);
                }
                if v.kind == ActionKind::SetupToolchain {
                    assert(v.subject.len() == 0);
                    assert(false);
                }
                if v.kind == ActionKind::SyncProject {
                    assert(v.subject[target@.project_id.len() as int] != ':');
                    assert(false);
                }
            }
            return Ok(ix);
        }
        if str_eq(target.project_id.as_str(), root_node_id()) {
            proof {
                if p0.discovery_contains(target@.project_id) {
                    let w = choose|w: int|
                        0 <= w < p0.discovery_keys().len() && p0.discovery_keys()[w]
                            == target@.project_id;
                    assert(p0.discovery_keys()[w] != root_id_chars());
                }
            }
            return Err(
                DepGraphError::Project(ProjectError::UnconfiguredID(target.project_id.clone())),
            );
        }
        let project = match projects.load(target.project_id.as_str()) {
            Ok(p) => p,
            Err(e) => {
                proof {
                    assert(self.wf(*projects)) by {
                        assert forall|i: int| 0 <= i < self.nodes@.len() implies self.node_wf(
                            *projects,
                            i,
                        ) by {
                            assert(s0.node_wf(p0, i));
                        }
                    }
                    if p0.discovery_closed() && p0.discovery_contains(target@.project_id) {
                        assert(false);
                    }
                }
                return Err(DepGraphError::Project(e));
            },
        };
        proof {
            assert(self.wf(*projects)) by {
                assert forall|i: int| 0 <= i < self.nodes@.len() implies self.node_wf(
                    *projects,
                    i,
                ) by {
                    assert(s0.node_wf(p0, i));
                }
            }
        }
        let task = match project.get_task(target.task_id.as_str()) {
            Some(t) => t,
            None => {
                proof {
                    assert(project@ == projects.spec_project_for(target@.project_id));
                    assert(projects.spec_project_for(target@.project_id) == p0.spec_project_for(
                        target@.project_id,
                    ));
                    if has_task(
                        p0.spec_project_for(target@.project_id).tasks,
                        target@.task_id,
                    ) {
                        assert(false);
                    }
                }
                return Err(
                    DepGraphError::Project(
                        ProjectError::UnconfiguredTask(
                            target.task_id.clone(),
                            target.project_id.clone(),
                        ),
                    ),
                );
            },
        };
        let deps = crate::strutil::clone_strings(&task.deps);
        let ghost deps_view = str_seq(deps@);
        let ghost p1 = *projects;
        let ghost tw: int = choose|w: int|
            0 <= w < project@.tasks.len() && #[trigger] project@.tasks[w] == task@;
        proof {
            p0.lemma_config_wf_for(target@.project_id);
            assert(project@.tasks == config_map_value(p0.configs@, target@.project_id).tasks);
            assert(task@.id == target@.task_id);
            assert(project@.tasks.contains(task@));
            crate::project::lemma_task_named_at(project@.tasks, tw);
            assert(task_named(project@.tasks, target@.task_id) == task@);
            assert(deps_view == task@.deps);
            assert(config_map_value(p0.configs@, target@.project_id).tasks[tw].deps
                == deps_view);
            assert(crate::project::task_view_wf(task@));
            // The pool is unchanged by loading.
            assert(subject_pool(*projects) == subject_pool(p0));
            self.lemma_node_count_bound(*projects);
            self.lemma_edge_room(*projects);
        }
        // Sync chain, then the run node itself.
        let sync_ix = self.ensure_sync_node(
            target.project_id.as_str(),
            Ghost(*projects),
        );
        proof {
            self.lemma_edge_room(*projects);
        }
        let ghost s1 = *self;
        let node_ix = store_add_node(&mut self.graph, self.nodes.len() as u32);
        self.nodes.push(ActionNode { kind: ActionKind::RunTarget, subject: target.id.clone() });
        proof {
            assert(self.node_views()[node_ix as int].subject == target@.id);
            assert(!s1.has_subject(target@.id)) by {
                crate::target::lemma_target_round_trip(target@.project_id, target@.task_id);
                assert(target@.id != target@.project_id) by {
                    assert(target@.id[target@.project_id.len() as int] == ':');
                }
                assert(target@.id.len() > 0);
            }
            assert(self.node_wf(*projects, node_ix as int)) by {
                crate::target::lemma_target_round_trip(target@.project_id, target@.task_id);
                assert(is_target_split(target@.id, target@.project_id.len() as int));
                assert(target_project_of(target@.id) == target@.project_id) by {
                    let k = choose|k: int| is_target_split(target@.id, k);
                    assert(k == target@.project_id.len() as int);
                    assert(target@.id.take(k) =~= target@.project_id);
                }
                assert(target_task_of(target@.id) == target@.task_id) by {
                    let k = choose|k: int| is_target_split(target@.id, k);
                    assert(k == target@.project_id.len() as int);
                    assert(target@.id.skip(k + 1) =~= target@.task_id);
                }
                assert(projects.is_loaded(target@.project_id));
                assert(projects.discovery_contains(target@.project_id));
                assert(crate::project::has_task(
                    projects.spec_project_for(target@.project_id).tasks,
                    target@.task_id,
                ));
            }
            self.lemma_after_node_push(s1, *projects, node_ix as int);
        }
        let ghost s2 = *self;
        proof {
            assert(sync_ix < s1.nodes@.len());
            assert(node_ix as int == s1.nodes@.len() as int);
            self.lemma_node_count_bound(*projects);
            assert(self.nodes@.len() < 0xFFFE);
        }
        store_add_edge(&mut self.graph, node_ix, sync_ix);
        proof {
            self.lemma_after_run_edge(s2, *projects, node_ix as int, sync_ix as int);
            assert(self.node_views()[sync_ix as int].subject == target@.project_id);
            crate::target::lemma_target_round_trip(target@.project_id, target@.task_id);
            assert(target_project_of(target@.id) == target@.project_id) by {
                let k = choose|k: int| is_target_split(target@.id, k);
                assert(k == target@.project_id.len() as int);
                assert(target@.id.take(k) =~= target@.project_id);
            }
            assert(target_task_of(target@.id) == target@.task_id) by {
                let k = choose|k: int| is_target_split(target@.id, k);
                assert(k == target@.project_id.len() as int);
                assert(target@.id.skip(k + 1) =~= target@.task_id);
            }
            assert(run_deps_of(*projects, target@.id) == deps_view) by {
                assert(projects.spec_project_for(target@.project_id).tasks == project@.tasks);
                assert(task_named(project@.tasks, target@.task_id) == task@);
            }
            assert(self.dextends(s0)) by {
                s2.lemma_dextends_trans(s1, s0);
                assert(s0.nodes@.is_prefix_of(self.nodes@));
                assert(store_edge_pairs(s0.graph).is_prefix_of(store_edge_pairs(self.graph)));
                assert forall|i: int|
                    store_edge_pairs(s0.graph).len() <= i < store_edge_pairs(
                        self.graph,
                    ).len() implies (#[trigger] store_edge_pairs(self.graph)[i]).0
                    >= s0.nodes@.len() by {
                    if i < store_edge_pairs(s2.graph).len() {
                        assert(store_edge_pairs(self.graph)[i] == store_edge_pairs(s2.graph)[i]);
                    } else {
                        assert(store_edge_pairs(self.graph)[i].0 == node_ix as u32);
                    }
                }
            }
        }
        let mut j: usize = 0;
        while j < deps.len()
            invariant
                projects.wf(),
                projects.extends(p1),
                p1.extends(p0),
                self.wf(*projects),
                self.dextends(s0),
                subject_pool(*projects) == subject_pool(p0),
                p1.fully_loaded() ==> projects.fully_loaded(),
                str_seq(deps@) == deps_view,
                deps_view == run_deps_of(*projects, target@.id),
                crate::project::no_dup_chars(deps_view),
                forall|q: int|
                    0 <= q < deps_view.len() ==> valid_target_chars(#[trigger] deps_view[q]),
                j <= deps_view.len(),
                node_ix < self.nodes@.len(),
                node_ix >= s0.nodes@.len(),
                self.node_views()[node_ix as int].kind == ActionKind::RunTarget,
                self.node_views()[node_ix as int].subject == target@.id,
                forall|d: int|
                    0 <= d < j ==> (#[trigger] deps_view[d] == target@.id || exists|jj: int|
                        0 <= jj < self.node_views().len() && (#[trigger] self.node_views()[
                        jj]).subject == deps_view[d] && store_edge_pairs(self.graph).contains(
                            (node_ix as u32, jj as u32),
                        )),
                forall|i: int|
                    s0.nodes@.len() <= i < self.nodes@.len() && i != node_ix
                        ==> run_node_linked(*self, *projects, i),
                forall|i: int|
                    0 <= i < store_edge_pairs(self.graph).len() && (#[trigger] store_edge_pairs(
                        self.graph,
                    )[i]).0 == node_ix as u32 ==> (store_edge_pairs(self.graph)[i].1
                        == sync_ix as u32 || exists|q: int|
                        0 <= q < j && self.node_views()[store_edge_pairs(self.graph)[
                        i].1 as int].subject == #[trigger] deps_view[q]),
                sync_ix < self.nodes@.len(),
                self.node_views()[sync_ix as int].subject == target@.project_id,
                projects.discovery_closed() == p0.discovery_closed(),
                targets_closed(*projects) == targets_closed(p0),
                projects.discovery_keys() == p0.discovery_keys(),
                p0.discovery_contains(target@.project_id),
                0 <= tw < config_map_value(p0.configs@, target@.project_id).tasks.len(),
                config_map_value(p0.configs@, target@.project_id).tasks[tw].deps == deps_view,
                forall|pid: Seq<char>|
                    #[trigger] projects.spec_project_for(pid) == p0.spec_project_for(pid),
            decreases deps_view.len() - j,
        {
            let dep_is_self = str_eq(deps[j].as_str(), target.id.as_str());
            if !dep_is_self {
                let dep_target = match Target::parse(deps[j].as_str()) {
                    Ok(t) => t,
                    Err(_) => {
                        proof {
                            assert(valid_target_chars(deps_view[j as int]));
                            assert(false);
                        }
                        return Err(
                            DepGraphError::Target(
                                crate::errors::TargetError::InvalidFormat(String::new()),
                            ),
                        );
                    },
                };
                let ghost pre_self = *self;
                let ghost pre_pg = *projects;
                proof {
                    self.lemma_node_count_bound(*projects);
                }
                let dep_ix = match self.insert_run(&dep_target, projects) {
                    Ok(ix) => ix,
                    Err(e) => {
                        proof {
                            self.lemma_dextends_trans(pre_self, s0);
                            projects.lemma_extends_trans(pre_pg, p1);
                            projects.lemma_extends_trans(p1, p0);
                            if p0.discovery_closed() && targets_closed(p0) {
                                assert(dep_target_ok(p0, deps_view[j as int]));
                                let dep = deps_view[j as int];
                                crate::target::lemma_target_round_trip(
                                    dep_target@.project_id,
                                    dep_target@.task_id,
                                );
                                assert(target_project_of(dep) == dep_target@.project_id) by {
                                    let k = choose|k: int| is_target_split(dep, k);
                                    assert(k == dep_target@.project_id.len() as int);
                                    assert(dep.take(k) =~= dep_target@.project_id);
                                }
                                assert(target_task_of(dep) == dep_target@.task_id) by {
                                    let k = choose|k: int| is_target_split(dep, k);
                                    assert(k == dep_target@.project_id.len() as int);
                                    assert(dep.skip(k + 1) =~= dep_target@.task_id);
                                }
                                assert(pre_pg.discovery_contains(dep_target@.project_id));
                                assert(has_task(
                                    pre_pg.spec_project_for(dep_target@.project_id).tasks,
                                    dep_target@.task_id,
                                ));
                                assert(false);
                            }
                        }
                        return Err(e);
                    },
                };
                proof {
                    self.lemma_dextends_trans(pre_self, s0);
                    projects.lemma_extends_trans(pre_pg, p1);
                    assert(subject_pool(*projects) == subject_pool(pre_pg));
                    assert(run_deps_of(*projects, target@.id) == run_deps_of(
                        pre_pg,
                        target@.id,
                    ));
                    assert forall|i: int|
                        s0.nodes@.len() <= i < self.nodes@.len() && i != node_ix
                            implies run_node_linked(*self, *projects, i) by {
                        if i < pre_self.nodes@.len() {
                            lemma_linked_monotone(*self, pre_self, pre_pg, *projects, i);
                        }
                    }
                }
                if dep_ix != node_ix {
                    proof {
                        self.lemma_node_count_bound(*projects);
                        assert(self.nodes@.len() < 0xFFFE);
                        assert(self.node_views()[node_ix as int] == pre_self.node_views()[
                        node_ix as int]);
                        assert(self.node_views()[dep_ix as int].subject == deps_view[j as int]);
                        self.lemma_fresh_dep_edge(
                            pre_self,
                            node_ix as int,
                            dep_ix as int,
                            sync_ix as int,
                            target@.project_id,
                            deps_view,
                            j as int,
                        );
                        self.lemma_edge_room(*projects);
                    }
                    let ghost s3 = *self;
                    store_add_edge(&mut self.graph, node_ix, dep_ix);
                    proof {
                        self.lemma_after_run_edge(s3, *projects, node_ix as int, dep_ix as int);
                        assert(self.dextends(s0)) by {
                            assert(s0.nodes@.is_prefix_of(self.nodes@));
                            assert(store_edge_pairs(s0.graph).is_prefix_of(store_edge_pairs(
                                self.graph,
                            )));
                            assert forall|i: int|
                                store_edge_pairs(s0.graph).len() <= i < store_edge_pairs(
                                    self.graph,
                                ).len() implies (#[trigger] store_edge_pairs(self.graph)[i]).0
                                >= s0.nodes@.len() by {
                                if i < store_edge_pairs(s3.graph).len() {
                                    assert(store_edge_pairs(self.graph)[i] == store_edge_pairs(
                                        s3.graph,
                                    )[i]);
                                } else {
                                    assert(store_edge_pairs(self.graph)[i].0 == node_ix as u32);
                                }
                            }
                        }
                        assert(store_edge_pairs(self.graph) == store_edge_pairs(
                            s3.graph,
                        ).push((node_ix as u32, dep_ix as u32)));
                        assert(store_edge_pairs(self.graph).contains(
                            (node_ix as u32, dep_ix as u32),
                        )) by {
                            assert(store_edge_pairs(self.graph).last() == (
                            node_ix as u32, dep_ix as u32));
                        }
                        assert forall|d: int|
                            0 <= d < j + 1 implies (#[trigger] deps_view[d] == target@.id
                            || exists|jj: int|
                            0 <= jj < self.node_views().len() && (#[trigger] self.node_views()[
                            jj]).subject == deps_view[d] && store_edge_pairs(
                                self.graph,
                            ).contains((node_ix as u32, jj as u32))) by {
                            if d < j {
                                if deps_view[d] != target@.id {
                                    let jj = choose|jj: int|
                                        0 <= jj < pre_self.node_views().len() && (
                                        #[trigger] pre_self.node_views()[jj]).subject
                                            == deps_view[d] && store_edge_pairs(
                                            pre_self.graph,
                                        ).contains((node_ix as u32, jj as u32));
                                    assert(s3.nodes@[jj] == pre_self.nodes@[jj]);
                                    assert(self.nodes@[jj] == s3.nodes@[jj]);
                                    assert(self.node_views()[jj].subject == deps_view[d]);
                                    let w = choose|w: int|
                                        0 <= w < store_edge_pairs(pre_self.graph).len()
                                            && store_edge_pairs(pre_self.graph)[w] == (
                                        node_ix as u32, jj as u32);
                                    assert(store_edge_pairs(s3.graph)[w] == store_edge_pairs(
                                        pre_self.graph,
                                    )[w]);
                                    assert(w < store_edge_pairs(self.graph).len());
                                    assert(store_edge_pairs(self.graph)[w]
                                        == store_edge_pairs(s3.graph)[w]);
                                    assert(store_edge_pairs(self.graph).contains(
                                        (node_ix as u32, jj as u32),
                                    ));
                                }
                            } else {
                                assert(self.node_views()[dep_ix as int].subject == deps_view[
                                d]);
                            }
                        }
                        assert forall|i: int|
                            s0.nodes@.len() <= i < self.nodes@.len() && i != node_ix
                                implies run_node_linked(*self, *projects, i) by {
                            lemma_linked_monotone(*self, s3, *projects, *projects, i);
                        }
                        assert forall|i: int|
                            0 <= i < store_edge_pairs(self.graph).len() && (
                            #[trigger] store_edge_pairs(self.graph)[i]).0 == node_ix as u32
                                implies (store_edge_pairs(self.graph)[i].1 == sync_ix as u32
                                || exists|q: int|
                                0 <= q < j + 1 && self.node_views()[store_edge_pairs(
                                    self.graph,
                                )[i].1 as int].subject == #[trigger] deps_view[q]) by {
                            if i < store_edge_pairs(s3.graph).len() {
                                assert(store_edge_pairs(self.graph)[i] == store_edge_pairs(
                                    s3.graph,
                                )[i]);
                                if store_edge_pairs(s3.graph)[i].1 != sync_ix as u32 {
                                    let other = store_edge_pairs(s3.graph)[i].1 as int;
                                    if i < store_edge_pairs(pre_self.graph).len() {
                                        assert(store_edge_pairs(pre_self.graph)[i]
                                            == store_edge_pairs(s3.graph)[i]);
                                        assert(exists|q: int|
                                            0 <= q < j && pre_self.node_views()[
                                            store_edge_pairs(pre_self.graph)[
                                            i].1 as int].subject == #[trigger] deps_view[q]);
                                        let q = choose|q: int|
                                            0 <= q < j && pre_self.node_views()[
                                            store_edge_pairs(pre_self.graph)[
                                            i].1 as int].subject == #[trigger] deps_view[q];
                                        assert(0 <= other < pre_self.nodes@.len());
                                        assert(s3.nodes@[other] == pre_self.nodes@[other]);
                                        assert(self.nodes@[other] == s3.nodes@[other]);
                                        assert(self.node_views()[store_edge_pairs(self.graph)[
                                        i].1 as int].subject == deps_view[q]);
                                    } else {
                                        assert(store_edge_pairs(s3.graph)[i].0
                                            >= pre_self.nodes@.len());
                                        assert(false);
                                    }
                                }
                            } else {
                                assert(self.node_views()[dep_ix as int].subject == deps_view[
                                j as int]);
                            }
                        }
                    }
                }
            }
            j = j + 1;
        }
        proof {
            projects.lemma_extends_trans(p1, p0);
            assert forall|i: int|
                s0.nodes@.len() <= i < self.nodes@.len() implies run_node_linked(
                *self,
                *projects,
                i,
            ) by {
                if i == node_ix as int {
                    assert(run_deps_of(*projects, target@.id) == deps_view);
                }
            }
        }
        Ok(node_ix)
    }

    /// Ensures an action node exists for `target` and, recursively, for
    /// every target it depends on. With a touched-file set given, a target
    /// whose task is unaffected is not inserted and `None` is returned.
    pub fn run_target(
        &mut self,
        target: &Target,
        projects: &mut ProjectGraph,
        touched_files: Option<&Vec<String>>,
    ) -> (r: Result<Option<usize>, DepGraphError>)
        requires
            crate::target::target_wf(target@),
            old(self).wf(*old(projects)),
            old(projects).wf(),
            subject_pool(*old(projects)).len() < 0xFFFE,
        ensures
            final(projects).wf(),
            final(projects).extends(*old(projects)),
            final(self).wf(*final(projects)),
            final(self).dextends(*old(self)),
            old(projects).fully_loaded() && r is Ok ==> final(projects).fully_loaded(),
            r matches Ok(o) ==> (o matches Some(ix) ==> ix < final(self).nodes@.len()
                && final(self).node_views()[ix as int].kind == ActionKind::RunTarget && final(
                self).node_views()[ix as int].subject == target@.id),
            touched_files is None ==> (r matches Ok(o) ==> o is Some),
            r is Ok ==> forall|i: int|
                old(self).nodes@.len() <= i < final(self).nodes@.len() ==> run_node_linked(
                    *final(self),
                    *final(projects),
                    i,
                ),
            r is Ok ==> forall|i: int|
                0 <= i < old(self).nodes@.len() && run_node_linked(
                    *old(self),
                    *old(projects),
                    i,
                ) ==> run_node_linked(*final(self), *final(projects), i),
            touched_files is None && old(self).has_subject(target@.id) ==> *final(self) == *old(
                self,
            ) && *final(projects) == *old(projects) && r is Ok,
            r matches Err(e) ==> (e matches DepGraphError::Project(pe) ==> ((
            pe matches ProjectError::UnconfiguredID(m) ==> !old(projects).discovery_contains(
                m@,
            )) && (pe matches ProjectError::UnconfiguredTask(tid, pid) ==> !has_task(
                old(projects).spec_project_for(pid@).tasks,
                tid@,
            )))),
            r matches Err(e) ==> !(e matches DepGraphError::Target(te)),
            old(projects).discovery_closed() && targets_closed(*old(projects)) && old(
                projects,
            ).discovery_contains(target@.project_id) && has_task(
                old(projects).spec_project_for(target@.project_id).tasks,
                target@.task_id,
            ) ==> r is Ok,
    {
        let ghost s0 = *self;
        let ghost p0 = *projects;
        if let Some(touched) = touched_files {
            if str_eq(target.project_id.as_str(), root_node_id()) {
                proof {
                    s0.lemma_dextends_refl();
                    p0.lemma_extends_refl();
                    if p0.discovery_contains(target@.project_id) {
                        let w = choose|w: int|
                            0 <= w < p0.discovery_keys().len() && p0.discovery_keys()[w]
                                == target@.project_id;
                        assert(p0.discovery_keys()[w] != root_id_chars());
                    }
                }
                return Err(
                    DepGraphError::Project(
                        ProjectError::UnconfiguredID(target.project_id.clone()),
                    ),
                );
            }
            let project = match projects.load(target.project_id.as_str()) {
                Ok(p) => p,
                Err(e) => {
                    proof {
                        s0.lemma_dextends_refl();
                        self.lemma_wf_same_workspace(s0, p0, *projects);
                        if p0.discovery_closed() && p0.discovery_contains(target@.project_id) {
                            assert(false);
                        }
                    }
                    return Err(DepGraphError::Project(e));
                },
            };
            proof {
                s0.lemma_dextends_refl();
                self.lemma_wf_same_workspace(s0, p0, *projects);
            }
            let task = match project.get_task(target.task_id.as_str()) {
                Some(t) => t,
                None => {
                    proof {
                        assert(project@ == projects.spec_project_for(target@.project_id));
                        assert(projects.spec_project_for(target@.project_id)
                            == p0.spec_project_for(target@.project_id));
                        if has_task(
                            p0.spec_project_for(target@.project_id).tasks,
                            target@.task_id,
                        ) {
                            assert(false);
                        }
                    }
                    return Err(
                        DepGraphError::Project(
                            ProjectError::UnconfiguredTask(
                                target.task_id.clone(),
                                target.project_id.clone(),
                            ),
                        ),
                    );
                },
            };
            if !task.is_affected(touched) {
                proof {
                    assert forall|i: int|
                        0 <= i < self.nodes@.len() && run_node_linked(s0, p0, i)
                            implies run_node_linked(*self, *projects, i) by {
                        lemma_linked_monotone(*self, s0, p0, *projects, i);
                    }
                }
                return Ok(None);
            }
        }
        let ghost pre_self = *self;
        let ghost pre_pg = *projects;
        match self.insert_run(target, projects) {
            Ok(ix) => {
                proof {
                    self.lemma_dextends_trans(pre_self, s0);
                    projects.lemma_extends_trans(pre_pg, p0);
                    assert forall|i: int|
                        0 <= i < s0.nodes@.len() && run_node_linked(s0, p0, i)
                            implies run_node_linked(*self, *projects, i) by {
                        lemma_linked_monotone(*self, s0, p0, *projects, i);
                    }
                    assert forall|i: int|
                        s0.nodes@.len() <= i < self.nodes@.len() implies run_node_linked(
                        *self,
                        *projects,
                        i,
                    ) by {
                        if i >= pre_self.nodes@.len() {
                        } else {
                            assert(pre_self.nodes@.len() == s0.nodes@.len());
                        }
                    }
                }
                Ok(Some(ix))
            },
            Err(e) => {
                proof {
                    self.lemma_dextends_trans(pre_self, s0);
                    projects.lemma_extends_trans(pre_pg, p0);
                    assert(pre_pg.discovery_keys() == p0.discovery_keys());
                    assert(pre_pg.discovery_closed() == p0.discovery_closed());
                    assert(targets_closed(pre_pg) == targets_closed(p0));
                    assert forall|pid: Seq<char>|
                        #[trigger] pre_pg.spec_project_for(pid) == p0.spec_project_for(pid)
                        by {}
                    if p0.discovery_closed() && targets_closed(p0) && p0.discovery_contains(
                        target@.project_id,
                    ) && has_task(
                        p0.spec_project_for(target@.project_id).tasks,
                        target@.task_id,
                    ) {
                        assert(false);
                    }
                }
                Err(e)
            },
        }
    }

    /// The graph is well formed relative to any workspace state with the
    /// same discovery map and configuration.
    proof fn lemma_wf_same_workspace(
        self,
        same: DepGraph,
        pg: ProjectGraph,
        pg2: ProjectGraph,
    )
        requires
            self == same,
            same.wf(pg),
            pg2.projects_map@ == pg.projects_map@,
            pg2.configs@ == pg.configs@,
            pg2.workspace_root@ == pg.workspace_root@,
        ensures
            self.wf(pg2),
    {
        assert forall|i: int| 0 <= i < self.nodes@.len() implies self.node_wf(pg2, i) by {
            assert(same.node_wf(pg, i));
        }
    }

    /// After the target's own subgraph exists, also inserts a run node for
    /// every loaded project that depends on the target's project and
    /// declares the same task, so consumers are re-validated. Needs every
    /// project loaded beforehand.
    #[verifier::loop_isolation(false)]
    pub fn run_target_dependents(&mut self, target: &Target, projects: &mut ProjectGraph) -> (r:
        Result<(), DepGraphError>)
        requires
            crate::target::target_wf(target@),
            old(self).wf(*old(projects)),
            old(projects).wf(),
            old(projects).fully_loaded(),
            subject_pool(*old(projects)).len() < 0xFFFE,
        ensures
            final(projects).wf(),
            final(projects).extends(*old(projects)),
            r is Ok ==> final(projects).fully_loaded(),
            final(self).wf(*final(projects)),
            final(self).dextends(*old(self)),
            r is Ok ==> forall|i: int|
                old(self).nodes@.len() <= i < final(self).nodes@.len() ==> run_node_linked(
                    *final(self),
                    *final(projects),
                    i,
                ),
            r is Ok ==> forall|i: int|
                0 <= i < old(self).nodes@.len() && run_node_linked(
                    *old(self),
                    *old(projects),
                    i,
                ) ==> run_node_linked(*final(self), *final(projects), i),
            r matches Err(e) ==> (e matches DepGraphError::Project(pe) ==> ((
            pe matches ProjectError::UnconfiguredID(m) ==> !old(projects).discovery_contains(
                m@,
            )) && (pe matches ProjectError::UnconfiguredTask(tid, pid) ==> !has_task(
                old(projects).spec_project_for(pid@).tasks,
                tid@,
            )))),
            r matches Err(e) ==> !(e matches DepGraphError::Target(te)),
            old(projects).discovery_closed() && targets_closed(*old(projects)) && old(
                projects,
            ).discovery_contains(target@.project_id) ==> r is Ok,
    {
        let ghost s0 = *self;
        let ghost p0 = *projects;
        proof {
            s0.lemma_dextends_refl();
            p0.lemma_extends_refl();
        }
        if str_eq(target.project_id.as_str(), root_node_id()) {
            proof {
                if p0.discovery_contains(target@.project_id) {
                    let w = choose|w: int|
                        0 <= w < p0.discovery_keys().len() && p0.discovery_keys()[w]
                            == target@.project_id;
                    assert(p0.discovery_keys()[w] != root_id_chars());
                }
            }
            return Err(
                DepGraphError::Project(ProjectError::UnconfiguredID(target.project_id.clone())),
            );
        }
        let project = match projects.load(target.project_id.as_str()) {
            Ok(p) => p,
            Err(e) => {
                proof {
                    self.lemma_wf_same_workspace(s0, p0, *projects);
                    if p0.discovery_closed() && p0.discovery_contains(target@.project_id) {
                        assert(false);
                    }
                }
                return Err(DepGraphError::Project(e));
            },
        };
        proof {
            self.lemma_wf_same_workspace(s0, p0, *projects);
        }
        let dependents = match projects.get_dependents_of(&project) {
            Ok(d) => d,
            Err(e) => {
                return Err(DepGraphError::Project(e));
            },
        };
        proof {
            assert forall|q: int|
                0 <= q < dependents@.len() implies crate::target::valid_id_chars(
                #[trigger] str_seq(dependents@)[q],
            ) && str_seq(dependents@)[q] != root_id_chars() && projects.is_loaded(
                str_seq(dependents@)[q],
            ) by {
                assert(str_seq(dependents@).contains(str_seq(dependents@)[q]));
                let i = choose|i: int|
                    1 <= i < projects.projects@.len() && (#[trigger] projects.projects@[i])@.id
                        == str_seq(dependents@)[q] && projects.projects@[i]@.depends_on.contains(
                        project@.id,
                    );
                assert(projects.discovery_contains(projects.projects@[i]@.id));
                let w = choose|w: int|
                    0 <= w < projects.discovery_keys().len() && projects.discovery_keys()[w]
                        == str_seq(dependents@)[q];
                assert(crate::target::valid_id_chars(projects.discovery_keys()[w]));
                assert(projects.discovery_keys()[w] != root_id_chars());
            }
        }
        proof {
            assert forall|i: int|
                0 <= i < s0.nodes@.len() && run_node_linked(s0, p0, i) implies run_node_linked(
                *self,
                *projects,
                i,
            ) by {
                lemma_linked_monotone(*self, s0, p0, *projects, i);
            }
        }
        let mut k: usize = 0;
        while k < dependents.len()
            invariant
                projects.wf(),
                projects.extends(p0),
                projects.fully_loaded(),
                self.wf(*projects),
                self.dextends(s0),
                subject_pool(*projects) == subject_pool(p0),
                crate::target::target_wf(target@),
                k <= dependents@.len(),
                forall|q: int|
                    0 <= q < dependents@.len() ==> crate::target::valid_id_chars(
                        #[trigger] str_seq(dependents@)[q],
                    ) && str_seq(dependents@)[q] != root_id_chars() && projects.is_loaded(
                        str_seq(dependents@)[q],
                    ),
                projects.discovery_closed() == p0.discovery_closed(),
                targets_closed(*projects) == targets_closed(p0),
                projects.discovery_keys() == p0.discovery_keys(),
                forall|pid: Seq<char>|
                    #[trigger] projects.spec_project_for(pid) == p0.spec_project_for(pid),
                forall|i: int|
                    s0.nodes@.len() <= i < self.nodes@.len() ==> run_node_linked(
                        *self,
                        *projects,
                        i,
                    ),
                forall|i: int|
                    0 <= i < s0.nodes@.len() && run_node_linked(s0, p0, i) ==> run_node_linked(
                        *self,
                        *projects,
                        i,
                    ),
            decreases dependents@.len() - k,
        {
            let ghost pre_self = *self;
            let ghost pre_pg = *projects;
            proof {
                assert(str_seq(dependents@)[k as int] == dependents@[k as int]@);
            }
            let dep_project = match projects.load(dependents[k].as_str()) {
                Ok(p) => p,
                Err(e) => {
                    proof {
                        assert(pre_pg.is_loaded(str_seq(dependents@)[k as int]));
                        assert(false);
                    }
                    return Err(DepGraphError::Project(e));
                },
            };
            proof {
                projects.lemma_extends_trans(pre_pg, p0);
                self.lemma_wf_same_workspace(pre_self, pre_pg, *projects);
            }
            if dep_project.get_task(target.task_id.as_str()).is_some() {
                let dep_target = match Target::new(
                    dependents[k].as_str(),
                    target.task_id.as_str(),
                ) {
                    Ok(t) => t,
                    Err(_) => {
                        proof {
                            assert(false);
                        }
                        return Err(
                            DepGraphError::Target(
                                crate::errors::TargetError::InvalidFormat(String::new()),
                            ),
                        );
                    },
                };
                let ghost mid_self = *self;
                let ghost mid_pg = *projects;
                match self.insert_run(&dep_target, projects) {
                    Ok(_) => {},
                    Err(e) => {
                        proof {
                            self.lemma_dextends_trans(mid_self, s0);
                            projects.lemma_extends_trans(mid_pg, p0);
                            assert(mid_pg.discovery_keys() == p0.discovery_keys());
                            assert forall|pid: Seq<char>|
                                #[trigger] mid_pg.spec_project_for(pid) == p0.spec_project_for(
                                pid,
                            ) by {}
                            if p0.discovery_closed() && targets_closed(p0) {
                                assert(mid_pg.is_loaded(str_seq(dependents@)[k as int]));
                                assert(mid_pg.discovery_contains(dep_target@.project_id));
                                assert(dep_project@ == mid_pg.spec_project_for(
                                    dep_target@.project_id,
                                ));
                                assert(has_task(
                                    mid_pg.spec_project_for(dep_target@.project_id).tasks,
                                    dep_target@.task_id,
                                ));
                                assert(false);
                            }
                        }
                        return Err(e);
                    },
                }
                proof {
                    self.lemma_dextends_trans(mid_self, s0);
                    projects.lemma_extends_trans(mid_pg, p0);
                    assert(mid_self == pre_self);
                    assert forall|q: int|
                        0 <= q < dependents@.len() implies projects.is_loaded(
                        #[trigger] str_seq(dependents@)[q],
                    ) by {
                        assert(mid_pg.is_loaded(str_seq(dependents@)[q]));
                        let w = choose|w: int|
                            1 <= w < mid_pg.projects@.len() && mid_pg.projects@[w]@.id
                                == str_seq(dependents@)[q];
                        assert(projects.projects@[w] == mid_pg.projects@[w]);
                    }
                    assert forall|i: int|
                        s0.nodes@.len() <= i < self.nodes@.len() implies run_node_linked(
                        *self,
                        *projects,
                        i,
                    ) by {
                        if i < pre_self.nodes@.len() {
                            assert(run_node_linked(pre_self, pre_pg, i));
                            lemma_linked_monotone(*self, pre_self, pre_pg, *projects, i);
                        }
                    }
                    assert forall|i: int|
                        0 <= i < s0.nodes@.len() && run_node_linked(s0, p0, i)
                            implies run_node_linked(*self, *projects, i) by {
                        assert(run_node_linked(pre_self, pre_pg, i));
                        lemma_linked_monotone(*self, pre_self, pre_pg, *projects, i);
                    }
                }
            } else {
                proof {
                    assert forall|i: int|
                        s0.nodes@.len() <= i < self.nodes@.len() implies run_node_linked(
                        *self,
                        *projects,
                        i,
                    ) by {
                        assert(run_node_linked(pre_self, pre_pg, i));
                        lemma_linked_monotone(*self, pre_self, pre_pg, *projects, i);
                    }
                    assert forall|i: int|
                        0 <= i < s0.nodes@.len() && run_node_linked(s0, p0, i)
                            implies run_node_linked(*self, *projects, i) by {
                        assert(run_node_linked(pre_self, pre_pg, i));
                        lemma_linked_monotone(*self, pre_self, pre_pg, *projects, i);
                    }
                }
            }
            k = k + 1;
        }
        proof {
            assert forall|i: int|
                0 <= i < s0.nodes@.len() && run_node_linked(s0, p0, i) implies run_node_linked(
                *self,
                *projects,
                i,
            ) by {}
        }
        Ok(())
    }

    /// How many actions the graph holds.
    pub fn node_count(&self) -> (n: usize)
        ensures
            n == self.nodes@.len(),
    {
        self.nodes.len()
    }

    /// The prerequisite lists the runner consumes: for each action, the
    /// indices of the actions it points at, exactly as the graph's
    /// adjacency yields them (most recently added edge first).
    pub fn prerequisites(&self) -> (r: Vec<Vec<usize>>)
        requires
            self.edges_bounded(),
        ensures
            r@.len() == self.nodes@.len(),
            crate::runner::prereqs_wf(r@),
            forall|i: int|
                0 <= i < r@.len() ==> #[trigger] r@[i]@ == out_targets(
                    store_edge_pairs(self.graph),
                    i as u32,
                ).reverse().map_values(|t: u32| t as usize),
    {
        let n = self.nodes.len();
        let mut out: Vec<Vec<usize>> = Vec::new();
        let mut i: usize = 0;
        while i < n
            invariant
                self.edges_bounded(),
                n == self.nodes@.len(),
                i <= n,
                out@.len() == i,
                forall|x: int, j: int|
                    0 <= x < i && 0 <= j < out@[x]@.len() ==> (#[trigger] out@[x]@[j]) < n,
                forall|x: int|
                    0 <= x < i ==> #[trigger] out@[x]@ == out_targets(
                        store_edge_pairs(self.graph),
                        x as u32,
                    ).reverse().map_values(|t: u32| t as usize),
            decreases n - i,
        {
            let row = crate::graph_store::store_neighbors_out(&self.graph, i);
            proof {
                let outs = out_targets(store_edge_pairs(self.graph), i as u32);
                assert forall|q: int| 0 <= q < row@.len() implies (#[trigger] row@[q]) < n by {
                    assert(row@[q] == outs.reverse()[q] as usize);
                    assert(outs.contains(outs.reverse()[q]));
                    crate::graph_store::lemma_out_targets_membership(
                        store_edge_pairs(self.graph),
                        i as u32,
                        outs.reverse()[q],
                    );
                    let ei = choose|ei: int|
                        0 <= ei < store_edge_pairs(self.graph).len() && store_edge_pairs(
                            self.graph,
                        )[ei] == (i as u32, outs.reverse()[q]);
                    assert(0 <= store_edge_pairs(self.graph)[ei].1 < n);
                }
            }
            out.push(row);
            proof {
                assert forall|x: int, jq: int|
                    0 <= x < i + 1 && 0 <= jq < out@[x]@.len() implies (#[trigger] out@[x]@[
                jq]) < n by {
                    if x < i {
                        assert(out@[x] == out@.drop_last()[x]);
                    }
                }
                assert forall|x: int|
                    0 <= x < i + 1 implies #[trigger] out@[x]@ == out_targets(
                    store_edge_pairs(self.graph),
                    x as u32,
                ).reverse().map_values(|t: u32| t as usize) by {
                    if x < i {
                        assert(out@[x] == out@.drop_last()[x]);
                    }
                }
            }
            i = i + 1;
        }
        out
    }
}


/// The workspace can resolve `dep` as a target: its project is in the
/// discovery map and declares the named task.
pub open spec fn dep_target_ok(pg: ProjectGraph, dep: Seq<char>) -> bool {
    &&& pg.discovery_contains(target_project_of(dep))
    &&& has_task(pg.spec_project_for(target_project_of(dep)).tasks, target_task_of(dep))
}

/// Every task dependency named by any configuration resolves to a
/// configured project and a declared task: inserting targets can never
/// fail.
pub open spec fn targets_closed(pg: ProjectGraph) -> bool {
    forall|key: Seq<char>, w: int, d: int|
        pg.discovery_contains(key) && 0 <= w < config_map_value(pg.configs@, key).tasks.len()
            && 0 <= d < config_map_value(pg.configs@, key).tasks[w].deps.len() ==> dep_target_ok(
            pg,
            #[trigger] config_map_value(pg.configs@, key).tasks[w].deps[d],
        )
}

/// The dependency targets a run node's task declares.
pub open spec fn run_deps_of(pg: ProjectGraph, subject: Seq<char>) -> Seq<Seq<char>> {
    task_named(
        pg.spec_project_for(target_project_of(subject)).tasks,
        target_task_of(subject),
    ).deps
}

/// Every dependency of a run node's task has a run node of its own,
/// linked by an edge — apart from a dependency on the node's own target,
/// which is ignored.
pub open spec fn run_node_linked(g: DepGraph, pg: ProjectGraph, i: int) -> bool {
    g.node_views()[i].kind == ActionKind::RunTarget ==> forall|d: int|
        0 <= d < run_deps_of(pg, g.node_views()[i].subject).len() ==> (#[trigger] run_deps_of(
            pg,
            g.node_views()[i].subject,
        )[d] == g.node_views()[i].subject || exists|j: int|
            0 <= j < g.node_views().len() && (#[trigger] g.node_views()[j]).subject
                == run_deps_of(pg, g.node_views()[i].subject)[d] && store_edge_pairs(
                g.graph,
            ).contains((i as u32, j as u32)))
}

/// Linking survives any later insertion: nodes and edges only accrue.
pub proof fn lemma_linked_monotone(
    post: DepGraph,
    pre: DepGraph,
    pg: ProjectGraph,
    pg2: ProjectGraph,
    i: int,
)
    requires
        pre.nodes@.is_prefix_of(post.nodes@),
        store_edge_pairs(pre.graph).is_prefix_of(store_edge_pairs(post.graph)),
        0 <= i < pre.nodes@.len(),
        run_node_linked(pre, pg, i),
        pg2.projects_map@ == pg.projects_map@,
        pg2.configs@ == pg.configs@,
        pg2.workspace_root@ == pg.workspace_root@,
    ensures
        run_node_linked(post, pg2, i),
{
    assert(post.nodes@[i] == pre.nodes@[i]);
    assert(post.node_views()[i] == pre.node_views()[i]);
    let s = pre.node_views()[i].subject;
    assert(pg2.spec_project_for(target_project_of(s)) == pg.spec_project_for(
        target_project_of(s),
    ));
    assert(run_deps_of(pg2, s) == run_deps_of(pg, s));
    if post.node_views()[i].kind == ActionKind::RunTarget {
        assert forall|d: int|
            0 <= d < run_deps_of(pg2, s).len() implies (#[trigger] run_deps_of(pg2, s)[d] == s
            || exists|j: int|
                0 <= j < post.node_views().len() && (#[trigger] post.node_views()[j]).subject
                    == run_deps_of(pg2, s)[d] && store_edge_pairs(post.graph).contains(
                    (i as u32, j as u32),
                )) by {
            if run_deps_of(pg, s)[d] != s {
                let j = choose|j: int|
                    0 <= j < pre.node_views().len() && (#[trigger] pre.node_views()[j]).subject
                        == run_deps_of(pg, s)[d] && store_edge_pairs(pre.graph).contains(
                        (i as u32, j as u32),
                    );
                assert(post.nodes@[j] == pre.nodes@[j]);
                assert(post.node_views()[j].subject == run_deps_of(pg2, s)[d]);
                let w = choose|w: int|
                    0 <= w < store_edge_pairs(pre.graph).len() && store_edge_pairs(pre.graph)[w]
                        == (i as u32, j as u32);
                assert(store_edge_pairs(post.graph)[w] == (i as u32, j as u32));
            }
        }
    }
}

/// Membership of a seq survives appending more entries.
proof fn lemma_concat_keeps(a: Seq<Seq<char>>, b: Seq<Seq<char>>, x: Seq<char>)
    requires
        a.contains(x),
    ensures
        (a + b).contains(x),
{
    let w = choose|w: int| 0 <= w < a.len() && a[w] == x;
    assert((a + b)[w] == x);
}

proof fn lemma_pool_rec_has_key(
    keys: Seq<Seq<char>>,
    configs: Seq<(String, ProjectConfig)>,
    k: int,
    upto: int,
)
    requires
        0 <= k < upto <= keys.len(),
    ensures
        subject_pool_rec(keys, configs, upto).contains(keys[k]),
    decreases upto,
{
    let a = subject_pool_rec(keys, configs, upto - 1);
    if k == upto - 1 {
        assert((a + seq![keys[k]])[a.len() as int] == keys[k]);
        lemma_concat_keeps(a + seq![keys[k]], subject_pool_for_key(configs, keys[upto - 1]),
        keys[k]);
    } else {
        lemma_pool_rec_has_key(keys, configs, k, upto - 1);
        lemma_concat_keeps(a, seq![keys[upto - 1]], keys[k]);
        lemma_concat_keeps(
            a + seq![keys[upto - 1]],
            subject_pool_for_key(configs, keys[upto - 1]),
            keys[k],
        );
    }
}

proof fn lemma_pool_rec_has_target(
    keys: Seq<Seq<char>>,
    configs: Seq<(String, ProjectConfig)>,
    k: int,
    upto: int,
    w: int,
)
    requires
        0 <= k < upto <= keys.len(),
        0 <= w < config_map_value(configs, keys[k]).tasks.len(),
    ensures
        subject_pool_rec(keys, configs, upto).contains(
            target_str(keys[k], config_map_value(configs, keys[k]).tasks[w].id),
        ),
    decreases upto,
{
    let a = subject_pool_rec(keys, configs, upto - 1);
    let t = target_str(keys[k], config_map_value(configs, keys[k]).tasks[w].id);
    if k == upto - 1 {
        let b = subject_pool_for_key(configs, keys[k]);
        assert(b[w] == t);
        assert((a + seq![keys[k]] + b)[a.len() + 1 + w] == t);
    } else {
        lemma_pool_rec_has_target(keys, configs, k, upto - 1, w);
        lemma_concat_keeps(a, seq![keys[upto - 1]], t);
        lemma_concat_keeps(
            a + seq![keys[upto - 1]],
            subject_pool_for_key(configs, keys[upto - 1]),
            t,
        );
    }
}

/// Pairwise-distinct strings all drawn from a pool are no more numerous
/// than the pool.
proof fn lemma_distinct_in_pool(ids: Seq<Seq<char>>, pool: Seq<Seq<char>>)
    requires
        forall|i: int, j: int| 0 <= i < j < ids.len() ==> ids[i] != ids[j],
        forall|i: int| 0 <= i < ids.len() ==> pool.contains(#[trigger] ids[i]),
    ensures
        ids.len() <= pool.len(),
{
    broadcast use vstd::seq_lib::seq_to_set_is_finite;

    assert(ids.no_duplicates()) by {
        assert forall|i: int, j: int|
            0 <= i < ids.len() && 0 <= j < ids.len() && i != j implies ids[i] != ids[j] by {
            if i < j {
                assert(ids[i] != ids[j]);
            } else {
                assert(ids[j] != ids[i]);
            }
        }
    }
    ids.unique_seq_to_set();
    pool.lemma_cardinality_of_set();
    assert(ids.to_set().subset_of(pool.to_set()));
    vstd::set_lib::lemma_len_subset(ids.to_set(), pool.to_set());
}

impl DepGraph {
    /// Every node's subject is drawn from the workspace's pool.
    proof fn lemma_node_count_bound(self, pg: ProjectGraph)
        requires
            self.wf(pg),
            pg.wf(),
        ensures
            self.nodes@.len() <= subject_pool(pg).len(),
    {
        let subs = self.node_views().map_values(|v: ActionNodeView| v.subject);
        let keys = pg.discovery_keys();
        assert forall|i: int| 0 <= i < subs.len() implies subject_pool(pg).contains(
            #[trigger] subs[i],
        ) by {
            let v = self.node_views()[i];
            assert(self.node_wf(pg, i));
            match v.kind {
                ActionKind::SetupToolchain => {
                    assert(subject_pool(pg)[0] == Seq::<char>::empty());
                },
                ActionKind::SyncProject => {
                    let kk = choose|kk: int| 0 <= kk < keys.len() && keys[kk] == v.subject;
                    lemma_pool_rec_has_key(keys, pg.configs@, kk, keys.len() as int);
                    lemma_concat_keeps_front(
                        seq![Seq::<char>::empty()],
                        subject_pool_rec(keys, pg.configs@, keys.len() as int),
                        v.subject,
                    );
                },
                ActionKind::RunTarget => {
                    let p = target_project_of(v.subject);
                    let t = target_task_of(v.subject);
                    let kk = choose|kk: int| 0 <= kk < keys.len() && keys[kk] == p;
                    let tasks = pg.spec_project_for(p).tasks;
                    assert(tasks == config_map_value(pg.configs@, p).tasks);
                    let w = choose|w: int| 0 <= w < tasks.len() && tasks[w].id == t;
                    assert(v.subject =~= target_str(p, t)) by {
                        assert(is_target_split(v.subject, p.len() as int));
                    }
                    lemma_pool_rec_has_target(keys, pg.configs@, kk, keys.len() as int, w);
                    lemma_concat_keeps_front(
                        seq![Seq::<char>::empty()],
                        subject_pool_rec(keys, pg.configs@, keys.len() as int),
                        v.subject,
                    );
                },
            }
        }
        lemma_distinct_in_pool(subs, subject_pool(pg));
    }
}

/// Membership of a seq survives prepending entries.
proof fn lemma_concat_keeps_front(a: Seq<Seq<char>>, b: Seq<Seq<char>>, x: Seq<char>)
    requires
        b.contains(x),
    ensures
        (a + b).contains(x),
{
    let w = choose|w: int| 0 <= w < b.len() && b[w] == x;
    assert((a + b)[a.len() + w] == x);
}

} // verus!
