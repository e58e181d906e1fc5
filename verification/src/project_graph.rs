//! The project graph: a lazily materialized DAG of projects.
//!
//! Nodes are projects; edges point from a dependent project to each of its
//! dependencies. A synthetic root node, distinct from every real project,
//! is the sole predecessor-free ancestor of every loaded project. Projects
//! are materialized on first reference from the discovery map and the
//! parsed configuration, and are immutable afterwards: queries hand out
//! clones.

use crate::errors::ProjectError;
use crate::graph_store::{
    in_sources, out_targets, store_add_edge, store_add_node, store_edge_pairs, store_neighbors_in,
    store_neighbors_out, store_new, store_node_slots, StoreGraph,
};
use crate::project::{
    config_view_wf, ProjectConfig, ProjectConfigView, Project, ProjectView, TaskView,
};
use crate::strutil::{sort_strings, sorted_ascending, str_eq, str_seq};
use vstd::prelude::*;
use vstd::string::StringExecFns;

verus! {

/// The reserved identifier of the synthetic root node. Configuration
/// validation guarantees no real project carries it.
pub open spec fn root_id_chars() -> Seq<char> {
    "(workspace)"@
}

/// The reserved root identifier, as text.
pub fn root_node_id() -> (r: &'static str)
    ensures
        r@ == root_id_chars(),
{
    "(workspace)"
}

/// `root/source`: where a project source folder lives under the workspace.
pub open spec fn joined_path(root: Seq<char>, source: Seq<char>) -> Seq<char> {
    root + seq!['/'] + source
}

/// The keys of the discovery map.
pub open spec fn source_map_keys(m: Seq<(String, String)>) -> Seq<Seq<char>> {
    m.map_values(|p: (String, String)| p.0@)
}

/// The keys of the configuration list.
pub open spec fn config_map_keys(m: Seq<(String, ProjectConfig)>) -> Seq<Seq<char>> {
    m.map_values(|p: (String, ProjectConfig)| p.0@)
}

/// The source path the discovery map assigns to `id`.
pub open spec fn source_map_value(m: Seq<(String, String)>, id: Seq<char>) -> Seq<char> {
    m[choose|i: int| 0 <= i < m.len() && m[i].0@ == id].1@
}

/// The configuration handed over for `id`; a project without one is empty.
pub open spec fn config_map_value(m: Seq<(String, ProjectConfig)>, id: Seq<char>)
    -> ProjectConfigView {
    if config_map_keys(m).contains(id) {
        m[choose|i: int| 0 <= i < m.len() && m[i].0@ == id].1@
    } else {
        ProjectConfigView { depends_on: Seq::empty(), tasks: Seq::empty() }
    }
}

/// A lazily materialized DAG of projects, with an ID-to-node-index map kept
/// in lock-step with the graph structure.
pub struct ProjectGraph {
    /// Graph structure; node `k` stands for `projects[k]`.
    pub graph: StoreGraph,
    /// The materialized projects; entry 0 is the synthetic root.
    pub projects: Vec<Project>,
    /// Mapping of project IDs to node indices, in load order.
    pub indices: Vec<(String, usize)>,
    /// The discovery map: project ID to source path relative to the root.
    pub projects_map: Vec<(String, String)>,
    /// Parsed configuration per project ID, from the external loader.
    pub configs: Vec<(String, ProjectConfig)>,
    /// The workspace root; projects are loaded relative to it.
    pub workspace_root: String,
}

impl ProjectGraph {
    /// How many nodes the graph holds, the synthetic root included.
    pub open spec fn node_count_spec(self) -> int {
        self.projects@.len() as int
    }

    /// The discovery map, as views.
    pub open spec fn discovery_keys(self) -> Seq<Seq<char>> {
        source_map_keys(self.projects_map@)
    }

    /// Whether `id` has an entry in the discovery map.
    pub open spec fn discovery_contains(self, id: Seq<char>) -> bool {
        self.discovery_keys().contains(id)
    }

    /// The project value that loading `id` materializes.
    pub open spec fn spec_project_for(self, id: Seq<char>) -> ProjectView {
        let source = source_map_value(self.projects_map@, id);
        let cfg = config_map_value(self.configs@, id);
        ProjectView {
            id: id,
            root: joined_path(self.workspace_root@, source),
            source: source,
            depends_on: cfg.depends_on,
            tasks: cfg.tasks,
        }
    }

    /// The synthetic root as a project value.
    pub open spec fn root_project_view(self) -> ProjectView {
        ProjectView {
            id: root_id_chars(),
            root: self.workspace_root@,
            source: "."@,
            depends_on: Seq::empty(),
            tasks: Seq::empty(),
        }
    }

    /// Whether the project `id` has been materialized as a graph node.
    pub open spec fn is_loaded(self, id: Seq<char>) -> bool {
        exists|i: int| 1 <= i < self.projects@.len() && self.projects@[i]@.id == id
    }

    /// The node index of the loaded project `id`.
    pub open spec fn loaded_index(self, id: Seq<char>) -> int {
        choose|i: int| 1 <= i < self.projects@.len() && self.projects@[i]@.id == id
    }

    /// The loaded project `id`, as a value.
    pub open spec fn loaded_project(self, id: Seq<char>) -> ProjectView {
        self.projects@[self.loaded_index(id)]@
    }

    /// Every dependency named by any discovery-map entry's configuration is
    /// itself a discovery-map entry: loading can never fail.
    pub open spec fn discovery_closed(self) -> bool {
        forall|id: Seq<char>, j: int|
            self.discovery_contains(id) && 0 <= j < config_map_value(
                self.configs@,
                id,
            ).depends_on.len() ==> self.discovery_contains(
                #[trigger] config_map_value(self.configs@, id).depends_on[j],
            )
    }

    /// The inputs as configuration validation guarantees them: unique,
    /// well-formed keys distinct from the root sentinel, and well-formed
    /// configurations.
    pub open spec fn inputs_wf(self) -> bool {
        let keys = self.discovery_keys();
        &&& keys.len() <= 0xFFFE
        &&& crate::project::no_dup_chars(keys)
        &&& forall|i: int|
            0 <= i < keys.len() ==> crate::target::valid_id_chars(#[trigger] keys[i]) && keys[i]
                != root_id_chars()
        &&& crate::project::no_dup_chars(config_map_keys(self.configs@))
        &&& forall|i: int|
            0 <= i < self.configs@.len() ==> config_view_wf(
                #[trigger] self.configs@[i].1@,
                self.configs@[i].0@,
                root_id_chars(),
            )
    }

    /// The graph structure mirrors the materialized projects: node `k`
    /// carries slot `k`, and node and project counts agree.
    pub open spec fn slots_wf(self) -> bool {
        let slots = store_node_slots(self.graph);
        &&& slots.len() == self.projects@.len()
        &&& forall|k: int| 0 <= k < slots.len() ==> slots[k] == k as u32
    }

    /// The ID-to-index map lists exactly the non-root projects, in node
    /// order.
    pub open spec fn indices_wf(self) -> bool {
        &&& self.indices@.len() == self.projects@.len() - 1
        &&& forall|k: int|
            0 <= k < self.indices@.len() ==> (#[trigger] self.indices@[k]).0@
                == self.projects@[k + 1]@.id && self.indices@[k].1 == k + 1
    }

    /// The edges leaving a non-root node mirror a prefix of its declared
    /// dependencies, in declaration order. The prefix is proper only while
    /// a load is under way or after one has failed part-way.
    pub open spec fn dep_edges_wf_at(self, a: int) -> bool {
        let outs = out_targets(store_edge_pairs(self.graph), a as u32);
        let deps = self.projects@[a]@.depends_on;
        &&& outs.len() <= deps.len()
        &&& forall|j: int|
            0 <= j < outs.len() ==> 0 < #[trigger] outs[j] < self.projects@.len()
                && self.projects@[outs[j] as int]@.id == deps[j]
    }

    /// Node `a` has an edge for every declared dependency.
    pub open spec fn complete_at(self, a: int) -> bool {
        out_targets(store_edge_pairs(self.graph), a as u32).len()
            == self.projects@[a]@.depends_on.len()
    }

    /// Every load so far ran to completion: each loaded project has an edge
    /// for each of its declared dependencies.
    pub open spec fn fully_loaded(self) -> bool {
        forall|x: int| 1 <= x < self.projects@.len() ==> self.complete_at(x)
    }

    /// Every edge is either the root edge to a node or a dependency edge;
    /// no edge repeats and none enters the root.
    pub open spec fn edges_wf(self) -> bool {
        let edges = store_edge_pairs(self.graph);
        let n = self.projects@.len() as int;
        &&& forall|i: int|
            0 <= i < edges.len() ==> 0 <= (#[trigger] edges[i]).0 < n && 0 < edges[i].1 < n
        &&& forall|i: int, j: int| 0 <= i < j < edges.len() ==> edges[i] != edges[j]
        &&& out_targets(edges, 0u32) == Seq::new((n - 1) as nat, |k: int| (k + 1) as u32)
        &&& forall|a: int| 1 <= a < n ==> self.dep_edges_wf_at(a)
    }

    /// Every materialized project is discoverable and is exactly what
    /// loading its ID produces; IDs are unique across nodes.
    pub open spec fn loaded_wf(self) -> bool {
        &&& self.projects@[0]@ == self.root_project_view()
        &&& forall|i: int, j: int|
            0 <= i < j < self.projects@.len() ==> self.projects@[i]@.id != self.projects@[j]@.id
        &&& forall|i: int|
            1 <= i < self.projects@.len() ==> self.discovery_contains(
                (#[trigger] self.projects@[i])@.id,
            ) && self.projects@[i]@ == self.spec_project_for(self.projects@[i]@.id)
    }

    /// The whole structural invariant.
    pub open spec fn wf(self) -> bool {
        &&& 1 <= self.projects@.len() <= 0xFFFF
        &&& self.projects@.len() <= self.discovery_keys().len() + 1
        &&& self.inputs_wf()
        &&& self.slots_wf()
        &&& self.indices_wf()
        &&& self.edges_wf()
        &&& self.loaded_wf()
    }

    /// Creates the graph over a workspace: its root path, the discovery map
    /// (project ID to relative source path) and the parsed configurations.
    /// Only the synthetic root node exists until projects are loaded.
    pub fn create(
        workspace_root: &str,
        projects_map: Vec<(String, String)>,
        configs: Vec<(String, ProjectConfig)>,
    ) -> (g: ProjectGraph)
        requires
            source_map_keys(projects_map@).len() <= 0xFFFE,
            crate::project::no_dup_chars(source_map_keys(projects_map@)),
            forall|i: int|
                0 <= i < projects_map@.len() ==> crate::target::valid_id_chars(
                    #[trigger] source_map_keys(projects_map@)[i],
                ) && source_map_keys(projects_map@)[i] != root_id_chars(),
            crate::project::no_dup_chars(config_map_keys(configs@)),
            forall|i: int|
                0 <= i < configs@.len() ==> config_view_wf(
                    #[trigger] configs@[i].1@,
                    configs@[i].0@,
                    root_id_chars(),
                ),
        ensures
            g.wf(),
            g.node_count_spec() == 1,
            g.discovery_keys() == source_map_keys(projects_map@),
            g.spec_configs() == configs@,
            g.workspace_root_chars() == workspace_root@,
            forall|id: Seq<char>| !g.is_loaded(id),
    {
        let mut graph = store_new();
        store_add_node(&mut graph, 0);
        let root_project = Project {
            id: String::from_str(root_node_id()),
            root: String::from_str(workspace_root),
            source: String::from_str("."),
            depends_on: Vec::new(),
            tasks: Vec::new(),
        };
        let mut projects: Vec<Project> = Vec::new();
        projects.push(root_project);
        let g = ProjectGraph {
            graph,
            projects,
            indices: Vec::new(),
            projects_map,
            configs,
            workspace_root: String::from_str(workspace_root),
        };
        proof {
            assert(store_node_slots(g.graph) =~= seq![0u32]);
            assert(out_targets(store_edge_pairs(g.graph), 0u32) =~= Seq::new(
                0nat,
                |k: int| (k + 1) as u32,
            ));
            assert(g.projects@[0]@.depends_on =~= Seq::<Seq<char>>::empty());
            assert(g.projects@[0]@.tasks =~= Seq::<TaskView>::empty());
            assert(g.projects@[0]@ == g.root_project_view());
        }
        g
    }

    /// The stored configurations, for contracts that relate runs.
    pub open spec fn spec_configs(self) -> Seq<(String, ProjectConfig)> {
        self.configs@
    }

    /// The workspace root path.
    pub open spec fn workspace_root_chars(self) -> Seq<char> {
        self.workspace_root@
    }

    /// All configured project IDs, in ascending order — the discovery map's
    /// keys exactly, however many projects are currently loaded.
    pub fn ids(&self) -> (r: Vec<String>)
        ensures
            sorted_ascending(str_seq(r@)),
            str_seq(r@).to_multiset() == self.discovery_keys().to_multiset(),
            r@.len() == self.discovery_keys().len(),
    {
        let mut keys: Vec<String> = Vec::new();
        let mut i: usize = 0;
        while i < self.projects_map.len()
            invariant
                i <= self.projects_map@.len(),
                keys@.len() == i,
                forall|k: int| 0 <= k < i ==> str_seq(keys@)[k] == self.discovery_keys()[k],
            decreases self.projects_map@.len() - i,
        {
            keys.push(self.projects_map[i].0.clone());
            i = i + 1;
        }
        proof {
            assert(str_seq(keys@) =~= self.discovery_keys());
        }
        sort_strings(&keys)
    }

    /// Looks `id` up in the ID-to-node-index map.
    fn find_index(&self, id: &str) -> (r: Option<usize>)
        requires
            self.wf(),
        ensures
            r matches Some(ix) ==> 1 <= ix < self.projects@.len() && self.projects@[ix as int]@.id
                == id@ && self.is_loaded(id@) && self.loaded_index(id@) == ix as int,
            r is None ==> !self.is_loaded(id@),
    {
        let mut k: usize = 0;
        while k < self.indices.len()
            invariant
                self.wf(),
                k <= self.indices@.len(),
                forall|j: int| 0 <= j < k ==> (#[trigger] self.projects@[j + 1])@.id != id@,
            decreases self.indices@.len() - k,
        {
            if str_eq(self.indices[k].0.as_str(), id) {
                let ix = self.indices[k].1;
                proof {
                    assert(self.projects@[k + 1]@.id == id@);
                    let w = self.loaded_index(id@);
                    if w != k + 1 {
                        assert(self.projects@[w]@.id == self.projects@[k + 1]@.id);
                    }
                }
                return Some(ix);
            }
            k = k + 1;
        }
        proof {
            if self.is_loaded(id@) {
                let w = choose|i: int|
                    1 <= i < self.projects@.len() && self.projects@[i]@.id == id@;
                let j = w - 1;
                assert(self.projects@[j + 1]@.id != id@);
            }
        }
        None
    }

    /// Looks `id` up in the discovery map.
    fn find_source(&self, id: &str) -> (r: Option<usize>)
        ensures
            r matches Some(ix) ==> ix < self.projects_map@.len()
                && self.projects_map@[ix as int].0@ == id@ && self.discovery_contains(id@),
            r is None ==> !self.discovery_contains(id@),
    {
        let mut k: usize = 0;
        while k < self.projects_map.len()
            invariant
                k <= self.projects_map@.len(),
                forall|j: int| 0 <= j < k ==> self.discovery_keys()[j] != id@,
            decreases self.projects_map@.len() - k,
        {
            if str_eq(self.projects_map[k].0.as_str(), id) {
                assert(self.discovery_keys()[k as int] == id@);
                return Some(k);
            }
            k = k + 1;
        }
        proof {
            assert(!self.discovery_keys().contains(id@));
        }
        None
    }

    /// Looks `id` up in the configuration list.
    fn find_config(&self, id: &str) -> (r: Option<usize>)
        ensures
            r matches Some(ix) ==> ix < self.configs@.len() && self.configs@[ix as int].0@ == id@
                && config_map_keys(self.configs@).contains(id@),
            r is None ==> !config_map_keys(self.configs@).contains(id@),
    {
        let mut k: usize = 0;
        while k < self.configs.len()
            invariant
                k <= self.configs@.len(),
                forall|j: int| 0 <= j < k ==> config_map_keys(self.configs@)[j] != id@,
            decreases self.configs@.len() - k,
        {
            if str_eq(self.configs[k].0.as_str(), id) {
                assert(config_map_keys(self.configs@)[k as int] == id@);
                return Some(k);
            }
            k = k + 1;
        }
        proof {
            assert(!config_map_keys(self.configs@).contains(id@));
        }
        None
    }

    /// The identifiers of the loaded non-root projects, in node order.
    pub open spec fn loaded_ids(self) -> Seq<Seq<char>> {
        Seq::new((self.projects@.len() - 1) as nat, |i: int| self.projects@[i + 1]@.id)
    }

    /// Every stored configuration is well formed for its key.
    pub proof fn lemma_config_wf_for(self, id: Seq<char>)
        requires
            self.inputs_wf(),
        ensures
            config_view_wf(config_map_value(self.configs@, id), id, root_id_chars()),
    {
        if config_map_keys(self.configs@).contains(id) {
            let i = choose|i: int| 0 <= i < self.configs@.len() && self.configs@[i].0@ == id;
            assert(config_map_keys(self.configs@)[i] == id);
            assert(config_view_wf(self.configs@[i].1@, self.configs@[i].0@, root_id_chars()));
        }
    }

    /// What any loading step preserves of the prior state.
    pub open spec fn extends(self, pre: ProjectGraph) -> bool {
        &&& self.projects_map@ == pre.projects_map@
        &&& self.configs@ == pre.configs@
        &&& self.workspace_root@ == pre.workspace_root@
        &&& pre.projects@.is_prefix_of(self.projects@)
        &&& pre.indices@.is_prefix_of(self.indices@)
        &&& store_edge_pairs(pre.graph).is_prefix_of(store_edge_pairs(self.graph))
        &&& forall|i: int|
            store_edge_pairs(pre.graph).len() <= i < store_edge_pairs(self.graph).len() ==> (
            #[trigger] store_edge_pairs(self.graph)[i]).0 == 0 || store_edge_pairs(
                self.graph,
            )[i].0 >= pre.projects@.len()
    }

    pub proof fn lemma_extends_refl(self)
        ensures
            self.extends(self),
    {
        assert(self.projects@.is_prefix_of(self.projects@));
        assert(self.indices@.is_prefix_of(self.indices@));
        assert(store_edge_pairs(self.graph).is_prefix_of(store_edge_pairs(self.graph)));
    }

    pub proof fn lemma_extends_trans(self, mid: ProjectGraph, pre: ProjectGraph)
        requires
            self.extends(mid),
            mid.extends(pre),
        ensures
            self.extends(pre),
    {
        assert forall|i: int|
            store_edge_pairs(pre.graph).len() <= i < store_edge_pairs(self.graph).len() implies (
        #[trigger] store_edge_pairs(self.graph)[i]).0 == 0 || store_edge_pairs(self.graph)[i].0
            >= pre.projects@.len() by {
            if i < store_edge_pairs(mid.graph).len() {
                assert(store_edge_pairs(self.graph)[i] == store_edge_pairs(mid.graph)[i]);
            } else {
                assert(mid.projects@.len() >= pre.projects@.len());
            }
        }
    }

    /// Loading another project never disturbs the dependency edges of a
    /// node that already existed.
    pub proof fn lemma_extends_out_targets(self, pre: ProjectGraph, x: u32)
        requires
            self.extends(pre),
            0 < x < pre.projects@.len(),
        ensures
            out_targets(store_edge_pairs(self.graph), x) == out_targets(
                store_edge_pairs(pre.graph),
                x,
            ),
    {
        let e1 = store_edge_pairs(pre.graph);
        let e2 = store_edge_pairs(self.graph);
        let added = e2.skip(e1.len() as int);
        assert(e2 =~= e1 + added);
        crate::graph_store::lemma_out_targets_concat(e1, added, x);
        assert(out_targets(added, x) =~= Seq::<u32>::empty()) by {
            lemma_out_targets_empty_when_absent(added, x);
        }
        assert(out_targets(e2, x) =~= out_targets(e1, x));
    }

    /// Re-establishes the invariant after a node, its root edge and its
    /// index entry have been appended for a fresh project `id`.
    proof fn lemma_after_insert(self, g0: ProjectGraph, a: int, id: Seq<char>)
        requires
            g0.wf(),
            !g0.is_loaded(id),
            id != root_id_chars(),
            g0.discovery_contains(id),
            a == g0.projects@.len(),
            self.projects@.len() == a + 1,
            forall|i: int| 0 <= i < a ==> self.projects@[i] == g0.projects@[i],
            self.projects@[a]@ == g0.spec_project_for(id),
            self.projects@[a]@.id == id,
            self.indices@.len() == a,
            forall|i: int| 0 <= i < a - 1 ==> self.indices@[i] == g0.indices@[i],
            self.indices@[a - 1].0@ == id,
            self.indices@[a - 1].1 == a,
            store_node_slots(self.graph) == store_node_slots(g0.graph).push(a as u32),
            store_edge_pairs(self.graph) == store_edge_pairs(g0.graph).push((0u32, a as u32)),
            self.projects_map@ == g0.projects_map@,
            self.configs@ == g0.configs@,
            self.workspace_root@ == g0.workspace_root@,
        ensures
            self.wf(),
            self.extends(g0),
            out_targets(store_edge_pairs(self.graph), a as u32) == Seq::<u32>::empty(),
            forall|x: int|
                1 <= x < a ==> #[trigger] out_targets(store_edge_pairs(self.graph), x as u32)
                    == out_targets(store_edge_pairs(g0.graph), x as u32),
    {
        let e0 = store_edge_pairs(g0.graph);
        let e1 = store_edge_pairs(self.graph);
        let n = a + 1;

        // The new identifier is new indeed: distinct from the root's and
        // from every loaded project's.
        assert(g0.discovery_keys().contains(id));
        assert forall|i: int| 0 <= i < a implies (#[trigger] self.projects@[i])@.id != id by {
            if i >= 1 {
                assert(!g0.is_loaded(id));
                assert(1 <= i < g0.projects@.len() && g0.projects@[i]@.id != id);
            } else {
                assert(g0.projects@[0]@.id == root_id_chars());
            }
        }

        // Node count stays within bounds: the loaded identifiers plus the
        // new one are distinct keys of the discovery map.
        assert(self.projects@.len() <= self.discovery_keys().len() + 1) by {
            let ids = g0.loaded_ids().push(id);
            assert forall|i: int, j: int| 0 <= i < j < ids.len() implies ids[i] != ids[j] by {
                if j < ids.len() - 1 {
                    assert(g0.projects@[i + 1]@.id != g0.projects@[j + 1]@.id);
                } else {
                    if i < ids.len() - 1 {
                        assert(!g0.is_loaded(id));
                        assert(g0.projects@[i + 1]@.id != id);
                    }
                }
            }
            assert forall|i: int| 0 <= i < ids.len() implies g0.discovery_keys().contains(
                #[trigger] ids[i],
            ) by {
                if i < ids.len() - 1 {
                    assert(g0.discovery_contains(g0.projects@[i + 1]@.id));
                }
            }
            lemma_unique_in_keys_bound(ids, g0.discovery_keys());
        }

        // Graph slots mirror the new project list.
        assert(self.slots_wf()) by {
            assert(store_node_slots(g0.graph).len() == a);
            assert forall|k: int|
                0 <= k < store_node_slots(self.graph).len() implies store_node_slots(
                self.graph,
            )[k] == k as u32 by {
                if k < a {
                    assert(store_node_slots(g0.graph)[k] == k as u32);
                }
            }
        }

        assert(self.indices_wf()) by {
            assert forall|k: int|
                0 <= k < self.indices@.len() implies (#[trigger] self.indices@[k]).0@
                == self.projects@[k + 1]@.id && self.indices@[k].1 == k + 1 by {
                if k < a - 1 {
                    assert(g0.indices@[k].0@ == g0.projects@[k + 1]@.id);
                }
            }
        }

        // Edges: the appended root edge leaves every other adjacency alone.
        assert(e1.drop_last() =~= e0);
        assert(out_targets(e1, 0u32) =~= Seq::new((n - 1) as nat, |k: int| (k + 1) as u32)) by {
            assert(out_targets(e1, 0u32) == out_targets(e0, 0u32).push(a as u32));
        }
        assert forall|x: int|
            1 <= x < a implies #[trigger] out_targets(e1, x as u32) == out_targets(
            e0,
            x as u32,
        ) by {
            assert(e1.last().0 == 0u32);
            assert(x as u32 != 0u32);
        }
        assert(out_targets(e1, a as u32) =~= Seq::<u32>::empty()) by {
            assert forall|i: int| 0 <= i < e1.len() implies (#[trigger] e1[i]).0 != a as u32 by {
                if i < e0.len() {
                    assert(0 <= e0[i].0 < a);
                }
            }
            lemma_out_targets_empty_when_absent(e1, a as u32);
        }
        assert(self.edges_wf()) by {
            assert forall|i: int, j: int| 0 <= i < j < e1.len() implies e1[i] != e1[j] by {
                if j < e1.len() - 1 {
                    assert(e0[i] != e0[j]);
                } else if i < e1.len() - 1 {
                    assert(0 < e0[i].1 < a);
                }
            }
            assert forall|x: int| 1 <= x < n implies self.dep_edges_wf_at(x) by {
                if x < a {
                    assert(g0.dep_edges_wf_at(x));
                    assert(self.projects@[x] == g0.projects@[x]);
                    assert forall|j: int|
                        0 <= j < out_targets(e1, x as u32).len() implies 0 < #[trigger] out_targets(
                        e1,
                        x as u32,
                    )[j] < self.projects@.len() && self.projects@[out_targets(e1, x as u32)[
                    j] as int]@.id == self.projects@[x]@.depends_on[j] by {
                        assert(out_targets(e1, x as u32)[j] == out_targets(e0, x as u32)[j]);
                        assert(0 < out_targets(e0, x as u32)[j] < g0.projects@.len());
                        assert(self.projects@[out_targets(e0, x as u32)[j] as int]
                            == g0.projects@[out_targets(e0, x as u32)[j] as int]);
                    }
                } else {
                    assert(out_targets(e1, x as u32).len() == 0);
                }
            }
        }

        assert(self.loaded_wf()) by {
            assert(self.projects@[0] == g0.projects@[0]);
            assert(self.root_project_view() == g0.root_project_view());
            assert forall|i: int|
                1 <= i < self.projects@.len() implies self.discovery_contains(
                (#[trigger] self.projects@[i])@.id,
            ) && self.projects@[i]@ == self.spec_project_for(self.projects@[i]@.id) by {
                assert(self.spec_project_for(self.projects@[i]@.id) == g0.spec_project_for(
                    self.projects@[i]@.id,
                ));
                if i < a {
                    assert(g0.discovery_contains(g0.projects@[i]@.id));
                    assert(g0.projects@[i]@ == g0.spec_project_for(g0.projects@[i]@.id));
                }
            }
        }

        assert(self.extends(g0)) by {
            assert(g0.projects@.is_prefix_of(self.projects@));
            assert(g0.indices@.is_prefix_of(self.indices@));
            assert(e0.is_prefix_of(e1));
        }
    }

    /// The dependency edge about to be added is not yet present.
    proof fn lemma_before_dep_edge(self, a: int, d: int, j: int, deps_view: Seq<Seq<char>>)
        requires
            self.wf(),
            1 <= a < self.projects@.len(),
            1 <= d < self.projects@.len(),
            self.projects@[a]@.depends_on == deps_view,
            0 <= j < deps_view.len(),
            crate::project::no_dup_chars(deps_view),
            out_targets(store_edge_pairs(self.graph), a as u32).len() == j,
            self.projects@[d]@.id == deps_view[j],
        ensures
            forall|i: int|
                0 <= i < store_edge_pairs(self.graph).len() ==> #[trigger] store_edge_pairs(
                    self.graph,
                )[i] != (a as u32, d as u32),
    {
        let edges = store_edge_pairs(self.graph);
        let outs = out_targets(edges, a as u32);
        assert forall|i: int| 0 <= i < edges.len() implies #[trigger] edges[i] != (
        a as u32, d as u32) by {
            if edges[i] == (a as u32, d as u32) {
                assert(edges.contains((a as u32, d as u32)));
                crate::graph_store::lemma_out_targets_membership(edges, a as u32, d as u32);
                let k = choose|k: int| 0 <= k < outs.len() && outs[k] == d as u32;
                assert(self.dep_edges_wf_at(a));
                assert(self.projects@[d]@.id == deps_view[k]);
                assert(deps_view[k] == deps_view[j]);
                assert(k < j);
                assert(false);
            }
        }
    }

    /// Re-establishes the invariant after one dependency edge is appended.
    proof fn lemma_after_dep_edge(
        self,
        mid: ProjectGraph,
        g0: ProjectGraph,
        a: int,
        d: int,
        j: int,
        deps_view: Seq<Seq<char>>,
    )
        requires
            mid.wf(),
            mid.extends(g0),
            a == g0.projects@.len(),
            1 <= a < mid.projects@.len(),
            1 <= d < mid.projects@.len(),
            mid.projects@[a]@.depends_on == deps_view,
            0 <= j < deps_view.len(),
            out_targets(store_edge_pairs(mid.graph), a as u32).len() == j,
            mid.projects@[d]@.id == deps_view[j],
            forall|i: int|
                0 <= i < store_edge_pairs(mid.graph).len() ==> #[trigger] store_edge_pairs(
                    mid.graph,
                )[i] != (a as u32, d as u32),
            self.projects@ == mid.projects@,
            self.indices@ == mid.indices@,
            self.projects_map@ == mid.projects_map@,
            self.configs@ == mid.configs@,
            self.workspace_root@ == mid.workspace_root@,
            store_node_slots(self.graph) == store_node_slots(mid.graph),
            store_edge_pairs(self.graph) == store_edge_pairs(mid.graph).push(
                (a as u32, d as u32),
            ),
        ensures
            self.wf(),
            self.extends(g0),
            out_targets(store_edge_pairs(self.graph), a as u32) == out_targets(
                store_edge_pairs(mid.graph),
                a as u32,
            ).push(d as u32),
            forall|x: int|
                0 <= x < self.projects@.len() && x != a ==> #[trigger] out_targets(
                    store_edge_pairs(self.graph),
                    x as u32,
                ) == out_targets(store_edge_pairs(mid.graph), x as u32),
    {
        let e0 = store_edge_pairs(mid.graph);
        let e1 = store_edge_pairs(self.graph);
        let n = self.projects@.len() as int;
        assert(e1.drop_last() =~= e0);
        assert(out_targets(e1, a as u32) == out_targets(e0, a as u32).push(d as u32));
        assert forall|x: int|
            0 <= x < n && x != a implies #[trigger] out_targets(e1, x as u32) == out_targets(
            e0,
            x as u32,
        ) by {
            assert(e1.last().0 == a as u32);
            assert(x as u32 != a as u32);
        }
        assert(self.edges_wf()) by {
            assert forall|i: int, k: int| 0 <= i < k < e1.len() implies e1[i] != e1[k] by {
                if k < e1.len() - 1 {
                    assert(e0[i] != e0[k]);
                } else {
                    assert(e0[i] != (a as u32, d as u32));
                }
            }
            assert(out_targets(e1, 0u32) == out_targets(e0, 0u32));
            assert forall|x: int| 1 <= x < n implies self.dep_edges_wf_at(x) by {
                assert(mid.dep_edges_wf_at(x));
                if x == a {
                    let outs0 = out_targets(e0, a as u32);
                    let outs1 = out_targets(e1, a as u32);
                    assert forall|q: int|
                        0 <= q < outs1.len() implies 0 < #[trigger] outs1[q] < n
                            && self.projects@[outs1[q] as int]@.id == self.projects@[
                        a]@.depends_on[q] by {
                        if q < j {
                            assert(outs1[q] == outs0[q]);
                        } else {
                            assert(outs1[q] == d as u32);
                        }
                    }
                }
            }
        }
        assert(self.loaded_wf()) by {
            assert(self.root_project_view() == mid.root_project_view());
            assert forall|i: int|
                1 <= i < self.projects@.len() implies self.discovery_contains(
                (#[trigger] self.projects@[i])@.id,
            ) && self.projects@[i]@ == self.spec_project_for(self.projects@[i]@.id) by {
                assert(mid.discovery_contains(mid.projects@[i]@.id));
                assert(mid.projects@[i]@ == mid.spec_project_for(mid.projects@[i]@.id));
                assert(self.spec_project_for(self.projects@[i]@.id) == mid.spec_project_for(
                    mid.projects@[i]@.id,
                ));
            }
        }
        assert(self.extends(g0)) by {
            assert(store_edge_pairs(g0.graph).is_prefix_of(e1));
            assert forall|i: int|
                store_edge_pairs(g0.graph).len() <= i < e1.len() implies (#[trigger] e1[i]).0
                == 0 || e1[i].0 >= g0.projects@.len() by {
                if i < e0.len() {
                    assert(e0[i].0 == 0 || e0[i].0 >= g0.projects@.len());
                }
            }
            assert(g0.projects@.is_prefix_of(self.projects@));
            assert(g0.indices@.is_prefix_of(self.indices@));
        }
    }

    /// Builds the project value for `id` from the discovery map entry at
    /// `source_ix` and the stored configuration — the work the external
    /// configuration loader's results feed into.
    fn make_project(&self, id: &str, source_ix: usize) -> (p: Project)
        requires
            crate::project::no_dup_chars(source_map_keys(self.projects_map@)),
            crate::project::no_dup_chars(config_map_keys(self.configs@)),
            source_ix < self.projects_map@.len(),
            self.projects_map@[source_ix as int].0@ == id@,
        ensures
            p@ == self.spec_project_for(id@),
            p@.id == id@,
    {
        let source = self.projects_map[source_ix].1.clone();
        let mut root = String::from_str(self.workspace_root.as_str());
        root.append("/");
        root.append(source.as_str());
        proof {
            reveal_strlit("/");
            let w = choose|i: int|
                0 <= i < self.projects_map@.len() && self.projects_map@[i].0@ == id@;
            assert(source_map_keys(self.projects_map@)[source_ix as int] == id@);
            if w != source_ix as int {
                assert(source_map_keys(self.projects_map@)[w] == id@);
                if w < source_ix as int {
                    assert(source_map_keys(self.projects_map@)[w] != source_map_keys(
                        self.projects_map@,
                    )[source_ix as int]);
                } else {
                    assert(source_map_keys(self.projects_map@)[source_ix as int]
                        != source_map_keys(self.projects_map@)[w]);
                }
            }
            assert(root@ =~= joined_path(
                self.workspace_root@,
                source_map_value(self.projects_map@, id@),
            ));
        }
        match self.find_config(id) {
            Some(cix) => {
                proof {
                    let w = choose|i: int|
                        0 <= i < self.configs@.len() && self.configs@[i].0@ == id@;
                    if w != cix as int {
                        if w < cix as int {
                            assert(config_map_keys(self.configs@)[w] != config_map_keys(
                                self.configs@,
                            )[cix as int]);
                        } else {
                            assert(config_map_keys(self.configs@)[cix as int]
                                != config_map_keys(self.configs@)[w]);
                        }
                    }
                }
                Project {
                    id: String::from_str(id),
                    root,
                    source,
                    depends_on: crate::strutil::clone_strings(&self.configs[cix].1.depends_on),
                    tasks: crate::project::clone_tasks(&self.configs[cix].1.tasks),
                }
            },
            None => {
                proof {
                    assert(str_seq(Seq::<String>::empty()) =~= Seq::<Seq<char>>::empty());
                    assert(crate::project::task_views(Seq::<crate::project::Task>::empty())
                        =~= Seq::<TaskView>::empty());
                }
                Project {
                    id: String::from_str(id),
                    root,
                    source,
                    depends_on: Vec::new(),
                    tasks: Vec::new(),
                }
            },
        }
    }

    /// Lazily materializes `id` and, recursively, its declared
    /// dependencies, linking each new node under the synthetic root and to
    /// its dependencies. Idempotent: an already-loaded project is returned
    /// unchanged. Fails with `UnconfiguredID` exactly when a required
    /// project is missing from the discovery map.
    #[verifier::loop_isolation(false)]
    fn internal_load(&mut self, id: &str) -> (r: Result<usize, ProjectError>)
        requires
            old(self).wf(),
        ensures
            final(self).wf(),
            final(self).extends(*old(self)),
            old(self).is_loaded(id@) || id@ == root_id_chars() ==> *final(self) == *old(self)
                && r is Ok,
            r matches Ok(ix) ==> ix < final(self).projects@.len() && (id@ == root_id_chars()
                ==> ix == 0) && (id@ != root_id_chars() ==> 1 <= ix
                && final(self).projects@[ix as int]@.id == id@ && final(self).is_loaded(id@)),
            r matches Err(e) ==> (e matches ProjectError::UnconfiguredID(m)
                && !old(self).discovery_contains(m@)),
            !old(self).discovery_contains(id@) && id@ != root_id_chars() && !old(self).is_loaded(
                id@,
            ) ==> (r matches Err(e) && (e matches ProjectError::UnconfiguredID(m) && m@ == id@)),
            old(self).discovery_closed() && (old(self).discovery_contains(id@) || id@
                == root_id_chars() || old(self).is_loaded(id@)) ==> r is Ok,
            !old(self).discovery_contains(id@) && !old(self).is_loaded(id@) && id@
                != root_id_chars() ==> *final(self) == *old(self),
            r is Err && old(self).discovery_contains(id@) && id@ != root_id_chars() ==> final(
                self).is_loaded(id@),
            r is Ok ==> forall|x: int|
                old(self).projects@.len() <= x < final(self).projects@.len() ==> final(
                self).complete_at(x),
        decreases self.discovery_keys().len() + 1 - self.projects@.len(),
    {
        let ghost g0 = *self;
        proof {
            g0.lemma_extends_refl();
        }
        if str_eq(id, root_node_id()) {
            return Ok(0);
        }
        match self.find_index(id) {
            Some(ix) => {
                return Ok(ix);
            },
            None => {},
        }
        let source_ix = match self.find_source(id) {
            Some(s) => s,
            None => {
                return Err(ProjectError::UnconfiguredID(String::from_str(id)));
            },
        };
        let project = self.make_project(id, source_ix);
        let deps = project.get_dependencies();
        let ghost deps_view = str_seq(deps@);
        proof {
            g0.lemma_config_wf_for(id@);
            assert(deps_view == config_map_value(g0.configs@, id@).depends_on);
        }

        // Insert the node, the root edge, and the index entry.
        let node_ix = store_add_node(&mut self.graph, self.projects.len() as u32);
        proof {
            lemma_edge_count_bound(
                store_edge_pairs(self.graph),
                g0.projects@.len() as int,
            );
            assert(g0.projects@.len() * g0.projects@.len() < 0xFFFF_FFFF) by (nonlinear_arith)
                requires
                    1 <= g0.projects@.len() <= 0xFFFF,
            ;
        }
        store_add_edge(&mut self.graph, 0, node_ix);
        self.projects.push(project);
        self.indices.push((String::from_str(id), node_ix));
        let ghost a = node_ix as int;
        proof {
            self.lemma_after_insert(g0, a, id@);
            assert forall|x: int|
                1 <= x < self.projects@.len() && x != a && (x >= g0.projects@.len() + 1
                    || g0.complete_at(x)) implies self.complete_at(x) by {
                assert(out_targets(store_edge_pairs(self.graph), x as u32) == out_targets(
                    store_edge_pairs(g0.graph),
                    x as u32,
                ));
            }
        }

        let mut j: usize = 0;
        while j < deps.len()
            invariant
                self.wf(),
                self.extends(g0),
                g0.wf(),
                deps@.len() == deps_view.len(),
                str_seq(deps@) == deps_view,
                a == g0.projects@.len(),
                1 <= a < self.projects@.len(),
                self.projects@[a]@.id == id@,
                self.projects@[a]@.depends_on == deps_view,
                crate::project::no_dup_chars(deps_view),
                forall|q: int|
                    0 <= q < deps_view.len() ==> #[trigger] deps_view[q] != root_id_chars(),
                forall|q: int|
                    0 <= q < deps_view.len() ==> config_map_value(
                        g0.configs@,
                        id@,
                    ).depends_on[q] == #[trigger] deps_view[q],
                j <= deps_view.len(),
                out_targets(store_edge_pairs(self.graph), a as u32).len() == j,
                self.discovery_keys() == g0.discovery_keys(),
                self.configs@ == g0.configs@,
                self.discovery_closed() == g0.discovery_closed(),
                !g0.is_loaded(id@),
                id@ != root_id_chars(),
                g0.discovery_contains(id@),
                forall|x: int|
                    1 <= x < self.projects@.len() && x != a && (x >= g0.projects@.len() + 1
                        || g0.complete_at(x)) ==> #[trigger] self.complete_at(x),
            decreases deps_view.len() - j,
        {
            let ghost pre = *self;
            proof {
                assert(self.discovery_keys() == g0.discovery_keys());
                assert(self.projects@.len() >= g0.projects@.len() + 1);
                assert(self.discovery_keys().len() + 1 - self.projects@.len()
                    < g0.discovery_keys().len() + 1 - g0.projects@.len());
            }
            let dep_ix = match self.internal_load(deps[j].as_str()) {
                Ok(ix) => ix,
                Err(e) => {
                    proof {
                        self.lemma_extends_trans(pre, g0);
                        assert(self.projects@[a]@.id == id@);
                        assert(self.is_loaded(id@));
                        if g0.discovery_closed() && (g0.discovery_contains(id@) || id@
                            == root_id_chars() || g0.is_loaded(id@)) {
                            assert(config_map_value(g0.configs@, id@).depends_on[j as int]
                                == deps_view[j as int]);
                            assert(pre.discovery_contains(deps_view[j as int]));
                            assert(false);
                        }
                    }
                    return Err(e);
                },
            };
            proof {
                self.lemma_extends_trans(pre, g0);
                self.lemma_extends_out_targets(pre, a as u32);
                assert(self.projects@[dep_ix as int]@.id == deps_view[j as int]);
                self.lemma_before_dep_edge(a, dep_ix as int, j as int, deps_view);
                lemma_edge_count_bound(
                    store_edge_pairs(self.graph),
                    self.projects@.len() as int,
                );
                assert(self.projects@.len() * self.projects@.len() < 0xFFFF_FFFF)
                    by (nonlinear_arith)
                    requires
                        1 <= self.projects@.len() <= 0xFFFF,
                ;
            }
            let ghost mid = *self;
            store_add_edge(&mut self.graph, node_ix, dep_ix);
            proof {
                self.lemma_after_dep_edge(mid, g0, a, dep_ix as int, j as int, deps_view);
                assert(out_targets(store_edge_pairs(mid.graph), a as u32) == out_targets(
                    store_edge_pairs(pre.graph),
                    a as u32,
                ));
                assert forall|x: int|
                    1 <= x < self.projects@.len() && x != a && (x >= g0.projects@.len() + 1
                        || g0.complete_at(x)) implies #[trigger] self.complete_at(x) by {
                    if x < pre.projects@.len() {
                        assert(pre.complete_at(x));
                        mid.lemma_extends_out_targets(pre, x as u32);
                        assert(out_targets(store_edge_pairs(self.graph), x as u32)
                            == out_targets(store_edge_pairs(mid.graph), x as u32));
                    } else {
                        assert(mid.complete_at(x));
                        assert(out_targets(store_edge_pairs(self.graph), x as u32)
                            == out_targets(store_edge_pairs(mid.graph), x as u32));
                    }
                }
            }
            j = j + 1;
        }
        proof {
            assert(self.complete_at(a));
            assert forall|x: int|
                g0.projects@.len() <= x < self.projects@.len() implies self.complete_at(x) by {
                if x != a {
                    assert(x >= g0.projects@.len() + 1);
                }
            }
            assert(self.projects@[a]@.id == id@);
            assert(self.is_loaded(id@));
        }
        Ok(node_ix)
    }

    /// Returns a snapshot of the project `id`, loading it and its
    /// dependencies into the graph first if need be. An already-loaded
    /// project is returned without mutating the graph. Fails with
    /// `UnconfiguredID` exactly when a required project is missing from the
    /// discovery map.
    pub fn load(&mut self, id: &str) -> (r: Result<Project, ProjectError>)
        requires
            old(self).wf(),
            id@ != root_id_chars(),
        ensures
            final(self).wf(),
            final(self).extends(*old(self)),
            old(self).is_loaded(id@) ==> *final(self) == *old(self) && r is Ok,
            r matches Ok(p) ==> final(self).is_loaded(id@) && p@ == final(self).loaded_project(
                id@,
            ) && p@ == final(self).spec_project_for(id@) && p@.id == id@,
            r matches Err(e) ==> (e matches ProjectError::UnconfiguredID(m) && !old(
                self,
            ).discovery_contains(m@)),
            !old(self).discovery_contains(id@) && !old(self).is_loaded(id@) ==> (r matches Err(e)
                && (e matches ProjectError::UnconfiguredID(m) && m@ == id@)),
            old(self).discovery_closed() && (old(self).discovery_contains(id@) || old(
                self,
            ).is_loaded(id@)) ==> r is Ok,
            old(self).fully_loaded() && r is Ok ==> final(self).fully_loaded(),
            !old(self).discovery_contains(id@) && !old(self).is_loaded(id@) ==> *final(self)
                == *old(self),
            r is Err && old(self).discovery_contains(id@) ==> final(self).is_loaded(id@),
    {
        let ghost g0 = *self;
        // Read path: an already-loaded project is cloned out directly.
        match self.find_index(id) {
            Some(ix) => {
                let p = self.projects[ix].clone();
                proof {
                    self.lemma_loaded_index_unique(id@, ix as int);
                }
                return Ok(p);
            },
            None => {},
        }
        let ix = match self.internal_load(id) {
            Ok(ix) => ix,
            Err(e) => {
                return Err(e);
            },
        };
        let p = self.projects[ix].clone();
        proof {
            self.lemma_loaded_index_unique(id@, ix as int);
            if g0.fully_loaded() {
                assert forall|x: int|
                    1 <= x < self.projects@.len() implies #[trigger] self.complete_at(x) by {
                    if x < g0.projects@.len() {
                        assert(g0.complete_at(x));
                        self.lemma_extends_out_targets(g0, x as u32);
                        assert(self.projects@[x] == g0.projects@[x]);
                    }
                }
            }
        }
        Ok(p)
    }

    /// A loaded identifier names exactly one node.
    proof fn lemma_loaded_index_unique(self, id: Seq<char>, ix: int)
        requires
            self.wf(),
            1 <= ix < self.projects@.len(),
            self.projects@[ix]@.id == id,
        ensures
            self.is_loaded(id),
            self.loaded_index(id) == ix,
            self.loaded_project(id) == self.projects@[ix]@,
            self.loaded_project(id) == self.spec_project_for(id),
    {
        assert(self.is_loaded(id));
        let w = self.loaded_index(id);
        if w != ix {
            if w < ix {
                assert(self.projects@[w]@.id != self.projects@[ix]@.id);
            } else {
                assert(self.projects@[ix]@.id != self.projects@[w]@.id);
            }
        }
    }

    /// Forces every known project through `load`. Needed before project
    /// dependents can be queried, since dependents are only discoverable
    /// among loaded nodes.
    #[verifier::loop_isolation(false)]
    pub fn load_all(&mut self) -> (r: Result<(), ProjectError>)
        requires
            old(self).wf(),
        ensures
            final(self).wf(),
            final(self).extends(*old(self)),
            r is Ok ==> forall|k: int|
                0 <= k < final(self).discovery_keys().len() ==> final(self).is_loaded(
                    #[trigger] final(self).discovery_keys()[k],
                ),
            r matches Err(e) ==> (e matches ProjectError::UnconfiguredID(m) && !old(
                self,
            ).discovery_contains(m@)),
            old(self).discovery_closed() ==> r is Ok,
            old(self).fully_loaded() && r is Ok ==> final(self).fully_loaded(),
            (forall|k: int|
                0 <= k < old(self).discovery_keys().len() ==> old(self).is_loaded(
                    #[trigger] old(self).discovery_keys()[k],
                )) ==> *final(self) == *old(self) && r is Ok,
    {
        let ghost g0 = *self;
        let ids = self.ids();
        let ghost ids_view = str_seq(ids@);
        proof {
            broadcast use vstd::seq_lib::group_to_multiset_ensures;

        }
        let mut i: usize = 0;
        while i < ids.len()
            invariant
                self.wf(),
                self.extends(g0),
                g0.wf(),
                i <= ids@.len(),
                str_seq(ids@) == ids_view,
                ids_view.to_multiset() == g0.discovery_keys().to_multiset(),
                self.discovery_keys() == g0.discovery_keys(),
                self.discovery_closed() == g0.discovery_closed(),
                forall|k: int| 0 <= k < i ==> self.is_loaded(#[trigger] ids_view[k]),
                g0.fully_loaded() ==> self.fully_loaded(),
                (forall|k: int|
                    0 <= k < g0.discovery_keys().len() ==> g0.is_loaded(
                        #[trigger] g0.discovery_keys()[k],
                    )) ==> *self == g0,
            decreases ids@.len() - i,
        {
            let ghost pre = *self;
            proof {
                broadcast use vstd::seq_lib::group_to_multiset_ensures;

                assert(ids_view.contains(ids_view[i as int]));
                assert(g0.discovery_keys().to_multiset().count(ids_view[i as int]) > 0);
                assert(self.discovery_contains(ids_view[i as int]));
            }
            match self.internal_load(ids[i].as_str()) {
                Ok(_) => {},
                Err(e) => {
                    proof {
                        self.lemma_extends_trans(pre, g0);
                        if g0.discovery_closed() {
                            assert(false);
                        }
                    }
                    return Err(e);
                },
            }
            proof {
                self.lemma_extends_trans(pre, g0);
                assert forall|k: int| 0 <= k < i + 1 implies self.is_loaded(
                    #[trigger] ids_view[k],
                ) by {
                    if k < i {
                        assert(pre.is_loaded(ids_view[k]));
                        let w = choose|w: int|
                            1 <= w < pre.projects@.len() && pre.projects@[w]@.id == ids_view[k];
                        assert(self.projects@[w] == pre.projects@[w]);
                    } else {
                        if ids_view[k] == root_id_chars() {
                            assert(g0.discovery_contains(ids_view[k]));
                            assert(false);
                        }
                    }
                }
                if g0.fully_loaded() {
                    assert(pre.fully_loaded());
                    assert forall|x: int|
                        1 <= x < self.projects@.len() implies #[trigger] self.complete_at(x) by {
                        if x < pre.projects@.len() {
                            assert(pre.complete_at(x));
                            self.lemma_extends_out_targets(pre, x as u32);
                            assert(self.projects@[x] == pre.projects@[x]);
                        }
                    }
                }
            }
            i = i + 1;
        }
        proof {
            broadcast use vstd::seq_lib::group_to_multiset_ensures;

            assert forall|k: int| 0 <= k < self.discovery_keys().len() implies self.is_loaded(
                #[trigger] self.discovery_keys()[k],
            ) by {
                let key = self.discovery_keys()[k];
                assert(self.discovery_keys().contains(key));
                assert(self.discovery_keys().to_multiset().count(key) > 0);
                assert(ids_view.to_multiset().count(key) > 0);
                assert(ids_view.contains(key));
                let q = choose|q: int| 0 <= q < ids_view.len() && ids_view[q] == key;
                assert(self.is_loaded(ids_view[q]));
            }
        }
        Ok(())
    }

    /// The direct dependencies of a loaded project: the IDs its graph node
    /// points at, which mirror its declared dependency list (the adjacency
    /// iterator yields them newest edge first).
    #[verifier::loop_isolation(false)]
    pub fn get_dependencies_of(&self, project: &Project) -> (r: Result<
        Vec<String>,
        ProjectError,
    >)
        requires
            self.wf(),
            self.fully_loaded(),
            self.is_loaded(project@.id),
        ensures
            r is Ok,
            r matches Ok(v) ==> str_seq(v@) == self.loaded_project(project@.id).depends_on
                .reverse(),
    {
        let ix = match self.find_index(project.id.as_str()) {
            Some(ix) => ix,
            None => {
                proof {
                    assert(false);
                }
                return Err(ProjectError::UnconfiguredID(String::new()));
            },
        };
        let neighbors = store_neighbors_out(&self.graph, ix);
        let ghost outs = out_targets(store_edge_pairs(self.graph), ix as u32);
        proof {
            assert(self.dep_edges_wf_at(ix as int));
            assert(self.complete_at(ix as int));
        }
        let mut names: Vec<String> = Vec::new();
        let mut k: usize = 0;
        while k < neighbors.len()
            invariant
                self.wf(),
                1 <= ix < self.projects@.len(),
                outs == out_targets(store_edge_pairs(self.graph), ix as u32),
                self.dep_edges_wf_at(ix as int),
                neighbors@ == outs.reverse().map_values(|t: u32| t as usize),
                k <= neighbors@.len(),
                names@.len() == k,
                forall|q: int|
                    0 <= q < k ==> str_seq(names@)[q]
                        == self.projects@[neighbors@[q] as int]@.id,
            decreases neighbors@.len() - k,
        {
            proof {
                assert(neighbors@[k as int] == outs.reverse()[k as int] as usize);
                assert(outs.reverse()[k as int] == outs[outs.len() - 1 - k as int]);
            }
            let ghost prevn = names@;
            names.push(self.projects[neighbors[k]].id.clone());
            proof {
                assert forall|q: int| 0 <= q < k + 1 implies str_seq(names@)[q]
                    == self.projects@[neighbors@[q] as int]@.id by {
                    if q < k {
                        assert(names@[q] == prevn[q]);
                        assert(str_seq(prevn)[q] == self.projects@[neighbors@[q] as int]@.id);
                    } else {
                        assert(names@[q]@ == self.projects@[neighbors@[q] as int]@.id);
                    }
                }
            }
            k = k + 1;
        }
        proof {
            let deps = self.loaded_project(project@.id).depends_on;
            self.lemma_loaded_index_unique(project@.id, self.loaded_index(project@.id));
            assert(self.projects@[ix as int]@.depends_on == deps);
            assert(outs.len() == deps.len());
            assert forall|q: int| 0 <= q < names@.len() implies str_seq(names@)[q]
                == deps.reverse()[q] by {
                assert(neighbors@[q] == outs.reverse()[q] as usize);
                assert(outs.reverse()[q] == outs[outs.len() - 1 - q]);
                assert(self.projects@[outs[outs.len() - 1 - q] as int]@.id == deps[outs.len() - 1
                    - q]);
            }
            assert(str_seq(names@) =~= deps.reverse());
        }
        Ok(names)
    }

    /// The IDs of the loaded projects that directly depend on `project`,
    /// the synthetic root excluded. Each dependent is listed once.
    #[verifier::loop_isolation(false)]
    pub fn get_dependents_of(&self, project: &Project) -> (r: Result<Vec<String>, ProjectError>)
        requires
            self.wf(),
            self.fully_loaded(),
            self.is_loaded(project@.id),
        ensures
            r is Ok,
            r matches Ok(v) ==> crate::project::no_dup_chars(str_seq(v@)) && forall|x: Seq<char>|
                #[trigger] str_seq(v@).contains(x) <==> (exists|i: int|
                    1 <= i < self.projects@.len() && (#[trigger] self.projects@[i])@.id == x
                        && self.projects@[i]@.depends_on.contains(project@.id)),
    {
        let ix = match self.find_index(project.id.as_str()) {
            Some(ix) => ix,
            None => {
                proof {
                    assert(false);
                }
                return Err(ProjectError::UnconfiguredID(String::new()));
            },
        };
        let neighbors = store_neighbors_in(&self.graph, ix);
        let ghost edges = store_edge_pairs(self.graph);
        let ghost ins = in_sources(edges, ix as u32);
        proof {
            crate::graph_store::lemma_in_sources_no_dup(edges, ix as u32);
        }
        let mut names: Vec<String> = Vec::new();
        let ghost mut srcs: Seq<u32> = Seq::empty();
        let mut k: usize = 0;
        while k < neighbors.len()
            invariant
                self.wf(),
                self.fully_loaded(),
                1 <= ix < self.projects@.len(),
                self.projects@[ix as int]@.id == project@.id,
                edges == store_edge_pairs(self.graph),
                ins == in_sources(edges, ix as u32),
                forall|i: int, j: int| 0 <= i < j < ins.len() ==> ins[i] != ins[j],
                neighbors@ == ins.reverse().map_values(|s: u32| s as usize),
                k <= neighbors@.len(),
                names@.len() == srcs.len(),
                forall|q: int|
                    0 <= q < srcs.len() ==> 0 < #[trigger] srcs[q] < self.projects@.len(),
                forall|q: int|
                    0 <= q < srcs.len() ==> str_seq(names@)[q] == self.projects@[
                        #[trigger] srcs[q] as int]@.id,
                forall|q: int|
                    0 <= q < srcs.len() ==> ins.reverse().take(k as int).contains(
                        #[trigger] srcs[q],
                    ),
                forall|q1: int, q2: int| 0 <= q1 < q2 < srcs.len() ==> srcs[q1] != srcs[q2],
                forall|sx: int|
                    1 <= sx < self.projects@.len() && (#[trigger] self.projects@[sx])@.depends_on
                        .contains(project@.id) && ins.reverse().take(k as int).contains(sx as u32)
                        ==> srcs.contains(sx as u32),
            decreases neighbors@.len() - k,
        {
            let s = neighbors[k];
            let ghost su = ins.reverse()[k as int];
            proof {
                assert(neighbors@[k as int] == su as usize);
                assert(ins.contains(su));
                crate::graph_store::lemma_in_sources_membership(edges, ix as u32, su);
                assert(edges.contains((su, ix as u32)));
                let ei = choose|ei: int| 0 <= ei < edges.len() && edges[ei] == (su, ix as u32);
                assert(0 <= edges[ei].0 < self.projects@.len());
            }
            if s != 0 {
                let ghost prevn = names@;
                let ghost prevs = srcs;
                names.push(self.projects[s].id.clone());
                proof {
                    srcs = srcs.push(su);
                    // The new source is none of the earlier ones: positions
                    // in the adjacency list are distinct sources.
                    assert forall|q1: int, q2: int|
                        0 <= q1 < q2 < srcs.len() implies srcs[q1] != srcs[q2] by {
                        if q2 == srcs.len() - 1 {
                            if prevs[q1] == su {
                                assert(ins.reverse().take(k as int).contains(prevs[q1]));
                                let w = choose|w: int|
                                    0 <= w < k && ins.reverse().take(k as int)[w] == prevs[q1];
                                assert(ins.reverse()[w] == su);
                                assert(ins[ins.len() - 1 - w] == ins[ins.len() - 1 - k as int]);
                                assert(false);
                            }
                        } else {
                            assert(prevs[q1] != prevs[q2]);
                        }
                    }
                    assert forall|q: int|
                        0 <= q < srcs.len() implies str_seq(names@)[q] == self.projects@[
                        #[trigger] srcs[q] as int]@.id by {
                        if q < prevs.len() {
                            assert(names@[q] == prevn[q]);
                            assert(str_seq(prevn)[q] == self.projects@[prevs[q] as int]@.id);
                        } else {
                            assert(names@[q]@ == self.projects@[su as int]@.id);
                        }
                    }
                    assert forall|q: int|
                        0 <= q < srcs.len() implies ins.reverse().take(k as int + 1).contains(
                        #[trigger] srcs[q],
                    ) by {
                        if q < prevs.len() {
                            assert(ins.reverse().take(k as int).contains(prevs[q]));
                            let w = choose|w: int|
                                0 <= w < k && ins.reverse().take(k as int)[w] == prevs[q];
                            assert(ins.reverse().take(k as int + 1)[w] == prevs[q]);
                        } else {
                            assert(ins.reverse().take(k as int + 1)[k as int] == su);
                        }
                    }
                    assert forall|sx: int|
                        1 <= sx < self.projects@.len() && (#[trigger] self.projects@[sx])@
                            .depends_on.contains(project@.id) && ins.reverse().take(
                            k as int + 1,
                        ).contains(sx as u32) implies srcs.contains(sx as u32) by {
                        if ins.reverse().take(k as int).contains(sx as u32) {
                            assert(prevs.contains(sx as u32));
                            let q = choose|q: int|
                                0 <= q < prevs.len() && prevs[q] == sx as u32;
                            assert(srcs[q] == sx as u32);
                        } else {
                            let t = ins.reverse().take(k as int + 1);
                            let wq = choose|wq: int| 0 <= wq < t.len() && t[wq] == sx as u32;
                            assert(wq == k as int);
                            assert(sx as u32 == su);
                            assert(srcs[srcs.len() - 1] == sx as u32);
                        }
                    }
                }
            } else {
                proof {
                    assert forall|sx: int|
                        1 <= sx < self.projects@.len() && (#[trigger] self.projects@[sx])@
                            .depends_on.contains(project@.id) && ins.reverse().take(
                            k as int + 1,
                        ).contains(sx as u32) implies srcs.contains(sx as u32) by {
                        if ins.reverse().take(k as int).contains(sx as u32) {
                        } else {
                            let t = ins.reverse().take(k as int + 1);
                            let wq = choose|wq: int| 0 <= wq < t.len() && t[wq] == sx as u32;
                            assert(wq == k as int);
                            assert(sx as u32 == 0u32);
                            assert(false);
                        }
                    }
                }
            }
            k = k + 1;
        }
        proof {
            // No name repeats: distinct node indices carry distinct IDs.
            assert forall|q1: int, q2: int|
                0 <= q1 < q2 < names@.len() implies str_seq(names@)[q1] != str_seq(names@)[q2] by {
                self.lemma_loaded_index_unique(
                    self.projects@[srcs[q1] as int]@.id,
                    srcs[q1] as int,
                );
                self.lemma_loaded_index_unique(
                    self.projects@[srcs[q2] as int]@.id,
                    srcs[q2] as int,
                );
                if str_seq(names@)[q1] == str_seq(names@)[q2] {
                    assert(self.projects@[srcs[q1] as int]@.id
                        == self.projects@[srcs[q2] as int]@.id);
                    assert(self.loaded_index(self.projects@[srcs[q1] as int]@.id)
                        == srcs[q1] as int);
                    assert(self.loaded_index(self.projects@[srcs[q1] as int]@.id)
                        == srcs[q2] as int);
                    assert(false);
                }
            }
            // Every listed name names a project that declares the
            // dependency, and the other way round.
            assert forall|x: Seq<char>| #[trigger] str_seq(names@).contains(x) implies (
            exists|i: int|
                1 <= i < self.projects@.len() && (#[trigger] self.projects@[i])@.id == x
                    && self.projects@[i]@.depends_on.contains(project@.id)) by {
                let q = choose|q: int| 0 <= q < names@.len() && str_seq(names@)[q] == x;
                let i = srcs[q] as int;
                assert(ins.reverse().take(k as int).contains(srcs[q]));
                assert(ins.contains(srcs[q])) by {
                    let w = choose|w: int|
                        0 <= w < k && ins.reverse().take(k as int)[w] == srcs[q];
                    assert(ins.reverse()[w] == srcs[q]);
                    assert(ins[ins.len() - 1 - w] == srcs[q]);
                }
                crate::graph_store::lemma_in_sources_membership(edges, ix as u32, srcs[q]);
                assert(edges.contains((srcs[q], ix as u32)));
                crate::graph_store::lemma_out_targets_membership(edges, srcs[q], ix as u32);
                assert(out_targets(edges, srcs[q]).contains(ix as u32));
                assert(self.dep_edges_wf_at(i));
                let oq = choose|oq: int|
                    0 <= oq < out_targets(edges, srcs[q]).len() && out_targets(edges, srcs[q])[oq]
                        == ix as u32;
                assert(self.projects@[i]@.depends_on[oq] == self.projects@[ix as int]@.id);
                assert(self.projects@[i]@.depends_on.contains(project@.id));
                assert(self.projects@[i]@.id == x);
            }
            assert forall|x: Seq<char>|
                (exists|i: int|
                    1 <= i < self.projects@.len() && (#[trigger] self.projects@[i])@.id == x
                        && self.projects@[i]@.depends_on.contains(project@.id)) implies #[trigger]
            str_seq(names@).contains(x) by {
                let i = choose|i: int|
                    1 <= i < self.projects@.len() && self.projects@[i]@.id == x
                        && self.projects@[i]@.depends_on.contains(project@.id);
                assert(self.complete_at(i));
                assert(self.dep_edges_wf_at(i));
                let deps = self.projects@[i]@.depends_on;
                let q = choose|q: int| 0 <= q < deps.len() && deps[q] == project@.id;
                let outs = out_targets(edges, i as u32);
                assert(outs.len() == deps.len());
                assert(self.projects@[outs[q] as int]@.id == deps[q]);
                self.lemma_loaded_index_unique(project@.id, ix as int);
                self.lemma_loaded_index_unique(project@.id, outs[q] as int);
                assert(outs[q] == ix as u32);
                crate::graph_store::lemma_out_targets_membership(edges, i as u32, ix as u32);
                assert(outs.contains(ix as u32));
                assert(edges.contains((i as u32, ix as u32)));
                crate::graph_store::lemma_in_sources_membership(edges, ix as u32, i as u32);
                assert(ins.contains(i as u32));
                let w = choose|w: int| 0 <= w < ins.len() && ins[w] == i as u32;
                assert(ins.reverse()[ins.len() - 1 - w] == i as u32);
                assert(ins.reverse().take(k as int) =~= ins.reverse());
                assert(ins.reverse().take(k as int).contains(i as u32));
                assert(srcs.contains(i as u32));
                let sq = choose|sq: int| 0 <= sq < srcs.len() && srcs[sq] == i as u32;
                assert(str_seq(names@)[sq] == self.projects@[i]@.id);
            }
        }
        Ok(names)
    }
}

/// A list with no edge from `x` contributes no targets for `x`.
proof fn lemma_out_targets_empty_when_absent(s: Seq<(u32, u32)>, x: u32)
    requires
        forall|i: int| 0 <= i < s.len() ==> (#[trigger] s[i]).0 != x,
    ensures
        out_targets(s, x) == Seq::<u32>::empty(),
    decreases s.len(),
{
    if s.len() > 0 {
        assert(s.last().0 != x);
        assert forall|i: int| 0 <= i < s.drop_last().len() implies (#[trigger] s.drop_last()[
        i]).0 != x by {
            assert(s[i].0 != x);
        }
        lemma_out_targets_empty_when_absent(s.drop_last(), x);
    }
}

/// Distinct identifiers all drawn from a duplicate-free key list are no
/// more numerous than the keys.
proof fn lemma_unique_in_keys_bound(ids: Seq<Seq<char>>, keys: Seq<Seq<char>>)
    requires
        crate::project::no_dup_chars(ids),
        crate::project::no_dup_chars(keys),
        forall|i: int| 0 <= i < ids.len() ==> keys.contains(#[trigger] ids[i]),
    ensures
        ids.len() <= keys.len(),
{
    broadcast use vstd::seq_lib::seq_to_set_is_finite;

    assert(ids.no_duplicates()) by {
        assert forall|i: int, j: int|
            0 <= i < ids.len() && 0 <= j < ids.len() && i != j implies ids[i] != ids[j] by {
            if i < j {
                assert(ids[i] != ids[j]);
            } else {
                assert(ids[j] != ids[i]);
            }
        }
    }
    assert(keys.no_duplicates()) by {
        assert forall|i: int, j: int|
            0 <= i < keys.len() && 0 <= j < keys.len() && i != j implies keys[i] != keys[j] by {
            if i < j {
                assert(keys[i] != keys[j]);
            } else {
                assert(keys[j] != keys[i]);
            }
        }
    }
    ids.unique_seq_to_set();
    keys.unique_seq_to_set();
    assert(ids.to_set().subset_of(keys.to_set()));
    vstd::set_lib::lemma_len_subset(ids.to_set(), keys.to_set());
}

/// A duplicate-free edge list over `n` nodes holds at most `n * n` edges.
pub(crate) proof fn lemma_edge_count_bound(edges: Seq<(u32, u32)>, n: int)
    requires
        0 <= n,
        forall|i: int|
            0 <= i < edges.len() ==> 0 <= (#[trigger] edges[i]).0 < n && 0 <= edges[i].1 < n,
        forall|i: int, j: int| 0 <= i < j < edges.len() ==> edges[i] != edges[j],
    ensures
        edges.len() <= n * n,
{
    broadcast use vstd::seq_lib::seq_to_set_is_finite;

    let enc = |e: (u32, u32)| (e.0 as int) * n + (e.1 as int);
    let ints = edges.map_values(enc);
    assert(ints.no_duplicates()) by {
        assert forall|i: int, j: int|
            0 <= i < ints.len() && 0 <= j < ints.len() && i != j implies ints[i] != ints[j] by {
            let a = edges[i];
            let b = edges[j];
            if a != b {
                assert((a.0 as int) * n + (a.1 as int) != (b.0 as int) * n + (b.1 as int))
                    by (nonlinear_arith)
                    requires
                        0 <= a.0 < n,
                        0 <= a.1 < n,
                        0 <= b.0 < n,
                        0 <= b.1 < n,
                        a.0 != b.0 || a.1 != b.1,
                ;
            } else {
                if i < j {
                    assert(edges[i] != edges[j]);
                } else {
                    assert(edges[j] != edges[i]);
                }
            }
        }
    }
    ints.unique_seq_to_set();
    assert(ints.to_set().subset_of(vstd::set_lib::set_int_range(0, n * n))) by {
        assert forall|v: int| ints.to_set().contains(v) implies vstd::set_lib::set_int_range(
            0,
            n * n,
        ).contains(v) by {
            let i = choose|i: int| 0 <= i < ints.len() && ints[i] == v;
            let e = edges[i];
            assert(0 <= (e.0 as int) * n + (e.1 as int) < n * n) by (nonlinear_arith)
                requires
                    0 <= e.0 < n,
                    0 <= e.1 < n,
            ;
        }
    }
    vstd::set_lib::lemma_int_range(0, n * n);
    vstd::set_lib::lemma_len_subset(
        ints.to_set(),
        vstd::set_lib::set_int_range(0, n * n),
    );
}

/// Where the discovery map should come from when a run starts.
#[derive(Clone, Copy, PartialEq, Eq, Structural, Debug)]
pub enum DiscoverySource {
    /// The configured map is explicit: use it as is.
    UseConfigured,
    /// The map is glob-derived and a prior result is cached: use the cache.
    UseCached,
    /// The map is glob-derived and nothing is cached: walk the filesystem
    /// and persist the result.
    GlobThenSave,
}

/// The key whose presence marks a discovery map as glob-derived.
pub fn glob_flag_key() -> (r: &'static str)
    ensures
        r@ == "globs"@,
{
    "globs"
}

/// The discovery-cache decision; the cache I/O and the glob walk
/// themselves are outside work and stay with the caller.
pub fn resolve_discovery(
    projects: &Vec<(String, String)>,
    glob_flag: &str,
    cached: &Vec<(String, String)>,
) -> (r: DiscoverySource)
    ensures
        !source_map_keys(projects@).contains(glob_flag@) ==> r == DiscoverySource::UseConfigured,
        source_map_keys(projects@).contains(glob_flag@) && cached@.len() > 0 ==> r
            == DiscoverySource::UseCached,
        source_map_keys(projects@).contains(glob_flag@) && cached@.len() == 0 ==> r
            == DiscoverySource::GlobThenSave,
{
    let mut k: usize = 0;
    let mut found = false;
    while k < projects.len() && !found
        invariant
            k <= projects@.len(),
            found ==> source_map_keys(projects@).contains(glob_flag@),
            !found ==> forall|j: int| 0 <= j < k ==> source_map_keys(projects@)[j] != glob_flag@,
        decreases projects@.len() - k, (if found { 0int } else { 1int }),
    {
        if str_eq(projects[k].0.as_str(), glob_flag) {
            assert(source_map_keys(projects@)[k as int] == glob_flag@);
            found = true;
        } else {
            k = k + 1;
        }
    }
    if !found {
        proof {
            assert(!source_map_keys(projects@).contains(glob_flag@));
        }
        return DiscoverySource::UseConfigured;
    }
    if cached.len() > 0 {
        DiscoverySource::UseCached
    } else {
        DiscoverySource::GlobThenSave
    }
}

/// The source paths of the discovery entries other than the glob flag, in
/// map order: the patterns a glob-derived map is walked with.
pub open spec fn non_flag_values(m: Seq<(String, String)>, flag: Seq<char>) -> Seq<Seq<char>>
    decreases m.len(),
{
    if m.len() == 0 {
        Seq::empty()
    } else if m.last().0@ == flag {
        non_flag_values(m.drop_last(), flag)
    } else {
        non_flag_values(m.drop_last(), flag).push(m.last().1@)
    }
}

/// Extracts the glob patterns from a glob-derived discovery map: exactly
/// the values of the entries whose key is not the flag, in order.
pub fn glob_patterns_of(projects: &Vec<(String, String)>, glob_flag: &str) -> (r: Vec<String>)
    ensures
        crate::strutil::str_seq(r@) == non_flag_values(projects@, glob_flag@),
{
    let mut out: Vec<String> = Vec::new();
    proof {
        assert(projects@.take(0int) =~= Seq::<(String, String)>::empty());
        assert(crate::strutil::str_seq(out@) =~= non_flag_values(
            projects@.take(0int),
            glob_flag@,
        ));
    }
    let mut i: usize = 0;
    while i < projects.len()
        invariant
            i <= projects@.len(),
            crate::strutil::str_seq(out@) == non_flag_values(projects@.take(i as int), glob_flag@),
        decreases projects@.len() - i,
    {
        let ghost prev = out@;
        if !str_eq(projects[i].0.as_str(), glob_flag) {
            out.push(projects[i].1.clone());
        }
        proof {
            assert(projects@.take(i as int + 1).drop_last() =~= projects@.take(i as int));
            assert(projects@.take(i as int + 1).last() == projects@[i as int]);
            if projects@[i as int].0@ == glob_flag@ {
                assert(out@ == prev);
            } else {
                assert(crate::strutil::str_seq(out@) =~= crate::strutil::str_seq(prev).push(
                    projects@[i as int].1@,
                ));
            }
        }
        i = i + 1;
    }
    proof {
        assert(projects@.take(projects@.len() as int) =~= projects@);
    }
    out
}

} // verus!
