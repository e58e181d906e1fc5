use moon_core::action::{sync_outcome, ActionStatus};
use moon_core::ci::{distribute_targets_across_jobs, gather_runnable_targets, generate_dep_graph, run_had_failures, CiOptions};
use moon_core::dep_graph::DepGraph;
use moon_core::errors::ProjectError;
use moon_core::lang::SupportedLanguage;
use moon_core::project::{ProjectConfig, Task};
use moon_core::project_graph::{glob_flag_key, glob_patterns_of, resolve_discovery, root_node_id, DiscoverySource, ProjectGraph};
use moon_core::runner::run_actions;
use moon_core::strutil::sort_strings;
use moon_core::target::Target;

fn task(id: &str, run_in_ci: bool, inputs: &[&str], deps: &[&str]) -> Task {
    Task {
        id: id.to_string(),
        command: "noop".to_string(),
        args: vec![],
        inputs: inputs.iter().map(|s| s.to_string()).collect(),
        outputs: vec![],
        run_in_ci,
        deps: deps.iter().map(|s| s.to_string()).collect(),
    }
}

fn sample_workspace() -> ProjectGraph {
    let projects_map = vec![
        ("a".to_string(), "packages/a".to_string()),
        ("b".to_string(), "packages/b".to_string()),
    ];
    let configs = vec![
        (
            "a".to_string(),
            ProjectConfig {
                depends_on: vec!["b".to_string()],
                tasks: vec![task("build", true, &["packages/a/src"], &["b:build"])],
            },
        ),
        (
            "b".to_string(),
            ProjectConfig {
                depends_on: vec![],
                tasks: vec![task("build", true, &["packages/b/src"], &[])],
            },
        ),
    ];
    ProjectGraph::create("/ws", projects_map, configs)
}

#[test]
fn ids_are_sorted_discovery_keys() {
    let projects_map = vec![
        ("zeta".to_string(), "z".to_string()),
        ("alpha".to_string(), "a".to_string()),
        ("mid".to_string(), "m".to_string()),
    ];
    let g = ProjectGraph::create("/ws", projects_map, vec![]);
    assert_eq!(g.ids(), vec!["alpha", "mid", "zeta"]);
}

#[test]
fn ids_ignore_loaded_state() {
    let mut g = sample_workspace();
    assert_eq!(g.ids(), vec!["a", "b"]);
    g.load("a").unwrap();
    assert_eq!(g.ids(), vec!["a", "b"]);
}

#[test]
fn load_builds_example_graph() {
    let mut g = sample_workspace();
    let a = g.load("a").unwrap();
    assert_eq!(a.id, "a");
    assert_eq!(a.root, "/ws/packages/a");
    assert_eq!(a.source, "packages/a");
    // root, a and b are all materialized: a's dependency was pulled in.
    assert_eq!(g.projects.len(), 3);
    assert_eq!(g.get_dependencies_of(&a).unwrap(), vec!["b"]);
    let b = g.load("b").unwrap();
    g.load_all().unwrap();
    assert_eq!(g.get_dependents_of(&b).unwrap(), vec!["a"]);
    assert_eq!(g.get_dependencies_of(&b).unwrap(), Vec::<String>::new());
}

#[test]
fn load_is_idempotent() {
    let mut g = sample_workspace();
    let first = g.load("a").unwrap();
    let nodes_after_first = g.projects.len();
    let second = g.load("a").unwrap();
    assert_eq!(first.id, second.id);
    assert_eq!(first.root, second.root);
    assert_eq!(first.depends_on, second.depends_on);
    assert_eq!(g.projects.len(), nodes_after_first);
}

#[test]
fn load_unknown_id_is_unconfigured() {
    let mut g = sample_workspace();
    match g.load("ghost") {
        Err(ProjectError::UnconfiguredID(id)) => assert_eq!(id, "ghost"),
        Err(other) => panic!("expected UnconfiguredID, got {:?}", other),
        Ok(_) => panic!("expected an error"),
    }
}

#[test]
fn target_round_trip() {
    let t = Target::new("app", "build").unwrap();
    assert_eq!(t.id, "app:build");
    let parsed = Target::parse("app:build").unwrap();
    assert_eq!(parsed.project_id, "app");
    assert_eq!(parsed.task_id, "build");
    assert_eq!(parsed.id, t.id);
    assert!(Target::parse("nocolon").is_err());
    assert!(Target::parse(":task").is_err());
    assert!(Target::new("a:b", "c").is_err());
}

#[test]
fn sorting_is_ascending() {
    let v = vec!["pear".to_string(), "apple".to_string(), "apple2".to_string()];
    assert_eq!(sort_strings(&v), vec!["apple", "apple2", "pear"]);
}

#[test]
fn sharding_covers_all_targets_once() {
    let names = ["t1", "t2", "t3", "t4", "t5"];
    let targets: Vec<Target> = names.iter().map(|n| Target::new("p", n).unwrap()).collect();
    let mut seen: Vec<String> = vec![];
    for job in 0..2usize {
        let opts = CiOptions { base: None, head: None, job: Some(job), job_total: Some(2) };
        let shard = distribute_targets_across_jobs(&opts, targets.clone());
        if job == 0 {
            // Shard 0 is the first N/K targets.
            assert_eq!(shard.len(), 2);
            assert_eq!(shard[0].task_id, "t1");
            assert_eq!(shard[1].task_id, "t2");
        }
        for t in &shard {
            seen.push(t.id.clone());
        }
    }
    let all: Vec<String> = targets.iter().map(|t| t.id.clone()).collect();
    assert_eq!(seen, all);
}

#[test]
fn sharding_disabled_without_both_parameters() {
    let targets = vec![Target::new("p", "t").unwrap()];
    let opts = CiOptions { base: None, head: None, job: Some(0), job_total: None };
    let shard = distribute_targets_across_jobs(&opts, targets.clone());
    assert_eq!(shard.len(), 1);
    assert_eq!(shard[0].id, "p:t");
}

#[test]
fn runner_abort_stops_unstarted_actions() {
    // 0 <- 1 <- 2 (1 depends on 0, 2 depends on 1); 0 aborts the run.
    let prerequisites = vec![vec![], vec![0], vec![1]];
    let verdicts = vec![
        ActionStatus::FailedAndAbort,
        ActionStatus::Passed,
        ActionStatus::Passed,
    ];
    let results = run_actions(&prerequisites, &verdicts);
    assert_eq!(results, vec![(0, ActionStatus::FailedAndAbort)]);
}

#[test]
fn runner_skips_dependents_of_failures_transitively() {
    // 1 depends on 0 (which fails), 2 depends on 1, 3 is independent.
    let prerequisites = vec![vec![], vec![0], vec![1], vec![]];
    let verdicts = vec![
        ActionStatus::Failed,
        ActionStatus::Passed,
        ActionStatus::Passed,
        ActionStatus::Passed,
    ];
    let results = run_actions(&prerequisites, &verdicts);
    assert_eq!(results.len(), 4);
    let status_of = |n: usize| results.iter().find(|r| r.0 == n).unwrap().1;
    assert_eq!(status_of(0), ActionStatus::Failed);
    assert_eq!(status_of(1), ActionStatus::Skipped);
    assert_eq!(status_of(2), ActionStatus::Skipped);
    assert_eq!(status_of(3), ActionStatus::Passed);
}

#[test]
fn runner_proceeding_statuses_unblock_dependents() {
    for status in [
        ActionStatus::Passed,
        ActionStatus::Cached,
        ActionStatus::Skipped,
        ActionStatus::Invalid,
    ] {
        let prerequisites = vec![vec![], vec![0]];
        let verdicts = vec![status, ActionStatus::Passed];
        let results = run_actions(&prerequisites, &verdicts);
        assert_eq!(results.len(), 2);
        assert_eq!(results[0], (0, status));
        assert_eq!(results[1], (1, ActionStatus::Passed));
    }
}

#[test]
fn gather_respects_ci_flag_and_touched_files() {
    let projects_map = vec![("p".to_string(), "p".to_string())];
    let configs = vec![(
        "p".to_string(),
        ProjectConfig {
            depends_on: vec![],
            tasks: vec![
                task("hit", true, &["p/src"], &[]),
                task("miss", true, &["p/other"], &[]),
                task("local_only", false, &["p/src"], &[]),
            ],
        },
    )];
    let mut g = ProjectGraph::create("/ws", projects_map, configs);
    let touched = vec!["p/src".to_string()];
    let targets = gather_runnable_targets(&mut g, &touched).unwrap();
    let ids: Vec<String> = targets.iter().map(|t| t.id.clone()).collect();
    assert_eq!(ids, vec!["p:hit"]);
}

#[test]
fn dep_graph_inserts_target_with_dependencies() {
    let mut g = sample_workspace();
    g.load_all().unwrap();
    let mut dg = DepGraph::new();
    let t = Target::new("a", "build").unwrap();
    let ix = dg.run_target(&t, &mut g, None).unwrap().unwrap();
    // setup + sync(a) + run(a:build) + sync(b) + run(b:build)
    assert_eq!(dg.node_count(), 5);
    // Idempotent: inserting again adds nothing and returns the same node.
    let again = dg.run_target(&t, &mut g, None).unwrap().unwrap();
    assert_eq!(ix, again);
    assert_eq!(dg.node_count(), 5);
    let subjects: Vec<String> = dg.nodes.iter().map(|n| n.subject.clone()).collect();
    assert!(subjects.contains(&"a:build".to_string()));
    assert!(subjects.contains(&"b:build".to_string()));
}

#[test]
fn dep_graph_dependents_revalidate_consumers() {
    let mut g = sample_workspace();
    g.load_all().unwrap();
    let mut dg = DepGraph::new();
    let t = Target::new("b", "build").unwrap();
    dg.run_target(&t, &mut g, None).unwrap().unwrap();
    dg.run_target_dependents(&t, &mut g).unwrap();
    let subjects: Vec<String> = dg.nodes.iter().map(|n| n.subject.clone()).collect();
    assert!(subjects.contains(&"a:build".to_string()));
}

#[test]
fn generate_dep_graph_covers_all_targets() {
    let mut g = sample_workspace();
    g.load_all().unwrap();
    let targets = vec![Target::new("b", "build").unwrap()];
    let dg = generate_dep_graph(&mut g, &targets).unwrap();
    let subjects: Vec<String> = dg.nodes.iter().map(|n| n.subject.clone()).collect();
    assert!(subjects.contains(&"b:build".to_string()));
    assert!(subjects.contains(&"a:build".to_string()));
    // The graph drains cleanly with every action passing.
    let prerequisites = dg.prerequisites();
    let verdicts = vec![ActionStatus::Passed; dg.node_count()];
    let results = run_actions(&prerequisites, &verdicts);
    assert_eq!(results.len(), dg.node_count());
    let statuses: Vec<ActionStatus> = results.iter().map(|r| r.1).collect();
    assert!(!run_had_failures(&statuses, false));
    assert!(!run_had_failures(&statuses, true));
}

#[test]
fn run_target_skips_unaffected_with_requirement() {
    let mut g = sample_workspace();
    g.load_all().unwrap();
    let mut dg = DepGraph::new();
    let t = Target::new("a", "build").unwrap();
    let untouched = vec!["elsewhere".to_string()];
    assert_eq!(dg.run_target(&t, &mut g, Some(&untouched)).unwrap(), None);
    assert_eq!(dg.node_count(), 0);
    let touched = vec!["packages/a/src".to_string()];
    assert!(dg.run_target(&t, &mut g, Some(&touched)).unwrap().is_some());
}

#[test]
fn invalid_fails_the_run_only_in_ci() {
    let statuses = vec![ActionStatus::Passed, ActionStatus::Invalid];
    assert!(!run_had_failures(&statuses, false));
    assert!(run_had_failures(&statuses, true));
    let failed = vec![ActionStatus::Failed];
    assert!(run_had_failures(&failed, false));
}

#[test]
fn gather_returns_targets_sorted_by_id() {
    let projects_map = vec![
        ("zeta".to_string(), "z".to_string()),
        ("alpha".to_string(), "a".to_string()),
    ];
    let configs = vec![
        (
            "zeta".to_string(),
            ProjectConfig { depends_on: vec![], tasks: vec![task("b", true, &["z/x"], &[])] },
        ),
        (
            "alpha".to_string(),
            ProjectConfig { depends_on: vec![], tasks: vec![task("c", true, &["a/x"], &[])] },
        ),
    ];
    let mut g = ProjectGraph::create("/ws", projects_map, configs);
    let touched = vec!["z/x".to_string(), "a/x".to_string()];
    let targets = gather_runnable_targets(&mut g, &touched).unwrap();
    let ids: Vec<String> = targets.iter().map(|t| t.id.clone()).collect();
    assert_eq!(ids, vec!["alpha:c", "zeta:b"]);
}

#[test]
fn discovery_source_decision() {
    let explicit = vec![("a".to_string(), "pkgs/a".to_string())];
    let globbed = vec![
        (glob_flag_key().to_string(), "true".to_string()),
        ("g1".to_string(), "packages/*".to_string()),
    ];
    let cached = vec![("a".to_string(), "pkgs/a".to_string())];
    let empty: Vec<(String, String)> = vec![];
    assert_eq!(resolve_discovery(&explicit, glob_flag_key(), &empty), DiscoverySource::UseConfigured);
    assert_eq!(resolve_discovery(&globbed, glob_flag_key(), &cached), DiscoverySource::UseCached);
    assert_eq!(resolve_discovery(&globbed, glob_flag_key(), &empty), DiscoverySource::GlobThenSave);
    assert_eq!(glob_patterns_of(&globbed, glob_flag_key()), vec!["packages/*"]);
}

#[test]
fn sharding_noop_with_job_absent() {
    let targets = vec![Target::new("p", "t").unwrap()];
    let opts = CiOptions { base: None, head: None, job: None, job_total: Some(3) };
    let shard = distribute_targets_across_jobs(&opts, targets.clone());
    assert_eq!(shard.len(), 1);
}

#[test]
fn sync_outcome_statuses() {
    assert_eq!(sync_outcome(true, true), ActionStatus::Invalid);
    assert_eq!(sync_outcome(true, false), ActionStatus::Passed);
    assert_eq!(sync_outcome(false, true), ActionStatus::Skipped);
    assert_eq!(sync_outcome(false, false), ActionStatus::Skipped);
}

#[test]
fn language_labels() {
    assert_eq!(SupportedLanguage::Node.label(), "Node.js");
    assert_eq!(SupportedLanguage::System.label(), "system");
    assert_eq!(root_node_id(), "(workspace)");
}
