use uni::job::{collect_dependencies, create_run_order, resolve_order, OrchestratorError};
use uni::runfile::{Job, Runfile};

fn job(needs: Vec<&str>) -> Job {
    Job { name: None, needs: needs.into_iter().map(String::from).collect(), steps: Vec::new() }
}

fn runfile(default: &str, jobs: Vec<(&str, Job)>) -> Runfile {
    Runfile {
        default: String::from(default),
        jobs: jobs.into_iter().map(|(id, j)| (String::from(id), j)).collect(),
    }
}

#[test]
fn test_create_run_order_single_node() {
    let runfile = runfile("start", vec![("start", job(vec![]))]);

    let graph = collect_dependencies(&runfile).unwrap();

    assert_eq!(graph.node_count(), 1, "Incorrect number of nodes in graph");
    assert_eq!(graph.edge_count(), 0, "Incorrect number of edges in graph");

    let order = create_run_order(runfile.default.as_str(), graph).unwrap();

    assert_eq!(order.len(), 1, "Incorrect number of items in run order");
}

#[test]
fn test_create_run_order_two_nodes() {
    let runfile = runfile(
        "start",
        vec![("build", job(vec![])), ("start", job(vec!["build"]))],
    );

    let graph = collect_dependencies(&runfile).unwrap();

    assert_eq!(graph.node_count(), 2, "Incorrect number of nodes in graph");
    assert_eq!(graph.edge_count(), 1, "Incorrect number of edges in graph");

    let order = create_run_order(runfile.default.as_str(), graph).unwrap();

    assert_eq!(order.len(), 2, "Incorrect number of items in run order");
}

#[test]
fn test_create_run_order_nodes_diverge() {
    let runfile = runfile(
        "start",
        vec![
            ("build", job(vec![])),
            ("start", job(vec!["build"])),
            ("test", job(vec!["build"])),
        ],
    );

    let graph = collect_dependencies(&runfile).unwrap();

    assert_eq!(graph.node_count(), 3, "Incorrect number of nodes in graph");
    assert_eq!(graph.edge_count(), 2, "Incorrect number of edges in graph");

    let order = create_run_order(runfile.default.as_str(), graph).unwrap();

    assert_eq!(order.len(), 2, "Incorrect number of items in run order");
    assert_eq!(order, vec![String::from("build"), String::from("start")])
}

#[test]
fn test_create_run_order_chained_nodes() {
    let runfile = runfile(
        "start",
        vec![
            ("build", job(vec![])),
            ("test", job(vec!["build"])),
            ("start", job(vec!["test"])),
        ],
    );

    let graph = collect_dependencies(&runfile).unwrap();

    assert_eq!(graph.node_count(), 3, "Incorrect number of nodes in graph");
    assert_eq!(graph.edge_count(), 2, "Incorrect number of edges in graph");

    let order = create_run_order(runfile.default.as_str(), graph).unwrap();

    assert_eq!(order.len(), 3, "Incorrect number of items in run order");
    assert_eq!(
        order,
        vec![
            String::from("build"),
            String::from("test"),
            String::from("start")
        ]
    )
}

#[test]
fn test_create_run_order_overlapping_needs() {
    let runfile = runfile(
        "start",
        vec![
            ("build", job(vec![])),
            ("test", job(vec!["build"])),
            ("start", job(vec!["build", "test"])),
        ],
    );

    let graph = collect_dependencies(&runfile).unwrap();

    assert_eq!(graph.node_count(), 3, "Incorrect number of nodes in graph");
    assert_eq!(graph.edge_count(), 3, "Incorrect number of edges in graph");

    let order = create_run_order(runfile.default.as_str(), graph).unwrap();

    assert_eq!(order.len(), 3, "Incorrect number of items in run order");
    assert_eq!(
        order,
        vec![
            String::from("build"),
            String::from("test"),
            String::from("start")
        ]
    )
}

#[test]
fn test_fan_in_dependencies_precede_dependent() {
    let runfile = runfile(
        "ship",
        vec![
            ("pack", job(vec![])),
            ("sign", job(vec![])),
            ("ship", job(vec!["pack", "sign"])),
        ],
    );
    let order = resolve_order(&runfile, "ship").unwrap();
    assert_eq!(order.len(), 3);
    let pos = |id: &str| order.iter().position(|x| x == id).unwrap();
    assert!(pos("pack") < pos("ship"));
    assert!(pos("sign") < pos("ship"));
}

#[test]
fn test_resolve_unknown_target() {
    let runfile = runfile("start", vec![("start", job(vec![]))]);
    match resolve_order(&runfile, "missing") {
        Err(OrchestratorError::JobNotFound(id)) => assert_eq!(id, "missing"),
        other => panic!("expected JobNotFound, got {:?}", other.map(|_| ())),
    }
}

#[test]
fn test_cycle_detected() {
    let runfile = runfile(
        "a",
        vec![("a", job(vec!["b"])), ("b", job(vec!["a"]))],
    );
    match collect_dependencies(&runfile) {
        Err(OrchestratorError::CycleDetected) => {}
        other => panic!("expected CycleDetected, got {:?}", other.map(|_| ()).err()),
    }
}

#[test]
fn test_self_cycle_detected() {
    let runfile = runfile("a", vec![("a", job(vec!["a"]))]);
    assert!(matches!(
        collect_dependencies(&runfile),
        Err(OrchestratorError::CycleDetected)
    ));
}

#[test]
fn test_undefined_dependency() {
    let runfile = runfile("a", vec![("a", job(vec!["ghost"]))]);
    match collect_dependencies(&runfile) {
        Err(OrchestratorError::UndefinedDependency(d)) => assert_eq!(d, "ghost"),
        other => panic!("expected UndefinedDependency, got {:?}", other.map(|_| ()).err()),
    }
}

#[test]
fn test_scenario_build_test_start() {
    let runfile = runfile(
        "start",
        vec![
            ("build", job(vec![])),
            ("test", job(vec!["build"])),
            ("start", job(vec!["build", "test"])),
        ],
    );
    let order = resolve_order(&runfile, "start").unwrap();
    assert_eq!(
        order,
        vec![
            String::from("build"),
            String::from("test"),
            String::from("start")
        ]
    );
}
