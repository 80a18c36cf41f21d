use rustxi::callgraph::BothWayGraph;
use rustxi::callgraph::CallGraph;
use rustxi::callgraph::CallerToCalleeGraph;
use rustxi::callgraph::CalleeToCallerGraph;
use rustxi::callgraph::GraphError;

fn names(list: &[&str]) -> Vec<String> {
    list.iter().map(|s| s.to_string()).collect()
}

#[test]
fn commit_chain_reports_no_affected() {
    let mut g = BothWayGraph::new();
    assert_eq!(g.update("f".to_string(), &names(&[])), Ok(vec![]));
    assert_eq!(g.update("g".to_string(), &names(&["f"])), Ok(vec![]));
    assert_eq!(g.update("h".to_string(), &names(&["g"])), Ok(vec![]));
    assert_eq!(g.fns(), names(&["f", "g", "h"]));
}

#[test]
fn redefinition_reports_transitive_callers_in_insertion_order() {
    let mut g = BothWayGraph::new();
    g.update("f".to_string(), &names(&[])).unwrap();
    g.update("g".to_string(), &names(&["f"])).unwrap();
    g.update("h".to_string(), &names(&["g"])).unwrap();
    let affected = g.update("f".to_string(), &names(&[])).unwrap();
    assert_eq!(affected, names(&["g", "h"]));
}

#[test]
fn unknown_dependency_is_rejected_and_graph_stays_empty() {
    let mut g = BothWayGraph::new();
    let r = g.update("x".to_string(), &names(&["y"]));
    assert_eq!(r, Err(GraphError::DepNotInGraph));
    assert!(g.fns().is_empty());
    assert!(!g.contains(&names(&["x"])));
}

#[test]
fn delete_of_unknown_function_is_rejected() {
    let mut g = BothWayGraph::new();
    assert_eq!(g.delete(&"ghost_fn".to_string()), Err(GraphError::FnNotInGraph));
}

#[test]
fn delete_removes_the_function_and_everything_affected() {
    let mut g = BothWayGraph::new();
    g.update("f".to_string(), &names(&[])).unwrap();
    g.update("g".to_string(), &names(&["f"])).unwrap();
    g.update("h".to_string(), &names(&["g"])).unwrap();
    let removed = g.delete(&"f".to_string()).unwrap();
    assert_eq!(removed, names(&["g", "h"]));
    assert!(g.fns().is_empty());
    assert!(!g.contains(&names(&["f"])));
    assert!(!g.contains(&names(&["g"])));
    assert!(!g.contains(&names(&["h"])));
}

#[test]
fn delete_keeps_unrelated_functions() {
    let mut g = BothWayGraph::new();
    g.update("lonely".to_string(), &names(&[])).unwrap();
    g.update("f".to_string(), &names(&[])).unwrap();
    g.update("g".to_string(), &names(&["f"])).unwrap();
    let removed = g.delete(&"f".to_string()).unwrap();
    assert_eq!(removed, names(&["g"]));
    assert_eq!(g.fns(), names(&["lonely"]));
}

#[test]
fn add_then_delete_restores_the_prior_graph() {
    let mut g = BothWayGraph::new();
    g.update("base".to_string(), &names(&[])).unwrap();
    assert_eq!(g.add("f".to_string(), &names(&["base"])), Ok(()));
    assert_eq!(g.fns(), names(&["base", "f"]));
    let removed = g.delete(&"f".to_string()).unwrap();
    assert!(removed.is_empty());
    assert_eq!(g.fns(), names(&["base"]));
    assert!(g.contains(&names(&["base"])));
    assert!(!g.contains(&names(&["f"])));
}

#[test]
fn update_twice_with_same_deps_reports_the_same_affected_set() {
    let mut g = BothWayGraph::new();
    g.update("f".to_string(), &names(&[])).unwrap();
    g.update("g".to_string(), &names(&["f"])).unwrap();
    let first = g.update("f".to_string(), &names(&[])).unwrap();
    let second = g.update("f".to_string(), &names(&[])).unwrap();
    assert_eq!(first, names(&["g"]));
    assert_eq!(second, first);
    assert_eq!(g.fns(), names(&["f", "g"]));
}

#[test]
fn affected_set_is_the_closure_of_the_caller_relation() {
    let mut g = BothWayGraph::new();
    g.update("f".to_string(), &names(&[])).unwrap();
    g.update("g".to_string(), &names(&["f"])).unwrap();
    g.update("h".to_string(), &names(&["g"])).unwrap();
    g.update("k".to_string(), &names(&["f"])).unwrap();
    // direct callers of f (slot 0): g (slot 1) and k (slot 3)
    assert_eq!(g.fns_directly_affected_by(0), vec![1, 3]);
    // the closure adds h (slot 2), the caller of g; a fixed point is reached
    let affected = g.fns_affected_by(0);
    assert_eq!(affected, vec![1, 2, 3]);
    let mut closure: Vec<usize> = g.fns_directly_affected_by(0);
    for id in affected.iter() {
        for caller in g.fns_directly_affected_by(*id) {
            if !closure.contains(&caller) {
                closure.push(caller);
            }
        }
    }
    closure.sort();
    assert_eq!(closure, affected);
}

#[test]
fn both_orientations_report_identical_results() {
    let mut fwd = CallerToCalleeGraph::new();
    let mut bwd = CalleeToCallerGraph::new();
    let script: Vec<(&str, Vec<&str>)> = vec![
        ("f", vec![]),
        ("g", vec!["f"]),
        ("h", vec!["g", "f"]),
        ("f", vec![]),
        ("g", vec![]),
    ];
    for (func, deps) in script {
        let d = names(&deps);
        let a = fwd.update(func.to_string(), &d);
        let b = bwd.update(func.to_string(), &d);
        assert_eq!(a, b);
    }
    assert_eq!(fwd.fns(), bwd.fns());
    assert_eq!(fwd.fns_affected_by(0), bwd.fns_affected_by(0));
    assert_eq!(fwd.fns_directly_affected_by(0), bwd.fns_directly_affected_by(0));
    let a = fwd.delete(&"f".to_string());
    let b = bwd.delete(&"f".to_string());
    assert_eq!(a, b);
    assert_eq!(fwd.fns(), bwd.fns());
}

#[test]
fn cycles_are_closed_over() {
    let mut g = BothWayGraph::new();
    g.update("f".to_string(), &names(&[])).unwrap();
    g.update("g".to_string(), &names(&["f"])).unwrap();
    // close the loop: f now calls g, so both affect each other
    let affected = g.update("f".to_string(), &names(&["g"])).unwrap();
    assert_eq!(affected, names(&["f", "g"]));
}

#[test]
fn self_dependency_affects_itself() {
    let mut g = BothWayGraph::new();
    g.update("f".to_string(), &names(&[])).unwrap();
    let affected = g.update("f".to_string(), &names(&["f"])).unwrap();
    assert_eq!(affected, names(&["f"]));
}

#[test]
fn duplicate_dependencies_are_kept_once() {
    let mut g = BothWayGraph::new();
    g.update("f".to_string(), &names(&[])).unwrap();
    g.update("g".to_string(), &names(&["f", "f"])).unwrap();
    assert_eq!(g.fns_directly_affected_by(0), vec![1]);
    let removed = g.delete(&"f".to_string()).unwrap();
    assert_eq!(removed, names(&["g"]));
}

#[test]
fn contains_checks_all_of_the_names() {
    let mut g = BothWayGraph::new();
    g.update("f".to_string(), &names(&[])).unwrap();
    g.update("g".to_string(), &names(&[])).unwrap();
    assert!(g.contains(&names(&["f", "g"])));
    assert!(!g.contains(&names(&["f", "missing"])));
    assert!(g.contains(&names(&[])));
}

#[test]
fn error_messages_are_the_fixed_strings() {
    assert_eq!(GraphError::DepNotInGraph.message(), "Dependency not in graph");
    assert_eq!(GraphError::FnNotInGraph.message(), "Function not in graph");
}

#[test]
fn deleted_names_can_be_defined_again() {
    let mut g = BothWayGraph::new();
    g.update("f".to_string(), &names(&[])).unwrap();
    g.delete(&"f".to_string()).unwrap();
    assert_eq!(g.update("f".to_string(), &names(&[])), Ok(vec![]));
    assert_eq!(g.fns(), names(&["f"]));
}
