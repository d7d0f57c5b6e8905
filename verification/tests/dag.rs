use bee_runtime::runtime::dag::{topo_sort, DagError};
use bee_runtime::ServiceSpec;

fn spec(name: &'static str, deps: &[&'static str]) -> ServiceSpec<()> {
    ServiceSpec { name, deps: deps.to_vec(), factory: () }
}

fn position(order: &[usize], i: usize) -> usize {
    order.iter().position(|&x| x == i).unwrap()
}

#[test]
fn empty_graph_sorts_to_empty_order() {
    let specs: Vec<ServiceSpec<()>> = Vec::new();
    let order = topo_sort(&specs).unwrap();
    assert!(order.is_empty());
}

#[test]
fn chain_is_sorted_by_dependencies() {
    let specs = vec![spec("c", &["b"]), spec("b", &["a"]), spec("a", &[])];
    let order = topo_sort(&specs).unwrap();
    assert_eq!(order, vec![2, 1, 0]);
}

#[test]
fn independent_services_keep_index_order() {
    let specs = vec![spec("a", &[]), spec("b", &[]), spec("c", &[])];
    assert_eq!(topo_sort(&specs).unwrap(), vec![0, 1, 2]);
}

#[test]
fn diamond_puts_every_service_after_its_dependencies() {
    let specs = vec![
        spec("app", &["db", "cache"]),
        spec("db", &["config"]),
        spec("cache", &["config"]),
        spec("config", &[]),
    ];
    let order = topo_sort(&specs).unwrap();
    assert_eq!(order.len(), 4);
    assert_eq!(order, vec![3, 1, 2, 0]);
    assert!(position(&order, 3) < position(&order, 1));
    assert!(position(&order, 3) < position(&order, 2));
    assert!(position(&order, 1) < position(&order, 0));
    assert!(position(&order, 2) < position(&order, 0));
}

#[test]
fn repeated_dependency_is_counted_per_entry() {
    let specs = vec![spec("a", &[]), spec("b", &["a", "a"])];
    assert_eq!(topo_sort(&specs).unwrap(), vec![0, 1]);
}

#[test]
fn unknown_dependency_reports_the_first_one() {
    let specs = vec![
        spec("a", &[]),
        spec("b", &["a", "missing1"]),
        spec("c", &["missing2"]),
    ];
    match topo_sort(&specs) {
        Err(DagError::UnknownDependency { service, dep }) => {
            assert_eq!(service, "b");
            assert_eq!(dep, "missing1");
        }
        other => panic!("unexpected result: {:?}", other),
    }
}

#[test]
fn unknown_dependency_wins_over_a_cycle() {
    let specs = vec![spec("a", &["b"]), spec("b", &["a"]), spec("c", &["zzz"])];
    assert!(matches!(
        topo_sort(&specs),
        Err(DagError::UnknownDependency { service: "c", dep: "zzz" })
    ));
}

#[test]
fn cycle_names_every_blocked_service_once() {
    let specs = vec![
        spec("ok", &[]),
        spec("x", &["y"]),
        spec("y", &["x"]),
        spec("after", &["x", "ok"]),
    ];
    match topo_sort(&specs) {
        Err(DagError::Cycle(names)) => assert_eq!(names, vec!["x", "y", "after"]),
        other => panic!("unexpected result: {:?}", other),
    }
}

#[test]
fn self_dependency_is_a_cycle() {
    let specs = vec![spec("a", &["a"]), spec("b", &[])];
    match topo_sort(&specs) {
        Err(DagError::Cycle(names)) => assert_eq!(names, vec!["a"]),
        other => panic!("unexpected result: {:?}", other),
    }
}

#[test]
fn cycle_names_are_deduplicated() {
    // Two specs share the name "x"; only the last one is what "x" refers to.
    let specs = vec![spec("x", &["y"]), spec("y", &["x"]), spec("x", &["y"])];
    match topo_sort(&specs) {
        Err(DagError::Cycle(names)) => assert_eq!(names, vec!["x", "y"]),
        other => panic!("unexpected result: {:?}", other),
    }
}

#[test]
fn dependency_refers_to_the_last_service_of_that_name() {
    // "a" refers to index 2, which depends on nothing; index 0 also named "a"
    // depends on "b".
    let specs = vec![spec("a", &["b"]), spec("b", &["a"]), spec("a", &[])];
    assert_eq!(topo_sort(&specs).unwrap(), vec![2, 1, 0]);
}

#[test]
fn services_ready_together_start_in_registration_order() {
    let specs = vec![spec("x", &["z"]), spec("y", &["z"]), spec("z", &[])];
    assert_eq!(topo_sort(&specs).unwrap(), vec![2, 0, 1]);
}

#[test]
fn a_service_starts_once_its_last_dependency_has() {
    // "late" waits for "b", which starts after "a"; "early" only waits for "a".
    let specs = vec![
        spec("late", &["b"]),
        spec("early", &["a"]),
        spec("b", &["a"]),
        spec("a", &[]),
    ];
    assert_eq!(topo_sort(&specs).unwrap(), vec![3, 1, 2, 0]);
}
