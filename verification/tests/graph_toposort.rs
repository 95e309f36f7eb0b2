use integ::PackageDescriptor;
use integ::graph::build_graph;
use integ::toposort::sort;

fn descriptor(name: &str, deps: &[&str]) -> PackageDescriptor {
    PackageDescriptor {
        name: String::from(name),
        dependency_names: deps.iter().map(|d| String::from(*d)).collect(),
    }
}

fn position(order: &[usize], node: usize) -> usize {
    order.iter().position(|&x| x == node).unwrap()
}

#[test]
fn builds_graph_and_prunes_external_dependencies() {
    let ds = vec![
        descriptor("a", &[]),
        descriptor("b", &["a", "left-pad"]),
    ];
    let g = build_graph(&ds).unwrap();
    assert_eq!(g.names.len(), 2);
    assert_eq!(g.deps[0], Vec::<usize>::new());
    assert_eq!(g.deps[1], vec![0]);
}

#[test]
fn duplicate_package_name_is_an_error() {
    let ds = vec![descriptor("a", &[]), descriptor("b", &[]), descriptor("a", &[])];
    let e = build_graph(&ds).unwrap_err();
    assert_eq!(e.name, "a");
}

#[test]
fn duplicate_dependency_listed_once() {
    let ds = vec![descriptor("a", &[]), descriptor("b", &["a", "a"])];
    let g = build_graph(&ds).unwrap();
    assert_eq!(g.deps[1], vec![0]);
}

#[test]
fn empty_graph_sorts_to_empty_order() {
    let g = build_graph(&vec![]).unwrap();
    let order = sort(&g).unwrap();
    assert!(order.is_empty());
}

#[test]
fn diamond_sorts_in_dependency_order() {
    let ds = vec![
        descriptor("a", &[]),
        descriptor("b", &["a"]),
        descriptor("c", &["a", "b"]),
        descriptor("d", &["a", "b", "c"]),
    ];
    let g = build_graph(&ds).unwrap();
    let order = sort(&g).unwrap();
    assert_eq!(order.len(), 4);
    assert!(position(&order, 0) < position(&order, 1));
    assert!(position(&order, 0) < position(&order, 2));
    assert!(position(&order, 1) < position(&order, 2));
    assert!(position(&order, 0) < position(&order, 3));
    assert!(position(&order, 1) < position(&order, 3));
    assert!(position(&order, 2) < position(&order, 3));
    // roots are taken in input order, so the order is deterministic
    assert_eq!(order, vec![0, 1, 2, 3]);
    let names = integ::toposort::order_names(&g, &order);
    assert_eq!(names, vec!["a", "b", "c", "d"]);
}

#[test]
fn disconnected_components_are_all_included() {
    let ds = vec![
        descriptor("a", &[]),
        descriptor("b", &["a"]),
        descriptor("x", &[]),
        descriptor("y", &["x"]),
    ];
    let g = build_graph(&ds).unwrap();
    let order = sort(&g).unwrap();
    assert_eq!(order.len(), 4);
    assert!(position(&order, 0) < position(&order, 1));
    assert!(position(&order, 2) < position(&order, 3));
}

#[test]
fn self_loop_is_a_cycle() {
    let ds = vec![descriptor("a", &["a"])];
    let g = build_graph(&ds).unwrap();
    let e = sort(&g).unwrap_err();
    assert_eq!(e.cycle, vec![0]);
}

#[test]
fn two_node_cycle_is_detected() {
    let ds = vec![descriptor("a", &["b"]), descriptor("b", &["a"])];
    let g = build_graph(&ds).unwrap();
    let e = sort(&g).unwrap_err();
    assert_eq!(e.cycle.len(), 2);
    assert!(e.cycle.contains(&0));
    assert!(e.cycle.contains(&1));
}

#[test]
fn longer_cycle_behind_a_chain_is_detected() {
    let ds = vec![
        descriptor("entry", &["p"]),
        descriptor("p", &["q"]),
        descriptor("q", &["r"]),
        descriptor("r", &["p"]),
    ];
    let g = build_graph(&ds).unwrap();
    let e = sort(&g).unwrap_err();
    // the cycle is p -> q -> r -> p; the entry chain is not part of it
    assert_eq!(e.cycle, vec![1, 2, 3]);
}
