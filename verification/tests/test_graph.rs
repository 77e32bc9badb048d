use texpand::graph::DependencyGraph;

#[test]
fn test_simple_chain() {
    let mut g = DependencyGraph::new();
    g.add_dependency("main.cpp", "header.h");
    let order = g.expansion_order().unwrap();
    assert_eq!(order, vec!["header.h", "main.cpp"]);
}

#[test]
fn test_transitive() {
    let mut g = DependencyGraph::new();
    g.add_dependency("main.cpp", "a.h");
    g.add_dependency("a.h", "b.h");
    let order = g.expansion_order().unwrap();
    assert_eq!(order, vec!["b.h", "a.h", "main.cpp"]);
}

#[test]
fn test_cycle_detection() {
    let mut g = DependencyGraph::new();
    g.add_dependency("a.h", "b.h");
    g.add_dependency("b.h", "a.h");
    assert!(g.detect_cycle().is_some());
    assert!(g.expansion_order().is_err());
}

#[test]
fn test_no_deps() {
    let mut g = DependencyGraph::new();
    g.add_file("standalone.cpp");
    let order = g.expansion_order().unwrap();
    assert_eq!(order, vec!["standalone.cpp"]);
}

#[test]
fn graph_cycle_message_names_the_files() {
    let mut g = DependencyGraph::new();
    g.add_dependency("a.h", "b.h");
    g.add_dependency("b.h", "a.h");
    let msg = g.expansion_order().unwrap_err();
    assert!(msg.starts_with("circular dependency detected: "), "{msg}");
    assert!(msg.contains("a.h") && msg.contains("b.h") && msg.contains(" -> "), "{msg}");
}

#[test]
fn graph_self_loop_is_a_cycle() {
    let mut g = DependencyGraph::new();
    g.add_dependency("x.h", "x.h");
    assert_eq!(g.detect_cycle(), Some(vec!["x.h".to_string()]));
    assert_eq!(g.expansion_order().unwrap_err(), "circular dependency detected: x.h");
}

#[test]
fn graph_add_file_is_idempotent() {
    let mut g = DependencyGraph::default();
    let i = g.add_file("a.h");
    let j = g.add_file("b.h");
    assert_eq!(g.add_file("a.h"), i);
    assert_ne!(i, j);
    assert_eq!(g.expansion_order().unwrap().len(), 2);
}

#[test]
fn graph_diamond_dependencies_first() {
    let mut g = DependencyGraph::new();
    g.add_dependency("main.cpp", "left.h");
    g.add_dependency("main.cpp", "right.h");
    g.add_dependency("left.h", "base.h");
    g.add_dependency("right.h", "base.h");
    assert!(g.detect_cycle().is_none());
    let order = g.expansion_order().unwrap();
    let pos = |s: &str| order.iter().position(|x| x == s).unwrap();
    assert_eq!(order.len(), 4);
    assert!(pos("base.h") < pos("left.h"));
    assert!(pos("base.h") < pos("right.h"));
    assert!(pos("left.h") < pos("main.cpp"));
    assert!(pos("right.h") < pos("main.cpp"));
}

#[test]
fn graph_cycle_is_its_whole_component() {
    let mut g = DependencyGraph::new();
    g.add_dependency("d.h", "a.h");
    g.add_dependency("a.h", "b.h");
    g.add_dependency("b.h", "c.h");
    g.add_dependency("c.h", "a.h");
    let mut cycle = g.detect_cycle().unwrap();
    cycle.sort();
    assert_eq!(cycle, vec!["a.h".to_string(), "b.h".to_string(), "c.h".to_string()]);
}
