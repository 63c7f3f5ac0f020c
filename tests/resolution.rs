use coi_core::{Binding, BuildError, Container, Provide, ResolveError, ServiceKey};
use std::cell::Cell;
use std::rc::Rc;
use std::sync::Arc;

#[derive(Debug)]
enum Node {
    Leaf,
    Inner(Vec<Arc<Node>>),
}

struct Counted {
    calls: Rc<Cell<u32>>,
    failures: u32,
}

impl Provide<Node> for Counted {
    fn provide(&self, deps: &Vec<Arc<Node>>) -> Result<Arc<Node>, String> {
        let n = self.calls.get() + 1;
        self.calls.set(n);
        if n <= self.failures {
            Err("backend unavailable".to_string())
        } else if deps.is_empty() {
            Ok(Arc::new(Node::Leaf))
        } else {
            Ok(Arc::new(Node::Inner(deps.clone())))
        }
    }
}

fn key(name: &str) -> ServiceKey {
    ServiceKey::new("Node".to_string(), name.to_string())
}

fn counted(failures: u32) -> (Counted, Rc<Cell<u32>>) {
    let calls = Rc::new(Cell::new(0));
    (Counted { calls: calls.clone(), failures }, calls)
}

fn bind(name: &str, deps: &[&str], p: Counted) -> Binding<Counted> {
    Binding::new(key(name), deps.iter().map(|d| key(d)).collect(), p)
}

#[test]
fn provider_runs_once_for_many_resolutions() {
    let (p, calls) = counted(0);
    let mut c = Container::new(vec![bind("k", &[], p)]).unwrap();
    let first = c.resolve(&key("k")).unwrap();
    for _ in 0..5 {
        let again = c.resolve(&key("k")).unwrap();
        assert!(Arc::ptr_eq(&first, &again));
    }
    assert_eq!(calls.get(), 1);
}

#[test]
fn shared_dependency_built_once() {
    let (leaf, leaf_calls) = counted(0);
    let (a, _) = counted(0);
    let (b, _) = counted(0);
    let (top, _) = counted(0);
    let mut c = Container::new(vec![
        bind("leaf", &[], leaf),
        bind("a", &["leaf"], a),
        bind("b", &["leaf"], b),
        bind("top", &["a", "b"], top),
    ])
    .unwrap();
    c.resolve(&key("top")).unwrap();
    assert_eq!(leaf_calls.get(), 1);
}

#[test]
fn cached_instance_is_identical() {
    let (p, calls) = counted(0);
    let mut c = Container::new(vec![bind("k", &[], p)]).unwrap();
    assert!(!c.is_resolved(&key("k")));
    let first = c.resolve(&key("k")).unwrap();
    assert!(c.is_resolved(&key("k")));
    let second = c.resolve(&key("k")).unwrap();
    assert!(Arc::ptr_eq(&first, &second));
    assert_eq!(calls.get(), 1);
}

#[test]
fn cycle_is_reported_with_path() {
    let (a, a_calls) = counted(0);
    let (b, b_calls) = counted(0);
    let mut c = Container::new(vec![bind("A", &["B"], a), bind("B", &["A"], b)]).unwrap();
    match c.resolve(&key("A")) {
        Err(ResolveError::CycleDetected(path)) => {
            let names: Vec<&str> = path.iter().map(|k| k.name.as_str()).collect();
            assert_eq!(names, vec!["A", "B", "A"]);
        }
        other => panic!("expected a cycle, got {:?}", other),
    }
    assert!(!c.is_resolved(&key("A")));
    assert!(!c.is_resolved(&key("B")));
    assert_eq!(a_calls.get(), 0);
    assert_eq!(b_calls.get(), 0);
}

#[test]
fn cycle_is_reported_again_on_retry() {
    let (a, _) = counted(0);
    let (b, _) = counted(0);
    let mut c = Container::new(vec![bind("A", &["B"], a), bind("B", &["A"], b)]).unwrap();
    assert!(matches!(c.resolve(&key("A")), Err(ResolveError::CycleDetected(_))));
    match c.resolve(&key("A")) {
        Err(ResolveError::CycleDetected(path)) => {
            let names: Vec<&str> = path.iter().map(|k| k.name.as_str()).collect();
            assert_eq!(names, vec!["A", "B", "A"]);
        }
        other => panic!("expected a cycle, got {:?}", other),
    }
    match c.resolve(&key("B")) {
        Err(ResolveError::CycleDetected(path)) => {
            let names: Vec<&str> = path.iter().map(|k| k.name.as_str()).collect();
            assert_eq!(names, vec!["B", "A", "B"]);
        }
        other => panic!("expected a cycle, got {:?}", other),
    }
}

#[test]
fn self_dependency_is_a_cycle() {
    let (a, _) = counted(0);
    let mut c = Container::new(vec![bind("A", &["A"], a)]).unwrap();
    match c.resolve(&key("A")) {
        Err(ResolveError::CycleDetected(path)) => {
            let names: Vec<&str> = path.iter().map(|k| k.name.as_str()).collect();
            assert_eq!(names, vec!["A", "A"]);
        }
        other => panic!("expected a cycle, got {:?}", other),
    }
}

#[test]
fn cycle_below_root_keeps_resolved_siblings() {
    let (leaf, _) = counted(0);
    let (a, _) = counted(0);
    let (b, _) = counted(0);
    let mut c = Container::new(vec![
        bind("leaf", &[], leaf),
        bind("A", &["leaf", "B"], a),
        bind("B", &["A"], b),
    ])
    .unwrap();
    assert!(matches!(c.resolve(&key("A")), Err(ResolveError::CycleDetected(_))));
    assert!(c.is_resolved(&key("leaf")));
    assert!(!c.is_resolved(&key("A")));
}

#[test]
fn unknown_key_leaves_cache_unchanged() {
    let (p, calls) = counted(0);
    let mut c = Container::new(vec![bind("k", &[], p)]).unwrap();
    let first = c.resolve(&key("k")).unwrap();
    match c.resolve(&key("nonexistent")) {
        Err(ResolveError::UnknownKey(k)) => assert_eq!(k.name, "nonexistent"),
        other => panic!("expected an unknown key, got {:?}", other),
    }
    assert!(c.is_resolved(&key("k")));
    assert!(!c.is_resolved(&key("nonexistent")));
    let again = c.resolve(&key("k")).unwrap();
    assert!(Arc::ptr_eq(&first, &again));
    assert_eq!(calls.get(), 1);
}

#[test]
fn same_name_other_capability_is_unknown() {
    let (p, _) = counted(0);
    let mut c = Container::new(vec![bind("k", &[], p)]).unwrap();
    let other = ServiceKey::new("Other".to_string(), "k".to_string());
    assert!(matches!(c.resolve(&other), Err(ResolveError::UnknownKey(_))));
}

#[test]
fn unknown_dependency_is_reported() {
    let (a, a_calls) = counted(0);
    let mut c = Container::new(vec![bind("A", &["missing"], a)]).unwrap();
    match c.resolve(&key("A")) {
        Err(ResolveError::UnknownKey(k)) => assert_eq!(k.name, "missing"),
        other => panic!("expected an unknown key, got {:?}", other),
    }
    assert_eq!(a_calls.get(), 0);
}

#[test]
fn failure_is_not_cached() {
    let (p, calls) = counted(1);
    let mut c = Container::new(vec![bind("k", &[], p)]).unwrap();
    match c.resolve(&key("k")) {
        Err(ResolveError::ProviderFailed(k, cause)) => {
            assert_eq!(k.name, "k");
            assert_eq!(cause, "backend unavailable");
        }
        other => panic!("expected a provider failure, got {:?}", other),
    }
    assert!(!c.is_resolved(&key("k")));
    assert_eq!(calls.get(), 1);
    assert!(c.resolve(&key("k")).is_ok());
    assert_eq!(calls.get(), 2);
    assert!(c.is_resolved(&key("k")));
}

#[test]
fn dependency_failure_fails_the_root() {
    let (leaf, _) = counted(1);
    let (root, root_calls) = counted(0);
    let mut c = Container::new(vec![bind("leaf", &[], leaf), bind("root", &["leaf"], root)]).unwrap();
    match c.resolve(&key("root")) {
        Err(ResolveError::ProviderFailed(k, _)) => assert_eq!(k.name, "leaf"),
        other => panic!("expected a provider failure, got {:?}", other),
    }
    assert_eq!(root_calls.get(), 0);
    assert!(!c.is_resolved(&key("root")));
}

#[test]
fn end_to_end_graph_shares_leaf() {
    let (leaf, _) = counted(0);
    let (mid, _) = counted(0);
    let (root, _) = counted(0);
    let mut c = Container::new(vec![
        bind("leaf", &[], leaf),
        bind("mid", &["leaf"], mid),
        bind("root", &["mid"], root),
    ])
    .unwrap();
    let r = c.resolve(&key("root")).unwrap();
    let leaf_direct = c.resolve(&key("leaf")).unwrap();
    let mid_of_root = match &*r {
        Node::Inner(deps) => deps[0].clone(),
        Node::Leaf => panic!("root has a dependency"),
    };
    let leaf_of_mid = match &*mid_of_root {
        Node::Inner(deps) => deps[0].clone(),
        Node::Leaf => panic!("mid has a dependency"),
    };
    assert!(Arc::ptr_eq(&leaf_of_mid, &leaf_direct));
    assert!(matches!(*leaf_direct, Node::Leaf));
}

#[test]
fn dependencies_are_handed_over_in_declared_order() {
    let (x, _) = counted(0);
    let (y, _) = counted(0);
    let (top, _) = counted(0);
    let mut c = Container::new(vec![bind("x", &[], x), bind("y", &[], y), bind("top", &["y", "x"], top)]).unwrap();
    let t = c.resolve(&key("top")).unwrap();
    let xd = c.resolve(&key("x")).unwrap();
    let yd = c.resolve(&key("y")).unwrap();
    match &*t {
        Node::Inner(deps) => {
            assert_eq!(deps.len(), 2);
            assert!(Arc::ptr_eq(&deps[0], &yd));
            assert!(Arc::ptr_eq(&deps[1], &xd));
        }
        Node::Leaf => panic!("top has dependencies"),
    }
}

#[test]
fn duplicate_registration_rejected() {
    let (a, _) = counted(0);
    let (b, _) = counted(0);
    match Container::new(vec![bind("k", &[], a), bind("k", &[], b)]) {
        Err(BuildError::DuplicateBinding(k)) => assert_eq!(k.name, "k"),
        Ok(_) => panic!("expected a duplicate binding"),
    }
}

#[test]
fn same_name_two_capabilities_accepted() {
    let (a, _) = counted(0);
    let (b, _) = counted(0);
    let k2 = ServiceKey::new("Other".to_string(), "k".to_string());
    let c = Container::new(vec![bind("k", &[], a), Binding::new(k2, vec![], b)]);
    assert!(c.is_ok());
}

#[test]
fn empty_container_knows_nothing() {
    let mut c: Container<Node, Counted> = Container::new(vec![]).unwrap();
    assert!(matches!(c.resolve(&key("k")), Err(ResolveError::UnknownKey(_))));
}
