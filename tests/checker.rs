use ocedeclare::constraint_checker::{
    check_with_tree, match_and_add_new_bindings, BoundValue, ConstraintType, DependencyType, NodeDependency,
    TreeNode, TreeNodeDependency,
};
use ocedeclare::ocel::{link_ocel_info, Event, IndexLinkedOCEL, Relationship, Timestamp, OCEL};

fn event(id: &str, ty: &str, secs: i128, rels: &[(&str, &str)]) -> Event {
    Event {
        id: id.to_string(),
        event_type: ty.to_string(),
        time: Timestamp { nanos: secs * 1_000_000_000 },
        attributes: Vec::new(),
        relationships: rels
            .iter()
            .map(|(o, q)| Relationship { object_id: o.to_string(), qualifier: q.to_string() })
            .collect(),
    }
}

fn dep(var: &str, kind: DependencyType, source_q: &str, target_q: &str) -> TreeNodeDependency {
    TreeNodeDependency {
        dependency: NodeDependency {
            source_qualifier: source_q.to_string(),
            target_qualifier: target_q.to_string(),
            object_type: "orders".to_string(),
            dependency_type: kind,
            variable_name: var.to_string(),
            constraint_type: ConstraintType::Response,
        },
        event_type: String::new(),
    }
}

fn shop_log() -> IndexLinkedOCEL {
    link_ocel_info(OCEL {
        event_types: vec!["place".to_string(), "pay".to_string()],
        object_types: vec!["orders".to_string()],
        events: vec![
            event("pl_a", "place", 0, &[("o1", "order")]),
            event("pl_b", "place", 5, &[("o2", "order"), ("o3", "order")]),
            event("pay_a", "pay", 10, &[("o1", "paid")]),
            event("pay_b", "pay", 11, &[("o1", "paid")]),
            event("pay_c", "pay", 1, &[("o2", "paid")]),
        ],
        objects: Vec::new(),
    })
}

#[test]
fn first_node_binds_from_each_event() {
    let ocel = shop_log();
    let place = TreeNode {
        event_type: "place".to_string(),
        parents: Vec::new(),
        children: vec![dep("o", DependencyType::Simple, "order", "paid")],
    };
    let b = match_and_add_new_bindings(None, &place, &ocel);
    assert_eq!(b.len(), 2);
    assert_eq!(b[0].0.past_events, vec!["pl_a".to_string()]);
    match &b[0].1[0] {
        (name, BoundValue::Single(v)) => {
            assert_eq!(name, "o");
            assert_eq!(v, "o1");
        }
        _ => panic!("expected a single value"),
    }
}

#[test]
fn exists_in_source_binds_each_object() {
    let ocel = shop_log();
    let place = TreeNode {
        event_type: "place".to_string(),
        parents: Vec::new(),
        children: vec![dep("o", DependencyType::ExistsInSource, "order", "paid")],
    };
    let b = match_and_add_new_bindings(None, &place, &ocel);
    assert_eq!(b.len(), 3);
}

#[test]
fn later_node_follows_time_and_links() {
    let ocel = shop_log();
    let place = TreeNode {
        event_type: "place".to_string(),
        parents: Vec::new(),
        children: vec![dep("o", DependencyType::Simple, "order", "paid")],
    };
    let pay = TreeNode {
        event_type: "pay".to_string(),
        parents: vec![dep("o", DependencyType::Simple, "order", "paid")],
        children: Vec::new(),
    };
    let first = match_and_add_new_bindings(None, &place, &ocel);
    let second = match_and_add_new_bindings(Some(first), &pay, &ocel);
    // o1 is paid twice after pl_a, a node without children keeps one; o2 is paid before pl_b
    assert_eq!(second.len(), 1);
    assert_eq!(second[0].0.past_events, vec!["pl_a".to_string(), "pay_a".to_string()]);
}

#[test]
fn check_with_tree_counts_bindings_per_node() {
    let ocel = shop_log();
    let place = TreeNode {
        event_type: "place".to_string(),
        parents: Vec::new(),
        children: vec![dep("o", DependencyType::Simple, "order", "paid")],
    };
    let lone = TreeNode { event_type: "pay".to_string(), parents: Vec::new(), children: Vec::new() };
    let pay = TreeNode {
        event_type: "pay".to_string(),
        parents: vec![dep("o", DependencyType::Simple, "order", "paid")],
        children: vec![dep("p", DependencyType::All, "paid", "x")],
    };
    assert_eq!(check_with_tree(vec![place, lone, pay], &ocel), vec![2, 2]);
    assert_eq!(check_with_tree(Vec::new(), &ocel), Vec::<usize>::new());
}
