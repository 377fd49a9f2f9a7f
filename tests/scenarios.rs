use ocedeclare::binding::{Binding, EventIndex, EventVariable, ObjectIndex, ObjectVariable, Variable};
use ocedeclare::constraint::{Constraint, SizeFilter, ViolationReason};
use ocedeclare::expand::BindingBox;
use ocedeclare::filter::{Filter, ObjectValueFilterTimepoint, ValueFilter};
use ocedeclare::ocel::{
    link_ocel_info, AttributeValue, Event, EventAttribute, IndexLinkedOCEL, Object, ObjectAttribute,
    Relationship, Timestamp, OCEL,
};
use ocedeclare::tree::{evaluate_box_tree, BindingBoxTree, BindingBoxTreeNode, EvaluationResult};

const SEC: i128 = 1_000_000_000;

fn event(id: &str, ty: &str, secs: i128, rels: &[(&str, &str)]) -> Event {
    Event {
        id: id.to_string(),
        event_type: ty.to_string(),
        time: Timestamp { nanos: secs * SEC },
        attributes: Vec::new(),
        relationships: rels
            .iter()
            .map(|(o, q)| Relationship { object_id: o.to_string(), qualifier: q.to_string() })
            .collect(),
    }
}

fn object(id: &str, ty: &str) -> Object {
    Object {
        id: id.to_string(),
        object_type: ty.to_string(),
        attributes: Vec::new(),
        relationships: Vec::new(),
    }
}

fn log(events: Vec<Event>, objects: Vec<Object>) -> IndexLinkedOCEL {
    link_ocel_info(OCEL { event_types: Vec::new(), object_types: Vec::new(), events, objects })
}

fn empty_box() -> BindingBox {
    BindingBox {
        new_event_vars: Vec::new(),
        new_object_vars: Vec::new(),
        filters: Vec::new(),
        size_filters: Vec::new(),
        constraints: Vec::new(),
    }
}

fn types(ts: &[&str]) -> Vec<String> {
    ts.iter().map(|t| t.to_string()).collect()
}

fn tree(nodes: Vec<BindingBoxTreeNode>, edges: Vec<((usize, usize), &str)>) -> BindingBoxTree {
    BindingBoxTree {
        nodes,
        edge_names: edges.into_iter().map(|(e, n)| (e, n.to_string())).collect(),
    }
}

fn ev_of(b: &Binding, v: usize) -> Option<usize> {
    b.get_ev_index(&EventVariable(v)).map(|e| e.0)
}

fn ob_of(b: &Binding, v: usize) -> Option<usize> {
    b.get_ob_index(&ObjectVariable(v)).map(|o| o.0)
}

fn of_node(rs: &[EvaluationResult], n: usize) -> Vec<&EvaluationResult> {
    rs.iter().filter(|r| r.0 == n).collect()
}

#[test]
fn single_event_binding() {
    let ocel = log(vec![event("e1", "place_order", 0, &[])], Vec::new());
    let mut bb = empty_box();
    bb.new_event_vars.push((EventVariable(0), types(&["place_order"])));
    let t = tree(vec![BindingBoxTreeNode::Box(bb, Vec::new())], Vec::new());
    let rs = t.evaluate(&ocel);
    assert_eq!(rs.len(), 1);
    assert_eq!(rs[0].0, 0);
    assert_eq!(ev_of(&rs[0].1, 0), Some(0));
    assert_eq!(rs[0].1.event_entries().len(), 1);
    assert_eq!(rs[0].1.object_entries().len(), 0);
    assert_eq!(rs[0].2, None);
}

fn o2e_tree(q: &str) -> BindingBoxTree {
    let mut bb = empty_box();
    bb.new_event_vars.push((EventVariable(0), types(&["deliver"])));
    bb.new_object_vars.push((ObjectVariable(0), types(&["Item"])));
    bb.filters.push(Filter::O2E {
        object: ObjectVariable(0),
        event: EventVariable(0),
        qualifier: Some(q.to_string()),
    });
    tree(vec![BindingBoxTreeNode::Box(bb, Vec::new())], Vec::new())
}

#[test]
fn o2e_filter_keeps_linked_pair() {
    let ocel = log(vec![event("e1", "deliver", 0, &[("o1", "item")])], vec![object("o1", "Item")]);
    let rs = o2e_tree("item").evaluate(&ocel);
    assert_eq!(rs.len(), 1);
    assert_eq!(ev_of(&rs[0].1, 0), Some(0));
    assert_eq!(ob_of(&rs[0].1, 0), Some(0));
    assert_eq!(rs[0].2, None);
}

#[test]
fn o2e_filter_other_qualifier_gives_nothing() {
    let ocel = log(vec![event("e1", "deliver", 0, &[("o1", "item")])], vec![object("o1", "Item")]);
    let rs = o2e_tree("box").evaluate(&ocel);
    assert_eq!(rs.len(), 0);
}

#[test]
fn time_between_events_keeps_forward_pair() {
    let ocel = log(vec![event("e1", "step", 0, &[]), event("e2", "step", 120, &[])], Vec::new());
    let mut bb = empty_box();
    bb.new_event_vars.push((EventVariable(0), types(&["step"])));
    bb.new_event_vars.push((EventVariable(1), types(&["step"])));
    bb.filters.push(Filter::TimeBetweenEvents {
        from_event: EventVariable(0),
        to_event: EventVariable(1),
        min_millis: Some(60_000),
        max_millis: Some(180_000),
    });
    let t = tree(vec![BindingBoxTreeNode::Box(bb, Vec::new())], Vec::new());
    let rs = t.evaluate(&ocel);
    assert_eq!(rs.len(), 1);
    assert_eq!(ev_of(&rs[0].1, 0), Some(0));
    assert_eq!(ev_of(&rs[0].1, 1), Some(1));
}

fn num_childs_setup() -> (IndexLinkedOCEL, BindingBoxTree) {
    let ocel = log(
        vec![
            event("pay_a", "pay", 1, &[("o1", "order")]),
            event("pay_b", "pay", 2, &[("o1", "order")]),
            event("pay_c", "pay", 3, &[("o2", "order")]),
        ],
        vec![object("o1", "Order"), object("o2", "Order")],
    );
    let mut root = empty_box();
    root.new_object_vars.push((ObjectVariable(0), types(&["Order"])));
    root.constraints.push(Constraint::SizeFilter {
        filter: SizeFilter::NumChilds { child_name: "pays".to_string(), min: Some(1), max: Some(1) },
    });
    let mut child = empty_box();
    child.new_event_vars.push((EventVariable(0), types(&["pay"])));
    child.filters.push(Filter::O2E { object: ObjectVariable(0), event: EventVariable(0), qualifier: None });
    let t = tree(
        vec![BindingBoxTreeNode::Box(root, vec![1]), BindingBoxTreeNode::Box(child, Vec::new())],
        vec![((0, 1), "pays")],
    );
    (ocel, t)
}

#[test]
fn num_childs_violated_by_two_payments() {
    let (ocel, t) = num_childs_setup();
    let rs = t.evaluate(&ocel);
    let roots = of_node(&rs, 0);
    assert_eq!(roots.len(), 2);
    let o1 = roots.iter().find(|r| ob_of(&r.1, 0) == Some(0)).unwrap();
    assert_eq!(o1.2, Some(ViolationReason::ConstraintNotSatisfied(0)));
}

#[test]
fn num_childs_satisfied_by_one_payment() {
    let (ocel, t) = num_childs_setup();
    let rs = t.evaluate(&ocel);
    let roots = of_node(&rs, 0);
    let o2 = roots.iter().find(|r| ob_of(&r.1, 0) == Some(1)).unwrap();
    assert_eq!(o2.2, None);
    assert_eq!(of_node(&rs, 1).len(), 3);
}

#[test]
fn num_childs_child_results_come_before_parent() {
    let (ocel, t) = num_childs_setup();
    let rs = t.evaluate(&ocel);
    // per root binding: its children's results, then its own
    assert_eq!(rs.len(), 5);
    assert_eq!(rs[0].0, 1);
    assert_eq!(rs[1].0, 1);
    assert_eq!(rs[2].0, 0);
    assert_eq!(rs[3].0, 1);
    assert_eq!(rs[4].0, 0);
}

#[test]
fn or_with_one_satisfied_branch() {
    let ocel = log(vec![event("e1", "a", 0, &[])], Vec::new());
    let mut failing = empty_box();
    failing.constraints.push(Constraint::Filter {
        filter: Filter::EventAttributeValueFilter {
            event: EventVariable(9),
            attribute_name: "missing".to_string(),
            value_filter: ValueFilter::Boolean { is_true: true },
        },
    });
    let t = tree(
        vec![
            BindingBoxTreeNode::OR(1, 2),
            BindingBoxTreeNode::Box(empty_box(), Vec::new()),
            BindingBoxTreeNode::Box(failing, Vec::new()),
        ],
        Vec::new(),
    );
    let rs = t.evaluate(&ocel);
    assert_eq!(rs.len(), 3);
    assert_eq!(rs[0].0, 1);
    assert!(rs[0].1.same_as(&Binding::new()));
    assert_eq!(rs[0].2, None);
    assert_eq!(rs[1].0, 2);
    assert_eq!(rs[1].2, Some(ViolationReason::ChildNotSatisfied));
    assert_eq!(rs[2].0, 0);
    assert_eq!(rs[2].2, None);
}

fn projection_setup(right_item: &str) -> (IndexLinkedOCEL, BindingBoxTree) {
    let ocel = log(
        vec![event("l1", "left_ev", 0, &[("i1", "x")]), event("r1", "right_ev", 1, &[(right_item, "x")])],
        vec![object("i1", "Item"), object("i2", "Item")],
    );
    let mut root = empty_box();
    root.constraints.push(Constraint::SizeFilter {
        filter: SizeFilter::BindingSetProjectionEqual {
            child_name_with_var_name: vec![
                ("left".to_string(), Variable::Object(ObjectVariable(0))),
                ("right".to_string(), Variable::Object(ObjectVariable(0))),
            ],
        },
    });
    let mut left = empty_box();
    left.new_event_vars.push((EventVariable(0), types(&["left_ev"])));
    left.new_object_vars.push((ObjectVariable(0), types(&["Item"])));
    left.filters.push(Filter::O2E { object: ObjectVariable(0), event: EventVariable(0), qualifier: None });
    let mut right = empty_box();
    right.new_event_vars.push((EventVariable(1), types(&["right_ev"])));
    right.new_object_vars.push((ObjectVariable(0), types(&["Item"])));
    right.filters.push(Filter::O2E { object: ObjectVariable(0), event: EventVariable(1), qualifier: None });
    let t = tree(
        vec![
            BindingBoxTreeNode::Box(root, vec![1, 2]),
            BindingBoxTreeNode::Box(left, Vec::new()),
            BindingBoxTreeNode::Box(right, Vec::new()),
        ],
        vec![((0, 1), "left"), ((0, 2), "right")],
    );
    (ocel, t)
}

#[test]
fn projection_equal_when_same_items() {
    let (ocel, t) = projection_setup("i1");
    let rs = t.evaluate(&ocel);
    let roots = of_node(&rs, 0);
    assert_eq!(roots.len(), 1);
    assert_eq!(roots[0].2, None);
}

#[test]
fn projection_unequal_when_other_items() {
    let (ocel, t) = projection_setup("i2");
    let rs = t.evaluate(&ocel);
    let roots = of_node(&rs, 0);
    assert_eq!(roots.len(), 1);
    assert_eq!(roots[0].2, Some(ViolationReason::ConstraintNotSatisfied(0)));
}

#[test]
fn empty_tree_gives_no_results() {
    let ocel = log(vec![event("e1", "a", 0, &[])], Vec::new());
    let t = tree(Vec::new(), Vec::new());
    assert_eq!(t.evaluate(&ocel).len(), 0);
}

#[test]
fn dangling_child_is_refused() {
    let ocel = log(vec![event("e1", "a", 0, &[])], Vec::new());
    let t = tree(vec![BindingBoxTreeNode::NOT(5)], Vec::new());
    assert!(!t.children_in_range());
    assert!(evaluate_box_tree(&t, &ocel).is_none());
}

#[test]
fn evaluate_box_tree_matches_evaluate() {
    let (ocel, t) = num_childs_setup();
    let a = evaluate_box_tree(&t, &ocel).unwrap();
    let b = t.evaluate(&ocel);
    assert_eq!(a.len(), b.len());
    for (x, y) in a.iter().zip(b.iter()) {
        assert_eq!(x.0, y.0);
        assert!(x.1.same_as(&y.1));
        assert_eq!(x.2, y.2);
    }
}

#[test]
fn size_filter_drops_binding_but_keeps_child_results() {
    let (ocel, mut t) = num_childs_setup();
    if let BindingBoxTreeNode::Box(root, _) = &mut t.nodes[0] {
        root.constraints.clear();
        root.size_filters.push(SizeFilter::NumChilds { child_name: "pays".to_string(), min: Some(2), max: None });
    }
    let rs = t.evaluate(&ocel);
    assert_eq!(of_node(&rs, 0).len(), 1);
    assert_eq!(of_node(&rs, 1).len(), 3);
}

#[test]
fn later_edge_name_wins() {
    let t = tree(
        vec![BindingBoxTreeNode::Box(empty_box(), vec![1]), BindingBoxTreeNode::Box(empty_box(), Vec::new())],
        vec![((0, 1), "first"), ((0, 1), "second")],
    );
    assert_eq!(t.edge_name(0, 1), "second");
    assert_eq!(t.edge_name(0, 7), "UNNAMED - 7");
    assert_eq!(t.edge_name(3, 12), "UNNAMED - 12");
}

#[test]
fn not_node_desugars_with_unnamed_label() {
    let (bb, ch) = BindingBoxTreeNode::NOT(3).to_box();
    assert_eq!(ch, vec![3]);
    assert_eq!(bb.constraints.len(), 1);
    match &bb.constraints[0] {
        Constraint::NOT { child_names } => assert_eq!(child_names, &vec!["UNNAMED - 3".to_string()]),
        _ => panic!("expected a NOT constraint"),
    }
    let (bb2, ch2) = BindingBoxTreeNode::AND(10, 2).to_box();
    assert_eq!(ch2, vec![10, 2]);
    match &bb2.constraints[0] {
        Constraint::AND { child_names } => {
            assert_eq!(child_names, &vec!["UNNAMED - 10".to_string(), "UNNAMED - 2".to_string()])
        }
        _ => panic!("expected an AND constraint"),
    }
}

#[test]
fn and_node_violated_when_one_child_violated() {
    let ocel = log(vec![event("e1", "a", 0, &[])], Vec::new());
    let mut failing = empty_box();
    failing.constraints.push(Constraint::SAT { child_names: Vec::new() });
    let t = tree(
        vec![
            BindingBoxTreeNode::AND(1, 2),
            BindingBoxTreeNode::Box(empty_box(), Vec::new()),
            BindingBoxTreeNode::Box(failing, Vec::new()),
        ],
        Vec::new(),
    );
    let rs = t.evaluate(&ocel);
    assert_eq!(rs[2].0, 0);
    assert_eq!(rs[2].2, Some(ViolationReason::ConstraintNotSatisfied(0)));
}

#[test]
fn not_node_violated_when_child_violated() {
    let ocel = log(vec![event("e1", "a", 0, &[])], Vec::new());
    let mut failing = empty_box();
    failing.constraints.push(Constraint::SAT { child_names: Vec::new() });
    let t = tree(vec![BindingBoxTreeNode::NOT(1), BindingBoxTreeNode::Box(failing, Vec::new())], Vec::new());
    let rs = t.evaluate(&ocel);
    assert_eq!(rs.len(), 2);
    assert_eq!(rs[1].0, 0);
    assert_eq!(rs[1].2, Some(ViolationReason::ConstraintNotSatisfied(0)));
}

#[test]
fn not_node_satisfied_when_child_satisfied() {
    let ocel = log(vec![event("e1", "a", 0, &[])], Vec::new());
    let t = tree(vec![BindingBoxTreeNode::NOT(1), BindingBoxTreeNode::Box(empty_box(), Vec::new())], Vec::new());
    let rs = t.evaluate(&ocel);
    assert_eq!(rs.len(), 2);
    assert_eq!(rs[1].0, 0);
    assert_eq!(rs[1].2, None);
}

#[test]
fn unknown_child_name_counts_as_no_outcomes() {
    let ocel = log(vec![event("e1", "a", 0, &[])], Vec::new());
    let mut bb = empty_box();
    bb.constraints.push(Constraint::OR { child_names: vec!["nowhere".to_string()] });
    bb.constraints.push(Constraint::AND { child_names: vec!["nowhere".to_string()] });
    bb.constraints.push(Constraint::SAT { child_names: vec!["nowhere".to_string()] });
    bb.constraints.push(Constraint::NOT { child_names: vec!["nowhere".to_string()] });
    let t = tree(vec![BindingBoxTreeNode::Box(bb, Vec::new())], Vec::new());
    let rs = t.evaluate(&ocel);
    assert_eq!(rs.len(), 1);
    assert_eq!(rs[0].2, None);
}

#[test]
fn filter_constraint_over_unbound_variable_aborts_binding() {
    let ocel = log(vec![event("e1", "a", 0, &[])], Vec::new());
    let mut bb = empty_box();
    bb.new_event_vars.push((EventVariable(0), types(&["a"])));
    bb.constraints.push(Constraint::AND { child_names: Vec::new() });
    bb.constraints.push(Constraint::Filter {
        filter: Filter::TimeBetweenEvents {
            from_event: EventVariable(0),
            to_event: EventVariable(3),
            min_millis: None,
            max_millis: None,
        },
    });
    let t = tree(vec![BindingBoxTreeNode::Box(bb, Vec::new())], Vec::new());
    let rs = t.evaluate(&ocel);
    assert_eq!(rs.len(), 1);
    assert_eq!(rs[0].2, Some(ViolationReason::ChildNotSatisfied));
}

#[test]
fn first_failing_constraint_is_reported() {
    let ocel = log(vec![event("e1", "a", 0, &[])], Vec::new());
    let mut bb = empty_box();
    bb.constraints.push(Constraint::AND { child_names: Vec::new() });
    bb.constraints.push(Constraint::SAT { child_names: Vec::new() });
    bb.constraints.push(Constraint::OR { child_names: Vec::new() });
    let t = tree(vec![BindingBoxTreeNode::Box(bb, Vec::new())], Vec::new());
    let rs = t.evaluate(&ocel);
    assert_eq!(rs.len(), 1);
    assert_eq!(rs[0].2, Some(ViolationReason::ConstraintNotSatisfied(1)));
}

#[test]
fn expansion_order_and_types_once() {
    let ocel = log(
        vec![event("a1", "a", 0, &[]), event("b1", "b", 0, &[]), event("a2", "a", 0, &[])],
        Vec::new(),
    );
    let mut bb = empty_box();
    bb.new_event_vars.push((EventVariable(0), types(&["a", "b", "a"])));
    let out = bb.expand(vec![Binding::new()], &ocel);
    let got: Vec<Option<usize>> = out.iter().map(|b| ev_of(b, 0)).collect();
    assert_eq!(got, vec![Some(0), Some(2), Some(1)]);
}

#[test]
fn expansion_with_unbound_filter_variable_is_empty() {
    let ocel = log(vec![event("a1", "a", 0, &[])], Vec::new());
    let mut bb = empty_box();
    bb.new_event_vars.push((EventVariable(0), types(&["a"])));
    bb.filters.push(Filter::TimeBetweenEvents {
        from_event: EventVariable(0),
        to_event: EventVariable(4),
        min_millis: None,
        max_millis: None,
    });
    assert_eq!(bb.expand(vec![Binding::new()], &ocel).len(), 0);
}

#[test]
fn events_of_type_in_log_order() {
    let ocel = log(
        vec![event("a1", "a", 0, &[]), event("b1", "b", 0, &[]), event("a2", "a", 0, &[])],
        vec![object("o1", "X"), object("o2", "Y")],
    );
    assert_eq!(ocel.events_of_type(&"a".to_string()), vec![EventIndex(0), EventIndex(2)]);
    assert_eq!(ocel.events_of_type(&"c".to_string()), Vec::<EventIndex>::new());
    assert_eq!(ocel.objects_of_type(&"Y".to_string()), vec![ObjectIndex(1)]);
}

#[test]
fn binding_expand_replaces_and_sorts() {
    let b = Binding::new()
        .expand_with_ev(EventVariable(3), EventIndex(7))
        .expand_with_ev(EventVariable(1), EventIndex(5))
        .expand_with_ev(EventVariable(3), EventIndex(9))
        .expand_with_ob(ObjectVariable(2), ObjectIndex(4));
    assert_eq!(b.event_entries(), &vec![(1, 5), (3, 9)]);
    assert_eq!(b.object_entries(), &vec![(2, 4)]);
    assert_eq!(ev_of(&b, 2), None);
    let c = Binding::new()
        .expand_with_ev(EventVariable(1), EventIndex(5))
        .expand_with_ev(EventVariable(3), EventIndex(9))
        .expand_with_ob(ObjectVariable(2), ObjectIndex(4));
    assert!(b.same_as(&c));
}

#[test]
fn value_filter_kinds() {
    let int = ValueFilter::Integer { min: Some(1), max: Some(5) };
    assert!(int.check_value(&AttributeValue::Integer(1)));
    assert!(int.check_value(&AttributeValue::Integer(5)));
    assert!(!int.check_value(&AttributeValue::Integer(6)));
    assert!(!int.check_value(&AttributeValue::Float(Some(3))));
    let open = ValueFilter::Integer { min: None, max: None };
    assert!(open.check_value(&AttributeValue::Integer(i64::MIN)));
    let s = ValueFilter::String { is_in: vec!["x".to_string(), "y".to_string()] };
    assert!(s.check_value(&AttributeValue::String("y".to_string())));
    assert!(!s.check_value(&AttributeValue::String("z".to_string())));
    let b = ValueFilter::Boolean { is_true: false };
    assert!(b.check_value(&AttributeValue::Boolean(false)));
    assert!(!b.check_value(&AttributeValue::Boolean(true)));
    let f = ValueFilter::Float { min: Some(10), max: None };
    assert!(!f.check_value(&AttributeValue::Float(Some(9))));
    assert!(!f.check_value(&AttributeValue::Float(None)));
    assert!(!ValueFilter::Float { min: None, max: Some(10) }.check_value(&AttributeValue::Float(None)));
    assert!(ValueFilter::Float { min: None, max: None }.check_value(&AttributeValue::Float(None)));
    let t = ValueFilter::Time { from: Some(Timestamp { nanos: 10 }), to: Some(Timestamp { nanos: 20 }) };
    assert!(t.check_value(&AttributeValue::Time(Timestamp { nanos: 20 })));
    assert!(!t.check_value(&AttributeValue::Time(Timestamp { nanos: 21 })));
    assert!(!t.check_value(&AttributeValue::Null));
}

fn attr_log() -> IndexLinkedOCEL {
    let mut o = object("o1", "Item");
    let attr = |v: i64, secs: i128| ObjectAttribute {
        name: "price".to_string(),
        value: AttributeValue::Integer(v),
        time: Timestamp { nanos: secs * SEC },
    };
    o.attributes = vec![attr(10, 0), attr(30, 20), attr(20, 10), attr(25, 10)];
    let mut e = event("e1", "check", 15, &[]);
    e.attributes = vec![
        EventAttribute { name: "level".to_string(), value: AttributeValue::Integer(3) },
        EventAttribute { name: "level".to_string(), value: AttributeValue::Integer(100) },
    ];
    log(vec![e], vec![o])
}

fn attr_binding() -> Binding {
    Binding::new()
        .expand_with_ev(EventVariable(0), EventIndex(0))
        .expand_with_ob(ObjectVariable(0), ObjectIndex(0))
}

fn price_filter(at_time: ObjectValueFilterTimepoint, min: i64, max: i64) -> Filter {
    Filter::ObjectAttributeValueFilter {
        object: ObjectVariable(0),
        attribute_name: "price".to_string(),
        at_time,
        value_filter: ValueFilter::Integer { min: Some(min), max: Some(max) },
    }
}

#[test]
fn object_attribute_at_event_takes_latest_update() {
    let ocel = attr_log();
    let b = attr_binding();
    let at = ObjectValueFilterTimepoint::AtEvent { event: EventVariable(0) };
    // at t=15 the updates at t=0, t=10 (20) and t=10 (25) apply; the later-listed one at t=10 wins
    assert!(price_filter(at, 25, 25).check_binding(&b, &ocel));
    assert!(!price_filter(at, 20, 20).check_binding(&b, &ocel));
    assert!(!price_filter(at, 30, 30).check_binding(&b, &ocel));
}

#[test]
fn object_attribute_always_and_sometime() {
    let ocel = attr_log();
    let b = attr_binding();
    assert!(price_filter(ObjectValueFilterTimepoint::Always, 10, 30).check_binding(&b, &ocel));
    assert!(!price_filter(ObjectValueFilterTimepoint::Always, 11, 30).check_binding(&b, &ocel));
    assert!(price_filter(ObjectValueFilterTimepoint::Sometime, 30, 30).check_binding(&b, &ocel));
    assert!(!price_filter(ObjectValueFilterTimepoint::Sometime, 31, 40).check_binding(&b, &ocel));
}

#[test]
fn event_attribute_any_of_name() {
    let ocel = attr_log();
    let b = attr_binding();
    let f = |min: i64| Filter::EventAttributeValueFilter {
        event: EventVariable(0),
        attribute_name: "level".to_string(),
        value_filter: ValueFilter::Integer { min: Some(min), max: None },
    };
    assert!(f(3).check_binding(&b, &ocel));
    assert!(f(50).check_binding(&b, &ocel));
    assert!(!f(101).check_binding(&b, &ocel));
}

#[test]
fn time_between_rounds_toward_zero() {
    let mut e2 = event("e2", "s", 0, &[]);
    e2.time = Timestamp { nanos: -1_999_999 };
    let ocel = log(vec![event("e1", "s", 0, &[]), e2], Vec::new());
    let b = Binding::new()
        .expand_with_ev(EventVariable(0), EventIndex(0))
        .expand_with_ev(EventVariable(1), EventIndex(1));
    let within = |min: i64, max: i64| Filter::TimeBetweenEvents {
        from_event: EventVariable(0),
        to_event: EventVariable(1),
        min_millis: Some(min),
        max_millis: Some(max),
    };
    assert!(within(-1, -1).check_binding(&b, &ocel));
    assert!(!within(-2, -2).check_binding(&b, &ocel));
}

#[test]
fn involved_variables_listed_once() {
    let f = Filter::O2O { object: ObjectVariable(1), other_object: ObjectVariable(1), qualifier: None };
    assert_eq!(f.get_involved_variables(), vec![Variable::Object(ObjectVariable(1))]);
    let g = price_filter(ObjectValueFilterTimepoint::AtEvent { event: EventVariable(2) }, 0, 0);
    assert_eq!(
        g.get_involved_variables(),
        vec![Variable::Object(ObjectVariable(0)), Variable::Event(EventVariable(2))]
    );
}

#[test]
fn tree_variables_each_once() {
    let mut a = empty_box();
    a.new_event_vars.push((EventVariable(0), types(&["x"])));
    a.new_object_vars.push((ObjectVariable(4), types(&["y"])));
    let mut b = empty_box();
    b.new_event_vars.push((EventVariable(2), types(&["x"])));
    b.new_event_vars.push((EventVariable(0), types(&["x"])));
    let t = tree(
        vec![BindingBoxTreeNode::Box(a, vec![2]), BindingBoxTreeNode::NOT(2), BindingBoxTreeNode::Box(b, Vec::new())],
        Vec::new(),
    );
    assert_eq!(t.get_ev_vars(), vec![EventVariable(0), EventVariable(2)]);
    assert_eq!(t.get_ob_vars(), vec![ObjectVariable(4)]);
}

#[test]
fn binding_set_equal_on_children() {
    let ocel = log(vec![event("a1", "a", 0, &[]), event("a2", "a", 1, &[])], Vec::new());
    let mk = || {
        let mut c = empty_box();
        c.new_event_vars.push((EventVariable(0), types(&["a"])));
        c
    };
    let mut root = empty_box();
    root.constraints.push(Constraint::SizeFilter {
        filter: SizeFilter::BindingSetEqual { child_names: vec!["l".to_string(), "r".to_string()] },
    });
    let mut other = mk();
    other.filters.push(Filter::EventAttributeValueFilter {
        event: EventVariable(0),
        attribute_name: "none".to_string(),
        value_filter: ValueFilter::Boolean { is_true: true },
    });
    let same = tree(
        vec![BindingBoxTreeNode::Box(root.clone(), vec![1, 2]), BindingBoxTreeNode::Box(mk(), Vec::new()), BindingBoxTreeNode::Box(mk(), Vec::new())],
        vec![((0, 1), "l"), ((0, 2), "r")],
    );
    let rs = same.evaluate(&ocel);
    assert_eq!(of_node(&rs, 0)[0].2, None);
    let differ = tree(
        vec![BindingBoxTreeNode::Box(root, vec![1, 2]), BindingBoxTreeNode::Box(mk(), Vec::new()), BindingBoxTreeNode::Box(other, Vec::new())],
        vec![((0, 1), "l"), ((0, 2), "r")],
    );
    let rs = differ.evaluate(&ocel);
    assert_eq!(of_node(&rs, 0)[0].2, Some(ViolationReason::ConstraintNotSatisfied(0)));
}

#[test]
fn evaluation_is_repeatable() {
    let (ocel, t) = num_childs_setup();
    let a = t.evaluate(&ocel);
    let b = t.evaluate(&ocel);
    assert_eq!(a.len(), b.len());
    for (x, y) in a.iter().zip(b.iter()) {
        assert_eq!(x.0, y.0);
        assert!(x.1.same_as(&y.1));
        assert_eq!(x.2, y.2);
    }
}

#[test]
fn binding_text_lists_entries() {
    let b = Binding::new()
        .expand_with_ev(EventVariable(1), EventIndex(12))
        .expand_with_ev(EventVariable(0), EventIndex(3))
        .expand_with_ob(ObjectVariable(2), ObjectIndex(40));
    assert_eq!(
        b.to_text(),
        "Binding [\n\tEvents: { ev_0 => 3, ev_1 => 12 }\n\tObjects: { ob_2 => 40 }\n]"
    );
    assert_eq!(Binding::new().to_text(), "Binding [\n\tEvents: {  }\n\tObjects: {  }\n]");
}

#[test]
fn variable_names() {
    assert_eq!(EventVariable(0).to_text(), "ev_0");
    assert_eq!(ObjectVariable(305).to_text(), "ob_305");
    assert_eq!(EventVariable::from(7), EventVariable(7));
    assert_eq!(ObjectVariable::from(8), ObjectVariable(8));
}

#[test]
fn binding_gets_bound_entries() {
    let ocel = log(vec![event("e1", "a", 0, &[]), event("e2", "b", 3, &[])], vec![object("o1", "X")]);
    let b = Binding::new()
        .expand_with_ev(EventVariable(0), EventIndex(1))
        .expand_with_ev(EventVariable(1), EventIndex(9))
        .expand_with_ob(ObjectVariable(0), ObjectIndex(0));
    assert_eq!(b.get_ev(&EventVariable(0), &ocel).map(|e| e.id.clone()), Some("e2".to_string()));
    assert!(b.get_ev(&EventVariable(1), &ocel).is_none());
    assert!(b.get_ev(&EventVariable(2), &ocel).is_none());
    assert_eq!(b.get_ob(&ObjectVariable(0), &ocel).map(|o| o.id.clone()), Some("o1".to_string()));
}

#[test]
fn early_filter_gives_full_product_filtered() {
    let mut a1 = event("a1", "a", 0, &[]);
    a1.attributes = vec![EventAttribute { name: "ok".to_string(), value: AttributeValue::Boolean(true) }];
    let mut a2 = event("a2", "a", 0, &[]);
    a2.attributes = vec![EventAttribute { name: "ok".to_string(), value: AttributeValue::Boolean(false) }];
    let ocel = log(vec![a1, event("b1", "b", 0, &[]), a2, event("b2", "b", 0, &[])], Vec::new());
    let mut bb = empty_box();
    bb.new_event_vars.push((EventVariable(0), types(&["a"])));
    bb.new_event_vars.push((EventVariable(1), types(&["b"])));
    bb.filters.push(Filter::EventAttributeValueFilter {
        event: EventVariable(0),
        attribute_name: "ok".to_string(),
        value_filter: ValueFilter::Boolean { is_true: true },
    });
    let out = bb.expand(vec![Binding::new()], &ocel);
    let got: Vec<(Option<usize>, Option<usize>)> = out.iter().map(|b| (ev_of(b, 0), ev_of(b, 1))).collect();
    assert_eq!(got, vec![(Some(0), Some(1)), (Some(0), Some(3))]);
}

#[test]
fn desugared_or_gives_same_results() {
    let ocel = log(vec![event("e1", "a", 0, &[]), event("e2", "a", 1, &[])], Vec::new());
    let mut left = empty_box();
    left.new_event_vars.push((EventVariable(0), types(&["a"])));
    let mut right = empty_box();
    right.constraints.push(Constraint::SAT { child_names: Vec::new() });
    let sugared = tree(
        vec![
            BindingBoxTreeNode::OR(1, 2),
            BindingBoxTreeNode::Box(left.clone(), Vec::new()),
            BindingBoxTreeNode::Box(right.clone(), Vec::new()),
        ],
        Vec::new(),
    );
    let (bb, ch) = BindingBoxTreeNode::OR(1, 2).to_box();
    let plain = tree(
        vec![
            BindingBoxTreeNode::Box(bb, ch),
            BindingBoxTreeNode::Box(left, Vec::new()),
            BindingBoxTreeNode::Box(right, Vec::new()),
        ],
        Vec::new(),
    );
    let a = sugared.evaluate(&ocel);
    let b = plain.evaluate(&ocel);
    assert_eq!(a.len(), 4);
    assert_eq!(a.len(), b.len());
    for (x, y) in a.iter().zip(b.iter()) {
        assert_eq!(x.0, y.0);
        assert!(x.1.same_as(&y.1));
        assert_eq!(x.2, y.2);
    }
    assert_eq!(a[3].2, None);
}

#[test]
fn lookup_by_id() {
    let ocel = log(
        vec![event("e1", "a", 0, &[]), event("e2", "b", 0, &[])],
        vec![object("o1", "X"), object("o2", "Y")],
    );
    assert_eq!(ocel.ev_index_by_id(&"e2".to_string()), Some(EventIndex(1)));
    assert_eq!(ocel.ev_index_by_id(&"e9".to_string()), None);
    assert_eq!(ocel.ob_index_by_id(&"o1".to_string()), Some(ObjectIndex(0)));
    assert_eq!(ocel.ob_index_by_id(&"o9".to_string()), None);
}

#[test]
fn object_relations_per_type() {
    let mut a = object("o1", "Order");
    a.relationships = vec![
        Relationship { object_id: "i1".to_string(), qualifier: "contains".to_string() },
        Relationship { object_id: "i2".to_string(), qualifier: "contains".to_string() },
        Relationship { object_id: "c1".to_string(), qualifier: "placed_by".to_string() },
        Relationship { object_id: "missing".to_string(), qualifier: "ghost".to_string() },
    ];
    let mut b = object("o2", "Order");
    b.relationships = vec![Relationship { object_id: "i1".to_string(), qualifier: "contains".to_string() }];
    let ocel = log(
        Vec::new(),
        vec![a, b, object("i1", "Item"), object("i2", "Item"), object("c1", "Customer")],
    );
    let mut rels = ocel.object_rels_per_type(&"Order".to_string());
    rels.sort();
    assert_eq!(
        rels,
        vec![
            ("contains".to_string(), "Item".to_string()),
            ("placed_by".to_string(), "Customer".to_string()),
        ]
    );
    assert!(ocel.object_rels_per_type(&"Item".to_string()).is_empty());
}

#[test]
fn box_declaring_a_variable_twice_is_refused() {
    let ocel = log(vec![event("e1", "a", 0, &[])], Vec::new());
    let mut bb = empty_box();
    bb.new_event_vars.push((EventVariable(0), types(&["a"])));
    bb.new_event_vars.push((EventVariable(0), types(&["a"])));
    assert!(!bb.has_distinct_vars());
    let t = tree(vec![BindingBoxTreeNode::Box(bb, Vec::new())], Vec::new());
    assert!(t.children_in_range());
    assert!(!t.boxes_declare_distinct());
    assert!(evaluate_box_tree(&t, &ocel).is_none());
}
