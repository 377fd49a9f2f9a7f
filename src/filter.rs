use vstd::prelude::*;

use itertools::Itertools;

use crate::binding::{Binding, BindingView, EventVariable, ObjectVariable, Variable};
use crate::ocel::{
    AttributeValue, Event, EventAttribute, IndexLinkedOCEL, Object, ObjectAttribute, Relationship,
    Timestamp,
};

verus! {

/// A test on one attribute value. Bounds are inclusive; `None` leaves a side open.
#[derive(Debug, Clone)]
pub enum ValueFilter {
    /// Bounds on the order keys of floating-point values.
    Float { min: Option<i64>, max: Option<i64> },
    Integer { min: Option<i64>, max: Option<i64> },
    Boolean { is_true: bool },
    String { is_in: Vec<String> },
    Time { from: Option<Timestamp>, to: Option<Timestamp> },
}

/// Which values of an object attribute a filter looks at.
#[derive(Debug, Clone, Copy)]
pub enum ObjectValueFilterTimepoint {
    /// Every value the attribute ever had.
    Always,
    /// Some value the attribute had.
    Sometime,
    /// The value the attribute had when the event bound to `event` happened.
    AtEvent { event: EventVariable },
}

/// A test on a binding.
#[derive(Debug, Clone)]
pub enum Filter {
    /// The event is linked to the object (through the qualifier, if one is given).
    O2E { object: ObjectVariable, event: EventVariable, qualifier: Option<String> },
    /// The first object is linked to the other (through the qualifier, if one is given).
    O2O { object: ObjectVariable, other_object: ObjectVariable, qualifier: Option<String> },
    /// The time from the first event to the second, in whole milliseconds
    /// (negative when the second comes first), lies within the bounds.
    TimeBetweenEvents {
        from_event: EventVariable,
        to_event: EventVariable,
        min_millis: Option<i64>,
        max_millis: Option<i64>,
    },
    /// The event has an attribute of that name that passes the value filter.
    EventAttributeValueFilter { event: EventVariable, attribute_name: String, value_filter: ValueFilter },
    /// The object's values of that attribute pass the value filter, as `at_time` says.
    ObjectAttributeValueFilter {
        object: ObjectVariable,
        attribute_name: String,
        at_time: ObjectValueFilterTimepoint,
        value_filter: ValueFilter,
    },
}

/// `v` lies within the inclusive bounds.
pub open spec fn within(v: int, min: Option<int>, max: Option<int>) -> bool {
    !(min is Some && v < min->0) && !(max is Some && v > max->0)
}

pub open spec fn opt_i64(o: Option<i64>) -> Option<int> {
    match o {
        Some(x) => Some(x as int),
        None => None,
    }
}

pub open spec fn opt_time(o: Option<Timestamp>) -> Option<int> {
    match o {
        Some(t) => Some(t.nanos as int),
        None => None,
    }
}

/// Whether an attribute value passes a value filter; a value of another kind never does.
pub open spec fn value_matches(vf: ValueFilter, val: AttributeValue) -> bool {
    match vf {
        ValueFilter::Float { min, max } => match val {
            AttributeValue::Float(Some(k)) => within(k as int, opt_i64(min), opt_i64(max)),
            AttributeValue::Float(None) => min is None && max is None,
            _ => false,
        },
        ValueFilter::Integer { min, max } => match val {
            AttributeValue::Integer(v) => within(v as int, opt_i64(min), opt_i64(max)),
            _ => false,
        },
        ValueFilter::Boolean { is_true } => match val {
            AttributeValue::Boolean(b) => b == is_true,
            _ => false,
        },
        ValueFilter::String { is_in } => match val {
            AttributeValue::String(s) => exists|i: int| 0 <= i < is_in@.len() && is_in@[i]@ == s@,
            _ => false,
        },
        ValueFilter::Time { from, to } => match val {
            AttributeValue::Time(t) => within(t.nanos as int, opt_time(from), opt_time(to)),
            _ => false,
        },
    }
}

/// The relationship points at `target` and, where a qualifier is asked for, carries it.
pub open spec fn rel_matches(rel: Relationship, target: Seq<char>, q: Option<String>) -> bool {
    rel.object_id@ == target && match q {
        Some(q) => rel.qualifier@ == q@,
        None => true,
    }
}

pub open spec fn has_rel(rels: Seq<Relationship>, target: Seq<char>, q: Option<String>) -> bool {
    exists|i: int| 0 <= i < rels.len() && rel_matches(rels[i], target, q)
}

/// The event bound to `v`, when `v` is bound to a position of the log.
pub open spec fn bound_event(b: BindingView, v: EventVariable, evs: Seq<Event>) -> Option<Event> {
    match b.ev(v) {
        Some(i) => if i < evs.len() {
            Some(evs[i as int])
        } else {
            None
        },
        None => None,
    }
}

/// The object bound to `v`, when `v` is bound to a position of the log.
pub open spec fn bound_object(b: BindingView, v: ObjectVariable, obs: Seq<Object>) -> Option<Object> {
    match b.ob(v) {
        Some(i) => if i < obs.len() {
            Some(obs[i as int])
        } else {
            None
        },
        None => None,
    }
}

/// Whole milliseconds from `from` to `to`, rounded toward zero.
pub open spec fn millis_between(from: Timestamp, to: Timestamp) -> int {
    let d = to.nanos - from.nanos;
    if d >= 0 {
        d / 1_000_000
    } else {
        -((-d) / 1_000_000)
    }
}

/// Some attribute named `name` passes `vf`.
pub open spec fn some_named_matches(attrs: Seq<EventAttribute>, name: Seq<char>, vf: ValueFilter) -> bool {
    exists|i: int| 0 <= i < attrs.len() && attrs[i].name@ == name && value_matches(vf, attrs[i].value)
}

/// The attribute at `i` is named `name` and was set no later than `at`.
pub open spec fn set_by(attrs: Seq<ObjectAttribute>, name: Seq<char>, at: Timestamp, i: int) -> bool {
    0 <= i < attrs.len() && attrs[i].name@ == name && attrs[i].time.nanos <= at.nanos
}

/// The attribute at `i` is the latest value set no later than `at`: of those set
/// at the same latest time, the one listed last.
pub open spec fn is_latest(attrs: Seq<ObjectAttribute>, name: Seq<char>, at: Timestamp, i: int) -> bool {
    set_by(attrs, name, at, i) && forall|j: int|
        set_by(attrs, name, at, j) ==> attrs[j].time.nanos < attrs[i].time.nanos || (
        attrs[j].time.nanos == attrs[i].time.nanos && j <= i)
}

/// The latest value set no later than `at` passes `vf`.
pub open spec fn latest_matches(attrs: Seq<ObjectAttribute>, name: Seq<char>, at: Timestamp, vf: ValueFilter) -> bool {
    exists|i: int| #[trigger] is_latest(attrs, name, at, i) && value_matches(vf, attrs[i].value)
}

pub open spec fn object_values_match(
    attrs: Seq<ObjectAttribute>,
    name: Seq<char>,
    at_time: ObjectValueFilterTimepoint,
    vf: ValueFilter,
    b: BindingView,
    evs: Seq<Event>,
) -> bool {
    match at_time {
        ObjectValueFilterTimepoint::Always => forall|i: int|
            0 <= i < attrs.len() && attrs[i].name@ == name ==> value_matches(vf, attrs[i].value),
        ObjectValueFilterTimepoint::Sometime => exists|i: int|
            0 <= i < attrs.len() && attrs[i].name@ == name && value_matches(vf, attrs[i].value),
        ObjectValueFilterTimepoint::AtEvent { event } => match bound_event(b, event, evs) {
            Some(e) => latest_matches(attrs, name, e.time, vf),
            None => false,
        },
    }
}

/// Whether a filter holds of a binding. A variable that is not bound, or is
/// bound outside the log, makes it fail.
pub open spec fn filter_holds(f: Filter, b: BindingView, evs: Seq<Event>, obs: Seq<Object>) -> bool {
    match f {
        Filter::O2E { object, event, qualifier } => match (
            bound_object(b, object, obs),
            bound_event(b, event, evs),
        ) {
            (Some(o), Some(e)) => has_rel(e.relationships@, o.id@, qualifier),
            _ => false,
        },
        Filter::O2O { object, other_object, qualifier } => match (
            bound_object(b, object, obs),
            bound_object(b, other_object, obs),
        ) {
            (Some(o1), Some(o2)) => has_rel(o1.relationships@, o2.id@, qualifier),
            _ => false,
        },
        Filter::TimeBetweenEvents { from_event, to_event, min_millis, max_millis } => match (
            bound_event(b, from_event, evs),
            bound_event(b, to_event, evs),
        ) {
            (Some(e1), Some(e2)) => within(
                millis_between(e1.time, e2.time),
                opt_i64(min_millis),
                opt_i64(max_millis),
            ),
            _ => false,
        },
        Filter::EventAttributeValueFilter { event, attribute_name, value_filter } => match bound_event(
            b,
            event,
            evs,
        ) {
            Some(e) => some_named_matches(e.attributes@, attribute_name@, value_filter),
            None => false,
        },
        Filter::ObjectAttributeValueFilter { object, attribute_name, at_time, value_filter } =>
            match bound_object(b, object, obs) {
            Some(o) => object_values_match(
                o.attributes@,
                attribute_name@,
                at_time,
                value_filter,
                b,
                evs,
            ),
            None => false,
        },
    }
}

/// The variables a filter reads, each once.
pub open spec fn involved_vars(f: Filter) -> Seq<Variable> {
    match f {
        Filter::O2E { object, event, .. } => seq![Variable::Object(object), Variable::Event(event)],
        Filter::O2O { object, other_object, .. } => if object == other_object {
            seq![Variable::Object(object)]
        } else {
            seq![Variable::Object(object), Variable::Object(other_object)]
        },
        Filter::TimeBetweenEvents { from_event, to_event, .. } => if from_event == to_event {
            seq![Variable::Event(from_event)]
        } else {
            seq![Variable::Event(from_event), Variable::Event(to_event)]
        },
        Filter::EventAttributeValueFilter { event, .. } => seq![Variable::Event(event)],
        Filter::ObjectAttributeValueFilter { object, at_time, .. } => match at_time {
            ObjectValueFilterTimepoint::AtEvent { event } => seq![
                Variable::Object(object),
                Variable::Event(event),
            ],
            _ => seq![Variable::Object(object)],
        },
    }
}

/// Two bindings that agree on the variables a filter reads agree on the filter.
pub proof fn lemma_filter_local(f: Filter, b1: BindingView, b2: BindingView, evs: Seq<Event>, obs: Seq<Object>)
    requires
        forall|i: int|
            0 <= i < involved_vars(f).len() ==> b1.var_value(#[trigger] involved_vars(f)[i])
                == b2.var_value(involved_vars(f)[i]),
    ensures
        filter_holds(f, b1, evs, obs) == filter_holds(f, b2, evs, obs),
{
    let vs = involved_vars(f);
    assert(b1.var_value(vs[0]) == b2.var_value(vs[0]));
    if vs.len() > 1 {
        assert(b1.var_value(vs[1]) == b2.var_value(vs[1]));
    }
    match f {
        Filter::ObjectAttributeValueFilter { object, attribute_name, at_time, value_filter } => {
            match at_time {
                ObjectValueFilterTimepoint::AtEvent { event } => {
                    assert(bound_event(b1, event, evs) == bound_event(b2, event, evs));
                },
                _ => {},
            }
        },
        _ => {},
    }
}

/// Relies on `Itertools::sorted_by_key`, which sorts with std's stable
/// `slice::sort_by_key`: the same items, ordered by key, items with equal keys
/// in their earlier order (here: by their second component).
#[verifier::external_body]
fn sorted_by_time(items: Vec<(i128, usize)>) -> (r: Vec<(i128, usize)>)
    requires
        forall|i: int, j: int| 0 <= i < j < items.len() ==> items[i].1 < items[j].1,
    ensures
        r@.to_multiset() == items@.to_multiset(),
        forall|i: int, j: int|
            0 <= i < j < r.len() ==> r[i].0 < r[j].0 || (r[i].0 == r[j].0 && r[i].1 < r[j].1),
{
    items.into_iter().sorted_by_key(|x| x.0).collect()
}

fn opt_below(v: i64, bound: &Option<i64>) -> (r: bool)
    ensures
        r == (bound is Some && v < bound->0),
{
    match bound {
        Some(m) => v < *m,
        None => false,
    }
}

fn opt_above(v: i64, bound: &Option<i64>) -> (r: bool)
    ensures
        r == (bound is Some && v > bound->0),
{
    match bound {
        Some(m) => v > *m,
        None => false,
    }
}

fn contains_string(v: &Vec<String>, s: &String) -> (r: bool)
    ensures
        r == exists|i: int| 0 <= i < v@.len() && v@[i]@ == s@,
{
    let mut i: usize = 0;
    while i < v.len()
        invariant
            i <= v.len(),
            forall|j: int| 0 <= j < i ==> v@[j]@ != s@,
        decreases v.len() - i,
    {
        if v[i] == *s {
            return true;
        }
        i = i + 1;
    }
    false
}

impl ValueFilter {
    /// Whether `val` passes this filter.
    pub fn check_value(&self, val: &AttributeValue) -> (r: bool)
        ensures
            r == value_matches(*self, *val),
    {
        match self {
            ValueFilter::Float { min, max } => match val {
                AttributeValue::Float(Some(k)) => !opt_below(*k, min) && !opt_above(*k, max),
                AttributeValue::Float(None) => min.is_none() && max.is_none(),
                _ => false,
            },
            ValueFilter::Integer { min, max } => match val {
                AttributeValue::Integer(v) => !opt_below(*v, min) && !opt_above(*v, max),
                _ => false,
            },
            ValueFilter::Boolean { is_true } => match val {
                AttributeValue::Boolean(b) => *is_true == *b,
                _ => false,
            },
            ValueFilter::String { is_in } => match val {
                AttributeValue::String(s) => contains_string(is_in, s),
                _ => false,
            },
            ValueFilter::Time { from, to } => match val {
                AttributeValue::Time(t) => {
                    let below = match from {
                        Some(f) => t.nanos < f.nanos,
                        None => false,
                    };
                    let above = match to {
                        Some(u) => t.nanos > u.nanos,
                        None => false,
                    };
                    !below && !above
                },
                _ => false,
            },
        }
    }
}

fn has_relationship(rels: &Vec<Relationship>, target: &String, q: &Option<String>) -> (r: bool)
    ensures
        r == has_rel(rels@, target@, *q),
{
    let mut i: usize = 0;
    while i < rels.len()
        invariant
            i <= rels.len(),
            forall|j: int| 0 <= j < i ==> !rel_matches(rels@[j], target@, *q),
        decreases rels.len() - i,
    {
        let rel = &rels[i];
        let qual_ok = match q {
            Some(qs) => rel.qualifier == *qs,
            None => true,
        };
        if rel.object_id == *target && qual_ok {
            assert(rel_matches(rels@[i as int], target@, *q));
            return true;
        }
        i = i + 1;
    }
    false
}

/// Whole milliseconds from `from` to `to`, rounded toward zero.
fn millis_from_to(from: Timestamp, to: Timestamp) -> (r: i128)
    requires
        -0x4000_0000_0000_0000_0000_0000_0000_0000 <= from.nanos < 0x4000_0000_0000_0000_0000_0000_0000_0000,
        -0x4000_0000_0000_0000_0000_0000_0000_0000 <= to.nanos < 0x4000_0000_0000_0000_0000_0000_0000_0000,
    ensures
        r == millis_between(from, to),
{
    let d: i128 = to.nanos - from.nanos;
    if d >= 0 {
        d / 1_000_000
    } else {
        let n: i128 = -d;
        -(n / 1_000_000)
    }
}

/// Whether some event attribute named `name` passes `vf`.
fn some_event_attr_check(attrs: &Vec<EventAttribute>, name: &String, vf: &ValueFilter) -> (r: bool)
    ensures
        r == some_named_matches(attrs@, name@, *vf),
{
    let mut i: usize = 0;
    while i < attrs.len()
        invariant
            i <= attrs.len(),
            forall|j: int|
                0 <= j < i && attrs@[j].name@ == name@ ==> !value_matches(*vf, attrs@[j].value),
        decreases attrs.len() - i,
    {
        if attrs[i].name == *name && vf.check_value(&attrs[i].value) {
            return true;
        }
        i = i + 1;
    }
    false
}

fn all_named_check(attrs: &Vec<ObjectAttribute>, name: &String, vf: &ValueFilter) -> (r: bool)
    ensures
        r == forall|i: int|
            0 <= i < attrs@.len() && attrs@[i].name@ == name@ ==> value_matches(*vf, attrs@[i].value),
{
    let mut i: usize = 0;
    while i < attrs.len()
        invariant
            i <= attrs.len(),
            forall|j: int|
                0 <= j < i && attrs@[j].name@ == name@ ==> value_matches(*vf, attrs@[j].value),
        decreases attrs.len() - i,
    {
        if attrs[i].name == *name && !vf.check_value(&attrs[i].value) {
            return false;
        }
        i = i + 1;
    }
    true
}

fn some_named_check(attrs: &Vec<ObjectAttribute>, name: &String, vf: &ValueFilter) -> (r: bool)
    ensures
        r == exists|i: int|
            0 <= i < attrs@.len() && attrs@[i].name@ == name@ && value_matches(*vf, attrs@[i].value),
{
    let mut i: usize = 0;
    while i < attrs.len()
        invariant
            i <= attrs.len(),
            forall|j: int|
                0 <= j < i && attrs@[j].name@ == name@ ==> !value_matches(*vf, attrs@[j].value),
        decreases attrs.len() - i,
    {
        if attrs[i].name == *name && vf.check_value(&attrs[i].value) {
            return true;
        }
        i = i + 1;
    }
    false
}

/// The latest value of attribute `name` set no later than `at`, by position.
fn latest_before(attrs: &Vec<ObjectAttribute>, name: &String, at: Timestamp) -> (r: Option<usize>)
    ensures
        match r {
            Some(i) => is_latest(attrs@, name@, at, i as int),
            None => forall|j: int| !set_by(attrs@, name@, at, j),
        },
{
    let mut items: Vec<(i128, usize)> = Vec::new();
    let mut i: usize = 0;
    while i < attrs.len()
        invariant
            i <= attrs.len(),
            forall|k: int|
                0 <= k < items.len() ==> #[trigger] items@[k].1 < i && set_by(
                    attrs@,
                    name@,
                    at,
                    items@[k].1 as int,
                ) && items@[k].0 == attrs@[items@[k].1 as int].time.nanos,
            forall|k: int, l: int| 0 <= k < l < items.len() ==> items@[k].1 < items@[l].1,
            forall|j: int|
                0 <= j < i && set_by(attrs@, name@, at, j) ==> exists|k: int|
                    0 <= k < items.len() && #[trigger] items@[k].1 == j,
        decreases attrs.len() - i,
    {
        if attrs[i].name == *name && attrs[i].time.nanos <= at.nanos {
            let ghost before = items@;
            items.push((attrs[i].time.nanos, i));
            proof {
                assert forall|j: int|
                    0 <= j < i + 1 && set_by(attrs@, name@, at, j) implies exists|k: int|
                    0 <= k < items.len() && #[trigger] items@[k].1 == j by {
                    if j < i {
                        let k = choose|k: int| 0 <= k < before.len() && #[trigger] before[k].1 == j;
                        assert(items@[k] == before[k]);
                    } else {
                        assert(items@[before.len() as int].1 == j);
                    }
                }
            }
        }
        i = i + 1;
    }
    let ghost unsorted = items@;
    if items.len() == 0 {
        proof {
            assert forall|j: int| !set_by(attrs@, name@, at, j) by {
                if set_by(attrs@, name@, at, j) {
                    let k = choose|k: int| 0 <= k < items.len() && #[trigger] items@[k].1 == j;
                }
            }
        }
        return None;
    }
    let sorted = sorted_by_time(items);
    let n = sorted.len();
    proof {
        broadcast use vstd::seq_lib::group_to_multiset_ensures;

        assert(sorted@.len() == unsorted.len()) by {
            assert(sorted@.to_multiset().len() == unsorted.to_multiset().len());
        }
    }
    let last = sorted[n - 1];
    proof {
        broadcast use vstd::seq_lib::group_to_multiset_ensures;

        assert(sorted@.contains(last));
        assert(sorted@.to_multiset().count(last) > 0);
        assert(unsorted.to_multiset().count(last) > 0);
        assert(unsorted.contains(last));
        let kl = choose|k: int| 0 <= k < unsorted.len() && unsorted[k] == last;
        assert(unsorted[kl] == last);
        assert forall|j: int| set_by(attrs@, name@, at, j) implies attrs@[j].time.nanos
            < attrs@[last.1 as int].time.nanos || (attrs@[j].time.nanos == attrs@[
            last.1 as int].time.nanos && j <= last.1) by {
            let k = choose|k: int| 0 <= k < unsorted.len() && #[trigger] unsorted[k].1 == j;
            let x = unsorted[k];
            assert(unsorted.contains(x));
            assert(unsorted.to_multiset().count(x) > 0);
            assert(sorted@.to_multiset().count(x) > 0);
            assert(sorted@.contains(x));
            let p = choose|p: int| 0 <= p < sorted@.len() && sorted@[p] == x;
            if p < n - 1 {
                assert(sorted@[p].0 < sorted@[n - 1].0 || (sorted@[p].0 == sorted@[n - 1].0
                    && sorted@[p].1 < sorted@[n - 1].1));
            }
        }
    }
    Some(last.1)
}

fn check_o2e(
    b: &Binding,
    object: &ObjectVariable,
    event: &EventVariable,
    qualifier: &Option<String>,
    ocel: &IndexLinkedOCEL,
) -> (r: bool)
    requires
        b.wf(),
    ensures
        r == filter_holds(
            (Filter::O2E { object: *object, event: *event, qualifier: *qualifier }),
            b@,
            ocel.events(),
            ocel.objects(),
        ),
{
    let ob = match b.get_ob(object, ocel) {
        Some(o) => o,
        None => return false,
    };
    let ev = match b.get_ev(event, ocel) {
        Some(e) => e,
        None => return false,
    };
    has_relationship(&ev.relationships, &ob.id, qualifier)
}

fn check_o2o(
    b: &Binding,
    object: &ObjectVariable,
    other_object: &ObjectVariable,
    qualifier: &Option<String>,
    ocel: &IndexLinkedOCEL,
) -> (r: bool)
    requires
        b.wf(),
    ensures
        r == filter_holds(
            (Filter::O2O { object: *object, other_object: *other_object, qualifier: *qualifier }),
            b@,
            ocel.events(),
            ocel.objects(),
        ),
{
    let ob1 = match b.get_ob(object, ocel) {
        Some(o) => o,
        None => return false,
    };
    let ob2 = match b.get_ob(other_object, ocel) {
        Some(o) => o,
        None => return false,
    };
    has_relationship(&ob1.relationships, &ob2.id, qualifier)
}

fn check_time_between(
    b: &Binding,
    from_event: &EventVariable,
    to_event: &EventVariable,
    min_millis: &Option<i64>,
    max_millis: &Option<i64>,
    ocel: &IndexLinkedOCEL,
) -> (r: bool)
    requires
        b.wf(),
        timestamps_in_range(ocel.events()),
    ensures
        r == filter_holds(
            (Filter::TimeBetweenEvents {
                from_event: *from_event,
                to_event: *to_event,
                min_millis: *min_millis,
                max_millis: *max_millis,
            }),
            b@,
            ocel.events(),
            ocel.objects(),
        ),
{
    let e1 = match b.get_ev(from_event, ocel) {
        Some(e) => e,
        None => return false,
    };
    let e2 = match b.get_ev(to_event, ocel) {
        Some(e) => e,
        None => return false,
    };
    proof {
        let i1 = b@.ev(*from_event)->0 as int;
        let i2 = b@.ev(*to_event)->0 as int;
        assert(ocel.events()[i1].time == e1.time);
        assert(ocel.events()[i2].time == e2.time);
    }
    let d = millis_from_to(e1.time, e2.time);
    let below = match min_millis {
        Some(m) => d < *m as i128,
        None => false,
    };
    let above = match max_millis {
        Some(m) => d > *m as i128,
        None => false,
    };
    !below && !above
}

fn check_object_attribute(
    b: &Binding,
    object: &ObjectVariable,
    attribute_name: &String,
    at_time: &ObjectValueFilterTimepoint,
    value_filter: &ValueFilter,
    ocel: &IndexLinkedOCEL,
) -> (r: bool)
    requires
        b.wf(),
    ensures
        r == filter_holds(
            (Filter::ObjectAttributeValueFilter {
                object: *object,
                attribute_name: *attribute_name,
                at_time: *at_time,
                value_filter: *value_filter,
            }),
            b@,
            ocel.events(),
            ocel.objects(),
        ),
{
    let o = match b.get_ob(object, ocel) {
        Some(o) => o,
        None => return false,
    };
    match at_time {
        ObjectValueFilterTimepoint::Always => all_named_check(&o.attributes, attribute_name, value_filter),
        ObjectValueFilterTimepoint::Sometime => some_named_check(&o.attributes, attribute_name, value_filter),
        ObjectValueFilterTimepoint::AtEvent { event } => {
            let e = match b.get_ev(event, ocel) {
                Some(e) => e,
                None => return false,
            };
            match latest_before(&o.attributes, attribute_name, e.time) {
                Some(i) => {
                    let r = value_filter.check_value(&o.attributes[i].value);
                    proof {
                        let attrs = o.attributes@;
                        assert forall|k: int| #[trigger] is_latest(attrs, attribute_name@, e.time, k) implies k == i by {
                            assert(set_by(attrs, attribute_name@, e.time, i as int));
                            assert(set_by(attrs, attribute_name@, e.time, k));
                        }
                        assert(is_latest(attrs, attribute_name@, e.time, i as int));
                        assert(r == latest_matches(attrs, attribute_name@, e.time, *value_filter));
                    }
                    r
                },
                None => false,
            }
        },
    }
}

impl Filter {
    /// Whether this filter holds of binding `b` in `ocel`.
    pub fn check_binding(&self, b: &Binding, ocel: &IndexLinkedOCEL) -> (r: bool)
        requires
            b.wf(),
            timestamps_in_range(ocel.events()),
        ensures
            r == filter_holds(*self, b@, ocel.events(), ocel.objects()),
    {
        match self {
            Filter::O2E { object, event, qualifier } => check_o2e(b, object, event, qualifier, ocel),
            Filter::O2O { object, other_object, qualifier } => check_o2o(b, object, other_object, qualifier, ocel),
            Filter::TimeBetweenEvents { from_event, to_event, min_millis, max_millis } =>
                check_time_between(b, from_event, to_event, min_millis, max_millis, ocel),
            Filter::EventAttributeValueFilter { event, attribute_name, value_filter } => {
                match b.get_ev(event, ocel) {
                    Some(e) => some_event_attr_check(&e.attributes, attribute_name, value_filter),
                    None => false,
                }
            },
            Filter::ObjectAttributeValueFilter { object, attribute_name, at_time, value_filter } =>
                check_object_attribute(b, object, attribute_name, at_time, value_filter, ocel),
        }
    }

    /// The variables this filter reads, each once.
    pub fn get_involved_variables(&self) -> (r: Vec<Variable>)
        ensures
            r@ == involved_vars(*self),
    {
        let r = match self {
            Filter::O2E { object, event, .. } => vec![Variable::Object(*object), Variable::Event(*event)],
            Filter::O2O { object, other_object, .. } => if object.0 == other_object.0 {
                vec![Variable::Object(*object)]
            } else {
                vec![Variable::Object(*object), Variable::Object(*other_object)]
            },
            Filter::TimeBetweenEvents { from_event, to_event, .. } => if from_event.0 == to_event.0 {
                vec![Variable::Event(*from_event)]
            } else {
                vec![Variable::Event(*from_event), Variable::Event(*to_event)]
            },
            Filter::EventAttributeValueFilter { event, .. } => vec![Variable::Event(*event)],
            Filter::ObjectAttributeValueFilter { object, at_time, .. } => match at_time {
                ObjectValueFilterTimepoint::AtEvent { event } => vec![
                    Variable::Object(*object),
                    Variable::Event(*event),
                ],
                _ => vec![Variable::Object(*object)],
            },
        };
        assert(r@ =~= involved_vars(*self));
        r
    }
}

/// Every event time lies in the range that differences of times are taken in.
pub open spec fn timestamps_in_range(evs: Seq<Event>) -> bool {
    forall|i: int|
        0 <= i < evs.len() ==> -0x4000_0000_0000_0000_0000_0000_0000_0000 <= #[trigger] evs[i].time.nanos
            < 0x4000_0000_0000_0000_0000_0000_0000_0000
}

/// Whether every event time lies in the range that differences of times are taken in.
pub fn event_times_in_range(ocel: &IndexLinkedOCEL) -> (r: bool)
    ensures
        r == timestamps_in_range(ocel.events()),
{
    let evs = &ocel.ocel.events;
    let mut i: usize = 0;
    while i < evs.len()
        invariant
            i <= evs@.len(),
            evs@ == ocel.events(),
            forall|k: int|
                0 <= k < i ==> -0x4000_0000_0000_0000_0000_0000_0000_0000 <= #[trigger] evs@[k].time.nanos
                    < 0x4000_0000_0000_0000_0000_0000_0000_0000,
        decreases evs.len() - i,
    {
        let t = evs[i].time.nanos;
        if t < -0x4000_0000_0000_0000_0000_0000_0000_0000 || t >= 0x4000_0000_0000_0000_0000_0000_0000_0000 {
            return false;
        }
        i = i + 1;
    }
    true
}

impl Binding {
    /// The event that this binding binds `ev_var` to.
    pub fn get_ev<'a>(&self, ev_var: &EventVariable, ocel: &'a IndexLinkedOCEL) -> (r: Option<&'a Event>)
        requires
            self.wf(),
        ensures
            match r {
                Some(e) => bound_event(self@, *ev_var, ocel.events()) == Some(*e),
                None => bound_event(self@, *ev_var, ocel.events()) is None,
            },
    {
        match self.get_ev_index(ev_var) {
            Some(i) => ocel.ev_by_index(&i),
            None => None,
        }
    }

    /// The object that this binding binds `ob_var` to.
    pub fn get_ob<'a>(&self, ob_var: &ObjectVariable, ocel: &'a IndexLinkedOCEL) -> (r: Option<&'a Object>)
        requires
            self.wf(),
        ensures
            match r {
                Some(o) => bound_object(self@, *ob_var, ocel.objects()) == Some(*o),
                None => bound_object(self@, *ob_var, ocel.objects()) is None,
            },
    {
        match self.get_ob_index(ob_var) {
            Some(i) => ocel.ob_by_index(&i),
            None => None,
        }
    }
}

} // verus!
