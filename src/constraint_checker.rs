use vstd::prelude::*;

use crate::binding::EventIndex;
use crate::ocel::{event_indices_of_type, lemma_event_indices_valid, Event, IndexLinkedOCEL};
use crate::tree::par_map;

verus! {

/// How the objects an event is linked to become the value of a variable.
#[derive(Debug, Clone, Copy, PartialEq, Eq, Structural)]
pub enum DependencyType {
    /// The first linked object.
    Simple,
    /// All linked objects together.
    All,
    /// The first linked object.
    ExistsInTarget,
    /// Each linked object, one binding each.
    ExistsInSource,
}

#[derive(Debug, Clone, Copy, PartialEq, Eq, Structural)]
pub enum ConstraintType {
    Response,
    UnaryResponse,
    NonResponse,
}

/// The link between two event nodes: the variable they share and the
/// qualifiers through which the source and the target event reach its objects.
#[derive(Debug, Clone)]
pub struct NodeDependency {
    pub source_qualifier: String,
    pub target_qualifier: String,
    pub object_type: String,
    pub dependency_type: DependencyType,
    pub variable_name: String,
    pub constraint_type: ConstraintType,
}

#[derive(Debug, Clone)]
pub struct TreeNodeDependency {
    pub dependency: NodeDependency,
    pub event_type: String,
}

/// An event node: its type, the dependencies it reads and those it binds.
#[derive(Debug, Clone)]
pub struct TreeNode {
    pub event_type: String,
    pub parents: Vec<TreeNodeDependency>,
    pub children: Vec<TreeNodeDependency>,
}

/// The value of a variable: one object id, or several.
#[derive(Debug, Clone)]
pub enum BoundValue {
    Single(String),
    Multiple(Vec<String>),
}

/// The ids of the events matched so far, in order.
#[derive(Debug, Clone)]
pub struct AdditionalBindingInfo {
    pub past_events: Vec<String>,
}

/// Variable names with their values; where a name occurs twice, the later entry counts.
pub type VarBinding = Vec<(String, BoundValue)>;

pub type Bindings = Vec<(AdditionalBindingInfo, VarBinding)>;

/// The mathematical form of a bound value.
pub enum BoundView {
    Single(Seq<char>),
    Multiple(Seq<Seq<char>>),
}

/// The mathematical form of a binding: matched event ids, and variable values.
pub type StateView = (Seq<Seq<char>>, Seq<(Seq<char>, BoundView)>);

pub open spec fn strings_view(v: Seq<String>) -> Seq<Seq<char>> {
    v.map_values(|s: String| s@)
}

pub open spec fn bound_view(b: BoundValue) -> BoundView {
    match b {
        BoundValue::Single(s) => BoundView::Single(s@),
        BoundValue::Multiple(v) => BoundView::Multiple(strings_view(v@)),
    }
}

pub open spec fn var_binding_view(v: Seq<(String, BoundValue)>) -> Seq<(Seq<char>, BoundView)> {
    v.map_values(|e: (String, BoundValue)| (e.0@, bound_view(e.1)))
}

pub open spec fn state_view(s: (AdditionalBindingInfo, VarBinding)) -> StateView {
    (strings_view(s.0.past_events@), var_binding_view(s.1@))
}

pub open spec fn states_view(s: Seq<(AdditionalBindingInfo, VarBinding)>) -> Seq<StateView> {
    s.map_values(|x: (AdditionalBindingInfo, VarBinding)| state_view(x))
}

/// The value of variable `name`: the last entry of that name.
pub open spec fn lookup_var(vb: Seq<(Seq<char>, BoundView)>, name: Seq<char>) -> Option<BoundView>
    decreases vb.len(),
{
    if vb.len() == 0 {
        None
    } else if vb.last().0 == name {
        Some(vb.last().1)
    } else {
        lookup_var(vb.drop_last(), name)
    }
}

/// The event with id `id`: the last one in the log.
pub open spec fn event_by_id(evs: Seq<Event>, id: Seq<char>) -> Option<Event>
    decreases evs.len(),
{
    if evs.len() == 0 {
        None
    } else if evs.last().id@ == id {
        Some(evs.last())
    } else {
        event_by_id(evs.drop_last(), id)
    }
}

/// The event is linked to object `obj` through qualifier `q`.
pub open spec fn linked_through(ev: Event, obj: Seq<char>, q: Seq<char>) -> bool {
    exists|i: int|
        0 <= i < ev.relationships@.len() && ev.relationships@[i].object_id@ == obj
            && ev.relationships@[i].qualifier@ == q
}

/// The event is linked to every object of `vs` through `q`.
pub open spec fn all_linked_to(ev: Event, vs: Seq<Seq<char>>, q: Seq<char>) -> bool {
    forall|i: int| 0 <= i < vs.len() ==> linked_through(ev, #[trigger] vs[i], q)
}

/// The event is linked to some object of `vs` through `q`.
pub open spec fn some_linked_to(ev: Event, vs: Seq<Seq<char>>, q: Seq<char>) -> bool {
    exists|i: int| 0 <= i < vs.len() && linked_through(ev, #[trigger] vs[i], q)
}

/// The event agrees with a variable's value, as the dependency says. Several
/// values are read only by `All` (every one linked) and `ExistsInSource`
/// (some one linked); other kinds never match several values.
pub open spec fn bound_matches(bv: BoundView, dep: NodeDependency, ev: Event) -> bool {
    match bv {
        BoundView::Single(v) => linked_through(ev, v, dep.target_qualifier@),
        BoundView::Multiple(vs) => match dep.dependency_type {
            DependencyType::All => all_linked_to(ev, vs, dep.target_qualifier@),
            DependencyType::ExistsInSource => some_linked_to(ev, vs, dep.target_qualifier@),
            _ => false,
        },
    }
}

/// Each parent dependency's variable is bound, the last matched event does not
/// come after `ev`, and `ev` agrees with the variable's value.
pub open spec fn parents_allow(parents: Seq<TreeNodeDependency>, s: StateView, ev: Event, evs: Seq<Event>) -> bool {
    forall|i: int|
        0 <= i < parents.len() ==> match lookup_var(s.1, (#[trigger] parents[i]).dependency.variable_name@) {
            Some(bv) => s.0.len() > 0 && match event_by_id(evs, s.0.last()) {
                Some(prev) => prev.time.nanos <= ev.time.nanos && bound_matches(
                    bv,
                    parents[i].dependency,
                    ev,
                ),
                None => false,
            },
            None => false,
        }
}

/// Whether event `ev` continues binding `s` at this node: at the first node,
/// only the event the binding started from does.
pub open spec fn event_matches(node: TreeNode, initial: bool, s: StateView, ev: Event, evs: Seq<Event>) -> bool {
    if initial {
        s.0.len() > 0 && ev.id@ == s.0[0]
    } else {
        parents_allow(node.parents@, s, ev, evs)
    }
}

/// The candidates among the first `j` that continue `s`, in order.
pub open spec fn matching_events(
    node: TreeNode,
    initial: bool,
    s: StateView,
    cands: Seq<Event>,
    evs: Seq<Event>,
    j: nat,
) -> Seq<Event>
    decreases j,
{
    if j == 0 {
        Seq::empty()
    } else {
        let prev = matching_events(node, initial, s, cands, evs, (j - 1) as nat);
        if event_matches(node, initial, s, cands[j - 1], evs) {
            prev.push(cands[j - 1])
        } else {
            prev
        }
    }
}

/// The ids of the objects the event reaches through qualifier `q`, in order.
pub open spec fn linked_ids(rels: Seq<crate::ocel::Relationship>, q: Seq<char>) -> Seq<Seq<char>>
    decreases rels.len(),
{
    if rels.len() == 0 {
        Seq::empty()
    } else {
        let prev = linked_ids(rels.drop_last(), q);
        if rels.last().qualifier@ == q {
            prev.push(rels.last().object_id@)
        } else {
            prev
        }
    }
}

/// One single value for each id.
pub open spec fn singles(ids: Seq<Seq<char>>) -> Seq<BoundView> {
    ids.map_values(|id: Seq<char>| BoundView::Single(id))
}

/// The values a child dependency gives its variable from the matched event;
/// `None` when it needs a linked object and there is none.
pub open spec fn child_values(dep: NodeDependency, m: Event) -> Option<Seq<BoundView>> {
    let ids = linked_ids(m.relationships@, dep.source_qualifier@);
    match dep.dependency_type {
        DependencyType::All => Some(seq![BoundView::Multiple(ids)]),
        DependencyType::ExistsInSource => Some(singles(ids)),
        _ => if ids.len() > 0 {
            Some(seq![BoundView::Single(ids[0])])
        } else {
            None
        },
    }
}

/// Each state extended by each value of variable `name`: states in order, then values.
pub open spec fn with_each_value(ss: Seq<StateView>, name: Seq<char>, vals: Seq<BoundView>) -> Seq<StateView>
    decreases ss.len(),
{
    if ss.len() == 0 {
        Seq::empty()
    } else {
        with_each_value(ss.drop_last(), name, vals) + vals.map_values(
            |v: BoundView| (ss.last().0, ss.last().1.push((name, v))),
        )
    }
}

/// The states after the first `k` child dependencies: a variable bound in
/// `orig` is left as it is; `None` when some dependency finds no object.
pub open spec fn extend_children(
    children: Seq<TreeNodeDependency>,
    orig: Seq<(Seq<char>, BoundView)>,
    m: Event,
    start: Seq<StateView>,
    k: nat,
) -> Option<Seq<StateView>>
    decreases k,
{
    if k == 0 {
        Some(start)
    } else {
        match extend_children(children, orig, m, start, (k - 1) as nat) {
            None => None,
            Some(ss) => {
                let c = children[k - 1].dependency;
                if lookup_var(orig, c.variable_name@) is Some {
                    Some(ss)
                } else {
                    match child_values(c, m) {
                        None => None,
                        Some(vals) => Some(with_each_value(ss, c.variable_name@, vals)),
                    }
                }
            },
        }
    }
}

/// The states that binding `s` becomes with matched event `m`.
pub open spec fn states_for_event(node: TreeNode, initial: bool, s: StateView, m: Event) -> Seq<StateView> {
    let past = if initial {
        s.0
    } else {
        s.0.push(m.id@)
    };
    match extend_children(node.children@, s.1, m, seq![(past, s.1)], node.children@.len()) {
        Some(ss) => ss,
        None => Seq::empty(),
    }
}

/// The states for the first `j` matched events.
pub open spec fn states_for_events(node: TreeNode, initial: bool, s: StateView, ms: Seq<Event>, j: nat) -> Seq<
    StateView,
>
    decreases j,
{
    if j == 0 {
        Seq::empty()
    } else {
        states_for_events(node, initial, s, ms, (j - 1) as nat) + states_for_event(node, initial, s, ms[j - 1])
    }
}

/// How many matching events a binding goes on with: one at a node without
/// children, all of them otherwise.
pub open spec fn take_count(node: TreeNode, cands: Seq<Event>) -> nat {
    if node.children@.len() == 0 {
        1
    } else {
        cands.len()
    }
}

/// The states that binding `s` becomes at this node.
pub open spec fn states_for(node: TreeNode, initial: bool, s: StateView, cands: Seq<Event>, evs: Seq<Event>) -> Seq<
    StateView,
> {
    let all = matching_events(node, initial, s, cands, evs, cands.len());
    let ms = if all.len() <= take_count(node, cands) {
        all
    } else {
        all.subrange(0, take_count(node, cands) as int)
    };
    states_for_events(node, initial, s, ms, ms.len())
}

/// The states that the first `i` bindings become at this node.
pub open spec fn next_states(
    node: TreeNode,
    initial: bool,
    prev: Seq<StateView>,
    cands: Seq<Event>,
    evs: Seq<Event>,
    i: nat,
) -> Seq<StateView>
    decreases i,
{
    if i == 0 {
        Seq::empty()
    } else {
        next_states(node, initial, prev, cands, evs, (i - 1) as nat) + states_for(
            node,
            initial,
            prev[i - 1],
            cands,
            evs,
        )
    }
}

/// The log's events of type `t`, in log order.
pub open spec fn node_candidates(evs: Seq<Event>, t: Seq<char>) -> Seq<Event> {
    event_indices_of_type(evs, t).map_values(|e: EventIndex| evs[e.0 as int])
}

/// A binding for each candidate, holding its id as the one matched event.
pub open spec fn initial_states(cands: Seq<Event>) -> Seq<StateView> {
    cands.map_values(|ev: Event| (seq![ev.id@], Seq::<(Seq<char>, BoundView)>::empty()))
}

/// The bindings after a node: from the candidates at the first node, else
/// from the bindings before it.
pub open spec fn node_step(node: TreeNode, prev: Option<Seq<StateView>>, evs: Seq<Event>) -> Seq<StateView> {
    let cands = node_candidates(evs, node.event_type@);
    match prev {
        None => next_states(node, true, initial_states(cands), cands, evs, cands.len()),
        Some(p) => next_states(node, false, p, cands, evs, p.len()),
    }
}

/// The bindings and the number of bindings after each of the first `k` nodes
/// that have a parent or a child (the others are passed over).
pub open spec fn check_run(nodes: Seq<TreeNode>, evs: Seq<Event>, k: nat) -> (Option<Seq<StateView>>, Seq<nat>)
    decreases k,
{
    if k == 0 {
        (None, Seq::empty())
    } else {
        let (st, sizes) = check_run(nodes, evs, (k - 1) as nat);
        let node = nodes[k - 1];
        if node.children@.len() == 0 && node.parents@.len() == 0 {
            (st, sizes)
        } else {
            let ns = node_step(node, st, evs);
            (Some(ns), sizes.push(ns.len()))
        }
    }
}

pub open spec fn bounds_view(v: Seq<BoundValue>) -> Seq<BoundView> {
    v.map_values(|b: BoundValue| bound_view(b))
}

fn copy_strings(v: &Vec<String>) -> (r: Vec<String>)
    ensures
        strings_view(r@) == strings_view(v@),
{
    let mut r: Vec<String> = Vec::new();
    let mut i: usize = 0;
    while i < v.len()
        invariant
            i <= v@.len(),
            r@.len() == i,
            forall|k: int| 0 <= k < i ==> r@[k]@ == v@[k]@,
        decreases v.len() - i,
    {
        let c = v[i].clone();
        r.push(c);
        i = i + 1;
    }
    assert(strings_view(r@) =~= strings_view(v@));
    r
}

fn copy_bound(b: &BoundValue) -> (r: BoundValue)
    ensures
        bound_view(r) == bound_view(*b),
{
    match b {
        BoundValue::Single(s) => BoundValue::Single(s.clone()),
        BoundValue::Multiple(v) => BoundValue::Multiple(copy_strings(v)),
    }
}

fn copy_var_binding(v: &VarBinding) -> (r: VarBinding)
    ensures
        var_binding_view(r@) == var_binding_view(v@),
{
    let mut r: VarBinding = Vec::new();
    let mut i: usize = 0;
    while i < v.len()
        invariant
            i <= v@.len(),
            r@.len() == i,
            forall|k: int| 0 <= k < i ==> r@[k].0@ == v@[k].0@ && bound_view(r@[k].1) == bound_view(v@[k].1),
        decreases v.len() - i,
    {
        let name = v[i].0.clone();
        let e = (name, copy_bound(&v[i].1));
        r.push(e);
        i = i + 1;
    }
    assert(var_binding_view(r@) =~= var_binding_view(v@));
    r
}

fn copy_state(s: &(AdditionalBindingInfo, VarBinding)) -> (r: (AdditionalBindingInfo, VarBinding))
    ensures
        state_view(r) == state_view(*s),
{
    (AdditionalBindingInfo { past_events: copy_strings(&s.0.past_events) }, copy_var_binding(&s.1))
}

/// The position of the last event with id `id`.
fn find_event_by_id(evs: &Vec<Event>, id: &String) -> (r: Option<usize>)
    ensures
        match r {
            Some(i) => i < evs@.len() && event_by_id(evs@, id@) == Some(evs@[i as int]),
            None => event_by_id(evs@, id@) is None,
        },
{
    let mut k: usize = evs.len();
    assert(evs@.subrange(0, k as int) =~= evs@);
    while k > 0
        invariant
            k <= evs@.len(),
            event_by_id(evs@, id@) == event_by_id(evs@.subrange(0, k as int), id@),
        decreases k,
    {
        let ghost sub = evs@.subrange(0, k as int);
        assert(sub.drop_last() =~= evs@.subrange(0, k - 1));
        assert(sub.last() == evs@[k - 1]);
        if evs[k - 1].id == *id {
            return Some(k - 1);
        }
        k = k - 1;
    }
    None
}

/// The position of the last entry for variable `name`.
fn find_var(vb: &VarBinding, name: &String) -> (r: Option<usize>)
    ensures
        match r {
            Some(i) => i < vb@.len() && lookup_var(var_binding_view(vb@), name@) == Some(
                bound_view(vb@[i as int].1),
            ),
            None => lookup_var(var_binding_view(vb@), name@) is None,
        },
{
    let mut k: usize = vb.len();
    assert(var_binding_view(vb@).subrange(0, k as int) =~= var_binding_view(vb@));
    while k > 0
        invariant
            k <= vb@.len(),
            lookup_var(var_binding_view(vb@), name@) == lookup_var(
                var_binding_view(vb@).subrange(0, k as int),
                name@,
            ),
        decreases k,
    {
        let ghost sub = var_binding_view(vb@).subrange(0, k as int);
        assert(sub.drop_last() =~= var_binding_view(vb@).subrange(0, k - 1));
        assert(sub.last() == var_binding_view(vb@)[k - 1]);
        if vb[k - 1].0 == *name {
            return Some(k - 1);
        }
        k = k - 1;
    }
    None
}

fn is_linked_through(ev: &Event, obj: &String, q: &String) -> (r: bool)
    ensures
        r == linked_through(*ev, obj@, q@),
{
    let mut i: usize = 0;
    while i < ev.relationships.len()
        invariant
            i <= ev.relationships@.len(),
            forall|j: int|
                0 <= j < i ==> !(ev.relationships@[j].object_id@ == obj@ && ev.relationships@[j].qualifier@
                    == q@),
        decreases ev.relationships.len() - i,
    {
        if ev.relationships[i].object_id == *obj && ev.relationships[i].qualifier == *q {
            return true;
        }
        i = i + 1;
    }
    false
}

fn all_linked(ev: &Event, vs: &Vec<String>, q: &String) -> (r: bool)
    ensures
        r == all_linked_to(*ev, strings_view(vs@), q@),
{
    let mut i: usize = 0;
    while i < vs.len()
        invariant
            i <= vs@.len(),
            forall|j: int| 0 <= j < i ==> linked_through(*ev, #[trigger] strings_view(vs@)[j], q@),
        decreases vs.len() - i,
    {
        if !is_linked_through(ev, &vs[i], q) {
            assert(!linked_through(*ev, strings_view(vs@)[i as int], q@));
            return false;
        }
        i = i + 1;
    }
    true
}

fn some_linked(ev: &Event, vs: &Vec<String>, q: &String) -> (r: bool)
    ensures
        r == some_linked_to(*ev, strings_view(vs@), q@),
{
    let mut i: usize = 0;
    while i < vs.len()
        invariant
            i <= vs@.len(),
            forall|j: int| 0 <= j < i ==> !linked_through(*ev, #[trigger] strings_view(vs@)[j], q@),
        decreases vs.len() - i,
    {
        if is_linked_through(ev, &vs[i], q) {
            assert(linked_through(*ev, strings_view(vs@)[i as int], q@));
            return true;
        }
        i = i + 1;
    }
    false
}

fn bound_matches_exec(bv: &BoundValue, dep: &NodeDependency, ev: &Event) -> (r: bool)
    ensures
        r == bound_matches(bound_view(*bv), *dep, *ev),
{
    match bv {
        BoundValue::Single(v) => {
            let r = is_linked_through(ev, v, &dep.target_qualifier);
            assert(bound_view(*bv) == BoundView::Single(v@));
            r
        },
        BoundValue::Multiple(vs) => {
            assert(bound_view(*bv) == BoundView::Multiple(strings_view(vs@)));
            match dep.dependency_type {
                DependencyType::All => {
                    let r = all_linked(ev, vs, &dep.target_qualifier);
                    r
                },
                DependencyType::ExistsInSource => {
                    let r = some_linked(ev, vs, &dep.target_qualifier);
                    r
                },
                _ => false,
            }
        },
    }
}

fn event_matches_exec(
    node: &TreeNode,
    initial: bool,
    s: &(AdditionalBindingInfo, VarBinding),
    ev: &Event,
    evs: &Vec<Event>,
) -> (r: bool)
    ensures
        r == event_matches(*node, initial, state_view(*s), *ev, evs@),
{
    let ghost sv = state_view(*s);
    if initial {
        if s.0.past_events.len() == 0 {
            return false;
        }
        return ev.id == s.0.past_events[0];
    }
    let mut i: usize = 0;
    while i < node.parents.len()
        invariant
            i <= node.parents@.len(),
            sv == state_view(*s),
            !initial,
            forall|j: int|
                0 <= j < i ==> match lookup_var(sv.1, (#[trigger] node.parents@[j]).dependency.variable_name@) {
                    Some(bv) => sv.0.len() > 0 && match event_by_id(evs@, sv.0.last()) {
                        Some(prev) => prev.time.nanos <= ev.time.nanos && bound_matches(
                            bv,
                            node.parents@[j].dependency,
                            *ev,
                        ),
                        None => false,
                    },
                    None => false,
                },
        decreases node.parents.len() - i,
    {
        let dep = &node.parents[i].dependency;
        let ok = match find_var(&s.1, &dep.variable_name) {
            Some(vi) => {
                let n = s.0.past_events.len();
                if n == 0 {
                    false
                } else {
                    assert(sv.0.last() == s.0.past_events@[n - 1]@);
                    match find_event_by_id(evs, &s.0.past_events[n - 1]) {
                        Some(pi) => evs[pi].time.nanos <= ev.time.nanos && bound_matches_exec(&s.1[vi].1, dep, ev),
                        None => false,
                    }
                }
            },
            None => false,
        };
        if !ok {
            return false;
        }
        i = i + 1;
    }
    true
}

fn linked_ids_exec(rels: &Vec<crate::ocel::Relationship>, q: &String) -> (r: Vec<String>)
    ensures
        strings_view(r@) == linked_ids(rels@, q@),
{
    let mut r: Vec<String> = Vec::new();
    let mut i: usize = 0;
    while i < rels.len()
        invariant
            i <= rels@.len(),
            strings_view(r@) == linked_ids(rels@.subrange(0, i as int), q@),
        decreases rels.len() - i,
    {
        let ghost sub = rels@.subrange(0, i + 1);
        assert(sub.drop_last() =~= rels@.subrange(0, i as int));
        assert(sub.last() == rels@[i as int]);
        if rels[i].qualifier == *q {
            let ghost before = r@;
            r.push(rels[i].object_id.clone());
            assert(strings_view(r@) =~= strings_view(before).push(rels@[i as int].object_id@));
        }
        i = i + 1;
    }
    assert(rels@.subrange(0, rels@.len() as int) =~= rels@);
    r
}

fn child_values_exec(dep: &NodeDependency, m: &Event) -> (r: Option<Vec<BoundValue>>)
    ensures
        match r {
            Some(v) => child_values(*dep, *m) == Some(bounds_view(v@)),
            None => child_values(*dep, *m) is None,
        },
{
    let ids = linked_ids_exec(&m.relationships, &dep.source_qualifier);
    let ghost iv = linked_ids(m.relationships@, dep.source_qualifier@);
    match dep.dependency_type {
        DependencyType::All => {
            let r = vec![BoundValue::Multiple(ids)];
            assert(bounds_view(r@) =~= seq![BoundView::Multiple(iv)]);
            Some(r)
        },
        DependencyType::ExistsInSource => {
            let mut r: Vec<BoundValue> = Vec::new();
            let mut i: usize = 0;
            while i < ids.len()
                invariant
                    i <= ids@.len(),
                    strings_view(ids@) == iv,
                    r@.len() == i,
                    forall|k: int| 0 <= k < i ==> bound_view(r@[k]) == BoundView::Single(iv[k]),
                decreases ids.len() - i,
            {
                let c = ids[i].clone();
                assert(c@ == iv[i as int]);
                r.push(BoundValue::Single(c));
                i = i + 1;
            }
            assert(bounds_view(r@) =~= singles(iv));
            Some(r)
        },
        _ => {
            if ids.len() > 0 {
                let r = vec![BoundValue::Single(ids[0].clone())];
                assert(bounds_view(r@) =~= seq![BoundView::Single(iv[0])]);
                Some(r)
            } else {
                None
            }
        },
    }
}

fn with_each_value_exec(ss: &Bindings, name: &String, vals: &Vec<BoundValue>) -> (r: Bindings)
    ensures
        states_view(r@) == with_each_value(states_view(ss@), name@, bounds_view(vals@)),
{
    let ghost bv = bounds_view(vals@);
    let mut r: Bindings = Vec::new();
    let mut i: usize = 0;
    while i < ss.len()
        invariant
            i <= ss@.len(),
            bv == bounds_view(vals@),
            states_view(r@) == with_each_value(states_view(ss@).subrange(0, i as int), name@, bv),
        decreases ss.len() - i,
    {
        let ghost sub = states_view(ss@).subrange(0, i + 1);
        assert(sub.drop_last() =~= states_view(ss@).subrange(0, i as int));
        let ghost x = state_view(ss@[i as int]);
        assert(sub.last() == x);
        let ghost before = states_view(r@);
        let mut j: usize = 0;
        while j < vals.len()
            invariant
                i < ss@.len(),
                j <= vals@.len(),
                bv == bounds_view(vals@),
                x == state_view(ss@[i as int]),
                states_view(r@) == before + bv.subrange(0, j as int).map_values(
                    |v: BoundView| (x.0, x.1.push((name@, v))),
                ),
            decreases vals.len() - j,
        {
            let mut st = copy_state(&ss[i]);
            st.1.push((name.clone(), copy_bound(&vals[j])));
            let ghost prev = r@;
            r.push(st);
            proof {
                assert(state_view(st) == (x.0, x.1.push((name@, bv[j as int])))) by {
                    assert(var_binding_view(st.1@) =~= x.1.push((name@, bv[j as int])));
                }
                assert(states_view(r@) =~= states_view(prev).push(state_view(st)));
                assert(bv.subrange(0, j + 1).map_values(|v: BoundView| (x.0, x.1.push((name@, v))))
                    =~= bv.subrange(0, j as int).map_values(|v: BoundView| (x.0, x.1.push((name@, v)))).push(
                    (x.0, x.1.push((name@, bv[j as int]))),
                ));
            }
            j = j + 1;
        }
        assert(bv.subrange(0, bv.len() as int) =~= bv);
        i = i + 1;
    }
    assert(states_view(ss@).subrange(0, ss@.len() as int) =~= states_view(ss@));
    r
}

fn states_for_event_exec(
    node: &TreeNode,
    initial: bool,
    s: &(AdditionalBindingInfo, VarBinding),
    m: &Event,
) -> (r: Bindings)
    ensures
        states_view(r@) == states_for_event(*node, initial, state_view(*s), *m),
{
    let ghost sv = state_view(*s);
    let mut first = copy_state(s);
    if !initial {
        let ghost before = first.0.past_events@;
        first.0.past_events.push(m.id.clone());
        assert(strings_view(first.0.past_events@) =~= strings_view(before).push(m.id@));
    }
    let ghost past = if initial {
        sv.0
    } else {
        sv.0.push(m.id@)
    };
    let mut states: Bindings = vec![first];
    assert(states_view(states@) =~= seq![(past, sv.1)]);
    let mut k: usize = 0;
    while k < node.children.len()
        invariant
            k <= node.children@.len(),
            sv == state_view(*s),
            past == (if initial { sv.0 } else { sv.0.push(m.id@) }),
            extend_children(node.children@, sv.1, *m, seq![(past, sv.1)], k as nat) == Some(states_view(states@)),
        decreases node.children.len() - k,
    {
        let dep = &node.children[k].dependency;
        match find_var(&s.1, &dep.variable_name) {
            Some(_) => {},
            None => {
                match child_values_exec(dep, m) {
                    Some(vals) => {
                        states = with_each_value_exec(&states, &dep.variable_name, &vals);
                    },
                    None => {
                        proof {
                            lemma_extend_children_none(node.children@, sv.1, *m, seq![(past, sv.1)], (k + 1) as nat, node.children@.len());
                        }
                        let r: Bindings = Vec::new();
                        assert(states_view(r@) =~= Seq::<StateView>::empty());
                        return r;
                    },
                }
            },
        }
        k = k + 1;
    }
    states
}

/// The events at the given positions.
pub open spec fn events_at(evs: Seq<Event>, ps: Seq<usize>) -> Seq<Event> {
    ps.map_values(|p: usize| evs[p as int])
}

pub open spec fn opt_states_view(o: Option<Bindings>) -> Option<Seq<StateView>> {
    match o {
        Some(b) => Some(states_view(b@)),
        None => None,
    }
}

fn states_for_exec(
    node: &TreeNode,
    initial: bool,
    s: &(AdditionalBindingInfo, VarBinding),
    cidx: &Vec<EventIndex>,
    ocel: &IndexLinkedOCEL,
) -> (r: Bindings)
    requires
        forall|j: int| 0 <= j < cidx@.len() ==> (#[trigger] cidx@[j]).0 < ocel.events().len(),
    ensures
        states_view(r@) == states_for(
            *node,
            initial,
            state_view(*s),
            cidx@.map_values(|e: EventIndex| ocel.events()[e.0 as int]),
            ocel.events(),
        ),
{
    let ghost evs = ocel.events();
    let ghost cands = cidx@.map_values(|e: EventIndex| ocel.events()[e.0 as int]);
    let ghost sv = state_view(*s);
    let evs_vec = &ocel.ocel.events;
    let mut ms: Vec<usize> = Vec::new();
    let mut j: usize = 0;
    while j < cidx.len()
        invariant
            j <= cidx@.len(),
            evs == ocel.events(),
            evs_vec@ == evs,
            sv == state_view(*s),
            cands == cidx@.map_values(|e: EventIndex| ocel.events()[e.0 as int]),
            forall|k: int| 0 <= k < cidx@.len() ==> (#[trigger] cidx@[k]).0 < ocel.events().len(),
            forall|k: int| 0 <= k < ms@.len() ==> ms@[k] < evs.len(),
            events_at(evs, ms@) == matching_events(*node, initial, sv, cands, evs, j as nat),
        decreases cidx.len() - j,
    {
        let p = cidx[j].0;
        let ev = &evs_vec[p];
        assert(cands[j as int] == *ev);
        if event_matches_exec(node, initial, s, ev, evs_vec) {
            let ghost before = ms@;
            ms.push(p);
            assert(events_at(evs, ms@) =~= events_at(evs, before).push(*ev));
        }
        j = j + 1;
    }
    let n: usize = if node.children.len() == 0 { 1 } else { cidx.len() };
    assert(n == take_count(*node, cands));
    let ghost all = events_at(evs, ms@);
    if ms.len() > n {
        ms.truncate(n);
        assert(events_at(evs, ms@) =~= all.subrange(0, n as int));
    }
    let ghost msev = events_at(evs, ms@);
    let mut out: Bindings = Vec::new();
    let mut k: usize = 0;
    while k < ms.len()
        invariant
            k <= ms@.len(),
            evs == ocel.events(),
            evs_vec@ == evs,
            sv == state_view(*s),
            msev == events_at(evs, ms@),
            forall|q: int| 0 <= q < ms@.len() ==> ms@[q] < evs.len(),
            states_view(out@) == states_for_events(*node, initial, sv, msev, k as nat),
        decreases ms.len() - k,
    {
        let mut more = states_for_event_exec(node, initial, s, &evs_vec[ms[k]]);
        assert(msev[k as int] == evs_vec@[ms@[k as int] as int]);
        let ghost before = out@;
        let ghost more_v = more@;
        out.append(&mut more);
        assert(states_view(out@) =~= states_view(before) + states_view(more_v));
        k = k + 1;
    }
    out
}

/// The bindings after `node`: each earlier binding goes on with the events of
/// the node's type that continue it (one of them at a node without children),
/// and with the values that the node's child dependencies take from each. The
/// first node starts one binding from each event of its type.
pub fn match_and_add_new_bindings(
    prev_bindings_opt: Option<Bindings>,
    node: &TreeNode,
    ocel: &IndexLinkedOCEL,
) -> (r: Bindings)
    requires
        ocel.wf(),
    ensures
        states_view(r@) == node_step(*node, opt_states_view(prev_bindings_opt), ocel.events()),
{
    let ghost evs = ocel.events();
    let cidx = ocel.events_of_type(&node.event_type);
    let n_events = ocel.ocel.events.len();
    proof {
        lemma_event_indices_valid(evs, node.event_type@);
    }
    let ghost cands = cidx@.map_values(|e: EventIndex| ocel.events()[e.0 as int]);
    assert(cands =~= node_candidates(evs, node.event_type@));
    let initial = prev_bindings_opt.is_none();
    let prev = match prev_bindings_opt {
        Some(p) => p,
        None => {
            let mut first: Bindings = Vec::new();
            let mut j: usize = 0;
            while j < cidx.len()
                invariant
                    j <= cidx@.len(),
                    cands == cidx@.map_values(|e: EventIndex| ocel.events()[e.0 as int]),
                    forall|k: int| 0 <= k < cidx@.len() ==> (#[trigger] cidx@[k]).0 < ocel.events().len(),
                    first@.len() == j,
                    forall|k: int| 0 <= k < j ==> #[trigger] state_view(first@[k]) == (
                        seq![cands[k].id@],
                        Seq::<(Seq<char>, BoundView)>::empty(),
                    ),
                decreases cidx.len() - j,
            {
                let id = ocel.ocel.events[cidx[j].0].id.clone();
                let st = (AdditionalBindingInfo { past_events: vec![id] }, Vec::new());
                assert(strings_view(st.0.past_events@) =~= seq![cands[j as int].id@]);
                assert(var_binding_view(st.1@) =~= Seq::<(Seq<char>, BoundView)>::empty());
                first.push(st);
                j = j + 1;
            }
            assert(states_view(first@) =~= initial_states(cands));
            first
        },
    };
    let ghost pv = states_view(prev@);
    let ghost p0 = prev@;
    let n = prev.len();
    let f = |st: (AdditionalBindingInfo, VarBinding)| -> (r: Bindings)
        requires
            forall|k: int| 0 <= k < cidx@.len() ==> (#[trigger] cidx@[k]).0 < ocel.events().len(),
        ensures
            state_step_ok(*node, initial, st, cidx@.map_values(|e: EventIndex| ocel.events()[e.0 as int]), ocel.events(), r),
        { states_for_exec(node, initial, &st, &cidx, ocel) };
    let mut per = par_map(prev, f);
    let ghost per0 = per@;
    assert forall|j: int| 0 <= j < n implies state_step_ok(*node, initial, #[trigger] p0[j], cands, evs, per0[j]) by {
        assert(f.ensures((p0[j],), per0[j]));
    }
    // Take the per-binding results out in reverse, then again, to have them in order.
    let mut rev: Vec<Bindings> = Vec::new();
    while per.len() > 0
        invariant
            per0.len() == n,
            per@ == per0.subrange(0, per@.len() as int),
            rev@.len() + per@.len() == n,
            forall|j: int| 0 <= j < rev@.len() ==> rev@[j] == per0[n - 1 - j],
        decreases per.len(),
    {
        match per.pop() {
            Some(x) => rev.push(x),
            None => {},
        }
    }
    let ghost rev0 = rev@;
    let mut out: Bindings = Vec::new();
    let ghost mut i: nat = 0;
    while rev.len() > 0
        invariant
            rev0.len() == n,
            p0.len() == n,
            pv == states_view(p0),
            forall|j: int| 0 <= j < n ==> rev0[j] == per0[n - 1 - j],
            forall|j: int| 0 <= j < n ==> state_step_ok(*node, initial, #[trigger] p0[j], cands, evs, per0[j]),
            rev@ == rev0.subrange(0, rev@.len() as int),
            i + rev@.len() == n,
            states_view(out@) == next_states(*node, initial, pv, cands, evs, i),
        decreases rev.len(),
    {
        match rev.pop() {
            Some(x) => {
                let mut more = x;
                proof {
                    assert(more == per0[i as int]);
                    assert(state_step_ok(*node, initial, p0[i as int], cands, evs, per0[i as int]));
                    assert(pv[i as int] == state_view(p0[i as int]));
                }
                let ghost before = out@;
                let ghost more_v = more@;
                out.append(&mut more);
                proof {
                    assert(states_view(out@) =~= states_view(before) + states_view(more_v));
                    i = i + 1;
                }
            },
            None => {},
        }
    }
    out
}

/// `r` is what binding `s` becomes at `node`.
pub open spec fn state_step_ok(
    node: TreeNode,
    initial: bool,
    s: (AdditionalBindingInfo, VarBinding),
    cands: Seq<Event>,
    evs: Seq<Event>,
    r: Bindings,
) -> bool {
    states_view(r@) == states_for(node, initial, state_view(s), cands, evs)
}

/// Runs the nodes in order, each with a parent or a child continuing the
/// bindings of the one before, and gives the number of bindings after each.
pub fn check_with_tree(nodes: Vec<TreeNode>, ocel: &IndexLinkedOCEL) -> (r: Vec<usize>)
    requires
        ocel.wf(),
    ensures
        r@.map_values(|n: usize| n as nat) == check_run(nodes@, ocel.events(), nodes@.len()).1,
{
    let mut sizes: Vec<usize> = Vec::new();
    let mut bindings: Option<Bindings> = None;
    let mut i: usize = 0;
    while i < nodes.len()
        invariant
            i <= nodes@.len(),
            ocel.wf(),
            opt_states_view(bindings) == check_run(nodes@, ocel.events(), i as nat).0,
            sizes@.map_values(|n: usize| n as nat) == check_run(nodes@, ocel.events(), i as nat).1,
        decreases nodes.len() - i,
    {
        let node = &nodes[i];
        if node.children.len() == 0 && node.parents.len() == 0 {
            i = i + 1;
            continue;
        }
        let prev = bindings;
        let next = match_and_add_new_bindings(prev, node, ocel);
        let ghost before = sizes@;
        sizes.push(next.len());
        assert(sizes@.map_values(|n: usize| n as nat) =~= before.map_values(|n: usize| n as nat).push(
            states_view(next@).len(),
        ));
        bindings = Some(next);
        i = i + 1;
    }
    sizes
}

/// Once no object is found, the later child dependencies change nothing.
proof fn lemma_extend_children_none(
    children: Seq<TreeNodeDependency>,
    orig: Seq<(Seq<char>, BoundView)>,
    m: Event,
    start: Seq<StateView>,
    k: nat,
    n: nat,
)
    requires
        extend_children(children, orig, m, start, k) is None,
        k <= n,
    ensures
        extend_children(children, orig, m, start, n) is None,
    decreases n,
{
    if n > k {
        lemma_extend_children_none(children, orig, m, start, k, (n - 1) as nat);
    }
}

} // verus!
