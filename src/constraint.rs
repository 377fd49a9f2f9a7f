use vstd::prelude::*;

use crate::binding::{Binding, BindingView, Variable};
use crate::filter::{filter_holds, timestamps_in_range, within, Filter};
use crate::ocel::{Event, IndexLinkedOCEL, Object};

verus! {

/// Why a binding violates a node.
#[derive(Debug, Clone, Copy, PartialEq, Eq, Structural)]
pub enum ViolationReason {
    TooFewMatchingEvents(usize),
    TooManyMatchingEvents(usize),
    NoChildrenOfORSatisfied,
    LeftChildOfANDUnsatisfied,
    RightChildOfANDUnsatisfied,
    BothChildrenOfANDUnsatisfied,
    ChildrenOfNOTSatisfied,
    ChildNotSatisfied,
    /// The constraint at this position of the node's list failed.
    ConstraintNotSatisfied(usize),
    UnknownChildSet,
}

/// What a child reports for one of its bindings: the binding and its violation, if any.
pub type Outcome = (Binding, Option<ViolationReason>);

/// The outcomes of each child, under the child's edge name. Where a name occurs
/// twice, the later entry counts.
pub type ChildResults = Vec<(String, Vec<Outcome>)>;

/// The mathematical form of an outcome.
pub open spec fn outcome_view(o: Outcome) -> (BindingView, Option<ViolationReason>) {
    (o.0@, o.1)
}

pub open spec fn outcomes_view(s: Seq<Outcome>) -> Seq<(BindingView, Option<ViolationReason>)> {
    s.map_values(|o: Outcome| outcome_view(o))
}

/// The mathematical form of child results: edge names and outcomes.
pub open spec fn child_results_view(cr: Seq<(String, Vec<Outcome>)>) -> Seq<
    (Seq<char>, Seq<(BindingView, Option<ViolationReason>)>),
> {
    cr.map_values(|e: (String, Vec<Outcome>)| (e.0@, outcomes_view(e.1@)))
}

pub open spec fn names_view(names: Seq<String>) -> Seq<Seq<char>> {
    names.map_values(|n: String| n@)
}

/// The outcomes recorded under `name`: the last entry of that name counts.
pub open spec fn child_lookup(
    cr: Seq<(Seq<char>, Seq<(BindingView, Option<ViolationReason>)>)>,
    name: Seq<char>,
) -> Option<Seq<(BindingView, Option<ViolationReason>)>>
    decreases cr.len(),
{
    if cr.len() == 0 {
        None
    } else if cr.last().0 == name {
        Some(cr.last().1)
    } else {
        child_lookup(cr.drop_last(), name)
    }
}

/// Outcomes recorded twice under one name: the later record counts.
pub proof fn lemma_child_lookup_last_wins(
    cr: Seq<(Seq<char>, Seq<(BindingView, Option<ViolationReason>)>)>,
    name: Seq<char>,
    i: int,
)
    requires
        0 <= i < cr.len(),
        cr[i].0 == name,
        forall|j: int| i < j < cr.len() ==> cr[j].0 != name,
    ensures
        child_lookup(cr, name) == Some(cr[i].1),
    decreases cr.len(),
{
    if i < cr.len() - 1 {
        assert(cr[cr.len() - 1].0 != name);
        let rest = cr.drop_last();
        assert forall|j: int| i < j < rest.len() implies rest[j].0 != name by {
            assert(rest[j] == cr[j]);
        }
        lemma_child_lookup_last_wins(rest, name, i);
    } else {
        assert(cr.last() == cr[i]);
    }
}

/// Every binding in the child results is well formed.
pub open spec fn child_results_wf(cr: Seq<(String, Vec<Outcome>)>) -> bool {
    forall|i: int, j: int|
        0 <= i < cr.len() && 0 <= j < cr[i].1@.len() ==> (#[trigger] cr[i].1@[j]).0.wf()
}

/// The set of bindings among outcomes (their violations left aside).
pub open spec fn binding_set(outs: Seq<(BindingView, Option<ViolationReason>)>) -> Set<BindingView> {
    outcome_bindings(outs).to_set()
}

pub open spec fn outcome_bindings(outs: Seq<(BindingView, Option<ViolationReason>)>) -> Seq<BindingView> {
    outs.map_values(|o: (BindingView, Option<ViolationReason>)| o.0)
}

pub open spec fn outcome_projections(outs: Seq<(BindingView, Option<ViolationReason>)>, var: Variable) -> Seq<
    Option<usize>,
> {
    outs.map_values(|o: (BindingView, Option<ViolationReason>)| o.0.var_value(var))
}

/// The set of indices that the outcomes' bindings give `var` (`None` where it is unbound).
pub open spec fn projection_set(outs: Seq<(BindingView, Option<ViolationReason>)>, var: Variable) -> Set<
    Option<usize>,
> {
    outcome_projections(outs, var).to_set()
}

pub open spec fn has_violation(outs: Seq<(BindingView, Option<ViolationReason>)>) -> bool {
    exists|i: int| 0 <= i < outs.len() && outs[i].1 is Some
}

pub open spec fn all_satisfied(outs: Seq<(BindingView, Option<ViolationReason>)>) -> bool {
    forall|i: int| 0 <= i < outs.len() ==> outs[i].1 is None
}

/// A test on the outcomes of a node's children.
#[derive(Debug, Clone)]
pub enum SizeFilter {
    /// The child has between `min` and `max` outcomes (`None` leaves a side open).
    NumChilds { child_name: String, min: Option<usize>, max: Option<usize> },
    /// The children's outcomes hold the same set of bindings.
    BindingSetEqual { child_names: Vec<String> },
    /// The children's outcomes give each its variable the same set of indices.
    BindingSetProjectionEqual { child_name_with_var_name: Vec<(String, Variable)> },
}

pub open spec fn opt_usize(o: Option<usize>) -> Option<int> {
    match o {
        Some(x) => Some(x as int),
        None => None,
    }
}

/// Whether a size filter holds of the children's outcomes. A name with no
/// outcomes makes it fail; an empty list of names makes it hold.
pub open spec fn size_filter_holds(sf: SizeFilter, cr: Seq<(Seq<char>, Seq<(BindingView, Option<ViolationReason>)>)>) -> bool {
    match sf {
        SizeFilter::NumChilds { child_name, min, max } => match child_lookup(cr, child_name@) {
            Some(outs) => within(outs.len() as int, opt_usize(min), opt_usize(max)),
            None => false,
        },
        SizeFilter::BindingSetEqual { child_names } => {
            let names = child_names@;
            names.len() == 0 || ((forall|i: int|
                0 <= i < names.len() ==> child_lookup(cr, (#[trigger] names[i])@) is Some) && (forall|
                i: int,
            |
                0 <= i < names.len() ==> binding_set(child_lookup(cr, (#[trigger] names[i])@)->0)
                    == binding_set(child_lookup(cr, names[0]@)->0)))
        },
        SizeFilter::BindingSetProjectionEqual { child_name_with_var_name } => {
            let pairs = child_name_with_var_name@;
            pairs.len() == 0 || ((forall|i: int|
                0 <= i < pairs.len() ==> child_lookup(cr, (#[trigger] pairs[i]).0@) is Some) && (forall|
                i: int,
            |
                0 <= i < pairs.len() ==> projection_set(
                    child_lookup(cr, (#[trigger] pairs[i]).0@)->0,
                    pairs[i].1,
                ) == projection_set(child_lookup(cr, pairs[0].0@)->0, pairs[0].1)))
        },
    }
}

/// A requirement on a binding of a node, checked after its children.
#[allow(inconsistent_fields)]
#[derive(Debug, Clone)]
pub enum Constraint {
    Filter { filter: Filter },
    SizeFilter { filter: SizeFilter },
    /// Fails when each named child has a violated outcome.
    SAT { child_names: Vec<String> },
    /// Holds unless each named child has a violated outcome.
    NOT { child_names: Vec<String> },
    /// Holds when some named child has no violated outcome (a name without outcomes has none).
    OR { child_names: Vec<String> },
    /// Holds when no named child has a violated outcome (a name without outcomes has none).
    AND { child_names: Vec<String> },
}

/// Each named child has outcomes, and one of them is a violation.
pub open spec fn all_named_violated(names: Seq<Seq<char>>, cr: Seq<(Seq<char>, Seq<(BindingView, Option<ViolationReason>)>)>) -> bool {
    forall|i: int|
        0 <= i < names.len() ==> match #[trigger] child_lookup(cr, names[i]) {
            Some(outs) => has_violation(outs),
            None => false,
        }
}

/// None of the named child's outcomes is a violation; a name with no
/// outcomes recorded has none.
pub open spec fn child_satisfied(name: Seq<char>, cr: Seq<(Seq<char>, Seq<(BindingView, Option<ViolationReason>)>)>) -> bool {
    match child_lookup(cr, name) {
        Some(outs) => all_satisfied(outs),
        None => true,
    }
}

/// Some named child has no violated outcome.
pub open spec fn some_named_satisfied(names: Seq<Seq<char>>, cr: Seq<(Seq<char>, Seq<(BindingView, Option<ViolationReason>)>)>) -> bool {
    exists|i: int| 0 <= i < names.len() && #[trigger] child_satisfied(names[i], cr)
}

/// No named child has a violated outcome.
pub open spec fn every_named_satisfied(names: Seq<Seq<char>>, cr: Seq<(Seq<char>, Seq<(BindingView, Option<ViolationReason>)>)>) -> bool {
    forall|i: int| 0 <= i < names.len() ==> #[trigger] child_satisfied(names[i], cr)
}

/// Whether a constraint holds of binding `b`, given the children's outcomes.
pub open spec fn constraint_holds(
    c: Constraint,
    b: BindingView,
    cr: Seq<(Seq<char>, Seq<(BindingView, Option<ViolationReason>)>)>,
    evs: Seq<Event>,
    obs: Seq<Object>,
) -> bool {
    match c {
        Constraint::Filter { filter } => filter_holds(filter, b, evs, obs),
        Constraint::SizeFilter { filter } => size_filter_holds(filter, cr),
        Constraint::SAT { child_names } => !all_named_violated(names_view(child_names@), cr),
        Constraint::NOT { child_names } => !all_named_violated(names_view(child_names@), cr),
        Constraint::OR { child_names } => some_named_satisfied(names_view(child_names@), cr),
        Constraint::AND { child_names } => every_named_satisfied(names_view(child_names@), cr),
    }
}

/// An element is in the set of a sequence exactly when the sequence holds it.
pub proof fn lemma_in_set<A>(s: Seq<A>, x: A)
    ensures
        s.to_set().contains(x) <==> s.contains(x),
{
}

/// The position of the last entry named `name`, if any.
fn find_child(cr: &ChildResults, name: &String) -> (r: Option<usize>)
    ensures
        match r {
            Some(i) => i < cr.len() && child_lookup(child_results_view(cr@), name@) == Some(
                outcomes_view(cr@[i as int].1@),
            ),
            None => child_lookup(child_results_view(cr@), name@) is None,
        },
{
    let mut k: usize = cr.len();
    assert(child_results_view(cr@).subrange(0, k as int) =~= child_results_view(cr@));
    while k > 0
        invariant
            k <= cr.len(),
            child_lookup(child_results_view(cr@), name@) == child_lookup(
                child_results_view(cr@).subrange(0, k as int),
                name@,
            ),
        decreases k,
    {
        let ghost pre = child_results_view(cr@).subrange(0, k as int);
        assert(pre.drop_last() =~= child_results_view(cr@).subrange(0, k - 1));
        if cr[k - 1].0 == *name {
            assert(pre.last() == child_results_view(cr@)[k - 1]);
            return Some(k - 1);
        }
        k = k - 1;
    }
    None
}

fn outcome_has_violation(outs: &Vec<Outcome>) -> (r: bool)
    ensures
        r == has_violation(outcomes_view(outs@)),
{
    let mut i: usize = 0;
    while i < outs.len()
        invariant
            i <= outs.len(),
            forall|j: int| 0 <= j < i ==> outs@[j].1 is None,
        decreases outs.len() - i,
    {
        if outs[i].1.is_some() {
            assert(outcomes_view(outs@)[i as int].1 is Some);
            return true;
        }
        i = i + 1;
    }
    false
}

fn outcome_all_satisfied(outs: &Vec<Outcome>) -> (r: bool)
    ensures
        r == all_satisfied(outcomes_view(outs@)),
{
    let mut i: usize = 0;
    while i < outs.len()
        invariant
            i <= outs.len(),
            forall|j: int| 0 <= j < i ==> outs@[j].1 is None,
        decreases outs.len() - i,
    {
        if outs[i].1.is_some() {
            assert(outcomes_view(outs@)[i as int].1 is Some);
            return false;
        }
        i = i + 1;
    }
    true
}

/// Whether `x` is the binding of one of the outcomes.
fn holds_binding(outs: &Vec<Outcome>, x: &Binding) -> (r: bool)
    ensures
        r == binding_set(outcomes_view(outs@)).contains(x@),
{
    let ghost bs = outcome_bindings(outcomes_view(outs@));
    let mut i: usize = 0;
    while i < outs.len()
        invariant
            i <= outs.len(),
            bs == outcome_bindings(outcomes_view(outs@)),
            bs.len() == outs.len(),
            forall|j: int| 0 <= j < outs.len() ==> bs[j] == outs@[j].0@,
            forall|j: int| 0 <= j < i ==> outs@[j].0@ != x@,
        decreases outs.len() - i,
    {
        if outs[i].0.same_as(x) {
            assert(bs[i as int] == x@);
            assert(bs.contains(x@));
            proof {
                lemma_in_set(bs, x@);
            }
            return true;
        }
        i = i + 1;
    }
    proof {
        lemma_in_set(bs, x@);
    }
    false
}

/// Whether two lists of outcomes hold the same set of bindings.
fn same_binding_set(a: &Vec<Outcome>, b: &Vec<Outcome>) -> (r: bool)
    ensures
        r == (binding_set(outcomes_view(a@)) == binding_set(outcomes_view(b@))),
{
    let ghost sa = binding_set(outcomes_view(a@));
    let ghost sb = binding_set(outcomes_view(b@));
    let ghost qa = outcome_bindings(outcomes_view(a@));
    let ghost qb = outcome_bindings(outcomes_view(b@));
    let mut i: usize = 0;
    while i < a.len()
        invariant
            i <= a.len(),
            sa == binding_set(outcomes_view(a@)),
            sb == binding_set(outcomes_view(b@)),
            qa == outcome_bindings(outcomes_view(a@)),
            qa.len() == a.len(),
            forall|j: int| 0 <= j < a.len() ==> qa[j] == a@[j].0@,
            forall|j: int| 0 <= j < i ==> sb.contains(#[trigger] qa[j]),
        decreases a.len() - i,
    {
        let found = holds_binding(b, &a[i].0);
        assert(qa[i as int] == a@[i as int].0@);
        assert(sb == binding_set(outcomes_view(b@)));
        if !found {
            proof {
                lemma_in_set(qa, qa[i as int]);
                assert(qa.contains(qa[i as int]));
                assert(sa == qa.to_set());
                assert(!sb.contains(qa[i as int]));
            }
            return false;
        }
        i = i + 1;
    }
    let mut j: usize = 0;
    while j < b.len()
        invariant
            j <= b.len(),
            sa == binding_set(outcomes_view(a@)),
            sb == binding_set(outcomes_view(b@)),
            qb == outcome_bindings(outcomes_view(b@)),
            qb.len() == b.len(),
            forall|k: int| 0 <= k < b.len() ==> qb[k] == b@[k].0@,
            forall|k: int| 0 <= k < j ==> sa.contains(#[trigger] qb[k]),
        decreases b.len() - j,
    {
        let found = holds_binding(a, &b[j].0);
        assert(qb[j as int] == b@[j as int].0@);
        assert(sa == binding_set(outcomes_view(a@)));
        if !found {
            proof {
                lemma_in_set(qb, qb[j as int]);
                assert(qb.contains(qb[j as int]));
                assert(sb == qb.to_set());
                assert(!sa.contains(qb[j as int]));
            }
            return false;
        }
        j = j + 1;
    }
    assert forall|x: BindingView| sa.contains(x) <==> sb.contains(x) by {
        lemma_in_set(qa, x);
        lemma_in_set(qb, x);
        if sa.contains(x) {
            assert(qa.contains(x));
        }
        if sb.contains(x) {
            assert(qb.contains(x));
        }
    }
    assert(sa =~= sb);
    true
}

/// The indices that the outcomes' bindings give `var`, in order.
fn projections(outs: &Vec<Outcome>, var: &Variable) -> (r: Vec<Option<usize>>)
    requires
        forall|j: int| 0 <= j < outs@.len() ==> (#[trigger] outs@[j]).0.wf(),
    ensures
        r@ == outcome_projections(outcomes_view(outs@), *var),
{
    let mut r: Vec<Option<usize>> = Vec::new();
    let mut i: usize = 0;
    while i < outs.len()
        invariant
            i <= outs.len(),
            forall|j: int| 0 <= j < outs@.len() ==> (#[trigger] outs@[j]).0.wf(),
            r@.len() == i,
            forall|j: int| 0 <= j < i ==> r@[j] == outs@[j].0@.var_value(*var),
        decreases outs.len() - i,
    {
        r.push(outs[i].0.get_var_value(var));
        i = i + 1;
    }
    assert(r@ =~= outcome_projections(outcomes_view(outs@), *var));
    r
}

fn holds_value(v: &Vec<Option<usize>>, x: Option<usize>) -> (r: bool)
    ensures
        r == v@.contains(x),
{
    let mut i: usize = 0;
    while i < v.len()
        invariant
            i <= v.len(),
            forall|j: int| 0 <= j < i ==> v@[j] != x,
        decreases v.len() - i,
    {
        let same = match (v[i], x) {
            (Some(p), Some(q)) => p == q,
            (None, None) => true,
            _ => false,
        };
        if same {
            assert(v@[i as int] == x);
            return true;
        }
        i = i + 1;
    }
    false
}

fn same_value_set(a: &Vec<Option<usize>>, b: &Vec<Option<usize>>) -> (r: bool)
    ensures
        r == (a@.to_set() == b@.to_set()),
{
    let mut i: usize = 0;
    while i < a.len()
        invariant
            i <= a.len(),
            forall|j: int| 0 <= j < i ==> b@.contains(#[trigger] a@[j]),
        decreases a.len() - i,
    {
        if !holds_value(b, a[i]) {
            assert(a@.to_set().contains(a@[i as int]));
            return false;
        }
        i = i + 1;
    }
    let mut j: usize = 0;
    while j < b.len()
        invariant
            j <= b.len(),
            forall|k: int| 0 <= k < b.len() && k < j ==> a@.contains(#[trigger] b@[k]),
        decreases b.len() - j,
    {
        if !holds_value(a, b[j]) {
            assert(b@.to_set().contains(b@[j as int]));
            return false;
        }
        j = j + 1;
    }
    assert forall|x: Option<usize>| a@.to_set().contains(x) <==> b@.to_set().contains(x) by {
        if a@.contains(x) {
            let k = choose|k: int| 0 <= k < a@.len() && a@[k] == x;
            assert(b@.contains(a@[k]));
        }
        if b@.contains(x) {
            let k = choose|k: int| 0 <= k < b@.len() && b@[k] == x;
            assert(a@.contains(b@[k]));
        }
    }
    assert(a@.to_set() =~= b@.to_set());
    true
}

impl SizeFilter {
    /// Whether this size filter holds of the children's outcomes.
    pub fn check(&self, child_res: &ChildResults) -> (r: bool)
        requires
            child_results_wf(child_res@),
        ensures
            r == size_filter_holds(*self, child_results_view(child_res@)),
    {
        match self {
            SizeFilter::NumChilds { child_name, min, max } => match find_child(child_res, child_name) {
                Some(c) => {
                    let n = child_res[c].1.len();
                    let below = match min {
                        Some(m) => n < *m,
                        None => false,
                    };
                    let above = match max {
                        Some(m) => n > *m,
                        None => false,
                    };
                    !below && !above
                },
                None => false,
            },
            SizeFilter::BindingSetEqual { child_names } => check_binding_sets(child_names, child_res),
            SizeFilter::BindingSetProjectionEqual { child_name_with_var_name } => check_projection_sets(
                child_name_with_var_name,
                child_res,
            ),
        }
    }
}

fn check_binding_sets(names: &Vec<String>, cr: &ChildResults) -> (r: bool)
    ensures
        r == size_filter_holds((SizeFilter::BindingSetEqual { child_names: *names }), child_results_view(cr@)),
{
    if names.len() == 0 {
        return true;
    }
    let first = match find_child(cr, &names[0]) {
        Some(c) => c,
        None => return false,
    };
    let ghost s0 = binding_set(child_lookup(child_results_view(cr@), names@[0]@)->0);
    let mut i: usize = 1;
    while i < names.len()
        invariant
            1 <= i <= names.len(),
            first < cr.len(),
            child_lookup(child_results_view(cr@), names@[0]@) == Some(outcomes_view(cr@[first as int].1@)),
            s0 == binding_set(child_lookup(child_results_view(cr@), names@[0]@)->0),
            forall|j: int| 0 <= j < i ==> child_lookup(child_results_view(cr@), (#[trigger] names@[j])@) is Some,
            forall|j: int|
                0 <= j < i ==> binding_set(child_lookup(child_results_view(cr@), (#[trigger] names@[j])@)->0) == s0,
        decreases names.len() - i,
    {
        match find_child(cr, &names[i]) {
            Some(c) => {
                if !same_binding_set(&cr[first].1, &cr[c].1) {
                    return false;
                }
            },
            None => return false,
        }
        i = i + 1;
    }
    true
}

fn check_projection_sets(pairs: &Vec<(String, Variable)>, cr: &ChildResults) -> (r: bool)
    requires
        child_results_wf(cr@),
    ensures
        r == size_filter_holds(
            (SizeFilter::BindingSetProjectionEqual { child_name_with_var_name: *pairs }),
            child_results_view(cr@),
        ),
{
    if pairs.len() == 0 {
        return true;
    }
    let first = match find_child(cr, &pairs[0].0) {
        Some(c) => c,
        None => return false,
    };
    assert forall|j: int| 0 <= j < cr@[first as int].1@.len() implies (#[trigger] cr@[first as int].1@[j]).0.wf() by {}
    let first_set = projections(&cr[first].1, &pairs[0].1);
    let ghost s0 = projection_set(child_lookup(child_results_view(cr@), pairs@[0].0@)->0, pairs@[0].1);
    assert(first_set@.to_set() == s0);
    let mut i: usize = 1;
    while i < pairs.len()
        invariant
            1 <= i <= pairs.len(),
            child_results_wf(cr@),
            first_set@.to_set() == s0,
            s0 == projection_set(child_lookup(child_results_view(cr@), pairs@[0].0@)->0, pairs@[0].1),
            forall|j: int| 0 <= j < i ==> child_lookup(child_results_view(cr@), (#[trigger] pairs@[j]).0@) is Some,
            forall|j: int|
                0 <= j < i ==> projection_set(
                    child_lookup(child_results_view(cr@), (#[trigger] pairs@[j]).0@)->0,
                    pairs@[j].1,
                ) == s0,
        decreases pairs.len() - i,
    {
        match find_child(cr, &pairs[i].0) {
            Some(c) => {
                assert forall|j: int| 0 <= j < cr@[c as int].1@.len() implies (#[trigger] cr@[c as int].1@[j]).0.wf() by {}
                let other = projections(&cr[c].1, &pairs[i].1);
                if !same_value_set(&first_set, &other) {
                    return false;
                }
            },
            None => return false,
        }
        i = i + 1;
    }
    true
}

fn named_all_violated(names: &Vec<String>, cr: &ChildResults) -> (r: bool)
    ensures
        r == all_named_violated(names_view(names@), child_results_view(cr@)),
{
    let mut i: usize = 0;
    while i < names.len()
        invariant
            i <= names.len(),
            forall|j: int|
                0 <= j < i ==> match #[trigger] child_lookup(child_results_view(cr@), names_view(names@)[j]) {
                    Some(outs) => has_violation(outs),
                    None => false,
                },
        decreases names.len() - i,
    {
        let ok = match find_child(cr, &names[i]) {
            Some(c) => outcome_has_violation(&cr[c].1),
            None => false,
        };
        assert(names_view(names@)[i as int] == names@[i as int]@);
        if !ok {
            return false;
        }
        i = i + 1;
    }
    true
}

fn named_satisfied(name: &String, cr: &ChildResults) -> (r: bool)
    ensures
        r == child_satisfied(name@, child_results_view(cr@)),
{
    match find_child(cr, name) {
        Some(c) => outcome_all_satisfied(&cr[c].1),
        None => true,
    }
}

fn check_some_satisfied(names: &Vec<String>, cr: &ChildResults) -> (r: bool)
    ensures
        r == some_named_satisfied(names_view(names@), child_results_view(cr@)),
{
    let mut i: usize = 0;
    while i < names.len()
        invariant
            i <= names.len(),
            forall|j: int| 0 <= j < i ==> !#[trigger] child_satisfied(names_view(names@)[j], child_results_view(cr@)),
        decreases names.len() - i,
    {
        assert(names_view(names@)[i as int] == names@[i as int]@);
        if named_satisfied(&names[i], cr) {
            return true;
        }
        i = i + 1;
    }
    false
}

fn check_every_satisfied(names: &Vec<String>, cr: &ChildResults) -> (r: bool)
    ensures
        r == every_named_satisfied(names_view(names@), child_results_view(cr@)),
{
    let mut i: usize = 0;
    while i < names.len()
        invariant
            i <= names.len(),
            forall|j: int| 0 <= j < i ==> #[trigger] child_satisfied(names_view(names@)[j], child_results_view(cr@)),
        decreases names.len() - i,
    {
        assert(names_view(names@)[i as int] == names@[i as int]@);
        if !named_satisfied(&names[i], cr) {
            return false;
        }
        i = i + 1;
    }
    true
}

impl Constraint {
    /// Whether this constraint holds of binding `b`, given the children's outcomes.
    pub fn check(&self, b: &Binding, child_res: &ChildResults, ocel: &IndexLinkedOCEL) -> (r: bool)
        requires
            b.wf(),
            child_results_wf(child_res@),
            timestamps_in_range(ocel.events()),
        ensures
            r == constraint_holds(*self, b@, child_results_view(child_res@), ocel.events(), ocel.objects()),
    {
        match self {
            Constraint::Filter { filter } => filter.check_binding(b, ocel),
            Constraint::SizeFilter { filter } => filter.check(child_res),
            Constraint::SAT { child_names } => !named_all_violated(child_names, child_res),
            Constraint::NOT { child_names } => !named_all_violated(child_names, child_res),
            Constraint::OR { child_names } => check_some_satisfied(child_names, child_res),
            Constraint::AND { child_names } => check_every_satisfied(child_names, child_res),
        }
    }
}

} // verus!
