use vstd::prelude::*;

use rayon::iter::{IntoParallelIterator, ParallelIterator};

use crate::binding::{empty_binding_view, Binding, BindingView, EventVariable, ObjectVariable};
use crate::constraint::{
    lemma_in_set,
    SizeFilter,
    all_named_violated, child_results_view, child_results_wf, constraint_holds, every_named_satisfied,
    outcomes_view, size_filter_holds, some_named_satisfied, ChildResults, Constraint, Outcome,
    ViolationReason,
};
use crate::expand::{all_wf, views, BindingBox};
use crate::filter::{event_times_in_range, involved_vars, timestamps_in_range};
use crate::text::{decimal, decimal_string};
use vstd::string::StringExecFns;
use crate::ocel::{Event, IndexLinkedOCEL, Object};

verus! {

/// A node of a binding box tree: a box with its children (by index), or a
/// composition of children that stands for a box with one constraint.
#[derive(Debug, Clone)]
pub enum BindingBoxTreeNode {
    Box(BindingBox, Vec<usize>),
    OR(usize, usize),
    AND(usize, usize),
    NOT(usize),
}

/// A tree of nodes, the root at index 0, with names for some parent-to-child edges.
/// Where an edge is named twice, the later name counts.
#[derive(Debug, Clone)]
pub struct BindingBoxTree {
    pub nodes: Vec<BindingBoxTreeNode>,
    pub edge_names: Vec<((usize, usize), String)>,
}

/// A node's index, one of its bindings, and the binding's violation, if any.
pub type EvaluationResult = (usize, Binding, Option<ViolationReason>);

pub type EvaluationResults = Vec<EvaluationResult>;

/// The mathematical form of an evaluation result.
pub type ResultView = (usize, BindingView, Option<ViolationReason>);

/// The mathematical form of child results.
pub type ChildView = Seq<(Seq<char>, Seq<(BindingView, Option<ViolationReason>)>)>;

pub open spec fn results_view(rs: Seq<EvaluationResult>) -> Seq<ResultView> {
    rs.map_values(|r: EvaluationResult| (r.0, r.1@, r.2))
}

pub open spec fn results_wf(rs: Seq<EvaluationResult>) -> bool {
    forall|i: int| 0 <= i < rs.len() ==> (#[trigger] rs[i]).1.wf()
}

pub open spec fn outcomes_wf(os: Seq<Outcome>) -> bool {
    forall|i: int| 0 <= i < os.len() ==> (#[trigger] os[i]).0.wf()
}

/// The name of an edge to child `c` that has no name of its own: `UNNAMED - c`.
pub open spec fn unnamed_label(c: usize) -> Seq<char> {
    seq!['U', 'N', 'N', 'A', 'M', 'E', 'D', ' ', '-', ' '] + decimal(c as nat)
}

/// The name of an edge to child `c` that has no name of its own.
fn unnamed_edge_name(c: usize) -> (r: String)
    ensures
        r@ == unnamed_label(c),
{
    let mut r = String::from_str("UNNAMED - ");
    let digits = decimal_string(c);
    r.append(digits.as_str());
    proof {
        reveal_strlit("UNNAMED - ");
        assert(r@ =~= unnamed_label(c));
    }
    r
}

/// The name of the edge from `p` to `c`: the last name given to it, else `UNNAMED - c`.
pub open spec fn edge_name_of(names: Seq<((usize, usize), String)>, p: usize, c: usize) -> Seq<char>
    decreases names.len(),
{
    if names.len() == 0 {
        unnamed_label(c)
    } else if names.last().0 == (p, c) {
        names.last().1@
    } else {
        edge_name_of(names.drop_last(), p, c)
    }
}

/// The children of a node, in order.
pub open spec fn node_children(n: BindingBoxTreeNode) -> Seq<usize> {
    match n {
        BindingBoxTreeNode::Box(_, ch) => ch@,
        BindingBoxTreeNode::OR(a, b) => seq![a, b],
        BindingBoxTreeNode::AND(a, b) => seq![a, b],
        BindingBoxTreeNode::NOT(a) => seq![a],
    }
}

/// The bindings a node admits under a parent binding; a composition adds no variable.
pub open spec fn node_expansion(n: BindingBoxTreeNode, parent: BindingView, evs: Seq<Event>, obs: Seq<Object>) -> Seq<
    BindingView,
> {
    match n {
        BindingBoxTreeNode::Box(bb, _) => bb.expansion(seq![parent], evs, obs),
        _ => seq![parent],
    }
}

/// Every size filter of the list holds.
pub open spec fn size_filters_hold(sfs: Seq<SizeFilter>, cr: ChildView) -> bool {
    forall|i: int| 0 <= i < sfs.len() ==> size_filter_holds(#[trigger] sfs[i], cr)
}

/// Every size filter of the node holds; a composition has none.
pub open spec fn node_size_ok(n: BindingBoxTreeNode, cr: ChildView) -> bool {
    match n {
        BindingBoxTreeNode::Box(bb, _) => size_filters_hold(bb.size_filters@, cr),
        _ => true,
    }
}

/// The first of the first `k` constraints that fails, if any.
pub open spec fn first_failing(
    cs: Seq<Constraint>,
    b: BindingView,
    cr: ChildView,
    evs: Seq<Event>,
    obs: Seq<Object>,
    k: nat,
) -> Option<int>
    decreases k,
{
    if k == 0 {
        None
    } else {
        match first_failing(cs, b, cr, evs, obs, (k - 1) as nat) {
            Some(i) => Some(i),
            None => if constraint_holds(cs[k - 1], b, cr, evs, obs) {
                None
            } else {
                Some(k - 1)
            },
        }
    }
}

/// The position of the first constraint of the node that fails, if any. A
/// composition has its one constraint over the unnamed edges to its children.
pub open spec fn node_violation(
    n: BindingBoxTreeNode,
    b: BindingView,
    cr: ChildView,
    evs: Seq<Event>,
    obs: Seq<Object>,
) -> Option<int> {
    match n {
        BindingBoxTreeNode::Box(bb, _) => first_failing(
            bb.constraints@,
            b,
            cr,
            evs,
            obs,
            bb.constraints@.len(),
        ),
        BindingBoxTreeNode::OR(x, y) => if some_named_satisfied(seq![unnamed_label(x), unnamed_label(y)], cr) {
            None
        } else {
            Some(0)
        },
        BindingBoxTreeNode::AND(x, y) => if every_named_satisfied(seq![unnamed_label(x), unnamed_label(y)], cr) {
            None
        } else {
            Some(0)
        },
        BindingBoxTreeNode::NOT(x) => if all_named_violated(seq![unnamed_label(x)], cr) {
            Some(0)
        } else {
            None
        },
    }
}

/// The constraint is a filter that reads a variable `b` does not bind.
pub open spec fn reads_unbound(c: Constraint, b: BindingView) -> bool {
    match c {
        Constraint::Filter { filter } => exists|j: int|
            0 <= j < involved_vars(filter).len() && b.var_value(#[trigger] involved_vars(filter)[j]) is None,
        _ => false,
    }
}

/// Why binding `b` violates the node whose constraint at `i` is the first to
/// fail: a filter over a variable that `b` does not bind is an error in the
/// tree and aborts the binding as `ChildNotSatisfied`; any other failure is
/// `ConstraintNotSatisfied(i)`.
pub open spec fn node_reason(n: BindingBoxTreeNode, b: BindingView, i: int) -> ViolationReason {
    match n {
        BindingBoxTreeNode::Box(bb, _) => if 0 <= i < bb.constraints@.len() && reads_unbound(
            bb.constraints@[i],
            b,
        ) {
            ViolationReason::ChildNotSatisfied
        } else {
            ViolationReason::ConstraintNotSatisfied(i as usize)
        },
        _ => ViolationReason::ConstraintNotSatisfied(i as usize),
    }
}

/// The results of evaluating node `node`, standing at `idx`, under `parent`,
/// with `fuel` levels of nodes left; and the outcomes it reports to its parent.
pub open spec fn eval_at(
    nodes: Seq<BindingBoxTreeNode>,
    names: Seq<((usize, usize), String)>,
    idx: usize,
    node: BindingBoxTreeNode,
    parent: BindingView,
    evs: Seq<Event>,
    obs: Seq<Object>,
    fuel: nat,
) -> (Seq<ResultView>, Seq<(BindingView, Option<ViolationReason>)>)
    decreases fuel, 0nat, 0nat,
{
    if fuel == 0 {
        (Seq::empty(), Seq::empty())
    } else {
        let bs = node_expansion(node, parent, evs, obs);
        eval_bindings(nodes, names, idx, node, bs, evs, obs, (fuel - 1) as nat, bs.len())
    }
}

/// The results and outcomes of the first `k` bindings of `bs`, concatenated.
pub open spec fn eval_bindings(
    nodes: Seq<BindingBoxTreeNode>,
    names: Seq<((usize, usize), String)>,
    idx: usize,
    node: BindingBoxTreeNode,
    bs: Seq<BindingView>,
    evs: Seq<Event>,
    obs: Seq<Object>,
    fuel: nat,
    k: nat,
) -> (Seq<ResultView>, Seq<(BindingView, Option<ViolationReason>)>)
    decreases fuel, 3nat, k,
{
    if k == 0 {
        (Seq::empty(), Seq::empty())
    } else {
        let prev = eval_bindings(nodes, names, idx, node, bs, evs, obs, fuel, (k - 1) as nat);
        let one = eval_binding(nodes, names, idx, node, bs[k - 1], evs, obs, fuel);
        (prev.0 + one.0, prev.1 + one.1)
    }
}

/// One binding of a node: its children's results, then the node's own result.
/// A binding that fails a size filter adds no result of the node and no outcome.
pub open spec fn eval_binding(
    nodes: Seq<BindingBoxTreeNode>,
    names: Seq<((usize, usize), String)>,
    idx: usize,
    node: BindingBoxTreeNode,
    b: BindingView,
    evs: Seq<Event>,
    obs: Seq<Object>,
    fuel: nat,
) -> (Seq<ResultView>, Seq<(BindingView, Option<ViolationReason>)>)
    decreases fuel, 2nat, 0nat,
{
    let ch = node_children(node);
    let (acc, cr) = eval_children(nodes, names, idx, ch, b, evs, obs, fuel, ch.len());
    if !node_size_ok(node, cr) {
        (acc, Seq::empty())
    } else {
        match node_violation(node, b, cr, evs, obs) {
            Some(i) => (
                acc.push((idx, b, Some(node_reason(node, b, i)))),
                seq![(b, Some(node_reason(node, b, i)))],
            ),
            None => (acc.push((idx, b, None)), seq![(b, None)]),
        }
    }
}

/// The first `k` children evaluated under `b`: their results, and their outcomes by edge name.
pub open spec fn eval_children(
    nodes: Seq<BindingBoxTreeNode>,
    names: Seq<((usize, usize), String)>,
    idx: usize,
    ch: Seq<usize>,
    b: BindingView,
    evs: Seq<Event>,
    obs: Seq<Object>,
    fuel: nat,
    k: nat,
) -> (Seq<ResultView>, ChildView)
    decreases fuel, 1nat, k,
{
    if k == 0 {
        (Seq::empty(), Seq::empty())
    } else {
        let prev = eval_children(nodes, names, idx, ch, b, evs, obs, fuel, (k - 1) as nat);
        let c = ch[k - 1];
        let sub = eval_at(nodes, names, c, nodes[c as int], b, evs, obs, fuel);
        (prev.0 + sub.0, prev.1.push((edge_name_of(names, idx, c), sub.1)))
    }
}

impl BindingBoxTreeNode {
    /// Every child index is a node of a tree with `n` nodes.
    pub open spec fn children_below(self, n: nat) -> bool {
        forall|i: int| 0 <= i < node_children(self).len() ==> #[trigger] node_children(self)[i] < n
    }

    /// The box this node stands for, and its children.
    pub open spec fn is_box_of(self, bb: BindingBox, ch: Vec<usize>) -> bool {
        match self {
            BindingBoxTreeNode::Box(b0, c0) => bb == b0 && ch == c0,
            _ => {
                &&& ch@ == node_children(self)
                &&& bb.new_event_vars@.len() == 0
                &&& bb.new_object_vars@.len() == 0
                &&& bb.filters@.len() == 0
                &&& bb.size_filters@.len() == 0
                &&& bb.constraints@.len() == 1
                &&& match (self, bb.constraints@[0]) {
                    (BindingBoxTreeNode::OR(x, y), Constraint::OR { child_names }) => child_names@.len() == 2
                        && child_names@[0]@ == unnamed_label(x) && child_names@[1]@ == unnamed_label(y),
                    (BindingBoxTreeNode::AND(x, y), Constraint::AND { child_names }) => child_names@.len()
                        == 2 && child_names@[0]@ == unnamed_label(x) && child_names@[1]@ == unnamed_label(
                        y,
                    ),
                    (BindingBoxTreeNode::NOT(x), Constraint::NOT { child_names }) => child_names@.len() == 1
                        && child_names@[0]@ == unnamed_label(x),
                    _ => false,
                }
            },
        }
    }
}

impl BindingBoxTree {
    /// Every child index of every node is a node of the tree.
    pub open spec fn wf(&self) -> bool {
        forall|i: int| 0 <= i < self.nodes@.len() ==> (#[trigger] self.nodes@[i]).children_below(self.nodes@.len() as nat)
    }

    /// Child indices are nodes of the tree, and every box declares each of its
    /// variables once.
    pub open spec fn valid(&self) -> bool {
        &&& self.wf()
        &&& forall|i: int|
            0 <= i < self.nodes@.len() && (#[trigger] self.nodes@[i]) is Box ==> self.nodes@[i]->Box_0.declares_distinct()
    }

    /// What evaluating the tree gives: the results under the root, which is
    /// seeded with the empty binding; a cycle is cut after as many levels as
    /// the tree has nodes.
    pub open spec fn results(&self, evs: Seq<Event>, obs: Seq<Object>) -> Seq<ResultView> {
        if self.nodes@.len() == 0 {
            Seq::empty()
        } else {
            eval_at(
                self.nodes@,
                self.edge_names@,
                0,
                self.nodes@[0],
                empty_binding_view(),
                evs,
                obs,
                self.nodes@.len() as nat,
            ).0
        }
    }
}

pub open spec fn opt_outcome_view(o: Option<Outcome>) -> Seq<(BindingView, Option<ViolationReason>)> {
    match o {
        Some(x) => seq![(x.0@, x.1)],
        None => Seq::empty(),
    }
}

pub open spec fn opt_outcome_wf(o: Option<Outcome>) -> bool {
    match o {
        Some(x) => x.0.wf(),
        None => true,
    }
}

/// Relies on rayon's `into_par_iter().map(f).collect()` on a `Vec`: the
/// results come back one for each item, in the items' order.
#[verifier::external_body]
pub(crate) fn par_map<T: Send, R: Send, F: Fn(T) -> R + Sync + Send>(items: Vec<T>, f: F) -> (r: Vec<R>)
    requires
        forall|i: int| 0 <= i < items.len() ==> f.requires((items[i],)),
    ensures
        r.len() == items.len(),
        forall|i: int| 0 <= i < items.len() ==> f.ensures((items[i],), r[i]),
{
    items.into_par_iter().map(f).collect()
}

proof fn lemma_first_failing_stays(
    cs: Seq<Constraint>,
    b: BindingView,
    cr: ChildView,
    evs: Seq<Event>,
    obs: Seq<Object>,
    i: nat,
    m: nat,
)
    requires
        first_failing(cs, b, cr, evs, obs, i + 1) == Some(i as int),
        i + 1 <= m,
    ensures
        first_failing(cs, b, cr, evs, obs, m) == Some(i as int),
    decreases m,
{
    if m > i + 1 {
        lemma_first_failing_stays(cs, b, cr, evs, obs, i, (m - 1) as nat);
    }
}

impl BindingBoxTree {
    /// The name of the edge from `p` to `c`.
    pub fn edge_name(&self, p: usize, c: usize) -> (r: String)
        ensures
            r@ == edge_name_of(self.edge_names@, p, c),
    {
        let mut k: usize = self.edge_names.len();
        assert(self.edge_names@.subrange(0, k as int) =~= self.edge_names@);
        while k > 0
            invariant
                k <= self.edge_names@.len(),
                edge_name_of(self.edge_names@, p, c) == edge_name_of(self.edge_names@.subrange(0, k as int), p, c),
            decreases k,
        {
            let ghost sub = self.edge_names@.subrange(0, k as int);
            assert(sub.drop_last() =~= self.edge_names@.subrange(0, k - 1));
            assert(sub.last() == self.edge_names@[k - 1]);
            if self.edge_names[k - 1].0.0 == p && self.edge_names[k - 1].0.1 == c {
                return self.edge_names[k - 1].1.clone();
            }
            k = k - 1;
        }
        unnamed_edge_name(c)
    }
}

/// `r` is what evaluating binding `b` of box `bb` with children `ch`, standing at `idx`, gives.
pub open spec fn binding_eval_ok(
    tree: BindingBoxTree,
    idx: usize,
    bb: BindingBox,
    ch: Vec<usize>,
    evs: Seq<Event>,
    obs: Seq<Object>,
    fuel: nat,
    b: Binding,
    r: (EvaluationResults, Option<Outcome>),
) -> bool {
    let e = eval_binding(tree.nodes@, tree.edge_names@, idx, BindingBoxTreeNode::Box(bb, ch), b@, evs, obs, fuel);
    &&& results_view(r.0@) == e.0
    &&& opt_outcome_view(r.1) == e.1
    &&& results_wf(r.0@)
    &&& opt_outcome_wf(r.1)
}

fn reads_unbound_exec(c: &Constraint, b: &Binding) -> (r: bool)
    requires
        b.wf(),
    ensures
        r == reads_unbound(*c, b@),
{
    match c {
        Constraint::Filter { filter } => {
            let vars = filter.get_involved_variables();
            let mut j: usize = 0;
            while j < vars.len()
                invariant
                    j <= vars@.len(),
                    b.wf(),
                    vars@ == involved_vars(*filter),
                    *c == (Constraint::Filter { filter: *filter }),
                    forall|k: int| 0 <= k < j ==> b@.var_value(#[trigger] vars@[k]) is Some,
                decreases vars.len() - j,
            {
                if b.get_var_value(&vars[j]).is_none() {
                    assert(b@.var_value(vars@[j as int]) is None);
                    return true;
                }
                j = j + 1;
            }
            false
        },
        _ => false,
    }
}

/// One binding of a box: evaluates the children in order, then the size
/// filters, then the constraints, the first failing one deciding.
fn eval_binding_exec(
    tree: &BindingBoxTree,
    idx: usize,
    bb: &BindingBox,
    ch: &Vec<usize>,
    b: Binding,
    ocel: &IndexLinkedOCEL,
    fuel: usize,
) -> (r: (EvaluationResults, Option<Outcome>))
    requires
        tree.valid(),
        ocel.wf(),
        timestamps_in_range(ocel.events()),
        b.wf(),
        forall|i: int| 0 <= i < ch@.len() ==> ch@[i] < tree.nodes@.len(),
    ensures
        binding_eval_ok(*tree, idx, *bb, *ch, ocel.events(), ocel.objects(), fuel as nat, b, r),
    decreases fuel, 2usize,
{
    let ghost nodes = tree.nodes@;
    let ghost names = tree.edge_names@;
    let ghost evs = ocel.events();
    let ghost obs = ocel.objects();
    let ghost node = BindingBoxTreeNode::Box(*bb, *ch);
    let mut all_res: EvaluationResults = Vec::new();
    let mut child_res: ChildResults = Vec::new();
    let mut i: usize = 0;
    while i < ch.len()
        invariant
            i <= ch@.len(),
            tree.valid(),
            ocel.wf(),
            timestamps_in_range(ocel.events()),
            b.wf(),
            nodes == tree.nodes@,
            names == tree.edge_names@,
            evs == ocel.events(),
            obs == ocel.objects(),
            forall|j: int| 0 <= j < ch@.len() ==> ch@[j] < tree.nodes@.len(),
            results_view(all_res@) == eval_children(nodes, names, idx, ch@, b@, evs, obs, fuel as nat, i as nat).0,
            child_results_view(child_res@) == eval_children(nodes, names, idx, ch@, b@, evs, obs, fuel as nat, i as nat).1,
            results_wf(all_res@),
            child_results_wf(child_res@),
        decreases ch.len() - i,
    {
        let c = ch[i];
        let name = tree.edge_name(idx, c);
        let (mut sub, outs) = eval_node_exec(tree, c, &tree.nodes[c], &b, ocel, fuel);
        let ghost prev_res = all_res@;
        let ghost prev_cr = child_res@;
        let ghost outs_v = outs@;
        let ghost sub_v = sub@;
        child_res.push((name, outs));
        all_res.append(&mut sub);
        proof {
            assert(child_results_view(child_res@) =~= child_results_view(prev_cr).push((name@, outcomes_view(outs_v))));
            assert(results_view(all_res@) =~= results_view(prev_res) + results_view(sub_v));
        }
        i = i + 1;
    }
    assert(node_children(node) == ch@);
    let ghost ec = eval_children(nodes, names, idx, ch@, b@, evs, obs, fuel as nat, ch@.len());
    assert(results_view(all_res@) == ec.0);
    let ghost crv = child_results_view(child_res@);
    assert(crv == ec.1);
    let mut k: usize = 0;
    while k < bb.size_filters.len()
        invariant
            k <= bb.size_filters@.len(),
            child_results_wf(child_res@),
            crv == child_results_view(child_res@),
            results_view(all_res@) == ec.0,
            results_wf(all_res@),
            node == BindingBoxTreeNode::Box(*bb, *ch),
            nodes == tree.nodes@,
            names == tree.edge_names@,
            evs == ocel.events(),
            obs == ocel.objects(),
            ec == eval_children(nodes, names, idx, ch@, b@, evs, obs, fuel as nat, ch@.len()),
            crv == ec.1,
            forall|j: int| 0 <= j < k ==> size_filter_holds(#[trigger] bb.size_filters@[j], crv),
        decreases bb.size_filters.len() - k,
    {
        if !bb.size_filters[k].check(&child_res) {
            assert(!size_filter_holds(bb.size_filters@[k as int], crv));
            assert(!size_filters_hold(bb.size_filters@, crv));
            assert(!node_size_ok(node, crv));
            assert(eval_binding(nodes, names, idx, node, b@, evs, obs, fuel as nat) == (ec.0, Seq::<(BindingView, Option<ViolationReason>)>::empty()));
            return (all_res, None);
        }
        k = k + 1;
    }
    assert(node_size_ok(node, crv));
    let mut j: usize = 0;
    while j < bb.constraints.len()
        invariant
            j <= bb.constraints@.len(),
            b.wf(),
            timestamps_in_range(ocel.events()),
            evs == ocel.events(),
            obs == ocel.objects(),
            child_results_wf(child_res@),
            crv == child_results_view(child_res@),
            results_view(all_res@) == ec.0,
            results_wf(all_res@),
            node_size_ok(node, crv),
            node == BindingBoxTreeNode::Box(*bb, *ch),
            nodes == tree.nodes@,
            names == tree.edge_names@,
            evs == ocel.events(),
            obs == ocel.objects(),
            ec == eval_children(nodes, names, idx, ch@, b@, evs, obs, fuel as nat, ch@.len()),
            crv == ec.1,
            first_failing(bb.constraints@, b@, crv, evs, obs, j as nat) is None,
        decreases bb.constraints.len() - j,
    {
        if !bb.constraints[j].check(&b, &child_res, ocel) {
            proof {
                lemma_first_failing_stays(bb.constraints@, b@, crv, evs, obs, j as nat, bb.constraints@.len());
            }
            let vr = if reads_unbound_exec(&bb.constraints[j], &b) {
                ViolationReason::ChildNotSatisfied
            } else {
                ViolationReason::ConstraintNotSatisfied(j)
            };
            let ghost prev_res = all_res@;
            all_res.push((idx, b.duplicate(), Some(vr)));
            proof {
                assert(results_view(all_res@) =~= results_view(prev_res).push((idx, b@, Some(vr))));
                assert(node_violation(node, b@, crv, evs, obs) == Some(j as int));
                assert(opt_outcome_view(Some((b, Some(vr)))) =~= seq![(b@, Some(vr))]);
            }
            return (all_res, Some((b, Some(vr))));
        }
        j = j + 1;
    }
    let ghost prev_res = all_res@;
    all_res.push((idx, b.duplicate(), None));
    proof {
        assert(results_view(all_res@) =~= results_view(prev_res).push((idx, b@, None)));
        assert(node_violation(node, b@, crv, evs, obs) is None);
        assert(opt_outcome_view(Some((b, None))) =~= seq![(b@, None::<ViolationReason>)]);
    }
    (all_res, Some((b, None)))
}

/// Evaluates the node `node`, standing at `idx`, under `parent`.
fn eval_node_exec(
    tree: &BindingBoxTree,
    idx: usize,
    node: &BindingBoxTreeNode,
    parent: &Binding,
    ocel: &IndexLinkedOCEL,
    fuel: usize,
) -> (r: (EvaluationResults, Vec<Outcome>))
    requires
        *node is Box ==> node->Box_0.declares_distinct(),
        tree.valid(),
        ocel.wf(),
        timestamps_in_range(ocel.events()),
        parent.wf(),
        node.children_below(tree.nodes@.len() as nat),
    ensures
        results_view(r.0@) == eval_at(
            tree.nodes@,
            tree.edge_names@,
            idx,
            *node,
            parent@,
            ocel.events(),
            ocel.objects(),
            fuel as nat,
        ).0,
        outcomes_view(r.1@) == eval_at(
            tree.nodes@,
            tree.edge_names@,
            idx,
            *node,
            parent@,
            ocel.events(),
            ocel.objects(),
            fuel as nat,
        ).1,
        results_wf(r.0@),
        outcomes_wf(r.1@),
    decreases fuel, 1usize,
{
    if fuel == 0 {
        return (Vec::new(), Vec::new());
    }
    match node {
        BindingBoxTreeNode::Box(bb, ch) => {
            assert(node_children(*node) == ch@);
            eval_box(tree, idx, bb, ch, parent, ocel, fuel)
        },
        _ => {
            let (bb, ch) = node.sugar_box();
            proof {
                lemma_sugar_same(*node, bb, ch, tree.nodes@.len() as nat);
            }
            let r = eval_box(tree, idx, &bb, &ch, parent, ocel, fuel);
            proof {
                let bnode = BindingBoxTreeNode::Box(bb, ch);
                lemma_sugar_same(*node, bb, ch, tree.nodes@.len() as nat);
                lemma_eval_at_congruent(
                    tree.nodes@,
                    tree.edge_names@,
                    idx,
                    bnode,
                    *node,
                    parent@,
                    ocel.events(),
                    ocel.objects(),
                    fuel as nat,
                );
            }
            r
        },
    }
}

/// Evaluates the box `bb` with children `ch`, standing at `idx`, under `parent`:
/// the bindings it admits are evaluated in parallel.
fn eval_box(
    tree: &BindingBoxTree,
    idx: usize,
    bb: &BindingBox,
    ch: &Vec<usize>,
    parent: &Binding,
    ocel: &IndexLinkedOCEL,
    fuel: usize,
) -> (r: (EvaluationResults, Vec<Outcome>))
    requires
        bb.declares_distinct(),
        fuel > 0,
        tree.valid(),
        ocel.wf(),
        timestamps_in_range(ocel.events()),
        parent.wf(),
        forall|i: int| 0 <= i < ch@.len() ==> ch@[i] < tree.nodes@.len(),
    ensures
        results_view(r.0@) == eval_at(
            tree.nodes@,
            tree.edge_names@,
            idx,
            BindingBoxTreeNode::Box(*bb, *ch),
            parent@,
            ocel.events(),
            ocel.objects(),
            fuel as nat,
        ).0,
        outcomes_view(r.1@) == eval_at(
            tree.nodes@,
            tree.edge_names@,
            idx,
            BindingBoxTreeNode::Box(*bb, *ch),
            parent@,
            ocel.events(),
            ocel.objects(),
            fuel as nat,
        ).1,
        results_wf(r.0@),
        outcomes_wf(r.1@),
    decreases fuel, 0usize,
{
    let ghost nodes = tree.nodes@;
    let ghost names = tree.edge_names@;
    let ghost evs = ocel.events();
    let ghost obs = ocel.objects();
    let ghost node = BindingBoxTreeNode::Box(*bb, *ch);
    let ghost sub_fuel = (fuel - 1) as nat;
    let start = vec![parent.duplicate()];
    assert(views(start@) =~= seq![parent@]);
    assert(all_wf(start@));
    let expanded = bb.expand(start, ocel);
    let ghost bs = views(expanded@);
    assert(bs == node_expansion(node, parent@, evs, obs));
    let f = |b: Binding| -> (r: (EvaluationResults, Option<Outcome>))
        requires
            b.wf(),
            fuel > 0,
            tree.valid(),
            ocel.wf(),
            timestamps_in_range(ocel.events()),
            forall|i: int| 0 <= i < ch@.len() ==> ch@[i] < tree.nodes@.len(),
        ensures
            binding_eval_ok(*tree, idx, *bb, *ch, ocel.events(), ocel.objects(), (fuel - 1) as nat, b, r),
        { eval_binding_exec(tree, idx, bb, ch, b, ocel, fuel - 1) };
    let ghost exp0 = expanded@;
    let mut per = par_map(expanded, f);
    let ghost per0 = per@;
    assert forall|j: int| 0 <= j < exp0.len() implies binding_eval_ok(*tree, idx, *bb, *ch, evs, obs, sub_fuel, #[trigger] exp0[j], per0[j]) by {
        assert(f.ensures((exp0[j],), per0[j]));
    }
    let n = per.len();
    // Take the per-binding results out in reverse, then again, to have them in order.
    let mut rev: Vec<(EvaluationResults, Option<Outcome>)> = Vec::new();
    while per.len() > 0
        invariant
            per0.len() == n,
            per@ == per0.subrange(0, per@.len() as int),
            rev@.len() + per@.len() == n,
            forall|j: int| 0 <= j < rev@.len() ==> rev@[j] == per0[n - 1 - j],
        decreases per.len(),
    {
        match per.pop() {
            Some(x) => rev.push(x),
            None => {},
        }
    }
    let ghost rev0 = rev@;
    let mut results: EvaluationResults = Vec::new();
    let mut outcomes: Vec<Outcome> = Vec::new();
    let ghost mut k: nat = 0;
    while rev.len() > 0
        invariant
            rev0.len() == n,
            n == bs.len(),
            exp0.len() == n,
            bs == views(exp0),
            forall|j: int| 0 <= j < n ==> rev0[j] == per0[n - 1 - j],
            forall|j: int| 0 <= j < n ==> binding_eval_ok(*tree, idx, *bb, *ch, evs, obs, sub_fuel, #[trigger] exp0[j], per0[j]),
            rev@ == rev0.subrange(0, rev@.len() as int),
            k + rev@.len() == n,
            results_view(results@) == eval_bindings(nodes, names, idx, node, bs, evs, obs, sub_fuel, k).0,
            outcomes_view(outcomes@) == eval_bindings(nodes, names, idx, node, bs, evs, obs, sub_fuel, k).1,
            results_wf(results@),
            outcomes_wf(outcomes@),
            nodes == tree.nodes@,
            names == tree.edge_names@,
            evs == ocel.events(),
            obs == ocel.objects(),
            node == BindingBoxTreeNode::Box(*bb, *ch),
            sub_fuel == fuel - 1,
        decreases rev.len(),
    {
        let ghost before_len = rev@.len();
        match rev.pop() {
            Some(x) => {
                let (mut acc, outcome) = x;
                proof {
                    assert(x == per0[k as int]);
                    assert(bs[k as int] == exp0[k as int]@);
                    assert(binding_eval_ok(*tree, idx, *bb, *ch, evs, obs, sub_fuel, exp0[k as int], per0[k as int]));
                    assert(results_view(acc@) == eval_binding(nodes, names, idx, node, bs[k as int], evs, obs, sub_fuel).0);
                    assert(opt_outcome_view(outcome) == eval_binding(nodes, names, idx, node, bs[k as int], evs, obs, sub_fuel).1);
                }
                let ghost prev_res = results@;
                let ghost prev_out = outcomes@;
                let ghost acc_v = acc@;
                results.append(&mut acc);
                match outcome {
                    Some(o) => {
                        outcomes.push(o);
                        proof {
                            assert(outcomes_view(outcomes@) =~= outcomes_view(prev_out) + seq![(o.0@, o.1)]);
                        }
                    },
                    None => {
                        proof {
                            assert(outcomes_view(outcomes@) =~= outcomes_view(prev_out) + Seq::<(BindingView, Option<ViolationReason>)>::empty());
                        }
                    },
                }
                proof {
                    assert(results_view(results@) =~= results_view(prev_res) + results_view(acc_v));
                    k = k + 1;
                    assert(eval_bindings(nodes, names, idx, node, bs, evs, obs, sub_fuel, k) == (
                        eval_bindings(nodes, names, idx, node, bs, evs, obs, sub_fuel, (k - 1) as nat).0
                            + eval_binding(nodes, names, idx, node, bs[k - 1], evs, obs, sub_fuel).0,
                        eval_bindings(nodes, names, idx, node, bs, evs, obs, sub_fuel, (k - 1) as nat).1
                            + eval_binding(nodes, names, idx, node, bs[k - 1], evs, obs, sub_fuel).1,
                    ));
                }
            },
            None => {},
        }
    }
    (results, outcomes)
}

impl BindingBoxTreeNode {
    /// The box a composition stands for: no variables, filters or size filters,
    /// and one constraint of its kind over the unnamed edges to its children.
    fn sugar_box(&self) -> (r: (BindingBox, Vec<usize>))
        requires
            !(*self is Box),
        ensures
            self.is_box_of(r.0, r.1),
    {
        let (constraint, children) = match self {
            BindingBoxTreeNode::OR(c1, c2) => {
                let names = vec![unnamed_edge_name(*c1), unnamed_edge_name(*c2)];
                (Constraint::OR { child_names: names }, vec![*c1, *c2])
            },
            BindingBoxTreeNode::AND(c1, c2) => {
                let names = vec![unnamed_edge_name(*c1), unnamed_edge_name(*c2)];
                (Constraint::AND { child_names: names }, vec![*c1, *c2])
            },
            BindingBoxTreeNode::NOT(c1) => {
                let names = vec![unnamed_edge_name(*c1)];
                (Constraint::NOT { child_names: names }, vec![*c1])
            },
            BindingBoxTreeNode::Box(..) => {
                (Constraint::AND { child_names: Vec::new() }, Vec::new())
            },
        };
        let bb = BindingBox {
            new_event_vars: Vec::new(),
            new_object_vars: Vec::new(),
            filters: Vec::new(),
            size_filters: Vec::new(),
            constraints: vec![constraint],
        };
        proof {
            assert(children@ =~= node_children(*self));
        }
        (bb, children)
    }

    /// The node as a box with its children: a composition becomes a box with one
    /// constraint of its kind over the unnamed edges to its children.
    pub fn to_box(self) -> (r: (BindingBox, Vec<usize>))
        ensures
            self.is_box_of(r.0, r.1),
    {
        match self {
            BindingBoxTreeNode::Box(b, children) => (b, children),
            _ => self.sugar_box(),
        }
    }
}

/// A composition and the box it stands for admit the same bindings, have the
/// same children, and judge each binding alike.
pub proof fn lemma_sugar_same(node: BindingBoxTreeNode, bb: BindingBox, ch: Vec<usize>, n: nat)
    requires
        node.is_box_of(bb, ch),
    ensures
        node_children(BindingBoxTreeNode::Box(bb, ch)) == node_children(node),
        forall|p: BindingView, evs: Seq<Event>, obs: Seq<Object>|
            #[trigger] node_expansion(BindingBoxTreeNode::Box(bb, ch), p, evs, obs) == node_expansion(node, p, evs, obs),
        forall|cr: ChildView|
            #[trigger] node_size_ok(BindingBoxTreeNode::Box(bb, ch), cr) == node_size_ok(node, cr),
        forall|b: BindingView, cr: ChildView, evs: Seq<Event>, obs: Seq<Object>|
            #[trigger] node_violation(BindingBoxTreeNode::Box(bb, ch), b, cr, evs, obs) == node_violation(node, b, cr, evs, obs),
        forall|b: BindingView, i: int|
            #[trigger] node_reason(BindingBoxTreeNode::Box(bb, ch), b, i) == node_reason(node, b, i),
        node.children_below(n) ==> BindingBoxTreeNode::Box(bb, ch).children_below(n),
{
    if !(node is Box) {
        assert forall|p: BindingView, evs: Seq<Event>, obs: Seq<Object>|
            #[trigger] node_expansion(BindingBoxTreeNode::Box(bb, ch), p, evs, obs) == node_expansion(node, p, evs, obs) by {
            let ps = bb.passes_all(evs, obs);
            assert(bb.product(seq![p], 0, evs, obs) == seq![p]);
            assert(seq![p].drop_last() =~= Seq::<BindingView>::empty());
            assert(ps(p));
            assert(seq![p].last() == p);
            assert(crate::expand::keep(Seq::<BindingView>::empty(), ps) == Seq::<BindingView>::empty());
            assert(crate::expand::keep(seq![p], ps) == crate::expand::keep(Seq::<BindingView>::empty(), ps).push(p));
            assert(crate::expand::keep(seq![p], ps) =~= seq![p]);
        }
        assert forall|b: BindingView, cr: ChildView, evs: Seq<Event>, obs: Seq<Object>|
            #[trigger] node_violation(BindingBoxTreeNode::Box(bb, ch), b, cr, evs, obs) == node_violation(node, b, cr, evs, obs) by {
            let c = bb.constraints@[0];
            assert(first_failing(bb.constraints@, b, cr, evs, obs, 0) is None);
            match node {
                BindingBoxTreeNode::OR(x, y) => {
                    let names = c->OR_child_names;
                    assert(crate::constraint::names_view(names@) =~= seq![unnamed_label(x), unnamed_label(y)]);
                },
                BindingBoxTreeNode::AND(x, y) => {
                    let names = c->AND_child_names;
                    assert(crate::constraint::names_view(names@) =~= seq![unnamed_label(x), unnamed_label(y)]);
                },
                BindingBoxTreeNode::NOT(x) => {
                    let names = c->NOT_child_names;
                    assert(crate::constraint::names_view(names@) =~= seq![unnamed_label(x)]);
                },
                _ => {},
            }
        }
    }
}

/// Two nodes that agree on children, admitted bindings, size filters and
/// constraints give the same evaluation.
proof fn lemma_eval_at_congruent(
    nodes: Seq<BindingBoxTreeNode>,
    names: Seq<((usize, usize), String)>,
    idx: usize,
    n1: BindingBoxTreeNode,
    n2: BindingBoxTreeNode,
    parent: BindingView,
    evs: Seq<Event>,
    obs: Seq<Object>,
    fuel: nat,
)
    requires
        node_children(n1) == node_children(n2),
        node_expansion(n1, parent, evs, obs) == node_expansion(n2, parent, evs, obs),
        forall|cr: ChildView| #[trigger] node_size_ok(n1, cr) == node_size_ok(n2, cr),
        forall|b: BindingView, cr: ChildView| #[trigger] node_violation(n1, b, cr, evs, obs) == node_violation(n2, b, cr, evs, obs),
        forall|b: BindingView, i: int| #[trigger] node_reason(n1, b, i) == node_reason(n2, b, i),
    ensures
        eval_at(nodes, names, idx, n1, parent, evs, obs, fuel) == eval_at(nodes, names, idx, n2, parent, evs, obs, fuel),
{
    if fuel > 0 {
        let bs = node_expansion(n1, parent, evs, obs);
        lemma_eval_bindings_congruent(nodes, names, idx, n1, n2, bs, evs, obs, (fuel - 1) as nat, bs.len());
    }
}

proof fn lemma_eval_bindings_congruent(
    nodes: Seq<BindingBoxTreeNode>,
    names: Seq<((usize, usize), String)>,
    idx: usize,
    n1: BindingBoxTreeNode,
    n2: BindingBoxTreeNode,
    bs: Seq<BindingView>,
    evs: Seq<Event>,
    obs: Seq<Object>,
    fuel: nat,
    k: nat,
)
    requires
        node_children(n1) == node_children(n2),
        forall|cr: ChildView| #[trigger] node_size_ok(n1, cr) == node_size_ok(n2, cr),
        forall|b: BindingView, cr: ChildView| #[trigger] node_violation(n1, b, cr, evs, obs) == node_violation(n2, b, cr, evs, obs),
        forall|b: BindingView, i: int| #[trigger] node_reason(n1, b, i) == node_reason(n2, b, i),
    ensures
        eval_bindings(nodes, names, idx, n1, bs, evs, obs, fuel, k) == eval_bindings(nodes, names, idx, n2, bs, evs, obs, fuel, k),
    decreases k,
{
    if k > 0 {
        lemma_eval_bindings_congruent(nodes, names, idx, n1, n2, bs, evs, obs, fuel, (k - 1) as nat);
        let b = bs[k - 1];
        let ch = node_children(n1);
        let cr = eval_children(nodes, names, idx, ch, b, evs, obs, fuel, ch.len()).1;
        assert(node_size_ok(n1, cr) == node_size_ok(n2, cr));
        assert(node_violation(n1, b, cr, evs, obs) == node_violation(n2, b, cr, evs, obs));
        assert(eval_binding(nodes, names, idx, n1, b, evs, obs, fuel) == eval_binding(nodes, names, idx, n2, b, evs, obs, fuel));
    }
}

impl BindingBoxTreeNode {
    /// Evaluates this node, standing at `own_index` of `tree`, under
    /// `parent_binding`: the results of the node and its descendants, and the
    /// outcomes it reports to its parent.
    pub fn evaluate(
        &self,
        own_index: usize,
        _parent_index: usize,
        parent_binding: Binding,
        tree: &BindingBoxTree,
        ocel: &IndexLinkedOCEL,
    ) -> (r: (EvaluationResults, Vec<Outcome>))
        requires
            *self is Box ==> self->Box_0.declares_distinct(),
            tree.valid(),
            ocel.wf(),
            timestamps_in_range(ocel.events()),
            parent_binding.wf(),
            self.children_below(tree.nodes@.len() as nat),
        ensures
            results_view(r.0@) == eval_at(
                tree.nodes@,
                tree.edge_names@,
                own_index,
                *self,
                parent_binding@,
                ocel.events(),
                ocel.objects(),
                tree.nodes@.len() as nat,
            ).0,
            outcomes_view(r.1@) == eval_at(
                tree.nodes@,
                tree.edge_names@,
                own_index,
                *self,
                parent_binding@,
                ocel.events(),
                ocel.objects(),
                tree.nodes@.len() as nat,
            ).1,
    {
        eval_node_exec(tree, own_index, self, &parent_binding, ocel, tree.nodes.len())
    }
}

impl BindingBoxTree {
    /// Evaluates the tree on `ocel`: the results under the root, which starts
    /// from the empty binding. An empty tree gives no results.
    pub fn evaluate(&self, ocel: &IndexLinkedOCEL) -> (r: EvaluationResults)
        requires
            self.valid(),
            ocel.wf(),
            timestamps_in_range(ocel.events()),
        ensures
            results_view(r@) == self.results(ocel.events(), ocel.objects()),
    {
        if self.nodes.len() == 0 {
            return Vec::new();
        }
        let root = Binding::new();
        let (r, _outcomes) = eval_node_exec(self, 0, &self.nodes[0], &root, ocel, self.nodes.len());
        r
    }

    /// Whether every box of the tree declares each of its variables once.
    pub fn boxes_declare_distinct(&self) -> (r: bool)
        ensures
            r == (forall|i: int|
                0 <= i < self.nodes@.len() && (#[trigger] self.nodes@[i]) is Box
                    ==> self.nodes@[i]->Box_0.declares_distinct()),
    {
        let mut i: usize = 0;
        while i < self.nodes.len()
            invariant
                i <= self.nodes@.len(),
                forall|k: int|
                    0 <= k < i && (#[trigger] self.nodes@[k]) is Box ==> self.nodes@[k]->Box_0.declares_distinct(),
            decreases self.nodes.len() - i,
        {
            match &self.nodes[i] {
                BindingBoxTreeNode::Box(bb, _) => {
                    if !bb.has_distinct_vars() {
                        return false;
                    }
                },
                _ => {},
            }
            i = i + 1;
        }
        true
    }

    /// Whether every child index of every node is a node of the tree.
    pub fn children_in_range(&self) -> (r: bool)
        ensures
            r == self.wf(),
    {
        let n = self.nodes.len();
        let mut i: usize = 0;
        while i < n
            invariant
                i <= n == self.nodes@.len(),
                forall|k: int| 0 <= k < i ==> (#[trigger] self.nodes@[k]).children_below(n as nat),
            decreases n - i,
        {
            let ok = match &self.nodes[i] {
                BindingBoxTreeNode::Box(_, ch) => {
                    let mut j: usize = 0;
                    let mut all = true;
                    while j < ch.len()
                        invariant
                            j <= ch@.len(),
                            all == (forall|m: int| 0 <= m < j ==> ch@[m] < n),
                        decreases ch.len() - j,
                    {
                        if ch[j] >= n {
                            all = false;
                        }
                        j = j + 1;
                    }
                    assert(node_children(self.nodes@[i as int]) == ch@);
                    proof {
                        if !all {
                            let m = choose|m: int| 0 <= m < ch@.len() && !(ch@[m] < n);
                            assert(node_children(self.nodes@[i as int])[m] >= n);
                        }
                    }
                    assert(all == self.nodes@[i as int].children_below(n as nat));
                    all
                },
                BindingBoxTreeNode::OR(a, b) => {
                    assert(node_children(self.nodes@[i as int]) == seq![*a, *b]);
                    assert(node_children(self.nodes@[i as int])[0] == *a);
                    assert(node_children(self.nodes@[i as int])[1] == *b);
                    assert((*a < n && *b < n) == self.nodes@[i as int].children_below(n as nat));
                    *a < n && *b < n
                },
                BindingBoxTreeNode::AND(a, b) => {
                    assert(node_children(self.nodes@[i as int]) == seq![*a, *b]);
                    assert(node_children(self.nodes@[i as int])[0] == *a);
                    assert(node_children(self.nodes@[i as int])[1] == *b);
                    assert((*a < n && *b < n) == self.nodes@[i as int].children_below(n as nat));
                    *a < n && *b < n
                },
                BindingBoxTreeNode::NOT(a) => {
                    assert(node_children(self.nodes@[i as int]) == seq![*a]);
                    assert(node_children(self.nodes@[i as int])[0] == *a);
                    assert((*a < n) == self.nodes@[i as int].children_below(n as nat));
                    *a < n
                },
            };
            if !ok {
                return false;
            }
            i = i + 1;
        }
        true
    }

    /// The event variables that the tree's boxes introduce, each once, in order of first declaration.
    pub fn get_ev_vars(&self) -> (r: Vec<EventVariable>)
        ensures
            r@.no_duplicates(),
            r@.to_set() == ev_decl_set(self.nodes@),
    {
        let mut r: Vec<EventVariable> = Vec::new();
        let mut i: usize = 0;
        while i < self.nodes.len()
            invariant
                i <= self.nodes@.len(),
                r@.no_duplicates(),
                r@.to_set() == ev_decl_set(self.nodes@.subrange(0, i as int)),
            decreases self.nodes.len() - i,
        {
            let ghost before = r@.to_set();
            let ghost sub = self.nodes@.subrange(0, i + 1);
            assert(sub.drop_last() =~= self.nodes@.subrange(0, i as int));
            assert(sub.last() == self.nodes@[i as int]);
            match &self.nodes[i] {
                BindingBoxTreeNode::Box(bb, _) => {
                    let mut j: usize = 0;
                    while j < bb.new_event_vars.len()
                        invariant
                            j <= bb.new_event_vars@.len(),
                            r@.no_duplicates(),
                            r@.to_set() == before + ev_prefix_set(bb.new_event_vars@, j as nat),
                        decreases bb.new_event_vars.len() - j,
                    {
                        push_unique_ev(&mut r, bb.new_event_vars[j].0);
                        assert(r@.to_set() =~= before + ev_prefix_set(bb.new_event_vars@, (j + 1) as nat));
                        j = j + 1;
                    }
                },
                _ => {
                    assert(r@.to_set() =~= before + Set::<EventVariable>::empty());
                },
            }
            i = i + 1;
        }
        assert(self.nodes@.subrange(0, self.nodes@.len() as int) =~= self.nodes@);
        r
    }

    /// The object variables that the tree's boxes introduce, each once, in order of first declaration.
    pub fn get_ob_vars(&self) -> (r: Vec<ObjectVariable>)
        ensures
            r@.no_duplicates(),
            r@.to_set() == ob_decl_set(self.nodes@),
    {
        let mut r: Vec<ObjectVariable> = Vec::new();
        let mut i: usize = 0;
        while i < self.nodes.len()
            invariant
                i <= self.nodes@.len(),
                r@.no_duplicates(),
                r@.to_set() == ob_decl_set(self.nodes@.subrange(0, i as int)),
            decreases self.nodes.len() - i,
        {
            let ghost before = r@.to_set();
            let ghost sub = self.nodes@.subrange(0, i + 1);
            assert(sub.drop_last() =~= self.nodes@.subrange(0, i as int));
            assert(sub.last() == self.nodes@[i as int]);
            match &self.nodes[i] {
                BindingBoxTreeNode::Box(bb, _) => {
                    let mut j: usize = 0;
                    while j < bb.new_object_vars.len()
                        invariant
                            j <= bb.new_object_vars@.len(),
                            r@.no_duplicates(),
                            r@.to_set() == before + ob_prefix_set(bb.new_object_vars@, j as nat),
                        decreases bb.new_object_vars.len() - j,
                    {
                        push_unique_ob(&mut r, bb.new_object_vars[j].0);
                        assert(r@.to_set() =~= before + ob_prefix_set(bb.new_object_vars@, (j + 1) as nat));
                        j = j + 1;
                    }
                },
                _ => {
                    assert(r@.to_set() =~= before + Set::<ObjectVariable>::empty());
                },
            }
            i = i + 1;
        }
        assert(self.nodes@.subrange(0, self.nodes@.len() as int) =~= self.nodes@);
        r
    }
}

/// Evaluates `tree` on `ocel` when the tree's child indices are nodes of the
/// tree, no box declares a variable twice, and the log's event times lie in
/// range; `None` otherwise.
pub fn evaluate_box_tree(tree: &BindingBoxTree, ocel: &IndexLinkedOCEL) -> (r: Option<EvaluationResults>)
    requires
        ocel.wf(),
    ensures
        match r {
            Some(rs) => tree.valid() && timestamps_in_range(ocel.events()) && results_view(rs@) == tree.results(
                ocel.events(),
                ocel.objects(),
            ),
            None => !tree.valid() || !timestamps_in_range(ocel.events()),
        },
{
    if !tree.children_in_range() || !tree.boxes_declare_distinct() || !event_times_in_range(ocel) {
        return None;
    }
    Some(tree.evaluate(ocel))
}

/// The position a constraint failure names is the first failing constraint:
/// every constraint before it holds, so no later position is ever reported.
pub proof fn lemma_first_failing_is_first(
    cs: Seq<Constraint>,
    b: BindingView,
    cr: ChildView,
    evs: Seq<Event>,
    obs: Seq<Object>,
    k: nat,
)
    ensures
        match first_failing(cs, b, cr, evs, obs, k) {
            Some(i) => 0 <= i < k && !constraint_holds(cs[i], b, cr, evs, obs) && forall|j: int|
                0 <= j < i ==> constraint_holds(#[trigger] cs[j], b, cr, evs, obs),
            None => forall|j: int| 0 <= j < k ==> constraint_holds(#[trigger] cs[j], b, cr, evs, obs),
        },
    decreases k,
{
    if k > 0 {
        lemma_first_failing_is_first(cs, b, cr, evs, obs, (k - 1) as nat);
    }
}

/// Under each binding a node admits, its own result comes after all results of
/// its descendants, and it reports one outcome with the same reason, unless a
/// size filter fails; then it adds no result of its own and no outcome.
pub proof fn lemma_own_result_last(
    nodes: Seq<BindingBoxTreeNode>,
    names: Seq<((usize, usize), String)>,
    idx: usize,
    node: BindingBoxTreeNode,
    b: BindingView,
    evs: Seq<Event>,
    obs: Seq<Object>,
    fuel: nat,
)
    ensures
        ({
            let ch = node_children(node);
            let (acc, cr) = eval_children(nodes, names, idx, ch, b, evs, obs, fuel, ch.len());
            let e = eval_binding(nodes, names, idx, node, b, evs, obs, fuel);
            if node_size_ok(node, cr) {
                let reason = match node_violation(node, b, cr, evs, obs) {
                    Some(i) => Some(node_reason(node, b, i)),
                    None => None,
                };
                &&& e.0 == acc.push((idx, b, reason))
                &&& e.1 == seq![(b, reason)]
            } else {
                &&& e.0 == acc
                &&& e.1.len() == 0
            }
        }),
{
}

/// An edge named more than once takes its last name.
pub proof fn lemma_edge_name_last_wins(names: Seq<((usize, usize), String)>, p: usize, c: usize, i: int)
    requires
        0 <= i < names.len(),
        names[i].0 == (p, c),
        forall|j: int| i < j < names.len() ==> names[j].0 != (p, c),
    ensures
        edge_name_of(names, p, c) == names[i].1@,
    decreases names.len(),
{
    if i < names.len() - 1 {
        assert(names[names.len() - 1].0 != (p, c));
        let rest = names.drop_last();
        assert forall|j: int| i < j < rest.len() implies rest[j].0 != (p, c) by {
            assert(rest[j] == names[j]);
        }
        lemma_edge_name_last_wins(rest, p, c, i);
    } else {
        assert(names.last() == names[i]);
    }
}

/// Evaluating a composition, or the box it stands for, at the same position
/// under the same parent gives the same results and the same outcomes.
pub proof fn lemma_desugaring_preserves_evaluation(
    nodes: Seq<BindingBoxTreeNode>,
    names: Seq<((usize, usize), String)>,
    idx: usize,
    node: BindingBoxTreeNode,
    bb: BindingBox,
    ch: Vec<usize>,
    parent: BindingView,
    evs: Seq<Event>,
    obs: Seq<Object>,
    fuel: nat,
)
    requires
        node.is_box_of(bb, ch),
    ensures
        eval_at(nodes, names, idx, node, parent, evs, obs, fuel) == eval_at(
            nodes,
            names,
            idx,
            BindingBoxTreeNode::Box(bb, ch),
            parent,
            evs,
            obs,
            fuel,
        ),
{
    lemma_sugar_same(node, bb, ch, 0);
    lemma_eval_at_congruent(nodes, names, idx, node, BindingBoxTreeNode::Box(bb, ch), parent, evs, obs, fuel);
}

proof fn lemma_replace_at(
    nodes: Seq<BindingBoxTreeNode>,
    nodes2: Seq<BindingBoxTreeNode>,
    names: Seq<((usize, usize), String)>,
    i: int,
    bb: BindingBox,
    ch: Vec<usize>,
    idx: usize,
    n: BindingBoxTreeNode,
    parent: BindingView,
    evs: Seq<Event>,
    obs: Seq<Object>,
    fuel: nat,
)
    requires
        0 <= i < nodes.len(),
        nodes[i].is_box_of(bb, ch),
        nodes2 == nodes.update(i, BindingBoxTreeNode::Box(bb, ch)),
        forall|m: int| 0 <= m < nodes.len() ==> (#[trigger] nodes[m]).children_below(nodes.len() as nat),
        n.children_below(nodes.len() as nat),
    ensures
        eval_at(nodes, names, idx, n, parent, evs, obs, fuel) == eval_at(nodes2, names, idx, n, parent, evs, obs, fuel),
    decreases fuel, 0nat, 0nat,
{
    if fuel > 0 {
        let bs = node_expansion(n, parent, evs, obs);
        lemma_replace_bindings(nodes, nodes2, names, i, bb, ch, idx, n, bs, evs, obs, (fuel - 1) as nat, bs.len());
    }
}

proof fn lemma_replace_bindings(
    nodes: Seq<BindingBoxTreeNode>,
    nodes2: Seq<BindingBoxTreeNode>,
    names: Seq<((usize, usize), String)>,
    i: int,
    bb: BindingBox,
    ch: Vec<usize>,
    idx: usize,
    n: BindingBoxTreeNode,
    bs: Seq<BindingView>,
    evs: Seq<Event>,
    obs: Seq<Object>,
    fuel: nat,
    k: nat,
)
    requires
        0 <= i < nodes.len(),
        nodes[i].is_box_of(bb, ch),
        nodes2 == nodes.update(i, BindingBoxTreeNode::Box(bb, ch)),
        forall|m: int| 0 <= m < nodes.len() ==> (#[trigger] nodes[m]).children_below(nodes.len() as nat),
        n.children_below(nodes.len() as nat),
    ensures
        eval_bindings(nodes, names, idx, n, bs, evs, obs, fuel, k) == eval_bindings(
            nodes2,
            names,
            idx,
            n,
            bs,
            evs,
            obs,
            fuel,
            k,
        ),
    decreases fuel, 3nat, k,
{
    if k > 0 {
        lemma_replace_bindings(nodes, nodes2, names, i, bb, ch, idx, n, bs, evs, obs, fuel, (k - 1) as nat);
        lemma_replace_binding(nodes, nodes2, names, i, bb, ch, idx, n, bs[k - 1], evs, obs, fuel);
    }
}

proof fn lemma_replace_binding(
    nodes: Seq<BindingBoxTreeNode>,
    nodes2: Seq<BindingBoxTreeNode>,
    names: Seq<((usize, usize), String)>,
    i: int,
    bb: BindingBox,
    ch: Vec<usize>,
    idx: usize,
    n: BindingBoxTreeNode,
    b: BindingView,
    evs: Seq<Event>,
    obs: Seq<Object>,
    fuel: nat,
)
    requires
        0 <= i < nodes.len(),
        nodes[i].is_box_of(bb, ch),
        nodes2 == nodes.update(i, BindingBoxTreeNode::Box(bb, ch)),
        forall|m: int| 0 <= m < nodes.len() ==> (#[trigger] nodes[m]).children_below(nodes.len() as nat),
        n.children_below(nodes.len() as nat),
    ensures
        eval_binding(nodes, names, idx, n, b, evs, obs, fuel) == eval_binding(nodes2, names, idx, n, b, evs, obs, fuel),
    decreases fuel, 2nat, 0nat,
{
    let c = node_children(n);
    lemma_replace_children(nodes, nodes2, names, i, bb, ch, idx, c, b, evs, obs, fuel, c.len());
}

proof fn lemma_replace_children(
    nodes: Seq<BindingBoxTreeNode>,
    nodes2: Seq<BindingBoxTreeNode>,
    names: Seq<((usize, usize), String)>,
    i: int,
    bb: BindingBox,
    ch: Vec<usize>,
    idx: usize,
    c: Seq<usize>,
    b: BindingView,
    evs: Seq<Event>,
    obs: Seq<Object>,
    fuel: nat,
    k: nat,
)
    requires
        0 <= i < nodes.len(),
        nodes[i].is_box_of(bb, ch),
        nodes2 == nodes.update(i, BindingBoxTreeNode::Box(bb, ch)),
        forall|m: int| 0 <= m < nodes.len() ==> (#[trigger] nodes[m]).children_below(nodes.len() as nat),
        forall|j: int| 0 <= j < c.len() ==> c[j] < nodes.len(),
        k <= c.len(),
    ensures
        eval_children(nodes, names, idx, c, b, evs, obs, fuel, k) == eval_children(
            nodes2,
            names,
            idx,
            c,
            b,
            evs,
            obs,
            fuel,
            k,
        ),
    decreases fuel, 1nat, k,
{
    if k > 0 {
        lemma_replace_children(nodes, nodes2, names, i, bb, ch, idx, c, b, evs, obs, fuel, (k - 1) as nat);
        let x = c[k - 1];
        lemma_replace_at(nodes, nodes2, names, i, bb, ch, x, nodes[x as int], b, evs, obs, fuel);
        if x as int == i {
            lemma_desugaring_preserves_evaluation(nodes2, names, x, nodes[i], bb, ch, b, evs, obs, fuel);
        } else {
            assert(nodes2[x as int] == nodes[x as int]);
        }
    }
}

/// Replacing a composition node of a tree by the box it stands for leaves the
/// tree's results unchanged.
pub proof fn lemma_desugared_tree_same_results(
    tree: BindingBoxTree,
    nodes2: Seq<BindingBoxTreeNode>,
    i: int,
    bb: BindingBox,
    ch: Vec<usize>,
    evs: Seq<Event>,
    obs: Seq<Object>,
)
    requires
        tree.wf(),
        0 <= i < tree.nodes@.len(),
        tree.nodes@[i].is_box_of(bb, ch),
        nodes2 == tree.nodes@.update(i, BindingBoxTreeNode::Box(bb, ch)),
    ensures
        eval_at(
            nodes2,
            tree.edge_names@,
            0,
            nodes2[0],
            empty_binding_view(),
            evs,
            obs,
            nodes2.len() as nat,
        ).0 == tree.results(evs, obs),
{
    let nodes = tree.nodes@;
    let names = tree.edge_names@;
    let fuel = nodes.len() as nat;
    lemma_replace_at(nodes, nodes2, names, i, bb, ch, 0, nodes[0], empty_binding_view(), evs, obs, fuel);
    if i == 0 {
        lemma_desugaring_preserves_evaluation(nodes2, names, 0, nodes[0], bb, ch, empty_binding_view(), evs, obs, fuel);
    } else {
        assert(nodes2[0] == nodes[0]);
    }
}

/// How many results name node `idx` with binding `b`.
pub open spec fn count_at(rs: Seq<ResultView>, idx: usize, b: BindingView) -> nat
    decreases rs.len(),
{
    if rs.len() == 0 {
        0
    } else {
        count_at(rs.drop_last(), idx, b) + if rs.last().0 == idx && rs.last().1 == b {
            1nat
        } else {
            0nat
        }
    }
}

/// How many times `b` occurs among the first `k` bindings.
pub open spec fn occurrences(bs: Seq<BindingView>, b: BindingView, k: nat) -> nat
    decreases k,
{
    if k == 0 {
        0
    } else {
        occurrences(bs, b, (k - 1) as nat) + if bs[k - 1] == b {
            1nat
        } else {
            0nat
        }
    }
}

/// No node lists `i0` among its children.
pub open spec fn children_avoid(nodes: Seq<BindingBoxTreeNode>, i0: usize) -> bool {
    forall|k: int, j: int|
        0 <= k < nodes.len() && 0 <= j < node_children(nodes[k]).len() ==> #[trigger] node_children(nodes[k])[j]
            != i0
}

proof fn lemma_count_concat(a: Seq<ResultView>, c: Seq<ResultView>, idx: usize, b: BindingView)
    ensures
        count_at(a + c, idx, b) == count_at(a, idx, b) + count_at(c, idx, b),
    decreases c.len(),
{
    if c.len() == 0 {
        assert(a + c =~= a);
    } else {
        assert((a + c).drop_last() =~= a + c.drop_last());
        assert((a + c).last() == c.last());
        lemma_count_concat(a, c.drop_last(), idx, b);
    }
}

proof fn lemma_at_avoids(
    nodes: Seq<BindingBoxTreeNode>,
    names: Seq<((usize, usize), String)>,
    c: usize,
    parent: BindingView,
    evs: Seq<Event>,
    obs: Seq<Object>,
    fuel: nat,
    i0: usize,
)
    requires
        c < nodes.len(),
        c != i0,
        children_avoid(nodes, i0),
        forall|k: int| 0 <= k < nodes.len() ==> (#[trigger] nodes[k]).children_below(nodes.len() as nat),
    ensures
        forall|b: BindingView| count_at(eval_at(nodes, names, c, nodes[c as int], parent, evs, obs, fuel).0, i0, b) == 0,
    decreases fuel, 0nat, 0nat,
{
    if fuel > 0 {
        let bs = node_expansion(nodes[c as int], parent, evs, obs);
        lemma_bindings_avoid(nodes, names, c, bs, evs, obs, (fuel - 1) as nat, bs.len(), i0);
        assert(eval_at(nodes, names, c, nodes[c as int], parent, evs, obs, fuel) == eval_bindings(
            nodes,
            names,
            c,
            nodes[c as int],
            bs,
            evs,
            obs,
            (fuel - 1) as nat,
            bs.len(),
        ));
    } else {
        assert(eval_at(nodes, names, c, nodes[c as int], parent, evs, obs, fuel).0 == Seq::<ResultView>::empty());
    }
}

proof fn lemma_bindings_avoid(
    nodes: Seq<BindingBoxTreeNode>,
    names: Seq<((usize, usize), String)>,
    c: usize,
    bs: Seq<BindingView>,
    evs: Seq<Event>,
    obs: Seq<Object>,
    fuel: nat,
    k: nat,
    i0: usize,
)
    requires
        c < nodes.len(),
        c != i0,
        children_avoid(nodes, i0),
        forall|m: int| 0 <= m < nodes.len() ==> (#[trigger] nodes[m]).children_below(nodes.len() as nat),
    ensures
        forall|b: BindingView| count_at(eval_bindings(nodes, names, c, nodes[c as int], bs, evs, obs, fuel, k).0, i0, b) == 0,
    decreases fuel, 3nat, k,
{
    if k > 0 {
        lemma_bindings_avoid(nodes, names, c, bs, evs, obs, fuel, (k - 1) as nat, i0);
        lemma_binding_avoids(nodes, names, c, bs[k - 1], evs, obs, fuel, i0);
        let prev = eval_bindings(nodes, names, c, nodes[c as int], bs, evs, obs, fuel, (k - 1) as nat);
        let one = eval_binding(nodes, names, c, nodes[c as int], bs[k - 1], evs, obs, fuel);
        assert forall|b: BindingView| count_at(eval_bindings(nodes, names, c, nodes[c as int], bs, evs, obs, fuel, k).0, i0, b) == 0 by {
            lemma_count_concat(prev.0, one.0, i0, b);
        }
    }
}

proof fn lemma_binding_avoids(
    nodes: Seq<BindingBoxTreeNode>,
    names: Seq<((usize, usize), String)>,
    c: usize,
    b0: BindingView,
    evs: Seq<Event>,
    obs: Seq<Object>,
    fuel: nat,
    i0: usize,
)
    requires
        c < nodes.len(),
        c != i0,
        children_avoid(nodes, i0),
        forall|m: int| 0 <= m < nodes.len() ==> (#[trigger] nodes[m]).children_below(nodes.len() as nat),
    ensures
        forall|b: BindingView| count_at(eval_binding(nodes, names, c, nodes[c as int], b0, evs, obs, fuel).0, i0, b) == 0,
    decreases fuel, 2nat, 0nat,
{
    let node = nodes[c as int];
    let ch = node_children(node);
    lemma_children_avoid(nodes, names, c, ch, b0, evs, obs, fuel, ch.len(), i0);
    let acc = eval_children(nodes, names, c, ch, b0, evs, obs, fuel, ch.len()).0;
    lemma_own_result_last(nodes, names, c, node, b0, evs, obs, fuel);
    let cr = eval_children(nodes, names, c, ch, b0, evs, obs, fuel, ch.len()).1;
    let e = eval_binding(nodes, names, c, node, b0, evs, obs, fuel).0;
    assert forall|b: BindingView| count_at(e, i0, b) == 0 by {
        assert(count_at(acc, i0, b) == 0);
        if node_size_ok(node, cr) {
            assert(e.drop_last() =~= acc);
            assert(e.last().0 == c);
        } else {
            assert(e == acc);
        }
    }
}

proof fn lemma_children_avoid(
    nodes: Seq<BindingBoxTreeNode>,
    names: Seq<((usize, usize), String)>,
    idx: usize,
    ch: Seq<usize>,
    b0: BindingView,
    evs: Seq<Event>,
    obs: Seq<Object>,
    fuel: nat,
    k: nat,
    i0: usize,
)
    requires
        k <= ch.len(),
        forall|j: int| 0 <= j < ch.len() ==> ch[j] != i0 && ch[j] < nodes.len(),
        children_avoid(nodes, i0),
        forall|m: int| 0 <= m < nodes.len() ==> (#[trigger] nodes[m]).children_below(nodes.len() as nat),
    ensures
        forall|b: BindingView| count_at(eval_children(nodes, names, idx, ch, b0, evs, obs, fuel, k).0, i0, b) == 0,
    decreases fuel, 1nat, k,
{
    if k > 0 {
        lemma_children_avoid(nodes, names, idx, ch, b0, evs, obs, fuel, (k - 1) as nat, i0);
        let c = ch[k - 1];
        lemma_at_avoids(nodes, names, c, b0, evs, obs, fuel, i0);
        let prev = eval_children(nodes, names, idx, ch, b0, evs, obs, fuel, (k - 1) as nat);
        let sub = eval_at(nodes, names, c, nodes[c as int], b0, evs, obs, fuel);
        assert forall|b: BindingView| count_at(eval_children(nodes, names, idx, ch, b0, evs, obs, fuel, k).0, i0, b) == 0 by {
            lemma_count_concat(prev.0, sub.0, i0, b);
        }
    }
}

/// The size filters of node `idx` hold for binding `b`, given its children's outcomes.
pub open spec fn size_ok_under(
    nodes: Seq<BindingBoxTreeNode>,
    names: Seq<((usize, usize), String)>,
    idx: usize,
    b: BindingView,
    evs: Seq<Event>,
    obs: Seq<Object>,
    fuel: nat,
) -> bool {
    let node = nodes[idx as int];
    let ch = node_children(node);
    node_size_ok(node, eval_children(nodes, names, idx, ch, b, evs, obs, fuel, ch.len()).1)
}

proof fn lemma_root_count(
    nodes: Seq<BindingBoxTreeNode>,
    names: Seq<((usize, usize), String)>,
    bs: Seq<BindingView>,
    evs: Seq<Event>,
    obs: Seq<Object>,
    fuel: nat,
    k: nat,
    b: BindingView,
)
    requires
        0 < nodes.len(),
        k <= bs.len(),
        children_avoid(nodes, 0),
        forall|m: int| 0 <= m < nodes.len() ==> (#[trigger] nodes[m]).children_below(nodes.len() as nat),
    ensures
        count_at(eval_bindings(nodes, names, 0, nodes[0], bs, evs, obs, fuel, k).0, 0, b) == if size_ok_under(
            nodes,
            names,
            0,
            b,
            evs,
            obs,
            fuel,
        ) {
            occurrences(bs, b, k)
        } else {
            0
        },
    decreases k,
{
    if k > 0 {
        lemma_root_count(nodes, names, bs, evs, obs, fuel, (k - 1) as nat, b);
        let x = bs[k - 1];
        let node = nodes[0];
        let ch = node_children(node);
        assert forall|j: int| 0 <= j < ch.len() implies ch[j] != 0 && ch[j] < nodes.len() by {
            assert(node_children(nodes[0])[j] != 0);
            assert(nodes[0].children_below(nodes.len() as nat));
        }
        lemma_children_avoid(nodes, names, 0, ch, x, evs, obs, fuel, ch.len(), 0);
        let prev = eval_bindings(nodes, names, 0, node, bs, evs, obs, fuel, (k - 1) as nat);
        let one = eval_binding(nodes, names, 0, node, x, evs, obs, fuel);
        lemma_count_concat(prev.0, one.0, 0, b);
        let acc = eval_children(nodes, names, 0, ch, x, evs, obs, fuel, ch.len()).0;
        lemma_own_result_last(nodes, names, 0, node, x, evs, obs, fuel);
        assert(count_at(acc, 0, b) == 0);
        if size_ok_under(nodes, names, 0, x, evs, obs, fuel) {
            assert(one.0.drop_last() =~= acc);
            assert(one.0.last().0 == 0 && one.0.last().1 == x);
        } else {
            assert(one.0 == acc);
        }
        assert(size_ok_under(nodes, names, 0, x, evs, obs, fuel) == size_ok_under(nodes, names, 0, b, evs, obs, fuel) || x != b);
    }
}

/// Each binding that the root admits gets exactly as many results naming the
/// root as it occurs among the root's bindings (once, for bindings that occur
/// once), unless a size filter of the root fails for it; then none. This holds
/// when no node lists the root as a child.
pub proof fn lemma_root_coverage(tree: BindingBoxTree, evs: Seq<Event>, obs: Seq<Object>, b: BindingView)
    requires
        tree.wf(),
        tree.nodes@.len() > 0,
        children_avoid(tree.nodes@, 0),
    ensures
        ({
            let nodes = tree.nodes@;
            let fuel = nodes.len() as nat;
            let bs = node_expansion(nodes[0], empty_binding_view(), evs, obs);
            count_at(tree.results(evs, obs), 0, b) == if size_ok_under(
                nodes,
                tree.edge_names@,
                0,
                b,
                evs,
                obs,
                (fuel - 1) as nat,
            ) {
                occurrences(bs, b, bs.len())
            } else {
                0
            }
        }),
{
    let nodes = tree.nodes@;
    let fuel = nodes.len() as nat;
    let bs = node_expansion(nodes[0], empty_binding_view(), evs, obs);
    lemma_root_count(nodes, tree.edge_names@, bs, evs, obs, (fuel - 1) as nat, bs.len(), b);
}

/// The first `j` declared event variables.
pub open spec fn ev_prefix_set(decls: Seq<(EventVariable, Vec<String>)>, j: nat) -> Set<EventVariable>
    decreases j,
{
    if j == 0 {
        Set::empty()
    } else {
        ev_prefix_set(decls, (j - 1) as nat).insert(decls[j - 1].0)
    }
}

pub open spec fn ob_prefix_set(decls: Seq<(ObjectVariable, Vec<String>)>, j: nat) -> Set<ObjectVariable>
    decreases j,
{
    if j == 0 {
        Set::empty()
    } else {
        ob_prefix_set(decls, (j - 1) as nat).insert(decls[j - 1].0)
    }
}

/// The event variables that the boxes among `nodes` introduce.
pub open spec fn ev_decl_set(nodes: Seq<BindingBoxTreeNode>) -> Set<EventVariable>
    decreases nodes.len(),
{
    if nodes.len() == 0 {
        Set::empty()
    } else {
        ev_decl_set(nodes.drop_last()) + match nodes.last() {
            BindingBoxTreeNode::Box(bb, _) => ev_prefix_set(bb.new_event_vars@, bb.new_event_vars@.len()),
            _ => Set::empty(),
        }
    }
}

/// The object variables that the boxes among `nodes` introduce.
pub open spec fn ob_decl_set(nodes: Seq<BindingBoxTreeNode>) -> Set<ObjectVariable>
    decreases nodes.len(),
{
    if nodes.len() == 0 {
        Set::empty()
    } else {
        ob_decl_set(nodes.drop_last()) + match nodes.last() {
            BindingBoxTreeNode::Box(bb, _) => ob_prefix_set(bb.new_object_vars@, bb.new_object_vars@.len()),
            _ => Set::empty(),
        }
    }
}

fn push_unique_ev(r: &mut Vec<EventVariable>, v: EventVariable)
    requires
        old(r)@.no_duplicates(),
    ensures
        final(r)@.no_duplicates(),
        final(r)@.to_set() == old(r)@.to_set().insert(v),
{
    let mut k: usize = 0;
    while k < r.len()
        invariant
            k <= r@.len(),
            r@ == old(r)@,
            r@.no_duplicates(),
            forall|m: int| 0 <= m < k ==> r@[m] != v,
        decreases r.len() - k,
    {
        if r[k].0 == v.0 {
            assert(r@[k as int] == v);
            proof {
                lemma_in_set(r@, v);
            }
            assert(r@.to_set() =~= r@.to_set().insert(v));
            return;
        }
        k = k + 1;
    }
    let ghost r0 = r@;
    r.push(v);
    assert forall|a: int, b: int| 0 <= a < b < r@.len() implies r@[a] != r@[b] by {
        if b == r@.len() - 1 {
            assert(r@[a] == r0[a]);
        }
    }
    assert forall|x: EventVariable| r@.contains(x) <==> (r0.contains(x) || x == v) by {
        lemma_in_set(r@, x);
        lemma_in_set(r0, x);
        if r@.contains(x) && x != v {
            let m = choose|m: int| 0 <= m < r@.len() && r@[m] == x;
            assert(r0[m] == x);
        }
        if r0.contains(x) {
            let m = choose|m: int| 0 <= m < r0.len() && r0[m] == x;
            assert(r@[m] == x);
        }
        if x == v {
            assert(r@[r@.len() - 1] == v);
        }
    }
    assert forall|x| r@.to_set().contains(x) <==> r0.to_set().insert(v).contains(x) by {
        lemma_in_set(r@, x);
        lemma_in_set(r0, x);
    }
    assert(r@.to_set() =~= r0.to_set().insert(v));
}

fn push_unique_ob(r: &mut Vec<ObjectVariable>, v: ObjectVariable)
    requires
        old(r)@.no_duplicates(),
    ensures
        final(r)@.no_duplicates(),
        final(r)@.to_set() == old(r)@.to_set().insert(v),
{
    let mut k: usize = 0;
    while k < r.len()
        invariant
            k <= r@.len(),
            r@ == old(r)@,
            r@.no_duplicates(),
            forall|m: int| 0 <= m < k ==> r@[m] != v,
        decreases r.len() - k,
    {
        if r[k].0 == v.0 {
            assert(r@[k as int] == v);
            proof {
                lemma_in_set(r@, v);
            }
            assert(r@.to_set() =~= r@.to_set().insert(v));
            return;
        }
        k = k + 1;
    }
    let ghost r0 = r@;
    r.push(v);
    assert forall|a: int, b: int| 0 <= a < b < r@.len() implies r@[a] != r@[b] by {
        if b == r@.len() - 1 {
            assert(r@[a] == r0[a]);
        }
    }
    assert forall|x: ObjectVariable| r@.contains(x) <==> (r0.contains(x) || x == v) by {
        lemma_in_set(r@, x);
        lemma_in_set(r0, x);
        if r@.contains(x) && x != v {
            let m = choose|m: int| 0 <= m < r@.len() && r@[m] == x;
            assert(r0[m] == x);
        }
        if r0.contains(x) {
            let m = choose|m: int| 0 <= m < r0.len() && r0[m] == x;
            assert(r@[m] == x);
        }
        if x == v {
            assert(r@[r@.len() - 1] == v);
        }
    }
    assert forall|x| r@.to_set().contains(x) <==> r0.to_set().insert(v).contains(x) by {
        lemma_in_set(r@, x);
        lemma_in_set(r0, x);
    }
    assert(r@.to_set() =~= r0.to_set().insert(v));
}

} // verus!
