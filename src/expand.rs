use vstd::prelude::*;

use crate::binding::{
    lemma_entries_with, Binding, BindingView, EventIndex, EventVariable, ObjectIndex,
    ObjectVariable, Variable,
};
use crate::constraint::{Constraint, SizeFilter};
use crate::filter::{filter_holds, involved_vars, lemma_filter_local, timestamps_in_range, Filter};
use crate::ocel::{event_indices_of_type, object_indices_of_type, Event, IndexLinkedOCEL, Object};

verus! {

/// A node's own content: the variables it introduces, each with the types its
/// value may have, the filters on its bindings, and the tests it applies after
/// its children.
#[derive(Debug, Clone)]
pub struct BindingBox {
    pub new_event_vars: Vec<(EventVariable, Vec<String>)>,
    pub new_object_vars: Vec<(ObjectVariable, Vec<String>)>,
    pub filters: Vec<Filter>,
    pub size_filters: Vec<SizeFilter>,
    pub constraints: Vec<Constraint>,
}

/// The mathematical form of a list of bindings.
pub open spec fn views(bs: Seq<Binding>) -> Seq<BindingView> {
    bs.map_values(|b: Binding| b@)
}

pub open spec fn all_wf(bs: Seq<Binding>) -> bool {
    forall|i: int| 0 <= i < bs.len() ==> (#[trigger] bs[i]).wf()
}

pub open spec fn views_wf(bs: Seq<BindingView>) -> bool {
    forall|i: int| 0 <= i < bs.len() ==> (#[trigger] bs[i]).wf()
}

/// The type at `i` was listed before.
pub open spec fn listed_before(types: Seq<String>, i: int) -> bool {
    exists|j: int| 0 <= j < i && types[j]@ == types[i]@
}

pub open spec fn event_positions(s: Seq<EventIndex>) -> Seq<usize> {
    s.map_values(|e: EventIndex| e.0)
}

pub open spec fn object_positions(s: Seq<ObjectIndex>) -> Seq<usize> {
    s.map_values(|o: ObjectIndex| o.0)
}

/// The events whose type is one of `types`, type by type, each type once.
pub open spec fn event_candidates(evs: Seq<Event>, types: Seq<String>) -> Seq<usize>
    decreases types.len(),
{
    if types.len() == 0 {
        Seq::empty()
    } else {
        let rest = event_candidates(evs, types.drop_last());
        if listed_before(types, types.len() - 1) {
            rest
        } else {
            rest + event_positions(event_indices_of_type(evs, types.last()@))
        }
    }
}

/// The objects whose type is one of `types`, type by type, each type once.
pub open spec fn object_candidates(obs: Seq<Object>, types: Seq<String>) -> Seq<usize>
    decreases types.len(),
{
    if types.len() == 0 {
        Seq::empty()
    } else {
        let rest = object_candidates(obs, types.drop_last());
        if listed_before(types, types.len() - 1) {
            rest
        } else {
            rest + object_positions(object_indices_of_type(obs, types.last()@))
        }
    }
}

impl BindingView {
    pub open spec fn with_var(self, v: Variable, idx: usize) -> BindingView {
        match v {
            Variable::Event(e) => self.with_ev(e.0, idx),
            Variable::Object(o) => self.with_ob(o.0, idx),
        }
    }
}

/// `b` extended by each candidate for `v`, in the candidates' order.
pub open spec fn choices(b: BindingView, v: Variable, cands: Seq<usize>) -> Seq<BindingView> {
    cands.map_values(|c: usize| b.with_var(v, c))
}

/// Each binding extended by each candidate, bindings in order, then candidates.
pub open spec fn extend_all(bs: Seq<BindingView>, v: Variable, cands: Seq<usize>) -> Seq<BindingView>
    decreases bs.len(),
{
    if bs.len() == 0 {
        Seq::empty()
    } else {
        extend_all(bs.drop_last(), v, cands) + choices(bs.last(), v, cands)
    }
}

/// The bindings of `bs` that `p` accepts, in order.
pub open spec fn keep(bs: Seq<BindingView>, p: spec_fn(BindingView) -> bool) -> Seq<BindingView>
    decreases bs.len(),
{
    if bs.len() == 0 {
        Seq::empty()
    } else if p(bs.last()) {
        keep(bs.drop_last(), p).push(bs.last())
    } else {
        keep(bs.drop_last(), p)
    }
}

/// The last position at which `e` is declared, or -1.
pub open spec fn last_ev_decl(decls: Seq<(EventVariable, Vec<String>)>, e: EventVariable) -> int
    decreases decls.len(),
{
    if decls.len() == 0 {
        -1
    } else if decls.last().0 == e {
        decls.len() - 1
    } else {
        last_ev_decl(decls.drop_last(), e)
    }
}

pub open spec fn last_ob_decl(decls: Seq<(ObjectVariable, Vec<String>)>, o: ObjectVariable) -> int
    decreases decls.len(),
{
    if decls.len() == 0 {
        -1
    } else if decls.last().0 == o {
        decls.len() - 1
    } else {
        last_ob_decl(decls.drop_last(), o)
    }
}

pub open spec fn max_int(a: int, b: int) -> int {
    if a >= b {
        a
    } else {
        b
    }
}

impl BindingBox {
    /// Each variable is declared once: the declarations are maps from variables to type sets.
    pub open spec fn declares_distinct(self) -> bool {
        &&& forall|i: int, j: int|
            0 <= i < j < self.new_event_vars@.len() ==> self.new_event_vars@[i].0 != self.new_event_vars@[j].0
        &&& forall|i: int, j: int|
            0 <= i < j < self.new_object_vars@.len() ==> self.new_object_vars@[i].0 != self.new_object_vars@[j].0
    }

    /// How many variables the box introduces: event variables first, then object variables.
    pub open spec fn num_steps(self) -> int {
        (self.new_event_vars@.len() + self.new_object_vars@.len()) as int
    }

    /// The variable that step `k` binds.
    pub open spec fn step_var(self, k: int) -> Variable {
        if k < self.new_event_vars@.len() {
            Variable::Event(self.new_event_vars@[k].0)
        } else {
            Variable::Object(self.new_object_vars@[k - self.new_event_vars@.len()].0)
        }
    }

    /// The indices that step `k` tries for its variable.
    pub open spec fn step_cands(self, k: int, evs: Seq<Event>, obs: Seq<Object>) -> Seq<usize> {
        if k < self.new_event_vars@.len() {
            event_candidates(evs, self.new_event_vars@[k].1@)
        } else {
            object_candidates(obs, self.new_object_vars@[k - self.new_event_vars@.len()].1@)
        }
    }

    /// After how many steps `v` holds its final value (0 when the box does not bind it).
    pub open spec fn level(self, v: Variable) -> int {
        match v {
            Variable::Event(e) => last_ev_decl(self.new_event_vars@, e) + 1,
            Variable::Object(o) => {
                let j = last_ob_decl(self.new_object_vars@, o);
                if j < 0 {
                    0
                } else {
                    self.new_event_vars@.len() + j + 1
                }
            },
        }
    }

    pub open spec fn max_level(self, vs: Seq<Variable>) -> int
        decreases vs.len(),
    {
        if vs.len() == 0 {
            0
        } else {
            max_int(self.max_level(vs.drop_last()), self.level(vs.last()))
        }
    }

    /// The first point at which all variables of `f` hold their final values:
    /// the filter is applied right after that step.
    pub open spec fn stage(self, f: Filter) -> int {
        self.max_level(involved_vars(f))
    }

    /// The binding passes every filter whose stage is `s`.
    pub open spec fn passes_stage(self, s: int, evs: Seq<Event>, obs: Seq<Object>) -> spec_fn(
        BindingView,
    ) -> bool {
        |b: BindingView|
            forall|i: int|
                0 <= i < self.filters@.len() && self.stage(#[trigger] self.filters@[i]) == s
                    ==> filter_holds(self.filters@[i], b, evs, obs)
    }

    /// The binding passes every filter whose stage is at most `s`.
    pub open spec fn passes_upto(self, s: int, evs: Seq<Event>, obs: Seq<Object>) -> spec_fn(
        BindingView,
    ) -> bool {
        |b: BindingView|
            forall|i: int|
                0 <= i < self.filters@.len() && self.stage(#[trigger] self.filters@[i]) <= s
                    ==> filter_holds(self.filters@[i], b, evs, obs)
    }

    /// The binding passes every filter.
    pub open spec fn passes_all(self, evs: Seq<Event>, obs: Seq<Object>) -> spec_fn(BindingView) -> bool {
        |b: BindingView|
            forall|i: int|
                0 <= i < self.filters@.len() ==> filter_holds(#[trigger] self.filters@[i], b, evs, obs)
    }

    /// The bindings after `k` steps with no filter applied.
    pub open spec fn product(self, bs0: Seq<BindingView>, k: nat, evs: Seq<Event>, obs: Seq<Object>) -> Seq<
        BindingView,
    >
        decreases k,
    {
        if k == 0 {
            bs0
        } else {
            extend_all(
                self.product(bs0, (k - 1) as nat, evs, obs),
                self.step_var(k - 1),
                self.step_cands(k - 1, evs, obs),
            )
        }
    }

    /// The bindings after `k` steps, each filter applied as soon as its variables are bound.
    pub open spec fn staged(self, bs0: Seq<BindingView>, k: nat, evs: Seq<Event>, obs: Seq<Object>) -> Seq<
        BindingView,
    >
        decreases k,
    {
        if k == 0 {
            keep(bs0, self.passes_stage(0, evs, obs))
        } else {
            keep(
                extend_all(
                    self.staged(bs0, (k - 1) as nat, evs, obs),
                    self.step_var(k - 1),
                    self.step_cands(k - 1, evs, obs),
                ),
                self.passes_stage(k as int, evs, obs),
            )
        }
    }

    /// What a box admits from the given bindings: each binding extended by every
    /// combination of candidates for the new variables, kept when every filter holds.
    pub open spec fn expansion(self, bs0: Seq<BindingView>, evs: Seq<Event>, obs: Seq<Object>) -> Seq<
        BindingView,
    > {
        keep(self.product(bs0, self.num_steps() as nat, evs, obs), self.passes_all(evs, obs))
    }
}

proof fn lemma_keep_concat(a: Seq<BindingView>, b: Seq<BindingView>, p: spec_fn(BindingView) -> bool)
    ensures
        keep(a + b, p) == keep(a, p) + keep(b, p),
    decreases b.len(),
{
    if b.len() == 0 {
        assert(a + b =~= a);
        assert(keep(a, p) + keep(b, p) =~= keep(a, p));
    } else {
        assert((a + b).drop_last() =~= a + b.drop_last());
        assert((a + b).last() == b.last());
        lemma_keep_concat(a, b.drop_last(), p);
        if p(b.last()) {
            assert(keep(a, p) + keep(b, p) =~= (keep(a, p) + keep(b.drop_last(), p)).push(b.last()));
        }
    }
}

proof fn lemma_keep_ext(bs: Seq<BindingView>, p: spec_fn(BindingView) -> bool, q: spec_fn(BindingView) -> bool)
    requires
        forall|i: int| 0 <= i < bs.len() ==> p(bs[i]) == q(bs[i]),
    ensures
        keep(bs, p) == keep(bs, q),
    decreases bs.len(),
{
    if bs.len() > 0 {
        assert(p(bs[bs.len() - 1]) == q(bs[bs.len() - 1]));
        lemma_keep_ext(bs.drop_last(), p, q);
    }
}

proof fn lemma_keep_keep(bs: Seq<BindingView>, p: spec_fn(BindingView) -> bool, q: spec_fn(BindingView) -> bool)
    ensures
        keep(keep(bs, p), q) == keep(bs, |b: BindingView| p(b) && q(b)),
    decreases bs.len(),
{
    if bs.len() > 0 {
        lemma_keep_keep(bs.drop_last(), p, q);
        if p(bs.last()) {
            let kp = keep(bs, p);
            assert(kp.drop_last() =~= keep(bs.drop_last(), p));
        }
    }
}

/// Keeping among the choices for one binding keeps all or none of them, when
/// the test does not look at the variable being bound.
proof fn lemma_keep_choices(b: BindingView, v: Variable, cands: Seq<usize>, p: spec_fn(BindingView) -> bool)
    requires
        forall|c: usize| #[trigger] p(b.with_var(v, c)) == p(b),
    ensures
        keep(choices(b, v, cands), p) == (if p(b) {
            choices(b, v, cands)
        } else {
            Seq::empty()
        }),
    decreases cands.len(),
{
    if cands.len() > 0 {
        let cs = choices(b, v, cands);
        assert(cs.drop_last() =~= choices(b, v, cands.drop_last()));
        lemma_keep_choices(b, v, cands.drop_last(), p);
        assert(cs.last() == b.with_var(v, cands.last()));
        if p(b) {
            assert(cs =~= choices(b, v, cands.drop_last()).push(cs.last()));
        }
    } else {
        assert(choices(b, v, cands) =~= Seq::<BindingView>::empty());
    }
}

/// Filtering before extending gives what filtering after does, when the test
/// does not look at the variable being bound.
proof fn lemma_extend_keep(bs: Seq<BindingView>, v: Variable, cands: Seq<usize>, p: spec_fn(BindingView) -> bool)
    requires
        forall|i: int, c: usize| 0 <= i < bs.len() ==> #[trigger] p(bs[i].with_var(v, c)) == p(bs[i]),
    ensures
        extend_all(keep(bs, p), v, cands) == keep(extend_all(bs, v, cands), p),
    decreases bs.len(),
{
    if bs.len() == 0 {
        assert(keep(bs, p) =~= Seq::<BindingView>::empty());
    } else {
        let x = bs.last();
        let rest = bs.drop_last();
        assert forall|i: int, c: usize| 0 <= i < rest.len() implies #[trigger] p(rest[i].with_var(v, c)) == p(rest[i]) by {
            assert(rest[i] == bs[i]);
        }
        lemma_extend_keep(rest, v, cands, p);
        lemma_keep_concat(extend_all(rest, v, cands), choices(x, v, cands), p);
        assert forall|c: usize| #[trigger] p(x.with_var(v, c)) == p(x) by {
            assert(bs[bs.len() - 1] == x);
        }
        lemma_keep_choices(x, v, cands, p);
        if p(x) {
            let kb = keep(bs, p);
            assert(kb.drop_last() =~= keep(rest, p));
            assert(kb.last() == x);
        } else {
            assert(choices(x, v, cands).len() >= 0);
            assert(keep(extend_all(rest, v, cands), p) + Seq::<BindingView>::empty() =~= keep(extend_all(rest, v, cands), p));
        }
    }
}

proof fn lemma_with_var_wf(b: BindingView, v: Variable, c: usize)
    requires
        b.wf(),
    ensures
        b.with_var(v, c).wf(),
        forall|w: Variable| w != v ==> #[trigger] b.with_var(v, c).var_value(w) == b.var_value(w),
{
    match v {
        Variable::Event(e) => {
            lemma_insert_pos_exists(b.events, e.0);
            let p = choose|p: int| crate::binding::is_insert_pos(b.events, e.0, p);
            lemma_entries_with(b.events, e.0, c, p);
        },
        Variable::Object(o) => {
            lemma_insert_pos_exists(b.objects, o.0);
            let p = choose|p: int| crate::binding::is_insert_pos(b.objects, o.0, p);
            lemma_entries_with(b.objects, o.0, c, p);
        },
    }
}

proof fn lemma_insert_pos_exists(s: Seq<(usize, usize)>, k: usize)
    ensures
        exists|p: int| crate::binding::is_insert_pos(s, k, p),
    decreases s.len(),
{
    if s.len() == 0 || s[0].0 >= k {
        assert(crate::binding::is_insert_pos(s, k, 0));
    } else {
        let t = s.drop_first();
        lemma_insert_pos_exists(t, k);
        let q = choose|q: int| crate::binding::is_insert_pos(t, k, q);
        assert forall|j: int| 0 <= j < q + 1 implies s[j].0 < k by {
            if j > 0 {
                assert(s[j] == t[j - 1]);
            }
        }
        if q + 1 < s.len() {
            assert(s[q + 1] == t[q]);
        }
        assert(crate::binding::is_insert_pos(s, k, q + 1));
    }
}

proof fn lemma_extend_wf(bs: Seq<BindingView>, v: Variable, cands: Seq<usize>)
    requires
        views_wf(bs),
    ensures
        views_wf(extend_all(bs, v, cands)),
    decreases bs.len(),
{
    if bs.len() > 0 {
        assert(views_wf(bs.drop_last())) by {
            assert forall|i: int| 0 <= i < bs.drop_last().len() implies (#[trigger] bs.drop_last()[i]).wf() by {
                assert(bs.drop_last()[i] == bs[i]);
            }
        }
        lemma_extend_wf(bs.drop_last(), v, cands);
        let x = bs.last();
        assert(x == bs[bs.len() - 1]);
        let all = extend_all(bs, v, cands);
        let first = extend_all(bs.drop_last(), v, cands);
        assert forall|i: int| 0 <= i < all.len() implies (#[trigger] all[i]).wf() by {
            if i < first.len() {
                assert(all[i] == first[i]);
            } else {
                assert(all[i] == x.with_var(v, cands[i - first.len()]));
                lemma_with_var_wf(x, v, cands[i - first.len()]);
            }
        }
    }
}

proof fn lemma_keep_wf(bs: Seq<BindingView>, p: spec_fn(BindingView) -> bool)
    requires
        views_wf(bs),
    ensures
        views_wf(keep(bs, p)),
        forall|i: int| 0 <= i < keep(bs, p).len() ==> p(#[trigger] keep(bs, p)[i]),
    decreases bs.len(),
{
    if bs.len() > 0 {
        assert forall|i: int| 0 <= i < bs.drop_last().len() implies (#[trigger] bs.drop_last()[i]).wf() by {
            assert(bs.drop_last()[i] == bs[i]);
        }
        lemma_keep_wf(bs.drop_last(), p);
        assert(bs[bs.len() - 1] == bs.last());
    }
}

proof fn lemma_last_ev_decl(decls: Seq<(EventVariable, Vec<String>)>, k: int)
    requires
        0 <= k < decls.len(),
    ensures
        k <= last_ev_decl(decls, decls[k].0) < decls.len(),
    decreases decls.len(),
{
    if k < decls.len() - 1 && decls.last().0 != decls[k].0 {
        lemma_last_ev_decl(decls.drop_last(), k);
    }
}

proof fn lemma_last_ob_decl(decls: Seq<(ObjectVariable, Vec<String>)>, k: int)
    requires
        0 <= k < decls.len(),
    ensures
        k <= last_ob_decl(decls, decls[k].0) < decls.len(),
    decreases decls.len(),
{
    if k < decls.len() - 1 && decls.last().0 != decls[k].0 {
        lemma_last_ob_decl(decls.drop_last(), k);
    }
}

proof fn lemma_last_decl_bounds(decls_e: Seq<(EventVariable, Vec<String>)>, e: EventVariable, decls_o: Seq<(ObjectVariable, Vec<String>)>, o: ObjectVariable)
    ensures
        -1 <= last_ev_decl(decls_e, e) < decls_e.len(),
        -1 <= last_ob_decl(decls_o, o) < decls_o.len(),
    decreases decls_e.len() + decls_o.len(),
{
    if decls_e.len() > 0 {
        lemma_last_decl_bounds(decls_e.drop_last(), e, decls_o, o);
    }
    if decls_o.len() > 0 {
        lemma_last_decl_bounds(decls_e, e, decls_o.drop_last(), o);
    }
}

proof fn lemma_max_level(bb: BindingBox, vs: Seq<Variable>)
    ensures
        0 <= bb.max_level(vs) <= bb.num_steps(),
        forall|i: int| 0 <= i < vs.len() ==> bb.level(#[trigger] vs[i]) <= bb.max_level(vs),
    decreases vs.len(),
{
    if vs.len() > 0 {
        lemma_max_level(bb, vs.drop_last());
        match vs.last() {
            Variable::Event(e) => lemma_last_decl_bounds(bb.new_event_vars@, e, bb.new_object_vars@, ObjectVariable(0)),
            Variable::Object(o) => lemma_last_decl_bounds(bb.new_event_vars@, EventVariable(0), bb.new_object_vars@, o),
        }
        assert forall|i: int| 0 <= i < vs.len() implies bb.level(#[trigger] vs[i]) <= bb.max_level(vs) by {
            if i < vs.len() - 1 {
                assert(vs[i] == vs.drop_last()[i]);
            }
        }
    }
}

/// The variable of step `k` is not read by a filter applied at or before stage `k`.
proof fn lemma_step_var_not_involved(bb: BindingBox, f: Filter, k: int)
    requires
        0 <= k < bb.num_steps(),
        bb.stage(f) <= k,
    ensures
        forall|i: int| 0 <= i < involved_vars(f).len() ==> #[trigger] involved_vars(f)[i] != bb.step_var(k),
{
    lemma_max_level(bb, involved_vars(f));
    let ne = bb.new_event_vars@.len();
    if k < ne {
        lemma_last_ev_decl(bb.new_event_vars@, k);
    } else {
        lemma_last_ob_decl(bb.new_object_vars@, k - ne);
    }
    assert(bb.level(bb.step_var(k)) >= k + 1);
}

/// Extending by step `k` leaves the filters of stage at most `k` unchanged.
proof fn lemma_upto_invariant(bb: BindingBox, k: int, b: BindingView, c: usize, evs: Seq<Event>, obs: Seq<Object>)
    requires
        0 <= k < bb.num_steps(),
        b.wf(),
    ensures
        (bb.passes_upto(k, evs, obs))(b.with_var(bb.step_var(k), c)) == (bb.passes_upto(k, evs, obs))(b),
{
    let u = bb.step_var(k);
    let b2 = b.with_var(u, c);
    lemma_with_var_wf(b, u, c);
    assert forall|i: int| 0 <= i < bb.filters@.len() && bb.stage(#[trigger] bb.filters@[i]) <= k implies
        filter_holds(bb.filters@[i], b2, evs, obs) == filter_holds(bb.filters@[i], b, evs, obs) by {
        let f = bb.filters@[i];
        lemma_step_var_not_involved(bb, f, k);
        assert forall|j: int| 0 <= j < involved_vars(f).len() implies b2.var_value(#[trigger] involved_vars(f)[j])
            == b.var_value(involved_vars(f)[j]) by {
            assert(involved_vars(f)[j] != u);
        }
        lemma_filter_local(f, b2, b, evs, obs);
    }
}

proof fn lemma_staged_upto(bb: BindingBox, bs0: Seq<BindingView>, k: nat, evs: Seq<Event>, obs: Seq<Object>)
    requires
        views_wf(bs0),
        k <= bb.num_steps(),
    ensures
        bb.staged(bs0, k, evs, obs) == keep(bb.product(bs0, k, evs, obs), bb.passes_upto(k as int, evs, obs)),
        views_wf(bb.product(bs0, k, evs, obs)),
    decreases k,
{
    if k == 0 {
        assert forall|i: int| 0 <= i < bs0.len() implies (bb.passes_stage(0, evs, obs))(bs0[i]) == (bb.passes_upto(0, evs, obs))(bs0[i]) by {
            assert forall|j: int| 0 <= j < bb.filters@.len() implies bb.stage(#[trigger] bb.filters@[j]) >= 0 by {
                lemma_max_level(bb, involved_vars(bb.filters@[j]));
            }
        }
        lemma_keep_ext(bs0, bb.passes_stage(0, evs, obs), bb.passes_upto(0, evs, obs));
    } else {
        let km = (k - 1) as nat;
        lemma_staged_upto(bb, bs0, km, evs, obs);
        let prod = bb.product(bs0, km, evs, obs);
        let u = bb.step_var(km as int);
        let cands = bb.step_cands(km as int, evs, obs);
        let pu = bb.passes_upto(km as int, evs, obs);
        assert forall|i: int, c: usize| 0 <= i < prod.len() implies #[trigger] pu(prod[i].with_var(u, c)) == pu(prod[i]) by {
            lemma_upto_invariant(bb, km as int, prod[i], c, evs, obs);
        }
        lemma_extend_keep(prod, u, cands, pu);
        let ext = extend_all(prod, u, cands);
        lemma_extend_wf(prod, u, cands);
        let ps = bb.passes_stage(k as int, evs, obs);
        lemma_keep_keep(ext, pu, ps);
        let both = |b: BindingView| pu(b) && ps(b);
        assert forall|i: int| 0 <= i < ext.len() implies both(ext[i]) == (bb.passes_upto(k as int, evs, obs))(ext[i]) by {
        }
        lemma_keep_ext(ext, both, bb.passes_upto(k as int, evs, obs));
    }
}

/// Applying each filter as soon as its variables are bound admits exactly the
/// bindings that applying every filter after all variables are bound admits, in
/// the same order.
pub proof fn lemma_filter_push_equivalence(bb: BindingBox, bs0: Seq<BindingView>, evs: Seq<Event>, obs: Seq<Object>)
    requires
        views_wf(bs0),
    ensures
        bb.staged(bs0, bb.num_steps() as nat, evs, obs) == bb.expansion(bs0, evs, obs),
{
    let n = bb.num_steps() as nat;
    lemma_staged_upto(bb, bs0, n, evs, obs);
    let prod = bb.product(bs0, n, evs, obs);
    assert forall|i: int| 0 <= i < prod.len() implies (bb.passes_upto(n as int, evs, obs))(prod[i]) == (bb.passes_all(evs, obs))(prod[i]) by {
        assert forall|j: int| 0 <= j < bb.filters@.len() implies bb.stage(#[trigger] bb.filters@[j]) <= n by {
            lemma_max_level(bb, involved_vars(bb.filters@[j]));
        }
    }
    lemma_keep_ext(prod, bb.passes_upto(n as int, evs, obs), bb.passes_all(evs, obs));
}

fn listed_earlier(types: &Vec<String>, i: usize) -> (r: bool)
    requires
        i < types.len(),
    ensures
        r == listed_before(types@, i as int),
{
    let mut j: usize = 0;
    while j < i
        invariant
            j <= i < types.len(),
            forall|m: int| 0 <= m < j ==> types@[m]@ != types@[i as int]@,
        decreases i - j,
    {
        if types[j] == types[i] {
            return true;
        }
        j = j + 1;
    }
    false
}

fn event_candidates_in(ocel: &IndexLinkedOCEL, types: &Vec<String>) -> (r: Vec<usize>)
    requires
        ocel.wf(),
    ensures
        r@ == event_candidates(ocel.events(), types@),
{
    let mut out: Vec<usize> = Vec::new();
    let mut i: usize = 0;
    while i < types.len()
        invariant
            i <= types.len(),
            ocel.wf(),
            out@ == event_candidates(ocel.events(), types@.subrange(0, i as int)),
        decreases types.len() - i,
    {
        let ghost sub = types@.subrange(0, i + 1);
        assert(sub.drop_last() =~= types@.subrange(0, i as int));
        assert(listed_before(sub, i as int) == listed_before(types@, i as int)) by {
            if listed_before(types@, i as int) {
                let j = choose|j: int| 0 <= j < i && types@[j]@ == types@[i as int]@;
                assert(sub[j] == types@[j]);
            }
        }
        if !listed_earlier(types, i) {
            let idx = ocel.events_of_type(&types[i]);
            let ghost prev = out@;
            let mut j: usize = 0;
            while j < idx.len()
                invariant
                    j <= idx.len(),
                    out@ == prev + event_positions(idx@.subrange(0, j as int)),
                decreases idx.len() - j,
            {
                out.push(idx[j].0);
                assert(event_positions(idx@.subrange(0, j + 1)) =~= event_positions(idx@.subrange(0, j as int)).push(idx@[j as int].0));
                j = j + 1;
            }
            assert(idx@.subrange(0, idx.len() as int) =~= idx@);
        }
        i = i + 1;
    }
    assert(types@.subrange(0, types.len() as int) =~= types@);
    out
}

fn object_candidates_in(ocel: &IndexLinkedOCEL, types: &Vec<String>) -> (r: Vec<usize>)
    requires
        ocel.wf(),
    ensures
        r@ == object_candidates(ocel.objects(), types@),
{
    let mut out: Vec<usize> = Vec::new();
    let mut i: usize = 0;
    while i < types.len()
        invariant
            i <= types.len(),
            ocel.wf(),
            out@ == object_candidates(ocel.objects(), types@.subrange(0, i as int)),
        decreases types.len() - i,
    {
        let ghost sub = types@.subrange(0, i + 1);
        assert(sub.drop_last() =~= types@.subrange(0, i as int));
        assert(listed_before(sub, i as int) == listed_before(types@, i as int)) by {
            if listed_before(types@, i as int) {
                let j = choose|j: int| 0 <= j < i && types@[j]@ == types@[i as int]@;
                assert(sub[j] == types@[j]);
            }
        }
        if !listed_earlier(types, i) {
            let idx = ocel.objects_of_type(&types[i]);
            let ghost prev = out@;
            let mut j: usize = 0;
            while j < idx.len()
                invariant
                    j <= idx.len(),
                    out@ == prev + object_positions(idx@.subrange(0, j as int)),
                decreases idx.len() - j,
            {
                out.push(idx[j].0);
                assert(object_positions(idx@.subrange(0, j + 1)) =~= object_positions(idx@.subrange(0, j as int)).push(idx@[j as int].0));
                j = j + 1;
            }
            assert(idx@.subrange(0, idx.len() as int) =~= idx@);
        }
        i = i + 1;
    }
    assert(types@.subrange(0, types.len() as int) =~= types@);
    out
}

fn bind_var(b: &Binding, v: Variable, c: usize) -> (r: Binding)
    requires
        b.wf(),
    ensures
        r.wf(),
        r@ == b@.with_var(v, c),
{
    match v {
        Variable::Event(e) => b.duplicate().expand_with_ev(e, EventIndex(c)),
        Variable::Object(o) => b.duplicate().expand_with_ob(o, ObjectIndex(c)),
    }
}

/// Each binding extended by each candidate for `v`.
fn extend_bindings(bs: &Vec<Binding>, v: Variable, cands: &Vec<usize>) -> (r: Vec<Binding>)
    requires
        all_wf(bs@),
    ensures
        all_wf(r@),
        views(r@) == extend_all(views(bs@), v, cands@),
{
    let mut out: Vec<Binding> = Vec::new();
    let mut i: usize = 0;
    while i < bs.len()
        invariant
            i <= bs.len(),
            all_wf(bs@),
            all_wf(out@),
            views(out@) == extend_all(views(bs@).subrange(0, i as int), v, cands@),
        decreases bs.len() - i,
    {
        let ghost x = bs@[i as int]@;
        let ghost before = views(out@);
        assert(views(bs@).subrange(0, i + 1).drop_last() =~= views(bs@).subrange(0, i as int));
        assert(views(bs@).subrange(0, i + 1).last() == x);
        let mut j: usize = 0;
        while j < cands.len()
            invariant
                i < bs.len(),
                j <= cands.len(),
                all_wf(bs@),
                all_wf(out@),
                x == bs@[i as int]@,
                views(out@) == before + choices(x, v, cands@.subrange(0, j as int)),
            decreases cands.len() - j,
        {
            let nb = bind_var(&bs[i], v, cands[j]);
            let ghost prev = out@;
            out.push(nb);
            assert(views(out@) =~= views(prev).push(nb@));
            assert(choices(x, v, cands@.subrange(0, j + 1)) =~= choices(x, v, cands@.subrange(0, j as int)).push(
                x.with_var(v, cands@[j as int]),
            ));
            assert(views(out@) =~= before + choices(x, v, cands@.subrange(0, j + 1)));
            j = j + 1;
        }
        assert(cands@.subrange(0, cands.len() as int) =~= cands@);
        i = i + 1;
    }
    assert(views(bs@).subrange(0, bs.len() as int) =~= views(bs@));
    out
}

impl BindingBox {
    /// After how many steps `v` holds its final value.
    fn var_level(&self, v: &Variable) -> (r: u128)
        ensures
            r == self.level(*v),
    {
        let vv = *v;
        match vv {
            Variable::Event(e) => {
                let mut k: usize = self.new_event_vars.len();
                assert(self.new_event_vars@.subrange(0, k as int) =~= self.new_event_vars@);
                while k > 0
                    invariant
                        k <= self.new_event_vars@.len(),
                        *v == Variable::Event(e),
                        last_ev_decl(self.new_event_vars@, e) == last_ev_decl(
                            self.new_event_vars@.subrange(0, k as int),
                            e,
                        ),
                    decreases k,
                {
                    let ghost sub = self.new_event_vars@.subrange(0, k as int);
                    assert(sub.drop_last() =~= self.new_event_vars@.subrange(0, k - 1));
                    assert(sub.last() == self.new_event_vars@[k - 1]);
                    if self.new_event_vars[k - 1].0.0 == e.0 {
                        assert(sub.last().0 == e);
                        return k as u128;
                    }
                    k = k - 1;
                }
                0
            },
            Variable::Object(o) => {
                let mut k: usize = self.new_object_vars.len();
                assert(self.new_object_vars@.subrange(0, k as int) =~= self.new_object_vars@);
                while k > 0
                    invariant
                        k <= self.new_object_vars@.len(),
                        *v == Variable::Object(o),
                        last_ob_decl(self.new_object_vars@, o) == last_ob_decl(
                            self.new_object_vars@.subrange(0, k as int),
                            o,
                        ),
                    decreases k,
                {
                    let ghost sub = self.new_object_vars@.subrange(0, k as int);
                    assert(sub.drop_last() =~= self.new_object_vars@.subrange(0, k - 1));
                    assert(sub.last() == self.new_object_vars@[k - 1]);
                    if self.new_object_vars[k - 1].0.0 == o.0 {
                        assert(sub.last().0 == o);
                        return self.new_event_vars.len() as u128 + k as u128;
                    }
                    k = k - 1;
                }
                0
            },
        }
    }

    /// The stage of each filter, in order.
    fn filter_stages(&self) -> (r: Vec<u128>)
        ensures
            r@.len() == self.filters@.len(),
            forall|i: int| 0 <= i < r@.len() ==> r@[i] == self.stage(#[trigger] self.filters@[i]),
    {
        let mut r: Vec<u128> = Vec::new();
        let mut i: usize = 0;
        while i < self.filters.len()
            invariant
                i <= self.filters@.len(),
                r@.len() == i,
                forall|k: int| 0 <= k < i ==> r@[k] == self.stage(#[trigger] self.filters@[k]),
            decreases self.filters.len() - i,
        {
            let vars = self.filters[i].get_involved_variables();
            let mut m: u128 = 0;
            let mut j: usize = 0;
            while j < vars.len()
                invariant
                    j <= vars.len(),
                    m == self.max_level(vars@.subrange(0, j as int)),
                decreases vars.len() - j,
            {
                assert(vars@.subrange(0, j + 1).drop_last() =~= vars@.subrange(0, j as int));
                assert(vars@.subrange(0, j + 1).last() == vars@[j as int]);
                let l = self.var_level(&vars[j]);
                if l > m {
                    m = l;
                }
                j = j + 1;
            }
            assert(vars@.subrange(0, vars.len() as int) =~= vars@);
            r.push(m);
            i = i + 1;
        }
        r
    }

    /// Whether `b` passes every filter of stage `s`.
    fn passes_at(&self, b: &Binding, stages: &Vec<u128>, s: u128, ocel: &IndexLinkedOCEL) -> (r: bool)
        requires
            b.wf(),
            timestamps_in_range(ocel.events()),
            stages@.len() == self.filters@.len(),
            forall|i: int| 0 <= i < stages@.len() ==> stages@[i] == self.stage(#[trigger] self.filters@[i]),
        ensures
            r == (self.passes_stage(s as int, ocel.events(), ocel.objects()))(b@),
    {
        let mut i: usize = 0;
        while i < self.filters.len()
            invariant
                i <= self.filters@.len(),
                b.wf(),
                timestamps_in_range(ocel.events()),
                stages@.len() == self.filters@.len(),
                forall|k: int| 0 <= k < stages@.len() ==> stages@[k] == self.stage(#[trigger] self.filters@[k]),
                forall|k: int|
                    0 <= k < i && self.stage(#[trigger] self.filters@[k]) == s ==> filter_holds(
                        self.filters@[k],
                        b@,
                        ocel.events(),
                        ocel.objects(),
                    ),
            decreases self.filters.len() - i,
        {
            if stages[i] == s && !self.filters[i].check_binding(b, ocel) {
                assert(self.stage(self.filters@[i as int]) == s);
                return false;
            }
            i = i + 1;
        }
        true
    }

    /// The bindings that pass every filter of stage `s`, in order.
    fn keep_stage(&self, bs: Vec<Binding>, stages: &Vec<u128>, s: u128, ocel: &IndexLinkedOCEL) -> (r: Vec<Binding>)
        requires
            all_wf(bs@),
            timestamps_in_range(ocel.events()),
            stages@.len() == self.filters@.len(),
            forall|i: int| 0 <= i < stages@.len() ==> stages@[i] == self.stage(#[trigger] self.filters@[i]),
        ensures
            all_wf(r@),
            views(r@) == keep(views(bs@), self.passes_stage(s as int, ocel.events(), ocel.objects())),
    {
        let ghost p = self.passes_stage(s as int, ocel.events(), ocel.objects());
        let mut out: Vec<Binding> = Vec::new();
        let mut i: usize = 0;
        while i < bs.len()
            invariant
                i <= bs.len(),
                all_wf(bs@),
                all_wf(out@),
                timestamps_in_range(ocel.events()),
                stages@.len() == self.filters@.len(),
                forall|k: int| 0 <= k < stages@.len() ==> stages@[k] == self.stage(#[trigger] self.filters@[k]),
                p == self.passes_stage(s as int, ocel.events(), ocel.objects()),
                views(out@) == keep(views(bs@).subrange(0, i as int), p),
            decreases bs.len() - i,
        {
            assert(views(bs@).subrange(0, i + 1).drop_last() =~= views(bs@).subrange(0, i as int));
            assert(views(bs@).subrange(0, i + 1).last() == bs@[i as int]@);
            if self.passes_at(&bs[i], stages, s, ocel) {
                let nb = bs[i].duplicate();
                let ghost prev = out@;
                out.push(nb);
                assert(views(out@) =~= views(prev).push(nb@));
            }
            i = i + 1;
        }
        assert(views(bs@).subrange(0, bs.len() as int) =~= views(bs@));
        out
    }

    /// Every extension of the given bindings by the box's new variables, each
    /// variable ranging over the entries of its allowed types, that passes every
    /// filter. Each filter is tested as soon as the variables it reads are bound.
    pub fn expand(&self, bindings: Vec<Binding>, ocel: &IndexLinkedOCEL) -> (r: Vec<Binding>)
        requires
            self.declares_distinct(),
            ocel.wf(),
            timestamps_in_range(ocel.events()),
            all_wf(bindings@),
        ensures
            all_wf(r@),
            views(r@) == self.expansion(views(bindings@), ocel.events(), ocel.objects()),
    {
        let ghost bs0 = views(bindings@);
        let ghost evs = ocel.events();
        let ghost obs = ocel.objects();
        let stages = self.filter_stages();
        let mut cur = self.keep_stage(bindings, &stages, 0, ocel);
        let ne = self.new_event_vars.len();
        let mut i: usize = 0;
        while i < ne
            invariant
                i <= ne == self.new_event_vars@.len(),
                ocel.wf(),
                timestamps_in_range(ocel.events()),
                evs == ocel.events(),
                obs == ocel.objects(),
                stages@.len() == self.filters@.len(),
                forall|k: int| 0 <= k < stages@.len() ==> stages@[k] == self.stage(#[trigger] self.filters@[k]),
                all_wf(cur@),
                views(cur@) == self.staged(bs0, i as nat, evs, obs),
            decreases ne - i,
        {
            let cands = event_candidates_in(ocel, &self.new_event_vars[i].1);
            let var = Variable::Event(self.new_event_vars[i].0);
            let ext = extend_bindings(&cur, var, &cands);
            cur = self.keep_stage(ext, &stages, i as u128 + 1, ocel);
            i = i + 1;
        }
        let no = self.new_object_vars.len();
        let mut j: usize = 0;
        while j < no
            invariant
                j <= no == self.new_object_vars@.len(),
                ne == self.new_event_vars@.len(),
                ocel.wf(),
                timestamps_in_range(ocel.events()),
                evs == ocel.events(),
                obs == ocel.objects(),
                stages@.len() == self.filters@.len(),
                forall|k: int| 0 <= k < stages@.len() ==> stages@[k] == self.stage(#[trigger] self.filters@[k]),
                all_wf(cur@),
                views(cur@) == self.staged(bs0, (ne + j) as nat, evs, obs),
            decreases no - j,
        {
            let cands = object_candidates_in(ocel, &self.new_object_vars[j].1);
            let var = Variable::Object(self.new_object_vars[j].0);
            let ext = extend_bindings(&cur, var, &cands);
            cur = self.keep_stage(ext, &stages, ne as u128 + j as u128 + 1, ocel);
            j = j + 1;
        }
        proof {
            assert forall|k: int| 0 <= k < bindings@.len() implies (#[trigger] bs0[k]).wf() by {
                assert(bindings@[k].wf());
            }
            lemma_filter_push_equivalence(*self, bs0, evs, obs);
        }
        cur
    }
}

impl BindingBox {
    /// Whether each variable is declared once.
    pub fn has_distinct_vars(&self) -> (r: bool)
        ensures
            r == self.declares_distinct(),
    {
        let ev = &self.new_event_vars;
        let mut i: usize = 0;
        while i < ev.len()
            invariant
                i <= ev@.len(),
                ev@ == self.new_event_vars@,
                forall|a: int, b: int| 0 <= a < b < ev@.len() && a < i ==> ev@[a].0 != ev@[b].0,
            decreases ev.len() - i,
        {
            let mut j: usize = i + 1;
            while j < ev.len()
                invariant
                    i < j <= ev@.len(),
                    ev@ == self.new_event_vars@,
                    forall|a: int, b: int| 0 <= a < b < ev@.len() && a < i ==> ev@[a].0 != ev@[b].0,
                    forall|b: int| i < b < j ==> ev@[i as int].0 != ev@[b].0,
                decreases ev.len() - j,
            {
                if ev[i].0.0 == ev[j].0.0 {
                    assert(ev@[i as int].0 == ev@[j as int].0);
                    return false;
                }
                j = j + 1;
            }
            i = i + 1;
        }
        let ob = &self.new_object_vars;
        let mut i: usize = 0;
        while i < ob.len()
            invariant
                i <= ob@.len(),
                ob@ == self.new_object_vars@,
                forall|a: int, b: int| 0 <= a < b < self.new_event_vars@.len() ==> self.new_event_vars@[a].0 != self.new_event_vars@[b].0,
                forall|a: int, b: int| 0 <= a < b < ob@.len() && a < i ==> ob@[a].0 != ob@[b].0,
            decreases ob.len() - i,
        {
            let mut j: usize = i + 1;
            while j < ob.len()
                invariant
                    i < j <= ob@.len(),
                    ob@ == self.new_object_vars@,
                    forall|a: int, b: int| 0 <= a < b < ob@.len() && a < i ==> ob@[a].0 != ob@[b].0,
                    forall|b: int| i < b < j ==> ob@[i as int].0 != ob@[b].0,
                decreases ob.len() - j,
            {
                if ob[i].0.0 == ob[j].0.0 {
                    assert(ob@[i as int].0 == ob@[j as int].0);
                    return false;
                }
                j = j + 1;
            }
            i = i + 1;
        }
        true
    }
}

} // verus!
