use vstd::prelude::*;
use vstd::string::StringExecFns;

use crate::text::{decimal, decimal_string};

verus! {

/// An event variable, told apart from others by its number.
#[derive(Debug, Clone, Copy, PartialEq, Eq, Structural, Hash, PartialOrd, Ord)]
pub struct EventVariable(pub usize);

/// An object variable, told apart from others by its number.
#[derive(Debug, Clone, Copy, PartialEq, Eq, Structural, Hash, PartialOrd, Ord)]
pub struct ObjectVariable(pub usize);

/// The position of an event in an indexed log.
#[derive(Debug, Clone, Copy, PartialEq, Eq, Structural, Hash, PartialOrd, Ord)]
pub struct EventIndex(pub usize);

/// The position of an object in an indexed log.
#[derive(Debug, Clone, Copy, PartialEq, Eq, Structural, Hash, PartialOrd, Ord)]
pub struct ObjectIndex(pub usize);

/// A variable of either sort.
#[derive(Debug, Clone, Copy, PartialEq, Eq, Structural, Hash)]
pub enum Variable {
    Event(EventVariable),
    Object(ObjectVariable),
}

impl From<usize> for EventVariable {
    fn from(value: usize) -> (r: Self) {
        EventVariable(value)
    }
}

impl vstd::std_specs::convert::FromSpecImpl<usize> for EventVariable {
    open spec fn obeys_from_spec() -> bool {
        true
    }

    open spec fn from_spec(v: usize) -> Self {
        EventVariable(v)
    }
}

impl From<usize> for ObjectVariable {
    fn from(value: usize) -> (r: Self) {
        ObjectVariable(value)
    }
}

impl vstd::std_specs::convert::FromSpecImpl<usize> for ObjectVariable {
    open spec fn obeys_from_spec() -> bool {
        true
    }

    open spec fn from_spec(v: usize) -> Self {
        ObjectVariable(v)
    }
}

/// Entries `(variable number, log index)` with strictly increasing variable numbers.
pub open spec fn is_sorted_entries(s: Seq<(usize, usize)>) -> bool {
    forall|i: int, j: int| 0 <= i < j < s.len() ==> s[i].0 < s[j].0
}

/// The value that a list of entries gives a variable number, if any.
pub open spec fn lookup(s: Seq<(usize, usize)>, k: usize) -> Option<usize>
    decreases s.len(),
{
    if s.len() == 0 {
        None
    } else if s.last().0 == k {
        Some(s.last().1)
    } else {
        lookup(s.drop_last(), k)
    }
}

/// The finite map that a list of entries stands for.
pub open spec fn entries_map(s: Seq<(usize, usize)>) -> Map<usize, usize> {
    Map::new(|k: usize| lookup(s, k) is Some, |k: usize| lookup(s, k)->0)
}

/// In a list of entries with distinct keys, the entry at `i` is what a lookup of its key finds.
pub proof fn lemma_lookup_at(s: Seq<(usize, usize)>, i: int)
    requires
        is_sorted_entries(s),
        0 <= i < s.len(),
    ensures
        lookup(s, s[i].0) == Some(s[i].1),
    decreases s.len(),
{
    if i < s.len() - 1 {
        lemma_lookup_at(s.drop_last(), i);
    }
}

/// A key that no entry holds is looked up to nothing.
pub proof fn lemma_lookup_absent(s: Seq<(usize, usize)>, k: usize)
    requires
        forall|i: int| 0 <= i < s.len() ==> s[i].0 != k,
    ensures
        lookup(s, k) is None,
    decreases s.len(),
{
    if s.len() > 0 {
        lemma_lookup_absent(s.drop_last(), k);
    }
}

/// What a lookup finds comes from some entry.
pub proof fn lemma_lookup_found(s: Seq<(usize, usize)>, k: usize)
    requires
        lookup(s, k) is Some,
    ensures
        exists|i: int| 0 <= i < s.len() && s[i].0 == k && s[i].1 == lookup(s, k)->0,
    decreases s.len(),
{
    if s.last().0 != k {
        lemma_lookup_found(s.drop_last(), k);
        let i = choose|i: int| 0 <= i < s.drop_last().len() && s.drop_last()[i].0 == k
            && s.drop_last()[i].1 == lookup(s.drop_last(), k)->0;
        assert(s[i] == s.drop_last()[i]);
    } else {
        assert(s[s.len() - 1] == s.last());
    }
}

/// Lookup in a sorted list of entries, by scanning.
fn find_entry(v: &Vec<(usize, usize)>, k: usize) -> (r: Option<usize>)
    requires
        is_sorted_entries(v@),
    ensures
        r == lookup(v@, k),
{
    let mut i: usize = 0;
    while i < v.len()
        invariant
            i <= v.len(),
            is_sorted_entries(v@),
            forall|j: int| 0 <= j < i ==> v@[j].0 != k,
        decreases v.len() - i,
    {
        if v[i].0 == k {
            proof {
                lemma_lookup_at(v@, i as int);
            }
            return Some(v[i].1);
        }
        i = i + 1;
    }
    proof {
        lemma_lookup_absent(v@, k);
    }
    None
}

/// `p` is where key `k` goes in sorted entries: every entry before it has a smaller key.
pub open spec fn is_insert_pos(s: Seq<(usize, usize)>, k: usize, p: int) -> bool {
    0 <= p <= s.len() && (forall|j: int| 0 <= j < p ==> s[j].0 < k) && (p < s.len() ==> s[p].0 >= k)
}

pub open spec fn insert_pos(s: Seq<(usize, usize)>, k: usize) -> int {
    choose|p: int| is_insert_pos(s, k, p)
}

/// Sorted entries with key `k` set to `val`: the entry of key `k` is replaced, or a new one
/// is put in its place.
pub open spec fn entries_with(s: Seq<(usize, usize)>, k: usize, val: usize) -> Seq<(usize, usize)> {
    let p = insert_pos(s, k);
    if p < s.len() && s[p].0 == k {
        s.update(p, (k, val))
    } else {
        s.insert(p, (k, val))
    }
}

/// In sorted entries, the insert position is unique, and setting a key keeps the
/// entries sorted and changes the lookup of that key alone.
pub proof fn lemma_entries_with(s: Seq<(usize, usize)>, k: usize, val: usize, p: int)
    requires
        is_sorted_entries(s),
        is_insert_pos(s, k, p),
    ensures
        insert_pos(s, k) == p,
        is_sorted_entries(entries_with(s, k, val)),
        forall|x: usize|
            #[trigger] lookup(entries_with(s, k, val), x) == (if x == k {
                Some(val)
            } else {
                lookup(s, x)
            }),
{
    let q = insert_pos(s, k);
    assert(is_insert_pos(s, k, q));
    if q < p {
        assert(s[q].0 < k);
    } else if p < q {
        assert(s[p].0 < k);
    }
    let s1 = entries_with(s, k, val);
    if p < s.len() && s[p].0 == k {
        assert(is_sorted_entries(s1));
        assert forall|x: usize| #[trigger] lookup(s1, x) == (if x == k { Some(val) } else { lookup(s, x) }) by {
            if x == k {
                lemma_lookup_at(s1, p);
            } else if exists|j: int| 0 <= j < s.len() && s[j].0 == x {
                let j = choose|j: int| 0 <= j < s.len() && s[j].0 == x;
                lemma_lookup_at(s1, j);
                lemma_lookup_at(s, j);
            } else {
                lemma_lookup_absent(s, x);
                lemma_lookup_absent(s1, x);
            }
        }
    } else {
        assert(forall|j: int| 0 <= j < p ==> s1[j] == s[j]);
        assert(forall|j: int| p < j < s1.len() ==> s1[j] == s[j - 1]);
        assert(is_sorted_entries(s1));
        assert forall|x: usize| #[trigger] lookup(s1, x) == (if x == k { Some(val) } else { lookup(s, x) }) by {
            if x == k {
                lemma_lookup_at(s1, p);
            } else if exists|j: int| 0 <= j < s.len() && s[j].0 == x {
                let j = choose|j: int| 0 <= j < s.len() && s[j].0 == x;
                lemma_lookup_at(s, j);
                if j < p {
                    lemma_lookup_at(s1, j);
                } else {
                    lemma_lookup_at(s1, j + 1);
                }
            } else {
                lemma_lookup_absent(s, x);
                lemma_lookup_absent(s1, x);
            }
        }
    }
}

/// Sets the value of key `k` in a sorted list of entries, keeping it sorted.
fn insert_entry(v: &mut Vec<(usize, usize)>, k: usize, val: usize)
    requires
        is_sorted_entries(old(v)@),
    ensures
        final(v)@ == entries_with(old(v)@, k, val),
        is_sorted_entries(final(v)@),
        entries_map(final(v)@) == entries_map(old(v)@).insert(k, val),
{
    let ghost s0 = v@;
    let mut p: usize = 0;
    while p < v.len() && v[p].0 < k
        invariant
            p <= v.len(),
            v@ == s0,
            is_sorted_entries(s0),
            forall|j: int| 0 <= j < p ==> s0[j].0 < k,
        decreases v.len() - p,
    {
        p = p + 1;
    }
    proof {
        lemma_entries_with(s0, k, val, p as int);
    }
    if p < v.len() && v[p].0 == k {
        v.set(p, (k, val));
    } else {
        v.insert(p, (k, val));
    }
    proof {
        assert(v@ == entries_with(s0, k, val));
        assert(entries_map(v@) =~= entries_map(s0).insert(k, val));
    }
}

impl EventVariable {
    /// The variable's name: `ev_` and its number.
    pub fn to_text(&self) -> (r: String)
        ensures
            r@ == seq!['e', 'v', '_'] + decimal(self.0 as nat),
    {
        let mut r = String::from_str("ev_");
        r.append(decimal_string(self.0).as_str());
        proof {
            reveal_strlit("ev_");
            assert(r@ =~= seq!['e', 'v', '_'] + decimal(self.0 as nat));
        }
        r
    }
}

impl ObjectVariable {
    /// The variable's name: `ob_` and its number.
    pub fn to_text(&self) -> (r: String)
        ensures
            r@ == seq!['o', 'b', '_'] + decimal(self.0 as nat),
    {
        let mut r = String::from_str("ob_");
        r.append(decimal_string(self.0).as_str());
        proof {
            reveal_strlit("ob_");
            assert(r@ =~= seq!['o', 'b', '_'] + decimal(self.0 as nat));
        }
        r
    }
}

/// An assignment of log indices to variables: at most one index per variable.
///
/// The entries are kept sorted by variable, so that two bindings are equal as
/// values exactly when they assign the same indices.
#[derive(Debug, Clone)]
pub struct Binding {
    pub event_map: Vec<(usize, usize)>,
    pub object_map: Vec<(usize, usize)>,
}

/// The canonical form of a binding: its event entries and its object entries.
pub struct BindingView {
    pub events: Seq<(usize, usize)>,
    pub objects: Seq<(usize, usize)>,
}

impl View for Binding {
    type V = BindingView;

    open spec fn view(&self) -> BindingView {
        BindingView { events: self.event_map@, objects: self.object_map@ }
    }
}

impl BindingView {
    pub open spec fn wf(self) -> bool {
        is_sorted_entries(self.events) && is_sorted_entries(self.objects)
    }

    /// Event variable number to event index.
    pub open spec fn ev_map(self) -> Map<usize, usize> {
        entries_map(self.events)
    }

    /// Object variable number to object index.
    pub open spec fn ob_map(self) -> Map<usize, usize> {
        entries_map(self.objects)
    }

    pub open spec fn ev(self, v: EventVariable) -> Option<usize> {
        lookup(self.events, v.0)
    }

    pub open spec fn ob(self, v: ObjectVariable) -> Option<usize> {
        lookup(self.objects, v.0)
    }

    /// This binding with event variable `v` set to `idx`.
    pub open spec fn with_ev(self, v: usize, idx: usize) -> BindingView {
        BindingView { events: entries_with(self.events, v, idx), objects: self.objects }
    }

    /// This binding with object variable `v` set to `idx`.
    pub open spec fn with_ob(self, v: usize, idx: usize) -> BindingView {
        BindingView { events: self.events, objects: entries_with(self.objects, v, idx) }
    }

    /// The index a variable is bound to, if any.
    pub open spec fn var_value(self, v: Variable) -> Option<usize> {
        match v {
            Variable::Event(e) => self.ev(e),
            Variable::Object(o) => self.ob(o),
        }
    }
}

/// The empty binding.
pub open spec fn empty_binding_view() -> BindingView {
    BindingView { events: Seq::empty(), objects: Seq::empty() }
}

impl Binding {
    pub open spec fn wf(&self) -> bool {
        self@.wf()
    }

    /// The binding that binds no variable.
    pub fn new() -> (r: Binding)
        ensures
            r@ == empty_binding_view(),
            r.wf(),
    {
        Binding { event_map: Vec::new(), object_map: Vec::new() }
    }

    /// This binding with `ev_var` bound to `ev_index` (replacing an earlier value).
    pub fn expand_with_ev(self, ev_var: EventVariable, ev_index: EventIndex) -> (r: Binding)
        requires
            self.wf(),
        ensures
            r.wf(),
            r@ == self@.with_ev(ev_var.0, ev_index.0),
            r@.ev_map() == self@.ev_map().insert(ev_var.0, ev_index.0),
    {
        let mut b = self;
        insert_entry(&mut b.event_map, ev_var.0, ev_index.0);
        b
    }

    /// This binding with `ob_var` bound to `ob_index` (replacing an earlier value).
    pub fn expand_with_ob(self, ob_var: ObjectVariable, ob_index: ObjectIndex) -> (r: Binding)
        requires
            self.wf(),
        ensures
            r.wf(),
            r@ == self@.with_ob(ob_var.0, ob_index.0),
            r@.ob_map() == self@.ob_map().insert(ob_var.0, ob_index.0),
    {
        let mut b = self;
        insert_entry(&mut b.object_map, ob_var.0, ob_index.0);
        b
    }

    /// The event index bound to `ev_var`.
    pub fn get_ev_index(&self, ev_var: &EventVariable) -> (r: Option<EventIndex>)
        requires
            self.wf(),
        ensures
            r == (match self@.ev(*ev_var) {
                Some(i) => Some(EventIndex(i)),
                None => None,
            }),
    {
        match find_entry(&self.event_map, ev_var.0) {
            Some(i) => Some(EventIndex(i)),
            None => None,
        }
    }

    /// The object index bound to `ob_var`.
    pub fn get_ob_index(&self, ob_var: &ObjectVariable) -> (r: Option<ObjectIndex>)
        requires
            self.wf(),
        ensures
            r == (match self@.ob(*ob_var) {
                Some(i) => Some(ObjectIndex(i)),
                None => None,
            }),
    {
        match find_entry(&self.object_map, ob_var.0) {
            Some(i) => Some(ObjectIndex(i)),
            None => None,
        }
    }

    /// The index bound to a variable of either sort.
    pub fn get_var_value(&self, var: &Variable) -> (r: Option<usize>)
        requires
            self.wf(),
        ensures
            r == self@.var_value(*var),
    {
        match var {
            Variable::Event(e) => find_entry(&self.event_map, e.0),
            Variable::Object(o) => find_entry(&self.object_map, o.0),
        }
    }

    /// The event entries `(variable, index)`, by increasing variable.
    pub fn event_entries(&self) -> (r: &Vec<(usize, usize)>)
        ensures
            r@ == self@.events,
    {
        &self.event_map
    }

    /// The object entries `(variable, index)`, by increasing variable.
    pub fn object_entries(&self) -> (r: &Vec<(usize, usize)>)
        ensures
            r@ == self@.objects,
    {
        &self.object_map
    }

    /// A copy of this binding.
    pub fn duplicate(&self) -> (r: Binding)
        ensures
            r@ == self@,
    {
        Binding { event_map: copy_entries(&self.event_map), object_map: copy_entries(&self.object_map) }
    }

    /// Whether two bindings hold the same entries.
    pub fn same_as(&self, other: &Binding) -> (r: bool)
        ensures
            r == (self@ == other@),
    {
        let r = entries_equal(&self.event_map, &other.event_map) && entries_equal(
            &self.object_map,
            &other.object_map,
        );
        proof {
            if r {
                assert(self@.events =~= other@.events);
                assert(self@.objects =~= other@.objects);
            }
        }
        r
    }
}

fn copy_entries(a: &Vec<(usize, usize)>) -> (r: Vec<(usize, usize)>)
    ensures
        r@ == a@,
{
    let mut r: Vec<(usize, usize)> = Vec::new();
    let mut i: usize = 0;
    while i < a.len()
        invariant
            i <= a.len(),
            r@ == a@.subrange(0, i as int),
        decreases a.len() - i,
    {
        r.push(a[i]);
        i = i + 1;
    }
    assert(r@ =~= a@);
    r
}

fn entries_equal(a: &Vec<(usize, usize)>, b: &Vec<(usize, usize)>) -> (r: bool)
    ensures
        r == (a@ == b@),
{
    if a.len() != b.len() {
        return false;
    }
    let mut i: usize = 0;
    while i < a.len()
        invariant
            i <= a.len(),
            a.len() == b.len(),
            forall|j: int| 0 <= j < i ==> a@[j] == b@[j],
        decreases a.len() - i,
    {
        if a[i].0 != b[i].0 || a[i].1 != b[i].1 {
            return false;
        }
        i = i + 1;
    }
    assert(a@ =~= b@);
    true
}

/// One entry as text: `ev_3 => 7` for prefix `ev_`.
pub open spec fn entry_text(prefix: Seq<char>, e: (usize, usize)) -> Seq<char> {
    prefix + decimal(e.0 as nat) + seq![' ', '=', '>', ' '] + decimal(e.1 as nat)
}

/// The entries as text, separated by `, `.
pub open spec fn entries_text(prefix: Seq<char>, s: Seq<(usize, usize)>) -> Seq<char>
    decreases s.len(),
{
    if s.len() == 0 {
        Seq::empty()
    } else if s.len() == 1 {
        entry_text(prefix, s[0])
    } else {
        entries_text(prefix, s.drop_last()) + seq![',', ' '] + entry_text(prefix, s.last())
    }
}

/// A binding as text, its event entries and then its object entries.
pub open spec fn binding_text(b: BindingView) -> Seq<char> {
    "Binding [\n\tEvents: { "@ + entries_text("ev_"@, b.events) + " }\n\tObjects: { "@ + entries_text(
        "ob_"@,
        b.objects,
    ) + " }\n]"@
}

fn entries_string(prefix: &str, v: &Vec<(usize, usize)>) -> (r: String)
    ensures
        r@ == entries_text(prefix@, v@),
{
    let mut r = String::new();
    let mut i: usize = 0;
    while i < v.len()
        invariant
            i <= v@.len(),
            r@ == entries_text(prefix@, v@.subrange(0, i as int)),
        decreases v.len() - i,
    {
        let ghost sub = v@.subrange(0, i + 1);
        assert(sub.drop_last() =~= v@.subrange(0, i as int));
        assert(sub.last() == v@[i as int]);
        if i > 0 {
            r.append(", ");
        }
        r.append(prefix);
        r.append(decimal_string(v[i].0).as_str());
        r.append(" => ");
        r.append(decimal_string(v[i].1).as_str());
        proof {
            reveal_strlit(", ");
            reveal_strlit(" => ");
            if i == 0 {
                assert(sub[0] == v@[0]);
            }
            assert(r@ =~= entries_text(prefix@, sub));
        }
        i = i + 1;
    }
    assert(v@.subrange(0, v@.len() as int) =~= v@);
    r
}

impl Binding {
    /// The binding as text, as it is shown to users.
    pub fn to_text(&self) -> (r: String)
        ensures
            r@ == binding_text(self@),
    {
        let mut r = String::from_str("Binding [\n\tEvents: { ");
        r.append(entries_string("ev_", &self.event_map).as_str());
        r.append(" }\n\tObjects: { ");
        r.append(entries_string("ob_", &self.object_map).as_str());
        r.append(" }\n]");
        r
    }
}

impl Default for Binding {
    fn default() -> (r: Binding)
        ensures
            r@ == empty_binding_view(),
            r.wf(),
    {
        Binding::new()
    }
}

} // verus!
