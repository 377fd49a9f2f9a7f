use vstd::prelude::*;

use crate::binding::{EventIndex, ObjectIndex};

verus! {

/// A point in time: nanoseconds since the Unix epoch, in UTC.
#[derive(Debug, Clone, Copy, PartialEq, Eq, Structural, Hash)]
pub struct Timestamp {
    pub nanos: i128,
}

/// The value of an attribute.
///
/// A floating-point value is held as its order key: an integer that orders as
/// the number does, with `None` for a value that is not a number (which meets
/// no bound).
#[derive(Debug, Clone)]
pub enum AttributeValue {
    Time(Timestamp),
    Integer(i64),
    Float(Option<i64>),
    Boolean(bool),
    String(String),
    Null,
}

/// A qualified link to an object, by the object's id.
#[derive(Debug, Clone)]
pub struct Relationship {
    pub object_id: String,
    pub qualifier: String,
}

#[derive(Debug, Clone)]
pub struct EventAttribute {
    pub name: String,
    pub value: AttributeValue,
}

/// An object attribute value, valid from `time` on.
#[derive(Debug, Clone)]
pub struct ObjectAttribute {
    pub name: String,
    pub value: AttributeValue,
    pub time: Timestamp,
}

#[derive(Debug, Clone)]
pub struct Event {
    pub id: String,
    pub event_type: String,
    pub time: Timestamp,
    pub attributes: Vec<EventAttribute>,
    pub relationships: Vec<Relationship>,
}

#[derive(Debug, Clone)]
pub struct Object {
    pub id: String,
    pub object_type: String,
    pub attributes: Vec<ObjectAttribute>,
    pub relationships: Vec<Relationship>,
}

/// An object-centric event log.
#[derive(Debug, Clone)]
pub struct OCEL {
    pub event_types: Vec<String>,
    pub object_types: Vec<String>,
    pub events: Vec<Event>,
    pub objects: Vec<Object>,
}

/// The positions, in order, of the events of type `t`.
pub open spec fn event_indices_of_type(evs: Seq<Event>, t: Seq<char>) -> Seq<EventIndex>
    decreases evs.len(),
{
    if evs.len() == 0 {
        Seq::empty()
    } else {
        let rest = event_indices_of_type(evs.drop_last(), t);
        if evs.last().event_type@ == t {
            rest.push(EventIndex((evs.len() - 1) as usize))
        } else {
            rest
        }
    }
}

/// The positions, in order, of the objects of type `t`.
pub open spec fn object_indices_of_type(obs: Seq<Object>, t: Seq<char>) -> Seq<ObjectIndex>
    decreases obs.len(),
{
    if obs.len() == 0 {
        Seq::empty()
    } else {
        let rest = object_indices_of_type(obs.drop_last(), t);
        if obs.last().object_type@ == t {
            rest.push(ObjectIndex((obs.len() - 1) as usize))
        } else {
            rest
        }
    }
}

/// An event log with its events and objects grouped by type.
///
/// Each group is named once and lists, in log order, exactly the positions
/// of the entries of its type; every type that occurs has a group.
pub struct IndexLinkedOCEL {
    pub ocel: OCEL,
    pub events_per_type: Vec<(String, Vec<EventIndex>)>,
    pub objects_per_type: Vec<(String, Vec<ObjectIndex>)>,
}

pub open spec fn event_groups_ok(
    groups: Seq<(String, Vec<EventIndex>)>,
    evs: Seq<Event>,
) -> bool {
    &&& forall|g: int, h: int| 0 <= g < h < groups.len() ==> groups[g].0@ != groups[h].0@
    &&& forall|g: int|
        0 <= g < groups.len() ==> #[trigger] groups[g].1@ == event_indices_of_type(
            evs,
            groups[g].0@,
        )
    &&& forall|i: int|
        0 <= i < evs.len() ==> exists|g: int|
            0 <= g < groups.len() && #[trigger] groups[g].0@ == (#[trigger] evs[i]).event_type@
}

pub open spec fn object_groups_ok(
    groups: Seq<(String, Vec<ObjectIndex>)>,
    obs: Seq<Object>,
) -> bool {
    &&& forall|g: int, h: int| 0 <= g < h < groups.len() ==> groups[g].0@ != groups[h].0@
    &&& forall|g: int|
        0 <= g < groups.len() ==> #[trigger] groups[g].1@ == object_indices_of_type(
            obs,
            groups[g].0@,
        )
    &&& forall|i: int|
        0 <= i < obs.len() ==> exists|g: int|
            0 <= g < groups.len() && #[trigger] groups[g].0@ == (#[trigger] obs[i]).object_type@
}

/// A type that no entry has holds no positions.
proof fn lemma_no_events_of_type(evs: Seq<Event>, t: Seq<char>)
    requires
        forall|i: int| 0 <= i < evs.len() ==> evs[i].event_type@ != t,
    ensures
        event_indices_of_type(evs, t) == Seq::<EventIndex>::empty(),
    decreases evs.len(),
{
    if evs.len() > 0 {
        lemma_no_events_of_type(evs.drop_last(), t);
    }
}

proof fn lemma_no_objects_of_type(obs: Seq<Object>, t: Seq<char>)
    requires
        forall|i: int| 0 <= i < obs.len() ==> obs[i].object_type@ != t,
    ensures
        object_indices_of_type(obs, t) == Seq::<ObjectIndex>::empty(),
    decreases obs.len(),
{
    if obs.len() > 0 {
        lemma_no_objects_of_type(obs.drop_last(), t);
    }
}

/// Every listed position holds an event of the type, below the log's length.
pub proof fn lemma_event_indices_valid(evs: Seq<Event>, t: Seq<char>)
    requires
        evs.len() <= usize::MAX,
    ensures
        forall|j: int|
            0 <= j < event_indices_of_type(evs, t).len() ==> {
                let e = #[trigger] event_indices_of_type(evs, t)[j];
                e.0 < evs.len() && evs[e.0 as int].event_type@ == t
            },
    decreases evs.len(),
{
    if evs.len() > 0 {
        let rest = evs.drop_last();
        lemma_event_indices_valid(rest, t);
        let prev = event_indices_of_type(rest, t);
        let full = event_indices_of_type(evs, t);
        assert forall|j: int| 0 <= j < full.len() implies full[j].0 < evs.len() && evs[full[j].0 as int].event_type@ == t by {
            if j < prev.len() {
                assert(full[j] == prev[j]);
                assert(prev[j].0 < rest.len() && rest[prev[j].0 as int].event_type@ == t);
                assert(rest[prev[j].0 as int] == evs[prev[j].0 as int]);
            } else {
                assert(evs[evs.len() - 1] == evs.last());
            }
        }
    }
}

pub proof fn lemma_object_indices_valid(obs: Seq<Object>, t: Seq<char>)
    requires
        obs.len() <= usize::MAX,
    ensures
        forall|j: int|
            0 <= j < object_indices_of_type(obs, t).len() ==> {
                let o = #[trigger] object_indices_of_type(obs, t)[j];
                o.0 < obs.len() && obs[o.0 as int].object_type@ == t
            },
    decreases obs.len(),
{
    if obs.len() > 0 {
        let rest = obs.drop_last();
        lemma_object_indices_valid(rest, t);
        let prev = object_indices_of_type(rest, t);
        let full = object_indices_of_type(obs, t);
        assert forall|j: int| 0 <= j < full.len() implies full[j].0 < obs.len() && obs[full[j].0 as int].object_type@ == t by {
            if j < prev.len() {
                assert(full[j] == prev[j]);
                assert(prev[j].0 < rest.len() && rest[prev[j].0 as int].object_type@ == t);
                assert(rest[prev[j].0 as int] == obs[prev[j].0 as int]);
            } else {
                assert(obs[obs.len() - 1] == obs.last());
            }
        }
    }
}

/// The position of the group named `t`, if there is one.
fn find_event_group(groups: &Vec<(String, Vec<EventIndex>)>, t: &String) -> (r: Option<usize>)
    ensures
        match r {
            Some(g) => g < groups.len() && groups@[g as int].0@ == t@,
            None => forall|g: int| 0 <= g < groups.len() ==> groups@[g].0@ != t@,
        },
{
    let mut g: usize = 0;
    while g < groups.len()
        invariant
            g <= groups.len(),
            forall|h: int| 0 <= h < g ==> groups@[h].0@ != t@,
        decreases groups.len() - g,
    {
        if groups[g].0 == *t {
            return Some(g);
        }
        g = g + 1;
    }
    None
}

fn find_object_group(groups: &Vec<(String, Vec<ObjectIndex>)>, t: &String) -> (r: Option<usize>)
    ensures
        match r {
            Some(g) => g < groups.len() && groups@[g as int].0@ == t@,
            None => forall|g: int| 0 <= g < groups.len() ==> groups@[g].0@ != t@,
        },
{
    let mut g: usize = 0;
    while g < groups.len()
        invariant
            g <= groups.len(),
            forall|h: int| 0 <= h < g ==> groups@[h].0@ != t@,
        decreases groups.len() - g,
    {
        if groups[g].0 == *t {
            return Some(g);
        }
        g = g + 1;
    }
    None
}

fn group_events(evs: &Vec<Event>) -> (r: Vec<(String, Vec<EventIndex>)>)
    ensures
        event_groups_ok(r@, evs@),
{
    let mut groups: Vec<(String, Vec<EventIndex>)> = Vec::new();
    let mut i: usize = 0;
    while i < evs.len()
        invariant
            i <= evs.len(),
            event_groups_ok(groups@, evs@.subrange(0, i as int)),
        decreases evs.len() - i,
    {
        let ghost pre = evs@.subrange(0, i as int);
        let ghost post = evs@.subrange(0, i + 1);
        assert(post.drop_last() =~= pre);
        assert(post.last() == evs@[i as int]);
        let ghost old_groups = groups@;
        let t = &evs[i].event_type;
        match find_event_group(&groups, t) {
            Some(g) => {
                let mut entry = groups.remove(g);
                entry.1.push(EventIndex(i));
                groups.insert(g, entry);
                assert forall|h: int| 0 <= h < groups.len() implies #[trigger] groups@[h].1@
                    == event_indices_of_type(post, groups@[h].0@) by {
                    assert(groups@[h].0 == old_groups[h].0);
                    if h != g {
                        assert(groups@[h] == old_groups[h]);
                    }
                }
                assert forall|j: int| 0 <= j < post.len() implies exists|h: int|
                    0 <= h < groups.len() && #[trigger] groups@[h].0@ == (
                    #[trigger] post[j]).event_type@ by {
                    if j < i {
                        assert(post[j] == pre[j]);
                        let h = choose|h: int|
                            0 <= h < old_groups.len() && #[trigger] old_groups[h].0@ == (
                            #[trigger] pre[j]).event_type@;
                        assert(groups@[h].0 == old_groups[h].0);
                    } else {
                        assert(groups@[g as int].0 == old_groups[g as int].0);
                    }
                }
                assert forall|a: int, b: int| 0 <= a < b < groups.len() implies groups@[a].0@
                    != groups@[b].0@ by {
                    assert(groups@[a].0 == old_groups[a].0);
                    assert(groups@[b].0 == old_groups[b].0);
                }
            },
            None => {
                let mut idx: Vec<EventIndex> = Vec::new();
                idx.push(EventIndex(i));
                proof {
                    lemma_no_events_of_type(pre, t@);
                    assert(idx@ =~= event_indices_of_type(post, t@));
                }
                groups.push((t.clone(), idx));
                assert forall|h: int| 0 <= h < groups.len() implies #[trigger] groups@[h].1@
                    == event_indices_of_type(post, groups@[h].0@) by {
                    if h < old_groups.len() {
                        assert(groups@[h] == old_groups[h]);
                    }
                }
                assert forall|j: int| 0 <= j < post.len() implies exists|h: int|
                    0 <= h < groups.len() && #[trigger] groups@[h].0@ == (
                    #[trigger] post[j]).event_type@ by {
                    if j < i {
                        assert(post[j] == pre[j]);
                        let h = choose|h: int|
                            0 <= h < old_groups.len() && #[trigger] old_groups[h].0@ == (
                            #[trigger] pre[j]).event_type@;
                        assert(groups@[h] == old_groups[h]);
                    } else {
                        assert(groups@[old_groups.len() as int].0@ == t@);
                    }
                }
                assert forall|a: int, b: int| 0 <= a < b < groups.len() implies groups@[a].0@
                    != groups@[b].0@ by {
                    if b < old_groups.len() {
                        assert(groups@[a] == old_groups[a]);
                        assert(groups@[b] == old_groups[b]);
                    } else {
                        assert(groups@[a] == old_groups[a]);
                    }
                }
            },
        }
        i = i + 1;
    }
    assert(evs@.subrange(0, evs.len() as int) =~= evs@);
    groups
}

fn group_objects(obs: &Vec<Object>) -> (r: Vec<(String, Vec<ObjectIndex>)>)
    ensures
        object_groups_ok(r@, obs@),
{
    let mut groups: Vec<(String, Vec<ObjectIndex>)> = Vec::new();
    let mut i: usize = 0;
    while i < obs.len()
        invariant
            i <= obs.len(),
            object_groups_ok(groups@, obs@.subrange(0, i as int)),
        decreases obs.len() - i,
    {
        let ghost pre = obs@.subrange(0, i as int);
        let ghost post = obs@.subrange(0, i + 1);
        assert(post.drop_last() =~= pre);
        assert(post.last() == obs@[i as int]);
        let ghost old_groups = groups@;
        let t = &obs[i].object_type;
        match find_object_group(&groups, t) {
            Some(g) => {
                let mut entry = groups.remove(g);
                entry.1.push(ObjectIndex(i));
                groups.insert(g, entry);
                assert forall|h: int| 0 <= h < groups.len() implies #[trigger] groups@[h].1@
                    == object_indices_of_type(post, groups@[h].0@) by {
                    assert(groups@[h].0 == old_groups[h].0);
                    if h != g {
                        assert(groups@[h] == old_groups[h]);
                    }
                }
                assert forall|j: int| 0 <= j < post.len() implies exists|h: int|
                    0 <= h < groups.len() && #[trigger] groups@[h].0@ == (
                    #[trigger] post[j]).object_type@ by {
                    if j < i {
                        assert(post[j] == pre[j]);
                        let h = choose|h: int|
                            0 <= h < old_groups.len() && #[trigger] old_groups[h].0@ == (
                            #[trigger] pre[j]).object_type@;
                        assert(groups@[h].0 == old_groups[h].0);
                    } else {
                        assert(groups@[g as int].0 == old_groups[g as int].0);
                    }
                }
                assert forall|a: int, b: int| 0 <= a < b < groups.len() implies groups@[a].0@
                    != groups@[b].0@ by {
                    assert(groups@[a].0 == old_groups[a].0);
                    assert(groups@[b].0 == old_groups[b].0);
                }
            },
            None => {
                let mut idx: Vec<ObjectIndex> = Vec::new();
                idx.push(ObjectIndex(i));
                proof {
                    lemma_no_objects_of_type(pre, t@);
                    assert(idx@ =~= object_indices_of_type(post, t@));
                }
                groups.push((t.clone(), idx));
                assert forall|h: int| 0 <= h < groups.len() implies #[trigger] groups@[h].1@
                    == object_indices_of_type(post, groups@[h].0@) by {
                    if h < old_groups.len() {
                        assert(groups@[h] == old_groups[h]);
                    }
                }
                assert forall|j: int| 0 <= j < post.len() implies exists|h: int|
                    0 <= h < groups.len() && #[trigger] groups@[h].0@ == (
                    #[trigger] post[j]).object_type@ by {
                    if j < i {
                        assert(post[j] == pre[j]);
                        let h = choose|h: int|
                            0 <= h < old_groups.len() && #[trigger] old_groups[h].0@ == (
                            #[trigger] pre[j]).object_type@;
                        assert(groups@[h] == old_groups[h]);
                    } else {
                        assert(groups@[old_groups.len() as int].0@ == t@);
                    }
                }
                assert forall|a: int, b: int| 0 <= a < b < groups.len() implies groups@[a].0@
                    != groups@[b].0@ by {
                    if b < old_groups.len() {
                        assert(groups@[a] == old_groups[a]);
                        assert(groups@[b] == old_groups[b]);
                    } else {
                        assert(groups@[a] == old_groups[a]);
                    }
                }
            },
        }
        i = i + 1;
    }
    assert(obs@.subrange(0, obs.len() as int) =~= obs@);
    groups
}

/// Indexes a log: one pass over its events and one over its objects.
pub fn link_ocel_info(ocel: OCEL) -> (r: IndexLinkedOCEL)
    ensures
        r.wf(),
        r.ocel == ocel,
{
    let events_per_type = group_events(&ocel.events);
    let objects_per_type = group_objects(&ocel.objects);
    IndexLinkedOCEL { ocel, events_per_type, objects_per_type }
}

impl IndexLinkedOCEL {
    pub open spec fn wf(&self) -> bool {
        event_groups_ok(self.events_per_type@, self.ocel.events@) && object_groups_ok(
            self.objects_per_type@,
            self.ocel.objects@,
        )
    }

    pub open spec fn events(&self) -> Seq<Event> {
        self.ocel.events@
    }

    pub open spec fn objects(&self) -> Seq<Object> {
        self.ocel.objects@
    }

    /// The event at `index`, if the log has one there.
    pub fn ev_by_index(&self, index: &EventIndex) -> (r: Option<&Event>)
        ensures
            match r {
                Some(e) => index.0 < self.events().len() && *e == self.events()[index.0 as int],
                None => index.0 >= self.events().len(),
            },
    {
        if index.0 < self.ocel.events.len() {
            Some(&self.ocel.events[index.0])
        } else {
            None
        }
    }

    /// The object at `index`, if the log has one there.
    pub fn ob_by_index(&self, index: &ObjectIndex) -> (r: Option<&Object>)
        ensures
            match r {
                Some(o) => index.0 < self.objects().len() && *o == self.objects()[index.0 as int],
                None => index.0 >= self.objects().len(),
            },
    {
        if index.0 < self.ocel.objects.len() {
            Some(&self.ocel.objects[index.0])
        } else {
            None
        }
    }

    /// The positions of the events of type `tname`, in log order.
    pub fn events_of_type(&self, tname: &String) -> (r: Vec<EventIndex>)
        requires
            self.wf(),
        ensures
            r@ == event_indices_of_type(self.events(), tname@),
    {
        match find_event_group(&self.events_per_type, tname) {
            Some(g) => self.events_per_type[g].1.clone(),
            None => {
                proof {
                    assert forall|i: int| 0 <= i < self.events().len() implies self.events()[i].event_type@
                        != tname@ by {
                        let g = choose|g: int|
                            0 <= g < self.events_per_type@.len() && #[trigger] self.events_per_type@[g].0@
                                == (#[trigger] self.events()[i]).event_type@;
                    }
                    lemma_no_events_of_type(self.events(), tname@);
                }
                Vec::new()
            },
        }
    }

    /// The positions of the objects of type `tname`, in log order.
    pub fn objects_of_type(&self, tname: &String) -> (r: Vec<ObjectIndex>)
        requires
            self.wf(),
        ensures
            r@ == object_indices_of_type(self.objects(), tname@),
    {
        match find_object_group(&self.objects_per_type, tname) {
            Some(g) => self.objects_per_type[g].1.clone(),
            None => {
                proof {
                    assert forall|i: int| 0 <= i < self.objects().len() implies self.objects()[i].object_type@
                        != tname@ by {
                        let g = choose|g: int|
                            0 <= g < self.objects_per_type@.len() && #[trigger] self.objects_per_type@[g].0@
                                == (#[trigger] self.objects()[i]).object_type@;
                    }
                    lemma_no_objects_of_type(self.objects(), tname@);
                }
                Vec::new()
            },
        }
    }
}

/// The position of the last event with id `id`.
pub open spec fn last_event_with_id(evs: Seq<Event>, id: Seq<char>) -> Option<int>
    decreases evs.len(),
{
    if evs.len() == 0 {
        None
    } else if evs.last().id@ == id {
        Some(evs.len() - 1)
    } else {
        last_event_with_id(evs.drop_last(), id)
    }
}

/// The position of the last object with id `id`.
pub open spec fn last_object_with_id(obs: Seq<Object>, id: Seq<char>) -> Option<int>
    decreases obs.len(),
{
    if obs.len() == 0 {
        None
    } else if obs.last().id@ == id {
        Some(obs.len() - 1)
    } else {
        last_object_with_id(obs.drop_last(), id)
    }
}

/// The (qualifier, target type) pairs of the relationships among the first `m`
/// of `rels` whose target is an object of the log.
pub open spec fn rel_pairs(obs: Seq<Object>, rels: Seq<Relationship>, m: nat) -> Set<(Seq<char>, Seq<char>)>
    decreases m,
{
    if m == 0 {
        Set::empty()
    } else {
        let prev = rel_pairs(obs, rels, (m - 1) as nat);
        let r = rels[m - 1];
        match last_object_with_id(obs, r.object_id@) {
            Some(k) => prev.insert((r.qualifier@, obs[k].object_type@)),
            None => prev,
        }
    }
}

/// The (qualifier, target type) pairs of the object-to-object relationships of
/// the objects of type `t` among the first `k` objects.
pub open spec fn object_rel_pairs(obs: Seq<Object>, t: Seq<char>, k: nat) -> Set<(Seq<char>, Seq<char>)>
    decreases k,
{
    if k == 0 {
        Set::empty()
    } else {
        let prev = object_rel_pairs(obs, t, (k - 1) as nat);
        let o = obs[k - 1];
        if o.object_type@ == t {
            prev + rel_pairs(obs, o.relationships@, o.relationships@.len())
        } else {
            prev
        }
    }
}

pub open spec fn pairs_view(v: Seq<(String, String)>) -> Seq<(Seq<char>, Seq<char>)> {
    v.map_values(|p: (String, String)| (p.0@, p.1@))
}

fn find_last_object(obs: &Vec<Object>, id: &String) -> (r: Option<usize>)
    ensures
        match r {
            Some(i) => last_object_with_id(obs@, id@) == Some(i as int),
            None => last_object_with_id(obs@, id@) is None,
        },
{
    let mut k: usize = obs.len();
    assert(obs@.subrange(0, k as int) =~= obs@);
    while k > 0
        invariant
            k <= obs@.len(),
            last_object_with_id(obs@, id@) == last_object_with_id(obs@.subrange(0, k as int), id@),
        decreases k,
    {
        let ghost sub = obs@.subrange(0, k as int);
        assert(sub.drop_last() =~= obs@.subrange(0, k - 1));
        assert(sub.last() == obs@[k - 1]);
        if obs[k - 1].id == *id {
            return Some(k - 1);
        }
        k = k - 1;
    }
    None
}

fn find_last_event(evs: &Vec<Event>, id: &String) -> (r: Option<usize>)
    ensures
        match r {
            Some(i) => last_event_with_id(evs@, id@) == Some(i as int),
            None => last_event_with_id(evs@, id@) is None,
        },
{
    let mut k: usize = evs.len();
    assert(evs@.subrange(0, k as int) =~= evs@);
    while k > 0
        invariant
            k <= evs@.len(),
            last_event_with_id(evs@, id@) == last_event_with_id(evs@.subrange(0, k as int), id@),
        decreases k,
    {
        let ghost sub = evs@.subrange(0, k as int);
        assert(sub.drop_last() =~= evs@.subrange(0, k - 1));
        assert(sub.last() == evs@[k - 1]);
        if evs[k - 1].id == *id {
            return Some(k - 1);
        }
        k = k - 1;
    }
    None
}

proof fn lemma_last_object_in_range(obs: Seq<Object>, id: Seq<char>)
    ensures
        match last_object_with_id(obs, id) {
            Some(k) => 0 <= k < obs.len() && obs[k].id@ == id,
            None => true,
        },
    decreases obs.len(),
{
    if obs.len() > 0 {
        lemma_last_object_in_range(obs.drop_last(), id);
        match last_object_with_id(obs.drop_last(), id) {
            Some(k) => {
                assert(obs.drop_last()[k] == obs[k]);
            },
            None => {},
        }
    }
}

proof fn lemma_last_event_in_range(evs: Seq<Event>, id: Seq<char>)
    ensures
        match last_event_with_id(evs, id) {
            Some(k) => 0 <= k < evs.len() && evs[k].id@ == id,
            None => true,
        },
    decreases evs.len(),
{
    if evs.len() > 0 {
        lemma_last_event_in_range(evs.drop_last(), id);
        match last_event_with_id(evs.drop_last(), id) {
            Some(k) => {
                assert(evs.drop_last()[k] == evs[k]);
            },
            None => {},
        }
    }
}

proof fn lemma_pairs_in_set(v: Seq<(Seq<char>, Seq<char>)>, x: (Seq<char>, Seq<char>))
    ensures
        v.to_set().contains(x) <==> v.contains(x),
{
}

/// Adds a pair to a list of distinct pairs unless it is there already.
fn push_unique_pair(r: &mut Vec<(String, String)>, q: &String, t: &String)
    requires
        pairs_view(old(r)@).no_duplicates(),
    ensures
        pairs_view(final(r)@).no_duplicates(),
        pairs_view(final(r)@).to_set() == pairs_view(old(r)@).to_set().insert((q@, t@)),
{
    let ghost x = (q@, t@);
    let mut k: usize = 0;
    while k < r.len()
        invariant
            k <= r@.len(),
            r@ == old(r)@,
            x == (q@, t@),
            pairs_view(r@).no_duplicates(),
            forall|m: int| 0 <= m < k ==> pairs_view(r@)[m] != x,
        decreases r.len() - k,
    {
        if r[k].0 == *q && r[k].1 == *t {
            assert(pairs_view(r@)[k as int] == x);
            proof {
                lemma_pairs_in_set(pairs_view(r@), x);
            }
            assert(pairs_view(r@).to_set() =~= pairs_view(r@).to_set().insert(x));
            return;
        }
        k = k + 1;
    }
    let ghost v0 = pairs_view(r@);
    r.push((q.clone(), t.clone()));
    let ghost v1 = pairs_view(r@);
    assert(v1 =~= v0.push(x));
    assert forall|a: int, b: int| 0 <= a < b < v1.len() implies v1[a] != v1[b] by {
        if b == v1.len() - 1 {
            assert(v1[a] == v0[a]);
        }
    }
    assert forall|y| v1.to_set().contains(y) <==> v0.to_set().insert(x).contains(y) by {
        lemma_pairs_in_set(v1, y);
        lemma_pairs_in_set(v0, y);
        if v1.contains(y) && y != x {
            let m = choose|m: int| 0 <= m < v1.len() && v1[m] == y;
            assert(v0[m] == y);
        }
        if v0.contains(y) {
            let m = choose|m: int| 0 <= m < v0.len() && v0[m] == y;
            assert(v1[m] == y);
        }
        if y == x {
            assert(v1[v1.len() - 1] == x);
        }
    }
    assert(v1.to_set() =~= v0.to_set().insert(x));
}

impl IndexLinkedOCEL {
    /// The position of the event with id `id` (the last one, where ids repeat).
    pub fn ev_index_by_id(&self, id: &String) -> (r: Option<EventIndex>)
        ensures
            match r {
                Some(i) => last_event_with_id(self.events(), id@) == Some(i.0 as int) && i.0
                    < self.events().len() && self.events()[i.0 as int].id@ == id@,
                None => last_event_with_id(self.events(), id@) is None,
            },
    {
        proof {
            lemma_last_event_in_range(self.events(), id@);
        }
        match find_last_event(&self.ocel.events, id) {
            Some(i) => Some(EventIndex(i)),
            None => None,
        }
    }

    /// The position of the object with id `id` (the last one, where ids repeat).
    pub fn ob_index_by_id(&self, id: &String) -> (r: Option<ObjectIndex>)
        ensures
            match r {
                Some(i) => last_object_with_id(self.objects(), id@) == Some(i.0 as int) && i.0
                    < self.objects().len() && self.objects()[i.0 as int].id@ == id@,
                None => last_object_with_id(self.objects(), id@) is None,
            },
    {
        proof {
            lemma_last_object_in_range(self.objects(), id@);
        }
        match find_last_object(&self.ocel.objects, id) {
            Some(i) => Some(ObjectIndex(i)),
            None => None,
        }
    }

    /// For objects of type `tname`: the distinct pairs of a relationship's
    /// qualifier and the type of the object it points to.
    pub fn object_rels_per_type(&self, tname: &String) -> (r: Vec<(String, String)>)
        ensures
            pairs_view(r@).no_duplicates(),
            pairs_view(r@).to_set() == object_rel_pairs(self.objects(), tname@, self.objects().len()),
    {
        let obs = &self.ocel.objects;
        let mut r: Vec<(String, String)> = Vec::new();
        assert(pairs_view(r@).to_set() =~= Set::<(Seq<char>, Seq<char>)>::empty());
        let mut k: usize = 0;
        while k < obs.len()
            invariant
                k <= obs@.len(),
                obs@ == self.objects(),
                pairs_view(r@).no_duplicates(),
                pairs_view(r@).to_set() == object_rel_pairs(obs@, tname@, k as nat),
            decreases obs.len() - k,
        {
            let o = &obs[k];
            if o.object_type == *tname {
                let ghost before = pairs_view(r@).to_set();
                let mut m: usize = 0;
                while m < o.relationships.len()
                    invariant
                        k < obs@.len(),
                        *o == obs@[k as int],
                        m <= o.relationships@.len(),
                        pairs_view(r@).no_duplicates(),
                        pairs_view(r@).to_set() == before + rel_pairs(obs@, o.relationships@, m as nat),
                    decreases o.relationships.len() - m,
                {
                    let rel = &o.relationships[m];
                    proof {
                        lemma_last_object_in_range(obs@, rel.object_id@);
                    }
                    match find_last_object(obs, &rel.object_id) {
                        Some(t) => {
                            push_unique_pair(&mut r, &rel.qualifier, &obs[t].object_type);
                            assert(pairs_view(r@).to_set() =~= before + rel_pairs(obs@, o.relationships@, (m + 1) as nat));
                        },
                        None => {
                            assert(rel_pairs(obs@, o.relationships@, (m + 1) as nat) == rel_pairs(obs@, o.relationships@, m as nat));
                        },
                    }
                    m = m + 1;
                }
            } else {
                assert(object_rel_pairs(obs@, tname@, (k + 1) as nat) == object_rel_pairs(obs@, tname@, k as nat));
            }
            k = k + 1;
        }
        r
    }
}

} // verus!
