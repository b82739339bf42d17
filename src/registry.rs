use vstd::prelude::*;
use std::collections::HashMap;
use crate::dataref::{
    BAT_OHP_ARRAY_NAME, DataRef, DataRefBehavior, DataRefHandler, SubscriptionDescriptor, UnresolvedDataref,
};
use crate::value::{BatteryState, Value, decimal_id, parse_id};
use vstd::string::StringSliceAdditionalSpecFns;

verus! {

broadcast use vstd::std_specs::hash::group_hash_axioms;

/// Why an update from the streaming channel reached no handler.
#[derive(Debug, Clone, Copy, PartialEq, Eq, Structural)]
pub enum RegistryError {
    /// The id is not a decimal `u64`.
    MalformedId,
    /// No registered name holds the id.
    UnknownId,
}

/// The registry of tracked datarefs: one handler per name, and the index
/// from numeric id back to name.
///
/// Every id in the index names an entry that holds that id. An entry whose
/// id was later given to another name keeps it, but the index then sends
/// that id to the other name.
pub struct DataRefRegistry {
    pub datarefs: Vec<DataRefHandler>,
    pub id_to_name: HashMap<u64, String>,
}

/// The registry's subscriptions: one descriptor per entry whose id is known,
/// and the names of the entries still waiting for theirs.
pub struct SubscriptionPlan {
    pub descriptors: Vec<SubscriptionDescriptor>,
    pub unresolved: Vec<UnresolvedDataref>,
}

/// The ids after one discovery record (`name`, `id`) is taken in: the entry
/// of that name gets the id; no other entry changes. A name that is not
/// registered changes nothing.
pub open spec fn assign_step(
    names: Seq<Seq<char>>,
    ids: Seq<Option<u64>>,
    name: Seq<char>,
    id: u64,
) -> Seq<Option<u64>> {
    if names.contains(name) {
        Seq::new(
            ids.len(),
            |i: int|
                if names[i] == name {
                    Some(id)
                } else {
                    ids[i]
                },
        )
    } else {
        ids
    }
}

/// The index after one discovery record (`name`, `id`) is taken in: the
/// name's former id no longer leads to it, and `id` now does. A name that is
/// not registered changes nothing.
pub open spec fn index_step(
    names: Seq<Seq<char>>,
    index: Map<u64, Seq<char>>,
    name: Seq<char>,
    id: u64,
) -> Map<u64, Seq<char>> {
    if names.contains(name) {
        Map::new(|k: u64| index.contains_key(k) && index[k] != name, |k: u64| index[k]).insert(id, name)
    } else {
        index
    }
}

/// The index after the discovery records `records` are taken in, in order.
pub open spec fn resolved_index(
    names: Seq<Seq<char>>,
    index: Map<u64, Seq<char>>,
    records: Seq<DataRef>,
) -> Map<u64, Seq<char>>
    decreases records.len(),
{
    if records.len() == 0 {
        index
    } else {
        index_step(
            names,
            resolved_index(names, index, records.drop_last()),
            records.last().name@,
            records.last().id,
        )
    }
}

/// The ids after the discovery records `records` are taken in, in order.
pub open spec fn resolved_ids(
    names: Seq<Seq<char>>,
    ids: Seq<Option<u64>>,
    records: Seq<DataRef>,
) -> Seq<Option<u64>>
    decreases records.len(),
{
    if records.len() == 0 {
        ids
    } else {
        assign_step(
            names,
            resolved_ids(names, ids, records.drop_last()),
            records.last().name@,
            records.last().id,
        )
    }
}

/// A descriptor as an id and, for an array dataref, its indices.
pub open spec fn descriptor_view(d: SubscriptionDescriptor) -> (u64, Option<Seq<u64>>) {
    (d.id, match d.index {
        Some(v) => Some(v@),
        None => None,
    })
}

/// The subscriptions of the entries of `hs` whose id is known, in order.
pub open spec fn known_subscriptions(hs: Seq<DataRefHandler>) -> Seq<(u64, Option<Seq<u64>>)>
    decreases hs.len(),
{
    if hs.len() == 0 {
        Seq::empty()
    } else {
        match hs.last().id_of() {
            Some(k) => known_subscriptions(hs.drop_last()).push((k, hs.last().indices())),
            None => known_subscriptions(hs.drop_last()),
        }
    }
}

/// The names of the entries of `hs` whose id is not known, in order.
pub open spec fn unknown_names(hs: Seq<DataRefHandler>) -> Seq<Seq<char>>
    decreases hs.len(),
{
    if hs.len() == 0 {
        Seq::empty()
    } else {
        match hs.last().id_of() {
            Some(_) => unknown_names(hs.drop_last()),
            None => unknown_names(hs.drop_last()).push(hs.last().name_of()),
        }
    }
}

proof fn lemma_resolved_ids_len(names: Seq<Seq<char>>, ids: Seq<Option<u64>>, records: Seq<DataRef>)
    ensures
        resolved_ids(names, ids, records).len() == ids.len(),
    decreases records.len(),
{
    if records.len() > 0 {
        lemma_resolved_ids_len(names, ids, records.drop_last());
    }
}

impl DataRefRegistry {
    pub open spec fn len(&self) -> nat {
        self.datarefs@.len()
    }

    pub open spec fn names(&self) -> Seq<Seq<char>> {
        self.datarefs@.map_values(|h: DataRefHandler| h.name_of())
    }

    pub open spec fn ids(&self) -> Seq<Option<u64>> {
        self.datarefs@.map_values(|h: DataRefHandler| h.id_of())
    }

    /// The index from id to name, over the names' views.
    pub open spec fn index(&self) -> Map<u64, Seq<char>> {
        self.id_to_name@.map_values(|n: String| n@)
    }

    pub open spec fn wf(&self) -> bool {
        &&& forall|i: int, j: int|
            0 <= i < j < self.len() ==> #[trigger] self.datarefs@[i].name_of()
                != #[trigger] self.datarefs@[j].name_of()
        &&& forall|k: u64|
            #[trigger] self.id_to_name@.contains_key(k) ==> exists|i: int|
                0 <= i < self.len() && (#[trigger] self.datarefs@[i]).id_of() == Some(k)
                    && self.datarefs@[i].name_of() == self.id_to_name@[k]@
    }

    /// The entry registered under `name`, if there is one.
    pub fn find(&self, name: &String) -> (r: Option<usize>)
        ensures
            match r {
                Some(i) => i < self.len() && self.datarefs@[i as int].name_of() == name@,
                None => !self.names().contains(name@),
            },
    {
        let mut i: usize = 0;
        while i < self.datarefs.len()
            invariant
                0 <= i <= self.len(),
                forall|j: int| 0 <= j < i ==> self.datarefs@[j].name_of() != name@,
            decreases self.len() - i,
        {
            let n: &String = self.datarefs[i].name();
            if *n == *name {
                return Some(i);
            }
            i = i + 1;
        }
        proof {
            if self.names().contains(name@) {
                let j = choose|j: int| 0 <= j < self.names().len() && self.names()[j] == name@;
                assert(self.datarefs@[j].name_of() == name@);
            }
        }
        None
    }

    /// A registry tracking the battery button array, with no id known.
    pub fn new() -> (r: Self)
        ensures
            r.wf(),
            r.len() == 1,
            r.datarefs@[0].name_of() == BAT_OHP_ARRAY_NAME@,
            r.datarefs@[0].id_of() is None,
            r.datarefs@[0].battery_state() == Some(BatteryState::Unknown),
            r.id_to_name@.is_empty(),
    {
        let mut datarefs: Vec<DataRefHandler> = Vec::new();
        datarefs.push(DataRefHandler::for_name(BAT_OHP_ARRAY_NAME));
        let id_to_name: HashMap<u64, String> = HashMap::new();
        let r = DataRefRegistry { datarefs, id_to_name };
        assert(r.id_to_name@ =~= Map::empty());
        r
    }

    /// `after` is `before` once `name` is registered: unchanged if the name
    /// was there, else with one new entry of that name and no id, at the end.
    pub open spec fn registers(before: Self, after: Self, name: Seq<char>) -> bool {
        &&& before.names().contains(name) ==> after == before
        &&& !before.names().contains(name) ==> {
            &&& after.datarefs@.drop_last() == before.datarefs@
            &&& after.len() == before.len() + 1
            &&& after.datarefs@.last().name_of() == name
            &&& after.datarefs@.last().id_of() is None
            &&& after.id_to_name@ == before.id_to_name@
        }
    }

    /// Starts tracking `name`; a name already tracked is left as it is.
    pub fn register(&mut self, name: &str)
        requires
            old(self).wf(),
        ensures
            final(self).wf(),
            Self::registers(*old(self), *final(self), name@),
    {
        let owned = name.to_owned();
        match self.find(&owned) {
            Some(i) => {
                assert(self.names()[i as int] == name@);
            },
            None => {
                let h = DataRefHandler::for_name(name);
                self.datarefs.push(h);
                assert(self.datarefs@.drop_last() =~= old(self).datarefs@);
                assert forall|i: int| 0 <= i < old(self).len() implies
                    (#[trigger] old(self).datarefs@[i]).name_of() != name@ by {
                    assert(old(self).names()[i] == old(self).datarefs@[i].name_of());
                };
                assert forall|i: int, j: int|
                    0 <= i < j < self.len() implies #[trigger] self.datarefs@[i].name_of()
                        != #[trigger] self.datarefs@[j].name_of() by {
                    assert(self.datarefs@[i] == old(self).datarefs@[i]);
                    if j < old(self).len() {
                        assert(self.datarefs@[j] == old(self).datarefs@[j]);
                    }
                };
                assert forall|k: u64| #[trigger] self.id_to_name@.contains_key(k) implies exists|i: int|
                    0 <= i < self.len() && (#[trigger] self.datarefs@[i]).id_of() == Some(k)
                        && self.datarefs@[i].name_of() == self.id_to_name@[k]@ by {
                    let i = choose|i: int| 0 <= i < old(self).len() && (#[trigger] old(self).datarefs@[i]).id_of() == Some(k)
                        && old(self).datarefs@[i].name_of() == old(self).id_to_name@[k]@;
                    assert(self.datarefs@[i] == old(self).datarefs@[i]);
                };
            },
        }
    }

    /// `after` is `before` with the discovery records `records` taken in.
    pub open spec fn resolves(before: Self, after: Self, records: Seq<DataRef>) -> bool {
        &&& after.len() == before.len()
        &&& forall|x: int|
            0 <= x < before.len() ==> DataRefHandler::with_id(
                #[trigger] before.datarefs@[x],
                after.datarefs@[x],
                resolved_ids(before.names(), before.ids(), records)[x],
            )
        &&& after.index() == resolved_index(before.names(), before.index(), records)
    }

    /// Sets the id of entry `i`, leaving the index as it is.
    fn set_entry_id(&mut self, i: usize, id: Option<u64>)
        requires
            i < old(self).len(),
        ensures
            final(self).len() == old(self).len(),
            final(self).id_to_name == old(self).id_to_name,
            forall|j: int|
                0 <= j < old(self).len() && j != i ==> final(self).datarefs@[j]
                    == old(self).datarefs@[j],
            DataRefHandler::with_id(old(self).datarefs@[i as int], final(self).datarefs@[i as int], id),
            final(self).datarefs@[i as int].name_of() == old(self).datarefs@[i as int].name_of(),
            final(self).datarefs@[i as int].id_of() == id,
    {
        let mut h = self.datarefs.remove(i);
        h.set_id(id);
        self.datarefs.insert(i, h);
    }

    /// Takes in one discovery record.
    fn assign(&mut self, name: &String, id: u64)
        requires
            old(self).wf(),
        ensures
            final(self).wf(),
            final(self).len() == old(self).len(),
            forall|x: int|
                0 <= x < old(self).len() ==> DataRefHandler::with_id(
                    #[trigger] old(self).datarefs@[x],
                    final(self).datarefs@[x],
                    assign_step(old(self).names(), old(self).ids(), name@, id)[x],
                ),
            final(self).index() == index_step(old(self).names(), old(self).index(), name@, id),
    {
        let ghost names = self.names();
        let ghost ids = self.ids();
        let ghost step = assign_step(names, ids, name@, id);
        match self.find(name) {
            None => {
                assert forall|x: int| 0 <= x < old(self).len() implies DataRefHandler::with_id(
                    #[trigger] old(self).datarefs@[x],
                    self.datarefs@[x],
                    step[x],
                ) by {
                    assert(step[x] == ids[x]);
                    assert(ids[x] == self.datarefs@[x].id_of());
                };
            },
            Some(i) => {
                assert(names[i as int] == name@);
                let old_id = self.datarefs[i].id();
                let mut removed: bool = false;
                match old_id {
                    Some(k0) => {
                        let stale: bool = match self.id_to_name.get(&k0) {
                            Some(m) => *m == *name,
                            None => false,
                        };
                        if stale {
                            self.id_to_name.remove(&k0);
                            removed = true;
                        }
                    },
                    None => {},
                }
                let ghost mid = self.id_to_name@;
                self.set_entry_id(i, Some(id));
                self.id_to_name.insert(id, name.clone());
                proof {
                    let oi = old(self).index();
                    // the only id that led to `name` was the entry's former one
                    assert forall|k: u64| #[trigger] oi.contains_key(k) && oi[k] == name@ implies
                        old_id == Some(k) && removed by {
                        assert(old(self).id_to_name@.contains_key(k));
                        let x = choose|x: int| 0 <= x < old(self).len()
                            && (#[trigger] old(self).datarefs@[x]).id_of() == Some(k)
                            && old(self).datarefs@[x].name_of() == old(self).id_to_name@[k]@;
                        if x != i {
                            if x < i {
                                assert(old(self).datarefs@[x].name_of() != old(self).datarefs@[i as int].name_of());
                            } else {
                                assert(old(self).datarefs@[i as int].name_of() != old(self).datarefs@[x].name_of());
                            }
                        }
                        assert(names[i as int] == old(self).datarefs@[i as int].name_of());
                    };
                    assert forall|k: u64| mid.contains_key(k) implies
                        old(self).id_to_name@.contains_key(k) && mid[k] == old(self).id_to_name@[k]
                        && mid[k]@ != name@ by {
                        if old(self).id_to_name@.contains_key(k) && old(self).id_to_name@[k]@ == name@ {
                            assert(oi.contains_key(k) && oi[k] == name@);
                        }
                    };
                    assert forall|k: u64| old(self).id_to_name@.contains_key(k)
                        && old(self).id_to_name@[k]@ != name@ implies #[trigger] mid.contains_key(k) by {
                        if removed {
                            assert(old_id is Some);
                        }
                    };
                    assert(self.index() =~= index_step(names, oi, name@, id));
                    assert forall|x: int| 0 <= x < old(self).len() implies DataRefHandler::with_id(
                        #[trigger] old(self).datarefs@[x],
                        self.datarefs@[x],
                        step[x],
                    ) by {
                        assert(ids[x] == old(self).datarefs@[x].id_of());
                        assert(names[x] == old(self).datarefs@[x].name_of());
                        if x != i {
                            assert(names[x] != name@);
                        }
                    };
                    assert forall|k: u64| #[trigger] self.id_to_name@.contains_key(k) implies exists|x: int|
                        0 <= x < self.len() && (#[trigger] self.datarefs@[x]).id_of() == Some(k)
                            && self.datarefs@[x].name_of() == self.id_to_name@[k]@ by {
                        if k == id {
                            assert(self.datarefs@[i as int].id_of() == Some(k));
                            assert(self.datarefs@[i as int].name_of() == old(self).datarefs@[i as int].name_of());
                        } else {
                            assert(mid.contains_key(k));
                            let x = choose|x: int| 0 <= x < old(self).len()
                                && (#[trigger] old(self).datarefs@[x]).id_of() == Some(k)
                                && old(self).datarefs@[x].name_of() == old(self).id_to_name@[k]@;
                            assert(x != i);
                            assert(self.datarefs@[x] == old(self).datarefs@[x]);
                        }
                    };
                    assert forall|a: int, b: int|
                        0 <= a < b < self.len() implies #[trigger] self.datarefs@[a].name_of()
                            != #[trigger] self.datarefs@[b].name_of() by {
                        assert(names[a] == old(self).datarefs@[a].name_of());
                        assert(names[b] == old(self).datarefs@[b].name_of());
                        if a != i {
                            assert(self.datarefs@[a] == old(self).datarefs@[a]);
                        }
                        if b != i {
                            assert(self.datarefs@[b] == old(self).datarefs@[b]);
                        }
                    };
                }
            },
        }
    }

    /// Takes in the records of discovery, in order: each registered name
    /// gets the id of the last record that names it, and the index sends that
    /// id to the name (a name's former id no longer leads to it). An id given
    /// to two names stays with both, and the index follows the later record.
    /// Records of names that are not registered are ignored.
    pub fn update_dataref_id(&mut self, datarefs: Vec<DataRef>)
        requires
            old(self).wf(),
        ensures
            final(self).wf(),
            Self::resolves(*old(self), *final(self), datarefs@),
    {
        let ghost names = self.names();
        let ghost ids = self.ids();
        let ghost index = self.index();
        let n: usize = datarefs.len();
        let mut t: usize = 0;
        assert(datarefs@.subrange(0, 0) =~= Seq::<DataRef>::empty());
        while t < n
            invariant
                n == datarefs@.len(),
                0 <= t <= n,
                self.wf(),
                self.len() == old(self).len(),
                names == old(self).names(),
                ids == old(self).ids(),
                index == old(self).index(),
                self.index() == resolved_index(names, index, datarefs@.subrange(0, t as int)),
                forall|x: int|
                    0 <= x < old(self).len() ==> DataRefHandler::with_id(
                        #[trigger] old(self).datarefs@[x],
                        self.datarefs@[x],
                        resolved_ids(names, ids, datarefs@.subrange(0, t as int))[x],
                    ),
            decreases n - t,
        {
            let ghost before = *self;
            proof {
                lemma_resolved_ids_len(names, ids, datarefs@.subrange(0, t as int));
                assert(before.names() =~= names) by {
                    assert forall|x: int| 0 <= x < names.len() implies before.names()[x] == names[x] by {
                        assert(before.datarefs@[x].name_of() == old(self).datarefs@[x].name_of());
                    };
                };
                assert forall|x: int| 0 <= x < names.len() implies before.ids()[x]
                    == resolved_ids(names, ids, datarefs@.subrange(0, t as int))[x] by {
                    assert(DataRefHandler::with_id(
                        old(self).datarefs@[x],
                        before.datarefs@[x],
                        resolved_ids(names, ids, datarefs@.subrange(0, t as int))[x],
                    ));
                };
                assert(before.ids() =~= resolved_ids(names, ids, datarefs@.subrange(0, t as int)));
            }
            self.assign(&datarefs[t].name, datarefs[t].id);
            proof {
                let r = datarefs@.subrange(0, t as int + 1);
                assert(r.drop_last() =~= datarefs@.subrange(0, t as int));
                lemma_resolved_ids_len(names, ids, r);
            }
            t = t + 1;
        }
        assert(datarefs@.subrange(0, n as int) =~= datarefs@);
    }

    /// The subscriptions to send: one descriptor per entry whose id is known,
    /// in registry order, and the entries that must be skipped for now.
    pub fn descriptors_to_subscribe(&self) -> (r: SubscriptionPlan)
        ensures
            r.descriptors@.map_values(|d: SubscriptionDescriptor| descriptor_view(d)) == known_subscriptions(self.datarefs@),
            r.unresolved@.map_values(|u: UnresolvedDataref| u.name@) == unknown_names(self.datarefs@),
    {
        let mut descriptors: Vec<SubscriptionDescriptor> = Vec::new();
        let mut unresolved: Vec<UnresolvedDataref> = Vec::new();
        let mut i: usize = 0;
        while i < self.datarefs.len()
            invariant
                0 <= i <= self.len(),
                descriptors@.map_values(|d: SubscriptionDescriptor| descriptor_view(d))
                    == known_subscriptions(self.datarefs@.subrange(0, i as int)),
                unresolved@.map_values(|u: UnresolvedDataref| u.name@)
                    == unknown_names(self.datarefs@.subrange(0, i as int)),
            decreases self.len() - i,
        {
            let ghost prev_d = descriptors@;
            let ghost prev_u = unresolved@;
            let ghost s = self.datarefs@.subrange(0, i as int + 1);
            assert(s.drop_last() =~= self.datarefs@.subrange(0, i as int));
            match self.datarefs[i].get_object_to_subscribe() {
                Ok(d) => {
                    descriptors.push(d);
                    assert(descriptors@.map_values(|d: SubscriptionDescriptor| descriptor_view(d))
                        =~= prev_d.map_values(|d: SubscriptionDescriptor| descriptor_view(d)).push(descriptor_view(d)));
                },
                Err(u) => {
                    unresolved.push(u);
                    assert(unresolved@.map_values(|u: UnresolvedDataref| u.name@)
                        =~= prev_u.map_values(|u: UnresolvedDataref| u.name@).push(u.name@));
                },
            }
            i = i + 1;
        }
        assert(self.datarefs@.subrange(0, self.len() as int) =~= self.datarefs@);
        SubscriptionPlan { descriptors, unresolved }
    }

    /// The entry registered under `name`.
    pub fn entry(&self, name: &str) -> (r: Option<&DataRefHandler>)
        ensures
            match r {
                Some(h) => h.name_of() == name@ && self.datarefs@.contains(*h),
                None => !self.names().contains(name@),
            },
    {
        let owned = name.to_owned();
        match self.find(&owned) {
            Some(i) => Some(&self.datarefs[i]),
            None => None,
        }
    }

    /// Routes one update from the streaming channel to the handler that the
    /// index names for its id. A malformed or unknown id changes nothing.
    pub fn dispatch(&mut self, id: &str, value: Value) -> (r: Result<(), RegistryError>)
        requires
            old(self).wf(),
        ensures
            final(self).wf(),
            match decimal_id(id.spec_bytes()) {
                None => r == Err::<(), RegistryError>(RegistryError::MalformedId)
                    && *final(self) == *old(self),
                Some(k) => if !old(self).id_to_name@.contains_key(k) {
                    r == Err::<(), RegistryError>(RegistryError::UnknownId) && *final(self) == *old(self)
                } else {
                    &&& r == Ok::<(), RegistryError>(())
                    &&& final(self).id_to_name == old(self).id_to_name
                    &&& final(self).len() == old(self).len()
                    &&& forall|x: int| 0 <= x < old(self).len() ==> if old(self).datarefs@[x].name_of()
                        == old(self).id_to_name@[k]@ {
                        DataRefHandler::processed(old(self).datarefs@[x], final(self).datarefs@[x], value)
                    } else {
                        final(self).datarefs@[x] == old(self).datarefs@[x]
                    }
                },
            },
    {
        let k = match parse_id(id) {
            Some(k) => k,
            None => {
                return Err(RegistryError::MalformedId);
            },
        };
        let name: String = match self.id_to_name.get(&k) {
            Some(n) => n.clone(),
            None => {
                return Err(RegistryError::UnknownId);
            },
        };
        let found = self.find(&name);
        proof {
            let x = choose|x: int| 0 <= x < self.len() && (#[trigger] self.datarefs@[x]).id_of() == Some(k)
                && self.datarefs@[x].name_of() == self.id_to_name@[k]@;
            assert(self.names()[x] == self.datarefs@[x].name_of());
        }
        let i = match found {
            Some(i) => i,
            None => {
                return Err(RegistryError::UnknownId);
            },
        };
        let mut h = self.datarefs.remove(i);
        h.process_socket_response(value);
        self.datarefs.insert(i, h);
        proof {
            assert(self.datarefs@ =~= old(self).datarefs@.update(i as int, h));
            assert forall|x: int| 0 <= x < old(self).len() && x != i implies
                old(self).datarefs@[x].name_of() != name@ by {
                if x < i {
                    assert(old(self).datarefs@[x].name_of() != old(self).datarefs@[i as int].name_of());
                } else {
                    assert(old(self).datarefs@[i as int].name_of() != old(self).datarefs@[x].name_of());
                }
            };
            assert forall|a: int, b: int|
                0 <= a < b < self.len() implies #[trigger] self.datarefs@[a].name_of()
                    != #[trigger] self.datarefs@[b].name_of() by {
                assert(old(self).datarefs@[a].name_of() != old(self).datarefs@[b].name_of());
            };
            assert forall|q: u64| #[trigger] self.id_to_name@.contains_key(q) implies exists|x: int|
                0 <= x < self.len() && (#[trigger] self.datarefs@[x]).id_of() == Some(q)
                    && self.datarefs@[x].name_of() == self.id_to_name@[q]@ by {
                let x = choose|x: int| 0 <= x < old(self).len() && (#[trigger] old(self).datarefs@[x]).id_of() == Some(q)
                    && old(self).datarefs@[x].name_of() == old(self).id_to_name@[q]@;
                assert(self.datarefs@[x].id_of() == Some(q));
            };
        }
        Ok(())
    }
}

/// Taking in no discovery records changes no id: entries that had none
/// still have none.
pub proof fn lemma_resolve_nothing(before: DataRefRegistry, after: DataRefRegistry)
    requires
        DataRefRegistry::resolves(before, after, Seq::empty()),
    ensures
        after.ids() == before.ids(),
        forall|x: int| 0 <= x < before.len() && before.ids()[x] is None ==> after.ids()[x] is None,
{
    assert forall|x: int| 0 <= x < before.len() implies after.ids()[x] == before.ids()[x] by {
        assert(DataRefHandler::with_id(before.datarefs@[x], after.datarefs@[x], before.ids()[x]));
    };
    assert(after.ids() =~= before.ids());
}

/// Discovery never adds or removes entries: the registered names, and their
/// order, are the same after any records are taken in.
pub proof fn lemma_resolve_keeps_names(
    before: DataRefRegistry,
    after: DataRefRegistry,
    records: Seq<DataRef>,
)
    requires
        DataRefRegistry::resolves(before, after, records),
    ensures
        after.names() == before.names(),
{
    lemma_resolved_ids_len(before.names(), before.ids(), records);
    assert forall|x: int| 0 <= x < before.len() implies after.names()[x] == before.names()[x] by {
        assert(DataRefHandler::with_id(
            before.datarefs@[x],
            after.datarefs@[x],
            resolved_ids(before.names(), before.ids(), records)[x],
        ));
    };
    assert(after.names() =~= before.names());
}

/// There are exactly as many subscription descriptors as entries with a
/// known id, and the skipped entries make up the rest.
pub proof fn lemma_one_descriptor_per_known_id(hs: Seq<DataRefHandler>)
    ensures
        known_subscriptions(hs).len() == hs.filter(|h: DataRefHandler| h.id_of() is Some).len(),
        known_subscriptions(hs).len() + unknown_names(hs).len() == hs.len(),
        known_subscriptions(hs).len() <= hs.len(),
    decreases hs.len(),
{
    reveal_with_fuel(Seq::filter, 1);
    if hs.len() > 0 {
        lemma_one_descriptor_per_known_id(hs.drop_last());
    }
}

/// Registering a name twice leaves exactly one entry of that name.
pub proof fn lemma_register_twice(
    r0: DataRefRegistry,
    r1: DataRefRegistry,
    r2: DataRefRegistry,
    name: Seq<char>,
)
    requires
        r0.wf(),
        r1.wf(),
        r2.wf(),
        DataRefRegistry::registers(r0, r1, name),
        DataRefRegistry::registers(r1, r2, name),
    ensures
        exists|i: int| 0 <= i < r2.len() && #[trigger] r2.datarefs@[i].name_of() == name,
        forall|i: int, j: int|
            0 <= i < r2.len() && 0 <= j < r2.len() && #[trigger] r2.datarefs@[i].name_of() == name
                && #[trigger] r2.datarefs@[j].name_of() == name ==> i == j,
{
    if !r0.names().contains(name) {
        let last = r1.len() - 1;
        assert(r1.names()[last] == name);
    }
    assert(r1.names().contains(name));
    assert(r2 == r1);
    let i = choose|i: int| 0 <= i < r1.names().len() && r1.names()[i] == name;
    assert(r2.datarefs@[i].name_of() == name);
}

proof fn lemma_resolved_ids_keep_some(names: Seq<Seq<char>>, ids: Seq<Option<u64>>, records: Seq<DataRef>)
    ensures
        resolved_ids(names, ids, records).len() == ids.len(),
        forall|x: int| 0 <= x < ids.len() && ids[x] is Some ==> (#[trigger] resolved_ids(names, ids, records)[x]) is Some,
    decreases records.len(),
{
    if records.len() > 0 {
        lemma_resolved_ids_keep_some(names, ids, records.drop_last());
    }
}

/// Discovery never takes a known id away: an entry that had an id still has
/// one after any records are taken in.
pub proof fn lemma_resolve_keeps_known_ids(
    before: DataRefRegistry,
    after: DataRefRegistry,
    records: Seq<DataRef>,
)
    requires
        DataRefRegistry::resolves(before, after, records),
    ensures
        forall|x: int| 0 <= x < before.len() && before.ids()[x] is Some ==> (#[trigger] after.ids()[x]) is Some,
{
    lemma_resolved_ids_keep_some(before.names(), before.ids(), records);
    assert forall|x: int| 0 <= x < before.len() && before.ids()[x] is Some implies (#[trigger] after.ids()[x]) is Some by {
        assert(DataRefHandler::with_id(
            before.datarefs@[x],
            after.datarefs@[x],
            resolved_ids(before.names(), before.ids(), records)[x],
        ));
        assert(resolved_ids(before.names(), before.ids(), records)[x] is Some);
    };
}

} // verus!
