//! The actor registry shared by every database of a coordinator, and the
//! placement diffs it publishes.
use vstd::prelude::*;

use crate::fragment::{
    mapping_of, rebuild_fragment_mapping, DatabaseId, FragmentId, FragmentMapping, FragmentView,
    InflightFragmentInfo, WorkerId, ActorId,
};
use crate::keyed::{has_key, index_of, unique_keys, upsert, remove_key};
use crate::fragment::{lemma_last_index_of, lemma_not_at_index};
use crate::keyed::lemma_index_of;

verus! {

/// Kind of a placement diff.
#[derive(Clone, Copy, Debug, PartialEq, Eq, Structural)]
pub enum Operation {
    Add,
    Update,
    Delete,
}

pub type MappingView = (FragmentId, Seq<(ActorId, WorkerId)>);

/// One batch of placement records, all of one kind.
#[derive(Clone, Debug)]
pub struct FragmentMappingNotification {
    pub operation: Operation,
    pub mappings: Vec<FragmentMapping>,
}

pub open spec fn mapping_views(s: Seq<FragmentMapping>) -> Seq<MappingView> {
    s.map_values(|m: FragmentMapping| m@)
}

impl View for FragmentMappingNotification {
    type V = (Operation, Seq<MappingView>);

    open spec fn view(&self) -> (Operation, Seq<MappingView>) {
        (self.operation, mapping_views(self.mappings@))
    }
}

/// A fragment as the registry holds it, under its database.
#[derive(Clone, Debug)]
pub struct RegisteredFragment {
    pub database_id: DatabaseId,
    pub fragment_id: FragmentId,
    pub info: InflightFragmentInfo,
}

pub type RegistryEntry = ((DatabaseId, FragmentId), FragmentView);

pub open spec fn registry_entries(s: Seq<RegisteredFragment>) -> Seq<RegistryEntry> {
    s.map_values(|e: RegisteredFragment| ((e.database_id, e.fragment_id), e.info@))
}

/// The records of a batch of deletions.
pub open spec fn deleted_mappings(s: Seq<RegistryEntry>) -> Seq<MappingView> {
    s.map_values(|e: RegistryEntry| mapping_of(e.1))
}

/// The fragments of every database, with the placement each was last published with.
/// A database exists for the registry as long as one of its fragments does.
pub struct SharedActorInfos {
    entries: Vec<RegisteredFragment>,
}

impl View for SharedActorInfos {
    type V = Seq<RegistryEntry>;

    closed spec fn view(&self) -> Seq<RegistryEntry> {
        registry_entries(self.entries@)
    }
}

/// The fragments that the registry holds for one database.
pub open spec fn database_fragments(r: Seq<RegistryEntry>, db: DatabaseId) -> Map<FragmentId, FragmentView> {
    Map::new(|f: FragmentId| has_key(r, (db, f)), |f: FragmentId| crate::keyed::value_of(r, (db, f)))
}

/// Entries of one database.
pub open spec fn in_database(db: DatabaseId) -> spec_fn(RegistryEntry) -> bool {
    |e: RegistryEntry| e.0.0 == db
}

/// Entries of the databases that `ids` does not list.
pub open spec fn outside_databases(ids: Seq<DatabaseId>) -> spec_fn(RegistryEntry) -> bool {
    |e: RegistryEntry| !ids.contains(e.0.0)
}

/// Entries of one database whose fragment `live` does not list.
pub open spec fn stale_in_database(db: DatabaseId, live: Seq<FragmentId>) -> spec_fn(RegistryEntry) -> bool {
    |e: RegistryEntry| e.0.0 == db && !live.contains(e.0.1)
}

pub open spec fn negate(p: spec_fn(RegistryEntry) -> bool) -> spec_fn(RegistryEntry) -> bool {
    |e: RegistryEntry| !p(e)
}

/// Batch of deletions, present when it holds a record.
pub open spec fn delete_batch(records: Seq<MappingView>, r: Option<(Operation, Seq<MappingView>)>) -> bool {
    if records.len() == 0 {
        r is None
    } else {
        r == Some((Operation::Delete, records))
    }
}

pub open spec fn view_of_notification(n: Option<FragmentMappingNotification>) -> Option<(Operation, Seq<MappingView>)> {
    match n {
        Some(n) => Some(n@),
        None => None,
    }
}

impl SharedActorInfos {
    /// (database, fragment) keys are unique, and each fragment is registered under its
    /// own id.
    pub open spec fn wf(&self) -> bool {
        &&& unique_keys(self@)
        &&& forall|i: int| 0 <= i < self@.len() ==> (#[trigger] self@[i]).0.1 == self@[i].1.fragment_id
    }

    pub fn new() -> (r: SharedActorInfos)
        ensures
            r@ == Seq::<RegistryEntry>::empty(),
            r.wf(),
    {
        let r = SharedActorInfos { entries: Vec::new() };
        assert(r@ =~= Seq::<RegistryEntry>::empty());
        r
    }

    /// A copy with the same entries.
    pub fn duplicate(&self) -> (r: SharedActorInfos)
        ensures
            r@ == self@,
    {
        let mut entries: Vec<RegisteredFragment> = Vec::new();
        let mut i: usize = 0;
        while i < self.entries.len()
            invariant
                i <= self.entries.len(),
                registry_entries(entries@) == self@.take(i as int),
            decreases self.entries.len() - i,
        {
            let ghost before = entries@;
            let e = &self.entries[i];
            let c = RegisteredFragment {
                database_id: e.database_id,
                fragment_id: e.fragment_id,
                info: e.info.copy(),
            };
            entries.push(c);
            assert(registry_entries(entries@) =~= registry_entries(before).push(
                ((c.database_id, c.fragment_id), c.info@),
            ));
            i = i + 1;
            assert(registry_entries(entries@) =~= self@.take(i as int));
        }
        assert(self@.take(i as int) =~= self@);
        SharedActorInfos { entries }
    }

    /// Number of fragments held, over all databases.
    pub fn len(&self) -> (r: usize)
        ensures
            r == self@.len(),
    {
        self.entries.len()
    }

    /// The fragment registered under `database_id`, `fragment_id`, if any.
    pub fn get(&self, database_id: DatabaseId, fragment_id: FragmentId) -> (r: Option<&InflightFragmentInfo>)
        requires
            self.wf(),
        ensures
            match r {
                Some(f) => has_key(self@, (database_id, fragment_id)) && f@ == crate::keyed::value_of(
                    self@,
                    (database_id, fragment_id),
                ),
                None => !has_key(self@, (database_id, fragment_id)),
            },
    {
        match self.find(database_id, fragment_id) {
            Some(i) => Some(&self.entries[i].info),
            None => None,
        }
    }

    /// The fragment ids registered under `database_id`, in registry order.
    pub fn fragment_ids(&self, database_id: DatabaseId) -> (r: Vec<FragmentId>)
        ensures
            r@ == self@.filter(in_database(database_id)).map_values(|e: RegistryEntry| e.0.1),
    {
        let ghost pred = in_database(database_id);
        let mut r: Vec<FragmentId> = Vec::new();
        let mut i: usize = 0;
        while i < self.entries.len()
            invariant
                i <= self.entries.len(),
                pred == in_database(database_id),
                r@ == self@.take(i as int).filter(pred).map_values(|e: RegistryEntry| e.0.1),
            decreases self.entries.len() - i,
        {
            let ghost before = r@;
            proof {
                reveal(Seq::filter);
                assert(self@.take(i + 1).drop_last() =~= self@.take(i as int));
                assert(self@.take(i + 1).last() == self@[i as int]);
            }
            if self.entries[i].database_id == database_id {
                r.push(self.entries[i].fragment_id);
            }
            i = i + 1;
            assert(r@ =~= self@.take(i as int).filter(pred).map_values(|e: RegistryEntry| e.0.1));
        }
        assert(self@.take(i as int) =~= self@);
        r
    }

    fn find(&self, database_id: DatabaseId, fragment_id: FragmentId) -> (r: Option<usize>)
        ensures
            match r {
                Some(i) => i < self@.len() && index_of(self@, (database_id, fragment_id)) == i
                    && has_key(self@, (database_id, fragment_id)),
                None => !has_key(self@, (database_id, fragment_id)),
            },
    {
        let ghost s = self@;
        let ghost k = (database_id, fragment_id);
        proof {
            lemma_index_of(s, k);
        }
        let mut i: usize = self.entries.len();
        while i > 0
            invariant
                i <= self.entries.len(),
                s == self@,
                k == (database_id, fragment_id),
                index_of(s, k) < i,
            decreases i,
        {
            i = i - 1;
            if self.entries[i].database_id == database_id && self.entries[i].fragment_id
                == fragment_id {
                proof {
                    lemma_last_index_of(s, k, i as int);
                }
                return Some(i);
            }
            proof {
                lemma_not_at_index(s, k, i as int);
            }
        }
        None
    }

    /// Registers `info` under the database and fragment; says whether the fragment was
    /// registered before (its placement is then overwritten).
    pub(crate) fn upsert(
        &mut self,
        database_id: DatabaseId,
        fragment_id: FragmentId,
        info: InflightFragmentInfo,
    ) -> (existed: bool)
        requires
            old(self).wf(),
            info.fragment_id == fragment_id,
        ensures
            final(self).wf(),
            final(self)@ == upsert(old(self)@, (database_id, fragment_id), info@),
            existed == has_key(old(self)@, (database_id, fragment_id)),
    {
        let ghost fv = info@;
        proof {
            crate::keyed::lemma_upsert(old(self)@, (database_id, fragment_id), fv);
        }
        match self.find(database_id, fragment_id) {
            Some(i) => {
                self.entries.set(i, RegisteredFragment { database_id, fragment_id, info });
                assert(self@ =~= upsert(old(self)@, (database_id, fragment_id), fv));
                true
            },
            None => {
                self.entries.push(RegisteredFragment { database_id, fragment_id, info });
                assert(self@ =~= upsert(old(self)@, (database_id, fragment_id), fv));
                false
            },
        }
    }

    /// Drops the registration of the fragment, if any.
    pub(crate) fn remove(&mut self, database_id: DatabaseId, fragment_id: FragmentId)
        requires
            old(self).wf(),
        ensures
            final(self).wf(),
            final(self)@ == remove_key(old(self)@, (database_id, fragment_id)),
    {
        proof {
            crate::keyed::lemma_remove_key(old(self)@, (database_id, fragment_id));
        }
        match self.find(database_id, fragment_id) {
            Some(i) => {
                let ghost s = self@;
                self.entries.remove(i);
                assert(self@ =~= remove_key(old(self)@, (database_id, fragment_id)));
                assert forall|k: int| 0 <= k < self@.len() implies (#[trigger] self@[k]).0.1
                    == self@[k].1.fragment_id by {
                    if k < i {
                        assert(self@[k] == s[k]);
                    } else {
                        assert(self@[k] == s[k + 1]);
                    }
                }
            },
            None => {},
        }
    }

    /// Removes every entry for which `doomed` holds, keeping the others in order,
    /// and returns the records of the removed ones.
    fn extract_if(&mut self, doomed: &Vec<bool>, Ghost(pred): Ghost<spec_fn(RegistryEntry) -> bool>) -> (r: Vec<FragmentMapping>)
        requires
            old(self).wf(),
            doomed@.len() == old(self)@.len(),
            forall|i: int| 0 <= i < doomed@.len() ==> doomed@[i] == pred(#[trigger] old(self)@[i]),
        ensures
            final(self).wf(),
            final(self)@ == old(self)@.filter(negate(pred)),
            mapping_views(r@) == deleted_mappings(old(self)@.filter(pred)),
    {
        let ghost s = self@;
        let ghost keep = negate(pred);
        let mut kept: Vec<RegisteredFragment> = Vec::new();
        let mut removed: Vec<FragmentMapping> = Vec::new();
        let mut i: usize = 0;
        while i < self.entries.len()
            invariant
                i <= self.entries.len(),
                s == self@,
                unique_keys(s),
                doomed@.len() == s.len(),
                forall|j: int| 0 <= j < doomed@.len() ==> doomed@[j] == pred(#[trigger] s[j]),
                keep == negate(pred),
                registry_entries(kept@) == s.take(i as int).filter(keep),
                mapping_views(removed@) == deleted_mappings(s.take(i as int).filter(pred)),
                unique_keys(registry_entries(kept@)),
                forall|k: int|
                    0 <= k < kept@.len() ==> exists|m: int|
                        0 <= m < i && #[trigger] registry_entries(kept@)[k] == s[m],
            decreases self.entries.len() - i,
        {
            proof {
                reveal(Seq::filter);
                assert(s.take(i + 1).drop_last() =~= s.take(i as int));
                assert(s.take(i + 1).last() == s[i as int]);
            }
            if doomed[i] {
                let ghost before = removed@;
                let m = rebuild_fragment_mapping(&self.entries[i].info);
                removed.push(m);
                assert(s.take(i + 1).filter(pred) == s.take(i as int).filter(pred).push(s[i as int]));
                assert(mapping_views(removed@) =~= mapping_views(before).push(m@));
                assert(s.take(i + 1).filter(keep) == s.take(i as int).filter(keep));
                assert(mapping_views(removed@) =~= deleted_mappings(s.take(i + 1).filter(pred)));
            } else {
                let ghost before = registry_entries(kept@);
                let e = RegisteredFragment {
                    database_id: self.entries[i].database_id,
                    fragment_id: self.entries[i].fragment_id,
                    info: self.entries[i].info.copy(),
                };
                kept.push(e);
                assert(s.take(i + 1).filter(pred) == s.take(i as int).filter(pred));
                assert(s.take(i + 1).filter(keep) == s.take(i as int).filter(keep).push(s[i as int]));
                assert(registry_entries(kept@) =~= before.push(s[i as int]));
                assert(registry_entries(kept@) =~= s.take(i + 1).filter(keep));
                assert forall|a: int, b: int|
                    0 <= a < kept@.len() && 0 <= b < kept@.len() && a != b
                    implies registry_entries(kept@)[a].0 != registry_entries(kept@)[b].0 by {
                    if a == kept@.len() - 1 {
                        let m = choose|m: int| 0 <= m < i && #[trigger] registry_entries(kept@)[b] == s[m];
                    } else if b == kept@.len() - 1 {
                        let m = choose|m: int| 0 <= m < i && #[trigger] registry_entries(kept@)[a] == s[m];
                    }
                }
            }
            i = i + 1;
            assert(s.take(i as int).filter(keep) == registry_entries(kept@));
        }
        proof {
            assert(s.take(i as int) =~= s);
        }
        self.entries = kept;
        removed
    }

    /// Detaches one database: every fragment registered under `database_id` goes, and
    /// one batch of deletions covering them is returned when there was any.
    pub fn remove_database(&mut self, database_id: DatabaseId) -> (r: Option<FragmentMappingNotification>)
        requires
            old(self).wf(),
        ensures
            final(self).wf(),
            final(self)@ == old(self)@.filter(negate(in_database(database_id))),
            delete_batch(
                deleted_mappings(old(self)@.filter(in_database(database_id))),
                view_of_notification(r),
            ),
    {
        let ghost pred = in_database(database_id);
        let mut doomed: Vec<bool> = Vec::new();
        let mut i: usize = 0;
        while i < self.entries.len()
            invariant
                i <= self.entries.len(),
                doomed@.len() == i,
                forall|j: int| 0 <= j < i ==> doomed@[j] == pred(#[trigger] self@[j]),
                pred == in_database(database_id),
            decreases self.entries.len() - i,
        {
            doomed.push(self.entries[i].database_id == database_id);
            i = i + 1;
        }
        let removed = self.extract_if(&doomed, Ghost(pred));
        Self::batch(removed)
    }

    /// Drops every database whose id is not in `database_ids`; one batch of deletions
    /// covers the fragments of all of them.
    pub fn retain_databases(&mut self, database_ids: &Vec<DatabaseId>) -> (r: Option<FragmentMappingNotification>)
        requires
            old(self).wf(),
        ensures
            final(self).wf(),
            final(self)@ == old(self)@.filter(negate(outside_databases(database_ids@))),
            delete_batch(
                deleted_mappings(old(self)@.filter(outside_databases(database_ids@))),
                view_of_notification(r),
            ),
    {
        let ghost pred = outside_databases(database_ids@);
        let mut doomed: Vec<bool> = Vec::new();
        let mut i: usize = 0;
        while i < self.entries.len()
            invariant
                i <= self.entries.len(),
                doomed@.len() == i,
                forall|j: int| 0 <= j < i ==> doomed@[j] == pred(#[trigger] self@[j]),
                pred == outside_databases(database_ids@),
            decreases self.entries.len() - i,
        {
            let db = self.entries[i].database_id;
            let mut found = false;
            let mut k: usize = 0;
            while k < database_ids.len()
                invariant
                    k <= database_ids.len(),
                    found <==> exists|m: int| 0 <= m < k && database_ids@[m] == db,
                decreases database_ids.len() - k,
            {
                if database_ids[k] == db {
                    found = true;
                }
                k = k + 1;
            }
            doomed.push(!found);
            i = i + 1;
        }
        let removed = self.extract_if(&doomed, Ghost(pred));
        Self::batch(removed)
    }

    /// Removes the fragments of `database_id` that `live` does not list.
    pub(crate) fn retain_fragments(
        &mut self,
        database_id: DatabaseId,
        live: &Vec<FragmentId>,
    ) -> (r: Option<FragmentMappingNotification>)
        requires
            old(self).wf(),
        ensures
            final(self).wf(),
            final(self)@ == old(self)@.filter(negate(stale_in_database(database_id, live@))),
            delete_batch(
                deleted_mappings(old(self)@.filter(stale_in_database(database_id, live@))),
                view_of_notification(r),
            ),
    {
        let ghost pred = stale_in_database(database_id, live@);
        let mut doomed: Vec<bool> = Vec::new();
        let mut i: usize = 0;
        while i < self.entries.len()
            invariant
                i <= self.entries.len(),
                doomed@.len() == i,
                forall|j: int| 0 <= j < i ==> doomed@[j] == pred(#[trigger] self@[j]),
                pred == stale_in_database(database_id, live@),
            decreases self.entries.len() - i,
        {
            let f = self.entries[i].fragment_id;
            let mut found = false;
            let mut k: usize = 0;
            while k < live.len()
                invariant
                    k <= live.len(),
                    found <==> exists|m: int| 0 <= m < k && live@[m] == f,
                decreases live.len() - k,
            {
                if live[k] == f {
                    found = true;
                }
                k = k + 1;
            }
            doomed.push(self.entries[i].database_id == database_id && !found);
            i = i + 1;
        }
        let removed = self.extract_if(&doomed, Ghost(pred));
        Self::batch(removed)
    }

    fn batch(removed: Vec<FragmentMapping>) -> (r: Option<FragmentMappingNotification>)
        ensures
            delete_batch(mapping_views(removed@), view_of_notification(r)),
    {
        if removed.len() == 0 {
            None
        } else {
            Some(FragmentMappingNotification { operation: Operation::Delete, mappings: removed })
        }
    }
}

} // verus!
