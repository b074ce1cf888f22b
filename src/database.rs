//! The topology of one database: its jobs, their fragments and actors, kept in
//! step with the barrier protocol and mirrored into the shared registry.
use vstd::prelude::*;

use crate::change::{
    add_actors, apply_bitmaps, batch_of, bitmap_updates, change_views, changes_wf, count_in,
    job_changes, post_batches, post_fold, post_step, pre_batches, pre_fold, pre_step,
    remove_actors, rewrite_consistent, rewrite_upstreams, start_state, with_actors,
    ApplyState, ChangeView, CommandFragmentChanges, LocatedView,
};
use crate::fragment::{
    actor_entries, rebuild_fragment_mapping, views_of, ActorId, DatabaseId, FragmentId,
    FragmentMapping, FragmentView, InflightFragmentInfo, TableId, WorkerId,
};
use crate::keyed::{
    remove_key, has_key, index_of, keys_of, lemma_index_of, lemma_remove_key, lemma_upsert,
    unique_keys, upsert, value_of,
};
use crate::fragment::{lemma_last_index_of, lemma_not_at_index};
use crate::registry::{
    mapping_views, negate, stale_in_database, deleted_mappings, FragmentMappingNotification,
    MappingView, Operation, RegistryEntry, SharedActorInfos, view_of_notification,
};

verus! {

/// A job and its fragments.
#[derive(Clone, Debug)]
pub struct InflightStreamingJobInfo {
    pub job_id: TableId,
    pub fragment_infos: Vec<InflightFragmentInfo>,
}

impl InflightStreamingJobInfo {
    pub open spec fn wf(&self) -> bool {
        forall|i: int| 0 <= i < self.fragment_infos@.len() ==> #[trigger] self.fragment_infos@[i].wf()
    }

    /// Copies of the job's fragments.
    pub fn fragment_infos(&self) -> (r: Vec<InflightFragmentInfo>)
        ensures
            views_of(r@) == views_of(self.fragment_infos@),
    {
        copy_infos(&self.fragment_infos)
    }

    /// The distinct state tables of the job's fragments.
    pub fn existing_table_ids(&self) -> (r: Vec<TableId>)
        ensures
            r@.no_duplicates(),
            r@.to_set() == crate::fragment::table_id_set(views_of(self.fragment_infos@)),
    {
        InflightFragmentInfo::existing_table_ids(&self.fragment_infos)
    }
}

fn copy_infos(infos: &Vec<InflightFragmentInfo>) -> (r: Vec<InflightFragmentInfo>)
    ensures
        views_of(r@) == views_of(infos@),
{
    let mut r: Vec<InflightFragmentInfo> = Vec::new();
    let mut i: usize = 0;
    while i < infos.len()
        invariant
            i <= infos.len(),
            views_of(r@) == views_of(infos@).take(i as int),
        decreases infos.len() - i,
    {
        let ghost before = r@;
        let f = infos[i].copy();
        r.push(f);
        assert(views_of(r@) =~= views_of(before).push(f@));
        i = i + 1;
        assert(views_of(r@) =~= views_of(infos@).take(i as int));
    }
    assert(views_of(infos@).take(i as int) =~= views_of(infos@));
    r
}

/// A fragment of the database with the job that owns it.
#[derive(Clone, Debug)]
pub struct LocatedFragment {
    pub fragment_id: FragmentId,
    pub job_id: TableId,
    pub info: InflightFragmentInfo,
}

pub open spec fn located_views(s: Seq<LocatedFragment>) -> Seq<LocatedView> {
    s.map_values(|e: LocatedFragment| (e.fragment_id, (e.job_id, e.info@)))
}

/// Fragment ids are unique, each fragment is keyed by its own id, and actor ids are
/// unique within each fragment.
pub open spec fn topology_wf(t: Seq<LocatedView>) -> bool {
    &&& unique_keys(t)
    &&& forall|i: int|
        0 <= i < t.len() ==> unique_keys(#[trigger] t[i].1.1.actors) && t[i].0 == t[i].1.1.fragment_id
}

/// The job that owns each fragment.
pub open spec fn fragment_location(t: Seq<LocatedView>) -> Map<FragmentId, TableId> {
    Map::new(|f: FragmentId| has_key(t, f), |f: FragmentId| value_of(t, f).0)
}

/// The jobs that own a fragment.
pub open spec fn jobs_of(t: Seq<LocatedView>) -> Set<TableId> {
    Set::new(|j: TableId| exists|f: FragmentId| has_key(t, f) && value_of(t, f).0 == j)
}

/// The fragments of one job.
pub open spec fn job_fragments(t: Seq<LocatedView>, job: TableId) -> Map<FragmentId, FragmentView> {
    Map::new(
        |f: FragmentId| has_key(t, f) && value_of(t, f).0 == job,
        |f: FragmentId| value_of(t, f).1,
    )
}

pub open spec fn notification_views(s: Seq<FragmentMappingNotification>) -> Seq<(Operation, Seq<MappingView>)> {
    s.map_values(|n: FragmentMappingNotification| n@)
}

/// Outcome of the phase before the barrier.
#[derive(Clone, Debug)]
pub struct ApplyReport {
    /// Placement diffs to publish, in order.
    pub notifications: Vec<FragmentMappingNotification>,
    /// Fragments whose upstream rewrite did not match the rewrite map one for one;
    /// reported rather than refused when the database is not strict.
    pub inconsistent_rewrites: Vec<FragmentId>,
}

/// The first change that the tracked topology contradicts: a duplicate fragment or
/// actor, or a missing one, or (when strict) an upstream rewrite that does not match.
/// The `check_` functions run the operations on copies and look for it.
#[derive(Clone, Copy, Debug, PartialEq, Eq, Structural)]
pub struct TopologyError {
    pub fragment_id: FragmentId,
}

/// What has been gathered for publication during one phase.
struct Pending {
    added: Vec<FragmentMapping>,
    updated: Vec<FragmentMapping>,
    deleted: Vec<FragmentMapping>,
    inconsistent: Vec<FragmentId>,
}

impl Pending {
    fn new() -> (r: Pending)
        ensures
            mapping_views(r.added@) == Seq::<MappingView>::empty(),
            mapping_views(r.updated@) == Seq::<MappingView>::empty(),
            mapping_views(r.deleted@) == Seq::<MappingView>::empty(),
            r.inconsistent@ == Seq::<FragmentId>::empty(),
    {
        let r = Pending {
            added: Vec::new(),
            updated: Vec::new(),
            deleted: Vec::new(),
            inconsistent: Vec::new(),
        };
        assert(mapping_views(r.added@) =~= Seq::<MappingView>::empty());
        assert(mapping_views(r.updated@) =~= Seq::<MappingView>::empty());
        assert(mapping_views(r.deleted@) =~= Seq::<MappingView>::empty());
        r
    }
}

spec fn state_of(t: Seq<LocatedView>, reg: Seq<RegistryEntry>, p: Pending) -> ApplyState {
    ApplyState {
        fragments: t,
        registry: reg,
        added: mapping_views(p.added@),
        updated: mapping_views(p.updated@),
        deleted: mapping_views(p.deleted@),
        inconsistent: p.inconsistent@,
    }
}

/// The outcome of the phase before the barrier on a database and the registry.
pub open spec fn pre_apply_spec(
    db: DatabaseId,
    strict: bool,
    t: Seq<LocatedView>,
    reg: Seq<RegistryEntry>,
    cs: Seq<(FragmentId, ChangeView)>,
) -> Option<ApplyState> {
    pre_fold(db, strict, start_state(t, reg), cs)
}

/// The outcome of the phase after the barrier on a database and the registry.
pub open spec fn post_apply_spec(
    db: DatabaseId,
    t: Seq<LocatedView>,
    reg: Seq<RegistryEntry>,
    cs: Seq<(FragmentId, ChangeView)>,
) -> Option<ApplyState> {
    post_fold(db, start_state(t, reg), cs)
}

pub type JobView = (TableId, Seq<FragmentView>);

pub open spec fn job_views(jobs: Seq<InflightStreamingJobInfo>) -> Seq<JobView> {
    jobs.map_values(|j: InflightStreamingJobInfo| (j.job_id, views_of(j.fragment_infos@)))
}

/// Adds whole jobs one after the other; each job publishes its own batches.
pub open spec fn extend_fold(
    db: DatabaseId,
    strict: bool,
    t: Seq<LocatedView>,
    reg: Seq<RegistryEntry>,
    jobs: Seq<JobView>,
) -> Option<(ApplyState, Seq<(Operation, Seq<MappingView>)>)>
    decreases jobs.len(),
{
    if jobs.len() == 0 {
        Some((start_state(t, reg), Seq::empty()))
    } else {
        match extend_fold(db, strict, t, reg, jobs.drop_last()) {
            None => None,
            Some((s1, ns)) => match pre_fold(
                db,
                strict,
                start_state(s1.fragments, s1.registry),
                job_changes(jobs.last().0, jobs.last().1),
            ) {
                None => None,
                Some(s2) => Some((s2, ns + pre_batches(s2))),
            },
        }
    }
}

/// Rebuilding a database from its jobs: the topology, the registry, and what is
/// published, ending with the deletion of what the registry held for the database
/// beyond the rebuilt fragments.
pub open spec fn recover_spec(
    db: DatabaseId,
    strict: bool,
    reg: Seq<RegistryEntry>,
    jobs: Seq<JobView>,
) -> Option<(Seq<LocatedView>, Seq<RegistryEntry>, Seq<(Operation, Seq<MappingView>)>)> {
    match extend_fold(db, strict, Seq::empty(), reg, jobs) {
        None => None,
        Some((s, ns)) => {
            let stale = stale_in_database(db, keys_of(s.fragments));
            Some(
                (
                    s.fragments,
                    s.registry.filter(negate(stale)),
                    ns + batch_of(Operation::Delete, deleted_mappings(s.registry.filter(stale))),
                ),
            )
        },
    }
}

/// The per-database topology.
pub struct InflightDatabaseInfo {
    database_id: DatabaseId,
    fragments: Vec<LocatedFragment>,
    fail_on_inconsistency: bool,
}

impl InflightDatabaseInfo {
    /// The fragments with their owning jobs.
    pub closed spec fn topology(&self) -> Seq<LocatedView> {
        located_views(self.fragments@)
    }

    pub closed spec fn spec_database_id(&self) -> DatabaseId {
        self.database_id
    }

    /// Whether an upstream rewrite that does not match is refused (else reported).
    pub closed spec fn strict(&self) -> bool {
        self.fail_on_inconsistency
    }

    pub open spec fn wf(&self) -> bool {
        topology_wf(self.topology())
    }

    pub fn database_id(&self) -> (r: DatabaseId)
        ensures
            r == self.spec_database_id(),
    {
        self.database_id
    }

    fn empty_inner(database_id: DatabaseId, fail_on_inconsistency: bool) -> (r: Self)
        ensures
            r.topology() == Seq::<LocatedView>::empty(),
            r.spec_database_id() == database_id,
            r.strict() == fail_on_inconsistency,
            r.wf(),
    {
        let r = InflightDatabaseInfo { database_id, fragments: Vec::new(), fail_on_inconsistency };
        assert(r.topology() =~= Seq::<LocatedView>::empty());
        r
    }

    /// An empty topology; whatever the registry held for the database is dropped,
    /// with its batch of deletions.
    pub fn empty(
        database_id: DatabaseId,
        shared_actor_infos: &mut SharedActorInfos,
        fail_on_inconsistency: bool,
    ) -> (r: (Self, Option<FragmentMappingNotification>))
        requires
            old(shared_actor_infos).wf(),
        ensures
            r.0.topology() == Seq::<LocatedView>::empty(),
            r.0.spec_database_id() == database_id,
            r.0.strict() == fail_on_inconsistency,
            r.0.wf(),
            final(shared_actor_infos).wf(),
            final(shared_actor_infos)@ == old(shared_actor_infos)@.filter(
                negate(crate::registry::in_database(database_id)),
            ),
            crate::registry::delete_batch(
                deleted_mappings(
                    old(shared_actor_infos)@.filter(crate::registry::in_database(database_id)),
                ),
                view_of_notification(r.1),
            ),
    {
        let n = shared_actor_infos.remove_database(database_id);
        (Self::empty_inner(database_id, fail_on_inconsistency), n)
    }

    /// Whether the database has no job.
    pub fn is_empty(&self) -> (r: bool)
        requires
            self.wf(),
        ensures
            r == (jobs_of(self.topology()) =~= Set::<TableId>::empty()),
    {
        proof {
            if self.topology().len() > 0 {
                let f = self.topology()[0].0;
                crate::keyed::lemma_index_of_unique(self.topology(), 0);
                assert(jobs_of(self.topology()).contains(value_of(self.topology(), f).0));
            }
        }
        self.fragments.len() == 0
    }

    /// Whether the job owns a fragment of the database.
    pub fn contains_job(&self, job_id: TableId) -> (r: bool)
        requires
            self.wf(),
        ensures
            r == jobs_of(self.topology()).contains(job_id),
    {
        let mut i: usize = 0;
        while i < self.fragments.len()
            invariant
                i <= self.fragments.len(),
                self.wf(),
                forall|k: int| 0 <= k < i ==> self.topology()[k].1.0 != job_id,
            decreases self.fragments.len() - i,
        {
            if self.fragments[i].job_id == job_id {
                proof {
                    let f = self.topology()[i as int].0;
                    crate::keyed::lemma_index_of_unique(self.topology(), i as int);
                    assert(jobs_of(self.topology()).contains(value_of(self.topology(), f).0));
                }
                return true;
            }
            i = i + 1;
        }
        proof {
            if jobs_of(self.topology()).contains(job_id) {
                let f = choose|f: FragmentId|
                    has_key(self.topology(), f) && value_of(self.topology(), f).0 == job_id;
                lemma_index_of(self.topology(), f);
            }
        }
        false
    }

    fn find_fragment(&self, fragment_id: FragmentId) -> (r: Option<usize>)
        ensures
            match r {
                Some(i) => i < self.fragments@.len() && index_of(self.topology(), fragment_id) == i
                    && has_key(self.topology(), fragment_id),
                None => !has_key(self.topology(), fragment_id),
            },
    {
        let ghost s = self.topology();
        proof {
            lemma_index_of(s, fragment_id);
        }
        let mut i: usize = self.fragments.len();
        while i > 0
            invariant
                i <= self.fragments.len(),
                s == self.topology(),
                index_of(s, fragment_id) < i,
            decreases i,
        {
            i = i - 1;
            if self.fragments[i].fragment_id == fragment_id {
                proof {
                    lemma_last_index_of(s, fragment_id, i as int);
                }
                return Some(i);
            }
            proof {
                lemma_not_at_index(s, fragment_id, i as int);
            }
        }
        None
    }

    /// The fragment `fragment_id`, which the database must hold.
    pub fn fragment(&self, fragment_id: FragmentId) -> (r: &InflightFragmentInfo)
        requires
            has_key(self.topology(), fragment_id),
        ensures
            r@ == value_of(self.topology(), fragment_id).1,
    {
        let i = self.find_fragment(fragment_id).unwrap();
        &self.fragments[i].info
    }

    /// Whether the database holds the fragment.
    pub fn contains_fragment(&self, fragment_id: FragmentId) -> (r: bool)
        ensures
            r == has_key(self.topology(), fragment_id),
    {
        self.find_fragment(fragment_id).is_some()
    }

    /// Copies of all fragments, in topology order.
    pub fn fragment_infos(&self) -> (r: Vec<InflightFragmentInfo>)
        ensures
            views_of(r@) == self.topology().map_values(|e: LocatedView| e.1.1),
    {
        let mut r: Vec<InflightFragmentInfo> = Vec::new();
        let mut i: usize = 0;
        while i < self.fragments.len()
            invariant
                i <= self.fragments.len(),
                views_of(r@) == self.topology().map_values(|e: LocatedView| e.1.1).take(i as int),
            decreases self.fragments.len() - i,
        {
            let ghost before = r@;
            let f = self.fragments[i].info.copy();
            r.push(f);
            assert(views_of(r@) =~= views_of(before).push(f@));
            i = i + 1;
            assert(views_of(r@) =~= self.topology().map_values(|e: LocatedView| e.1.1).take(
                i as int,
            ));
        }
        assert(self.topology().map_values(|e: LocatedView| e.1.1).take(i as int)
            =~= self.topology().map_values(|e: LocatedView| e.1.1));
        r
    }

    /// Whether some actor of the database runs on the worker.
    pub fn contains_worker(&self, worker_id: WorkerId) -> (r: bool)
        ensures
            r == crate::fragment::fragments_on_worker(
                self.topology().map_values(|e: LocatedView| e.1.1),
                worker_id,
            ),
    {
        let infos = self.fragment_infos();
        InflightFragmentInfo::contains_worker(&infos, worker_id)
    }

    /// The distinct state tables of all fragments of the database.
    pub fn existing_table_ids(&self) -> (r: Vec<TableId>)
        ensures
            r@.no_duplicates(),
            r@.to_set() == crate::fragment::table_id_set(
                self.topology().map_values(|e: LocatedView| e.1.1),
            ),
    {
        let infos = self.fragment_infos();
        InflightFragmentInfo::existing_table_ids(&infos)
    }
}

/// The outcome of one step against the state reached after it.
pub open spec fn stepped(r: Option<ApplyState>, ok: bool, after: ApplyState) -> bool {
    if ok {
        r == Some(after)
    } else {
        r is None
    }
}

pub proof fn lemma_apply_bitmaps_prefix(
    a: Seq<(ActorId, crate::fragment::ActorView)>,
    u: Seq<(ActorId, Seq<bool>)>,
    k: int,
)
    requires
        0 <= k <= u.len(),
        apply_bitmaps(a, u.take(k)) is None,
    ensures
        apply_bitmaps(a, u) is None,
    decreases u.len(),
{
    if k == u.len() {
        assert(u.take(k) =~= u);
    } else {
        assert(u.drop_last().take(k) =~= u.take(k));
        lemma_apply_bitmaps_prefix(a, u.drop_last(), k);
    }
}

pub proof fn lemma_add_actors_prefix(
    a: Seq<(ActorId, crate::fragment::ActorView)>,
    u: Seq<(ActorId, crate::fragment::ActorView)>,
    k: int,
)
    requires
        0 <= k <= u.len(),
        add_actors(a, u.take(k)) is None,
    ensures
        add_actors(a, u) is None,
    decreases u.len(),
{
    if k == u.len() {
        assert(u.take(k) =~= u);
    } else {
        assert(u.drop_last().take(k) =~= u.take(k));
        lemma_add_actors_prefix(a, u.drop_last(), k);
    }
}

pub proof fn lemma_remove_actors_prefix(
    a: Seq<(ActorId, crate::fragment::ActorView)>,
    u: Seq<ActorId>,
    k: int,
)
    requires
        0 <= k <= u.len(),
        remove_actors(a, u.take(k)) is None,
    ensures
        remove_actors(a, u) is None,
    decreases u.len(),
{
    if k == u.len() {
        assert(u.take(k) =~= u);
    } else {
        assert(u.drop_last().take(k) =~= u.take(k));
        lemma_remove_actors_prefix(a, u.drop_last(), k);
    }
}

pub proof fn lemma_pre_fold_prefix(
    db: DatabaseId,
    strict: bool,
    s: ApplyState,
    u: Seq<(FragmentId, ChangeView)>,
    k: int,
)
    requires
        0 <= k <= u.len(),
        pre_fold(db, strict, s, u.take(k)) is None,
    ensures
        pre_fold(db, strict, s, u) is None,
    decreases u.len(),
{
    if k == u.len() {
        assert(u.take(k) =~= u);
    } else {
        assert(u.drop_last().take(k) =~= u.take(k));
        lemma_pre_fold_prefix(db, strict, s, u.drop_last(), k);
    }
}

pub proof fn lemma_post_fold_prefix(db: DatabaseId, s: ApplyState, u: Seq<(FragmentId, ChangeView)>, k: int)
    requires
        0 <= k <= u.len(),
        post_fold(db, s, u.take(k)) is None,
    ensures
        post_fold(db, s, u) is None,
    decreases u.len(),
{
    if k == u.len() {
        assert(u.take(k) =~= u);
    } else {
        assert(u.drop_last().take(k) =~= u.take(k));
        lemma_post_fold_prefix(db, s, u.drop_last(), k);
    }
}

fn find_key(s: &Vec<(FragmentId, FragmentId)>, k: FragmentId) -> (r: Option<usize>)
    ensures
        match r {
            Some(i) => i < s@.len() && index_of(s@, k) == i && has_key(s@, k),
            None => !has_key(s@, k),
        },
{
    proof {
        lemma_index_of(s@, k);
    }
    let mut i: usize = s.len();
    while i > 0
        invariant
            i <= s.len(),
            index_of(s@, k) < i,
        decreases i,
    {
        i = i - 1;
        if s[i].0 == k {
            proof {
                lemma_last_index_of(s@, k, i as int);
            }
            return Some(i);
        }
        proof {
            lemma_not_at_index(s@, k, i as int);
        }
    }
    None
}

fn two_batches(
    first_op: Operation,
    first: Vec<FragmentMapping>,
    second_op: Operation,
    second: Vec<FragmentMapping>,
) -> (r: Vec<FragmentMappingNotification>)
    ensures
        notification_views(r@) == batch_of(first_op, mapping_views(first@)) + batch_of(
            second_op,
            mapping_views(second@),
        ),
{
    let ghost a = batch_of(first_op, mapping_views(first@));
    let ghost b = batch_of(second_op, mapping_views(second@));
    let mut r: Vec<FragmentMappingNotification> = Vec::new();
    if first.len() > 0 {
        r.push(FragmentMappingNotification { operation: first_op, mappings: first });
    }
    assert(notification_views(r@) =~= a);
    let ghost mid = r@;
    if second.len() > 0 {
        r.push(FragmentMappingNotification { operation: second_op, mappings: second });
        assert(notification_views(r@) =~= notification_views(mid).push(
            (second_op, mapping_views(second@)),
        ));
    }
    assert(notification_views(r@) =~= a + b);
    r
}

impl InflightDatabaseInfo {
    /// The fragment ids, in topology order.
    pub fn fragment_ids(&self) -> (r: Vec<FragmentId>)
        ensures
            r@ == keys_of(self.topology()),
    {
        let mut r: Vec<FragmentId> = Vec::new();
        let mut i: usize = 0;
        while i < self.fragments.len()
            invariant
                i <= self.fragments.len(),
                r@ == keys_of(self.topology()).take(i as int),
            decreases self.fragments.len() - i,
        {
            r.push(self.fragments[i].fragment_id);
            i = i + 1;
            assert(r@ =~= keys_of(self.topology()).take(i as int));
        }
        assert(keys_of(self.topology()).take(i as int) =~= keys_of(self.topology()));
        r
    }

    proof fn lemma_set_keeps_wf(&self, t: Seq<LocatedView>, i: int, fid: FragmentId, v: (TableId, FragmentView))
        requires
            topology_wf(t),
            0 <= i < t.len(),
            index_of(t, fid) == i,
            has_key(t, fid),
            unique_keys(v.1.actors),
            v.1.fragment_id == fid,
            self.topology() == t.update(i, (fid, v)),
        ensures
            self.wf(),
            self.topology() == upsert(t, fid, v),
    {
        lemma_upsert(t, fid, v);
        let n = self.topology();
        assert forall|k: int| 0 <= k < n.len() implies unique_keys(#[trigger] n[k].1.1.actors)
            && n[k].0 == n[k].1.1.fragment_id by {
            if k != i {
                assert(n[k] == t[k]);
            }
        }
    }

    /// A new fragment of a job, in the phase before the barrier.
    fn apply_new_fragment(
        &mut self,
        shared: &mut SharedActorInfos,
        pending: &mut Pending,
        fragment_id: FragmentId,
        job_id: TableId,
        info: &InflightFragmentInfo,
    ) -> (ok: bool)
        requires
            old(self).wf(),
            old(shared).wf(),
            info.wf(),
            info.fragment_id == fragment_id,
        ensures
            final(self).spec_database_id() == old(self).spec_database_id(),
            final(self).strict() == old(self).strict(),
            final(self).wf(),
            final(shared).wf(),
            stepped(
                pre_step(
                    old(self).spec_database_id(),
                    old(self).strict(),
                    state_of(old(self).topology(), old(shared)@, *old(pending)),
                    fragment_id,
                    ChangeView::NewFragment(job_id, info@),
                ),
                ok,
                state_of(final(self).topology(), final(shared)@, *final(pending)),
            ),
    {
        if self.find_fragment(fragment_id).is_some() {
            return false;
        }
        let ghost t0 = self.topology();
        let ghost r0 = shared@;
        let ghost a0 = mapping_views(pending.added@);
        let ghost u0 = mapping_views(pending.updated@);
        let existed = shared.upsert(self.database_id, fragment_id, info.copy());
        let m = rebuild_fragment_mapping(info);
        if existed {
            pending.updated.push(m);
            assert(mapping_views(pending.updated@) =~= u0.push(m@));
        } else {
            pending.added.push(m);
            assert(mapping_views(pending.added@) =~= a0.push(m@));
        }
        self.fragments.push(LocatedFragment { fragment_id, job_id, info: info.copy() });
        proof {
            lemma_upsert(r0, (self.database_id, fragment_id), info@);
            lemma_upsert(t0, fragment_id, (job_id, info@));
            let t = self.topology();
            assert(t =~= t0.push((fragment_id, (job_id, info@))));
            assert forall|k: int| 0 <= k < t.len() implies unique_keys(#[trigger] t[k].1.1.actors)
                && t[k].0 == t[k].1.1.fragment_id by {
                if k < t0.len() {
                    assert(t[k] == t0[k]);
                }
            }
        }
        true
    }

    /// A reschedule, in the phase before the barrier: bitmaps of existing actors
    /// first, then the new actors.
    fn apply_reschedule(
        &mut self,
        fragment_id: FragmentId,
        new_actors: &Vec<crate::fragment::InflightActorInfo>,
        updates: &Vec<(ActorId, crate::fragment::Bitmap)>,
        Ghost(s): Ghost<ApplyState>,
    ) -> (ok: bool)
        requires
            old(self).wf(),
            s.fragments == old(self).topology(),
        ensures
            final(self).spec_database_id() == old(self).spec_database_id(),
            final(self).strict() == old(self).strict(),
            final(self).wf(),
            stepped(
                pre_step(
                    old(self).spec_database_id(),
                    old(self).strict(),
                    s,
                    fragment_id,
                    ChangeView::Reschedule {
                        new_actors: actor_entries(new_actors@),
                        vnode_updates: bitmap_updates(updates@),
                        to_remove: Seq::empty(),
                    },
                ),
                ok,
                ApplyState { fragments: final(self).topology(), ..s },
            ),
    {
        let i = match self.find_fragment(fragment_id) {
            None => return false,
            Some(i) => i,
        };
        let ghost t = self.topology();
        let job_id = self.fragments[i].job_id;
        let mut f = self.fragments[i].info.copy();
        let ghost f0 = f@;
        assert(t[i as int].1.1 == f0);
        let ghost ups = bitmap_updates(updates@);
        let ghost news = actor_entries(new_actors@);
        let mut j: usize = 0;
        while j < updates.len()
            invariant
                j <= updates.len(),
                self.wf(),
                self.topology() == t,
                s.fragments == t,
                index_of(t, fragment_id) == i,
                has_key(t, fragment_id),
                t[i as int].1.1 == f0,
                ups == bitmap_updates(updates@),
                f.wf(),
                apply_bitmaps(f0.actors, ups.take(j as int)) == Some(f@.actors),
                f@ == with_actors(f0, f@.actors),
            decreases updates.len() - j,
        {
            proof {
                assert(ups.take(j + 1).drop_last() =~= ups.take(j as int));
                assert(ups.take(j + 1).last() == ups[j as int]);
            }
            let ok = f.set_vnode_bitmap(updates[j].0, updates[j].1.copy());
            if !ok {
                proof {
                    lemma_apply_bitmaps_prefix(f0.actors, ups, j + 1);
                }
                return false;
            }
            j = j + 1;
        }
        assert(ups.take(j as int) =~= ups);
        let ghost a1 = f@.actors;
        let mut j: usize = 0;
        while j < new_actors.len()
            invariant
                j <= new_actors.len(),
                self.wf(),
                self.topology() == t,
                s.fragments == t,
                index_of(t, fragment_id) == i,
                has_key(t, fragment_id),
                t[i as int].1.1 == f0,
                apply_bitmaps(f0.actors, ups) == Some(a1),
                ups == bitmap_updates(updates@),
                news == actor_entries(new_actors@),
                f.wf(),
                add_actors(a1, news.take(j as int)) == Some(f@.actors),
                f@ == with_actors(f0, f@.actors),
            decreases new_actors.len() - j,
        {
            proof {
                assert(news.take(j + 1).drop_last() =~= news.take(j as int));
                assert(news.take(j + 1).last() == news[j as int]);
            }
            let ok = f.add_actor(new_actors[j].copy());
            if !ok {
                proof {
                    lemma_add_actors_prefix(a1, news, j + 1);
                    assert(value_of(t, fragment_id).1 == f0);
                }
                return false;
            }
            j = j + 1;
        }
        assert(news.take(j as int) =~= news);
        let ghost v = (job_id, f@);
        self.fragments.set(i, LocatedFragment { fragment_id, job_id, info: f });
        proof {
            assert(self.topology() =~= t.update(i as int, (fragment_id, v)));
            lemma_index_of(t, fragment_id);
            self.lemma_set_keeps_wf(t, i as int, fragment_id, v);
        }
        true
    }

    /// An upstream rewrite, in the phase before the barrier. `None` when it is
    /// refused; else whether it matched the rewrite map one for one.
    fn apply_replace_upstream(
        &mut self,
        fragment_id: FragmentId,
        rep: &Vec<(FragmentId, FragmentId)>,
        Ghost(s): Ghost<ApplyState>,
    ) -> (r: Option<bool>)
        requires
            old(self).wf(),
            s.fragments == old(self).topology(),
        ensures
            final(self).spec_database_id() == old(self).spec_database_id(),
            final(self).strict() == old(self).strict(),
            final(self).wf(),
            stepped(
                pre_step(
                    old(self).spec_database_id(),
                    old(self).strict(),
                    s,
                    fragment_id,
                    ChangeView::ReplaceNodeUpstream(rep@),
                ),
                r is Some,
                ApplyState {
                    fragments: final(self).topology(),
                    inconsistent: if r == Some(true) {
                        s.inconsistent
                    } else {
                        s.inconsistent.push(fragment_id)
                    },
                    ..s
                },
            ),
    {
        let i = match self.find_fragment(fragment_id) {
            None => return None,
            Some(i) => i,
        };
        let ghost t = self.topology();
        let job_id = self.fragments[i].job_id;
        let mut f = self.fragments[i].info.copy();
        let ghost f0 = f@;
        assert(t[i as int].1.1 == f0);
        let mut new_ups: Vec<FragmentId> = Vec::new();
        let mut consistent = true;
        {
            let ups = &f.upstream_fragment_ids;
            let mut k: usize = 0;
            while k < ups.len()
                invariant
                    k <= ups.len(),
                    ups@ == f0.upstream_fragment_ids,
                    new_ups@ == rewrite_upstreams(rep@, ups@).take(k as int),
                decreases ups.len() - k,
            {
                let u = ups[k];
                let v = match find_key(rep, u) {
                    Some(p) => rep[p].1,
                    None => u,
                };
                new_ups.push(v);
                k = k + 1;
                assert(new_ups@ =~= rewrite_upstreams(rep@, ups@).take(k as int));
            }
            assert(rewrite_upstreams(rep@, ups@).take(k as int) =~= rewrite_upstreams(rep@, ups@));
            let mut j: usize = 0;
            while j < rep.len()
                invariant
                    j <= rep.len(),
                    ups@ == f0.upstream_fragment_ids,
                    consistent <==> forall|jj: int|
                        0 <= jj < j ==> count_in(ups@, #[trigger] rep@[jj].0) == 1,
                decreases rep.len() - j,
            {
                let key = rep[j].0;
                let mut c: usize = 0;
                let mut k: usize = 0;
                while k < ups.len()
                    invariant
                        k <= ups.len(),
                        c <= k,
                        c == count_in(ups@.take(k as int), key),
                    decreases ups.len() - k,
                {
                    proof {
                        assert(ups@.take(k + 1).drop_last() =~= ups@.take(k as int));
                    }
                    if ups[k] == key {
                        c = c + 1;
                    }
                    k = k + 1;
                }
                assert(ups@.take(k as int) =~= ups@);
                if c != 1 {
                    consistent = false;
                }
                j = j + 1;
            }
        }
        assert(consistent == rewrite_consistent(rep@, f0.upstream_fragment_ids));
        if !consistent && self.fail_on_inconsistency {
            return None;
        }
        f.upstream_fragment_ids = new_ups;
        let ghost v = (job_id, f@);
        self.fragments.set(i, LocatedFragment { fragment_id, job_id, info: f });
        proof {
            assert(self.topology() =~= t.update(i as int, (fragment_id, v)));
            lemma_index_of(t, fragment_id);
            self.lemma_set_keeps_wf(t, i as int, fragment_id, v);
        }
        Some(consistent)
    }

    /// A reschedule, in the phase after the barrier: the removed actors go and the
    /// fragment's new placement is registered.
    fn post_reschedule(
        &mut self,
        shared: &mut SharedActorInfos,
        pending: &mut Pending,
        fragment_id: FragmentId,
        to_remove: &Vec<ActorId>,
    ) -> (ok: bool)
        requires
            old(self).wf(),
            old(shared).wf(),
        ensures
            final(self).spec_database_id() == old(self).spec_database_id(),
            final(self).strict() == old(self).strict(),
            final(self).wf(),
            final(shared).wf(),
            forall|a: Seq<(ActorId, crate::fragment::ActorView)>, b: Seq<(ActorId, Seq<bool>)>|
                stepped(
                    post_step(
                        old(self).spec_database_id(),
                        state_of(old(self).topology(), old(shared)@, *old(pending)),
                        fragment_id,
                        ChangeView::Reschedule { new_actors: a, vnode_updates: b, to_remove: to_remove@ },
                    ),
                    ok,
                    state_of(final(self).topology(), final(shared)@, *final(pending)),
                ),
    {
        let i = match self.find_fragment(fragment_id) {
            None => return false,
            Some(i) => i,
        };
        let ghost t = self.topology();
        let ghost r0 = shared@;
        let ghost u0 = mapping_views(pending.updated@);
        let job_id = self.fragments[i].job_id;
        let mut f = self.fragments[i].info.copy();
        let ghost f0 = f@;
        assert(t[i as int].1.1 == f0);
        let mut j: usize = 0;
        while j < to_remove.len()
            invariant
                j <= to_remove.len(),
                self.wf(),
                self.topology() == t,
                index_of(t, fragment_id) == i,
                has_key(t, fragment_id),
                t[i as int].1.1 == f0,
                shared.wf(),
                shared@ == r0,
                r0 == old(shared)@,
                f.wf(),
                remove_actors(f0.actors, to_remove@.take(j as int)) == Some(f@.actors),
                f@ == with_actors(f0, f@.actors),
            decreases to_remove.len() - j,
        {
            proof {
                assert(to_remove@.take(j + 1).drop_last() =~= to_remove@.take(j as int));
            }
            let ok = f.remove_actor(to_remove[j]);
            if !ok {
                proof {
                    lemma_remove_actors_prefix(f0.actors, to_remove@, j + 1);
                }
                return false;
            }
            j = j + 1;
        }
        assert(to_remove@.take(j as int) =~= to_remove@);
        proof {
            lemma_index_of(t, fragment_id);
            assert(f@.fragment_id == fragment_id);
        }
        let m = rebuild_fragment_mapping(&f);
        shared.upsert(self.database_id, fragment_id, f.copy());
        pending.updated.push(m);
        assert(mapping_views(pending.updated@) =~= u0.push(m@));
        let ghost v = (job_id, f@);
        self.fragments.set(i, LocatedFragment { fragment_id, job_id, info: f });
        proof {
            lemma_upsert(r0, (self.database_id, fragment_id), v.1);
            assert(self.topology() =~= t.update(i as int, (fragment_id, v)));
            lemma_index_of(t, fragment_id);
            self.lemma_set_keeps_wf(t, i as int, fragment_id, v);
        }
        true
    }

    /// A removal, in the phase after the barrier.
    fn post_remove(&mut self, shared: &mut SharedActorInfos, pending: &mut Pending, fragment_id: FragmentId) -> (ok: bool)
        requires
            old(self).wf(),
            old(shared).wf(),
        ensures
            final(self).spec_database_id() == old(self).spec_database_id(),
            final(self).strict() == old(self).strict(),
            final(self).wf(),
            final(shared).wf(),
            stepped(
                post_step(
                    old(self).spec_database_id(),
                    state_of(old(self).topology(), old(shared)@, *old(pending)),
                    fragment_id,
                    ChangeView::RemoveFragment,
                ),
                ok,
                state_of(final(self).topology(), final(shared)@, *final(pending)),
            ),
    {
        let i = match self.find_fragment(fragment_id) {
            None => return false,
            Some(i) => i,
        };
        let ghost t = self.topology();
        assert(t == old(self).topology());
        let ghost r0 = shared@;
        let ghost d0 = mapping_views(pending.deleted@);
        let m = rebuild_fragment_mapping(&self.fragments[i].info);
        shared.remove(self.database_id, fragment_id);
        self.fragments.remove(i);
        pending.deleted.push(m);
        assert(mapping_views(pending.deleted@) =~= d0.push(m@));
        proof {
            lemma_remove_key(r0, (self.database_id, fragment_id));
            lemma_remove_key(t, fragment_id);
            let n = self.topology();
            assert(n =~= t.remove(i as int));
            lemma_remove_keeps_wf(t, i as int);
        }
        true
    }
}

/// Removing a fragment keeps the per-fragment conditions of the others.
proof fn lemma_remove_keeps_wf(t: Seq<LocatedView>, i: int)
    requires
        topology_wf(t),
        0 <= i < t.len(),
    ensures
        topology_wf(t.remove(i)),
{
    lemma_remove_key(t, t[i].0);
    crate::keyed::lemma_index_of_unique(t, i);
    let n = t.remove(i);
    assert(n == remove_key(t, t[i].0));
    assert forall|k: int| 0 <= k < n.len() implies unique_keys(#[trigger] n[k].1.1.actors)
        && n[k].0 == n[k].1.1.fragment_id by {
        let j = if k < i { k } else { k + 1 };
        assert(n[k] == t[j]);
        assert(0 <= j < t.len());
        assert(unique_keys(t[j].1.1.actors));
        assert(t[j].0 == t[j].1.1.fragment_id);
    }
    assert(topology_wf(n));
}

/// Where a sequence of jobs has been added so far.
pub open spec fn extend_reached(
    r: Option<(ApplyState, Seq<(Operation, Seq<MappingView>)>)>,
    t: Seq<LocatedView>,
    reg: Seq<RegistryEntry>,
    ns: Seq<(Operation, Seq<MappingView>)>,
) -> bool {
    match r {
        Some((s, n)) => s.fragments == t && s.registry == reg && n == ns,
        None => false,
    }
}

impl InflightDatabaseInfo {
    fn pre_one(
        &mut self,
        shared: &mut SharedActorInfos,
        pending: &mut Pending,
        fragment_id: FragmentId,
        change: &CommandFragmentChanges,
    ) -> (ok: bool)
        requires
            old(self).wf(),
            old(shared).wf(),
            crate::change::change_wf(fragment_id, *change),
        ensures
            final(self).spec_database_id() == old(self).spec_database_id(),
            final(self).strict() == old(self).strict(),
            final(self).wf(),
            final(shared).wf(),
            stepped(
                pre_step(
                    old(self).spec_database_id(),
                    old(self).strict(),
                    state_of(old(self).topology(), old(shared)@, *old(pending)),
                    fragment_id,
                    change@,
                ),
                ok,
                state_of(final(self).topology(), final(shared)@, *final(pending)),
            ),
    {
        match change {
            CommandFragmentChanges::NewFragment(job_id, info) => {
                self.apply_new_fragment(shared, pending, fragment_id, *job_id, info)
            },
            CommandFragmentChanges::Reschedule { new_actors, actor_update_vnode_bitmap, .. } => {
                let ghost s = state_of(self.topology(), shared@, *pending);
                self.apply_reschedule(fragment_id, new_actors, actor_update_vnode_bitmap, Ghost(s))
            },
            CommandFragmentChanges::RemoveFragment => true,
            CommandFragmentChanges::ReplaceNodeUpstream(rep) => {
                let ghost s = state_of(self.topology(), shared@, *pending);
                match self.apply_replace_upstream(fragment_id, rep, Ghost(s)) {
                    None => false,
                    Some(consistent) => {
                        if !consistent {
                            pending.inconsistent.push(fragment_id);
                        }
                        true
                    },
                }
            },
        }
    }

    fn post_one(
        &mut self,
        shared: &mut SharedActorInfos,
        pending: &mut Pending,
        fragment_id: FragmentId,
        change: &CommandFragmentChanges,
    ) -> (ok: bool)
        requires
            old(self).wf(),
            old(shared).wf(),
        ensures
            final(self).spec_database_id() == old(self).spec_database_id(),
            final(self).strict() == old(self).strict(),
            final(self).wf(),
            final(shared).wf(),
            stepped(
                post_step(
                    old(self).spec_database_id(),
                    state_of(old(self).topology(), old(shared)@, *old(pending)),
                    fragment_id,
                    change@,
                ),
                ok,
                state_of(final(self).topology(), final(shared)@, *final(pending)),
            ),
    {
        match change {
            CommandFragmentChanges::Reschedule { to_remove, new_actors, actor_update_vnode_bitmap } => {
                let ok = self.post_reschedule(shared, pending, fragment_id, to_remove);
                assert(stepped(
                    post_step(
                        old(self).spec_database_id(),
                        state_of(old(self).topology(), old(shared)@, *old(pending)),
                        fragment_id,
                        ChangeView::Reschedule {
                            new_actors: actor_entries(new_actors@),
                            vnode_updates: bitmap_updates(actor_update_vnode_bitmap@),
                            to_remove: to_remove@,
                        },
                    ),
                    ok,
                    state_of(self.topology(), shared@, *pending),
                ));
                ok
            },
            CommandFragmentChanges::RemoveFragment => self.post_remove(shared, pending, fragment_id),
            _ => true,
        }
    }

    /// Applies the changes of a command before its barrier is sent: new fragments
    /// are added and registered, actors are added and re-partitioned, upstreams are
    /// rewired; removals wait for the phase after the barrier. The changes are applied
    /// in order; the first one that the tracked topology contradicts stops the work
    /// with an error.
    fn try_pre_apply(
        &mut self,
        shared_actor_infos: &mut SharedActorInfos,
        fragment_changes: &Vec<(FragmentId, CommandFragmentChanges)>,
    ) -> (r: Result<ApplyReport, TopologyError>)
        requires
            old(self).wf(),
            old(shared_actor_infos).wf(),
            changes_wf(fragment_changes@),
        ensures
            final(self).spec_database_id() == old(self).spec_database_id(),
            final(self).strict() == old(self).strict(),
            final(self).wf(),
            final(shared_actor_infos).wf(),
            ({
                let s = pre_apply_spec(
                    old(self).spec_database_id(),
                    old(self).strict(),
                    old(self).topology(),
                    old(shared_actor_infos)@,
                    change_views(fragment_changes@),
                );
                match r {
                    Ok(report) => s is Some && final(self).topology() == s.unwrap().fragments
                        && final(shared_actor_infos)@ == s.unwrap().registry && notification_views(
                        report.notifications@,
                    ) == pre_batches(s.unwrap()) && report.inconsistent_rewrites@
                        == s.unwrap().inconsistent,
                    Err(_) => s is None,
                }
            }),
    {
        let ghost db = self.database_id;
        let ghost strict = self.fail_on_inconsistency;
        let ghost s0 = start_state(self.topology(), shared_actor_infos@);
        let ghost cs = change_views(fragment_changes@);
        let mut pending = Pending::new();
        assert(state_of(self.topology(), shared_actor_infos@, pending) == s0);
        assert(cs.take(0) =~= Seq::<(FragmentId, ChangeView)>::empty());
        let mut i: usize = 0;
        while i < fragment_changes.len()
            invariant
                i <= fragment_changes.len(),
                self.wf(),
                shared_actor_infos.wf(),
                self.spec_database_id() == db,
                self.strict() == strict,
                db == old(self).spec_database_id(),
                strict == old(self).strict(),
                s0 == start_state(old(self).topology(), old(shared_actor_infos)@),
                changes_wf(fragment_changes@),
                cs == change_views(fragment_changes@),
                pre_fold(db, strict, s0, cs.take(i as int)) == Some(
                    state_of(self.topology(), shared_actor_infos@, pending),
                ),
            decreases fragment_changes.len() - i,
        {
            proof {
                assert(cs.take(i + 1).drop_last() =~= cs.take(i as int));
                assert(cs.take(i + 1).last() == cs[i as int]);
                assert(crate::change::change_wf(fragment_changes@[i as int].0, fragment_changes@[i as int].1));
            }
            let ok = self.pre_one(
                shared_actor_infos,
                &mut pending,
                fragment_changes[i].0,
                &fragment_changes[i].1,
            );
            if !ok {
                proof {
                    lemma_pre_fold_prefix(db, strict, s0, cs, i + 1);
                }
                return Err(TopologyError { fragment_id: fragment_changes[i].0 });
            }
            i = i + 1;
        }
        assert(cs.take(i as int) =~= cs);
        let Pending { added, updated, deleted: _, inconsistent } = pending;
        let notifications = two_batches(Operation::Add, added, Operation::Update, updated);
        Ok(ApplyReport { notifications, inconsistent_rewrites: inconsistent })
    }

    /// Applies the changes of a command after its barrier is collected: removed actors
    /// go and the fragment's new placement is registered; removed fragments go from
    /// the topology and the registry, and a job goes with its last fragment. The
    /// changes are applied in order; the first one that the tracked topology
    /// contradicts stops the work with an error.
    fn try_post_apply(
        &mut self,
        shared_actor_infos: &mut SharedActorInfos,
        fragment_changes: &Vec<(FragmentId, CommandFragmentChanges)>,
    ) -> (r: Result<Vec<FragmentMappingNotification>, TopologyError>)
        requires
            old(self).wf(),
            old(shared_actor_infos).wf(),
        ensures
            final(self).spec_database_id() == old(self).spec_database_id(),
            final(self).strict() == old(self).strict(),
            final(self).wf(),
            final(shared_actor_infos).wf(),
            ({
                let s = post_apply_spec(
                    old(self).spec_database_id(),
                    old(self).topology(),
                    old(shared_actor_infos)@,
                    change_views(fragment_changes@),
                );
                match r {
                    Ok(ns) => s is Some && final(self).topology() == s.unwrap().fragments
                        && final(shared_actor_infos)@ == s.unwrap().registry && notification_views(
                        ns@,
                    ) == post_batches(s.unwrap()),
                    Err(_) => s is None,
                }
            }),
    {
        let ghost db = self.database_id;
        let ghost strict = self.fail_on_inconsistency;
        let ghost s0 = start_state(self.topology(), shared_actor_infos@);
        let ghost cs = change_views(fragment_changes@);
        let mut pending = Pending::new();
        assert(state_of(self.topology(), shared_actor_infos@, pending) == s0);
        assert(cs.take(0) =~= Seq::<(FragmentId, ChangeView)>::empty());
        let mut i: usize = 0;
        while i < fragment_changes.len()
            invariant
                i <= fragment_changes.len(),
                self.wf(),
                shared_actor_infos.wf(),
                self.spec_database_id() == db,
                self.strict() == strict,
                db == old(self).spec_database_id(),
                strict == old(self).strict(),
                s0 == start_state(old(self).topology(), old(shared_actor_infos)@),
                cs == change_views(fragment_changes@),
                post_fold(db, s0, cs.take(i as int)) == Some(
                    state_of(self.topology(), shared_actor_infos@, pending),
                ),
            decreases fragment_changes.len() - i,
        {
            proof {
                assert(cs.take(i + 1).drop_last() =~= cs.take(i as int));
                assert(cs.take(i + 1).last() == cs[i as int]);
            }
            let ok = self.post_one(
                shared_actor_infos,
                &mut pending,
                fragment_changes[i].0,
                &fragment_changes[i].1,
            );
            if !ok {
                proof {
                    lemma_post_fold_prefix(db, s0, cs, i + 1);
                }
                return Err(TopologyError { fragment_id: fragment_changes[i].0 });
            }
            i = i + 1;
        }
        assert(cs.take(i as int) =~= cs);
        let Pending { added: _, updated, deleted, inconsistent: _ } = pending;
        Ok(two_batches(Operation::Update, updated, Operation::Delete, deleted))
    }
}

pub proof fn lemma_extend_fold_prefix(
    db: DatabaseId,
    strict: bool,
    t: Seq<LocatedView>,
    reg: Seq<RegistryEntry>,
    u: Seq<JobView>,
    k: int,
)
    requires
        0 <= k <= u.len(),
        extend_fold(db, strict, t, reg, u.take(k)) is None,
    ensures
        extend_fold(db, strict, t, reg, u) is None,
    decreases u.len(),
{
    if k == u.len() {
        assert(u.take(k) =~= u);
    } else {
        assert(u.drop_last().take(k) =~= u.take(k));
        lemma_extend_fold_prefix(db, strict, t, reg, u.drop_last(), k);
    }
}

impl InflightDatabaseInfo {
    fn extend_inner(
        &mut self,
        shared: &mut SharedActorInfos,
        job: &InflightStreamingJobInfo,
    ) -> (r: Result<Vec<FragmentMappingNotification>, TopologyError>)
        requires
            old(self).wf(),
            old(shared).wf(),
            job.wf(),
        ensures
            final(self).spec_database_id() == old(self).spec_database_id(),
            final(self).strict() == old(self).strict(),
            final(self).wf(),
            final(shared).wf(),
            ({
                let s = pre_fold(
                    old(self).spec_database_id(),
                    old(self).strict(),
                    start_state(old(self).topology(), old(shared)@),
                    job_changes(job.job_id, views_of(job.fragment_infos@)),
                );
                match r {
                    Ok(ns) => s is Some && final(self).topology() == s.unwrap().fragments
                        && final(shared)@ == s.unwrap().registry && notification_views(ns@)
                        == pre_batches(s.unwrap()),
                    Err(_) => s is None,
                }
            }),
    {
        let ghost db = self.database_id;
        let ghost strict = self.fail_on_inconsistency;
        let ghost s0 = start_state(self.topology(), shared@);
        let ghost cs = job_changes(job.job_id, views_of(job.fragment_infos@));
        let mut pending = Pending::new();
        assert(state_of(self.topology(), shared@, pending) == s0);
        assert(cs.take(0) =~= Seq::<(FragmentId, ChangeView)>::empty());
        let mut i: usize = 0;
        while i < job.fragment_infos.len()
            invariant
                i <= job.fragment_infos.len(),
                job.wf(),
                self.wf(),
                shared.wf(),
                self.spec_database_id() == db,
                self.strict() == strict,
                db == old(self).spec_database_id(),
                strict == old(self).strict(),
                s0 == start_state(old(self).topology(), old(shared)@),
                cs == job_changes(job.job_id, views_of(job.fragment_infos@)),
                pre_fold(db, strict, s0, cs.take(i as int)) == Some(
                    state_of(self.topology(), shared@, pending),
                ),
            decreases job.fragment_infos.len() - i,
        {
            let info = &job.fragment_infos[i];
            proof {
                assert(cs.take(i + 1).drop_last() =~= cs.take(i as int));
                assert(cs.take(i + 1).last() == cs[i as int]);
                assert(job.fragment_infos@[i as int].wf());
            }
            let ok = self.apply_new_fragment(shared, &mut pending, info.fragment_id, job.job_id, info);
            if !ok {
                proof {
                    lemma_pre_fold_prefix(db, strict, s0, cs, i + 1);
                }
                return Err(TopologyError { fragment_id: info.fragment_id });
            }
            i = i + 1;
        }
        assert(cs.take(i as int) =~= cs);
        let Pending { added, updated, deleted: _, inconsistent: _ } = pending;
        Ok(two_batches(Operation::Add, added, Operation::Update, updated))
    }

    /// Rebuilds a database from its jobs, adding each job's fragments as new, then
    /// drops from the registry what it held for the database beyond the rebuilt
    /// fragments, with one batch of deletions.
    fn try_recover(
        database_id: DatabaseId,
        jobs: &Vec<InflightStreamingJobInfo>,
        shared_actor_infos: &mut SharedActorInfos,
        fail_on_inconsistency: bool,
    ) -> (r: Result<(Self, Vec<FragmentMappingNotification>), TopologyError>)
        requires
            old(shared_actor_infos).wf(),
            forall|i: int| 0 <= i < jobs@.len() ==> #[trigger] jobs@[i].wf(),
        ensures
            final(shared_actor_infos).wf(),
            ({
                let s = recover_spec(
                    database_id,
                    fail_on_inconsistency,
                    old(shared_actor_infos)@,
                    job_views(jobs@),
                );
                match r {
                    Ok((info, ns)) => s == Some(
                        (info.topology(), final(shared_actor_infos)@, notification_views(ns@)),
                    ) && info.wf() && info.spec_database_id() == database_id && info.strict()
                        == fail_on_inconsistency,
                    Err(_) => s is None,
                }
            }),
    {
        let ghost reg0 = shared_actor_infos@;
        let ghost jv = job_views(jobs@);
        let mut info = Self::empty_inner(database_id, fail_on_inconsistency);
        let mut out: Vec<FragmentMappingNotification> = Vec::new();
        proof {
            assert(jv.take(0) =~= Seq::<JobView>::empty());
            assert(notification_views(out@) =~= Seq::<(Operation, Seq<MappingView>)>::empty());
        }
        let mut j: usize = 0;
        while j < jobs.len()
            invariant
                j <= jobs.len(),
                forall|i: int| 0 <= i < jobs@.len() ==> #[trigger] jobs@[i].wf(),
                info.wf(),
                shared_actor_infos.wf(),
                info.spec_database_id() == database_id,
                info.strict() == fail_on_inconsistency,
                reg0 == old(shared_actor_infos)@,
                jv == job_views(jobs@),
                extend_reached(
                    extend_fold(
                        database_id,
                        fail_on_inconsistency,
                        Seq::empty(),
                        reg0,
                        jv.take(j as int),
                    ),
                    info.topology(),
                    shared_actor_infos@,
                    notification_views(out@),
                ),
            decreases jobs.len() - j,
        {
            proof {
                assert(jv.take(j + 1).drop_last() =~= jv.take(j as int));
                assert(jv.take(j + 1).last() == jv[j as int]);
                assert(jobs@[j as int].wf());
            }
            let ghost before = notification_views(out@);
            match info.extend_inner(shared_actor_infos, &jobs[j]) {
                Err(e) => {
                    proof {
                        lemma_extend_fold_prefix(
                            database_id,
                            fail_on_inconsistency,
                            Seq::empty(),
                            reg0,
                            jv,
                            j + 1,
                        );
                    }
                    return Err(e);
                },
                Ok(mut ns) => {
                    let ghost added = notification_views(ns@);
                    out.append(&mut ns);
                    assert(notification_views(out@) =~= before + added);
                },
            }
            j = j + 1;
        }
        assert(jv.take(j as int) =~= jv);
        let live = info.fragment_ids();
        let ghost before = notification_views(out@);
        let ghost reg1 = shared_actor_infos@;
        let deleted = shared_actor_infos.retain_fragments(database_id, &live);
        match deleted {
            Some(n) => {
                out.push(n);
                assert(notification_views(out@) =~= before.push(n@));
            },
            None => {},
        }
        proof {
            let stale = stale_in_database(database_id, keys_of(info.topology()));
            assert(notification_views(out@) =~= before + batch_of(
                Operation::Delete,
                deleted_mappings(reg1.filter(stale)),
            ));
        }
        Ok((info, out))
    }
}

impl InflightDatabaseInfo {
    /// A copy with the same topology and settings.
    fn duplicate(&self) -> (r: Self)
        ensures
            r.topology() == self.topology(),
            r.spec_database_id() == self.spec_database_id(),
            r.strict() == self.strict(),
    {
        let mut fragments: Vec<LocatedFragment> = Vec::new();
        let mut i: usize = 0;
        while i < self.fragments.len()
            invariant
                i <= self.fragments.len(),
                located_views(fragments@) == self.topology().take(i as int),
            decreases self.fragments.len() - i,
        {
            let ghost before = fragments@;
            let e = &self.fragments[i];
            let c = LocatedFragment { fragment_id: e.fragment_id, job_id: e.job_id, info: e.info.copy() };
            fragments.push(c);
            assert(located_views(fragments@) =~= located_views(before).push(
                (c.fragment_id, (c.job_id, c.info@)),
            ));
            i = i + 1;
            assert(located_views(fragments@) =~= self.topology().take(i as int));
        }
        assert(self.topology().take(i as int) =~= self.topology());
        InflightDatabaseInfo {
            database_id: self.database_id,
            fragments,
            fail_on_inconsistency: self.fail_on_inconsistency,
        }
    }

    /// Whether [`Self::pre_apply`] accepts the changes: no new fragment is held already,
    /// every rescheduled or rewired fragment is held, no bitmap update names a missing
    /// actor, no new actor is there already, and (when strict) every upstream rewrite
    /// matches one for one. Callers test this first; a change that fails it means the
    /// command and the tracked topology have diverged.
    pub fn check_pre_apply(
        &self,
        shared_actor_infos: &SharedActorInfos,
        fragment_changes: &Vec<(FragmentId, CommandFragmentChanges)>,
    ) -> (r: bool)
        requires
            self.wf(),
            shared_actor_infos.wf(),
            changes_wf(fragment_changes@),
        ensures
            r == pre_apply_spec(
                self.spec_database_id(),
                self.strict(),
                self.topology(),
                shared_actor_infos@,
                change_views(fragment_changes@),
            ) is Some,
    {
        let mut db = self.duplicate();
        let mut reg = shared_actor_infos.duplicate();
        db.try_pre_apply(&mut reg, fragment_changes).is_ok()
    }

    /// Applies the changes of a command before its barrier is sent, in order: new
    /// fragments are added and registered, actors are re-partitioned and added,
    /// upstreams are rewired; removals wait for the phase after the barrier. The
    /// changes must pass [`Self::check_pre_apply`].
    pub fn pre_apply(
        &mut self,
        shared_actor_infos: &mut SharedActorInfos,
        fragment_changes: &Vec<(FragmentId, CommandFragmentChanges)>,
    ) -> (report: ApplyReport)
        requires
            old(self).wf(),
            old(shared_actor_infos).wf(),
            changes_wf(fragment_changes@),
            pre_apply_spec(
                old(self).spec_database_id(),
                old(self).strict(),
                old(self).topology(),
                old(shared_actor_infos)@,
                change_views(fragment_changes@),
            ) is Some,
        ensures
            final(self).spec_database_id() == old(self).spec_database_id(),
            final(self).strict() == old(self).strict(),
            final(self).wf(),
            final(shared_actor_infos).wf(),
            ({
                let s = pre_apply_spec(
                    old(self).spec_database_id(),
                    old(self).strict(),
                    old(self).topology(),
                    old(shared_actor_infos)@,
                    change_views(fragment_changes@),
                ).unwrap();
                &&& final(self).topology() == s.fragments
                &&& final(shared_actor_infos)@ == s.registry
                &&& notification_views(report.notifications@) == pre_batches(s)
                &&& report.inconsistent_rewrites@ == s.inconsistent
            }),
    {
        self.try_pre_apply(shared_actor_infos, fragment_changes).unwrap()
    }

    /// Whether [`Self::post_apply`] accepts the changes: every rescheduled or removed
    /// fragment is held and every actor to remove is there.
    pub fn check_post_apply(
        &self,
        shared_actor_infos: &SharedActorInfos,
        fragment_changes: &Vec<(FragmentId, CommandFragmentChanges)>,
    ) -> (r: bool)
        requires
            self.wf(),
            shared_actor_infos.wf(),
        ensures
            r == post_apply_spec(
                self.spec_database_id(),
                self.topology(),
                shared_actor_infos@,
                change_views(fragment_changes@),
            ) is Some,
    {
        let mut db = self.duplicate();
        let mut reg = shared_actor_infos.duplicate();
        db.try_post_apply(&mut reg, fragment_changes).is_ok()
    }

    /// Applies the changes of a command after its barrier is collected, in order:
    /// removed actors go and the fragment's new placement is registered; removed
    /// fragments go from the topology and the registry, and a job goes with its last
    /// fragment. The changes must pass [`Self::check_post_apply`].
    pub fn post_apply(
        &mut self,
        shared_actor_infos: &mut SharedActorInfos,
        fragment_changes: &Vec<(FragmentId, CommandFragmentChanges)>,
    ) -> (notifications: Vec<FragmentMappingNotification>)
        requires
            old(self).wf(),
            old(shared_actor_infos).wf(),
            post_apply_spec(
                old(self).spec_database_id(),
                old(self).topology(),
                old(shared_actor_infos)@,
                change_views(fragment_changes@),
            ) is Some,
        ensures
            final(self).spec_database_id() == old(self).spec_database_id(),
            final(self).strict() == old(self).strict(),
            final(self).wf(),
            final(shared_actor_infos).wf(),
            ({
                let s = post_apply_spec(
                    old(self).spec_database_id(),
                    old(self).topology(),
                    old(shared_actor_infos)@,
                    change_views(fragment_changes@),
                ).unwrap();
                &&& final(self).topology() == s.fragments
                &&& final(shared_actor_infos)@ == s.registry
                &&& notification_views(notifications@) == post_batches(s)
            }),
    {
        self.try_post_apply(shared_actor_infos, fragment_changes).unwrap()
    }

    /// Whether [`Self::extend`] accepts the job: the database holds none of its
    /// fragments and their ids are distinct.
    pub fn check_extend(&self, shared_actor_infos: &SharedActorInfos, job: &InflightStreamingJobInfo) -> (r: bool)
        requires
            self.wf(),
            shared_actor_infos.wf(),
            job.wf(),
        ensures
            r == pre_fold(
                self.spec_database_id(),
                self.strict(),
                start_state(self.topology(), shared_actor_infos@),
                job_changes(job.job_id, views_of(job.fragment_infos@)),
            ) is Some,
    {
        let mut db = self.duplicate();
        let mut reg = shared_actor_infos.duplicate();
        db.extend_inner(&mut reg, job).is_ok()
    }

    /// Adds a whole job by adding each of its fragments as new. The job must pass
    /// [`Self::check_extend`].
    pub fn extend(
        &mut self,
        shared_actor_infos: &mut SharedActorInfos,
        job: InflightStreamingJobInfo,
    ) -> (notifications: Vec<FragmentMappingNotification>)
        requires
            old(self).wf(),
            old(shared_actor_infos).wf(),
            job.wf(),
            pre_fold(
                old(self).spec_database_id(),
                old(self).strict(),
                start_state(old(self).topology(), old(shared_actor_infos)@),
                job_changes(job.job_id, views_of(job.fragment_infos@)),
            ) is Some,
        ensures
            final(self).spec_database_id() == old(self).spec_database_id(),
            final(self).strict() == old(self).strict(),
            final(self).wf(),
            final(shared_actor_infos).wf(),
            ({
                let s = pre_fold(
                    old(self).spec_database_id(),
                    old(self).strict(),
                    start_state(old(self).topology(), old(shared_actor_infos)@),
                    job_changes(job.job_id, views_of(job.fragment_infos@)),
                ).unwrap();
                &&& final(self).topology() == s.fragments
                &&& final(shared_actor_infos)@ == s.registry
                &&& notification_views(notifications@) == pre_batches(s)
            }),
    {
        self.extend_inner(shared_actor_infos, &job).unwrap()
    }

    /// Whether [`Self::recover`] accepts the jobs: no fragment id occurs twice among
    /// them.
    pub fn check_recover(
        database_id: DatabaseId,
        jobs: &Vec<InflightStreamingJobInfo>,
        shared_actor_infos: &SharedActorInfos,
        fail_on_inconsistency: bool,
    ) -> (r: bool)
        requires
            shared_actor_infos.wf(),
            forall|i: int| 0 <= i < jobs@.len() ==> #[trigger] jobs@[i].wf(),
        ensures
            r == recover_spec(
                database_id,
                fail_on_inconsistency,
                shared_actor_infos@,
                job_views(jobs@),
            ) is Some,
    {
        let mut reg = shared_actor_infos.duplicate();
        Self::try_recover(database_id, jobs, &mut reg, fail_on_inconsistency).is_ok()
    }

    /// Rebuilds a database from its jobs, adding each job's fragments as new, then
    /// drops from the registry what it held for the database beyond the rebuilt
    /// fragments, with one batch of deletions. The jobs must pass
    /// [`Self::check_recover`].
    pub fn recover(
        database_id: DatabaseId,
        jobs: Vec<InflightStreamingJobInfo>,
        shared_actor_infos: &mut SharedActorInfos,
        fail_on_inconsistency: bool,
    ) -> (r: (Self, Vec<FragmentMappingNotification>))
        requires
            old(shared_actor_infos).wf(),
            forall|i: int| 0 <= i < jobs@.len() ==> #[trigger] jobs@[i].wf(),
            recover_spec(
                database_id,
                fail_on_inconsistency,
                old(shared_actor_infos)@,
                job_views(jobs@),
            ) is Some,
        ensures
            final(shared_actor_infos).wf(),
            recover_spec(
                database_id,
                fail_on_inconsistency,
                old(shared_actor_infos)@,
                job_views(jobs@),
            ) == Some((r.0.topology(), final(shared_actor_infos)@, notification_views(r.1@))),
            r.0.wf(),
            r.0.spec_database_id() == database_id,
            r.0.strict() == fail_on_inconsistency,
    {
        Self::try_recover(database_id, &jobs, shared_actor_infos, fail_on_inconsistency).unwrap()
    }
}

} // verus!
