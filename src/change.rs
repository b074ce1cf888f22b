//! Topology changes carried by barrier commands, and what each of them does in
//! the phase before the barrier is sent and in the phase after it is collected.
use vstd::prelude::*;

use crate::fragment::{
    actor_entries, mapping_of, ActorId, ActorView, Bitmap, DatabaseId, FragmentId, FragmentView,
    InflightActorInfo, InflightFragmentInfo, TableId,
};
use crate::keyed::{has_key, remove_key, upsert, value_of};
use crate::registry::{MappingView, Operation, RegistryEntry};

verus! {

/// One change to one fragment.
#[derive(Clone, Debug)]
pub enum CommandFragmentChanges {
    /// The fragment is created as part of the job.
    NewFragment(TableId, InflightFragmentInfo),
    /// Old upstream fragment id to new upstream fragment id, for the merge nodes of
    /// the fragment.
    ReplaceNodeUpstream(Vec<(FragmentId, FragmentId)>),
    /// Actors are added, re-partitioned and removed.
    Reschedule {
        new_actors: Vec<InflightActorInfo>,
        actor_update_vnode_bitmap: Vec<(ActorId, Bitmap)>,
        to_remove: Vec<ActorId>,
    },
    /// The fragment goes away.
    RemoveFragment,
}

pub enum ChangeView {
    NewFragment(TableId, FragmentView),
    ReplaceNodeUpstream(Seq<(FragmentId, FragmentId)>),
    Reschedule {
        new_actors: Seq<(ActorId, ActorView)>,
        vnode_updates: Seq<(ActorId, Seq<bool>)>,
        to_remove: Seq<ActorId>,
    },
    RemoveFragment,
}

pub open spec fn bitmap_updates(s: Seq<(ActorId, Bitmap)>) -> Seq<(ActorId, Seq<bool>)> {
    s.map_values(|p: (ActorId, Bitmap)| (p.0, p.1@))
}

impl View for CommandFragmentChanges {
    type V = ChangeView;

    open spec fn view(&self) -> ChangeView {
        match self {
            CommandFragmentChanges::NewFragment(job_id, info) => ChangeView::NewFragment(
                *job_id,
                info@,
            ),
            CommandFragmentChanges::ReplaceNodeUpstream(m) => ChangeView::ReplaceNodeUpstream(m@),
            CommandFragmentChanges::Reschedule {
                new_actors,
                actor_update_vnode_bitmap,
                to_remove,
            } => ChangeView::Reschedule {
                new_actors: actor_entries(new_actors@),
                vnode_updates: bitmap_updates(actor_update_vnode_bitmap@),
                to_remove: to_remove@,
            },
            CommandFragmentChanges::RemoveFragment => ChangeView::RemoveFragment,
        }
    }
}

/// Changes keyed by the fragment they apply to, in the order they are applied.
pub open spec fn change_views(s: Seq<(FragmentId, CommandFragmentChanges)>) -> Seq<(FragmentId, ChangeView)> {
    s.map_values(|p: (FragmentId, CommandFragmentChanges)| (p.0, p.1@))
}

/// A new fragment carries unique actor ids and is keyed by its own id.
pub open spec fn change_wf(fid: FragmentId, c: CommandFragmentChanges) -> bool {
    match c {
        CommandFragmentChanges::NewFragment(_, info) => info.wf() && info.fragment_id == fid,
        _ => true,
    }
}

pub open spec fn changes_wf(s: Seq<(FragmentId, CommandFragmentChanges)>) -> bool {
    forall|i: int| 0 <= i < s.len() ==> change_wf(#[trigger] s[i].0, s[i].1)
}

/// A fragment of a database with the job that owns it.
pub type LocatedView = (FragmentId, (TableId, FragmentView));

/// Everything the two phases read and write: the database's fragments, the shared
/// registry, and what is to be published.
pub struct ApplyState {
    pub fragments: Seq<LocatedView>,
    pub registry: Seq<RegistryEntry>,
    pub added: Seq<MappingView>,
    pub updated: Seq<MappingView>,
    pub deleted: Seq<MappingView>,
    pub inconsistent: Seq<FragmentId>,
}

pub open spec fn with_actors(f: FragmentView, actors: Seq<(ActorId, ActorView)>) -> FragmentView {
    FragmentView { actors, ..f }
}

pub open spec fn with_bitmap(a: ActorView, b: Seq<bool>) -> ActorView {
    ActorView { vnode_bitmap: Some(b), ..a }
}

/// Sets the bitmaps of existing actors, in order; `None` when an actor is missing.
pub open spec fn apply_bitmaps(
    actors: Seq<(ActorId, ActorView)>,
    ups: Seq<(ActorId, Seq<bool>)>,
) -> Option<Seq<(ActorId, ActorView)>>
    decreases ups.len(),
{
    if ups.len() == 0 {
        Some(actors)
    } else {
        match apply_bitmaps(actors, ups.drop_last()) {
            None => None,
            Some(a) => {
                let (id, b) = ups.last();
                if has_key(a, id) {
                    Some(upsert(a, id, with_bitmap(value_of(a, id), b)))
                } else {
                    None
                }
            },
        }
    }
}

/// Adds actors, in order; `None` when one of them is there already.
pub open spec fn add_actors(
    actors: Seq<(ActorId, ActorView)>,
    new: Seq<(ActorId, ActorView)>,
) -> Option<Seq<(ActorId, ActorView)>>
    decreases new.len(),
{
    if new.len() == 0 {
        Some(actors)
    } else {
        match add_actors(actors, new.drop_last()) {
            None => None,
            Some(a) => if has_key(a, new.last().0) {
                None
            } else {
                Some(a.push(new.last()))
            },
        }
    }
}

/// Removes actors, in order; `None` when one of them is not there.
pub open spec fn remove_actors(actors: Seq<(ActorId, ActorView)>, ids: Seq<ActorId>) -> Option<
    Seq<(ActorId, ActorView)>,
>
    decreases ids.len(),
{
    if ids.len() == 0 {
        Some(actors)
    } else {
        match remove_actors(actors, ids.drop_last()) {
            None => None,
            Some(a) => if has_key(a, ids.last()) {
                Some(remove_key(a, ids.last()))
            } else {
                None
            },
        }
    }
}

/// Each upstream named by the rewrite map is replaced by its new id.
pub open spec fn rewrite_upstreams(rep: Seq<(FragmentId, FragmentId)>, ups: Seq<FragmentId>) -> Seq<
    FragmentId,
> {
    ups.map_values(|u: FragmentId| if has_key(rep, u) { value_of(rep, u) } else { u })
}

/// How many times `k` occurs.
pub open spec fn count_in(s: Seq<FragmentId>, k: FragmentId) -> nat
    decreases s.len(),
{
    if s.len() == 0 {
        0
    } else {
        count_in(s.drop_last(), k) + if s.last() == k { 1nat } else { 0nat }
    }
}

/// Every key of the rewrite map matches exactly one merge node.
pub open spec fn rewrite_consistent(rep: Seq<(FragmentId, FragmentId)>, ups: Seq<FragmentId>) -> bool {
    forall|j: int| 0 <= j < rep.len() ==> count_in(ups, #[trigger] rep[j].0) == 1
}

/// The phase before the barrier, for one change. `None` marks a change that the
/// tracked topology contradicts.
pub open spec fn pre_step(
    db: DatabaseId,
    strict: bool,
    s: ApplyState,
    fid: FragmentId,
    c: ChangeView,
) -> Option<ApplyState> {
    match c {
        ChangeView::NewFragment(job, f) => {
            if has_key(s.fragments, fid) {
                None
            } else {
                let known = has_key(s.registry, (db, fid));
                Some(
                    ApplyState {
                        fragments: s.fragments.push((fid, (job, f))),
                        registry: upsert(s.registry, (db, fid), f),
                        added: if known {
                            s.added
                        } else {
                            s.added.push(mapping_of(f))
                        },
                        updated: if known {
                            s.updated.push(mapping_of(f))
                        } else {
                            s.updated
                        },
                        ..s
                    },
                )
            }
        },
        ChangeView::Reschedule { new_actors, vnode_updates, to_remove } => {
            if !has_key(s.fragments, fid) {
                None
            } else {
                let (job, f) = value_of(s.fragments, fid);
                match apply_bitmaps(f.actors, vnode_updates) {
                    None => None,
                    Some(a1) => match add_actors(a1, new_actors) {
                        None => None,
                        Some(a2) => Some(
                            ApplyState {
                                fragments: upsert(s.fragments, fid, (job, with_actors(f, a2))),
                                ..s
                            },
                        ),
                    },
                }
            }
        },
        ChangeView::RemoveFragment => Some(s),
        ChangeView::ReplaceNodeUpstream(rep) => {
            if !has_key(s.fragments, fid) {
                None
            } else {
                let (job, f) = value_of(s.fragments, fid);
                let ok = rewrite_consistent(rep, f.upstream_fragment_ids);
                if !ok && strict {
                    None
                } else {
                    let f2 = FragmentView {
                        upstream_fragment_ids: rewrite_upstreams(rep, f.upstream_fragment_ids),
                        ..f
                    };
                    Some(
                        ApplyState {
                            fragments: upsert(s.fragments, fid, (job, f2)),
                            inconsistent: if ok {
                                s.inconsistent
                            } else {
                                s.inconsistent.push(fid)
                            },
                            ..s
                        },
                    )
                }
            }
        },
    }
}

/// The phase before the barrier, for the changes in order.
pub open spec fn pre_fold(
    db: DatabaseId,
    strict: bool,
    s: ApplyState,
    cs: Seq<(FragmentId, ChangeView)>,
) -> Option<ApplyState>
    decreases cs.len(),
{
    if cs.len() == 0 {
        Some(s)
    } else {
        match pre_fold(db, strict, s, cs.drop_last()) {
            None => None,
            Some(s1) => pre_step(db, strict, s1, cs.last().0, cs.last().1),
        }
    }
}

/// The phase after the barrier, for one change.
pub open spec fn post_step(db: DatabaseId, s: ApplyState, fid: FragmentId, c: ChangeView) -> Option<
    ApplyState,
> {
    match c {
        ChangeView::Reschedule { to_remove, .. } => {
            if !has_key(s.fragments, fid) {
                None
            } else {
                let (job, f) = value_of(s.fragments, fid);
                match remove_actors(f.actors, to_remove) {
                    None => None,
                    Some(a) => {
                        let f2 = with_actors(f, a);
                        Some(
                            ApplyState {
                                fragments: upsert(s.fragments, fid, (job, f2)),
                                registry: upsert(s.registry, (db, fid), f2),
                                updated: s.updated.push(mapping_of(f2)),
                                ..s
                            },
                        )
                    },
                }
            }
        },
        ChangeView::RemoveFragment => {
            if !has_key(s.fragments, fid) {
                None
            } else {
                let f = value_of(s.fragments, fid).1;
                Some(
                    ApplyState {
                        fragments: remove_key(s.fragments, fid),
                        registry: remove_key(s.registry, (db, fid)),
                        deleted: s.deleted.push(mapping_of(f)),
                        ..s
                    },
                )
            }
        },
        _ => Some(s),
    }
}

/// The phase after the barrier, for the changes in order.
pub open spec fn post_fold(db: DatabaseId, s: ApplyState, cs: Seq<(FragmentId, ChangeView)>) -> Option<
    ApplyState,
>
    decreases cs.len(),
{
    if cs.len() == 0 {
        Some(s)
    } else {
        match post_fold(db, s, cs.drop_last()) {
            None => None,
            Some(s1) => post_step(db, s1, cs.last().0, cs.last().1),
        }
    }
}

/// A batch of the given kind when there is a record for it.
pub open spec fn batch_of(op: Operation, records: Seq<MappingView>) -> Seq<(Operation, Seq<MappingView>)> {
    if records.len() == 0 {
        Seq::empty()
    } else {
        seq![(op, records)]
    }
}

/// What the phase before the barrier publishes: additions, then updates.
pub open spec fn pre_batches(s: ApplyState) -> Seq<(Operation, Seq<MappingView>)> {
    batch_of(Operation::Add, s.added) + batch_of(Operation::Update, s.updated)
}

/// What the phase after the barrier publishes: updates, then deletions.
pub open spec fn post_batches(s: ApplyState) -> Seq<(Operation, Seq<MappingView>)> {
    batch_of(Operation::Update, s.updated) + batch_of(Operation::Delete, s.deleted)
}

/// The state of a database and the registry with nothing yet to publish.
pub open spec fn start_state(fragments: Seq<LocatedView>, registry: Seq<RegistryEntry>) -> ApplyState {
    ApplyState {
        fragments,
        registry,
        added: Seq::empty(),
        updated: Seq::empty(),
        deleted: Seq::empty(),
        inconsistent: Seq::empty(),
    }
}

/// The changes that add a job's fragments.
pub open spec fn job_changes(job_id: TableId, fragments: Seq<FragmentView>) -> Seq<(FragmentId, ChangeView)> {
    fragments.map_values(|f: FragmentView| (f.fragment_id, ChangeView::NewFragment(job_id, f)))
}

} // verus!
