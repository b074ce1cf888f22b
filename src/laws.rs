//! Properties that relate the operations of the trackers to each other.
use vstd::prelude::*;

use crate::change::{
    apply_bitmaps, job_changes, post_fold, post_step, pre_batches, pre_fold, pre_step,
    start_state, with_actors, ApplyState, ChangeView, LocatedView,
};
use crate::database::{
    extend_fold, fragment_location, job_fragments, jobs_of, post_apply_spec, pre_apply_spec,
    recover_spec, topology_wf, JobView,
};
use crate::fragment::{mapping_of, ActorId, ActorView, DatabaseId, FragmentId, FragmentView, TableId};
use crate::keyed::{
    has_key, index_of, keys_of, lemma_index_of, lemma_remove_key,
    lemma_upsert, remove_key, unique_keys, upsert, value_of,
};
use crate::registry::{database_fragments, negate, stale_in_database, RegistryEntry};
use crate::subscription::{bucket_of, unsubscribe, Bucket};

verus! {

/// The owner index and the jobs agree: a fragment has an owning job exactly when it
/// is one of the fragments of some job.
pub proof fn lemma_index_consistency(t: Seq<LocatedView>)
    ensures
        fragment_location(t).dom() =~= Set::new(
            |f: FragmentId| exists|j: TableId| jobs_of(t).contains(j) && job_fragments(t, j).contains_key(f),
        ),
{
    assert forall|f: FragmentId| fragment_location(t).dom().contains(f) implies exists|j: TableId|
        jobs_of(t).contains(j) && job_fragments(t, j).contains_key(f) by {
        let j = value_of(t, f).0;
        assert(jobs_of(t).contains(j));
        assert(job_fragments(t, j).contains_key(f));
    }
}

/// A removal does nothing before the barrier; after it the fragment is gone from the
/// database and from the registry, and one deletion record is published for it.
pub proof fn lemma_two_phase_removal(
    db: DatabaseId,
    strict: bool,
    t: Seq<LocatedView>,
    reg: Seq<RegistryEntry>,
    fid: FragmentId,
)
    requires
        topology_wf(t),
        unique_keys(reg),
        has_key(t, fid),
    ensures
        pre_apply_spec(db, strict, t, reg, seq![(fid, ChangeView::RemoveFragment)]) == Some(
            start_state(t, reg),
        ),
        post_apply_spec(db, t, reg, seq![(fid, ChangeView::RemoveFragment)]) is Some,
        !has_key(post_apply_spec(db, t, reg, seq![(fid, ChangeView::RemoveFragment)]).unwrap().fragments, fid),
        !has_key(post_apply_spec(db, t, reg, seq![(fid, ChangeView::RemoveFragment)]).unwrap().registry, (db, fid)),
        post_apply_spec(db, t, reg, seq![(fid, ChangeView::RemoveFragment)]).unwrap().deleted == seq![
            mapping_of(value_of(t, fid).1),
        ],
{
    let cs = seq![(fid, ChangeView::RemoveFragment)];
    assert(cs.drop_last() =~= Seq::<(FragmentId, ChangeView)>::empty());
    let s0 = start_state(t, reg);
    assert(pre_fold(db, strict, s0, cs.drop_last()) == Some(s0));
    assert(post_fold(db, s0, cs.drop_last()) == Some(s0));
    assert(cs.last() == (fid, ChangeView::RemoveFragment));
    assert(pre_fold(db, strict, s0, cs) == pre_step(db, strict, s0, fid, ChangeView::RemoveFragment));
    assert(post_fold(db, s0, cs) == post_step(db, s0, fid, ChangeView::RemoveFragment));
    lemma_remove_key(t, fid);
    lemma_remove_key(reg, (db, fid));
    assert(Seq::<crate::registry::MappingView>::empty().push(mapping_of(value_of(t, fid).1)) =~= seq![
        mapping_of(value_of(t, fid).1),
    ]);
}

/// Bitmap updates that each name an actor of the fragment keep the actor ids, their
/// order and workers; each named actor gets the last bitmap given for it, the others
/// stay as they were.
pub proof fn lemma_bitmap_updates(a: Seq<(ActorId, ActorView)>, ups: Seq<(ActorId, Seq<bool>)>)
    requires
        unique_keys(a),
        forall|j: int| 0 <= j < ups.len() ==> has_key(a, #[trigger] ups[j].0),
    ensures
        apply_bitmaps(a, ups) is Some,
        apply_bitmaps(a, ups).unwrap().len() == a.len(),
        forall|k: int|
            0 <= k < a.len() ==> {
                let r = #[trigger] apply_bitmaps(a, ups).unwrap()[k];
                &&& r.0 == a[k].0
                &&& r.1.worker_id == a[k].1.worker_id
                &&& r.1.vnode_bitmap == if has_key(ups, a[k].0) {
                    Some(value_of(ups, a[k].0))
                } else {
                    a[k].1.vnode_bitmap
                }
            },
    decreases ups.len(),
{
    if ups.len() > 0 {
        let p = ups.drop_last();
        assert forall|j: int| 0 <= j < p.len() implies has_key(a, #[trigger] p[j].0) by {
            assert(p[j] == ups[j]);
        }
        lemma_bitmap_updates(a, p);
        let r = apply_bitmaps(a, p).unwrap();
        let (id, b) = ups.last();
        assert(has_key(a, ups[ups.len() - 1].0));
        assert(keys_of(r) =~= keys_of(a)) by {
            assert forall|k: int| 0 <= k < a.len() implies r[k].0 == a[k].0 by {}
        }
        assert(has_key(r, id)) by {
            let i = choose|i: int| 0 <= i < a.len() && a[i].0 == id;
            assert(r[i].0 == id);
        }
        assert(unique_keys(r)) by {
            assert forall|x: int, y: int| 0 <= x < r.len() && 0 <= y < r.len() && x != y implies r[x].0 != r[y].0 by {
                assert(r[x].0 == a[x].0 && r[y].0 == a[y].0);
            }
        }
        lemma_index_of(r, id);
        let i = index_of(r, id);
        assert forall|k: int| 0 <= k < a.len() implies {
            let n = #[trigger] apply_bitmaps(a, ups).unwrap()[k];
            &&& n.0 == a[k].0
            &&& n.1.worker_id == a[k].1.worker_id
            &&& n.1.vnode_bitmap == if has_key(ups, a[k].0) {
                Some(value_of(ups, a[k].0))
            } else {
                a[k].1.vnode_bitmap
            }
        } by {
            lemma_index_of(ups, a[k].0);
            lemma_index_of(p, a[k].0);
            if a[k].0 != id {
                if has_key(ups, a[k].0) {
                    let w = choose|w: int| 0 <= w < ups.len() && ups[w].0 == a[k].0;
                    assert(p[w].0 == a[k].0);
                }
                if has_key(p, a[k].0) {
                    let w = choose|w: int| 0 <= w < p.len() && p[w].0 == a[k].0;
                    assert(ups[w].0 == a[k].0);
                }
            } else {
                assert(k == i);
                assert(has_key(ups, id)) by {
                    assert(ups[ups.len() - 1].0 == id);
                }
            }
        }
    }
}

/// A reschedule that only updates bitmaps, each of an existing actor, keeps the
/// fragment's actor ids and workers and changes nothing but bitmaps; nothing is
/// registered or published before the barrier.
pub proof fn lemma_bitmap_only_reschedule(
    db: DatabaseId,
    strict: bool,
    t: Seq<LocatedView>,
    reg: Seq<RegistryEntry>,
    fid: FragmentId,
    ups: Seq<(ActorId, Seq<bool>)>,
)
    requires
        topology_wf(t),
        has_key(t, fid),
        forall|j: int| 0 <= j < ups.len() ==> has_key(value_of(t, fid).1.actors, #[trigger] ups[j].0),
    ensures
        ({
            let r = pre_apply_spec(
                db,
                strict,
                t,
                reg,
                seq![
                    (
                        fid,
                        ChangeView::Reschedule {
                            new_actors: Seq::empty(),
                            vnode_updates: ups,
                            to_remove: Seq::empty(),
                        },
                    ),
                ],
            );
            let before = value_of(t, fid).1;
            &&& r is Some
            &&& r.unwrap().registry == reg
            &&& pre_batches(r.unwrap()).len() == 0
            &&& has_key(r.unwrap().fragments, fid)
            &&& value_of(r.unwrap().fragments, fid).0 == value_of(t, fid).0
            &&& value_of(r.unwrap().fragments, fid).1.actors == apply_bitmaps(before.actors, ups).unwrap()
            &&& keys_of(value_of(r.unwrap().fragments, fid).1.actors) == keys_of(before.actors)
            &&& value_of(r.unwrap().fragments, fid).1 == with_actors(
                before,
                value_of(r.unwrap().fragments, fid).1.actors,
            )
            &&& forall|k: int|
                0 <= k < before.actors.len() ==> (#[trigger] value_of(
                    r.unwrap().fragments,
                    fid,
                ).1.actors[k]).1.worker_id == before.actors[k].1.worker_id
        }),
{
    let cs = seq![
        (
            fid,
            ChangeView::Reschedule {
                new_actors: Seq::empty(),
                vnode_updates: ups,
                to_remove: Seq::empty(),
            },
        ),
    ];
    assert(cs.drop_last() =~= Seq::<(FragmentId, ChangeView)>::empty());
    let s0 = start_state(t, reg);
    assert(pre_fold(db, strict, s0, cs.drop_last()) == Some(s0));
    assert(pre_fold(db, strict, s0, cs) == pre_step(db, strict, s0, cs.last().0, cs.last().1));
    lemma_index_of(t, fid);
    let before = value_of(t, fid).1;
    assert(unique_keys(before.actors)) by {
        assert(t[index_of(t, fid)].1.1 == before);
    }
    lemma_bitmap_updates(before.actors, ups);
    let a1 = apply_bitmaps(before.actors, ups).unwrap();
    let v = (value_of(t, fid).0, with_actors(before, a1));
    lemma_upsert(t, fid, v);
    assert(keys_of(a1) =~= keys_of(before.actors));
    assert(crate::change::add_actors(a1, Seq::empty()) == Some(a1));
    let r = pre_fold(db, strict, s0, cs).unwrap();
    assert(r == ApplyState { fragments: upsert(t, fid, v), ..s0 });
    assert(pre_batches(r) =~= Seq::<(crate::registry::Operation, Seq<crate::registry::MappingView>)>::empty());
}

/// How many changes of the phase publish a record: new fragments before the barrier.
pub open spec fn count_new(cs: Seq<(FragmentId, ChangeView)>) -> nat
    decreases cs.len(),
{
    if cs.len() == 0 {
        0
    } else {
        count_new(cs.drop_last()) + if cs.last().1 is NewFragment { 1nat } else { 0nat }
    }
}

/// Removals after the barrier.
pub open spec fn count_removals(cs: Seq<(FragmentId, ChangeView)>) -> nat
    decreases cs.len(),
{
    if cs.len() == 0 {
        0
    } else {
        count_removals(cs.drop_last()) + if cs.last().1 is RemoveFragment { 1nat } else { 0nat }
    }
}

/// Reschedules after the barrier.
pub open spec fn count_reschedules(cs: Seq<(FragmentId, ChangeView)>) -> nat
    decreases cs.len(),
{
    if cs.len() == 0 {
        0
    } else {
        count_reschedules(cs.drop_last()) + if cs.last().1 is Reschedule { 1nat } else { 0nat }
    }
}

/// Before the barrier, each new fragment yields exactly one record, an addition or
/// an update; no other change yields one.
pub proof fn lemma_pre_diff_completeness(
    db: DatabaseId,
    strict: bool,
    s: ApplyState,
    cs: Seq<(FragmentId, ChangeView)>,
)
    requires
        pre_fold(db, strict, s, cs) is Some,
    ensures
        pre_fold(db, strict, s, cs).unwrap().added.len() + pre_fold(db, strict, s, cs).unwrap().updated.len()
            == s.added.len() + s.updated.len() + count_new(cs),
        pre_fold(db, strict, s, cs).unwrap().deleted == s.deleted,
    decreases cs.len(),
{
    if cs.len() > 0 {
        lemma_pre_diff_completeness(db, strict, s, cs.drop_last());
    }
}

/// After the barrier, each removal yields exactly one deletion record and each
/// reschedule exactly one update record; no other change yields one.
pub proof fn lemma_post_diff_completeness(db: DatabaseId, s: ApplyState, cs: Seq<(FragmentId, ChangeView)>)
    requires
        post_fold(db, s, cs) is Some,
    ensures
        post_fold(db, s, cs).unwrap().deleted.len() == s.deleted.len() + count_removals(cs),
        post_fold(db, s, cs).unwrap().updated.len() == s.updated.len() + count_reschedules(cs),
        post_fold(db, s, cs).unwrap().added == s.added,
    decreases cs.len(),
{
    if cs.len() > 0 {
        lemma_post_diff_completeness(db, s, cs.drop_last());
    }
}

/// Changes without new fragments publish nothing before the barrier.
pub proof fn lemma_no_new_fragment_no_diff(
    db: DatabaseId,
    strict: bool,
    t: Seq<LocatedView>,
    reg: Seq<RegistryEntry>,
    cs: Seq<(FragmentId, ChangeView)>,
)
    requires
        pre_apply_spec(db, strict, t, reg, cs) is Some,
        count_new(cs) == 0,
    ensures
        pre_batches(pre_apply_spec(db, strict, t, reg, cs).unwrap()).len() == 0,
{
    lemma_pre_diff_completeness(db, strict, start_state(t, reg), cs);
}

/// The registry holds each fragment of the topology of database `db` as the topology
/// holds it.
pub open spec fn mirrored(db: DatabaseId, t: Seq<LocatedView>, reg: Seq<RegistryEntry>) -> bool {
    &&& unique_keys(t)
    &&& unique_keys(reg)
    &&& forall|f: FragmentId|
        #![trigger has_key(t, f)]
        has_key(t, f) ==> has_key(reg, (db, f)) && value_of(reg, (db, f)) == value_of(t, f).1
}

proof fn lemma_add_job_mirrors(
    db: DatabaseId,
    strict: bool,
    s: ApplyState,
    job: TableId,
    fs: Seq<FragmentView>,
)
    requires
        mirrored(db, s.fragments, s.registry),
        pre_fold(db, strict, s, job_changes(job, fs)) is Some,
    ensures
        mirrored(
            db,
            pre_fold(db, strict, s, job_changes(job, fs)).unwrap().fragments,
            pre_fold(db, strict, s, job_changes(job, fs)).unwrap().registry,
        ),
    decreases fs.len(),
{
    if fs.len() > 0 {
        let cs = job_changes(job, fs);
        assert(cs.drop_last() =~= job_changes(job, fs.drop_last()));
        lemma_add_job_mirrors(db, strict, s, job, fs.drop_last());
        let s1 = pre_fold(db, strict, s, cs.drop_last()).unwrap();
        let f = fs.last();
        let fid = f.fragment_id;
        assert(cs.last() == (fid, ChangeView::NewFragment(job, f)));
        let s2 = pre_fold(db, strict, s, cs).unwrap();
        lemma_upsert(s1.fragments, fid, (job, f));
        lemma_upsert(s1.registry, (db, fid), f);
        assert(s2.fragments == upsert(s1.fragments, fid, (job, f)));
        assert forall|g: FragmentId| has_key(s2.fragments, g) implies has_key(s2.registry, (db, g))
            && value_of(s2.registry, (db, g)) == value_of(s2.fragments, g).1 by {
            if g != fid {
                assert(has_key(s1.fragments, g));
            }
        }
    }
}

proof fn lemma_extend_mirrors(
    db: DatabaseId,
    strict: bool,
    reg: Seq<RegistryEntry>,
    jobs: Seq<JobView>,
)
    requires
        unique_keys(reg),
        extend_fold(db, strict, Seq::empty(), reg, jobs) is Some,
    ensures
        mirrored(
            db,
            extend_fold(db, strict, Seq::empty(), reg, jobs).unwrap().0.fragments,
            extend_fold(db, strict, Seq::empty(), reg, jobs).unwrap().0.registry,
        ),
    decreases jobs.len(),
{
    if jobs.len() == 0 {
        assert(unique_keys(Seq::<LocatedView>::empty()));
    } else {
        lemma_extend_mirrors(db, strict, reg, jobs.drop_last());
        let s1 = extend_fold(db, strict, Seq::empty(), reg, jobs.drop_last()).unwrap().0;
        lemma_add_job_mirrors(
            db,
            strict,
            start_state(s1.fragments, s1.registry),
            jobs.last().0,
            jobs.last().1,
        );
    }
}

/// What survives a filter of a keyed sequence keeps its key and value.
pub proof fn lemma_filter_keyed<K, V>(s: Seq<(K, V)>, p: spec_fn((K, V)) -> bool)
    requires
        unique_keys(s),
    ensures
        unique_keys(s.filter(p)),
        forall|k: K|
            #![trigger has_key(s.filter(p), k)]
            has_key(s.filter(p), k) <==> (has_key(s, k) && p(s[index_of(s, k)])),
        forall|k: K|
            #![trigger has_key(s.filter(p), k)]
            has_key(s.filter(p), k) ==> value_of(s.filter(p), k) == value_of(s, k),
    decreases s.len(),
{
    reveal(Seq::filter);
    if s.len() > 0 {
        let q = s.drop_last();
        let x = s.last();
        assert(unique_keys(q));
        lemma_filter_keyed(q, p);
        let fq = q.filter(p);
        lemma_index_of(s, x.0);
        assert(!has_key(q, x.0)) by {
            if has_key(q, x.0) {
                let i = choose|i: int| 0 <= i < q.len() && q[i].0 == x.0;
                assert(s[i].0 == s[s.len() - 1].0);
            }
        }
        assert forall|k: K| k != x.0 implies (has_key(s, k) <==> has_key(q, k)) && (has_key(s, k)
            ==> index_of(s, k) == index_of(q, k)) by {
            if has_key(s, k) {
                let i = choose|i: int| 0 <= i < s.len() && s[i].0 == k;
                assert(q[i].0 == k);
            }
            if has_key(q, k) {
                let i = choose|i: int| 0 <= i < q.len() && q[i].0 == k;
                assert(s[i].0 == k);
            }
        }
        if p(x) {
            let fs = fq.push(x);
            assert(s.filter(p) == fs);
            assert(fs.drop_last() =~= fq);
            assert forall|k: K| k != x.0 implies (has_key(fs, k) <==> has_key(fq, k)) && index_of(fs, k) == index_of(fq, k) by {
                if has_key(fs, k) {
                    let i = choose|i: int| 0 <= i < fs.len() && fs[i].0 == k;
                    assert(fq[i].0 == k);
                }
                if has_key(fq, k) {
                    let i = choose|i: int| 0 <= i < fq.len() && fq[i].0 == k;
                    assert(fs[i].0 == k);
                }
            }
            assert(unique_keys(fs)) by {
                assert forall|a: int, b: int| 0 <= a < fs.len() && 0 <= b < fs.len() && a != b implies fs[a].0 != fs[b].0 by {
                    if a == fs.len() - 1 {
                        assert(has_key(fq, fs[b].0));
                    } else if b == fs.len() - 1 {
                        assert(has_key(fq, fs[a].0));
                    }
                }
            }
            assert(has_key(fs, x.0)) by {
                assert(fs[fs.len() - 1].0 == x.0);
            }
            assert forall|k: K| #![trigger has_key(s.filter(p), k)] has_key(s.filter(p), k) <==> (has_key(s, k) && p(s[index_of(s, k)])) by {
                if k != x.0 {
                    lemma_index_of(q, k);
                }
            }
            assert forall|k: K| #![trigger has_key(s.filter(p), k)] has_key(s.filter(p), k) ==> value_of(s.filter(p), k) == value_of(s, k) by {
                if k != x.0 && has_key(fs, k) {
                    lemma_index_of(q, k);
                    lemma_index_of(fq, k);
                }
            }
        } else {
            assert(s.filter(p) == fq);
            assert forall|k: K| #![trigger has_key(s.filter(p), k)] has_key(s.filter(p), k) <==> (has_key(s, k) && p(s[index_of(s, k)])) by {
                if k != x.0 {
                    lemma_index_of(q, k);
                }
            }
            assert forall|k: K| #![trigger has_key(s.filter(p), k)] has_key(s.filter(p), k) ==> value_of(s.filter(p), k) == value_of(s, k) by {
                if k != x.0 && has_key(fq, k) {
                    lemma_index_of(q, k);
                }
            }
        }
    }
}

/// After a database is rebuilt from its jobs, the registry holds for it exactly the
/// rebuilt fragments, each as the topology holds it.
pub proof fn lemma_recover_mirrors(
    db: DatabaseId,
    strict: bool,
    reg: Seq<RegistryEntry>,
    jobs: Seq<JobView>,
)
    requires
        unique_keys(reg),
        recover_spec(db, strict, reg, jobs) is Some,
    ensures
        ({
            let (t, r, _) = recover_spec(db, strict, reg, jobs).unwrap();
            &&& forall|f: FragmentId| has_key(r, (db, f)) <==> has_key(t, f)
            &&& forall|f: FragmentId|
                has_key(t, f) ==> value_of(r, (db, f)) == value_of(t, f).1
            &&& database_fragments(r, db) =~= Map::new(
                |f: FragmentId| has_key(t, f),
                |f: FragmentId| value_of(t, f).1,
            )
        }),
{
    lemma_extend_mirrors(db, strict, reg, jobs);
    let s = extend_fold(db, strict, Seq::empty(), reg, jobs).unwrap().0;
    let stale = stale_in_database(db, keys_of(s.fragments));
    lemma_filter_keyed(s.registry, negate(stale));
    let r = s.registry.filter(negate(stale));
    assert(recover_spec(db, strict, reg, jobs).unwrap().0 == s.fragments);
    assert(recover_spec(db, strict, reg, jobs).unwrap().1 == r);
    assert forall|f: FragmentId| has_key(r, (db, f)) <==> has_key(s.fragments, f) by {
        lemma_index_of(s.registry, (db, f));
        assert(has_key(r, (db, f)) <==> (has_key(s.registry, (db, f)) && negate(stale)(s.registry[index_of(s.registry, (db, f))])));
        if has_key(s.fragments, f) {
            let i = choose|i: int| 0 <= i < s.fragments.len() && s.fragments[i].0 == f;
            assert(keys_of(s.fragments)[i] == f);
        }
        if keys_of(s.fragments).contains(f) {
            let i = choose|i: int| 0 <= i < keys_of(s.fragments).len() && keys_of(s.fragments)[i] == f;
            assert(s.fragments[i].0 == f);
        }
    }
    assert forall|f: FragmentId| has_key(s.fragments, f) implies value_of(r, (db, f)) == value_of(s.fragments, f).1 by {
        assert(has_key(r, (db, f)));
    }
    assert(database_fragments(r, db) =~= Map::new(
        |f: FragmentId| has_key(s.fragments, f),
        |f: FragmentId| value_of(s.fragments, f).1,
    ));
}

/// Dropping the last subscription of a table removes the table; dropping another
/// keeps the table with the other subscriptions as they were.
pub proof fn lemma_subscription_bucket_cleanup(s: Seq<(TableId, Bucket)>, t: TableId, id: crate::fragment::SubscriptionId)
    requires
        unique_keys(s),
        forall|i: int| 0 <= i < s.len() ==> unique_keys(#[trigger] s[i].1),
        has_key(bucket_of(s, t), id),
    ensures
        bucket_of(s, t).len() == 1 ==> !has_key(unsubscribe(s, t, id), t),
        bucket_of(s, t).len() > 1 ==> {
            let b = bucket_of(unsubscribe(s, t, id), t);
            &&& has_key(unsubscribe(s, t, id), t)
            &&& b.len() > 0
            &&& !has_key(b, id)
            &&& forall|x: crate::fragment::SubscriptionId| x != id ==> (has_key(b, x) <==> has_key(bucket_of(s, t), x))
            &&& forall|x: crate::fragment::SubscriptionId| x != id && has_key(bucket_of(s, t), x) ==> value_of(b, x) == value_of(bucket_of(s, t), x)
        },
{
    let b0 = bucket_of(s, t);
    assert(has_key(s, t)) by {
        if !has_key(s, t) {
            assert(b0 =~= Seq::<(crate::fragment::SubscriptionId, u64)>::empty());
        }
    }
    lemma_index_of(s, t);
    assert(unique_keys(b0)) by {
        assert(s[index_of(s, t)].1 == b0);
    }
    lemma_remove_key(b0, id);
    lemma_index_of(b0, id);
    let b = remove_key(b0, id);
    if b0.len() == 1 {
        lemma_remove_key(s, t);
    } else {
        lemma_upsert(s, t, b);
    }
}

/// Applying the same bitmap updates a second time leaves the actors as they are.
pub proof fn lemma_bitmap_updates_twice(a: Seq<(ActorId, ActorView)>, ups: Seq<(ActorId, Seq<bool>)>)
    requires
        unique_keys(a),
        forall|j: int| 0 <= j < ups.len() ==> has_key(a, #[trigger] ups[j].0),
    ensures
        apply_bitmaps(apply_bitmaps(a, ups).unwrap(), ups) == apply_bitmaps(a, ups),
{
    lemma_bitmap_updates(a, ups);
    let r = apply_bitmaps(a, ups).unwrap();
    assert(keys_of(r) =~= keys_of(a));
    assert(unique_keys(r)) by {
        assert forall|x: int, y: int| 0 <= x < r.len() && 0 <= y < r.len() && x != y implies r[x].0 != r[y].0 by {
            assert(r[x].0 == a[x].0 && r[y].0 == a[y].0);
        }
    }
    assert forall|j: int| 0 <= j < ups.len() implies has_key(r, #[trigger] ups[j].0) by {
        let i = choose|i: int| 0 <= i < a.len() && a[i].0 == ups[j].0;
        assert(r[i].0 == ups[j].0);
    }
    lemma_bitmap_updates(r, ups);
    let r2 = apply_bitmaps(r, ups).unwrap();
    assert forall|k: int| 0 <= k < r.len() implies r2[k] == r[k] by {
        assert(r[k].0 == a[k].0);
    }
    assert(r2 =~= r);
}

/// Overwriting a key with the value it holds changes nothing.
pub proof fn lemma_upsert_same<K, V>(s: Seq<(K, V)>, k: K)
    requires
        has_key(s, k),
    ensures
        upsert(s, k, value_of(s, k)) == s,
{
    lemma_index_of(s, k);
    assert(upsert(s, k, value_of(s, k)) =~= s);
}

/// Repeating a bitmap-only reschedule changes nothing more: the second application
/// before the barrier finds the state the first one left and keeps it.
pub proof fn lemma_bitmap_only_reschedule_idempotent(
    db: DatabaseId,
    strict: bool,
    t: Seq<LocatedView>,
    reg: Seq<RegistryEntry>,
    fid: FragmentId,
    ups: Seq<(ActorId, Seq<bool>)>,
)
    requires
        topology_wf(t),
        has_key(t, fid),
        forall|j: int| 0 <= j < ups.len() ==> has_key(value_of(t, fid).1.actors, #[trigger] ups[j].0),
    ensures
        ({
            let cs = seq![
                (
                    fid,
                    ChangeView::Reschedule {
                        new_actors: Seq::empty(),
                        vnode_updates: ups,
                        to_remove: Seq::empty(),
                    },
                ),
            ];
            let r = pre_apply_spec(db, strict, t, reg, cs).unwrap();
            &&& pre_apply_spec(db, strict, t, reg, cs) is Some
            &&& pre_apply_spec(db, strict, r.fragments, r.registry, cs) == Some(r)
        }),
{
    let c = ChangeView::Reschedule { new_actors: Seq::empty(), vnode_updates: ups, to_remove: Seq::empty() };
    let cs = seq![(fid, c)];
    assert(cs.drop_last() =~= Seq::<(FragmentId, ChangeView)>::empty());
    lemma_bitmap_only_reschedule(db, strict, t, reg, fid, ups);
    let s0 = start_state(t, reg);
    assert(pre_fold(db, strict, s0, cs.drop_last()) == Some(s0));
    let r = pre_apply_spec(db, strict, t, reg, cs).unwrap();
    lemma_index_of(t, fid);
    let before = value_of(t, fid).1;
    assert(unique_keys(before.actors)) by {
        assert(t[index_of(t, fid)].1.1 == before);
    }
    lemma_bitmap_updates_twice(before.actors, ups);
    let a1 = apply_bitmaps(before.actors, ups).unwrap();
    let v = (value_of(t, fid).0, with_actors(before, a1));
    lemma_upsert(t, fid, v);
    assert(r.fragments == upsert(t, fid, v));
    assert(r == start_state(r.fragments, reg));
    let s1 = start_state(r.fragments, r.registry);
    assert(pre_fold(db, strict, s1, cs.drop_last()) == Some(s1));
    assert(value_of(r.fragments, fid) == v);
    assert(crate::change::add_actors(a1, Seq::empty()) == Some(a1));
    assert(with_actors(v.1, a1) == v.1);
    lemma_upsert_same(r.fragments, fid);
    assert(pre_step(db, strict, s1, fid, c) == Some(s1));
}

/// Every fragment id of the given jobs, job by job.
pub open spec fn job_fragment_ids(jobs: Seq<JobView>) -> Seq<FragmentId> {
    jobs.map_values(|j: JobView| j.1.map_values(|f: FragmentView| f.fragment_id)).flatten()
}

proof fn lemma_add_distinct_job(
    db: DatabaseId,
    strict: bool,
    s: ApplyState,
    job: TableId,
    fs: Seq<FragmentView>,
)
    requires
        (keys_of(s.fragments) + fs.map_values(|f: FragmentView| f.fragment_id)).no_duplicates(),
    ensures
        pre_fold(db, strict, s, job_changes(job, fs)) is Some,
        keys_of(pre_fold(db, strict, s, job_changes(job, fs)).unwrap().fragments) == keys_of(s.fragments)
            + fs.map_values(|f: FragmentView| f.fragment_id),
    decreases fs.len(),
{
    let ids = fs.map_values(|f: FragmentView| f.fragment_id);
    if fs.len() == 0 {
        assert(keys_of(s.fragments) + ids =~= keys_of(s.fragments));
    } else {
        let p = fs.drop_last();
        let pids = p.map_values(|f: FragmentView| f.fragment_id);
        assert(pids =~= ids.drop_last());
        assert((keys_of(s.fragments) + pids) =~= (keys_of(s.fragments) + ids).drop_last());
        lemma_add_distinct_job(db, strict, s, job, p);
        let cs = job_changes(job, fs);
        assert(cs.drop_last() =~= job_changes(job, p));
        let s1 = pre_fold(db, strict, s, cs.drop_last()).unwrap();
        let f = fs.last();
        assert(cs.last() == (f.fragment_id, ChangeView::NewFragment(job, f)));
        let all = keys_of(s.fragments) + ids;
        assert(all[all.len() - 1] == f.fragment_id);
        assert(!has_key(s1.fragments, f.fragment_id)) by {
            if has_key(s1.fragments, f.fragment_id) {
                let i = choose|i: int| 0 <= i < s1.fragments.len() && s1.fragments[i].0 == f.fragment_id;
                assert(keys_of(s1.fragments)[i] == f.fragment_id);
                assert(all[i] == f.fragment_id);
            }
        }
        let s2 = pre_fold(db, strict, s, cs).unwrap();
        assert(s2.fragments == s1.fragments.push((f.fragment_id, (job, f))));
        assert(keys_of(s2.fragments) =~= keys_of(s1.fragments).push(f.fragment_id));
        assert(keys_of(s2.fragments) =~= all);
    }
}

proof fn lemma_extend_distinct(
    db: DatabaseId,
    strict: bool,
    reg: Seq<RegistryEntry>,
    jobs: Seq<JobView>,
)
    requires
        job_fragment_ids(jobs).no_duplicates(),
    ensures
        extend_fold(db, strict, Seq::empty(), reg, jobs) is Some,
        keys_of(extend_fold(db, strict, Seq::empty(), reg, jobs).unwrap().0.fragments) == job_fragment_ids(jobs),
    decreases jobs.len(),
{
    let g = jobs.map_values(|j: JobView| j.1.map_values(|f: FragmentView| f.fragment_id));
    if jobs.len() == 0 {
        assert(keys_of(Seq::<LocatedView>::empty()) =~= job_fragment_ids(jobs));
    } else {
        let p = jobs.drop_last();
        let gp = p.map_values(|j: JobView| j.1.map_values(|f: FragmentView| f.fragment_id));
        assert(gp =~= g.drop_last());
        g.drop_last().lemma_flatten_push(g.last());
        assert(g =~= g.drop_last().push(g.last()));
        assert(job_fragment_ids(jobs) == job_fragment_ids(p) + g.last());
        assert(job_fragment_ids(p).no_duplicates()) by {
            let all = job_fragment_ids(jobs);
            assert forall|x: int, y: int| 0 <= x < job_fragment_ids(p).len() && 0 <= y < job_fragment_ids(p).len() && x != y
                implies job_fragment_ids(p)[x] != job_fragment_ids(p)[y] by {
                assert(all[x] == job_fragment_ids(p)[x]);
                assert(all[y] == job_fragment_ids(p)[y]);
            }
        }
        lemma_extend_distinct(db, strict, reg, p);
        let s1 = extend_fold(db, strict, Seq::empty(), reg, p).unwrap().0;
        let st = start_state(s1.fragments, s1.registry);
        assert(keys_of(st.fragments) + g.last() == job_fragment_ids(jobs));
        lemma_add_distinct_job(db, strict, st, jobs.last().0, jobs.last().1);
    }
}

/// Rebuilding a database from jobs whose fragment ids are pairwise distinct succeeds,
/// and the rebuilt database holds exactly those fragments.
pub proof fn lemma_recover_succeeds(
    db: DatabaseId,
    strict: bool,
    reg: Seq<RegistryEntry>,
    jobs: Seq<JobView>,
)
    requires
        job_fragment_ids(jobs).no_duplicates(),
    ensures
        recover_spec(db, strict, reg, jobs) is Some,
        keys_of(recover_spec(db, strict, reg, jobs).unwrap().0) == job_fragment_ids(jobs),
{
    lemma_extend_distinct(db, strict, reg, jobs);
}

/// The fragment ids that published records carry.
pub open spec fn record_ids(s: Seq<crate::registry::MappingView>) -> Seq<FragmentId> {
    s.map_values(|m: crate::registry::MappingView| m.0)
}

/// Each fragment is keyed by its own id.
pub open spec fn keyed_by_own_id(t: Seq<LocatedView>) -> bool {
    forall|i: int| 0 <= i < t.len() ==> (#[trigger] t[i]).0 == t[i].1.1.fragment_id
}

/// Each new fragment is keyed by its own id.
pub open spec fn new_fragments_keyed(cs: Seq<(FragmentId, ChangeView)>) -> bool {
    forall|i: int|
        0 <= i < cs.len() ==> match #[trigger] cs[i].1 {
            ChangeView::NewFragment(_, f) => f.fragment_id == cs[i].0,
            _ => true,
        }
}

/// The fragments that the changes remove, in order.
pub open spec fn removed_ids(cs: Seq<(FragmentId, ChangeView)>) -> Seq<FragmentId>
    decreases cs.len(),
{
    if cs.len() == 0 {
        Seq::empty()
    } else if cs.last().1 is RemoveFragment {
        removed_ids(cs.drop_last()).push(cs.last().0)
    } else {
        removed_ids(cs.drop_last())
    }
}

/// The fragments that the changes reschedule, in order.
pub open spec fn rescheduled_ids(cs: Seq<(FragmentId, ChangeView)>) -> Seq<FragmentId>
    decreases cs.len(),
{
    if cs.len() == 0 {
        Seq::empty()
    } else if cs.last().1 is Reschedule {
        rescheduled_ids(cs.drop_last()).push(cs.last().0)
    } else {
        rescheduled_ids(cs.drop_last())
    }
}

/// After the barrier, the deletion records name exactly the removed fragments and the
/// update records exactly the rescheduled ones, in the order of the changes.
pub proof fn lemma_post_record_ids(db: DatabaseId, s: ApplyState, cs: Seq<(FragmentId, ChangeView)>)
    requires
        unique_keys(s.fragments),
        keyed_by_own_id(s.fragments),
        post_fold(db, s, cs) is Some,
    ensures
        unique_keys(post_fold(db, s, cs).unwrap().fragments),
        keyed_by_own_id(post_fold(db, s, cs).unwrap().fragments),
        record_ids(post_fold(db, s, cs).unwrap().deleted) == record_ids(s.deleted) + removed_ids(cs),
        record_ids(post_fold(db, s, cs).unwrap().updated) == record_ids(s.updated) + rescheduled_ids(cs),
    decreases cs.len(),
{
    if cs.len() == 0 {
        assert(record_ids(s.deleted) + removed_ids(cs) =~= record_ids(s.deleted));
        assert(record_ids(s.updated) + rescheduled_ids(cs) =~= record_ids(s.updated));
    } else {
        lemma_post_record_ids(db, s, cs.drop_last());
        let s1 = post_fold(db, s, cs.drop_last()).unwrap();
        let s2 = post_fold(db, s, cs).unwrap();
        let (fid, c) = cs.last();
        match c {
            ChangeView::RemoveFragment => {
                lemma_index_of(s1.fragments, fid);
                let f = value_of(s1.fragments, fid).1;
                assert(s1.fragments[index_of(s1.fragments, fid)].0 == fid);
                assert(f.fragment_id == fid);
                lemma_remove_key(s1.fragments, fid);
                let n = s2.fragments;
                let p = index_of(s1.fragments, fid);
                assert(n == s1.fragments.remove(p));
                assert forall|k: int| 0 <= k < n.len() implies (#[trigger] n[k]).0 == n[k].1.1.fragment_id by {
                    if k < p {
                        assert(n[k] == s1.fragments[k]);
                    } else {
                        assert(n[k] == s1.fragments[k + 1]);
                    }
                }
                assert(record_ids(s2.deleted) =~= record_ids(s1.deleted).push(fid));
                assert(record_ids(s2.updated) == record_ids(s1.updated));
            },
            ChangeView::Reschedule { new_actors, vnode_updates, to_remove } => {
                lemma_index_of(s1.fragments, fid);
                let (job, f) = value_of(s1.fragments, fid);
                assert(s1.fragments[index_of(s1.fragments, fid)].0 == fid);
                let a = crate::change::remove_actors(f.actors, to_remove).unwrap();
                let f2 = with_actors(f, a);
                lemma_upsert(s1.fragments, fid, (job, f2));
                let n = s2.fragments;
                let p = index_of(s1.fragments, fid);
                assert(n == s1.fragments.update(p, (fid, (job, f2))));
                assert forall|k: int| 0 <= k < n.len() implies (#[trigger] n[k]).0 == n[k].1.1.fragment_id by {
                    if k != p {
                        assert(n[k] == s1.fragments[k]);
                    }
                }
                assert(record_ids(s2.updated) =~= record_ids(s1.updated).push(fid));
                assert(record_ids(s2.deleted) == record_ids(s1.deleted));
            },
            _ => {},
        }
    }
}

/// The new fragments of the changes, in order, whose registration at the start
/// (under database `db`) is as `registered` says.
pub open spec fn new_ids(
    db: DatabaseId,
    reg: Seq<RegistryEntry>,
    cs: Seq<(FragmentId, ChangeView)>,
    registered: bool,
) -> Seq<FragmentId>
    decreases cs.len(),
{
    if cs.len() == 0 {
        Seq::empty()
    } else if cs.last().1 is NewFragment && has_key(reg, (db, cs.last().0)) == registered {
        new_ids(db, reg, cs.drop_last(), registered).push(cs.last().0)
    } else {
        new_ids(db, reg, cs.drop_last(), registered)
    }
}

/// Before the barrier, the addition records name exactly the new fragments that were
/// not registered for the database, and the update records exactly those that were,
/// in the order of the changes.
pub proof fn lemma_pre_record_ids(
    db: DatabaseId,
    strict: bool,
    s: ApplyState,
    cs: Seq<(FragmentId, ChangeView)>,
)
    requires
        unique_keys(s.fragments),
        unique_keys(s.registry),
        new_fragments_keyed(cs),
        pre_fold(db, strict, s, cs) is Some,
    ensures
        unique_keys(pre_fold(db, strict, s, cs).unwrap().fragments),
        unique_keys(pre_fold(db, strict, s, cs).unwrap().registry),
        forall|x: FragmentId|
            has_key(s.fragments, x) ==> has_key(pre_fold(db, strict, s, cs).unwrap().fragments, x),
        forall|x: FragmentId|
            has_key(pre_fold(db, strict, s, cs).unwrap().registry, (db, x)) != has_key(s.registry, (db, x))
                ==> has_key(pre_fold(db, strict, s, cs).unwrap().fragments, x),
        record_ids(pre_fold(db, strict, s, cs).unwrap().added) == record_ids(s.added) + new_ids(
            db,
            s.registry,
            cs,
            false,
        ),
        record_ids(pre_fold(db, strict, s, cs).unwrap().updated) == record_ids(s.updated) + new_ids(
            db,
            s.registry,
            cs,
            true,
        ),
    decreases cs.len(),
{
    if cs.len() == 0 {
        assert(record_ids(s.added) + new_ids(db, s.registry, cs, false) =~= record_ids(s.added));
        assert(record_ids(s.updated) + new_ids(db, s.registry, cs, true) =~= record_ids(s.updated));
    } else {
        let p = cs.drop_last();
        assert forall|i: int| 0 <= i < p.len() implies match #[trigger] p[i].1 {
            ChangeView::NewFragment(_, f) => f.fragment_id == p[i].0,
            _ => true,
        } by {
            assert(p[i] == cs[i]);
        }
        lemma_pre_record_ids(db, strict, s, p);
        let s1 = pre_fold(db, strict, s, p).unwrap();
        let s2 = pre_fold(db, strict, s, cs).unwrap();
        let (fid, c) = cs.last();
        assert(cs[cs.len() - 1] == (fid, c));
        match c {
            ChangeView::NewFragment(job, f) => {
                assert(f.fragment_id == fid);
                assert(!has_key(s1.fragments, fid));
                assert(!has_key(s.fragments, fid));
                assert(has_key(s1.registry, (db, fid)) == has_key(s.registry, (db, fid)));
                lemma_upsert(s1.fragments, fid, (job, f));
                lemma_upsert(s1.registry, (db, fid), f);
                assert(s2.fragments == upsert(s1.fragments, fid, (job, f)));
                if has_key(s.registry, (db, fid)) {
                    assert(record_ids(s2.updated) =~= record_ids(s1.updated).push(fid));
                    assert(record_ids(s2.added) == record_ids(s1.added));
                } else {
                    assert(record_ids(s2.added) =~= record_ids(s1.added).push(fid));
                    assert(record_ids(s2.updated) == record_ids(s1.updated));
                }
                assert forall|x: FragmentId|
                    has_key(s2.registry, (db, x)) != has_key(s.registry, (db, x)) implies has_key(s2.fragments, x) by {
                    if x != fid {
                        assert(has_key(s2.registry, (db, x)) == has_key(s1.registry, (db, x)));
                        assert(has_key(s1.fragments, x));
                    }
                }
            },
            ChangeView::Reschedule { new_actors, vnode_updates, to_remove } => {
                let v = value_of(s1.fragments, fid);
                let a1 = apply_bitmaps(v.1.actors, vnode_updates).unwrap();
                let a2 = crate::change::add_actors(a1, new_actors).unwrap();
                lemma_upsert(s1.fragments, fid, (v.0, with_actors(v.1, a2)));
            },
            ChangeView::ReplaceNodeUpstream(rep) => {
                let v = value_of(s1.fragments, fid);
                let f2 = FragmentView {
                    upstream_fragment_ids: crate::change::rewrite_upstreams(rep, v.1.upstream_fragment_ids),
                    ..v.1
                };
                lemma_upsert(s1.fragments, fid, (v.0, f2));
            },
            ChangeView::RemoveFragment => {},
        }
        assert forall|x: FragmentId|
            has_key(s2.registry, (db, x)) != has_key(s.registry, (db, x)) implies has_key(s2.fragments, x) by {
            if has_key(s1.registry, (db, x)) != has_key(s.registry, (db, x)) {
                assert(has_key(s1.fragments, x));
            }
        }
    }
}

/// No change names fragment `x`.
pub open spec fn unnamed(cs: Seq<(FragmentId, ChangeView)>, x: FragmentId) -> bool {
    forall|i: int| 0 <= i < cs.len() ==> (#[trigger] cs[i]).0 != x
}

/// After the barrier, every removed fragment is gone from the database and from the
/// registry, and every fragment that no change names keeps its entry in both.
pub proof fn lemma_post_removals(db: DatabaseId, s: ApplyState, cs: Seq<(FragmentId, ChangeView)>)
    requires
        unique_keys(s.fragments),
        unique_keys(s.registry),
        post_fold(db, s, cs) is Some,
    ensures
        unique_keys(post_fold(db, s, cs).unwrap().fragments),
        unique_keys(post_fold(db, s, cs).unwrap().registry),
        forall|i: int|
            0 <= i < cs.len() && (#[trigger] cs[i]).1 is RemoveFragment ==> !has_key(
                post_fold(db, s, cs).unwrap().fragments,
                cs[i].0,
            ) && !has_key(post_fold(db, s, cs).unwrap().registry, (db, cs[i].0)),
        forall|x: FragmentId|
            #[trigger] unnamed(cs, x) ==> {
                let r = post_fold(db, s, cs).unwrap();
                &&& has_key(r.fragments, x) == has_key(s.fragments, x)
                &&& has_key(r.fragments, x) ==> value_of(r.fragments, x) == value_of(s.fragments, x)
                &&& has_key(r.registry, (db, x)) == has_key(s.registry, (db, x))
                &&& has_key(r.registry, (db, x)) ==> value_of(r.registry, (db, x)) == value_of(
                    s.registry,
                    (db, x),
                )
            },
    decreases cs.len(),
{
    if cs.len() > 0 {
        let p = cs.drop_last();
        lemma_post_removals(db, s, p);
        let s1 = post_fold(db, s, p).unwrap();
        let s2 = post_fold(db, s, cs).unwrap();
        let (fid, c) = cs.last();
        assert(cs[cs.len() - 1] == (fid, c));
        match c {
            ChangeView::RemoveFragment => {
                lemma_remove_key(s1.fragments, fid);
                lemma_remove_key(s1.registry, (db, fid));
            },
            ChangeView::Reschedule { new_actors, vnode_updates, to_remove } => {
                let (job, f) = value_of(s1.fragments, fid);
                let a = crate::change::remove_actors(f.actors, to_remove).unwrap();
                lemma_upsert(s1.fragments, fid, (job, with_actors(f, a)));
                lemma_upsert(s1.registry, (db, fid), with_actors(f, a));
            },
            _ => {},
        }
        assert forall|i: int| 0 <= i < cs.len() && (#[trigger] cs[i]).1 is RemoveFragment implies !has_key(
            s2.fragments,
            cs[i].0,
        ) && !has_key(s2.registry, (db, cs[i].0)) by {
            if i < p.len() {
                assert(p[i] == cs[i]);
                if cs[i].0 != fid {
                    assert(!has_key(s1.fragments, cs[i].0));
                    assert(!has_key(s1.registry, (db, cs[i].0)));
                }
            }
        }
        assert forall|x: FragmentId| #[trigger] unnamed(cs, x) implies {
            &&& has_key(s2.fragments, x) == has_key(s.fragments, x)
            &&& has_key(s2.fragments, x) ==> value_of(s2.fragments, x) == value_of(s.fragments, x)
            &&& has_key(s2.registry, (db, x)) == has_key(s.registry, (db, x))
            &&& has_key(s2.registry, (db, x)) ==> value_of(s2.registry, (db, x)) == value_of(
                s.registry,
                (db, x),
            )
        } by {
            assert(cs[cs.len() - 1].0 != x);
            assert forall|i: int| 0 <= i < p.len() implies (#[trigger] p[i]).0 != x by {
                assert(p[i] == cs[i]);
            }
            assert(unnamed(p, x));
        }
    }
}

/// A bitmap-only reschedule, applied before and then after its barrier, leaves the
/// actor ids and workers of the fragment as they were, registers the fragment as the
/// topology holds it, and publishes exactly one update record, for that fragment.
pub proof fn lemma_bitmap_only_reschedule_round(
    db: DatabaseId,
    strict: bool,
    t: Seq<LocatedView>,
    reg: Seq<RegistryEntry>,
    fid: FragmentId,
    ups: Seq<(ActorId, Seq<bool>)>,
)
    requires
        topology_wf(t),
        unique_keys(reg),
        has_key(t, fid),
        forall|j: int| 0 <= j < ups.len() ==> has_key(value_of(t, fid).1.actors, #[trigger] ups[j].0),
    ensures
        ({
            let cs = seq![
                (
                    fid,
                    ChangeView::Reschedule {
                        new_actors: Seq::empty(),
                        vnode_updates: ups,
                        to_remove: Seq::empty(),
                    },
                ),
            ];
            let r1 = pre_apply_spec(db, strict, t, reg, cs).unwrap();
            let r2 = post_apply_spec(db, r1.fragments, r1.registry, cs);
            let f = value_of(r1.fragments, fid).1;
            &&& r2 is Some
            &&& r2.unwrap().fragments == r1.fragments
            &&& keys_of(r1.fragments) == keys_of(t)
            &&& keys_of(f.actors) == keys_of(value_of(t, fid).1.actors)
            &&& has_key(r2.unwrap().registry, (db, fid))
            &&& value_of(r2.unwrap().registry, (db, fid)) == f
            &&& crate::change::post_batches(r2.unwrap()) == seq![
                (crate::registry::Operation::Update, seq![mapping_of(f)]),
            ]
        }),
{
    let c = ChangeView::Reschedule { new_actors: Seq::empty(), vnode_updates: ups, to_remove: Seq::empty() };
    let cs = seq![(fid, c)];
    assert(cs.drop_last() =~= Seq::<(FragmentId, ChangeView)>::empty());
    lemma_bitmap_only_reschedule(db, strict, t, reg, fid, ups);
    let s0 = start_state(t, reg);
    assert(pre_fold(db, strict, s0, cs.drop_last()) == Some(s0));
    assert(pre_fold(db, strict, s0, cs) == pre_step(db, strict, s0, fid, c));
    let r1 = pre_apply_spec(db, strict, t, reg, cs).unwrap();
    lemma_index_of(t, fid);
    let before = value_of(t, fid).1;
    assert(unique_keys(before.actors)) by {
        assert(t[index_of(t, fid)].1.1 == before);
    }
    lemma_bitmap_updates(before.actors, ups);
    let a1 = apply_bitmaps(before.actors, ups).unwrap();
    let v = (value_of(t, fid).0, with_actors(before, a1));
    lemma_upsert(t, fid, v);
    assert(r1.fragments == upsert(t, fid, v));
    assert(keys_of(r1.fragments) =~= keys_of(t));
    assert(r1 == start_state(r1.fragments, reg));
    let s1 = start_state(r1.fragments, r1.registry);
    assert(post_fold(db, s1, cs.drop_last()) == Some(s1));
    assert(value_of(r1.fragments, fid) == v);
    assert(crate::change::remove_actors(a1, Seq::empty()) == Some(a1));
    assert(with_actors(v.1, a1) == v.1);
    lemma_upsert_same(r1.fragments, fid);
    lemma_upsert(reg, (db, fid), v.1);
    let r2 = post_step(db, s1, fid, c).unwrap();
    assert(post_fold(db, s1, cs) == Some(r2));
    assert(r2.updated =~= seq![mapping_of(v.1)]);
    assert(crate::change::post_batches(r2) =~= seq![
        (crate::registry::Operation::Update, seq![mapping_of(v.1)]),
    ]);
}

/// The registry holds for database `db` exactly the fragments of the topology, each as
/// the topology holds it.
pub open spec fn mirrors(db: DatabaseId, t: Seq<LocatedView>, reg: Seq<RegistryEntry>) -> bool {
    &&& unique_keys(t)
    &&& unique_keys(reg)
    &&& forall|f: FragmentId| #[trigger] has_key(reg, (db, f)) <==> has_key(t, f)
    &&& forall|f: FragmentId| #[trigger] has_key(t, f) ==> value_of(reg, (db, f)) == value_of(t, f).1
}

/// The phase after the barrier keeps the registry mirroring the topology.
pub proof fn lemma_post_keeps_mirror(db: DatabaseId, s: ApplyState, cs: Seq<(FragmentId, ChangeView)>)
    requires
        mirrors(db, s.fragments, s.registry),
        post_fold(db, s, cs) is Some,
    ensures
        mirrors(db, post_fold(db, s, cs).unwrap().fragments, post_fold(db, s, cs).unwrap().registry),
    decreases cs.len(),
{
    if cs.len() > 0 {
        let p = cs.drop_last();
        lemma_post_keeps_mirror(db, s, p);
        let s1 = post_fold(db, s, p).unwrap();
        let s2 = post_fold(db, s, cs).unwrap();
        let (fid, c) = cs.last();
        match c {
            ChangeView::RemoveFragment => {
                lemma_remove_key(s1.fragments, fid);
                lemma_remove_key(s1.registry, (db, fid));
                assert forall|f: FragmentId| #[trigger] has_key(s2.registry, (db, f)) <==> has_key(s2.fragments, f) by {
                    if f != fid {
                        assert(has_key(s1.registry, (db, f)) <==> has_key(s1.fragments, f));
                    }
                }
                assert forall|f: FragmentId| #[trigger] has_key(s2.fragments, f) implies value_of(s2.registry, (db, f))
                    == value_of(s2.fragments, f).1 by {
                    assert(has_key(s1.fragments, f));
                }
            },
            ChangeView::Reschedule { new_actors, vnode_updates, to_remove } => {
                let (job, f) = value_of(s1.fragments, fid);
                let a = crate::change::remove_actors(f.actors, to_remove).unwrap();
                let f2 = with_actors(f, a);
                lemma_upsert(s1.fragments, fid, (job, f2));
                lemma_upsert(s1.registry, (db, fid), f2);
                assert forall|g: FragmentId| #[trigger] has_key(s2.registry, (db, g)) <==> has_key(s2.fragments, g) by {
                    if g != fid {
                        assert(has_key(s1.registry, (db, g)) <==> has_key(s1.fragments, g));
                    }
                }
                assert forall|g: FragmentId| #[trigger] has_key(s2.fragments, g) implies value_of(s2.registry, (db, g))
                    == value_of(s2.fragments, g).1 by {
                    if g != fid {
                        assert(has_key(s1.fragments, g));
                    }
                }
            },
            _ => {},
        }
    }
}

/// Adding and removing fragments before the barrier keeps the registry mirroring the
/// topology: removals wait, and each new fragment is registered as it is added.
pub proof fn lemma_pre_keeps_mirror(
    db: DatabaseId,
    strict: bool,
    s: ApplyState,
    cs: Seq<(FragmentId, ChangeView)>,
)
    requires
        mirrors(db, s.fragments, s.registry),
        forall|i: int| 0 <= i < cs.len() ==> (#[trigger] cs[i]).1 is NewFragment || cs[i].1 is RemoveFragment,
        pre_fold(db, strict, s, cs) is Some,
    ensures
        mirrors(db, pre_fold(db, strict, s, cs).unwrap().fragments, pre_fold(db, strict, s, cs).unwrap().registry),
    decreases cs.len(),
{
    if cs.len() > 0 {
        let p = cs.drop_last();
        assert forall|i: int| 0 <= i < p.len() implies (#[trigger] p[i]).1 is NewFragment || p[i].1 is RemoveFragment by {
            assert(p[i] == cs[i]);
        }
        lemma_pre_keeps_mirror(db, strict, s, p);
        let s1 = pre_fold(db, strict, s, p).unwrap();
        let s2 = pre_fold(db, strict, s, cs).unwrap();
        let (fid, c) = cs.last();
        assert(cs[cs.len() - 1] == (fid, c));
        match c {
            ChangeView::NewFragment(job, f) => {
                lemma_upsert(s1.fragments, fid, (job, f));
                lemma_upsert(s1.registry, (db, fid), f);
                assert(s2.fragments == upsert(s1.fragments, fid, (job, f)));
                assert forall|g: FragmentId| #[trigger] has_key(s2.registry, (db, g)) <==> has_key(s2.fragments, g) by {
                    if g != fid {
                        assert(has_key(s1.registry, (db, g)) <==> has_key(s1.fragments, g));
                    }
                }
                assert forall|g: FragmentId| #[trigger] has_key(s2.fragments, g) implies value_of(s2.registry, (db, g))
                    == value_of(s2.fragments, g).1 by {
                    if g != fid {
                        assert(has_key(s1.fragments, g));
                    }
                }
            },
            _ => {},
        }
    }
}

} // verus!
