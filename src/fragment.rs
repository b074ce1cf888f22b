//! Fragments, their actors and placements, and the records published for them.
use vstd::prelude::*;

use crate::keyed::{
    has_key, index_of, lemma_index_of, lemma_remove_key, lemma_upsert, remove_key, unique_keys, upsert,
    value_of,
};

verus! {

pub type DatabaseId = u32;

pub type TableId = u32;

pub type FragmentId = u32;

pub type ActorId = u32;

pub type WorkerId = u32;

pub type SubscriptionId = u32;

/// Partition-ownership marker of an actor: one flag per virtual node.
#[derive(Clone, Debug)]
pub struct Bitmap {
    pub bits: Vec<bool>,
}

impl View for Bitmap {
    type V = Seq<bool>;

    open spec fn view(&self) -> Seq<bool> {
        self.bits@
    }
}

impl Bitmap {
    pub fn copy(&self) -> (r: Bitmap)
        ensures
            r@ == self@,
    {
        let bits = self.bits.clone();
        assert(bits@ =~= self.bits@);
        Bitmap { bits }
    }
}

pub struct ActorView {
    pub worker_id: WorkerId,
    pub vnode_bitmap: Option<Seq<bool>>,
}

/// One actor of a fragment and where it runs.
#[derive(Clone, Debug)]
pub struct InflightActorInfo {
    pub actor_id: ActorId,
    pub worker_id: WorkerId,
    pub vnode_bitmap: Option<Bitmap>,
}

impl View for InflightActorInfo {
    type V = ActorView;

    open spec fn view(&self) -> ActorView {
        ActorView {
            worker_id: self.worker_id,
            vnode_bitmap: match self.vnode_bitmap {
                Some(b) => Some(b@),
                None => None,
            },
        }
    }
}

impl InflightActorInfo {
    pub fn copy(&self) -> (r: InflightActorInfo)
        ensures
            r.actor_id == self.actor_id,
            r@ == self@,
    {
        let vnode_bitmap = match &self.vnode_bitmap {
            Some(b) => Some(b.copy()),
            None => None,
        };
        InflightActorInfo { actor_id: self.actor_id, worker_id: self.worker_id, vnode_bitmap }
    }
}

/// The actors of a fragment as (actor id, placement) pairs.
pub open spec fn actor_entries(s: Seq<InflightActorInfo>) -> Seq<(ActorId, ActorView)> {
    s.map_values(|a: InflightActorInfo| (a.actor_id, a@))
}

pub struct FragmentView {
    pub fragment_id: FragmentId,
    pub actors: Seq<(ActorId, ActorView)>,
    pub state_table_ids: Seq<TableId>,
    pub upstream_fragment_ids: Seq<FragmentId>,
}

/// One fragment: its actors, the state tables it writes and, for each merge node
/// of its dataflow subtree in visiting order, the upstream fragment it reads from.
#[derive(Clone, Debug)]
pub struct InflightFragmentInfo {
    pub fragment_id: FragmentId,
    pub actors: Vec<InflightActorInfo>,
    pub state_table_ids: Vec<TableId>,
    pub upstream_fragment_ids: Vec<FragmentId>,
}

impl View for InflightFragmentInfo {
    type V = FragmentView;

    open spec fn view(&self) -> FragmentView {
        FragmentView {
            fragment_id: self.fragment_id,
            actors: actor_entries(self.actors@),
            state_table_ids: self.state_table_ids@,
            upstream_fragment_ids: self.upstream_fragment_ids@,
        }
    }
}

/// The placement record published for a fragment: each actor with its worker.
pub open spec fn mapping_of(f: FragmentView) -> (FragmentId, Seq<(ActorId, WorkerId)>) {
    (f.fragment_id, f.actors.map_values(|p: (ActorId, ActorView)| (p.0, p.1.worker_id)))
}

/// Whether some actor of `f` runs on `w`.
pub open spec fn fragment_on_worker(f: FragmentView, w: WorkerId) -> bool {
    exists|j: int| 0 <= j < f.actors.len() && f.actors[j].1.worker_id == w
}

impl InflightFragmentInfo {
    /// Actor ids are unique within the fragment.
    pub open spec fn wf(&self) -> bool {
        unique_keys(self@.actors)
    }

    pub fn copy(&self) -> (r: InflightFragmentInfo)
        ensures
            r@ == self@,
    {
        let mut actors: Vec<InflightActorInfo> = Vec::new();
        let mut i: usize = 0;
        while i < self.actors.len()
            invariant
                i <= self.actors.len(),
                actor_entries(actors@) == actor_entries(self.actors@).take(i as int),
            decreases self.actors.len() - i,
        {
            let ghost before = actors@;
            let a = self.actors[i].copy();
            actors.push(a);
            assert(actor_entries(actors@) =~= actor_entries(before).push((a.actor_id, a@)));
            i = i + 1;
            assert(actor_entries(actors@) =~= actor_entries(self.actors@).take(i as int));
        }
        assert(actor_entries(self.actors@).take(i as int) =~= actor_entries(self.actors@));
        let state_table_ids = self.state_table_ids.clone();
        assert(state_table_ids@ =~= self.state_table_ids@);
        let upstream_fragment_ids = self.upstream_fragment_ids.clone();
        assert(upstream_fragment_ids@ =~= self.upstream_fragment_ids@);
        InflightFragmentInfo {
            fragment_id: self.fragment_id,
            actors,
            state_table_ids,
            upstream_fragment_ids,
        }
    }

    /// Position of the actor `actor_id`, if the fragment has it.
    pub fn find_actor(&self, actor_id: ActorId) -> (r: Option<usize>)
        ensures
            match r {
                Some(i) => i < self.actors.len() && index_of(self@.actors, actor_id) == i
                    && has_key(self@.actors, actor_id),
                None => !has_key(self@.actors, actor_id),
            },
    {
        let ghost s = self@.actors;
        proof {
            lemma_index_of(s, actor_id);
        }
        let mut i: usize = self.actors.len();
        while i > 0
            invariant
                i <= self.actors.len(),
                s == self@.actors,
                index_of(s, actor_id) < i,
            decreases i,
        {
            i = i - 1;
            if self.actors[i].actor_id == actor_id {
                proof {
                    lemma_last_index_of(s, actor_id, i as int);
                }
                return Some(i);
            }
            proof {
                lemma_not_at_index(s, actor_id, i as int);
            }
        }
        None
    }
}

/// The last pair with key `k` stands at `i` when it stands there and no later pair has `k`.
pub proof fn lemma_last_index_of<K, V>(s: Seq<(K, V)>, k: K, i: int)
    requires
        0 <= i < s.len(),
        s[i].0 == k,
        index_of(s, k) <= i,
    ensures
        index_of(s, k) == i,
        has_key(s, k),
{
    lemma_index_of(s, k);
    assert(has_key(s, k));
    lemma_index_after(s, k, i);
}

/// `index_of` is at least every position that holds the key.
pub proof fn lemma_index_after<K, V>(s: Seq<(K, V)>, k: K, i: int)
    requires
        0 <= i < s.len(),
        s[i].0 == k,
    ensures
        index_of(s, k) >= i,
    decreases s.len(),
{
    if s.last().0 != k {
        lemma_index_after(s.drop_last(), k, i);
    }
}

/// A position that does not hold the key is not where `index_of` points.
pub proof fn lemma_not_at_index<K, V>(s: Seq<(K, V)>, k: K, i: int)
    requires
        0 <= i < s.len(),
        s[i].0 != k,
        index_of(s, k) <= i,
    ensures
        index_of(s, k) < i,
{
    lemma_index_of(s, k);
}

/// The placement record published for one fragment.
#[derive(Clone, Debug)]
pub struct FragmentMapping {
    pub fragment_id: FragmentId,
    pub actor_workers: Vec<(ActorId, WorkerId)>,
}

impl View for FragmentMapping {
    type V = (FragmentId, Seq<(ActorId, WorkerId)>);

    open spec fn view(&self) -> (FragmentId, Seq<(ActorId, WorkerId)>) {
        (self.fragment_id, self.actor_workers@)
    }
}

/// Builds the placement record of a fragment: each actor with the worker it runs on.
pub fn rebuild_fragment_mapping(info: &InflightFragmentInfo) -> (r: FragmentMapping)
    ensures
        r@ == mapping_of(info@),
{
    let mut actor_workers: Vec<(ActorId, WorkerId)> = Vec::new();
    let mut i: usize = 0;
    while i < info.actors.len()
        invariant
            i <= info.actors.len(),
            actor_workers@ == mapping_of(info@).1.take(i as int),
        decreases info.actors.len() - i,
    {
        actor_workers.push((info.actors[i].actor_id, info.actors[i].worker_id));
        i = i + 1;
        assert(actor_workers@ =~= mapping_of(info@).1.take(i as int));
    }
    assert(mapping_of(info@).1.take(i as int) =~= mapping_of(info@).1);
    FragmentMapping { fragment_id: info.fragment_id, actor_workers }
}

/// Whether `t` is a state table of one of the first `i` fragments, or among the first
/// `j` state tables of fragment `i`.
pub open spec fn table_seen(fs: Seq<FragmentView>, i: int, j: int, t: TableId) -> bool {
    (exists|k: int, l: int|
        0 <= k < i && 0 <= l < fs[k].state_table_ids.len() && #[trigger] fs[k].state_table_ids[l] == t)
    || (exists|l: int| 0 <= l < j && #[trigger] fs[i].state_table_ids[l] == t)
}

/// The state table ids of the given fragments, as a set.
pub open spec fn table_id_set(fs: Seq<FragmentView>) -> Set<TableId> {
    Set::new(
        |t: TableId|
            exists|k: int, l: int|
                0 <= k < fs.len() && 0 <= l < fs[k].state_table_ids.len()
                    && #[trigger] fs[k].state_table_ids[l] == t,
    )
}

/// Whether some actor of some fragment runs on `w`.
pub open spec fn fragments_on_worker(fs: Seq<FragmentView>, w: WorkerId) -> bool {
    exists|i: int| 0 <= i < fs.len() && fragment_on_worker(#[trigger] fs[i], w)
}

/// Every worker that runs an actor of some fragment.
pub open spec fn workers_of(fs: Seq<FragmentView>) -> Set<WorkerId> {
    Set::new(|w: WorkerId| fragments_on_worker(fs, w))
}

/// The views of a list of fragments.
pub open spec fn views_of(infos: Seq<InflightFragmentInfo>) -> Seq<FragmentView> {
    infos.map_values(|f: InflightFragmentInfo| f@)
}

impl InflightFragmentInfo {
    /// The distinct state table ids of the given fragments.
    pub fn existing_table_ids(infos: &Vec<InflightFragmentInfo>) -> (r: Vec<TableId>)
        ensures
            r@.no_duplicates(),
            r@.to_set() == table_id_set(views_of(infos@)),
    {
        let ghost fs = views_of(infos@);
        let mut r: Vec<TableId> = Vec::new();
        let mut i: usize = 0;
        while i < infos.len()
            invariant
                i <= infos.len(),
                fs == views_of(infos@),
                r@.no_duplicates(),
                forall|t: TableId| r@.contains(t) <==> table_seen(fs, i as int, 0, t),
            decreases infos.len() - i,
        {
            let ids = &infos[i].state_table_ids;
            assert(fs[i as int].state_table_ids == ids@);
            let mut j: usize = 0;
            while j < ids.len()
                invariant
                    i < infos.len(),
                    j <= ids.len(),
                    fs == views_of(infos@),
                    fs[i as int].state_table_ids == ids@,
                    r@.no_duplicates(),
                    forall|t: TableId| r@.contains(t) <==> table_seen(fs, i as int, j as int, t),
                decreases ids.len() - j,
            {
                let t = ids[j];
                let ghost before = r@;
                let mut found = false;
                let mut k: usize = 0;
                while k < r.len()
                    invariant
                        k <= r.len(),
                        found <==> exists|m: int| 0 <= m < k && r@[m] == t,
                    decreases r.len() - k,
                {
                    if r[k] == t {
                        found = true;
                    }
                    k = k + 1;
                }
                if !found {
                    r.push(t);
                }
                proof {
                    assert forall|x: TableId| r@.contains(x) <==> table_seen(fs, i as int, j + 1, x) by {
                        if x == t {
                            assert(fs[i as int].state_table_ids[j as int] == x);
                            if found {
                                let m = choose|m: int| 0 <= m < k && r@[m] == t;
                                assert(r@.contains(x));
                            } else {
                                assert(r@[r@.len() - 1] == x);
                            }
                        }
                        if !found {
                            if before.contains(x) {
                                let m = choose|m: int| 0 <= m < before.len() && before[m] == x;
                                assert(r@[m] == x);
                            }
                            if r@.contains(x) && x != t {
                                let m = choose|m: int| 0 <= m < r@.len() && r@[m] == x;
                                assert(before[m] == x);
                            }
                        }
                        if table_seen(fs, i as int, j + 1, x) && x != t {
                            if exists|l: int| 0 <= l < j + 1 && #[trigger] fs[i as int].state_table_ids[l] == x {
                                let l = choose|l: int| 0 <= l < j + 1 && #[trigger] fs[i as int].state_table_ids[l] == x;
                                assert(l < j);
                            }
                        }
                    }
                }
                j = j + 1;
            }
            proof {
                assert forall|x: TableId| table_seen(fs, i as int, j as int, x) == table_seen(fs, i + 1, 0, x) by {
                    if table_seen(fs, i + 1, 0, x) {
                        let (k, l) = choose|k: int, l: int|
                            0 <= k < i + 1 && 0 <= l < fs[k].state_table_ids.len() && #[trigger] fs[k].state_table_ids[l] == x;
                        if k == i {
                            assert(fs[i as int].state_table_ids[l] == x);
                        }
                    }
                    if exists|l: int| 0 <= l < j && #[trigger] fs[i as int].state_table_ids[l] == x {
                        let l = choose|l: int| 0 <= l < j && #[trigger] fs[i as int].state_table_ids[l] == x;
                        assert(fs[i as int].state_table_ids[l] == x);
                    }
                }
            }
            i = i + 1;
        }
        proof {
            assert forall|x: TableId| r@.to_set().contains(x) <==> table_id_set(fs).contains(x) by {
                if table_id_set(fs).contains(x) {
                    let (k, l) = choose|k: int, l: int|
                        0 <= k < fs.len() && 0 <= l < fs[k].state_table_ids.len() && #[trigger] fs[k].state_table_ids[l] == x;
                    assert(table_seen(fs, i as int, 0, x));
                }
            }
            assert(r@.to_set() =~= table_id_set(fs));
        }
        r
    }

    /// Whether some actor of the given fragments runs on `worker_id`.
    pub fn contains_worker(infos: &Vec<InflightFragmentInfo>, worker_id: WorkerId) -> (r: bool)
        ensures
            r == fragments_on_worker(views_of(infos@), worker_id),
    {
        let ghost fs = views_of(infos@);
        let mut i: usize = 0;
        while i < infos.len()
            invariant
                i <= infos.len(),
                fs == views_of(infos@),
                forall|k: int| 0 <= k < i ==> !fragment_on_worker(#[trigger] fs[k], worker_id),
            decreases infos.len() - i,
        {
            let actors = &infos[i].actors;
            let mut j: usize = 0;
            while j < actors.len()
                invariant
                    i < infos.len(),
                    j <= actors.len(),
                    actors == &infos[i as int].actors,
                    fs == views_of(infos@),
                    forall|l: int| 0 <= l < j ==> fs[i as int].actors[l].1.worker_id != worker_id,
                decreases actors.len() - j,
            {
                if actors[j].worker_id == worker_id {
                    assert(fs[i as int].actors[j as int].1.worker_id == worker_id);
                    assert(fragment_on_worker(fs[i as int], worker_id));
                    return true;
                }
                j = j + 1;
            }
            i = i + 1;
        }
        false
    }

    /// The workers that run some actor of the given fragments, each once.
    pub fn workers(infos: &Vec<InflightFragmentInfo>) -> (r: Vec<WorkerId>)
        ensures
            r@.to_set() == workers_of(views_of(infos@)),
            r@.no_duplicates(),
    {
        let ghost fs = views_of(infos@);
        let mut r: Vec<WorkerId> = Vec::new();
        let mut i: usize = 0;
        while i < infos.len()
            invariant
                i <= infos.len(),
                fs == views_of(infos@),
                r@.no_duplicates(),
                forall|w: WorkerId| r@.contains(w) <==> fragments_on_worker(fs.take(i as int), w),
            decreases infos.len() - i,
        {
            let actors = &infos[i].actors;
            let mut j: usize = 0;
            while j < actors.len()
                invariant
                    i < infos.len(),
                    j <= actors.len(),
                    actors == &infos[i as int].actors,
                    fs == views_of(infos@),
                    r@.no_duplicates(),
                    forall|w: WorkerId|
                        r@.contains(w) <==> (fragments_on_worker(fs.take(i as int), w) || exists|
                            l: int,
                        |
                            0 <= l < j && fs[i as int].actors[l].1.worker_id == w),
                decreases actors.len() - j,
            {
                let w = actors[j].worker_id;
                let ghost before = r@;
                assert(fs[i as int].actors[j as int].1.worker_id == w);
                let mut found = false;
                let mut k: usize = 0;
                while k < r.len()
                    invariant
                        k <= r.len(),
                        found <==> exists|m: int| 0 <= m < k && r@[m] == w,
                    decreases r.len() - k,
                {
                    if r[k] == w {
                        found = true;
                    }
                    k = k + 1;
                }
                if !found {
                    r.push(w);
                }
                proof {
                    assert forall|x: WorkerId|
                        r@.contains(x) <==> (fragments_on_worker(fs.take(i as int), x) || exists|
                            l: int,
                        |
                            0 <= l < j + 1 && fs[i as int].actors[l].1.worker_id == x) by {
                        if !found {
                            assert(r@ == before.push(w));
                            if before.contains(x) {
                                let m = choose|m: int| 0 <= m < before.len() && before[m] == x;
                                assert(r@[m] == x);
                            }
                            if r@.contains(x) && x != w {
                                let m = choose|m: int| 0 <= m < r@.len() && r@[m] == x;
                                assert(before[m] == x);
                            }
                        }
                        if x == w {
                            assert(fs[i as int].actors[j as int].1.worker_id == x);
                            if found {
                                let m = choose|m: int| 0 <= m < k && r@[m] == w;
                                assert(r@.contains(x));
                            } else {
                                assert(r@[r@.len() - 1] == x);
                            }
                        }
                    }
                }
                j = j + 1;
            }
            proof {
                assert forall|x: WorkerId|
                    r@.contains(x) <==> fragments_on_worker(fs.take(i + 1), x) by {
                    if fragments_on_worker(fs.take(i + 1), x) {
                        let k = choose|k: int|
                            0 <= k < i + 1 && fragment_on_worker(#[trigger] fs.take(i + 1)[k], x);
                        if k < i {
                            assert(fs.take(i as int)[k] == fs.take(i + 1)[k]);
                        }
                    }
                    if fragments_on_worker(fs.take(i as int), x) {
                        let k = choose|k: int|
                            0 <= k < i && fragment_on_worker(#[trigger] fs.take(i as int)[k], x);
                        assert(fs.take(i + 1)[k] == fs.take(i as int)[k]);
                    }
                    if exists|l: int| 0 <= l < j && fs[i as int].actors[l].1.worker_id == x {
                        assert(fs.take(i + 1)[i as int] == fs[i as int]);
                        assert(fragment_on_worker(fs.take(i + 1)[i as int], x));
                    }
                }
            }
            i = i + 1;
        }
        proof {
            assert(fs.take(i as int) =~= fs);
            assert(r@.to_set() =~= workers_of(fs));
        }
        r
    }
}

impl InflightFragmentInfo {
    /// Gives an existing actor a new partition bitmap; false when the fragment has no
    /// such actor, and then nothing changes.
    pub fn set_vnode_bitmap(&mut self, actor_id: ActorId, bitmap: Bitmap) -> (ok: bool)
        requires
            old(self).wf(),
        ensures
            final(self).wf(),
            ok == has_key(old(self)@.actors, actor_id),
            ok ==> final(self)@ == (FragmentView {
                actors: upsert(
                    old(self)@.actors,
                    actor_id,
                    ActorView {
                        vnode_bitmap: Some(bitmap@),
                        ..value_of(old(self)@.actors, actor_id)
                    },
                ),
                ..old(self)@
            }),
            !ok ==> final(self)@ == old(self)@,
    {
        match self.find_actor(actor_id) {
            None => false,
            Some(i) => {
                let ghost s = self@.actors;
                let ghost v = ActorView { vnode_bitmap: Some(bitmap@), ..value_of(s, actor_id) };
                let worker_id = self.actors[i].worker_id;
                self.actors.set(
                    i,
                    InflightActorInfo { actor_id, worker_id, vnode_bitmap: Some(bitmap) },
                );
                proof {
                    lemma_upsert(s, actor_id, v);
                    assert(self@.actors =~= upsert(s, actor_id, v));
                }
                true
            },
        }
    }

    /// Adds an actor; false when the fragment has one with that id, and then nothing
    /// changes.
    pub fn add_actor(&mut self, actor: InflightActorInfo) -> (ok: bool)
        requires
            old(self).wf(),
        ensures
            final(self).wf(),
            ok == !has_key(old(self)@.actors, actor.actor_id),
            ok ==> final(self)@ == (FragmentView {
                actors: old(self)@.actors.push((actor.actor_id, actor@)),
                ..old(self)@
            }),
            !ok ==> final(self)@ == old(self)@,
    {
        match self.find_actor(actor.actor_id) {
            Some(_) => false,
            None => {
                let ghost s = self@.actors;
                let ghost e = (actor.actor_id, actor@);
                self.actors.push(actor);
                proof {
                    lemma_upsert(s, e.0, e.1);
                    assert(self@.actors =~= s.push(e));
                }
                true
            },
        }
    }

    /// Removes an actor; false when the fragment has none with that id, and then
    /// nothing changes.
    pub fn remove_actor(&mut self, actor_id: ActorId) -> (ok: bool)
        requires
            old(self).wf(),
        ensures
            final(self).wf(),
            ok == has_key(old(self)@.actors, actor_id),
            ok ==> final(self)@ == (FragmentView {
                actors: remove_key(old(self)@.actors, actor_id),
                ..old(self)@
            }),
            !ok ==> final(self)@ == old(self)@,
    {
        match self.find_actor(actor_id) {
            None => false,
            Some(i) => {
                let ghost s = self@.actors;
                self.actors.remove(i);
                proof {
                    lemma_remove_key(s, actor_id);
                    assert(self@.actors =~= remove_key(s, actor_id));
                }
                true
            },
        }
    }
}

/// Each actor of the given fragments with its worker, fragment by fragment.
pub open spec fn actor_worker_pairs(fs: Seq<FragmentView>) -> Seq<(ActorId, WorkerId)> {
    fs.map_values(|f: FragmentView| mapping_of(f).1).flatten()
}

/// Actors grouped by worker: each worker once, each with its actors.
pub open spec fn groups_actors(g: Seq<(WorkerId, Seq<ActorId>)>, pairs: Seq<(ActorId, WorkerId)>) -> bool {
    &&& unique_keys(g)
    &&& forall|i: int| 0 <= i < g.len() ==> (#[trigger] g[i]).1.no_duplicates()
    &&& forall|a: ActorId, w: WorkerId|
        #![trigger pairs.contains((a, w))]
        (has_key(g, w) && value_of(g, w).contains(a)) <==> pairs.contains((a, w))
    &&& forall|w: WorkerId| #![trigger has_key(g, w)] has_key(g, w) ==> exists|a: ActorId| pairs.contains((a, w))
}

pub open spec fn group_views(g: Seq<(WorkerId, Vec<ActorId>)>) -> Seq<(WorkerId, Seq<ActorId>)> {
    g.map_values(|p: (WorkerId, Vec<ActorId>)| (p.0, p.1@))
}

fn find_worker(g: &Vec<(WorkerId, Vec<ActorId>)>, w: WorkerId) -> (r: Option<usize>)
    ensures
        match r {
            Some(i) => i < g@.len() && index_of(group_views(g@), w) == i && has_key(group_views(g@), w),
            None => !has_key(group_views(g@), w),
        },
{
    let ghost s = group_views(g@);
    proof {
        lemma_index_of(s, w);
    }
    let mut i: usize = g.len();
    while i > 0
        invariant
            i <= g.len(),
            s == group_views(g@),
            index_of(s, w) < i,
        decreases i,
    {
        i = i - 1;
        if g[i].0 == w {
            proof {
                lemma_last_index_of(s, w, i as int);
            }
            return Some(i);
        }
        proof {
            lemma_not_at_index(s, w, i as int);
        }
    }
    None
}

impl InflightFragmentInfo {
    /// The actors of the given fragments, grouped by the worker they run on. No actor
    /// id may occur twice among the fragments.
    pub fn actor_ids_to_collect(infos: &Vec<InflightFragmentInfo>) -> (r: Vec<(WorkerId, Vec<ActorId>)>)
        requires
            unique_keys(actor_worker_pairs(views_of(infos@))),
        ensures
            groups_actors(group_views(r@), actor_worker_pairs(views_of(infos@))),
    {
        let ghost fs = views_of(infos@);
        let ghost g = fs.map_values(|f: FragmentView| mapping_of(f).1);
        let mut pairs: Vec<(ActorId, WorkerId)> = Vec::new();
        let mut i: usize = 0;
        while i < infos.len()
            invariant
                i <= infos.len(),
                fs == views_of(infos@),
                g == fs.map_values(|f: FragmentView| mapping_of(f).1),
                pairs@ == g.take(i as int).flatten(),
            decreases infos.len() - i,
        {
            let m = rebuild_fragment_mapping(&infos[i]);
            let ghost before = pairs@;
            let mut j: usize = 0;
            while j < m.actor_workers.len()
                invariant
                    j <= m.actor_workers.len(),
                    i < infos.len(),
                    m.actor_workers@ == g[i as int],
                    pairs@ == before + m.actor_workers@.take(j as int),
                decreases m.actor_workers.len() - j,
            {
                pairs.push(m.actor_workers[j]);
                j = j + 1;
                assert(pairs@ =~= before + m.actor_workers@.take(j as int));
            }
            proof {
                g.take(i as int).lemma_flatten_push(g[i as int]);
                assert(g.take(i + 1) =~= g.take(i as int).push(g[i as int]));
                assert(m.actor_workers@.take(j as int) =~= g[i as int]);
            }
            i = i + 1;
        }
        assert(g.take(i as int) =~= g);
        let ghost ps = pairs@;
        let mut r: Vec<(WorkerId, Vec<ActorId>)> = Vec::new();
        proof {
            assert(group_views(r@) =~= Seq::<(WorkerId, Seq<ActorId>)>::empty());
            assert(ps.take(0) =~= Seq::<(ActorId, WorkerId)>::empty());
        }
        let mut k: usize = 0;
        while k < pairs.len()
            invariant
                k <= pairs.len(),
                ps == pairs@,
                unique_keys(ps),
                groups_actors(group_views(r@), ps.take(k as int)),
            decreases pairs.len() - k,
        {
            let (a, w) = pairs[k];
            let ghost gv = group_views(r@);
            let ghost done = ps.take(k as int);
            let ghost next = ps.take(k + 1);
            assert(next =~= done.push((a, w)));
            assert(!done.contains((a, w))) by {
                if done.contains((a, w)) {
                    let x = choose|x: int| 0 <= x < done.len() && done[x] == (a, w);
                    assert(ps[x].0 == ps[k as int].0);
                }
            }
            assert forall|w2: WorkerId| has_key(gv, w2) implies !value_of(gv, w2).contains(a) by {
                if value_of(gv, w2).contains(a) {
                    assert(done.contains((a, w2)));
                    let x = choose|x: int| 0 <= x < done.len() && done[x] == (a, w2);
                    assert(ps[x].0 == ps[k as int].0);
                }
            }
            let ghost nb: Seq<ActorId>;
            match find_worker(&r, w) {
                Some(p) => {
                    let (_, mut bucket) = r.remove(p);
                    proof {
                        lemma_index_of(gv, w);
                    }
                    assert(bucket@ == value_of(gv, w));
                    bucket.push(a);
                    proof {
                        nb = bucket@;
                    }
                    r.insert(p, (w, bucket));
                    assert(group_views(r@) =~= gv.update(p as int, (w, nb)));
                },
                None => {
                    let mut bucket: Vec<ActorId> = Vec::new();
                    bucket.push(a);
                    proof {
                        nb = bucket@;
                    }
                    r.push((w, bucket));
                    assert(group_views(r@) =~= gv.push((w, nb)));
                },
            }
            proof {
                lemma_upsert(gv, w, nb);
                let n = group_views(r@);
                assert(n == crate::keyed::upsert(gv, w, nb));
                assert(nb =~= (if has_key(gv, w) { value_of(gv, w) } else { Seq::empty() }).push(a));
                assert forall|x: int| 0 <= x < n.len() implies (#[trigger] n[x]).1.no_duplicates() by {
                    if n[x].0 != w {
                        lemma_index_of(n, n[x].0);
                        lemma_index_of(gv, n[x].0);
                        crate::keyed::lemma_index_of_unique(n, x);
                        crate::keyed::lemma_index_of_unique(gv, index_of(gv, n[x].0));
                    } else {
                        crate::keyed::lemma_index_of_unique(n, x);
                        if has_key(gv, w) {
                            lemma_index_of(gv, w);
                            crate::keyed::lemma_index_of_unique(gv, index_of(gv, w));
                        }
                    }
                }
                assert forall|a2: ActorId, w2: WorkerId|
                    #![trigger next.contains((a2, w2))]
                    (has_key(n, w2) && value_of(n, w2).contains(a2)) <==> next.contains((a2, w2)) by {
                    if next.contains((a2, w2)) {
                        let x = choose|x: int| 0 <= x < next.len() && next[x] == (a2, w2);
                        if x < done.len() {
                            assert(done[x] == (a2, w2));
                            assert(done.contains((a2, w2)));
                        }
                    }
                    if done.contains((a2, w2)) {
                        let x = choose|x: int| 0 <= x < done.len() && done[x] == (a2, w2);
                        assert(next[x] == (a2, w2));
                    }
                    if w2 == w && value_of(n, w2).contains(a2) && a2 != a {
                        let y = choose|y: int| 0 <= y < nb.len() && nb[y] == a2;
                        assert(value_of(gv, w).contains(a2));
                    }
                    if w2 == w && has_key(gv, w) && value_of(gv, w).contains(a2) {
                        let y = choose|y: int| 0 <= y < value_of(gv, w).len() && value_of(gv, w)[y] == a2;
                        assert(nb[y] == a2);
                    }
                    if w2 == w {
                        assert(nb[nb.len() - 1] == a);
                    }
                    assert(next[next.len() - 1] == (a, w));
                }
                assert forall|w2: WorkerId| #![trigger has_key(n, w2)] has_key(n, w2) implies exists|a2: ActorId| next.contains((a2, w2)) by {
                    if w2 == w {
                        assert(next[next.len() - 1] == (a, w));
                        assert(next.contains((a, w)));
                    } else {
                        assert(has_key(gv, w2));
                        let a2 = choose|a2: ActorId| done.contains((a2, w2));
                        let x = choose|x: int| 0 <= x < done.len() && done[x] == (a2, w2);
                        assert(next[x] == (a2, w2));
                        assert(next.contains((a2, w2)));
                    }
                }
            }
            k = k + 1;
        }
        assert(ps.take(k as int) =~= ps);
        r
    }
}

} // verus!
