//! Which materialized views have live subscriptions, and for how long each
//! subscription retains data.
use vstd::prelude::*;

use crate::command::Command;
use crate::fragment::{lemma_last_index_of, lemma_not_at_index, SubscriptionId, TableId};
use crate::keyed::{
    has_key, index_of, lemma_index_of, lemma_remove_key, lemma_upsert, remove_key, unique_keys,
    upsert, value_of,
};

verus! {

pub type Bucket = Seq<(SubscriptionId, u64)>;

/// Subscriptions, by the materialized view they read: subscription id to retention
/// seconds.
#[derive(Clone, Debug)]
pub struct InflightSubscriptionInfo {
    pub mv_depended_subscriptions: Vec<(TableId, Vec<(SubscriptionId, u64)>)>,
}

pub open spec fn buckets(s: Seq<(TableId, Vec<(SubscriptionId, u64)>)>) -> Seq<(TableId, Bucket)> {
    s.map_values(|p: (TableId, Vec<(SubscriptionId, u64)>)| (p.0, p.1@))
}

/// The subscriptions of a table, empty when it has none.
pub open spec fn bucket_of(s: Seq<(TableId, Bucket)>, t: TableId) -> Bucket {
    if has_key(s, t) {
        value_of(s, t)
    } else {
        Seq::empty()
    }
}

/// Recording a subscription.
pub open spec fn subscribe(s: Seq<(TableId, Bucket)>, t: TableId, id: SubscriptionId, ret: u64) -> Seq<
    (TableId, Bucket),
> {
    upsert(s, t, upsert(bucket_of(s, t), id, ret))
}

/// Dropping a subscription; a table goes with its last subscription.
pub open spec fn unsubscribe(s: Seq<(TableId, Bucket)>, t: TableId, id: SubscriptionId) -> Seq<
    (TableId, Bucket),
> {
    if has_key(bucket_of(s, t), id) {
        let b = remove_key(bucket_of(s, t), id);
        if b.len() == 0 {
            remove_key(s, t)
        } else {
            upsert(s, t, b)
        }
    } else {
        s
    }
}

/// Each subscription with the table it reads, table by table.
pub open spec fn upstream_pairs(s: Seq<(TableId, Bucket)>) -> Seq<(SubscriptionId, TableId)> {
    s.map_values(
        |p: (TableId, Bucket)| p.1.map_values(|q: (SubscriptionId, u64)| (q.0, p.0)),
    ).flatten()
}

impl InflightSubscriptionInfo {
    pub open spec fn view_buckets(&self) -> Seq<(TableId, Bucket)> {
        buckets(self.mv_depended_subscriptions@)
    }

    /// Table ids are unique, subscription ids are unique within a table, and no table
    /// is listed without a subscription.
    pub open spec fn wf(&self) -> bool {
        let s = self.view_buckets();
        &&& unique_keys(s)
        &&& forall|i: int| 0 <= i < s.len() ==> unique_keys(#[trigger] s[i].1) && s[i].1.len() > 0
    }

    pub fn new() -> (r: Self)
        ensures
            r.view_buckets() == Seq::<(TableId, Bucket)>::empty(),
            r.wf(),
    {
        let r = InflightSubscriptionInfo { mv_depended_subscriptions: Vec::new() };
        assert(r.view_buckets() =~= Seq::<(TableId, Bucket)>::empty());
        r
    }

    fn find_table(&self, t: TableId) -> (r: Option<usize>)
        ensures
            match r {
                Some(i) => i < self.view_buckets().len() && index_of(self.view_buckets(), t) == i
                    && has_key(self.view_buckets(), t),
                None => !has_key(self.view_buckets(), t),
            },
    {
        let ghost s = self.view_buckets();
        proof {
            lemma_index_of(s, t);
        }
        let mut i: usize = self.mv_depended_subscriptions.len();
        while i > 0
            invariant
                i <= self.mv_depended_subscriptions.len(),
                s == self.view_buckets(),
                index_of(s, t) < i,
            decreases i,
        {
            i = i - 1;
            if self.mv_depended_subscriptions[i].0 == t {
                proof {
                    lemma_last_index_of(s, t, i as int);
                }
                return Some(i);
            }
            proof {
                lemma_not_at_index(s, t, i as int);
            }
        }
        None
    }

    /// On a subscription-creation command, records the subscription with its retention;
    /// returns the retention it replaces when it was recorded already.
    pub fn pre_apply(&mut self, command: &Command) -> (r: Option<u64>)
        requires
            old(self).wf(),
        ensures
            final(self).wf(),
            match command {
                Command::CreateSubscription {
                    subscription_id,
                    upstream_mv_table_id,
                    retention_second,
                } => {
                    let b = bucket_of(old(self).view_buckets(), *upstream_mv_table_id);
                    &&& final(self).view_buckets() == subscribe(
                        old(self).view_buckets(),
                        *upstream_mv_table_id,
                        *subscription_id,
                        *retention_second,
                    )
                    &&& r == if has_key(b, *subscription_id) {
                        Some(value_of(b, *subscription_id))
                    } else {
                        None::<u64>
                    }
                },
                _ => final(self).view_buckets() == old(self).view_buckets() && r is None,
            },
    {
        match command {
            Command::CreateSubscription {
                subscription_id,
                upstream_mv_table_id,
                retention_second,
            } => {
                let ghost s = self.view_buckets();
                let sid = *subscription_id;
                let ret = *retention_second;
                let (mut bucket, pos) = match self.find_table(*upstream_mv_table_id) {
                    Some(i) => {
                        let (_, b) = self.mv_depended_subscriptions.remove(i);
                        (b, i)
                    },
                    None => (Vec::new(), self.mv_depended_subscriptions.len()),
                };
                let ghost b0 = bucket@;
                assert(b0 =~= bucket_of(s, *upstream_mv_table_id));
                let prev = set_retention(&mut bucket, sid, ret);
                let ghost b1 = bucket@;
                self.mv_depended_subscriptions.insert(pos, (*upstream_mv_table_id, bucket));
                proof {
                    lemma_upsert(s, *upstream_mv_table_id, b1);
                    assert(self.view_buckets() =~= upsert(s, *upstream_mv_table_id, b1));
                    let n = self.view_buckets();
                    assert forall|i: int| 0 <= i < n.len() implies unique_keys(#[trigger] n[i].1)
                        && n[i].1.len() > 0 by {
                        if i != pos {
                            assert(n[i] == s[i]);
                        }
                    }
                }
                prev
            },
            _ => None,
        }
    }

    /// On a subscription-drop command, removes the subscription, and the table when
    /// it was its last one; returns false when there was no such subscription.
    pub fn post_apply(&mut self, command: &Command) -> (removed: bool)
        requires
            old(self).wf(),
        ensures
            final(self).wf(),
            match command {
                Command::DropSubscription { subscription_id, upstream_mv_table_id } => {
                    &&& final(self).view_buckets() == unsubscribe(
                        old(self).view_buckets(),
                        *upstream_mv_table_id,
                        *subscription_id,
                    )
                    &&& removed == has_key(
                        bucket_of(old(self).view_buckets(), *upstream_mv_table_id),
                        *subscription_id,
                    )
                },
                _ => final(self).view_buckets() == old(self).view_buckets() && !removed,
            },
    {
        match command {
            Command::DropSubscription { subscription_id, upstream_mv_table_id } => {
                let ghost s = self.view_buckets();
                let t = *upstream_mv_table_id;
                let sid = *subscription_id;
                let i = match self.find_table(t) {
                    None => {
                        assert(bucket_of(s, t) =~= Seq::<(SubscriptionId, u64)>::empty());
                        return false;
                    },
                    Some(i) => i,
                };
                proof {
                    lemma_index_of(s, t);
                }
                let (_, mut bucket) = self.mv_depended_subscriptions.remove(i);
                let ghost b0 = bucket@;
                assert(b0 == bucket_of(s, t));
                assert(unique_keys(b0)) by {
                    assert(s[i as int].1 == b0);
                }
                let removed = remove_subscription(&mut bucket, sid);
                if !removed {
                    assert(bucket@ == b0);
                    assert(s[i as int] == (t, b0));
                    self.mv_depended_subscriptions.insert(i, (t, bucket));
                    assert(self.view_buckets() =~= s);
                    return false;
                }
                if bucket.len() == 0 {
                    proof {
                        lemma_remove_key(s, t);
                        assert(self.view_buckets() =~= remove_key(s, t));
                        let n = self.view_buckets();
                        assert forall|k: int| 0 <= k < n.len() implies unique_keys(
                            #[trigger] n[k].1,
                        ) && n[k].1.len() > 0 by {
                            if k < i {
                                assert(n[k] == s[k]);
                            } else {
                                assert(n[k] == s[k + 1]);
                            }
                        }
                    }
                } else {
                    let ghost b1 = bucket@;
                    self.mv_depended_subscriptions.insert(i, (t, bucket));
                    proof {
                        lemma_upsert(s, t, b1);
                        assert(self.view_buckets() =~= upsert(s, t, b1));
                        let n = self.view_buckets();
                        assert forall|k: int| 0 <= k < n.len() implies unique_keys(
                            #[trigger] n[k].1,
                        ) && n[k].1.len() > 0 by {
                            if k != i {
                                assert(n[k] == s[k]);
                            }
                        }
                    }
                }
                true
            },
            _ => false,
        }
    }

    /// Each subscription with the table it reads, table by table.
    pub fn upstream_infos(&self) -> (r: Vec<(SubscriptionId, TableId)>)
        ensures
            r@ == upstream_pairs(self.view_buckets()),
    {
        let ghost s = self.view_buckets();
        let ghost g = s.map_values(
            |p: (TableId, Bucket)| p.1.map_values(|q: (SubscriptionId, u64)| (q.0, p.0)),
        );
        let mut r: Vec<(SubscriptionId, TableId)> = Vec::new();
        let mut i: usize = 0;
        while i < self.mv_depended_subscriptions.len()
            invariant
                i <= self.mv_depended_subscriptions.len(),
                s == self.view_buckets(),
                g == s.map_values(
                    |p: (TableId, Bucket)| p.1.map_values(|q: (SubscriptionId, u64)| (q.0, p.0)),
                ),
                r@ == g.take(i as int).flatten(),
            decreases self.mv_depended_subscriptions.len() - i,
        {
            let t = self.mv_depended_subscriptions[i].0;
            let b = &self.mv_depended_subscriptions[i].1;
            let ghost before = r@;
            let mut j: usize = 0;
            while j < b.len()
                invariant
                    j <= b.len(),
                    i < s.len(),
                    s[i as int] == (t, b@),
                    r@ == before + g[i as int].take(j as int),
                    g[i as int] == b@.map_values(|q: (SubscriptionId, u64)| (q.0, t)),
                decreases b.len() - j,
            {
                r.push((b[j].0, t));
                j = j + 1;
                assert(r@ =~= before + g[i as int].take(j as int));
            }
            proof {
                g.take(i as int).lemma_flatten_push(g[i as int]);
                assert(g.take(i + 1) =~= g.take(i as int).push(g[i as int]));
                assert(g[i as int].take(j as int) =~= g[i as int]);
            }
            i = i + 1;
        }
        assert(g.take(i as int) =~= g);
        r
    }
}

/// Sets the retention of a subscription, returning the one it replaces.
fn set_retention(b: &mut Vec<(SubscriptionId, u64)>, id: SubscriptionId, ret: u64) -> (r: Option<u64>)
    requires
        unique_keys(old(b)@),
    ensures
        final(b)@ == upsert(old(b)@, id, ret),
        unique_keys(final(b)@),
        final(b)@.len() > 0,
        r == if has_key(old(b)@, id) {
            Some(value_of(old(b)@, id))
        } else {
            None::<u64>
        },
{
    let ghost s = b@;
    proof {
        lemma_index_of(s, id);
        lemma_upsert(s, id, ret);
    }
    let mut i: usize = b.len();
    while i > 0
        invariant
            i <= b.len(),
            s == b@,
            s == old(b)@,
            unique_keys(s),
            index_of(s, id) < i,
        decreases i,
    {
        i = i - 1;
        if b[i].0 == id {
            proof {
                lemma_last_index_of(s, id, i as int);
            }
            let prev = b[i].1;
            b.set(i, (id, ret));
            assert(b@ =~= upsert(s, id, ret));
            return Some(prev);
        }
        proof {
            lemma_not_at_index(s, id, i as int);
        }
    }
    b.push((id, ret));
    assert(b@ =~= upsert(s, id, ret));
    assert(b@[b@.len() - 1] == (id, ret));
    None
}

/// Removes a subscription; false when there is none with that id.
fn remove_subscription(b: &mut Vec<(SubscriptionId, u64)>, id: SubscriptionId) -> (removed: bool)
    requires
        unique_keys(old(b)@),
    ensures
        removed == has_key(old(b)@, id),
        final(b)@ == remove_key(old(b)@, id),
        unique_keys(final(b)@),
{
    let ghost s = b@;
    proof {
        lemma_index_of(s, id);
        lemma_remove_key(s, id);
    }
    let mut i: usize = b.len();
    while i > 0
        invariant
            i <= b.len(),
            s == b@,
            s == old(b)@,
            unique_keys(s),
            index_of(s, id) < i,
        decreases i,
    {
        i = i - 1;
        if b[i].0 == id {
            proof {
                lemma_last_index_of(s, id, i as int);
            }
            b.remove(i);
            assert(b@ =~= remove_key(s, id));
            return true;
        }
        proof {
            lemma_not_at_index(s, id, i as int);
        }
    }
    false
}

} // verus!
