//! Which fragments and edges a topology-changing command hands to the component
//! that opens the dispatch routes for its barrier.
use vstd::prelude::*;

use crate::command::{
    Command, CreateStreamingJobCommandInfo, CreateStreamingJobType, FragmentRelations,
    ReplaceStreamJobPlan,
};
use crate::database::InflightDatabaseInfo;
use crate::fragment::{views_of, FragmentId, FragmentView, InflightFragmentInfo};
use crate::keyed::{has_key, keys_of, value_of};

verus! {

pub type RelationView = (FragmentId, Seq<FragmentId>);

pub open spec fn relation_views(r: Seq<(FragmentId, Vec<FragmentId>)>) -> Seq<RelationView> {
    r.map_values(|p: (FragmentId, Vec<FragmentId>)| (p.0, p.1@))
}

/// What the route builder gets for a command: the fragments involved (those that
/// exist already, then the new ones), the edges to add, and the upstream
/// replacements (downstream fragment, old upstream, new upstream).
#[derive(Clone, Debug)]
pub struct FragmentEdgePlan {
    pub fragments: Vec<InflightFragmentInfo>,
    pub relations: FragmentRelations,
    pub upstream_replacements: Vec<(FragmentId, FragmentId, FragmentId)>,
}

/// The job being created and the job being replaced, for a command that changes the
/// dispatch graph; `None` for one that does not.
pub open spec fn edge_parts(c: Option<Command>) -> Option<
    (Option<CreateStreamingJobCommandInfo>, Option<ReplaceStreamJobPlan>),
> {
    match c {
        Some(Command::CreateStreamingJob { info, job_type }) => Some(
            (
                Some(info),
                match job_type {
                    CreateStreamingJobType::SinkIntoTable(r) => Some(r),
                    _ => None,
                },
            ),
        ),
        Some(Command::ReplaceStreamJob(r)) => Some((None, Some(r))),
        _ => None,
    }
}

/// Whether a fragment id is among the given fragments.
pub open spec fn lists_fragment(fs: Seq<InflightFragmentInfo>, f: FragmentId) -> bool {
    exists|i: int| 0 <= i < fs.len() && fs[i].fragment_id == f
}

/// The fragments that exist already: upstreams of the created job; upstreams of the
/// replacing job that the created job does not itself create; downstreams whose
/// upstream is replaced.
pub open spec fn existing_fragment_ids(
    info: Option<CreateStreamingJobCommandInfo>,
    rj: Option<ReplaceStreamJobPlan>,
) -> Seq<FragmentId> {
    (match info {
        Some(i) => keys_of(relation_views(i.upstream_fragment_downstreams@)),
        None => Seq::empty(),
    }) + match rj {
        Some(r) => keys_of(relation_views(r.upstream_fragment_downstreams@)).filter(
            |f: FragmentId|
                match info {
                    Some(i) => !lists_fragment(i.stream_job_fragments.fragments@, f),
                    None => true,
                },
        ) + keys_of(r.replace_upstream@),
        None => Seq::empty(),
    }
}

/// The fragments that the command creates.
pub open spec fn new_fragment_views(
    info: Option<CreateStreamingJobCommandInfo>,
    rj: Option<ReplaceStreamJobPlan>,
) -> Seq<FragmentView> {
    (match info {
        Some(i) => views_of(i.stream_job_fragments.fragments@),
        None => Seq::empty(),
    }) + match rj {
        Some(r) => views_of(r.new_fragments.fragments@) + match r.auto_refresh_schema_sinks {
            Some(s) => views_of(s@),
            None => Seq::empty(),
        },
        None => Seq::empty(),
    }
}

/// The edges to add, in order.
pub open spec fn plan_relations(
    info: Option<CreateStreamingJobCommandInfo>,
    rj: Option<ReplaceStreamJobPlan>,
) -> Seq<RelationView> {
    (match info {
        Some(i) => relation_views(i.upstream_fragment_downstreams@) + relation_views(
            i.stream_job_fragments.downstreams@,
        ),
        None => Seq::empty(),
    }) + match rj {
        Some(r) => relation_views(r.upstream_fragment_downstreams@) + relation_views(
            r.new_fragments.downstreams@,
        ),
        None => Seq::empty(),
    }
}

/// Each upstream replacement as (downstream fragment, old upstream, new upstream).
pub open spec fn replacement_triples(rep: Seq<(FragmentId, Vec<(FragmentId, FragmentId)>)>) -> Seq<
    (FragmentId, FragmentId, FragmentId),
> {
    rep.map_values(
        |p: (FragmentId, Vec<(FragmentId, FragmentId)>)|
            p.1@.map_values(|q: (FragmentId, FragmentId)| (p.0, q.0, q.1)),
    ).flatten()
}

pub open spec fn plan_replacements(rj: Option<ReplaceStreamJobPlan>) -> Seq<
    (FragmentId, FragmentId, FragmentId),
> {
    match rj {
        Some(r) => replacement_triples(r.replace_upstream@),
        None => Seq::empty(),
    }
}

/// Every listed fragment is in the topology.
pub open spec fn known_fragments(t: Seq<crate::change::LocatedView>, ids: Seq<FragmentId>) -> bool {
    forall|k: int| 0 <= k < ids.len() ==> has_key(t, #[trigger] ids[k])
}

fn copy_ids(v: &Vec<FragmentId>) -> (r: Vec<FragmentId>)
    ensures
        r@ == v@,
{
    let r = v.clone();
    assert(r@ =~= v@);
    r
}

/// Appends copies of the relations.
fn push_relations(out: &mut FragmentRelations, rel: &FragmentRelations)
    ensures
        relation_views(final(out)@) == relation_views(old(out)@) + relation_views(rel@),
{
    let ghost start = relation_views(out@);
    let mut i: usize = 0;
    while i < rel.len()
        invariant
            i <= rel.len(),
            start == relation_views(old(out)@),
            relation_views(out@) == start + relation_views(rel@).take(i as int),
        decreases rel.len() - i,
    {
        let ghost before = out@;
        out.push((rel[i].0, copy_ids(&rel[i].1)));
        assert(relation_views(out@) =~= relation_views(before).push(relation_views(rel@)[i as int]));
        i = i + 1;
        assert(relation_views(out@) =~= start + relation_views(rel@).take(i as int));
    }
    assert(relation_views(rel@).take(i as int) =~= relation_views(rel@));
}

/// Appends copies of the fragments.
fn push_infos(out: &mut Vec<InflightFragmentInfo>, fs: &Vec<InflightFragmentInfo>)
    ensures
        views_of(final(out)@) == views_of(old(out)@) + views_of(fs@),
{
    let ghost start = views_of(out@);
    let mut i: usize = 0;
    while i < fs.len()
        invariant
            i <= fs.len(),
            start == views_of(old(out)@),
            views_of(out@) == start + views_of(fs@).take(i as int),
        decreases fs.len() - i,
    {
        let ghost before = out@;
        let f = fs[i].copy();
        out.push(f);
        assert(views_of(out@) =~= views_of(before).push(f@));
        i = i + 1;
        assert(views_of(out@) =~= start + views_of(fs@).take(i as int));
    }
    assert(views_of(fs@).take(i as int) =~= views_of(fs@));
}

fn lists_fragment_exec(fs: &Vec<InflightFragmentInfo>, f: FragmentId) -> (r: bool)
    ensures
        r == lists_fragment(fs@, f),
{
    let mut i: usize = 0;
    while i < fs.len()
        invariant
            i <= fs.len(),
            forall|k: int| 0 <= k < i ==> fs@[k].fragment_id != f,
        decreases fs.len() - i,
    {
        if fs[i].fragment_id == f {
            return true;
        }
        i = i + 1;
    }
    false
}

impl InflightDatabaseInfo {
    /// Pushes copies of the listed existing fragments.
    fn push_existing(&self, out: &mut Vec<InflightFragmentInfo>, ids: &Vec<FragmentId>)
        requires
            known_fragments(self.topology(), ids@),
        ensures
            views_of(final(out)@) == views_of(old(out)@) + ids@.map_values(
                |f: FragmentId| value_of(self.topology(), f).1,
            ),
    {
        let ghost start = views_of(out@);
        let ghost want = ids@.map_values(|f: FragmentId| value_of(self.topology(), f).1);
        let mut i: usize = 0;
        while i < ids.len()
            invariant
                i <= ids.len(),
                start == views_of(old(out)@),
                want == ids@.map_values(|f: FragmentId| value_of(self.topology(), f).1),
                forall|k: int| 0 <= k < ids@.len() ==> has_key(self.topology(), #[trigger] ids@[k]),
                views_of(out@) == start + want.take(i as int),
            decreases ids.len() - i,
        {
            let ghost before = out@;
            let f = self.fragment(ids[i]).copy();
            out.push(f);
            assert(views_of(out@) =~= views_of(before).push(f@));
            i = i + 1;
            assert(views_of(out@) =~= start + want.take(i as int));
        }
        assert(want.take(i as int) =~= want);
    }

    /// For a command that changes the dispatch graph (creating a job, or replacing
    /// one), gathers the fragments and edges that the route builder needs; `None` for
    /// every other command. The fragments that the command names as existing must be
    /// in the database.
    pub fn build_edge(&self, command: Option<&Command>) -> (r: Option<FragmentEdgePlan>)
        requires
            self.wf(),
            match edge_parts(
                match command {
                    Some(c) => Some(*c),
                    None => None,
                },
            ) {
                Some((info, rj)) => known_fragments(self.topology(), existing_fragment_ids(info, rj)),
                None => true,
            },
        ensures
            match edge_parts(
                match command {
                    Some(c) => Some(*c),
                    None => None,
                },
            ) {
                Some((info, rj)) => r is Some && views_of(r.unwrap().fragments@)
                    == existing_fragment_ids(info, rj).map_values(
                    |f: FragmentId| value_of(self.topology(), f).1,
                ) + new_fragment_views(info, rj) && relation_views(r.unwrap().relations@)
                    == plan_relations(info, rj) && r.unwrap().upstream_replacements@
                    == plan_replacements(rj),
                None => r is None,
            },
    {
        let (info, replace_job): (
            Option<&CreateStreamingJobCommandInfo>,
            Option<&ReplaceStreamJobPlan>,
        ) = match command {
            None => {
                return None;
            },
            Some(command) => match command {
                Command::CreateStreamingJob { info, job_type } => {
                    let replace_job = match job_type {
                        CreateStreamingJobType::SinkIntoTable(r) => Some(r),
                        _ => None,
                    };
                    (Some(info), replace_job)
                },
                Command::ReplaceStreamJob(r) => (None, Some(r)),
                _ => {
                    return None;
                },
            },
        };
        let ghost gi: Option<CreateStreamingJobCommandInfo> = match info {
            Some(i) => Some(*i),
            None => None,
        };
        let ghost gr: Option<ReplaceStreamJobPlan> = match replace_job {
            Some(r) => Some(*r),
            None => None,
        };
        // the fragments that exist already
        let mut existing: Vec<FragmentId> = Vec::new();
        if let Some(i) = info {
            let rel = &i.upstream_fragment_downstreams;
            let mut k: usize = 0;
            while k < rel.len()
                invariant
                    k <= rel.len(),
                    existing@ == keys_of(relation_views(rel@)).take(k as int),
                decreases rel.len() - k,
            {
                existing.push(rel[k].0);
                k = k + 1;
                assert(existing@ =~= keys_of(relation_views(rel@)).take(k as int));
            }
            assert(keys_of(relation_views(rel@)).take(k as int) =~= keys_of(relation_views(rel@)));
        }
        assert(existing@ =~= match gi {
            Some(i) => keys_of(relation_views(i.upstream_fragment_downstreams@)),
            None => Seq::<FragmentId>::empty(),
        });
        let ghost part1 = existing@;
        if let Some(r) = replace_job {
            let rel = &r.upstream_fragment_downstreams;
            let ghost keep = |f: FragmentId|
                match gi {
                    Some(i) => !lists_fragment(i.stream_job_fragments.fragments@, f),
                    None => true,
                };
            let ghost ks = keys_of(relation_views(rel@));
            let mut k: usize = 0;
            while k < rel.len()
                invariant
                    k <= rel.len(),
                    ks == keys_of(relation_views(rel@)),
                    keep == (|f: FragmentId|
                        match gi {
                            Some(i) => !lists_fragment(i.stream_job_fragments.fragments@, f),
                            None => true,
                        }),
                    gi == match info {
                        Some(i) => Some(*i),
                        None => None::<CreateStreamingJobCommandInfo>,
                    },
                    existing@ == part1 + ks.take(k as int).filter(keep),
                decreases rel.len() - k,
            {
                proof {
                    reveal(Seq::filter);
                    assert(ks.take(k + 1).drop_last() =~= ks.take(k as int));
                    assert(ks.take(k + 1).last() == ks[k as int]);
                }
                let f = rel[k].0;
                let wanted = match info {
                    Some(i) => !lists_fragment_exec(&i.stream_job_fragments.fragments, f),
                    None => true,
                };
                let ghost before = existing@;
                if wanted {
                    existing.push(f);
                    assert(existing@ =~= before.push(f));
                }
                k = k + 1;
                assert(existing@ =~= part1 + ks.take(k as int).filter(keep));
            }
            assert(ks.take(k as int) =~= ks);
            let ghost part2 = existing@;
            let rep = &r.replace_upstream;
            let mut k: usize = 0;
            while k < rep.len()
                invariant
                    k <= rep.len(),
                    existing@ == part2 + keys_of(rep@).take(k as int),
                decreases rep.len() - k,
            {
                existing.push(rep[k].0);
                k = k + 1;
                assert(existing@ =~= part2 + keys_of(rep@).take(k as int));
            }
            assert(keys_of(rep@).take(k as int) =~= keys_of(rep@));
        }
        assert(existing@ =~= existing_fragment_ids(gi, gr));
        assert(edge_parts(
            match command {
                Some(c) => Some(*c),
                None => None,
            },
        ) == Some((gi, gr)));
        assert(known_fragments(self.topology(), existing@));
        let mut fragments: Vec<InflightFragmentInfo> = Vec::new();
        assert(views_of(fragments@) =~= Seq::<FragmentView>::empty());
        self.push_existing(&mut fragments, &existing);
        let ghost with_existing = views_of(fragments@);
        if let Some(i) = info {
            push_infos(&mut fragments, &i.stream_job_fragments.fragments);
        }
        if let Some(r) = replace_job {
            push_infos(&mut fragments, &r.new_fragments.fragments);
            if let Some(sinks) = &r.auto_refresh_schema_sinks {
                push_infos(&mut fragments, sinks);
            }
        }
        assert(views_of(fragments@) =~= with_existing + new_fragment_views(gi, gr));
        let mut relations: FragmentRelations = Vec::new();
        assert(relation_views(relations@) =~= Seq::<RelationView>::empty());
        if let Some(i) = info {
            push_relations(&mut relations, &i.upstream_fragment_downstreams);
            push_relations(&mut relations, &i.stream_job_fragments.downstreams);
        }
        if let Some(r) = replace_job {
            push_relations(&mut relations, &r.upstream_fragment_downstreams);
            push_relations(&mut relations, &r.new_fragments.downstreams);
        }
        assert(relation_views(relations@) =~= plan_relations(gi, gr));
        let mut upstream_replacements: Vec<(FragmentId, FragmentId, FragmentId)> = Vec::new();
        if let Some(r) = replace_job {
            let rep = &r.replace_upstream;
            let ghost g = rep@.map_values(
                |p: (FragmentId, Vec<(FragmentId, FragmentId)>)|
                    p.1@.map_values(|q: (FragmentId, FragmentId)| (p.0, q.0, q.1)),
            );
            let mut k: usize = 0;
            while k < rep.len()
                invariant
                    k <= rep.len(),
                    g == rep@.map_values(
                        |p: (FragmentId, Vec<(FragmentId, FragmentId)>)|
                            p.1@.map_values(|q: (FragmentId, FragmentId)| (p.0, q.0, q.1)),
                    ),
                    upstream_replacements@ == g.take(k as int).flatten(),
                decreases rep.len() - k,
            {
                let fid = rep[k].0;
                let pairs = &rep[k].1;
                let ghost before = upstream_replacements@;
                let mut j: usize = 0;
                while j < pairs.len()
                    invariant
                        j <= pairs.len(),
                        k < rep.len(),
                        g.len() == rep.len(),
                        g[k as int] == pairs@.map_values(
                            |q: (FragmentId, FragmentId)| (fid, q.0, q.1),
                        ),
                        upstream_replacements@ == before + g[k as int].take(j as int),
                    decreases pairs.len() - j,
                {
                    upstream_replacements.push((fid, pairs[j].0, pairs[j].1));
                    j = j + 1;
                    assert(upstream_replacements@ =~= before + g[k as int].take(j as int));
                }
                proof {
                    g.take(k as int).lemma_flatten_push(g[k as int]);
                    assert(g.take(k + 1) =~= g.take(k as int).push(g[k as int]));
                    assert(g[k as int].take(j as int) =~= g[k as int]);
                }
                k = k + 1;
            }
            assert(g.take(k as int) =~= g);
        }
        assert(upstream_replacements@ =~= plan_replacements(gr));
        Some(FragmentEdgePlan { fragments, relations, upstream_replacements })
    }
}

} // verus!
