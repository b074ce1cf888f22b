use barrier_info::change::CommandFragmentChanges;
use barrier_info::command::{
    Command, CreateStreamingJobCommandInfo, CreateStreamingJobType, ReplaceStreamJobPlan,
    StreamJobFragments,
};
use barrier_info::database::{InflightDatabaseInfo, InflightStreamingJobInfo};
use barrier_info::fragment::{Bitmap, FragmentMapping, InflightActorInfo, InflightFragmentInfo};
use barrier_info::registry::{FragmentMappingNotification, Operation, SharedActorInfos};

fn actor(actor_id: u32, worker_id: u32) -> InflightActorInfo {
    InflightActorInfo { actor_id, worker_id, vnode_bitmap: None }
}

fn fragment(fragment_id: u32, actors: Vec<(u32, u32)>) -> InflightFragmentInfo {
    InflightFragmentInfo {
        fragment_id,
        actors: actors.into_iter().map(|(a, w)| actor(a, w)).collect(),
        state_table_ids: vec![fragment_id * 10],
        upstream_fragment_ids: vec![],
    }
}

fn actor_ids(info: &InflightFragmentInfo) -> Vec<u32> {
    let mut ids: Vec<u32> = info.actors.iter().map(|a| a.actor_id).collect();
    ids.sort();
    ids
}

fn mapping_ids(m: &FragmentMapping) -> Vec<u32> {
    let mut ids: Vec<u32> = m.actor_workers.iter().map(|p| p.0).collect();
    ids.sort();
    ids
}

fn ops(ns: &[FragmentMappingNotification]) -> Vec<Operation> {
    ns.iter().map(|n| n.operation).collect()
}

fn new_fragment(job: u32, info: InflightFragmentInfo) -> (u32, CommandFragmentChanges) {
    (info.fragment_id, CommandFragmentChanges::NewFragment(job, info))
}

fn setup(db: u32) -> (InflightDatabaseInfo, SharedActorInfos) {
    let mut shared = SharedActorInfos::new();
    let (info, n) = InflightDatabaseInfo::empty(db, &mut shared, true);
    assert!(n.is_none());
    (info, shared)
}

#[test]
fn create_then_reschedule_scenario() {
    let (mut db, mut shared) = setup(1);
    let changes = vec![new_fragment(1, fragment(1, vec![(1, 1), (2, 2)]))];
    let report = db.pre_apply(&mut shared, &changes);
    assert_eq!(ops(&report.notifications), vec![Operation::Add]);
    assert_eq!(report.notifications[0].mappings.len(), 1);
    assert_eq!(mapping_ids(&report.notifications[0].mappings[0]), vec![1, 2]);
    assert_eq!(shared.get(1, 1).unwrap().actors.len(), 2);
    let post = db.post_apply(&mut shared, &changes);
    assert!(post.is_empty());

    let reschedule = vec![(
        1,
        CommandFragmentChanges::Reschedule {
            new_actors: vec![actor(3, 3)],
            actor_update_vnode_bitmap: vec![],
            to_remove: vec![1],
        },
    )];
    let report = db.pre_apply(&mut shared, &reschedule);
    assert!(report.notifications.is_empty());
    assert_eq!(actor_ids(db.fragment(1)), vec![1, 2, 3]);
    let post = db.post_apply(&mut shared, &reschedule);
    assert_eq!(ops(&post), vec![Operation::Update]);
    assert_eq!(post[0].mappings.len(), 1);
    assert_eq!(mapping_ids(&post[0].mappings[0]), vec![2, 3]);
    assert_eq!(actor_ids(db.fragment(1)), vec![2, 3]);
    assert_eq!(actor_ids(shared.get(1, 1).unwrap()), vec![2, 3]);
}

#[test]
fn recover_with_no_jobs_empties_registry() {
    let (mut db, mut shared) = setup(7);
    let changes = vec![
        new_fragment(1, fragment(1, vec![(1, 1)])),
        new_fragment(1, fragment(2, vec![(2, 1)])),
    ];
    db.pre_apply(&mut shared, &changes);
    assert_eq!(shared.fragment_ids(7), vec![1, 2]);
    let (recovered, ns) = InflightDatabaseInfo::recover(7, vec![], &mut shared, true);
    assert!(recovered.is_empty());
    assert!(shared.fragment_ids(7).is_empty());
    assert_eq!(ops(&ns), vec![Operation::Delete]);
    let mut ids: Vec<u32> = ns[0].mappings.iter().map(|m| m.fragment_id).collect();
    ids.sort();
    assert_eq!(ids, vec![1, 2]);
}

#[test]
fn fragment_index_matches_jobs() {
    let (mut db, mut shared) = setup(1);
    let changes = vec![
        new_fragment(10, fragment(1, vec![(1, 1)])),
        new_fragment(10, fragment(2, vec![(2, 1)])),
        new_fragment(20, fragment(3, vec![(3, 2)])),
    ];
    db.pre_apply(&mut shared, &changes);
    assert!(db.contains_job(10));
    assert!(db.contains_job(20));
    assert_eq!(db.fragment_ids(), vec![1, 2, 3]);
    let removal = vec![(3, CommandFragmentChanges::RemoveFragment)];
    db.pre_apply(&mut shared, &removal);
    db.post_apply(&mut shared, &removal);
    assert!(db.contains_job(10));
    assert!(!db.contains_job(20));
    assert_eq!(db.fragment_ids(), vec![1, 2]);
}

#[test]
fn removal_waits_for_post_apply() {
    let (mut db, mut shared) = setup(1);
    db.pre_apply(&mut shared, &vec![new_fragment(1, fragment(5, vec![(1, 1)]))]);
    let removal = vec![(5, CommandFragmentChanges::RemoveFragment)];
    let report = db.pre_apply(&mut shared, &removal);
    assert!(report.notifications.is_empty());
    assert!(db.contains_fragment(5));
    assert!(shared.get(1, 5).is_some());
    let post = db.post_apply(&mut shared, &removal);
    assert_eq!(ops(&post), vec![Operation::Delete]);
    assert_eq!(post[0].mappings[0].fragment_id, 5);
    assert!(!db.contains_fragment(5));
    assert!(shared.get(1, 5).is_none());
    assert!(db.is_empty());
}

#[test]
fn bitmap_only_reschedule_keeps_actors() {
    let (mut db, mut shared) = setup(1);
    db.pre_apply(&mut shared, &vec![new_fragment(1, fragment(1, vec![(1, 1), (2, 2)]))]);
    let change = vec![(
        1,
        CommandFragmentChanges::Reschedule {
            new_actors: vec![],
            actor_update_vnode_bitmap: vec![(2, Bitmap { bits: vec![true, false] })],
            to_remove: vec![],
        },
    )];
    let report = db.pre_apply(&mut shared, &change);
    assert!(report.notifications.is_empty());
    let f = db.fragment(1);
    assert_eq!(actor_ids(f), vec![1, 2]);
    assert!(f.actors[0].vnode_bitmap.is_none());
    assert_eq!(f.actors[0].worker_id, 1);
    assert_eq!(f.actors[1].worker_id, 2);
    assert_eq!(f.actors[1].vnode_bitmap.as_ref().unwrap().bits, vec![true, false]);
    assert!(shared.get(1, 1).unwrap().actors[1].vnode_bitmap.is_none());
}

#[test]
fn recover_mirrors_live_registry() {
    let (mut db, mut shared) = setup(3);
    let changes = vec![
        new_fragment(1, fragment(1, vec![(1, 1), (2, 2)])),
        new_fragment(2, fragment(2, vec![(3, 2)])),
    ];
    db.pre_apply(&mut shared, &changes);
    let jobs = vec![
        InflightStreamingJobInfo { job_id: 1, fragment_infos: vec![fragment(1, vec![(1, 1), (2, 2)])] },
        InflightStreamingJobInfo { job_id: 2, fragment_infos: vec![fragment(2, vec![(3, 2)])] },
    ];
    let (recovered, ns) = InflightDatabaseInfo::recover(3, jobs, &mut shared, true);
    assert_eq!(ops(&ns), vec![Operation::Update, Operation::Update]);
    let mut ids = shared.fragment_ids(3);
    ids.sort();
    assert_eq!(ids, vec![1, 2]);
    for fid in [1u32, 2] {
        assert_eq!(actor_ids(shared.get(3, fid).unwrap()), actor_ids(recovered.fragment(fid)));
    }
}

#[test]
fn recover_drops_stale_fragments() {
    let (mut db, mut shared) = setup(3);
    let changes = vec![
        new_fragment(1, fragment(1, vec![(1, 1)])),
        new_fragment(2, fragment(2, vec![(2, 2)])),
    ];
    db.pre_apply(&mut shared, &changes);
    let jobs = vec![InflightStreamingJobInfo { job_id: 1, fragment_infos: vec![fragment(1, vec![(1, 1)])] }];
    let (recovered, ns) = InflightDatabaseInfo::recover(3, jobs, &mut shared, true);
    assert_eq!(ops(&ns), vec![Operation::Update, Operation::Delete]);
    assert_eq!(ns[1].mappings[0].fragment_id, 2);
    assert_eq!(shared.fragment_ids(3), vec![1]);
    assert!(recovered.contains_job(1));
    assert!(!recovered.contains_job(2));
}

#[test]
fn each_new_and_removed_fragment_yields_one_record() {
    let (mut db, mut shared) = setup(1);
    let changes = vec![
        new_fragment(1, fragment(1, vec![(1, 1)])),
        new_fragment(1, fragment(2, vec![(2, 1)])),
        new_fragment(2, fragment(3, vec![(3, 1)])),
    ];
    let report = db.pre_apply(&mut shared, &changes);
    assert_eq!(ops(&report.notifications), vec![Operation::Add]);
    assert_eq!(report.notifications[0].mappings.len(), 3);
    let removal = vec![
        (1, CommandFragmentChanges::RemoveFragment),
        (3, CommandFragmentChanges::RemoveFragment),
    ];
    let post = db.post_apply(&mut shared, &removal);
    assert_eq!(ops(&post), vec![Operation::Delete]);
    assert_eq!(post[0].mappings.len(), 2);
    let none = db.pre_apply(&mut shared, &vec![]);
    assert!(none.notifications.is_empty());
    assert!(db.post_apply(&mut shared, &vec![]).is_empty());
}

#[test]
fn new_fragment_over_stale_registry_entry_is_an_update() {
    let mut shared = SharedActorInfos::new();
    let (mut first, _) = InflightDatabaseInfo::empty(4, &mut shared, true);
    let (mut second, _) = InflightDatabaseInfo::empty(4, &mut shared, true);
    let report = first.pre_apply(&mut shared, &vec![new_fragment(1, fragment(1, vec![(1, 1)]))]);
    assert_eq!(ops(&report.notifications), vec![Operation::Add]);
    let report = second.pre_apply(&mut shared, &vec![new_fragment(1, fragment(1, vec![(2, 3)]))]);
    assert_eq!(ops(&report.notifications), vec![Operation::Update]);
    assert_eq!(shared.get(4, 1).unwrap().actors[0].actor_id, 2);
}

#[test]
fn duplicate_fragment_is_refused() {
    let (mut db, mut shared) = setup(1);
    db.pre_apply(&mut shared, &vec![new_fragment(1, fragment(1, vec![(1, 1)]))]);
    assert!(!db.check_pre_apply(&shared, &vec![new_fragment(2, fragment(1, vec![(2, 1)]))]));
    let job = InflightStreamingJobInfo { job_id: 2, fragment_infos: vec![fragment(1, vec![(2, 1)])] };
    assert!(!db.check_extend(&shared, &job));
    let ok_job = InflightStreamingJobInfo { job_id: 2, fragment_infos: vec![fragment(2, vec![(2, 1)])] };
    assert!(db.check_extend(&shared, &ok_job));
}

#[test]
fn recovery_refuses_repeated_fragment_ids() {
    let shared = SharedActorInfos::new();
    let jobs = vec![
        InflightStreamingJobInfo { job_id: 1, fragment_infos: vec![fragment(1, vec![(1, 1)])] },
        InflightStreamingJobInfo { job_id: 2, fragment_infos: vec![fragment(1, vec![(2, 1)])] },
    ];
    assert!(!InflightDatabaseInfo::check_recover(3, &jobs, &shared, true));
    assert!(InflightDatabaseInfo::check_recover(3, &jobs[..1].to_vec(), &shared, true));
}

#[test]
fn missing_fragment_is_refused() {
    let (db, shared) = setup(1);
    let change = vec![(
        9,
        CommandFragmentChanges::Reschedule { new_actors: vec![], actor_update_vnode_bitmap: vec![], to_remove: vec![] },
    )];
    assert!(!db.check_pre_apply(&shared, &change));
    assert!(!db.check_post_apply(&shared, &vec![(9, CommandFragmentChanges::RemoveFragment)]));
}

#[test]
fn duplicate_or_missing_actor_is_refused() {
    let (mut db, mut shared) = setup(1);
    db.pre_apply(&mut shared, &vec![new_fragment(1, fragment(1, vec![(1, 1)]))]);
    let dup = vec![(
        1,
        CommandFragmentChanges::Reschedule { new_actors: vec![actor(1, 2)], actor_update_vnode_bitmap: vec![], to_remove: vec![] },
    )];
    assert!(!db.check_pre_apply(&shared, &dup));
    let missing = vec![(
        1,
        CommandFragmentChanges::Reschedule { new_actors: vec![], actor_update_vnode_bitmap: vec![], to_remove: vec![5] },
    )];
    assert!(!db.check_post_apply(&shared, &missing));
    let bitmap = vec![(
        1,
        CommandFragmentChanges::Reschedule {
            new_actors: vec![],
            actor_update_vnode_bitmap: vec![(5, Bitmap { bits: vec![true] })],
            to_remove: vec![],
        },
    )];
    assert!(!db.check_pre_apply(&shared, &bitmap));
    assert_eq!(actor_ids(db.fragment(1)), vec![1]);
}

fn with_upstreams(fragment_id: u32, ups: Vec<u32>) -> InflightFragmentInfo {
    let mut f = fragment(fragment_id, vec![(fragment_id, 1)]);
    f.upstream_fragment_ids = ups;
    f
}

#[test]
fn upstream_rewrite_replaces_each_matching_merge() {
    let (mut db, mut shared) = setup(1);
    db.pre_apply(&mut shared, &vec![new_fragment(1, with_upstreams(4, vec![1, 2, 3]))]);
    let change = vec![(4, CommandFragmentChanges::ReplaceNodeUpstream(vec![(2, 20), (3, 30)]))];
    let report = db.pre_apply(&mut shared, &change);
    assert!(report.inconsistent_rewrites.is_empty());
    assert!(report.notifications.is_empty());
    assert_eq!(db.fragment(4).upstream_fragment_ids, vec![1, 20, 30]);
}

#[test]
fn inconsistent_rewrite_refused_when_strict() {
    let (mut db, mut shared) = setup(1);
    db.pre_apply(&mut shared, &vec![new_fragment(1, with_upstreams(4, vec![2, 2]))]);
    let change = vec![(4, CommandFragmentChanges::ReplaceNodeUpstream(vec![(2, 20)]))];
    assert!(!db.check_pre_apply(&shared, &change));
    assert_eq!(db.fragment(4).upstream_fragment_ids, vec![2, 2]);
}

#[test]
fn inconsistent_rewrite_reported_when_lenient() {
    let mut shared = SharedActorInfos::new();
    let (mut db, _) = InflightDatabaseInfo::empty(1, &mut shared, false);
    db.pre_apply(&mut shared, &vec![new_fragment(1, with_upstreams(4, vec![1]))]);
    let change = vec![(4, CommandFragmentChanges::ReplaceNodeUpstream(vec![(1, 10), (9, 90)]))];
    let report = db.pre_apply(&mut shared, &change);
    assert_eq!(report.inconsistent_rewrites, vec![4]);
    assert_eq!(db.fragment(4).upstream_fragment_ids, vec![10]);
}

#[test]
fn registry_remove_and_retain_databases() {
    let mut shared = SharedActorInfos::new();
    for db_id in [1u32, 2, 3] {
        let (mut db, _) = InflightDatabaseInfo::empty(db_id, &mut shared, true);
        db.pre_apply(&mut shared, &vec![new_fragment(1, fragment(db_id * 100, vec![(db_id, 1)]))]);
    }
    assert_eq!(shared.len(), 3);
    let n = shared.remove_database(2).unwrap();
    assert_eq!(n.operation, Operation::Delete);
    assert_eq!(n.mappings[0].fragment_id, 200);
    assert!(shared.remove_database(2).is_none());
    let n = shared.retain_databases(&vec![1]).unwrap();
    assert_eq!(n.mappings.len(), 1);
    assert_eq!(n.mappings[0].fragment_id, 300);
    assert_eq!(shared.len(), 1);
    assert!(shared.retain_databases(&vec![1]).is_none());
    let (_, n) = InflightDatabaseInfo::empty(1, &mut shared, true);
    assert_eq!(n.unwrap().mappings[0].fragment_id, 100);
    assert_eq!(shared.len(), 0);
}

#[test]
fn extend_adds_a_whole_job() {
    let (mut db, mut shared) = setup(1);
    let job = InflightStreamingJobInfo {
        job_id: 8,
        fragment_infos: vec![fragment(1, vec![(1, 1)]), fragment(2, vec![(2, 2)])],
    };
    assert_eq!(job.existing_table_ids(), vec![10, 20]);
    let ns = db.extend(&mut shared, job);
    assert_eq!(ops(&ns), vec![Operation::Add]);
    assert_eq!(ns[0].mappings.len(), 2);
    assert!(db.contains_job(8));
    assert!(db.contains_worker(2));
    assert!(!db.contains_worker(3));
    assert_eq!(db.existing_table_ids(), vec![10, 20]);
    assert_eq!(db.fragment_infos().len(), 2);
}

fn create_job_command(with_sink: bool) -> Command {
    let info = CreateStreamingJobCommandInfo {
        upstream_fragment_downstreams: vec![(1, vec![5])],
        stream_job_fragments: StreamJobFragments {
            fragments: vec![fragment(5, vec![(50, 1)]), fragment(6, vec![(60, 1)])],
            downstreams: vec![(5, vec![6])],
        },
    };
    let job_type = if with_sink {
        CreateStreamingJobType::SinkIntoTable(ReplaceStreamJobPlan {
            upstream_fragment_downstreams: vec![(6, vec![7]), (2, vec![7])],
            new_fragments: StreamJobFragments { fragments: vec![fragment(7, vec![(70, 2)])], downstreams: vec![] },
            replace_upstream: vec![(3, vec![(2, 7)])],
            auto_refresh_schema_sinks: None,
        })
    } else {
        CreateStreamingJobType::Normal
    };
    Command::CreateStreamingJob { info, job_type }
}

#[test]
fn build_edge_for_topology_changes_only() {
    let (mut db, mut shared) = setup(1);
    let changes = vec![
        new_fragment(1, fragment(1, vec![(1, 1)])),
        new_fragment(1, fragment(2, vec![(2, 1)])),
        new_fragment(1, fragment(3, vec![(3, 1)])),
    ];
    db.pre_apply(&mut shared, &changes);
    assert!(db.build_edge(None).is_none());
    assert!(db.build_edge(Some(&Command::Flush)).is_none());
    assert!(db.build_edge(Some(&Command::RescheduleFragment)).is_none());

    let plan = db.build_edge(Some(&create_job_command(false))).unwrap();
    let ids: Vec<u32> = plan.fragments.iter().map(|f| f.fragment_id).collect();
    assert_eq!(ids, vec![1, 5, 6]);
    assert_eq!(plan.relations, vec![(1, vec![5]), (5, vec![6])]);
    assert!(plan.upstream_replacements.is_empty());

    let plan = db.build_edge(Some(&create_job_command(true))).unwrap();
    let ids: Vec<u32> = plan.fragments.iter().map(|f| f.fragment_id).collect();
    assert_eq!(ids, vec![1, 2, 3, 5, 6, 7]);
    assert_eq!(plan.relations.len(), 4);
    assert_eq!(plan.upstream_replacements, vec![(3, 2, 7)]);
}

#[test]
fn fragment_set_helpers() {
    let infos = vec![fragment(1, vec![(1, 1), (2, 2)]), fragment(2, vec![(3, 2)])];
    assert!(InflightFragmentInfo::contains_worker(&infos, 2));
    assert!(!InflightFragmentInfo::contains_worker(&infos, 9));
    let mut workers = InflightFragmentInfo::workers(&infos);
    workers.sort();
    assert_eq!(workers, vec![1, 2]);
    assert_eq!(InflightFragmentInfo::existing_table_ids(&infos), vec![10, 20]);
}

#[test]
fn actors_grouped_by_worker() {
    let infos = vec![fragment(1, vec![(1, 1), (2, 2)]), fragment(2, vec![(3, 1)])];
    let mut groups = InflightFragmentInfo::actor_ids_to_collect(&infos);
    groups.sort();
    for g in groups.iter_mut() {
        g.1.sort();
    }
    assert_eq!(groups, vec![(1, vec![1, 3]), (2, vec![2])]);
    assert!(InflightFragmentInfo::actor_ids_to_collect(&vec![]).is_empty());
}

#[test]
fn shared_state_table_listed_once() {
    let mut a = fragment(1, vec![(1, 1)]);
    a.state_table_ids = vec![5, 6];
    let mut b = fragment(2, vec![(2, 1)]);
    b.state_table_ids = vec![5, 7];
    let mut ids = InflightFragmentInfo::existing_table_ids(&vec![a, b]);
    ids.sort();
    assert_eq!(ids, vec![5, 6, 7]);
}
