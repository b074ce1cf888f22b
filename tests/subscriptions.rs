use barrier_info::command::{BarrierInfo, BarrierKind, Command};
use barrier_info::split::{PulsarOffset, PulsarSplit};
use barrier_info::subscription::InflightSubscriptionInfo;

fn create(subscription_id: u32, table: u32, retention: u64) -> Command {
    Command::CreateSubscription { subscription_id, upstream_mv_table_id: table, retention_second: retention }
}

fn drop_sub(subscription_id: u32, table: u32) -> Command {
    Command::DropSubscription { subscription_id, upstream_mv_table_id: table }
}

#[test]
fn dropping_last_subscription_removes_table() {
    let mut s = InflightSubscriptionInfo::new();
    assert_eq!(s.pre_apply(&create(1, 100, 60)), None);
    assert_eq!(s.pre_apply(&create(2, 100, 30)), None);
    assert!(s.post_apply(&drop_sub(1, 100)));
    assert_eq!(s.mv_depended_subscriptions, vec![(100, vec![(2, 30)])]);
    assert!(s.post_apply(&drop_sub(2, 100)));
    assert!(s.mv_depended_subscriptions.is_empty());
}

#[test]
fn duplicate_and_missing_subscriptions_are_tolerated() {
    let mut s = InflightSubscriptionInfo::new();
    assert_eq!(s.pre_apply(&create(1, 100, 60)), None);
    assert_eq!(s.pre_apply(&create(1, 100, 90)), Some(60));
    assert_eq!(s.mv_depended_subscriptions, vec![(100, vec![(1, 90)])]);
    assert!(!s.post_apply(&drop_sub(7, 100)));
    assert!(!s.post_apply(&drop_sub(1, 200)));
    assert_eq!(s.pre_apply(&Command::Flush), None);
    assert!(!s.post_apply(&Command::Pause));
    assert_eq!(s.mv_depended_subscriptions, vec![(100, vec![(1, 90)])]);
}

#[test]
fn upstream_infos_lists_each_subscription() {
    let mut s = InflightSubscriptionInfo::new();
    s.pre_apply(&create(1, 100, 60));
    s.pre_apply(&create(2, 200, 60));
    s.pre_apply(&create(3, 100, 60));
    assert_eq!(s.upstream_infos(), vec![(1, 100), (3, 100), (2, 200)]);
}

#[test]
fn pulsar_split_id_is_sub_topic() {
    let split = PulsarSplit::new("persistent://t-partition-0".to_string(), PulsarOffset::MessageID(5), PulsarOffset::Absent);
    assert_eq!(split.id(), "persistent://t-partition-0");
    assert_eq!(split.start_offset, PulsarOffset::MessageID(5));
    assert_eq!(split.stop_offset, PulsarOffset::Absent);
}

#[test]
fn barrier_prev_epoch() {
    let b = BarrierInfo { prev_epoch: 41, curr_epoch: 42, kind: BarrierKind::Checkpoint };
    assert_eq!(b.prev_epoch(), 41);
}
