use kaas::assignment::{BrokerAssignment, BrokerHealth, PartitionAssignment, PartitionRole};
use kaas::balancer::{
    balance, balance_groups, checked_balance, group_hash, partition_key, rendezvous_hash, rendezvous_pick, rendezvous_pick_group, GroupSpec, TopicSpec,
};
use kaas::group_balancer::checked_balance_groups;
use kaas::group_hash::{group_coordinator_slot, pick_group_coordinator};
use kaas::keyed::TextMap;
use std::collections::HashMap;

fn brokers(n: usize) -> Vec<String> {
    (0..n).map(|i| format!("kaas-{i}")).collect()
}

fn rows(n: usize) -> Vec<BrokerAssignment> {
    brokers(n)
        .into_iter()
        .map(|id| BrokerAssignment { id, health: BrokerHealth::Alive, last_seen: "2026-08-09T00:00:00Z".to_owned() })
        .collect()
}

fn rows_with_alive(n: usize, alive: &[&str]) -> Vec<BrokerAssignment> {
    rows(n)
        .into_iter()
        .map(|mut r| {
            if !alive.contains(&r.id.as_str()) {
                r.health = BrokerHealth::Dead;
            }
            r
        })
        .collect()
}

fn topic(name: &str, partition_count: i32) -> TopicSpec {
    TopicSpec { name: name.to_owned(), partition_count }
}

fn group(id: &str) -> GroupSpec {
    GroupSpec { group_id: id.to_owned() }
}

fn no_floor() -> TextMap<u32> {
    TextMap::new()
}

fn counts(parts: &[PartitionAssignment], only: Option<&str>) -> HashMap<String, i32> {
    let mut out: HashMap<String, i32> = HashMap::new();
    for p in parts.iter().filter(|p| only.map_or(true, |t| p.topic == t)) {
        *out.entry(p.broker.clone()).or_insert(0) += 1;
    }
    out
}

fn skew(parts: &[PartitionAssignment], only: Option<&str>, brokers: &[String]) -> i32 {
    let c = counts(parts, only);
    let vals: Vec<i32> = brokers.iter().map(|b| c.get(b).copied().unwrap_or(0)).collect();
    vals.iter().max().copied().unwrap_or(0) - vals.iter().min().copied().unwrap_or(0)
}

fn find<'a>(parts: &'a [PartitionAssignment], topic: &str, p: i32) -> &'a PartitionAssignment {
    parts.iter().find(|q| q.topic == topic && q.partition == p).expect("partition present")
}

#[test]
fn empty_broker_set_returns_empty_assignment() {
    let topics = vec![topic("t1", 4)];
    let parts = balance(None, &[], &topics, &no_floor());
    assert!(parts.is_empty());
}

#[test]
fn rendezvous_is_deterministic_for_fixed_inputs() {
    let b = brokers(3);
    let a = rendezvous_pick("t1", 0, &b);
    let b_again = rendezvous_pick("t1", 0, &b);
    assert_eq!(a, b_again);
}

#[test]
fn rendezvous_pick_returns_one_of_the_brokers() {
    let b = brokers(3);
    let pick = rendezvous_pick("t1", 0, &b).unwrap();
    assert!(b.contains(&pick));
}

#[test]
fn balance_assigns_every_partition_to_an_alive_broker() {
    let b = brokers(3);
    let topics = vec![topic("t1", 6), topic("t2", 3)];
    let parts = balance(None, &b, &topics, &no_floor());
    assert_eq!(parts.len(), 9);
    for p in &parts {
        assert!(b.contains(&p.broker), "broker {} not in alive set", p.broker);
        assert_eq!(p.epoch, 1, "fresh assignment starts at epoch 1");
        assert_eq!(p.role, PartitionRole::Leader);
    }
}

#[test]
fn balance_stability_keeps_assignment_when_brokers_unchanged() {
    let b = brokers(3);
    let topics = vec![topic("t1", 6)];
    let first = balance(None, &b, &topics, &no_floor());
    let second = balance(Some(&first), &b, &topics, &no_floor());
    assert_eq!(first, second, "stable inputs give an identical assignment");
}

#[test]
fn balance_smoother_caps_skew_at_one() {
    let b = brokers(3);
    let topics = vec![topic("t1", 16)];
    let parts = balance(None, &b, &topics, &no_floor());
    let mut counts: HashMap<&str, i32> = HashMap::new();
    for p in &parts {
        *counts.entry(p.broker.as_str()).or_insert(0) += 1;
    }
    let hi = counts.values().max().copied().unwrap_or(0);
    let lo = counts.values().min().copied().unwrap_or(0);
    assert!(hi - lo <= 1, "got hi={hi} lo={lo} counts={counts:?}");
}

#[test]
fn balance_reassigns_only_partitions_on_dead_brokers() {
    let three = brokers(3);
    let topics = vec![topic("t1", 9)];
    let first = balance(None, &three, &topics, &no_floor());
    let two = vec!["kaas-0".to_owned(), "kaas-1".to_owned()];
    let second = balance(Some(&first), &two, &topics, &no_floor());
    for p in &first {
        if p.broker != "kaas-2" {
            let matching = second
                .iter()
                .find(|q| q.topic == p.topic && q.partition == p.partition)
                .expect("partition retained");
            if matching.broker == p.broker {
                assert_eq!(matching.epoch, p.epoch, "stable partition keeps epoch");
            }
        }
    }
    for p in &second {
        assert!(p.broker == "kaas-0" || p.broker == "kaas-1");
    }
}

#[test]
fn epoch_floor_prevents_regression_on_readd() {
    let b = brokers(3);
    let topics = vec![topic("t1", 4)];
    let mut floor: TextMap<u32> = TextMap::new();
    for p in 0..4 {
        floor.insert(partition_key("t1", p), 11);
    }
    let parts = balance(None, &b, &topics, &floor);
    assert_eq!(parts.len(), 4);
    for p in &parts {
        assert_eq!(p.epoch, 11, "a partition that comes back takes its floor");
    }
    let plain = balance(None, &b, &topics, &no_floor());
    assert!(plain.iter().all(|p| p.epoch == 1));
}

#[test]
fn epoch_floor_self_heals_but_never_lowers() {
    let b = brokers(3);
    let topics = vec![topic("t1", 4)];
    let first = balance(None, &b, &topics, &no_floor());
    let mut high: TextMap<u32> = TextMap::new();
    let mut low: TextMap<u32> = TextMap::new();
    for p in &first {
        high.insert(partition_key(&p.topic, p.partition), 9);
        low.insert(partition_key(&p.topic, p.partition), 1);
    }
    let healed = balance(Some(&first), &b, &topics, &high);
    assert!(healed.iter().all(|p| p.epoch == 9));
    let unchanged = balance(Some(&first), &b, &topics, &low);
    assert_eq!(first, unchanged);
}

#[test]
fn balance_groups_stable_on_alive_set_unchanged() {
    let groups = vec![group("g1"), group("g2")];
    let r = rows(3);
    let first = balance_groups(None, &r, &groups);
    let second = balance_groups(Some(&first), &r, &groups);
    assert_eq!(first, second);
}

#[test]
fn balance_groups_reassigns_only_dead_broker_groups() {
    let groups = vec![group("ga"), group("gb"), group("gc")];
    let first = balance_groups(None, &rows(3), &groups);
    let two = rows_with_alive(3, &["kaas-0", "kaas-1"]);
    let second = balance_groups(Some(&first), &two, &groups);
    for g in &second {
        assert!(g.broker == "kaas-0" || g.broker == "kaas-1");
    }
}

#[test]
fn creating_a_topic_moves_no_existing_partition() {
    let b = brokers(3);
    let before = vec![topic("t1", 6), topic("t2", 3), topic("t3", 4)];
    let first = balance(None, &b, &before, &no_floor());
    let mut after = before.clone();
    after.push(topic("newcomer", 5));
    let second = balance(Some(&first), &b, &after, &no_floor());
    for p in &first {
        let q = find(&second, &p.topic, p.partition);
        assert_eq!(
            (&q.broker, q.epoch),
            (&p.broker, p.epoch),
            "{}/{} moved from {} to {}",
            p.topic,
            p.partition,
            p.broker,
            q.broker
        );
    }
    assert!(skew(&second, None, &b) <= 1, "cluster balance preserved");
}

#[test]
fn deleting_a_topic_moves_no_surviving_partition() {
    let b = brokers(3);
    let before = vec![topic("t1", 6), topic("doomed", 3), topic("t3", 4)];
    let first = balance(None, &b, &before, &no_floor());
    let after = vec![topic("t1", 6), topic("t3", 4)];
    let second = balance(Some(&first), &b, &after, &no_floor());
    assert_eq!(second.len(), 10, "only the slots of the deleted topic are gone");
    for p in first.iter().filter(|p| p.topic != "doomed") {
        let q = find(&second, &p.topic, p.partition);
        assert_eq!((&q.broker, q.epoch), (&p.broker, p.epoch), "{}/{} moved", p.topic, p.partition);
    }
}

#[test]
fn every_topic_is_spread_across_the_alive_set() {
    let b = brokers(3);
    let topics: Vec<TopicSpec> = (0..12).map(|i| topic(&format!("t{i}"), 3)).collect();
    let parts = balance(None, &b, &topics, &no_floor());
    for t in &topics {
        assert!(skew(&parts, Some(&t.name), &b) <= 1, "{} is lopsided: {:?}", t.name, counts(&parts, Some(&t.name)));
    }
    assert!(skew(&parts, None, &b) <= 1);
}

#[test]
fn a_lopsided_topic_is_repaired_without_breaking_cluster_balance() {
    let b = brokers(3);
    let topics = vec![topic("big", 9), topic("canary", 3)];
    let prev: Vec<PartitionAssignment> = (0..9)
        .map(|p| PartitionAssignment {
            topic: "big".to_owned(),
            partition: p,
            broker: format!(
                "kaas-{}",
                if p < 4 {
                    0
                } else if p < 8 {
                    1
                } else {
                    2
                }
            ),
            epoch: 1,
            role: PartitionRole::Leader,
        })
        .chain((0..3).map(|p| PartitionAssignment {
            topic: "canary".to_owned(),
            partition: p,
            broker: "kaas-2".to_owned(),
            epoch: 1,
            role: PartitionRole::Leader,
        }))
        .collect();
    let out = balance(Some(&prev), &b, &topics, &no_floor());
    assert!(skew(&out, Some("canary"), &b) <= 1, "canary: {:?}", counts(&out, Some("canary")));
    assert!(skew(&out, None, &b) <= 1, "cluster: {:?}", counts(&out, None));
    assert!(skew(&out, Some("big"), &b) <= 1);
}

#[test]
fn balance_is_idempotent_once_settled() {
    let b = brokers(3);
    let topics = vec![topic("t1", 7), topic("t2", 3), topic("t3", 4)];
    let first = balance(None, &b, &topics, &no_floor());
    let second = balance(Some(&first), &b, &topics, &no_floor());
    assert_eq!(first, second);
    let third = balance(Some(&second), &b, &topics, &no_floor());
    assert_eq!(second, third);
}

#[test]
fn balance_groups_keeps_a_group_that_stopped_being_reported() {
    let r = rows(3);
    let groups = vec![group("streams-app"), group("other")];
    let first = balance_groups(None, &r, &groups);
    let quiet = vec![group("other")];
    let second = balance_groups(Some(&first), &r, &quiet);
    let before = first.iter().find(|g| g.group_id == "streams-app").unwrap();
    let after = second
        .iter()
        .find(|g| g.group_id == "streams-app")
        .expect("an unreported group keeps its coordinator");
    assert_eq!(before, after, "coordinator moved on a missed report");
    let third = balance_groups(Some(&second), &r, &groups);
    assert_eq!(third.iter().find(|g| g.group_id == "streams-app").unwrap(), before);
}

#[test]
fn balance_groups_retires_an_unreported_group_when_its_broker_dies() {
    let groups = vec![group("g")];
    let first = balance_groups(None, &rows(3), &groups);
    let host = first[0].broker.clone();
    let alive: Vec<&str> = ["kaas-0", "kaas-1", "kaas-2"].into_iter().filter(|x| *x != host).collect();
    let survivors = rows_with_alive(3, &alive);
    let second = balance_groups(Some(&first), &survivors, &[]);
    assert!(second.is_empty(), "an unreported group on a dead broker is dropped");
    let third = balance_groups(Some(&first), &survivors, &groups);
    assert_eq!(third.len(), 1);
    assert!(alive.contains(&third[0].broker.as_str()));
    assert_eq!(third[0].epoch, first[0].epoch + 1);
}

#[test]
fn a_minted_entry_confirms_where_the_hash_already_put_the_group() {
    let r = rows(3);
    for id in ["kaas-streams-wordcount", "g1", "my-group", "console-consumer-1", "connect-cluster"] {
        let minted = balance_groups(None, &r, &[group(id)]);
        let broker_side = pick_group_coordinator(id, &r).expect("a broker is alive");
        assert_eq!(minted[0].broker, broker_side, "the entry for {id} would move the group");
    }
}

#[test]
fn a_minted_entry_divides_by_the_full_registered_set() {
    let all_alive = rows(3);
    let one_dead = rows_with_alive(3, &["kaas-0", "kaas-1"]);
    let specs: Vec<GroupSpec> = (0..40).map(|i| group(&format!("group-{i}"))).collect();
    let before = balance_groups(None, &all_alive, &specs);
    let after = balance_groups(None, &one_dead, &specs);
    let moved = before
        .iter()
        .zip(after.iter())
        .filter(|(b, a)| b.broker != "kaas-2" && b.broker != a.broker)
        .count();
    assert_eq!(moved, 0, "a broker loss rehashed groups that it did not host");
    assert!(after.iter().all(|g| g.broker != "kaas-2"));
}

#[test]
fn rendezvous_hash_byte_sequence_pinned() {
    let h = rendezvous_hash("t1", 0, "kaas-0");
    let h_swap = rendezvous_hash("t1", 1, "kaas-0");
    assert_ne!(h, h_swap, "different partition must yield different hash");
}

#[test]
fn rendezvous_hash_is_the_digest_of_the_key() {
    let mut key: Vec<u8> = b"t1".to_vec();
    key.push(0);
    key.extend_from_slice(&[0, 0, 1, 2]);
    key.push(0);
    key.extend_from_slice(b"kaas-0");
    assert_eq!(rendezvous_hash("t1", 258, "kaas-0"), twox_hash::XxHash64::oneshot(0, &key));
    let mut gkey: Vec<u8> = b"g1".to_vec();
    gkey.push(0);
    gkey.extend_from_slice(b"kaas-0");
    assert_eq!(group_hash("g1", "kaas-0"), twox_hash::XxHash64::oneshot(0, &gkey));
}

#[test]
fn xxh64_of_known_bytes() {
    // The key of an empty topic, partition 0 and an empty broker is six zero
    // bytes.
    assert_eq!(rendezvous_hash("", 0, ""), twox_hash::XxHash64::oneshot(0, &[0u8; 6]));
    assert_ne!(rendezvous_hash("", 0, ""), 0);
}

#[test]
fn rendezvous_pick_takes_the_greatest_hash() {
    let b = brokers(5);
    for p in 0..20 {
        let pick = rendezvous_pick("orders", p, &b).unwrap();
        let best = b.iter().map(|x| rendezvous_hash("orders", p, x)).max().unwrap();
        assert_eq!(rendezvous_hash("orders", p, &pick), best);
    }
    let g = rendezvous_pick_group("orders", &b).unwrap();
    let best = b.iter().map(|x| group_hash("orders", x)).max().unwrap();
    assert_eq!(group_hash("orders", &g), best);
    assert_eq!(rendezvous_pick("orders", 0, &[]), None);
    assert_eq!(rendezvous_pick_group("orders", &[]), None);
}

#[test]
fn partition_key_is_topic_and_number() {
    assert_eq!(partition_key("t1", 0), "t1/0");
    assert_eq!(partition_key("a/b", 12), "a/b/12");
    assert_eq!(partition_key("t", -1), "t/-1");
}

#[test]
fn coordinator_slot_is_the_fnv_hash() {
    // FNV-1a of "a" is 0xe40c292c.
    assert_eq!(group_coordinator_slot("a", 10), (0xe40c_292cu32 % 10) as usize);
    assert_eq!(group_coordinator_slot("", 7), (0x811c_9dc5u32 % 7) as usize);
}

#[test]
fn coordinator_is_the_next_alive_broker() {
    let slot = group_coordinator_slot("g", 3);
    let all = rows(3);
    assert_eq!(pick_group_coordinator("g", &all), Some(format!("kaas-{slot}")));
    let mut degraded = rows(3);
    degraded[slot].health = BrokerHealth::Draining;
    assert_eq!(pick_group_coordinator("g", &degraded), Some(format!("kaas-{}", (slot + 1) % 3)));
    for r in degraded.iter_mut() {
        r.health = BrokerHealth::Dead;
    }
    assert_eq!(pick_group_coordinator("g", &degraded), None);
    assert_eq!(pick_group_coordinator("g", &[]), None);
}

#[test]
fn a_move_bumps_the_epoch() {
    let topics = vec![topic("t", 4)];
    let first = balance(None, &brokers(2), &topics, &no_floor());
    let only = vec!["kaas-0".to_owned()];
    let second = balance(Some(&first), &only, &topics, &no_floor());
    for p in &first {
        let q = find(&second, "t", p.partition);
        assert_eq!(q.broker, "kaas-0");
        assert_eq!(q.epoch, if p.broker == "kaas-0" { 1 } else { 2 });
    }
}

#[test]
fn spread_and_balance_hold_together_for_odd_sizes() {
    let b = brokers(4);
    let topics = vec![topic("a", 1), topic("b", 5), topic("c", 7), topic("d", 2), topic("e", 6)];
    let parts = balance(None, &b, &topics, &no_floor());
    assert_eq!(parts.len(), 21);
    assert!(skew(&parts, None, &b) <= 1);
    for t in &topics {
        assert!(skew(&parts, Some(&t.name), &b) <= 1);
    }
}

#[test]
fn epochs_run_out_only_where_they_have_to_rise() {
    let topics = vec![topic("t", 2)];
    let mut prev = balance(None, &brokers(2), &topics, &no_floor());
    for p in &mut prev {
        p.epoch = u32::MAX;
    }
    assert_eq!(checked_balance(Some(&prev), &brokers(2), &topics, &no_floor()), Some(prev.clone()));
    assert_eq!(balance(Some(&prev), &brokers(2), &topics, &no_floor()), prev);
    assert_eq!(checked_balance(Some(&prev), &["kaas-0".to_owned()], &topics, &no_floor()), None);
    assert_eq!(checked_balance(Some(&prev), &["kaas-0".to_owned()], &[], &no_floor()), Some(vec![]));
}

#[test]
fn group_epochs_run_out_only_where_they_have_to_rise() {
    let mut prev = balance_groups(None, &rows(2), &[group("g")]);
    prev[0].epoch = u32::MAX;
    assert_eq!(checked_balance_groups(Some(&prev), &rows(2), &[group("g")]), Some(prev.clone()));
    let other = if prev[0].broker == "kaas-0" { "kaas-1" } else { "kaas-0" };
    assert_eq!(checked_balance_groups(Some(&prev), &rows_with_alive(2, &[other]), &[group("g")]), None);
    assert_eq!(checked_balance_groups(Some(&prev), &rows_with_alive(2, &[other]), &[]), Some(vec![]));
}
