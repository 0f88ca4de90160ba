use kaas::fence::FenceStamp;
use kaas::keyed::TextMap;
use kaas::offset_store::{file_name, group_ids_on_disk, key_has_topic, offset_key, purge_file, FencedOffsetWrite, FetchSpec, GroupOffsets, OffsetFile, OffsetStore, Purge};
use std::collections::HashMap;

// The files, kept in memory.
type Disk = HashMap<String, OffsetFile>;

fn copy(g: &GroupOffsets) -> GroupOffsets {
    let mut offsets: TextMap<i64> = TextMap::new();
    for k in g.offsets.sorted_keys() {
        let v = *g.offsets.get(&k).unwrap();
        offsets.insert(k, v);
    }
    let mut metadata: TextMap<String> = TextMap::new();
    for k in g.metadata.sorted_keys() {
        let v = g.metadata.get(&k).unwrap().clone();
        metadata.insert(k, v);
    }
    GroupOffsets { offsets, metadata }
}

fn write(s: &mut OffsetStore, disk: &mut Disk, local: FenceStamp, group: &str, g: GroupOffsets) -> Result<(), FencedOffsetWrite> {
    let on_disk = disk.get(group).map(|f| f.fence);
    let file = s.write_group(group, g, local, on_disk)?;
    disk.insert(group.to_owned(), file);
    s.write_finished(group, true);
    Ok(())
}

fn commit_md(
    s: &mut OffsetStore,
    disk: &mut Disk,
    local: FenceStamp,
    group: &str,
    offsets: &TextMap<i64>,
    md: &TextMap<String>,
) -> Result<bool, FencedOffsetWrite> {
    match s.commit_with_metadata(group, offsets, md) {
        Some(g) => {
            write(s, disk, local, group, g)?;
            Ok(true)
        }
        None => Ok(false),
    }
}

fn commit(s: &mut OffsetStore, disk: &mut Disk, group: &str, offsets: &TextMap<i64>) -> bool {
    commit_md(s, disk, stamp(0, 0), group, offsets, &TextMap::new()).unwrap()
}

fn load(s: &mut OffsetStore, disk: &Disk, group: &str) {
    if let Some(f) = disk.get(group) {
        s.load(group, copy(&f.group));
    }
}

fn purge(s: &mut OffsetStore, disk: &mut Disk, group: &str, topic: &str) -> usize {
    match s.purge_topic(group, topic) {
        Purge::Write { count, group: g } => {
            write(s, disk, stamp(0, 0), group, g).unwrap();
            count
        }
        Purge::Nothing => 0,
        Purge::NotHeld => match disk.get(group).and_then(|f| purge_file(copy(&f.group), topic)) {
            Some((n, left)) => {
                let fence = disk[group].fence;
                disk.insert(group.to_owned(), OffsetFile { group: left, fence });
                n
            }
            None => 0,
        },
    }
}

fn one(topic: &str, partition: i32, offset: i64) -> TextMap<i64> {
    let mut m: TextMap<i64> = TextMap::new();
    m.insert(offset_key(topic, partition), offset);
    m
}

fn spec(topic: &str, partitions: Vec<i32>) -> FetchSpec {
    FetchSpec { topic: topic.to_owned(), partitions }
}

fn stamp(epoch: i64, version: i64) -> FenceStamp {
    FenceStamp { controller_epoch: epoch, assignment_version: version }
}

#[test]
fn commit_then_fetch_roundtrips() {
    let mut s = OffsetStore::new();
    s.commit("g1", &one("t1", 0, 42));
    let got = s.fetch("g1", &[spec("t1", vec![0, 1])]);
    assert_eq!(got.get("t1/0"), Some(&42));
    assert_eq!(got.get("t1/1"), Some(&-1));
}

#[test]
fn commit_with_metadata_persists() {
    let mut s = OffsetStore::new();
    let mut md: TextMap<String> = TextMap::new();
    md.insert(offset_key("t1", 0), "consumer-1".to_owned());
    s.commit_with_metadata("g1", &one("t1", 0, 42), &md);
    let got_md = s.fetch_metadata("g1", &[spec("t1", vec![0])]);
    assert_eq!(got_md.get("t1/0").map(String::as_str), Some("consumer-1"));
}

#[test]
fn empty_metadata_clears_entry() {
    let mut s = OffsetStore::new();
    let mut md: TextMap<String> = TextMap::new();
    md.insert(offset_key("t1", 0), "tag".to_owned());
    s.commit_with_metadata("g1", &one("t1", 0, 1), &md);
    md.insert(offset_key("t1", 0), String::new());
    s.commit_with_metadata("g1", &one("t1", 0, 2), &md);
    let got_md = s.fetch_metadata("g1", &[spec("t1", vec![0])]);
    assert_eq!(got_md.len(), 0);
}

#[test]
fn load_reads_v2_envelope_from_disk() {
    let mut disk = Disk::new();
    let mut s1 = OffsetStore::new();
    assert!(commit(&mut s1, &mut disk, "g1", &one("t1", 0, 7)));
    let mut s2 = OffsetStore::new();
    load(&mut s2, &disk, "g1");
    let got = s2.fetch("g1", &[spec("t1", vec![0])]);
    assert_eq!(got.get("t1/0"), Some(&7));
}

#[test]
fn delete_drops_cache_and_file() {
    let mut disk = Disk::new();
    let mut s = OffsetStore::new();
    commit(&mut s, &mut disk, "g1", &one("t1", 0, 1));
    assert!(disk.contains_key("g1"));
    s.delete("g1");
    disk.remove("g1");
    assert!(!s.has_group("g1"));
    s.delete("g1");
    assert!(!s.has_group("g1"));
}

#[test]
fn delete_partitions_removes_only_requested_keys() {
    let mut s = OffsetStore::new();
    let mut both = one("t1", 0, 10);
    both.insert(offset_key("t1", 1), 20);
    s.commit("g1", &both);
    let (removed, _) = s.delete_partitions("g1", &[offset_key("t1", 0), offset_key("t1", 99)]).unwrap();
    assert_eq!(removed.len(), 1);
    assert_eq!(removed[0], "t1/0");
    let got = s.fetch("g1", &[spec("t1", vec![0, 1])]);
    assert_eq!(got.get("t1/0"), Some(&-1));
    assert_eq!(got.get("t1/1"), Some(&20));
}

#[test]
fn pending_invisible_to_fetch_until_commit_pending() {
    let mut s = OffsetStore::new();
    s.store_pending("g1", 100, &one("t1", 0, 555));
    let got = s.fetch("g1", &[spec("t1", vec![0])]);
    assert_eq!(got.get("t1/0"), Some(&-1));
    assert_eq!(s.pending_for("g1", 100).unwrap().get("t1/0"), Some(&555));
    s.commit_pending("g1", 100);
    let got = s.fetch("g1", &[spec("t1", vec![0])]);
    assert_eq!(got.get("t1/0"), Some(&555));
    assert!(s.pending_for("g1", 100).is_none());
}

#[test]
fn discard_pending_drops_unmaterialised_offsets() {
    let mut s = OffsetStore::new();
    s.store_pending("g1", 100, &one("t1", 0, 555));
    s.discard_pending("g1", 100);
    assert!(s.commit_pending("g1", 100).is_none());
    let got = s.fetch("g1", &[spec("t1", vec![0])]);
    assert_eq!(got.get("t1/0"), Some(&-1));
}

#[test]
fn delete_partitions_survives_a_reload() {
    let mut disk = Disk::new();
    let mut s = OffsetStore::new();
    let mut both = one("t1", 0, 10);
    both.insert(offset_key("t1", 1), 20);
    commit(&mut s, &mut disk, "g1", &both);
    let (_, left) = s.delete_partitions("g1", &[offset_key("t1", 0)]).unwrap();
    write(&mut s, &mut disk, stamp(0, 0), "g1", left).unwrap();
    let mut fresh = OffsetStore::new();
    load(&mut fresh, &disk, "g1");
    let got = fresh.fetch("g1", &[spec("t1", vec![0, 1])]);
    assert_eq!(got.get("t1/0"), Some(&-1), "deleted key came back");
    assert_eq!(got.get("t1/1"), Some(&20), "surviving offset was lost");
}

#[test]
fn purge_topic_drops_only_that_topic() {
    let mut disk = Disk::new();
    let mut s = OffsetStore::new();
    let mut m = one("gone", 0, 10);
    m.insert(offset_key("gone", 1), 11);
    m.insert(offset_key("stays", 0), 20);
    commit(&mut s, &mut disk, "g1", &m);
    assert_eq!(purge(&mut s, &mut disk, "g1", "gone"), 2);
    let mut fresh = OffsetStore::new();
    load(&mut fresh, &disk, "g1");
    let got = fresh.fetch("g1", &[spec("gone", vec![0, 1]), spec("stays", vec![0])]);
    assert_eq!(got.get("gone/0"), Some(&-1));
    assert_eq!(got.get("gone/1"), Some(&-1));
    assert_eq!(got.get("stays/0"), Some(&20));
}

#[test]
fn purge_topic_reaches_a_group_never_materialised_here() {
    let mut disk = Disk::new();
    let mut writer = OffsetStore::new();
    commit(&mut writer, &mut disk, "g1", &one("gone", 0, 51_607));
    let mut fresh = OffsetStore::new();
    assert!(!fresh.has_group("g1"), "precondition: cold cache");
    assert_eq!(purge(&mut fresh, &mut disk, "g1", "gone"), 1);
    assert!(!fresh.has_group("g1"), "a purge must not bring the group in");
    let mut after = OffsetStore::new();
    load(&mut after, &disk, "g1");
    let got = after.fetch("g1", &[spec("gone", vec![0])]);
    assert_eq!(got.get("gone/0"), Some(&-1));
}

#[test]
fn purge_topic_drops_the_metadata_with_the_offset() {
    let mut disk = Disk::new();
    let mut s = OffsetStore::new();
    let mut meta: TextMap<String> = TextMap::new();
    meta.insert(offset_key("gone", 0), "leader-epoch-3".to_owned());
    commit_md(&mut s, &mut disk, stamp(0, 0), "g1", &one("gone", 0, 10), &meta).unwrap();
    purge(&mut s, &mut disk, "g1", "gone");
    let mut fresh = OffsetStore::new();
    load(&mut fresh, &disk, "g1");
    assert_eq!(fresh.fetch_metadata("g1", &[spec("gone", vec![0])]).len(), 0);
}

#[test]
fn purge_topic_splits_the_key_from_the_right() {
    let mut disk = Disk::new();
    let mut s = OffsetStore::new();
    let mut m = one("a/b", 0, 10);
    m.insert(offset_key("a", 0), 20);
    commit(&mut s, &mut disk, "g1", &m);
    assert_eq!(purge(&mut s, &mut disk, "g1", "a"), 1);
    let got = s.fetch("g1", &[spec("a/b", vec![0]), spec("a", vec![0])]);
    assert_eq!(got.get("a/b/0"), Some(&10), "sibling topic was eaten");
    assert_eq!(got.get("a/0"), Some(&-1));
}

#[test]
fn purge_topic_is_a_noop_for_unknown_group_or_topic() {
    let mut disk = Disk::new();
    let mut s = OffsetStore::new();
    commit(&mut s, &mut disk, "g1", &one("t1", 0, 10));
    assert_eq!(purge(&mut s, &mut disk, "nosuchgroup", "t1"), 0);
    assert_eq!(purge(&mut s, &mut disk, "g1", "nosuchtopic"), 0);
    assert_eq!(purge(&mut s, &mut disk, "g1", "t1"), 1);
    assert_eq!(purge(&mut s, &mut disk, "g1", "t1"), 0);
}

#[test]
fn a_stale_coordinators_write_is_fenced_and_the_winners_offsets_survive() {
    let mut disk = Disk::new();
    let none: TextMap<String> = TextMap::new();
    let mut old = OffsetStore::new();
    commit_md(&mut old, &mut disk, stamp(3, 5), "g1", &one("t1", 0, 10), &none).unwrap();

    let mut new = OffsetStore::new();
    load(&mut new, &disk, "g1");
    commit_md(&mut new, &mut disk, stamp(3, 6), "g1", &one("t1", 0, 99), &none).unwrap();

    let err = commit_md(&mut old, &mut disk, stamp(3, 5), "g1", &one("t1", 1, 11), &none).unwrap_err();
    assert_eq!(err, FencedOffsetWrite { on_disk: stamp(3, 6), local: stamp(3, 5) });
    assert_eq!(
        err.message(),
        "offset write fenced: on-disk assignment FenceStamp { controller_epoch: 3, assignment_version: 6 } newer than local FenceStamp { controller_epoch: 3, assignment_version: 5 }"
    );

    let mut fresh = OffsetStore::new();
    load(&mut fresh, &disk, "g1");
    let got = fresh.fetch("g1", &[spec("t1", vec![0])]);
    assert_eq!(got.get("t1/0"), Some(&99), "stale write clobbered the file");
}

#[test]
fn fence_orders_controller_epoch_before_version() {
    assert!(stamp(4, 0) > stamp(3, 999));
    assert!(stamp(3, 6) > stamp(3, 5));
    assert_eq!(stamp(0, 0), FenceStamp::default());
    assert!(stamp(4, 0).newer_than(stamp(3, 999)));
    assert!(!stamp(3, 5).newer_than(stamp(3, 5)));
    assert!(stamp(0, 0).is_zero());
    assert!(!stamp(0, 1).is_zero());
}

#[test]
fn an_unstamped_legacy_file_is_writable_by_any_fence() {
    let mut disk = Disk::new();
    let none: TextMap<String> = TextMap::new();
    let mut legacy = OffsetStore::new();
    commit(&mut legacy, &mut disk, "g1", &one("t1", 0, 5));
    let mut s = OffsetStore::new();
    load(&mut s, &disk, "g1");
    commit_md(&mut s, &mut disk, stamp(7, 1), "g1", &one("t1", 0, 6), &none).unwrap();
    assert_eq!(disk["g1"].fence, stamp(7, 1));
}

#[test]
fn an_unchanged_commit_skips_the_disk_write() {
    let mut disk = Disk::new();
    let mut s = OffsetStore::new();
    assert!(commit(&mut s, &mut disk, "g1", &one("t1", 0, 42)));
    disk.remove("g1");
    assert!(!commit(&mut s, &mut disk, "g1", &one("t1", 0, 42)));
    assert!(!disk.contains_key("g1"), "unchanged commit still rewrote the file");
    assert!(commit(&mut s, &mut disk, "g1", &one("t1", 0, 43)));
    assert!(disk.contains_key("g1"));
}

#[test]
fn a_failed_write_disables_the_skip_until_a_write_lands() {
    let mut disk = Disk::new();
    let mut s = OffsetStore::new();
    assert!(s.commit("g1", &one("t1", 0, 42)).is_some());
    s.write_finished("g1", false);
    assert!(commit(&mut s, &mut disk, "g1", &one("t1", 0, 42)), "a group that lags is written again");
    let mut fresh = OffsetStore::new();
    load(&mut fresh, &disk, "g1");
    let got = fresh.fetch("g1", &[spec("t1", vec![0])]);
    assert_eq!(got.get("t1/0"), Some(&42), "the retry was skipped");
    assert!(!commit(&mut s, &mut disk, "g1", &one("t1", 0, 42)));
}

#[test]
fn keys_belong_to_one_topic() {
    assert_eq!(offset_key("a/b", 3), "a/b/3");
    assert!(key_has_topic("a/b/3", "a/b"));
    assert!(!key_has_topic("a/b/3", "a"));
    assert!(!key_has_topic("a/b/x", "a/b"));
    assert!(!key_has_topic("nokey", "nokey"));
}

#[test]
fn files_are_named_after_their_groups() {
    assert_eq!(file_name("g1"), "g1.json");
    let names: Vec<String> = ["g1.json", "g1.json.tmp", "notes.txt", ".json", "a.b.json"].iter().map(|n| (*n).to_owned()).collect();
    assert_eq!(group_ids_on_disk(&names), vec!["g1".to_owned(), String::new(), "a.b".to_owned()]);
}

#[test]
fn group_ids_on_disk_is_empty_without_a_directory() {
    assert!(group_ids_on_disk(&Vec::new()).is_empty());
}
