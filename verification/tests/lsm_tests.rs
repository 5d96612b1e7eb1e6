use lsm_tree::lsm::LsmError;
use lsm_tree::LSMTree;

#[test]
fn test_lsm_basic_crud() {
    let mut lsmtree = LSMTree::new();
    lsmtree.put("hello", "world").unwrap();
    lsmtree.put("foo", "bar").unwrap();
    lsmtree.delete("hello").unwrap();
    assert!(lsmtree.get("foo").unwrap() == "bar");
    assert!(lsmtree.get("hello").is_none());
}

#[test]
fn test_lsm_trigger_flush_basic() {
    let mut lsmtree = LSMTree::new();
    lsmtree.put("a", "v1").unwrap();
    let fo = lsmtree.flush_memtable().expect("a non-empty buffer flushes");
    // the durable layer would write this segment as data/1.sst
    assert!(format!("data/{}.sst", fo.new_segment.id) == "data/1.sst");
}

#[test]
fn test_lsm_reads_from_sstable() {
    let mut lsmtree = LSMTree::new();
    lsmtree.put("hello", "world").unwrap();
    lsmtree.put("foo", "bar").unwrap();
    lsmtree.delete("hello").unwrap();
    // force flush memtable so reads can happen from sstable.
    lsmtree.flush_memtable();
    assert!(lsmtree.get("hello").is_none());
    assert!(lsmtree.get("foo").unwrap() == "bar");
}

#[test]
fn test_lsm_recovers_and_reads_older_sstables() {
    let mut lsmtree = LSMTree::new();
    lsmtree.put("hello", "world").unwrap();
    lsmtree.put("foo", "bar").unwrap();
    lsmtree.delete("hello").unwrap();
    let fo = lsmtree.flush_memtable().expect("a non-empty buffer flushes");
    let file = fo.new_segment;
    drop(lsmtree);
    // re-initialize another LSMTree instance against the same durable content.
    let mut lsmtree = LSMTree::new();
    let seg = lsm_tree::format::parse_segment(file.id, &file.content).unwrap();
    lsmtree.sstable_mgr.recover(vec![seg]);
    // confirm that memtable is empty on a new instance.
    assert!(lsmtree.memtable.is_empty());
    assert!(lsmtree.get("hello").is_none());
    assert!(lsmtree.get("foo").unwrap() == "bar");
}

#[test]
fn test_lsm_flush_triggers_compaction() {
    let mut lsmtree = LSMTree::new();
    lsmtree.memtable_limit = 1;
    lsmtree.sstable_mgr.compaction_trigger = 3;

    lsmtree.put("a", "v1").unwrap();
    lsmtree.put("b", "v2").unwrap();
    let fo = lsmtree.put("c", "v3").unwrap().expect("the third put flushes");
    let co = fo.compaction.expect("the third flush compacts");
    // the compacted pair survives under the second id: data/2.sst
    assert!(format!("data/{}.sst", co.merged.id) == "data/2.sst");
    assert!(lsmtree.sstable_mgr.get_sstable(2, "a").is_some());
    assert!(lsmtree.sstable_mgr.get_sstable(2, "b").is_some());
    assert!(lsmtree.sstable_mgr.get_sstable(2, "c").is_none());
}

#[test]
fn test_last_write_wins_in_buffer() {
    let mut t = LSMTree::new();
    t.put("k", "v1").unwrap();
    t.put("k", "v2").unwrap();
    assert_eq!(t.get("k").unwrap(), "v2");
}

#[test]
fn test_last_write_wins_across_flush() {
    let mut t = LSMTree::new();
    t.put("k", "v1").unwrap();
    t.flush_memtable();
    t.put("k", "v2").unwrap();
    assert_eq!(t.get("k").unwrap(), "v2");
    t.flush_memtable();
    assert_eq!(t.get("k").unwrap(), "v2");
}

#[test]
fn test_delete_shadows_after_flush() {
    let mut t = LSMTree::new();
    t.put("k", "v").unwrap();
    t.flush_memtable();
    t.delete("k").unwrap();
    // tombstone still in the buffer
    assert!(t.get("k").is_none());
    t.flush_memtable();
    // tombstone now in a newer segment than the value
    assert!(t.get("k").is_none());
}

#[test]
fn test_flush_empty_buffer_is_noop() {
    let mut t = LSMTree::new();
    assert!(t.flush_memtable().is_none());
    assert_eq!(t.sstable_mgr.sstables.len(), 0);
    assert_eq!(t.sstable_mgr.next_sstable_id, 0);
    t.put("a", "1").unwrap();
    assert!(t.flush_memtable().is_some());
    // the buffer is now empty again: no new segment appears
    assert!(t.flush_memtable().is_none());
    assert_eq!(t.sstable_mgr.sstables.len(), 1);
}

#[test]
fn test_segment_ids_strictly_increase() {
    let mut t = LSMTree::new();
    let mut ids: Vec<u64> = Vec::new();
    let keys = ["a", "b", "c", "d", "e"];
    for k in keys.iter() {
        t.put(k, "v").unwrap();
        let fo = t.flush_memtable().expect("a non-empty buffer flushes");
        ids.push(fo.new_segment.id);
    }
    for w in ids.windows(2) {
        assert!(w[0] < w[1]);
    }
    // the catalog lists the segments in creation order
    let cat: Vec<u64> = t.sstable_mgr.sstables.iter().map(|s| s.id).collect();
    assert_eq!(cat, ids);
}

#[test]
fn test_read_scan_order_newer_segment_wins() {
    let mut t = LSMTree::new();
    t.put("k", "older").unwrap();
    let fo1 = t.flush_memtable().unwrap();
    t.put("k", "newer").unwrap();
    let fo2 = t.flush_memtable().unwrap();
    // the same key sits in two segments with different values
    assert_eq!(
        t.sstable_mgr.get_sstable(fo1.new_segment.id, "k").unwrap().unwrap(),
        "older"
    );
    assert_eq!(
        t.sstable_mgr.get_sstable(fo2.new_segment.id, "k").unwrap().unwrap(),
        "newer"
    );
    // the read answers from the newer one
    assert_eq!(t.get("k").unwrap(), "newer");
}

#[test]
fn test_compaction_drops_tombstone_and_keeps_newest() {
    let mut t = LSMTree::new();
    // older segment: k1 -> "old", k2 -> tombstone
    t.put("k1", "old").unwrap();
    t.delete("k2").unwrap();
    t.flush_memtable().unwrap();
    // newer segment: k1 -> "new", k3 -> "v3"
    t.put("k1", "new").unwrap();
    t.put("k3", "v3").unwrap();
    t.flush_memtable().unwrap();
    let co = t.force_compact().expect("two segments compact");
    assert_eq!(t.sstable_mgr.sstables.len(), 1);
    let id = co.merged.id;
    assert_eq!(
        t.sstable_mgr.get_sstable(id, "k1").unwrap().unwrap(),
        "new"
    );
    assert_eq!(
        t.sstable_mgr.get_sstable(id, "k3").unwrap().unwrap(),
        "v3"
    );
    // the tombstoned key is gone entirely, not carried forward
    assert!(t.sstable_mgr.get_sstable(id, "k2").is_none());
    assert_eq!(co.merged.content, "k1:new\nk3:v3\n");
    assert!(t.get("k1").unwrap() == "new");
    assert!(t.get("k2").is_none());
    assert!(t.get("k3").unwrap() == "v3");
}

#[test]
fn test_end_to_end_threshold_flow() {
    let mut t = LSMTree::new();
    t.memtable_limit = 1;
    t.sstable_mgr.compaction_trigger = 3;
    t.put("a", "v1").unwrap();
    t.put("b", "v2").unwrap();
    t.put("c", "v3").unwrap();
    // two segments remain: the compacted pair and the newest one
    assert_eq!(t.sstable_mgr.sstables.len(), 2);
    let survivor = t.sstable_mgr.sstables[0].id;
    let newest = t.sstable_mgr.sstables[1].id;
    assert!(t.sstable_mgr.get_sstable(survivor, "a").is_some());
    assert!(t.sstable_mgr.get_sstable(survivor, "b").is_some());
    assert!(t.sstable_mgr.get_sstable(survivor, "c").is_none());
    assert!(t.sstable_mgr.get_sstable(newest, "c").is_some());
    assert_eq!(t.get("a").unwrap(), "v1");
    assert_eq!(t.get("b").unwrap(), "v2");
    assert_eq!(t.get("c").unwrap(), "v3");
}

#[test]
fn test_put_rejects_reserved_characters() {
    let mut t = LSMTree::new();
    assert!(matches!(t.put("a:b", "v"), Err(LsmError::InvalidKey)));
    assert!(matches!(t.put("a\nb", "v"), Err(LsmError::InvalidKey)));
    assert!(matches!(t.put("a🪦b", "v"), Err(LsmError::InvalidKey)));
    assert!(matches!(t.put("a", "v:w"), Err(LsmError::InvalidValue)));
    assert!(matches!(t.put("a", "v\nw"), Err(LsmError::InvalidValue)));
    assert!(matches!(t.put("a", "🪦"), Err(LsmError::InvalidValue)));
    assert_eq!(t.delete("a:b"), Err(LsmError::InvalidKey));
    // nothing was buffered by the rejected calls
    assert!(t.memtable.is_empty());
    assert!(t.get("a").is_none());
}

#[test]
fn test_delete_filled_buffer_still_flushes() {
    let mut t = LSMTree::new();
    t.memtable_limit = 2;
    t.put("a", "v").unwrap();
    // deletes never check the threshold, so they can fill the buffer to it
    t.delete("b").unwrap();
    assert_eq!(t.memtable.len(), 2);
    // the next put finds the buffer already at the limit and flushes it
    let fo = t.put("c", "v").unwrap();
    assert!(fo.is_some());
    assert!(t.memtable.is_empty());
    assert_eq!(t.get("a").unwrap(), "v");
    assert!(t.get("b").is_none());
    assert_eq!(t.get("c").unwrap(), "v");
}

#[test]
fn test_recover_sorts_and_seeds_ids() {
    let mut t = LSMTree::new();
    t.put("x", "1").unwrap();
    let f1 = t.flush_memtable().unwrap().new_segment;
    t.put("y", "2").unwrap();
    t.put("x", "3").unwrap();
    let f2 = t.flush_memtable().unwrap().new_segment;
    drop(t);

    let s1 = lsm_tree::format::parse_segment(f1.id, &f1.content).unwrap();
    let s2 = lsm_tree::format::parse_segment(f2.id, &f2.content).unwrap();
    let mut t = LSMTree::new();
    // hand the segments over in the wrong order: recover sorts by id
    t.sstable_mgr.recover(vec![s2, s1]);
    let cat: Vec<u64> = t.sstable_mgr.sstables.iter().map(|s| s.id).collect();
    assert_eq!(cat, vec![1, 2]);
    // reads answer as before the restart
    assert_eq!(t.get("x").unwrap(), "3");
    assert_eq!(t.get("y").unwrap(), "2");
    // the id high-water mark is seeded past every recovered id
    t.put("z", "4").unwrap();
    let f3 = t.flush_memtable().unwrap().new_segment;
    assert_eq!(f3.id, 3);
}

#[test]
fn test_get_sstable_distinguishes_tombstone_from_absent() {
    let mut t = LSMTree::new();
    t.put("a", "1").unwrap();
    t.delete("b").unwrap();
    let id = t.flush_memtable().unwrap().new_segment.id;
    assert_eq!(t.sstable_mgr.get_sstable(id, "a"), Some(Some("1".to_string())));
    assert_eq!(t.sstable_mgr.get_sstable(id, "b"), Some(None));
    assert_eq!(t.sstable_mgr.get_sstable(id, "c"), None);
}
