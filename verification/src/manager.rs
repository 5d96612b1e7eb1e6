//! The segment catalog: issues strictly increasing segment ids, keeps the
//! ordered (oldest-first) list of live segments, reconstructs it on startup
//! from whatever segments were recovered, and compacts the two oldest
//! segments into one without changing what any read answers.
//!
//! The catalog is pure: durable effects (the file to write and sync, the
//! rename that commits a compaction, the removal of the retired file) are
//! described by the returned outcome values and performed by the caller.

use vstd::multiset::Multiset;
use vstd::prelude::*;

use crate::format::encode_records;
use crate::format::encode_segment;
use crate::merge::drop_tombstones;
use crate::merge::lemma_drop_lookup;
use crate::merge::lemma_drop_sorted;
use crate::merge::lemma_merge_lookup;
use crate::merge::lemma_merge_sorted;
use crate::merge::merge_records;
use crate::merge::merge_recs;
use crate::record::find_record;
use crate::record::lemma_sorted_distinct;
use crate::record::seg_lookup;
use crate::record::Record;
use crate::segment::catalog_get;
use crate::segment::collapse;
use crate::segment::lemma_catalog_replace_prefix;
use crate::segment::seg_wf;
use crate::segment::segs_lookup;
use crate::segment::Segment;

verus! {

broadcast use vstd::seq_lib::group_to_multiset_ensures;

/// A segment file to be written durably: its id names the file, the content
/// is the full encoded record batch.
pub struct SegmentFile {
    pub id: u64,
    pub content: String,
}

/// What a committed compaction asks of the durable layer: write and sync a
/// file holding `merged.content`, rename it over the file of `merged.id`
/// (the single commit point), then remove the file of `removed_id`.
pub struct CompactionOutcome {
    pub merged: SegmentFile,
    pub removed_id: u64,
}

/// Segment ids pairwise distinct.
pub open spec fn distinct_ids(segs: Seq<Segment>) -> bool {
    forall|i: int, j: int| 0 <= i < j < segs.len() ==> segs[i].id != segs[j].id
}

/// Compaction fires when the catalog has reached the trigger and holds a pair.
pub open spec fn compaction_due(n: int, trigger: int) -> bool {
    n >= 2 && n >= trigger
}

/// `post` is `pre` with one segment of the given id and records registered
/// as the newest.
pub open spec fn catalog_is_push(
    pre: Seq<Segment>,
    id: u64,
    recs: Seq<Record>,
    post: Seq<Segment>,
) -> bool {
    &&& post.len() == pre.len() + 1
    &&& forall|i: int| 0 <= i < pre.len() ==> post[i] == pre[i]
    &&& post.last().id == id
    &&& post.last().records@ == recs
}

/// `post` is `pre` with its two oldest segments replaced by their merge
/// (younger record wins per key, tombstones dropped), keeping the younger
/// id; `co` names the durable actions that commit it.
pub open spec fn compact_rel(pre: Seq<Segment>, co: CompactionOutcome, post: Seq<Segment>) -> bool {
    &&& pre.len() >= 2
    &&& post.len() == pre.len() - 1
    &&& post[0].id == pre[1].id
    &&& post[0].records@ == drop_tombstones(merge_recs(pre[0].records@, pre[1].records@))
    &&& forall|i: int| 1 <= i < post.len() ==> post[i] == pre[i + 1]
    &&& co.merged.id == pre[1].id
    &&& co.merged.content@ == encode_records(post[0].records@)
    &&& co.removed_id == pre[0].id
}

/// Recovery is deterministic: two catalogs holding the same segments, each
/// ordered by strictly ascending ids, are the same catalog — whatever order
/// the directory listing produced them in.
pub proof fn lemma_sorted_catalog_unique(c1: Seq<Segment>, c2: Seq<Segment>)
    requires
        c1.to_multiset() == c2.to_multiset(),
        forall|i: int, j: int| 0 <= i < j < c1.len() ==> c1[i].id < c1[j].id,
        forall|i: int, j: int| 0 <= i < j < c2.len() ==> c2[i].id < c2[j].id,
    ensures
        c1 == c2,
    decreases c1.len(),
{
    assert(c1.len() == c2.len()) by {
        assert(c1.to_multiset().len() == c1.len());
        assert(c2.to_multiset().len() == c2.len());
    }
    if c1.len() == 0 {
        assert(c1 =~= c2);
    } else {
        let n = c1.len() as int;
        assert(c1.contains(c1.last()));
        assert(c1.to_multiset().count(c1.last()) > 0);
        assert(c2.to_multiset().count(c1.last()) > 0);
        assert(c2.contains(c1.last()));
        let j = choose|j: int| 0 <= j < c2.len() && c2[j] == c1.last();
        assert(c2.contains(c2.last()));
        assert(c1.to_multiset().count(c2.last()) > 0);
        assert(c1.contains(c2.last()));
        let i = choose|i: int| 0 <= i < c1.len() && c1[i] == c2.last();
        // both lasts carry the one maximal id, so they are the same segment
        assert(c2[j].id <= c2.last().id);
        assert(c1[i].id <= c1.last().id);
        assert(c1.last().id == c2.last().id);
        assert(j == n - 1);
        assert(c1.last() == c2.last());
        assert(c1.drop_last().push(c1.last()) =~= c1);
        assert(c2.drop_last().push(c2.last()) =~= c2);
        assert(c1.drop_last().to_multiset() =~= c2.drop_last().to_multiset()) by {
            assert(c1.drop_last().push(c1.last()).to_multiset() == c1.drop_last().to_multiset().insert(c1.last()));
            assert(c2.drop_last().push(c2.last()).to_multiset() == c2.drop_last().to_multiset().insert(c2.last()));
            assert forall|x: Segment|
                c1.drop_last().to_multiset().count(x) == c2.drop_last().to_multiset().count(
                    x,
                ) by {
                assert(c1.drop_last().to_multiset().insert(c1.last()).count(x)
                    == c2.drop_last().to_multiset().insert(c2.last()).count(x));
            }
        }
        assert forall|x: int, y: int| 0 <= x < y < c1.drop_last().len() implies c1.drop_last()[x].id
            < c1.drop_last()[y].id by {
            assert(c1.drop_last()[x] == c1[x] && c1.drop_last()[y] == c1[y]);
        }
        assert forall|x: int, y: int| 0 <= x < y < c2.drop_last().len() implies c2.drop_last()[x].id
            < c2.drop_last()[y].id by {
            assert(c2.drop_last()[x] == c2[x] && c2.drop_last()[y] == c2[y]);
        }
        lemma_sorted_catalog_unique(c1.drop_last(), c2.drop_last());
        assert(c1 =~= c2);
    }
}

/// Owns the ordered list of live segments and the id high-water mark.
pub struct SSTableManager {
    /// The most recently issued id; the next segment gets one greater.
    pub next_sstable_id: u64,
    /// Live segments, oldest first.
    pub sstables: Vec<Segment>,
    /// Segment count at which compaction fires.
    pub compaction_trigger: usize,
}

impl SSTableManager {
    /// Every segment well formed, ids strictly increasing oldest to newest,
    /// and none above the high-water mark.
    pub open spec fn wf(self) -> bool {
        &&& forall|i: int| 0 <= i < self.sstables@.len() ==> seg_wf(#[trigger] self.sstables@[i])
        &&& forall|i: int, j: int|
            0 <= i < j < self.sstables@.len() ==> self.sstables@[i].id < self.sstables@[j].id
        &&& forall|i: int|
            0 <= i < self.sstables@.len() ==> (#[trigger] self.sstables@[i]).id
                <= self.next_sstable_id
    }

    pub fn new() -> (r: Self)
        ensures
            r.wf(),
            r.next_sstable_id == 0,
            r.sstables@.len() == 0,
            r.compaction_trigger == 8,
    {
        SSTableManager { next_sstable_id: 0, sstables: Vec::new(), compaction_trigger: 8 }
    }

    /// Issues the next segment id: strictly greater than every id ever issued
    /// by this catalog, hence greater than every live segment's id.
    pub fn new_sstable(&mut self) -> (id: u64)
        requires
            old(self).wf(),
            old(self).next_sstable_id < u64::MAX,
        ensures
            final(self).wf(),
            id == old(self).next_sstable_id + 1,
            final(self).next_sstable_id == id,
            final(self).sstables == old(self).sstables,
            final(self).compaction_trigger == old(self).compaction_trigger,
            forall|i: int|
                0 <= i < old(self).sstables@.len() ==> (#[trigger] old(self).sstables@[i]).id < id,
    {
        self.next_sstable_id = self.next_sstable_id + 1;
        self.next_sstable_id
    }

    /// Registers a segment at the tail of the catalog: it becomes the newest.
    /// Only to be called once the segment's bytes are durable.
    pub fn add_sstable(&mut self, seg: Segment)
        requires
            old(self).wf(),
            seg_wf(seg),
            seg.id <= old(self).next_sstable_id,
            forall|i: int|
                0 <= i < old(self).sstables@.len() ==> (#[trigger] old(self).sstables@[i]).id
                    < seg.id,
        ensures
            final(self).wf(),
            final(self).sstables@ == old(self).sstables@.push(seg),
            final(self).next_sstable_id == old(self).next_sstable_id,
            final(self).compaction_trigger == old(self).compaction_trigger,
    {
        self.sstables.push(seg);
        proof {
            assert forall|i: int, j: int|
                0 <= i < j < self.sstables@.len() implies self.sstables@[i].id
                < self.sstables@[j].id by {
                if j < self.sstables@.len() - 1 {
                    assert(self.sstables@[j] == old(self).sstables@[j]);
                }
            }
        }
    }

    /// Whether the configured segment count has been reached.
    pub fn should_compact(&self) -> (r: bool)
        ensures
            r == (self.sstables@.len() >= self.compaction_trigger),
    {
        self.sstables.len() >= self.compaction_trigger
    }

    /// Point lookup within the one segment of the given id: `None` when the
    /// key is absent there, `Some(None)` for a tombstone, `Some(Some(v))` for
    /// a live value.
    pub fn get_sstable(&self, sst_file_id: u64, key: &str) -> (r: Option<Option<String>>)
        requires
            self.wf(),
            exists|i: int|
                0 <= i < self.sstables@.len() && (#[trigger] self.sstables@[i]).id == sst_file_id,
        ensures
            exists|i: int|
                0 <= i < self.sstables@.len() && (#[trigger] self.sstables@[i]).id == sst_file_id
                    && seg_lookup(self.sstables@[i].records@, key@) == (match r {
                    None => None,
                    Some(None) => Some(None),
                    Some(Some(v)) => Some(Some(v@)),
                }),
    {
        let n = self.sstables.len();
        let mut i: usize = 0;
        while i < n
            invariant
                n == self.sstables@.len(),
                i <= n,
                exists|j: int|
                    i <= j < self.sstables@.len() && (#[trigger] self.sstables@[j]).id
                        == sst_file_id,
            decreases n - i,
        {
            if self.sstables[i].id == sst_file_id {
                let found = find_record(&self.sstables[i].records, key);
                match found {
                    None => {
                        return None;
                    },
                    Some(rec) => match &rec.value {
                        Some(v) => {
                            return Some(Some(v.clone()));
                        },
                        None => {
                            return Some(None);
                        },
                    },
                }
            }
            i = i + 1;
        }
        proof {
            assert(false);
        }
        None
    }

    /// Rebuilds the catalog on startup: sorts the recovered segments by id
    /// ascending (oldest first) and seeds the id high-water mark to the
    /// largest id found, so no recovered id is ever reissued.
    pub fn recover(&mut self, segments: Vec<Segment>)
        requires
            distinct_ids(segments@),
            forall|i: int| 0 <= i < segments@.len() ==> seg_wf(#[trigger] segments@[i]),
        ensures
            final(self).wf(),
            final(self).sstables@.to_multiset() == segments@.to_multiset(),
            final(self).sstables@.len() == segments@.len(),
            final(self).compaction_trigger == old(self).compaction_trigger,
            forall|i: int|
                0 <= i < segments@.len() ==> (#[trigger] segments@[i]).id
                    <= final(self).next_sstable_id,
            segments@.len() == 0 ==> final(self).next_sstable_id == 0,
            segments@.len() > 0 ==> exists|i: int|
                0 <= i < segments@.len() && (#[trigger] segments@[i]).id
                    == final(self).next_sstable_id,
    {
        broadcast use vstd::seq_lib::group_to_multiset_ensures;

        let mut rest = segments;
        let mut out: Vec<Segment> = Vec::new();
        proof {
            assert(out@.to_multiset().add(rest@.to_multiset()) =~= rest@.to_multiset());
        }
        while rest.len() > 0
            invariant
                out@.to_multiset().add(rest@.to_multiset()) == segments@.to_multiset(),
                out@.len() + rest@.len() == segments@.len(),
                distinct_ids(rest@),
                forall|i: int| 0 <= i < rest@.len() ==> seg_wf(#[trigger] rest@[i]),
                forall|i: int| 0 <= i < out@.len() ==> seg_wf(#[trigger] out@[i]),
                forall|i: int, j: int| 0 <= i < j < out@.len() ==> out@[i].id < out@[j].id,
                forall|i: int, j: int|
                    #![trigger out@[i], rest@[j]]
                    0 <= i < out@.len() && 0 <= j < rest@.len() ==> out@[i].id < rest@[j].id,
                forall|i: int|
                    0 <= i < out@.len() ==> (exists|j: int|
                        0 <= j < segments@.len() && (#[trigger] out@[i]) == segments@[j]),
            decreases rest@.len(),
        {
            let mut mi: usize = 0;
            let mut j: usize = 1;
            while j < rest.len()
                invariant
                    rest@.len() > 0,
                    mi < j,
                    j <= rest@.len(),
                    forall|m: int| 0 <= m < j ==> rest@[mi as int].id <= (#[trigger] rest@[m]).id,
                decreases rest@.len() - j,
            {
                if rest[j].id < rest[mi].id {
                    mi = j;
                }
                j = j + 1;
            }
            let ghost rest0 = rest@;
            let ghost out0 = out@;
            let s = rest.remove(mi);
            out.push(s);
            proof {
                assert(rest@ == rest0.remove(mi as int));
                assert(rest0.to_multiset().count(s) >= 1) by {
                    assert(rest0.contains(s));
                }
                assert(out@.to_multiset().add(rest@.to_multiset()) =~= out0.to_multiset().add(
                    rest0.to_multiset(),
                ));
                assert forall|i: int, j2: int|
                    #![trigger out@[i], rest@[j2]]
                    0 <= i < out@.len() && 0 <= j2 < rest@.len() implies out@[i].id
                    < rest@[j2].id by {
                    let oi = if j2 < mi {
                        j2
                    } else {
                        j2 + 1
                    };
                    assert(rest@[j2] == rest0[oi]);
                    if i < out0.len() {
                        assert(out@[i] == out0[i]);
                    } else {
                        assert(out@[i] == s);
                        assert(s.id <= rest0[oi].id);
                        assert(oi != mi);
                        assert(s.id != rest0[oi].id);
                    }
                }
                assert forall|i: int, j2: int| 0 <= i < j2 < rest@.len() implies rest@[i].id != (
                rest@[j2]).id by {
                    let oi = if i < mi {
                        i
                    } else {
                        i + 1
                    };
                    let oj = if j2 < mi {
                        j2
                    } else {
                        j2 + 1
                    };
                    assert(rest@[i] == rest0[oi]);
                    assert(rest@[j2] == rest0[oj]);
                }
                assert forall|i: int| 0 <= i < rest@.len() implies seg_wf(#[trigger] rest@[i]) by {
                    let oi = if i < mi {
                        i
                    } else {
                        i + 1
                    };
                    assert(rest@[i] == rest0[oi]);
                }
                assert(out@.last() == s);
                assert(segments@.to_multiset().count(s) >= 1);
                assert(segments@.contains(s));
            }
        }
        proof {
            assert(rest@.to_multiset() =~= Multiset::<Segment>::empty());
            assert(out@.to_multiset().add(rest@.to_multiset()) =~= out@.to_multiset());
        }
        self.sstables = out;
        let n = self.sstables.len();
        if n == 0 {
            self.next_sstable_id = 0;
        } else {
            self.next_sstable_id = self.sstables[n - 1].id;
            proof {
                assert forall|i: int|
                    0 <= i < segments@.len() implies (#[trigger] segments@[i]).id <= self.sstables@[n
                    - 1].id by {
                    assert(segments@.contains(segments@[i]));
                    assert(segments@.to_multiset().count(segments@[i]) > 0);
                    assert(self.sstables@.to_multiset().count(segments@[i]) > 0);
                    assert(self.sstables@.contains(segments@[i]));
                    let w = choose|w: int|
                        0 <= w < self.sstables@.len() && self.sstables@[w] == segments@[i];
                    assert(self.sstables@[w].id <= self.sstables@[n - 1].id);
                }
                let li = n - 1;
                assert(self.sstables@.contains(self.sstables@[li]));
                assert(self.sstables@.to_multiset().count(self.sstables@[li]) > 0);
                assert(segments@.to_multiset().count(self.sstables@[li]) > 0);
                assert(segments@.contains(self.sstables@[li]));
            }
        }
    }

    /// Merges the two oldest segments into one that takes the younger id and
    /// the oldest slot, superseded records and tombstones gone. No read over
    /// the catalog changes its answer. With fewer than two segments this is
    /// a no-op.
    pub fn compact_sstables(&mut self) -> (r: Option<CompactionOutcome>)
        requires
            old(self).wf(),
        ensures
            final(self).wf(),
            final(self).next_sstable_id == old(self).next_sstable_id,
            final(self).compaction_trigger == old(self).compaction_trigger,
            (r is Some) <==> old(self).sstables@.len() >= 2,
            r is None ==> *final(self) == *old(self),
            match r {
                Some(co) => compact_rel(old(self).sstables@, co, final(self).sstables@),
                None => true,
            },
            forall|k: Seq<char>|
                catalog_get(final(self).sstables@, k) == catalog_get(old(self).sstables@, k),
    {
        if self.sstables.len() < 2 {
            return None;
        }
        let ghost cat0 = self.sstables@;
        let s_old = self.sstables.remove(0);
        let s_young = self.sstables.remove(0);
        let keep_id = s_young.id;
        let removed_id = s_old.id;
        let ghost a = s_old.records@;
        let ghost b = s_young.records@;
        proof {
            assert(s_old == cat0[0]);
            assert(cat0.remove(0)[0] == cat0[1]);
            assert(s_young == cat0[1]);
            assert(seg_wf(cat0[0]));
            assert(seg_wf(cat0[1]));
        }
        let merged = merge_records(s_old.records, s_young.records);
        let content = encode_segment(&merged);
        let seg = Segment { id: keep_id, records: merged };
        self.sstables.insert(0, seg);
        proof {
            assert(cat0.remove(0).remove(0) =~= cat0.skip(2));
            assert(self.sstables@ =~= seq![seg] + cat0.skip(2));
            assert(cat0 =~= seq![cat0[0], cat0[1]] + cat0.skip(2));
            assert(seg.records@ == drop_tombstones(merge_recs(a, b)));
            // Every read answers as before.
            assert forall|k: Seq<char>|
                catalog_get(self.sstables@, k) == catalog_get(cat0, k) by {
                lemma_merge_sorted(a, b);
                lemma_merge_lookup(a, b, k);
                lemma_sorted_distinct(merge_recs(a, b));
                lemma_drop_lookup(merge_recs(a, b), k);
                let pair = seq![cat0[0], cat0[1]];
                assert(pair.last() == cat0[1]);
                assert(pair.drop_last() =~= seq![cat0[0]]);
                assert(seq![cat0[0]].last() == cat0[0]);
                assert(seq![cat0[0]].drop_last() =~= Seq::<Segment>::empty());
                let single = seq![seg];
                assert(single.last() == seg);
                assert(single.drop_last() =~= Seq::<Segment>::empty());
                assert(cat0[1].records@ == b);
                assert(cat0[0].records@ == a);
                assert(single.len() == 1);
                assert(pair.len() == 2);
                assert(seq![cat0[0]].len() == 1);
                assert(segs_lookup(Seq::<Segment>::empty(), k) is None);
                let lm = seg_lookup(seg.records@, k);
                assert(lm == seg_lookup(drop_tombstones(merge_recs(a, b)), k));
                assert(lm == match seg_lookup(merge_recs(a, b), k) {
                    Some(Some(v)) => Some(Some(v)),
                    _ => None::<Option<Seq<char>>>,
                });
                assert(segs_lookup(single, k) == match lm {
                    Some(v) => Some(v),
                    None => None::<Option<Seq<char>>>,
                });
                assert(segs_lookup(pair, k) == match seg_lookup(b, k) {
                    Some(v) => Some(v),
                    None => segs_lookup(seq![cat0[0]], k),
                });
                assert(segs_lookup(seq![cat0[0]], k) == match seg_lookup(a, k) {
                    Some(v) => Some(v),
                    None => None::<Option<Seq<char>>>,
                });
                assert(collapse(segs_lookup(single, k)) == collapse(segs_lookup(pair, k)));
                lemma_catalog_replace_prefix(single, pair, cat0.skip(2), k);
                assert(seq![seg] + cat0.skip(2) =~= self.sstables@);
                assert(pair + cat0.skip(2) =~= cat0);
            }
            // Well-formedness: the merged segment is sorted and valid, ids
            // still ascend (the kept id was already below every later id).
            lemma_merge_sorted(a, b);
            lemma_drop_sorted(merge_recs(a, b));
            assert forall|i: int, j: int|
                0 <= i < j < self.sstables@.len() implies self.sstables@[i].id
                < self.sstables@[j].id by {
                if i > 0 {
                    assert(self.sstables@[i] == cat0[i + 1]);
                }
                assert(self.sstables@[j] == cat0[j + 1]);
            }
            assert forall|i: int| 0 <= i < self.sstables@.len() implies seg_wf(
                #[trigger] self.sstables@[i],
            ) by {
                if i > 0 {
                    assert(self.sstables@[i] == cat0[i + 1]);
                }
            }
        }
        Some(CompactionOutcome { merged: SegmentFile { id: keep_id, content }, removed_id })
    }
}

} // verus!
