//! The engine facade: one mutable, key-sorted buffer of pending writes in
//! front of the segment catalog.
//!
//! The abstract state of the whole engine is a map from keys to live values.
//! `put` inserts, `delete` removes, `get` reads that map; flushing the buffer
//! and compacting segments are proved to leave the map untouched.

use vstd::prelude::*;

use crate::format::encode_records;
use crate::manager::catalog_is_push;
use crate::manager::compact_rel;
use crate::manager::compaction_due;
use crate::manager::CompactionOutcome;
use crate::manager::SSTableManager;
use crate::manager::SegmentFile;
use crate::record::check_text;
use crate::record::find_record;
use crate::record::mt_insert;
use crate::record::recs_sorted;
use crate::record::recs_valid;
use crate::record::seg_lookup;
use crate::record::valid_text;
use crate::record::Record;
use crate::segment::catalog_get;
use crate::segment::collapse;
use crate::segment::lemma_segs_lookup_newest;
use crate::segment::lemma_segs_lookup_push;
use crate::segment::segs_lookup;
use crate::segment::Segment;

verus! {

/// Rejected input: a key or value holding a reserved character (the field
/// delimiter, the record terminator or the tombstone marker), which the
/// segment format cannot carry.
#[derive(Clone, Copy, Debug, PartialEq, Eq, Structural)]
pub enum LsmError {
    InvalidKey,
    InvalidValue,
}

/// What a completed flush asks of the durable layer: write and sync the new
/// segment's file, then — when a compaction was triggered — commit that
/// compaction's file actions, in this order.
pub struct FlushOutcome {
    pub new_segment: SegmentFile,
    pub compaction: Option<CompactionOutcome>,
}

/// `post` is the key-sorted buffer `pre` with the one write `k -> v`
/// upserted (`v == None`: a tombstone) and nothing else changed.
pub open spec fn mt_upsert_rel(
    pre: Seq<Record>,
    k: Seq<char>,
    v: Option<Seq<char>>,
    post: Seq<Record>,
) -> bool {
    &&& recs_sorted(post)
    &&& recs_valid(post)
    &&& seg_lookup(post, k) == Some(v)
    &&& forall|q: Seq<char>| q != k ==> seg_lookup(post, q) == seg_lookup(pre, q)
    &&& post.len() == pre.len() + (if seg_lookup(pre, k) is Some {
        0int
    } else {
        1int
    })
}

/// What flushing a non-empty buffer `pre_mt` over the catalog `pre_mgr`
/// guarantees: a fresh id one above the high-water mark, the buffer encoded
/// into the outcome's content, the buffer emptied, the segment registered as
/// the newest — and, exactly when the catalog thereby reaches the trigger,
/// one compaction of the two oldest segments.
pub open spec fn flush_effect(
    pre_mt: Seq<Record>,
    pre_mgr: SSTableManager,
    fo: FlushOutcome,
    post: LSMTree,
) -> bool {
    &&& pre_mt.len() > 0
    &&& fo.new_segment.id == pre_mgr.next_sstable_id + 1
    &&& fo.new_segment.content@ == encode_records(pre_mt)
    &&& post.memtable@.len() == 0
    &&& post.sstable_mgr.next_sstable_id == fo.new_segment.id
    &&& post.sstable_mgr.compaction_trigger == pre_mgr.compaction_trigger
    &&& exists|mid: Seq<Segment>|
        {
            &&& #[trigger] catalog_is_push(pre_mgr.sstables@, fo.new_segment.id, pre_mt, mid)
            &&& match fo.compaction {
                None => !compaction_due(mid.len() as int, pre_mgr.compaction_trigger as int)
                    && post.sstable_mgr.sstables@ == mid,
                Some(co) => compaction_due(mid.len() as int, pre_mgr.compaction_trigger as int)
                    && compact_rel(mid, co, post.sstable_mgr.sstables@),
            }
        }
}

/// The storage engine: a sorted in-memory buffer and the segment catalog.
pub struct LSMTree {
    /// Pending writes, key-sorted, at most one record per key.
    pub memtable: Vec<Record>,
    /// Buffer entry count at which `put` flushes.
    pub memtable_limit: usize,
    /// The catalog of durable segments.
    pub sstable_mgr: SSTableManager,
}

impl LSMTree {
    pub open spec fn wf(self) -> bool {
        &&& recs_sorted(self.memtable@)
        &&& recs_valid(self.memtable@)
        &&& self.sstable_mgr.wf()
    }

    /// The layered probe: the buffer first, then segments newest to oldest.
    /// `None`: nowhere present; `Some(None)`: deleted; `Some(Some(v))`: live.
    pub open spec fn lookup(self, k: Seq<char>) -> Option<Option<Seq<char>>> {
        match seg_lookup(self.memtable@, k) {
            Some(v) => Some(v),
            None => segs_lookup(self.sstable_mgr.sstables@, k),
        }
    }

    /// What a reader sees for one key.
    pub open spec fn spec_get(self, k: Seq<char>) -> Option<Seq<char>> {
        collapse(self.lookup(k))
    }
}

/// The engine's abstract state: the map of live keys to their newest values.
impl View for LSMTree {
    type V = Map<Seq<char>, Seq<char>>;

    open spec fn view(&self) -> Map<Seq<char>, Seq<char>> {
        Map::new(
            |k: Seq<char>| self.spec_get(k) is Some,
            |k: Seq<char>| self.spec_get(k).unwrap(),
        )
    }
}

/// The abstract map reads exactly as `spec_get` answers.
pub proof fn lemma_view_get(t: LSMTree, k: Seq<char>)
    ensures
        t@.contains_key(k) == (t.spec_get(k) is Some),
        t.spec_get(k) is Some ==> t@[k] == t.spec_get(k).unwrap(),
{
}

impl LSMTree {
    /// A fresh engine: empty buffer, empty catalog, default thresholds.
    /// Recovering an existing catalog is a separate step (`recover`).
    pub fn new() -> (r: Self)
        ensures
            r.wf(),
            r@ == Map::<Seq<char>, Seq<char>>::empty(),
            r.memtable@.len() == 0,
            r.memtable_limit == 10,
            r.sstable_mgr.sstables@.len() == 0,
            r.sstable_mgr.next_sstable_id == 0,
            r.sstable_mgr.compaction_trigger == 8,
    {
        let r = LSMTree {
            memtable: Vec::new(),
            memtable_limit: 10,
            sstable_mgr: SSTableManager::new(),
        };
        proof {
            assert forall|k: Seq<char>| r.spec_get(k) is None by {}
            assert(r@ =~= Map::<Seq<char>, Seq<char>>::empty());
        }
        r
    }

    /// Point lookup, newest write wins: the buffer answers first (a buffered
    /// tombstone hides every older value), then segments newest to oldest.
    pub fn get(&self, k: &str) -> (r: Option<String>)
        requires
            self.wf(),
        ensures
            (match r {
                Some(v) => Some(v@),
                None => None::<Seq<char>>,
            }) == self.spec_get(k@),
            match r {
                Some(v) => self@.contains_key(k@) && self@[k@] == v@,
                None => !self@.contains_key(k@),
            },
    {
        proof {
            lemma_view_get(*self, k@);
        }
        match find_record(&self.memtable, k) {
            Some(rec) => match &rec.value {
                Some(v) => Some(v.clone()),
                None => None,
            },
            None => {
                let n = self.sstable_mgr.sstables.len();
                let mut idx: usize = n;
                proof {
                    assert(self.sstable_mgr.sstables@.take(idx as int) =~= self.sstable_mgr.sstables@);
                }
                while idx > 0
                    invariant
                        idx <= self.sstable_mgr.sstables@.len(),
                        seg_lookup(self.memtable@, k@) is None,
                        segs_lookup(self.sstable_mgr.sstables@, k@) == segs_lookup(
                            self.sstable_mgr.sstables@.take(idx as int),
                            k@,
                        ),
                    decreases idx,
                {
                    idx = idx - 1;
                    proof {
                        let tk = self.sstable_mgr.sstables@.take(idx + 1);
                        assert(tk.last() == self.sstable_mgr.sstables@[idx as int]);
                        assert(tk.drop_last() =~= self.sstable_mgr.sstables@.take(idx as int));
                        lemma_view_get(*self, k@);
                    }
                    match find_record(&self.sstable_mgr.sstables[idx].records, k) {
                        Some(rec) => {
                            match &rec.value {
                                Some(v) => {
                                    return Some(v.clone());
                                },
                                None => {
                                    return None;
                                },
                            }
                        },
                        None => {},
                    }
                }
                proof {
                    assert(self.sstable_mgr.sstables@.take(0) =~= Seq::<Segment>::empty());
                }
                None
            },
        }
    }

    /// Buffers the write `k -> v`; rejects a key or value holding a reserved
    /// character. When the buffer has thereby reached its limit — also when
    /// deletes already carried it past the limit — flushes it (and that flush
    /// may trigger one compaction): the returned outcome carries the durable
    /// actions for the caller to apply, in order. An accepted put leaves the
    /// buffer below its limit, or freshly flushed and empty.
    ///
    /// Id-space headroom is a machine limit and is demanded only where this
    /// call can allocate an id, that is where it flushes.
    pub fn put(&mut self, k: &str, v: &str) -> (r: Result<Option<FlushOutcome>, LsmError>)
        requires
            old(self).wf(),
            (valid_text(k@) && valid_text(v@) && old(self).memtable@.len() + (if seg_lookup(
                old(self).memtable@,
                k@,
            ) is Some {
                0int
            } else {
                1int
            }) >= old(self).memtable_limit) ==> old(self).sstable_mgr.next_sstable_id < u64::MAX,
        ensures
            final(self).wf(),
            (r is Ok) <==> (valid_text(k@) && valid_text(v@)),
            r is Err ==> *final(self) == *old(self),
            match r {
                Ok(fo_opt) => {
                    &&& final(self)@ == old(self)@.insert(k@, v@)
                    &&& final(self).memtable_limit == old(self).memtable_limit
                    &&& match fo_opt {
                        None => {
                            &&& mt_upsert_rel(
                                old(self).memtable@,
                                k@,
                                Some(v@),
                                final(self).memtable@,
                            )
                            &&& final(self).memtable@.len() < old(self).memtable_limit
                            &&& final(self).sstable_mgr == old(self).sstable_mgr
                        },
                        Some(fo) => exists|mid: Seq<Record>|
                            {
                                &&& #[trigger] mt_upsert_rel(old(self).memtable@, k@, Some(v@), mid)
                                &&& mid.len() >= old(self).memtable_limit
                                &&& flush_effect(mid, old(self).sstable_mgr, fo, *final(self))
                            },
                    }
                },
                Err(LsmError::InvalidKey) => !valid_text(k@),
                Err(LsmError::InvalidValue) => valid_text(k@) && !valid_text(v@),
            },
    {
        if !check_text(k) {
            return Err(LsmError::InvalidKey);
        }
        if !check_text(v) {
            return Err(LsmError::InvalidValue);
        }
        let rec = Record { key: k.to_owned(), value: Some(v.to_owned()) };
        mt_insert(&mut self.memtable, rec);
        proof {
            assert(self.spec_get(k@) == Some(v@));
            assert forall|q: Seq<char>| q != k@ implies self.spec_get(q) == old(self).spec_get(
                q,
            ) by {}
            assert(self@ =~= old(self)@.insert(k@, v@));
        }
        let ghost mid_t = *self;
        if self.memtable.len() >= self.memtable_limit {
            let fo = self.flush_memtable();
            proof {
                assert(fo is Some);
                assert(mt_upsert_rel(old(self).memtable@, k@, Some(v@), mid_t.memtable@));
            }
            Ok(fo)
        } else {
            Ok(None)
        }
    }

    /// Buffers a tombstone for `k`: the key reads as absent from now on,
    /// whatever older segments still hold. Deletes never trigger a flush.
    pub fn delete(&mut self, k: &str) -> (r: Result<(), LsmError>)
        requires
            old(self).wf(),
        ensures
            final(self).wf(),
            (r is Ok) <==> valid_text(k@),
            r is Err ==> *final(self) == *old(self) && r == Err::<(), LsmError>(
                LsmError::InvalidKey,
            ),
            r is Ok ==> {
                &&& final(self)@ == old(self)@.remove(k@)
                &&& mt_upsert_rel(old(self).memtable@, k@, None, final(self).memtable@)
                &&& final(self).sstable_mgr == old(self).sstable_mgr
                &&& final(self).memtable_limit == old(self).memtable_limit
            },
    {
        if !check_text(k) {
            return Err(LsmError::InvalidKey);
        }
        let rec = Record { key: k.to_owned(), value: None };
        mt_insert(&mut self.memtable, rec);
        proof {
            assert(self.spec_get(k@) is None);
            assert forall|q: Seq<char>| q != k@ implies self.spec_get(q) == old(self).spec_get(
                q,
            ) by {}
            assert(self@ =~= old(self)@.remove(k@));
        }
        Ok(())
    }

    /// Durably retires the buffer: encodes it into a fresh newest segment and
    /// empties it. A flush of an empty buffer is a no-op and creates nothing —
    /// in particular it allocates no id, so headroom in the id space (a
    /// machine limit) is demanded only for a non-empty buffer.
    /// The abstract map is unchanged: flushing moves data, never meaning.
    pub fn flush_memtable(&mut self) -> (r: Option<FlushOutcome>)
        requires
            old(self).wf(),
            old(self).memtable@.len() > 0 ==> old(self).sstable_mgr.next_sstable_id < u64::MAX,
        ensures
            final(self).wf(),
            final(self)@ == old(self)@,
            (r is None) <==> (old(self).memtable@.len() == 0),
            r is None ==> *final(self) == *old(self),
            final(self).memtable_limit == old(self).memtable_limit,
            match r {
                Some(fo) => flush_effect(old(self).memtable@, old(self).sstable_mgr, fo, *final(self)),
                None => true,
            },
    {
        if self.memtable.is_empty() {
            return None;
        }
        let ghost pre = *self;
        let id = self.sstable_mgr.new_sstable();
        let content = crate::format::encode_segment(&self.memtable);
        let mut recs: Vec<Record> = Vec::new();
        core::mem::swap(&mut recs, &mut self.memtable);
        let seg = Segment { id, records: recs };
        self.sstable_mgr.add_sstable(seg);
        let ghost mid_t = *self;
        let ghost mid_cat = self.sstable_mgr.sstables@;
        proof {
            assert(catalog_is_push(pre.sstable_mgr.sstables@, id, pre.memtable@, mid_cat));
            assert forall|k: Seq<char>| mid_t.lookup(k) == pre.lookup(k) by {
                lemma_segs_lookup_push(pre.sstable_mgr.sstables@, seg, k);
            }
        }
        let co = if self.sstable_mgr.should_compact() {
            self.sstable_mgr.compact_sstables()
        } else {
            None
        };
        proof {
            assert forall|k: Seq<char>| self.spec_get(k) == pre.spec_get(k) by {
                assert(mid_t.lookup(k) == pre.lookup(k));
                assert(seg_lookup(self.memtable@, k) is None);
                assert(catalog_get(self.sstable_mgr.sstables@, k) == catalog_get(mid_cat, k));
            }
            assert(self@ =~= pre@);
        }
        Some(FlushOutcome { new_segment: SegmentFile { id, content }, compaction: co })
    }

    /// Compacts the two oldest segments when the catalog has reached the
    /// trigger; otherwise does nothing. Reads never change their answers.
    pub fn compact(&mut self) -> (r: Option<CompactionOutcome>)
        requires
            old(self).wf(),
        ensures
            final(self).wf(),
            final(self)@ == old(self)@,
            (r is Some) <==> compaction_due(
                old(self).sstable_mgr.sstables@.len() as int,
                old(self).sstable_mgr.compaction_trigger as int,
            ),
            r is None ==> *final(self) == *old(self),
            match r {
                Some(co) => compact_rel(
                    old(self).sstable_mgr.sstables@,
                    co,
                    final(self).sstable_mgr.sstables@,
                ),
                None => true,
            },
            final(self).memtable == old(self).memtable,
            final(self).memtable_limit == old(self).memtable_limit,
            final(self).sstable_mgr.next_sstable_id == old(self).sstable_mgr.next_sstable_id,
            final(self).sstable_mgr.compaction_trigger == old(self).sstable_mgr.compaction_trigger,
    {
        if self.sstable_mgr.should_compact() {
            self.force_compact()
        } else {
            None
        }
    }

    /// Compacts the two oldest segments regardless of the trigger; a no-op
    /// on a catalog holding fewer than two.
    pub fn force_compact(&mut self) -> (r: Option<CompactionOutcome>)
        requires
            old(self).wf(),
        ensures
            final(self).wf(),
            final(self)@ == old(self)@,
            (r is Some) <==> old(self).sstable_mgr.sstables@.len() >= 2,
            r is None ==> *final(self) == *old(self),
            match r {
                Some(co) => compact_rel(
                    old(self).sstable_mgr.sstables@,
                    co,
                    final(self).sstable_mgr.sstables@,
                ),
                None => true,
            },
            final(self).memtable == old(self).memtable,
            final(self).memtable_limit == old(self).memtable_limit,
            final(self).sstable_mgr.next_sstable_id == old(self).sstable_mgr.next_sstable_id,
            final(self).sstable_mgr.compaction_trigger == old(self).sstable_mgr.compaction_trigger,
    {
        let ghost pre = *self;
        let r = self.sstable_mgr.compact_sstables();
        proof {
            assert forall|k: Seq<char>| self.spec_get(k) == pre.spec_get(k) by {
                assert(catalog_get(self.sstable_mgr.sstables@, k) == catalog_get(
                    pre.sstable_mgr.sstables@,
                    k,
                ));
            }
            assert(self@ =~= pre@);
        }
        r
    }
}

/// Recovery round-trip: an engine whose buffer is empty (as after a flush,
/// or freshly recovered) answers every read from its catalog alone — so two
/// engines over the same catalog, such as one before a restart and one
/// rebuilt by `recover` from the same segments, answer every `get` alike.
pub proof fn lemma_same_catalog_reads_alike(t1: LSMTree, t2: LSMTree)
    requires
        t1.memtable@.len() == 0,
        t2.memtable@.len() == 0,
        t1.sstable_mgr.sstables@ == t2.sstable_mgr.sstables@,
    ensures
        t1@ == t2@,
{
    assert forall|k: Seq<char>| t1.spec_get(k) == t2.spec_get(k) by {}
    assert(t1@ =~= t2@);
}

/// Last write wins: after two writes to one key — with any flushes or
/// compactions in between, which leave the abstract map untouched — a read
/// of that key sees the second value.
pub proof fn lemma_last_write_wins(
    t0: LSMTree,
    t1: LSMTree,
    t2: LSMTree,
    k: Seq<char>,
    v1: Seq<char>,
    v2: Seq<char>,
)
    requires
        t1@ == t0@.insert(k, v1),
        t2@ == t1@.insert(k, v2),
    ensures
        t2@.contains_key(k) && t2@[k] == v2,
{
}

/// A delete after a write hides the key: a read sees it as absent, whether
/// the pair still sits in the buffer or was flushed into segments (flushing
/// leaves the abstract map untouched).
pub proof fn lemma_delete_hides(t0: LSMTree, t1: LSMTree, t2: LSMTree, k: Seq<char>, v: Seq<char>)
    requires
        t1@ == t0@.insert(k, v),
        t2@ == t1@.remove(k),
    ensures
        !t2@.contains_key(k),
{
}

/// Segment ids encode recency: within a well-formed engine the catalog's ids
/// ascend strictly from oldest to newest, and a flush's fresh id is strictly
/// greater than every live segment's id.
pub proof fn lemma_ids_ascend(t: LSMTree, fo: FlushOutcome, post: LSMTree)
    requires
        t.wf(),
        flush_effect(t.memtable@, t.sstable_mgr, fo, post),
    ensures
        forall|i: int, j: int|
            0 <= i < j < t.sstable_mgr.sstables@.len() ==> t.sstable_mgr.sstables@[i].id
                < t.sstable_mgr.sstables@[j].id,
        forall|i: int|
            0 <= i < t.sstable_mgr.sstables@.len() ==> (#[trigger] t.sstable_mgr.sstables@[i]).id
                < fo.new_segment.id,
{
}

/// Read-scan order: when the buffer is silent on a key, the newest segment
/// holding the key decides — older segments' values for it, whatever they
/// are, never resurface.
pub proof fn lemma_newest_segment_wins(t: LSMTree, j: int, k: Seq<char>, v: Seq<char>)
    requires
        t.wf(),
        seg_lookup(t.memtable@, k) is None,
        0 <= j < t.sstable_mgr.sstables@.len(),
        seg_lookup(t.sstable_mgr.sstables@[j].records@, k) == Some(Some(v)),
        forall|m: int|
            j < m < t.sstable_mgr.sstables@.len() ==> seg_lookup(
                (#[trigger] t.sstable_mgr.sstables@[m]).records@,
                k,
            ) is None,
    ensures
        t@.contains_key(k) && t@[k] == v,
{
    lemma_segs_lookup_newest(t.sstable_mgr.sstables@, j, k);
}

} // verus!
