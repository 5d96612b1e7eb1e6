//! Segments and the layered read over a catalog of them.
//!
//! A catalog is a sequence of segments ordered oldest first. A read probes
//! segments newest to oldest and stops at the first record found, live or
//! tombstone: recency strictly dominates.

use vstd::prelude::*;

use crate::record::recs_sorted;
use crate::record::Record;
use crate::record::recs_valid;
use crate::record::seg_lookup;

verus! {

/// An immutable, key-sorted batch of records with a creation-ordered id.
pub struct Segment {
    pub id: u64,
    pub records: Vec<Record>,
}

pub open spec fn seg_wf(s: Segment) -> bool {
    &&& recs_sorted(s.records@)
    &&& recs_valid(s.records@)
}

/// Newest-to-oldest scan over a catalog ordered oldest first: the first
/// segment holding the key decides, with a live value or a tombstone.
pub open spec fn segs_lookup(segs: Seq<Segment>, k: Seq<char>) -> Option<Option<Seq<char>>>
    decreases segs.len(),
{
    if segs.len() == 0 {
        None
    } else {
        match seg_lookup(segs.last().records@, k) {
            Some(v) => Some(v),
            None => segs_lookup(segs.drop_last(), k),
        }
    }
}

/// Collapses a scan outcome to what a reader sees: a tombstone hides the key.
pub open spec fn collapse(o: Option<Option<Seq<char>>>) -> Option<Seq<char>> {
    match o {
        Some(Some(v)) => Some(v),
        _ => None,
    }
}

/// What the catalog alone (no buffer) answers for a key.
pub open spec fn catalog_get(segs: Seq<Segment>, k: Seq<char>) -> Option<Seq<char>> {
    collapse(segs_lookup(segs, k))
}

/// Registering a segment at the tail makes it the newest: it is probed first.
pub proof fn lemma_segs_lookup_push(segs: Seq<Segment>, s: Segment, k: Seq<char>)
    ensures
        segs_lookup(segs.push(s), k) == match seg_lookup(s.records@, k) {
            Some(v) => Some(v),
            None => segs_lookup(segs, k),
        },
{
    assert(segs.push(s).last() == s);
    assert(segs.push(s).drop_last() =~= segs);
}

/// Replacing a prefix of the catalog by one that answers every key the same
/// (after collapsing tombstones) leaves every read over the whole catalog
/// unchanged.
pub proof fn lemma_catalog_replace_prefix(
    pre1: Seq<Segment>,
    pre2: Seq<Segment>,
    rest: Seq<Segment>,
    k: Seq<char>,
)
    requires
        collapse(segs_lookup(pre1, k)) == collapse(segs_lookup(pre2, k)),
    ensures
        collapse(segs_lookup(pre1 + rest, k)) == collapse(segs_lookup(pre2 + rest, k)),
    decreases rest.len(),
{
    if rest.len() == 0 {
        assert(pre1 + rest =~= pre1);
        assert(pre2 + rest =~= pre2);
    } else {
        assert((pre1 + rest).last() == rest.last());
        assert((pre2 + rest).last() == rest.last());
        assert((pre1 + rest).drop_last() =~= pre1 + rest.drop_last());
        assert((pre2 + rest).drop_last() =~= pre2 + rest.drop_last());
        lemma_catalog_replace_prefix(pre1, pre2, rest.drop_last(), k);
    }
}

/// If no segment newer than position `j` holds the key and segment `j` does,
/// the scan answers with segment `j`'s record: the newest holder wins.
pub proof fn lemma_segs_lookup_newest(segs: Seq<Segment>, j: int, k: Seq<char>)
    requires
        0 <= j < segs.len(),
        seg_lookup(segs[j].records@, k) is Some,
        forall|m: int| j < m < segs.len() ==> seg_lookup((#[trigger] segs[m]).records@, k) is None,
    ensures
        segs_lookup(segs, k) == seg_lookup(segs[j].records@, k),
    decreases segs.len(),
{
    if j == segs.len() - 1 {
        assert(segs.last() == segs[j]);
    } else {
        assert(segs.last() == segs[segs.len() - 1]);
        assert(seg_lookup(segs.last().records@, k) is None);
        assert forall|m: int| j < m < segs.drop_last().len() implies seg_lookup(
            (#[trigger] segs.drop_last()[m]).records@,
            k,
        ) is None by {
            assert(segs.drop_last()[m] == segs[m]);
        }
        assert(segs.drop_last()[j] == segs[j]);
        lemma_segs_lookup_newest(segs.drop_last(), j, k);
    }
}

} // verus!
