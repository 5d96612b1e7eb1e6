//! Records: one key together with a live value or a tombstone.
//!
//! Both the in-memory buffer and every segment are sequences of records with
//! strictly ascending keys. `seg_lookup` is the one scan semantics everything
//! else is specified against: the first record whose key matches decides.

use vstd::prelude::*;

use crate::lex::lemma_lex_lt_neq;
use crate::lex::lemma_lex_lt_trans;
use crate::lex::lex_lt;
use crate::lex::str_compare;
use crate::lex::str_contains_char;
use crate::lex::str_eq;

verus! {

/// Separates the key from the value inside one encoded record.
pub const FIELD_DELIMITER: char = ':';

/// Terminates one encoded record.
pub const RECORD_TERMINATOR: char = '\n';

/// The reserved value marking a deletion; never legal inside real data.
pub const TOMBSTONE_MARKER: char = '🪦';

/// One buffered or durable write: a live value, or a tombstone (`None`).
pub struct Record {
    pub key: String,
    pub value: Option<String>,
}

/// The value view of a record; `None` is a tombstone.
pub open spec fn rec_val(r: Record) -> Option<Seq<char>> {
    match r.value {
        Some(v) => Some(v@),
        None => None,
    }
}

/// Text that may stand as a key or a value: free of the field delimiter,
/// the record terminator and the tombstone marker.
pub open spec fn valid_text(s: Seq<char>) -> bool {
    &&& !s.contains(FIELD_DELIMITER)
    &&& !s.contains(RECORD_TERMINATOR)
    &&& !s.contains(TOMBSTONE_MARKER)
}

pub open spec fn rec_valid(r: Record) -> bool {
    &&& valid_text(r.key@)
    &&& match r.value {
        Some(v) => valid_text(v@),
        None => true,
    }
}

pub open spec fn recs_valid(rs: Seq<Record>) -> bool {
    forall|i: int| 0 <= i < rs.len() ==> rec_valid(#[trigger] rs[i])
}

/// Keys strictly ascending; implies that each key appears at most once.
pub open spec fn recs_sorted(rs: Seq<Record>) -> bool {
    forall|i: int, j: int| 0 <= i < j < rs.len() ==> lex_lt(rs[i].key@, rs[j].key@)
}

pub open spec fn distinct_keys(rs: Seq<Record>) -> bool {
    forall|i: int, j: int| 0 <= i < j < rs.len() ==> rs[i].key@ != rs[j].key@
}

pub proof fn lemma_sorted_distinct(rs: Seq<Record>)
    requires
        recs_sorted(rs),
    ensures
        distinct_keys(rs),
{
    assert forall|i: int, j: int| 0 <= i < j < rs.len() implies rs[i].key@ != rs[j].key@ by {
        lemma_lex_lt_neq(rs[i].key@, rs[j].key@);
    }
}

/// Linear-scan lookup: the first record whose key is `k` decides.
/// `None`: no record; `Some(None)`: tombstone; `Some(Some(v))`: live value.
pub open spec fn seg_lookup(rs: Seq<Record>, k: Seq<char>) -> Option<Option<Seq<char>>>
    decreases rs.len(),
{
    if rs.len() == 0 {
        None
    } else if rs[0].key@ == k {
        Some(rec_val(rs[0]))
    } else {
        seg_lookup(rs.skip(1), k)
    }
}

/// When keys are distinct, the record at any index decides the lookup of its key.
pub proof fn lemma_seg_lookup_at(rs: Seq<Record>, i: int)
    requires
        distinct_keys(rs),
        0 <= i < rs.len(),
    ensures
        seg_lookup(rs, rs[i].key@) == Some(rec_val(rs[i])),
    decreases rs.len(),
{
    if i > 0 {
        assert(rs[0].key@ != rs[i].key@);
        assert(rs.skip(1)[i - 1] == rs[i]);
        lemma_seg_lookup_at(rs.skip(1), i - 1);
    }
}

/// The tail of a sequence keeps sortedness, key distinctness and validity.
pub proof fn lemma_tail(rs: Seq<Record>)
    requires
        rs.len() > 0,
    ensures
        recs_sorted(rs) ==> recs_sorted(rs.skip(1)),
        distinct_keys(rs) ==> distinct_keys(rs.skip(1)),
        recs_valid(rs) ==> recs_valid(rs.skip(1)),
{
    assert forall|j: int| 0 <= j < rs.skip(1).len() implies (#[trigger] rs.skip(1)[j]) == rs[j
        + 1] by {}
}

pub proof fn lemma_seg_lookup_none(rs: Seq<Record>, k: Seq<char>)
    ensures
        (seg_lookup(rs, k) is None) <==> (forall|i: int|
            0 <= i < rs.len() ==> (#[trigger] rs[i]).key@ != k),
    decreases rs.len(),
{
    if rs.len() > 0 {
        lemma_seg_lookup_none(rs.skip(1), k);
        assert forall|j: int| 0 <= j < rs.skip(1).len() implies (#[trigger] rs.skip(1)[j]) == rs[j
            + 1] by {}
        assert forall|i: int| 1 <= i < rs.len() implies (#[trigger] rs[i]) == rs.skip(1)[i - 1] by {}
    }
}

pub proof fn lemma_seg_lookup_some(rs: Seq<Record>, k: Seq<char>)
    requires
        seg_lookup(rs, k) is Some,
    ensures
        exists|i: int|
            0 <= i < rs.len() && (#[trigger] rs[i]).key@ == k && seg_lookup(rs, k) == Some(
                rec_val(rs[i]),
            ),
    decreases rs.len(),
{
    if rs[0].key@ == k {
        assert(rs[0].key@ == k && seg_lookup(rs, k) == Some(rec_val(rs[0])));
    } else {
        lemma_seg_lookup_some(rs.skip(1), k);
        let j = choose|j: int|
            0 <= j < rs.skip(1).len() && (#[trigger] rs.skip(1)[j]).key@ == k && seg_lookup(
                rs.skip(1),
                k,
            ) == Some(rec_val(rs.skip(1)[j]));
        assert(rs[j + 1] == rs.skip(1)[j]);
        assert(rs[j + 1].key@ == k && seg_lookup(rs, k) == Some(rec_val(rs[j + 1])));
    }
}

/// Replacing the record at a position by one with the same key moves the
/// lookup of that key to the new record and changes no other key.
pub proof fn lemma_seg_lookup_update(rs: Seq<Record>, i: int, rec: Record)
    requires
        distinct_keys(rs),
        0 <= i < rs.len(),
        rec.key@ == rs[i].key@,
    ensures
        seg_lookup(rs.update(i, rec), rec.key@) == Some(rec_val(rec)),
        forall|q: Seq<char>|
            q != rec.key@ ==> seg_lookup(rs.update(i, rec), q) == seg_lookup(rs, q),
    decreases rs.len(),
{
    let ns = rs.update(i, rec);
    if i == 0 {
        assert(ns[0] == rec);
        assert(ns.skip(1) =~= rs.skip(1));
        assert forall|q: Seq<char>| q != rec.key@ implies seg_lookup(ns, q) == seg_lookup(
            rs,
            q,
        ) by {
            assert(seg_lookup(ns, q) == seg_lookup(ns.skip(1), q));
            assert(seg_lookup(rs, q) == seg_lookup(rs.skip(1), q));
        }
    } else {
        assert(ns[0] == rs[0]);
        assert(rs[0].key@ != rec.key@);
        assert(ns.skip(1) =~= rs.skip(1).update(i - 1, rec));
        assert(rs.skip(1)[i - 1] == rs[i]);
        lemma_tail(rs);
        lemma_seg_lookup_update(rs.skip(1), i - 1, rec);
        assert(seg_lookup(ns, rec.key@) == seg_lookup(ns.skip(1), rec.key@));
        assert forall|q: Seq<char>| q != rec.key@ implies seg_lookup(ns, q) == seg_lookup(
            rs,
            q,
        ) by {
            if rs[0].key@ != q {
                assert(seg_lookup(ns, q) == seg_lookup(ns.skip(1), q));
                assert(seg_lookup(rs, q) == seg_lookup(rs.skip(1), q));
            }
        }
    }
}

/// Inserting a record with a fresh key makes that key found and changes no other.
pub proof fn lemma_seg_lookup_insert(rs: Seq<Record>, i: int, rec: Record)
    requires
        0 <= i <= rs.len(),
        forall|j: int| 0 <= j < rs.len() ==> (#[trigger] rs[j]).key@ != rec.key@,
    ensures
        seg_lookup(rs.insert(i, rec), rec.key@) == Some(rec_val(rec)),
        forall|q: Seq<char>|
            q != rec.key@ ==> seg_lookup(rs.insert(i, rec), q) == seg_lookup(rs, q),
    decreases rs.len(),
{
    let ns = rs.insert(i, rec);
    rs.insert_ensures(i, rec);
    if i == 0 {
        assert(ns[0] == rec);
        assert(ns.skip(1) =~= rs);
        assert forall|q: Seq<char>| q != rec.key@ implies seg_lookup(ns, q) == seg_lookup(
            rs,
            q,
        ) by {
            assert(seg_lookup(ns, q) == seg_lookup(ns.skip(1), q));
        }
    } else {
        assert(ns[0] == rs[0]);
        assert(rs[0].key@ != rec.key@);
        assert(ns.skip(1) =~= rs.skip(1).insert(i - 1, rec));
        assert forall|j: int| 0 <= j < rs.skip(1).len() implies (#[trigger] rs.skip(1)[j]).key@
            != rec.key@ by {
            assert(rs.skip(1)[j] == rs[j + 1]);
        }
        lemma_seg_lookup_insert(rs.skip(1), i - 1, rec);
        assert(seg_lookup(ns, rec.key@) == seg_lookup(ns.skip(1), rec.key@));
        assert forall|q: Seq<char>| q != rec.key@ implies seg_lookup(ns, q) == seg_lookup(
            rs,
            q,
        ) by {
            if rs[0].key@ != q {
                assert(seg_lookup(ns, q) == seg_lookup(ns.skip(1), q));
                assert(seg_lookup(rs, q) == seg_lookup(rs.skip(1), q));
            }
        }
    }
}

/// Scans a record sequence for a key; returns the first (and, when keys are
/// distinct, the only) record holding it.
pub fn find_record<'a>(rs: &'a Vec<Record>, k: &str) -> (r: Option<&'a Record>)
    ensures
        match r {
            Some(rec) => seg_lookup(rs@, k@) == Some(rec_val(*rec)),
            None => seg_lookup(rs@, k@) is None,
        },
{
    let n = rs.len();
    let mut i: usize = 0;
    proof {
        assert(rs@.skip(0) =~= rs@);
    }
    while i < n
        invariant
            n == rs@.len(),
            i <= n,
            seg_lookup(rs@, k@) == seg_lookup(rs@.skip(i as int), k@),
        decreases n - i,
    {
        if str_eq(rs[i].key.as_str(), k) {
            return Some(&rs[i]);
        }
        proof {
            assert(rs@.skip(i as int)[0] == rs@[i as int]);
            assert(rs@.skip(i as int).skip(1) =~= rs@.skip(i + 1));
        }
        i = i + 1;
    }
    None
}

/// Validates one field of text: no delimiter, terminator or tombstone marker.
pub fn check_text(s: &str) -> (r: bool)
    ensures
        r == valid_text(s@),
{
    !str_contains_char(s, FIELD_DELIMITER) && !str_contains_char(s, RECORD_TERMINATOR)
        && !str_contains_char(s, TOMBSTONE_MARKER)
}

/// Upserts a record into a key-sorted sequence, keeping it sorted: a later
/// write to the same key overwrites the buffered one in place.
pub fn mt_insert(mt: &mut Vec<Record>, rec: Record)
    requires
        recs_sorted(old(mt)@),
        recs_valid(old(mt)@),
        rec_valid(rec),
    ensures
        recs_sorted(final(mt)@),
        recs_valid(final(mt)@),
        seg_lookup(final(mt)@, rec.key@) == Some(rec_val(rec)),
        forall|q: Seq<char>|
            q != rec.key@ ==> seg_lookup(final(mt)@, q) == seg_lookup(old(mt)@, q),
        final(mt)@.len() == old(mt)@.len() + (if seg_lookup(old(mt)@, rec.key@) is Some {
            0int
        } else {
            1int
        }),
{
    let ghost rs0 = mt@;
    proof {
        lemma_sorted_distinct(rs0);
    }
    let n = mt.len();
    let mut i: usize = 0;
    while i < n
        invariant
            n == mt@.len(),
            i <= n,
            mt@ == rs0,
            old(mt)@ == rs0,
            recs_sorted(rs0),
            distinct_keys(rs0),
            recs_valid(rs0),
            rec_valid(rec),
            forall|j: int| 0 <= j < i ==> lex_lt((#[trigger] rs0[j]).key@, rec.key@),
        decreases n - i,
    {
        let c = str_compare(rec.key.as_str(), mt[i].key.as_str());
        match c {
            core::cmp::Ordering::Equal => {
                proof {
                    lemma_seg_lookup_at(rs0, i as int);
                    lemma_seg_lookup_update(rs0, i as int, rec);
                }
                mt.remove(i);
                mt.insert(i, rec);
                proof {
                    vstd::seq_lib::lemma_update_is_remove_insert(rs0, i as int, rec);
                    assert(mt@ == rs0.update(i as int, rec));
                    assert forall|x: int, y: int| 0 <= x < y < mt@.len() implies lex_lt(
                        mt@[x].key@,
                        mt@[y].key@,
                    ) by {
                        assert(mt@[x].key@ == rs0[x].key@);
                        assert(mt@[y].key@ == rs0[y].key@);
                    }
                    assert forall|j: int| 0 <= j < mt@.len() implies rec_valid(
                        #[trigger] mt@[j],
                    ) by {
                        if j != i {
                            assert(mt@[j] == rs0[j]);
                        }
                    }
                }
                return ;
            },
            core::cmp::Ordering::Less => {
                proof {
                    assert forall|j: int| 0 <= j < rs0.len() implies (#[trigger] rs0[j]).key@
                        != rec.key@ by {
                        if j < i {
                            lemma_lex_lt_neq(rs0[j].key@, rec.key@);
                        } else if j == i {
                            lemma_lex_lt_neq(rec.key@, rs0[j].key@);
                        } else {
                            lemma_lex_lt_trans(rec.key@, rs0[i as int].key@, rs0[j].key@);
                            lemma_lex_lt_neq(rec.key@, rs0[j].key@);
                        }
                    }
                    lemma_seg_lookup_none(rs0, rec.key@);
                    lemma_seg_lookup_insert(rs0, i as int, rec);
                }
                mt.insert(i, rec);
                proof {
                    rs0.insert_ensures(i as int, rec);
                    assert forall|x: int, y: int| 0 <= x < y < mt@.len() implies lex_lt(
                        mt@[x].key@,
                        mt@[y].key@,
                    ) by {
                        if y < i {
                            assert(mt@[x] == rs0[x] && mt@[y] == rs0[y]);
                        } else if y == i {
                            assert(mt@[x] == rs0[x] && mt@[y] == rec);
                        } else if x < i {
                            assert(mt@[x] == rs0[x] && mt@[y] == rs0[y - 1]);
                            if y - 1 == i {
                                lemma_lex_lt_trans(rs0[x].key@, rec.key@, rs0[i as int].key@);
                            }
                        } else if x == i {
                            assert(mt@[x] == rec && mt@[y] == rs0[y - 1]);
                            if y - 1 > i {
                                lemma_lex_lt_trans(rec.key@, rs0[i as int].key@, rs0[y - 1].key@);
                            }
                        } else {
                            assert(mt@[x] == rs0[x - 1] && mt@[y] == rs0[y - 1]);
                        }
                    }
                    assert forall|j: int| 0 <= j < mt@.len() implies rec_valid(#[trigger] mt@[j]) by {
                        assert(j < i ==> mt@[j] == rs0[j]);
                        assert(j == i ==> mt@[j] == rec);
                        assert(j > i ==> mt@[j] == rs0[j - 1]);
                    }
                }
                return ;
            },
            core::cmp::Ordering::Greater => {
                i = i + 1;
            },
        }
    }
    proof {
        assert forall|j: int| 0 <= j < rs0.len() implies (#[trigger] rs0[j]).key@ != rec.key@ by {
            lemma_lex_lt_neq(rs0[j].key@, rec.key@);
        }
        lemma_seg_lookup_none(rs0, rec.key@);
        lemma_seg_lookup_insert(rs0, rs0.len() as int, rec);
        rs0.insert_ensures(rs0.len() as int, rec);
    }
    mt.push(rec);
    proof {
        assert(mt@ =~= rs0.insert(rs0.len() as int, rec));
        rs0.insert_ensures(rs0.len() as int, rec);
        assert forall|x: int, y: int| 0 <= x < y < mt@.len() implies lex_lt(
            mt@[x].key@,
            mt@[y].key@,
        ) by {
            assert(mt@[x] == rs0[x]);
            assert(y == rs0.len() ==> mt@[y] == rec);
            assert(y < rs0.len() ==> mt@[y] == rs0[y]);
        }
    }
}

} // verus!
