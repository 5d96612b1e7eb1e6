//! The compactor's heart: a two-pointer merge of two key-sorted record
//! sequences, the younger side winning ties, followed by dropping every
//! tombstone (nothing older than the two oldest segments can remain shadowed).

use vstd::prelude::*;

use crate::lex::lemma_lex_lt_connex;
use crate::lex::lemma_lex_lt_neq;
use crate::lex::lemma_lex_lt_trans;
use crate::lex::lex_lt;
use crate::lex::str_compare;
use crate::record::distinct_keys;
use crate::record::lemma_seg_lookup_none;
use crate::record::lemma_tail;
use crate::record::rec_valid;
use crate::record::recs_sorted;
use crate::record::recs_valid;
use crate::record::seg_lookup;
use crate::record::Record;

verus! {

/// Merge of two key-sorted sequences; on equal keys the record of `b`
/// (the younger side) supersedes the one of `a`.
pub open spec fn merge_recs(a: Seq<Record>, b: Seq<Record>) -> Seq<Record>
    decreases a.len() + b.len(),
{
    if a.len() == 0 {
        b
    } else if b.len() == 0 {
        a
    } else if a[0].key@ == b[0].key@ {
        seq![b[0]] + merge_recs(a.skip(1), b.skip(1))
    } else if lex_lt(a[0].key@, b[0].key@) {
        seq![a[0]] + merge_recs(a.skip(1), b)
    } else {
        seq![b[0]] + merge_recs(a, b.skip(1))
    }
}

/// The records surviving compaction: every tombstone dropped.
pub open spec fn drop_tombstones(rs: Seq<Record>) -> Seq<Record>
    decreases rs.len(),
{
    if rs.len() == 0 {
        Seq::empty()
    } else if rs[0].value is Some {
        seq![rs[0]] + drop_tombstones(rs.skip(1))
    } else {
        drop_tombstones(rs.skip(1))
    }
}

/// A strict lower bound on every key of a record sequence.
pub open spec fn key_lb(lo: Seq<char>, rs: Seq<Record>) -> bool {
    forall|i: int| 0 <= i < rs.len() ==> lex_lt(lo, (#[trigger] rs[i]).key@)
}

proof fn lemma_cons_sorted(x: Record, rs: Seq<Record>)
    requires
        recs_sorted(rs),
        key_lb(x.key@, rs),
    ensures
        recs_sorted(seq![x] + rs),
{
    let ns = seq![x] + rs;
    assert forall|i: int, j: int| 0 <= i < j < ns.len() implies lex_lt(
        ns[i].key@,
        ns[j].key@,
    ) by {
        assert(ns[j] == rs[j - 1]);
        if i > 0 {
            assert(ns[i] == rs[i - 1]);
        }
    }
}

proof fn lemma_merge_lb(lo: Seq<char>, a: Seq<Record>, b: Seq<Record>)
    requires
        key_lb(lo, a),
        key_lb(lo, b),
    ensures
        key_lb(lo, merge_recs(a, b)),
    decreases a.len() + b.len(),
{
    if a.len() == 0 || b.len() == 0 {
    } else {
        lemma_tail(a);
        lemma_tail(b);
        assert forall|i: int| 0 <= i < a.skip(1).len() implies lex_lt(
            lo,
            (#[trigger] a.skip(1)[i]).key@,
        ) by {
            assert(a.skip(1)[i] == a[i + 1]);
        }
        assert forall|i: int| 0 <= i < b.skip(1).len() implies lex_lt(
            lo,
            (#[trigger] b.skip(1)[i]).key@,
        ) by {
            assert(b.skip(1)[i] == b[i + 1]);
        }
        if a[0].key@ == b[0].key@ {
            lemma_merge_lb(lo, a.skip(1), b.skip(1));
        } else if lex_lt(a[0].key@, b[0].key@) {
            lemma_merge_lb(lo, a.skip(1), b);
        } else {
            lemma_merge_lb(lo, a, b.skip(1));
        }
        assert forall|i: int| 0 <= i < merge_recs(a, b).len() implies lex_lt(
            lo,
            (#[trigger] merge_recs(a, b)[i]).key@,
        ) by {}
    }
}

/// Tail keys of a sorted sequence are strictly above its head key.
proof fn lemma_sorted_head_lb(rs: Seq<Record>)
    requires
        recs_sorted(rs),
        rs.len() > 0,
    ensures
        key_lb(rs[0].key@, rs.skip(1)),
{
    assert forall|i: int| 0 <= i < rs.skip(1).len() implies lex_lt(
        rs[0].key@,
        (#[trigger] rs.skip(1)[i]).key@,
    ) by {
        assert(rs.skip(1)[i] == rs[i + 1]);
    }
}

/// The merge of two sorted, valid sequences is sorted and valid.
pub proof fn lemma_merge_sorted(a: Seq<Record>, b: Seq<Record>)
    requires
        recs_sorted(a),
        recs_sorted(b),
        recs_valid(a),
        recs_valid(b),
    ensures
        recs_sorted(merge_recs(a, b)),
        recs_valid(merge_recs(a, b)),
    decreases a.len() + b.len(),
{
    if a.len() == 0 || b.len() == 0 {
    } else {
        lemma_tail(a);
        lemma_tail(b);
        lemma_sorted_head_lb(a);
        lemma_sorted_head_lb(b);
        let m = merge_recs(a, b);
        if a[0].key@ == b[0].key@ {
            lemma_merge_sorted(a.skip(1), b.skip(1));
            lemma_merge_lb(b[0].key@, a.skip(1), b.skip(1));
            lemma_cons_sorted(b[0], merge_recs(a.skip(1), b.skip(1)));
        } else if lex_lt(a[0].key@, b[0].key@) {
            lemma_merge_sorted(a.skip(1), b);
            assert forall|i: int| 0 <= i < b.len() implies lex_lt(
                a[0].key@,
                (#[trigger] b[i]).key@,
            ) by {
                if i > 0 {
                    lemma_lex_lt_trans(a[0].key@, b[0].key@, b[i].key@);
                }
            }
            lemma_merge_lb(a[0].key@, a.skip(1), b);
            lemma_cons_sorted(a[0], merge_recs(a.skip(1), b));
        } else {
            lemma_lex_lt_connex(a[0].key@, b[0].key@);
            lemma_merge_sorted(a, b.skip(1));
            assert forall|i: int| 0 <= i < a.len() implies lex_lt(
                b[0].key@,
                (#[trigger] a[i]).key@,
            ) by {
                if i > 0 {
                    lemma_lex_lt_trans(b[0].key@, a[0].key@, a[i].key@);
                }
            }
            lemma_merge_lb(b[0].key@, a, b.skip(1));
            lemma_cons_sorted(b[0], merge_recs(a, b.skip(1)));
        }
        assert forall|i: int| 0 <= i < m.len() implies rec_valid(#[trigger] m[i]) by {}
    }
}

/// A key below every key of a sorted sequence is not found in it.
proof fn lemma_lookup_below(rs: Seq<Record>, k: Seq<char>)
    requires
        recs_sorted(rs),
        rs.len() > 0,
        lex_lt(k, rs[0].key@),
    ensures
        seg_lookup(rs, k) is None,
{
    assert forall|i: int| 0 <= i < rs.len() implies (#[trigger] rs[i]).key@ != k by {
        if i > 0 {
            lemma_lex_lt_trans(k, rs[0].key@, rs[i].key@);
        }
        lemma_lex_lt_neq(k, rs[i].key@);
    }
    lemma_seg_lookup_none(rs, k);
}

/// Looking a key up in the merge answers as the layered read over the pair
/// does: the younger side decides where it holds the key, the older one else.
pub proof fn lemma_merge_lookup(a: Seq<Record>, b: Seq<Record>, k: Seq<char>)
    requires
        recs_sorted(a),
        recs_sorted(b),
    ensures
        seg_lookup(merge_recs(a, b), k) == match seg_lookup(b, k) {
            Some(v) => Some(v),
            None => seg_lookup(a, k),
        },
    decreases a.len() + b.len(),
{
    if a.len() == 0 || b.len() == 0 {
    } else {
        lemma_tail(a);
        lemma_tail(b);
        let m = merge_recs(a, b);
        if a[0].key@ == b[0].key@ {
            assert(m == seq![b[0]] + merge_recs(a.skip(1), b.skip(1)));
            assert(m[0] == b[0]);
            assert(m.skip(1) =~= merge_recs(a.skip(1), b.skip(1)));
            if k != b[0].key@ {
                lemma_merge_lookup(a.skip(1), b.skip(1), k);
            }
        } else if lex_lt(a[0].key@, b[0].key@) {
            assert(m == seq![a[0]] + merge_recs(a.skip(1), b));
            assert(m[0] == a[0]);
            assert(m.skip(1) =~= merge_recs(a.skip(1), b));
            if k == a[0].key@ {
                lemma_lookup_below(b, k);
            } else {
                lemma_merge_lookup(a.skip(1), b, k);
            }
        } else {
            lemma_lex_lt_connex(a[0].key@, b[0].key@);
            assert(m == seq![b[0]] + merge_recs(a, b.skip(1)));
            assert(m[0] == b[0]);
            assert(m.skip(1) =~= merge_recs(a, b.skip(1)));
            if k == b[0].key@ {
            } else {
                lemma_merge_lookup(a, b.skip(1), k);
            }
        }
    }
}

/// Every surviving record is one of the originals.
proof fn lemma_drop_subset(rs: Seq<Record>)
    ensures
        forall|i: int|
            0 <= i < drop_tombstones(rs).len() ==> exists|j: int|
                0 <= j < rs.len() && #[trigger] drop_tombstones(rs)[i] == rs[j],
    decreases rs.len(),
{
    if rs.len() > 0 {
        lemma_drop_subset(rs.skip(1));
        let d = drop_tombstones(rs);
        let dt = drop_tombstones(rs.skip(1));
        assert forall|i: int| 0 <= i < d.len() implies exists|j: int|
            0 <= j < rs.len() && #[trigger] d[i] == rs[j] by {
            if rs[0].value is Some {
                if i == 0 {
                    assert(d[0] == rs[0]);
                } else {
                    assert(d[i] == dt[i - 1]);
                    let j = choose|j: int| 0 <= j < rs.skip(1).len() && #[trigger] dt[i - 1]
                        == rs.skip(1)[j];
                    assert(rs.skip(1)[j] == rs[j + 1]);
                    assert(d[i] == rs[j + 1]);
                }
            } else {
                assert(d[i] == dt[i]);
                let j = choose|j: int| 0 <= j < rs.skip(1).len() && #[trigger] dt[i] == rs.skip(
                    1,
                )[j];
                assert(rs.skip(1)[j] == rs[j + 1]);
                assert(d[i] == rs[j + 1]);
            }
        }
    }
}

/// Dropping tombstones keeps sortedness and validity.
pub proof fn lemma_drop_sorted(rs: Seq<Record>)
    requires
        recs_sorted(rs),
        recs_valid(rs),
    ensures
        recs_sorted(drop_tombstones(rs)),
        recs_valid(drop_tombstones(rs)),
    decreases rs.len(),
{
    if rs.len() > 0 {
        lemma_tail(rs);
        lemma_drop_sorted(rs.skip(1));
        let d = drop_tombstones(rs);
        let dt = drop_tombstones(rs.skip(1));
        if rs[0].value is Some {
            lemma_drop_subset(rs.skip(1));
            lemma_sorted_head_lb(rs);
            assert forall|i: int| 0 <= i < dt.len() implies lex_lt(
                rs[0].key@,
                (#[trigger] dt[i]).key@,
            ) by {
                let j = choose|j: int| 0 <= j < rs.skip(1).len() && #[trigger] dt[i] == rs.skip(
                    1,
                )[j];
            }
            lemma_cons_sorted(rs[0], dt);
            assert forall|i: int| 0 <= i < d.len() implies rec_valid(#[trigger] d[i]) by {
                if i > 0 {
                    assert(d[i] == dt[i - 1]);
                }
            }
        }
    }
}

/// Looking a key up among the survivors: a live record is kept, a tombstone
/// and an absent key both read as absent.
pub proof fn lemma_drop_lookup(rs: Seq<Record>, k: Seq<char>)
    requires
        distinct_keys(rs),
    ensures
        seg_lookup(drop_tombstones(rs), k) == match seg_lookup(rs, k) {
            Some(Some(v)) => Some(Some(v)),
            _ => None::<Option<Seq<char>>>,
        },
    decreases rs.len(),
{
    if rs.len() > 0 {
        lemma_tail(rs);
        let d = drop_tombstones(rs);
        let dt = drop_tombstones(rs.skip(1));
        lemma_drop_lookup(rs.skip(1), k);
        if rs[0].value is Some {
            assert(d == seq![rs[0]] + dt);
            assert(d[0] == rs[0]);
            assert(d.skip(1) =~= dt);
        } else {
            assert(d == dt);
            if k == rs[0].key@ {
                // The key's only record was a tombstone: it is absent from the tail,
                // hence absent from the survivors of the tail.
                assert forall|i: int| 0 <= i < rs.skip(1).len() implies (#[trigger] rs.skip(
                    1,
                )[i]).key@ != k by {
                    assert(rs.skip(1)[i] == rs[i + 1]);
                }
                lemma_seg_lookup_none(rs.skip(1), k);
                assert(seg_lookup(rs.skip(1), k) is None);
            }
        }
    }
}

/// Merges two key-sorted record batches, the second (younger) one winning on
/// equal keys, and drops every tombstone from the result.
pub fn merge_records(a: Vec<Record>, b: Vec<Record>) -> (r: Vec<Record>)
    requires
        recs_sorted(a@),
        recs_sorted(b@),
        recs_valid(a@),
        recs_valid(b@),
    ensures
        r@ == drop_tombstones(merge_recs(a@, b@)),
        recs_sorted(r@),
        recs_valid(r@),
{
    let ghost ga = a@;
    let ghost gb = b@;
    let mut a = a;
    let mut b = b;
    let mut out: Vec<Record> = Vec::new();
    proof {
        assert(out@ + drop_tombstones(merge_recs(a@, b@)) =~= drop_tombstones(
            merge_recs(ga, gb),
        ));
    }
    while !(a.is_empty() && b.is_empty())
        invariant
            out@ + drop_tombstones(merge_recs(a@, b@)) == drop_tombstones(merge_recs(ga, gb)),
        decreases a@.len() + b@.len(),
    {
        let ghost a0 = a@;
        let ghost b0 = b@;
        let chosen: Record;
        if a.is_empty() {
            chosen = b.remove(0);
            proof {
                assert(b0.remove(0) =~= b0.skip(1));
                assert(merge_recs(a0, b0) == b0);
                assert(b0[0] == chosen);
                assert(b0 =~= seq![chosen] + b@);
                assert(merge_recs(a@, b@) == b@);
            }
        } else if b.is_empty() {
            chosen = a.remove(0);
            proof {
                assert(a0.remove(0) =~= a0.skip(1));
                assert(merge_recs(a0, b0) == a0);
                assert(a0[0] == chosen);
                assert(a0 =~= seq![chosen] + a@);
                assert(merge_recs(a@, b@) == a@);
            }
        } else {
            let c = str_compare(a[0].key.as_str(), b[0].key.as_str());
            match c {
                core::cmp::Ordering::Equal => {
                    chosen = b.remove(0);
                    let discarded = a.remove(0);
                    proof {
                        assert(a0.remove(0) =~= a0.skip(1));
                        assert(b0.remove(0) =~= b0.skip(1));
                        assert(merge_recs(a0, b0) == seq![chosen] + merge_recs(a@, b@));
                    }
                },
                core::cmp::Ordering::Less => {
                    chosen = a.remove(0);
                    proof {
                        assert(a0.remove(0) =~= a0.skip(1));
                        assert(merge_recs(a0, b0) == seq![chosen] + merge_recs(a@, b@));
                    }
                },
                core::cmp::Ordering::Greater => {
                    chosen = b.remove(0);
                    proof {
                        lemma_lex_lt_connex(a0[0].key@, b0[0].key@);
                        assert(b0.remove(0) =~= b0.skip(1));
                        assert(merge_recs(a0, b0) == seq![chosen] + merge_recs(a@, b@));
                    }
                },
            }
        }
        let ghost mids = merge_recs(a@, b@);
        proof {
            assert(merge_recs(a0, b0) == seq![chosen] + mids);
            assert((seq![chosen] + mids)[0] == chosen);
            assert((seq![chosen] + mids).skip(1) =~= mids);
        }
        if chosen.value.is_some() {
            out.push(chosen);
            proof {
                assert(drop_tombstones(seq![chosen] + mids) == seq![chosen] + drop_tombstones(
                    mids,
                ));
                assert(out@ + drop_tombstones(mids) =~= drop_tombstones(merge_recs(ga, gb)));
            }
        } else {
            proof {
                assert(drop_tombstones(seq![chosen] + mids) == drop_tombstones(mids));
            }
        }
    }
    proof {
        assert(merge_recs(a@, b@) =~= Seq::<Record>::empty());
        assert(drop_tombstones(Seq::<Record>::empty()) =~= Seq::<Record>::empty());
        assert(out@ =~= drop_tombstones(merge_recs(ga, gb)));
        lemma_merge_sorted(ga, gb);
        lemma_drop_sorted(merge_recs(ga, gb));
    }
    out
}

} // verus!
