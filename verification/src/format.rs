//! The on-disk segment format: newline-terminated records, `key:value` per
//! line, with one reserved marker value standing for a tombstone.
//!
//! Decoding a malformed line is a fatal error for the segment, never a silent
//! skip: a dropped record could resurrect or hide data. Encoding followed by
//! decoding is proved to be the identity on valid, sorted record batches.

use vstd::prelude::*;
use vstd::string::StrSliceExecFns;
use vstd::string::StringExecFns;

use crate::lex::lemma_lex_lt_trans;
use crate::lex::lex_lt;
use crate::lex::str_lt;
use crate::segment::seg_wf;
use crate::segment::Segment;
use crate::record::check_text;
use crate::record::rec_val;
use crate::record::rec_valid;
use crate::record::recs_sorted;
use crate::record::recs_valid;
use crate::record::valid_text;
use crate::record::Record;
use crate::record::FIELD_DELIMITER;
use crate::record::RECORD_TERMINATOR;
use crate::record::TOMBSTONE_MARKER;

verus! {

/// Why a segment's bytes were rejected.
#[derive(Clone, Copy, Debug, PartialEq, Eq, Structural)]
pub enum FormatError {
    /// A line holds no field delimiter at all.
    MissingDelimiter,
    /// A key or value field holds a reserved character.
    ForbiddenCharacter,
    /// The content ends in an unterminated record.
    UnterminatedLine,
    /// Record keys are not strictly ascending.
    OutOfOrder,
}

/// Index of the first occurrence of `c`, or the length when absent.
pub open spec fn find_char(s: Seq<char>, c: char) -> int
    decreases s.len(),
{
    if s.len() == 0 {
        0
    } else if s[0] == c {
        0
    } else {
        1 + find_char(s.skip(1), c)
    }
}

pub proof fn lemma_find_char(s: Seq<char>, c: char)
    ensures
        0 <= find_char(s, c) <= s.len(),
        find_char(s, c) < s.len() ==> s[find_char(s, c)] == c,
        forall|j: int| 0 <= j < find_char(s, c) ==> s[j] != c,
        find_char(s, c) == s.len() ==> !s.contains(c),
    decreases s.len(),
{
    if s.len() > 0 && s[0] != c {
        lemma_find_char(s.skip(1), c);
        assert forall|j: int| 1 <= j < find_char(s, c) implies s[j] != c by {
            assert(s[j] == s.skip(1)[j - 1]);
        }
        if find_char(s, c) == s.len() && s.contains(c) {
            let w = choose|w: int| 0 <= w < s.len() && s[w] == c;
        }
    }
}

/// `find_char` is pinned by a prefix free of `c` followed by `c` (or the end).
pub proof fn lemma_find_char_at(s: Seq<char>, c: char, i: int)
    requires
        0 <= i <= s.len(),
        forall|j: int| 0 <= j < i ==> s[j] != c,
        i < s.len() ==> s[i] == c,
    ensures
        find_char(s, c) == i,
    decreases s.len(),
{
    if i == 0 {
    } else {
        assert(s[0] != c);
        assert forall|j: int| 0 <= j < i - 1 implies s.skip(1)[j] != c by {
            assert(s.skip(1)[j] == s[j + 1]);
        }
        assert(i - 1 < s.skip(1).len() ==> s.skip(1)[i - 1] == c);
        lemma_find_char_at(s.skip(1), c, i - 1);
    }
}

pub proof fn lemma_find_char_concat(x: Seq<char>, y: Seq<char>, c: char)
    requires
        !x.contains(c),
    ensures
        find_char(x + seq![c] + y, c) == x.len(),
{
    let s = x + seq![c] + y;
    assert forall|j: int| 0 <= j < x.len() implies s[j] != c by {
        assert(s[j] == x[j]);
    }
    assert(s[x.len() as int] == c);
    lemma_find_char_at(s, c, x.len() as int);
}

/// Finds the first occurrence of `c` in `s`; returns the length when absent.
pub fn str_find_char(s: &str, c: char) -> (r: usize)
    ensures
        r as int == find_char(s@, c),
{
    let n = s.unicode_len();
    let mut i: usize = 0;
    while i < n
        invariant
            n == s@.len(),
            i <= n,
            forall|j: int| 0 <= j < i ==> s@[j] != c,
        decreases n - i,
    {
        if s.get_char(i) == c {
            proof {
                lemma_find_char_at(s@, c, i as int);
            }
            return i;
        }
        i = i + 1;
    }
    proof {
        lemma_find_char_at(s@, c, n as int);
    }
    n
}

/// What one line decodes to: the key and its value (`None`: tombstone), or
/// nothing when the line is malformed.
pub open spec fn parse_line(line: Seq<char>) -> Option<(Seq<char>, Option<Seq<char>>)> {
    let d = find_char(line, FIELD_DELIMITER);
    if d == line.len() {
        None
    } else {
        let key = line.take(d);
        let val = line.skip(d + 1);
        if !valid_text(key) {
            None
        } else if val == seq![TOMBSTONE_MARKER] {
            Some((key, None))
        } else if !valid_text(val) {
            None
        } else {
            Some((key, Some(val)))
        }
    }
}

/// Decodes one `key:value` line; the reserved marker value is a tombstone.
pub fn read_kv_line(line: &str) -> (r: Result<Record, FormatError>)
    ensures
        (r is Ok) <==> (parse_line(line@) is Some),
        match r {
            Ok(rec) => parse_line(line@) == Some((rec.key@, rec_val(rec))) && rec_valid(rec),
            Err(FormatError::MissingDelimiter) => !line@.contains(FIELD_DELIMITER),
            Err(FormatError::ForbiddenCharacter) => line@.contains(FIELD_DELIMITER),
            Err(_) => false,
        },
{
    proof {
        lemma_find_char(line@, FIELD_DELIMITER);
    }
    let n = line.unicode_len();
    let d = str_find_char(line, FIELD_DELIMITER);
    if d == n {
        return Err(FormatError::MissingDelimiter);
    }
    assert(line@[find_char(line@, FIELD_DELIMITER)] == FIELD_DELIMITER);
    let key_s = line.substring_char(0, d);
    let val_s = line.substring_char(d + 1, n);
    proof {
        assert(key_s@ =~= line@.take(d as int));
        assert(val_s@ =~= line@.skip(d + 1));
    }
    if !check_text(key_s) {
        return Err(FormatError::ForbiddenCharacter);
    }
    if val_s.unicode_len() == 1 && val_s.get_char(0) == TOMBSTONE_MARKER {
        proof {
            assert(val_s@ =~= seq![TOMBSTONE_MARKER]);
        }
        Ok(Record { key: key_s.to_owned(), value: None })
    } else if !check_text(val_s) {
        proof {
            if val_s@ == seq![TOMBSTONE_MARKER] {
                assert(val_s@[0] == TOMBSTONE_MARKER);
            }
        }
        return Err(FormatError::ForbiddenCharacter);
    } else {
        proof {
            if val_s@ == seq![TOMBSTONE_MARKER] {
                assert(val_s@.len() == 1 && val_s@[0] == TOMBSTONE_MARKER);
            }
        }
        Ok(Record { key: key_s.to_owned(), value: Some(val_s.to_owned()) })
    }
}

/// The encoding of one value field: the value itself, or the tombstone marker.
pub open spec fn encode_val(v: Option<Seq<char>>) -> Seq<char> {
    match v {
        Some(s) => s,
        None => seq![TOMBSTONE_MARKER],
    }
}

/// The encoding of one record: `key`, delimiter, value field, terminator.
pub open spec fn encode_record(r: Record) -> Seq<char> {
    r.key@ + seq![FIELD_DELIMITER] + encode_val(rec_val(r)) + seq![RECORD_TERMINATOR]
}

/// The full content of a segment: records encoded in storage order.
pub open spec fn encode_records(rs: Seq<Record>) -> Seq<char>
    decreases rs.len(),
{
    if rs.len() == 0 {
        Seq::empty()
    } else {
        encode_record(rs[0]) + encode_records(rs.skip(1))
    }
}

/// The views of a record batch: pairs of key and value (`None`: tombstone).
pub open spec fn rec_views(rs: Seq<Record>) -> Seq<(Seq<char>, Option<Seq<char>>)> {
    rs.map_values(|r: Record| (r.key@, rec_val(r)))
}

pub open spec fn views_sorted(vs: Seq<(Seq<char>, Option<Seq<char>>)>) -> bool {
    forall|i: int, j: int| 0 <= i < j < vs.len() ==> lex_lt(vs[i].0, vs[j].0)
}

/// What a full segment content decodes to, line by line; `None` when any
/// line is malformed or the final line is unterminated.
pub open spec fn parse_content(s: Seq<char>) -> Option<Seq<(Seq<char>, Option<Seq<char>>)>>
    decreases s.len(),
    via parse_content_dec
{
    if s.len() == 0 {
        Some(Seq::empty())
    } else {
        let nl = find_char(s, RECORD_TERMINATOR);
        if nl == s.len() {
            None
        } else {
            match parse_line(s.take(nl)) {
                None => None,
                Some(kv) => match parse_content(s.skip(nl + 1)) {
                    None => None,
                    Some(rest) => Some(seq![kv] + rest),
                },
            }
        }
    }
}

#[via_fn]
proof fn parse_content_dec(s: Seq<char>) {
    lemma_find_char(s, RECORD_TERMINATOR);
}

/// A decodable segment content: every line parses and keys ascend strictly.
pub open spec fn content_ok(s: Seq<char>) -> bool {
    match parse_content(s) {
        Some(vs) => views_sorted(vs),
        None => false,
    }
}

/// Record batches and their views ascend together.
pub proof fn lemma_rec_views_sorted(rs: Seq<Record>)
    ensures
        views_sorted(rec_views(rs)) == recs_sorted(rs),
{
    assert forall|i: int| 0 <= i < rs.len() implies (#[trigger] rec_views(rs)[i]).0
        == rs[i].key@ by {}
    if recs_sorted(rs) {
        assert forall|i: int, j: int| 0 <= i < j < rec_views(rs).len() implies lex_lt(
            rec_views(rs)[i].0,
            rec_views(rs)[j].0,
        ) by {}
    }
    if views_sorted(rec_views(rs)) {
        assert forall|i: int, j: int| 0 <= i < j < rs.len() implies lex_lt(
            rs[i].key@,
            rs[j].key@,
        ) by {
            assert(rec_views(rs)[i].0 == rs[i].key@);
            assert(rec_views(rs)[j].0 == rs[j].key@);
        }
    }
}

/// Serializes a record batch in storage order.
pub fn encode_segment(records: &Vec<Record>) -> (s: String)
    ensures
        s@ == encode_records(records@),
{
    let mut out = String::new();
    let n = records.len();
    let mut i: usize = 0;
    proof {
        assert(records@.skip(0) =~= records@);
    }
    while i < n
        invariant
            n == records@.len(),
            i <= n,
            out@ + encode_records(records@.skip(i as int)) == encode_records(records@),
        decreases n - i,
    {
        let ghost out0 = out@;
        let rec = &records[i];
        out.append(rec.key.as_str());
        out.append(":");
        match &rec.value {
            Some(v) => out.append(v.as_str()),
            None => out.append("🪦"),
        }
        out.append("\n");
        proof {
            reveal_strlit(":");
            reveal_strlit("\n");
            reveal_strlit("🪦");
            assert(":"@ =~= seq![FIELD_DELIMITER]);
            assert("\n"@ =~= seq![RECORD_TERMINATOR]);
            assert("🪦"@ =~= seq![TOMBSTONE_MARKER]);
            assert(out@ =~= out0 + encode_record(records@[i as int]));
            assert(records@.skip(i as int)[0] == records@[i as int]);
            assert(records@.skip(i as int).skip(1) =~= records@.skip(i + 1));
            assert(encode_records(records@.skip(i as int)) == encode_record(records@[i as int])
                + encode_records(records@.skip(i + 1)));
            assert(out@ + encode_records(records@.skip(i + 1)) =~= out0 + encode_records(
                records@.skip(i as int),
            ));
        }
        i = i + 1;
    }
    proof {
        assert(records@.skip(n as int) =~= Seq::<Record>::empty());
        assert(out@ =~= encode_records(records@));
    }
    out
}

/// Deserializes a full segment content. Fails on any malformed line, an
/// unterminated final record, or keys out of order — corruption must surface,
/// since a silently dropped record could resurrect or hide data.
pub fn parse_segment(id: u64, content: &str) -> (r: Result<Segment, FormatError>)
    ensures
        (r is Ok) <==> content_ok(content@),
        match r {
            Ok(seg) => {
                &&& parse_content(content@) == Some(rec_views(seg.records@))
                &&& seg.id == id
                &&& seg_wf(seg)
            },
            Err(_) => true,
        },
{
    let n = content.unicode_len();
    let mut p: usize = 0;
    let mut records: Vec<Record> = Vec::new();
    proof {
        assert(content@.skip(0) =~= content@);
        assert(rec_views(records@) =~= Seq::<(Seq<char>, Option<Seq<char>>)>::empty());
        if parse_content(content@) is Some {
            let vs = parse_content(content@).unwrap();
            assert(rec_views(records@) + vs =~= vs);
        }
    }
    while p < n
        invariant
            n == content@.len(),
            p <= n,
            recs_sorted(records@),
            recs_valid(records@),
            match parse_content(content@.skip(p as int)) {
                Some(rest) => parse_content(content@) == Some(rec_views(records@) + rest),
                None => parse_content(content@) is None,
            },
        decreases n - p,
    {
        let ghost sp = content@.skip(p as int);
        let rest_s = content.substring_char(p, n);
        proof {
            assert(rest_s@ =~= sp);
        }
        let m = rest_s.unicode_len();
        let nl = str_find_char(rest_s, RECORD_TERMINATOR);
        proof {
            lemma_find_char(sp, RECORD_TERMINATOR);
        }
        if nl == m {
            return Err(FormatError::UnterminatedLine);
        }
        let line = rest_s.substring_char(0, nl);
        proof {
            assert(line@ =~= sp.take(nl as int));
        }
        let rec = match read_kv_line(line) {
            Ok(rec) => rec,
            Err(e) => {
                proof {
                    assert(parse_content(sp) is None);
                }
                return Err(e);
            },
        };
        let ghost tail = sp.skip(nl + 1);
        proof {
            assert(parse_content(sp) == match parse_content(tail) {
                None => None::<Seq<(Seq<char>, Option<Seq<char>>)>>,
                Some(rest2) => Some(seq![(rec.key@, rec_val(rec))] + rest2),
            });
        }
        if records.len() > 0 {
            let last_idx = records.len() - 1;
            if !str_lt(records[last_idx].key.as_str(), rec.key.as_str()) {
                proof {
                    if parse_content(content@) is Some {
                        let rest = parse_content(sp).unwrap();
                        let rest2 = parse_content(tail).unwrap();
                        let vs = parse_content(content@).unwrap();
                        assert(vs == rec_views(records@) + (seq![(rec.key@, rec_val(rec))]
                            + rest2));
                        let li = records@.len() - 1;
                        assert(vs[li].0 == rec_views(records@)[li].0);
                        assert(rec_views(records@)[li].0 == records@[li].key@);
                        assert(vs[li + 1].0 == rec.key@);
                        assert(!views_sorted(vs));
                    }
                }
                return Err(FormatError::OutOfOrder);
            }
        }
        let ghost recs0 = records@;
        records.push(rec);
        proof {
            assert forall|x: int, y: int| 0 <= x < y < records@.len() implies lex_lt(
                records@[x].key@,
                records@[y].key@,
            ) by {
                if y < recs0.len() {
                    assert(records@[x] == recs0[x] && records@[y] == recs0[y]);
                } else {
                    assert(records@[y] == rec);
                    if x < recs0.len() - 1 {
                        lemma_lex_lt_trans(
                            recs0[x].key@,
                            recs0[recs0.len() - 1].key@,
                            rec.key@,
                        );
                    }
                }
            }
            assert(rec_views(records@) =~= rec_views(recs0) + seq![(rec.key@, rec_val(rec))]);
            if parse_content(tail) is Some {
                let rest2 = parse_content(tail).unwrap();
                assert(rec_views(recs0) + (seq![(rec.key@, rec_val(rec))] + rest2) =~= rec_views(
                    records@,
                ) + rest2);
            }
            assert(sp.skip(nl + 1) =~= content@.skip(p + nl + 1));
        }
        p = p + nl + 1;
    }
    proof {
        assert(content@.skip(p as int) =~= Seq::<char>::empty());
        assert(parse_content(content@) == Some(rec_views(records@)));
        lemma_rec_views_sorted(records@);
    }
    Ok(Segment { id, records })
}

/// No character of an encoded line (before its terminator) is the terminator.
proof fn lemma_line_clean(r: Record)
    requires
        rec_valid(r),
    ensures
        !(r.key@ + seq![FIELD_DELIMITER] + encode_val(rec_val(r))).contains(RECORD_TERMINATOR),
{
    let line = r.key@ + seq![FIELD_DELIMITER] + encode_val(rec_val(r));
    let kl = r.key@.len() as int;
    assert forall|j: int| 0 <= j < line.len() implies line[j] != RECORD_TERMINATOR by {
        if j < kl {
            assert(line[j] == r.key@[j]);
            if r.key@[j] == RECORD_TERMINATOR {
                assert(r.key@.contains(RECORD_TERMINATOR));
            }
        } else if j == kl {
            assert(line[j] == FIELD_DELIMITER);
        } else {
            let v = encode_val(rec_val(r));
            assert(line[j] == v[j - kl - 1]);
            match r.value {
                Some(s) => {
                    if s@[j - kl - 1] == RECORD_TERMINATOR {
                        assert(s@.contains(RECORD_TERMINATOR));
                    }
                },
                None => {
                    assert(v =~= seq![TOMBSTONE_MARKER]);
                },
            }
        }
    }
    if line.contains(RECORD_TERMINATOR) {
        let w = choose|w: int| 0 <= w < line.len() && line[w] == RECORD_TERMINATOR;
    }
}

/// Decoding inverts encoding: a valid record batch, serialized, parses back
/// to exactly its own views.
pub proof fn lemma_round_trip(rs: Seq<Record>)
    requires
        recs_valid(rs),
    ensures
        parse_content(encode_records(rs)) == Some(rec_views(rs)),
    decreases rs.len(),
{
    if rs.len() == 0 {
        assert(rec_views(rs) =~= Seq::<(Seq<char>, Option<Seq<char>>)>::empty());
    } else {
        let r0 = rs[0];
        let line = r0.key@ + seq![FIELD_DELIMITER] + encode_val(rec_val(r0));
        let s = encode_records(rs);
        let tail_enc = encode_records(rs.skip(1));
        assert(s =~= line + seq![RECORD_TERMINATOR] + tail_enc);
        lemma_line_clean(r0);
        lemma_find_char_concat(line, tail_enc, RECORD_TERMINATOR);
        let nl = find_char(s, RECORD_TERMINATOR);
        assert(nl == line.len());
        assert(nl < s.len());
        assert(s.take(nl) =~= line);
        assert(s.skip(nl + 1) =~= tail_enc);
        // The line itself parses to this record's views.
        assert(!r0.key@.contains(FIELD_DELIMITER));
        lemma_find_char_concat(r0.key@, encode_val(rec_val(r0)), FIELD_DELIMITER);
        let kl = r0.key@.len() as int;
        assert(find_char(line, FIELD_DELIMITER) == kl);
        assert(line.take(kl) =~= r0.key@);
        assert(line.skip(kl + 1) =~= encode_val(rec_val(r0)));
        match r0.value {
            Some(v) => {
                if v@ == seq![TOMBSTONE_MARKER] {
                    assert(v@[0] == TOMBSTONE_MARKER);
                    assert(v@.contains(TOMBSTONE_MARKER));
                }
                assert(parse_line(line) == Some((r0.key@, Some(v@))));
            },
            None => {
                assert(parse_line(line) == Some((r0.key@, None::<Seq<char>>)));
            },
        }
        crate::record::lemma_tail(rs);
        lemma_round_trip(rs.skip(1));
        assert(parse_content(s) == Some(
            seq![(r0.key@, rec_val(r0))] + rec_views(rs.skip(1)),
        ));
        assert(seq![(r0.key@, rec_val(r0))] + rec_views(rs.skip(1)) =~= rec_views(rs));
    }
}

/// The full round trip for a well-formed segment: its encoded content is
/// decodable and reconstructs the same views.
pub proof fn lemma_segment_round_trip(rs: Seq<Record>)
    requires
        recs_valid(rs),
        recs_sorted(rs),
    ensures
        content_ok(encode_records(rs)),
        parse_content(encode_records(rs)) == Some(rec_views(rs)),
{
    lemma_round_trip(rs);
    lemma_rec_views_sorted(rs);
}

} // verus!
