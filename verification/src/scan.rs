//! Line scanner: locates delimiter and record-terminator offsets inside a
//! byte range and gives the range its meaning as a sequence of records.
//!
//! A record is `key;value` terminated by a newline; the final record of a
//! range may lack the terminator. The key is everything before the first
//! delimiter of the remaining range; the value is everything between that
//! delimiter and the next newline (or the end of the range).

use vstd::prelude::*;
use crate::decode::{ParseError, valid_value, decoded_value};

verus! {

/// ASCII `';'`, the field delimiter.
pub const SEMICOLON: u8 = 59;

/// ASCII `'\n'`, the record terminator.
pub const NEWLINE: u8 = 10;

/// `i` is the offset of the first occurrence of `c` in `s`.
pub open spec fn is_first_at(s: Seq<u8>, c: u8, i: int) -> bool {
    &&& 0 <= i < s.len()
    &&& s[i] == c
    &&& forall|j: int| 0 <= j < i ==> s[j] != c
}

/// `c` occurs in `s` (phrased through its first occurrence).
pub open spec fn has_first(s: Seq<u8>, c: u8) -> bool {
    exists|i: int| is_first_at(s, c, i)
}

/// The offset of the first occurrence of `c` in `s`; meaningful only when
/// `has_first(s, c)`.
pub open spec fn first_at(s: Seq<u8>, c: u8) -> int {
    choose|i: int| is_first_at(s, c, i)
}

/// Any occurrence of `c` yields a first occurrence.
pub proof fn lemma_has_first(s: Seq<u8>, c: u8, i: int)
    requires
        0 <= i < s.len(),
        s[i] == c,
    ensures
        has_first(s, c),
        first_at(s, c) <= i,
    decreases i,
{
    if exists|j: int| 0 <= j < i && s[j] == c {
        let j = choose|j: int| 0 <= j < i && s[j] == c;
        lemma_has_first(s, c, j);
    } else {
        assert(is_first_at(s, c, i));
    }
    let f = first_at(s, c);
    assert(is_first_at(s, c, f));
    if f > i {
        assert(s[i] != c);
    }
}

/// The first occurrence is unique.
pub proof fn lemma_first_at_unique(s: Seq<u8>, c: u8, i: int, j: int)
    requires
        is_first_at(s, c, i),
        is_first_at(s, c, j),
    ensures
        i == j,
{
    if i < j {
        assert(s[i] != c);
    }
    if j < i {
        assert(s[j] != c);
    }
}

/// Relies on `memchr::memchr`: returns `Some` of the index of the first
/// occurrence of `needle` in `haystack`, and `None` when `needle` does not
/// occur in `haystack`.
#[verifier::external_body]
pub(crate) fn find_byte(needle: u8, haystack: &[u8]) -> (r: Option<usize>)
    ensures
        match r {
            Some(i) => is_first_at(haystack@, needle, i as int),
            None => forall|j: int| 0 <= j < haystack@.len() ==> haystack@[j] != needle,
        },
{
    memchr::memchr(needle, haystack)
}

/// A decoded record: the key bytes and the scaled value.
pub type RecordModel = (Seq<u8>, int);

/// The meaning of a byte range as a sequence of decoded records, or the
/// error on which scanning or decoding stops first.
///
/// The range is consumed record by record: the key is everything before the
/// first delimiter (scanning fails with `MalformedRecord` when a non-empty
/// remainder holds none); the value is everything between the delimiter and
/// the next newline, or the end of the range when no newline follows
/// (decoding fails with `InvalidNumberFormat` when it does not match the
/// fixed form).
pub open spec fn parse_records(s: Seq<u8>) -> Result<Seq<RecordModel>, ParseError>
    decreases s.len(),
{
    if s.len() == 0 {
        Ok(Seq::empty())
    } else if !has_first(s, SEMICOLON) {
        Err(ParseError::MalformedRecord)
    } else {
        let sp = first_at(s, SEMICOLON);
        let key = s.take(sp);
        let rest0 = s.skip(sp + 1);
        if has_first(rest0, NEWLINE) {
            let np = first_at(rest0, NEWLINE);
            let value = rest0.take(np);
            let rest = rest0.skip(np + 1);
            if !valid_value(value) {
                Err(ParseError::InvalidNumberFormat)
            } else {
                match parse_records(rest) {
                    Ok(rs) => Ok(seq![(key, decoded_value(value))] + rs),
                    Err(e) => Err(e),
                }
            }
        } else {
            if !valid_value(rest0) {
                Err(ParseError::InvalidNumberFormat)
            } else {
                Ok(seq![(key, decoded_value(rest0))])
            }
        }
    }
}

/// A parsed range yields at most one record per byte.
pub proof fn lemma_parse_records_len(s: Seq<u8>)
    requires
        parse_records(s) is Ok,
    ensures
        parse_records(s)->Ok_0.len() <= s.len(),
    decreases s.len(),
{
    reveal_with_fuel(parse_records, 2);
    if s.len() == 0 {
    } else {
        let sp = first_at(s, SEMICOLON);
        assert(is_first_at(s, SEMICOLON, sp));
        let rest0 = s.skip(sp + 1);
        if has_first(rest0, NEWLINE) {
            let np = first_at(rest0, NEWLINE);
            assert(is_first_at(rest0, NEWLINE, np));
            let rest = rest0.skip(np + 1);
            lemma_parse_records_len(rest);
        }
    }
}

/// A key free of record terminators.
pub open spec fn key_clean(k: Seq<u8>) -> bool {
    forall|j: int| 0 <= j < k.len() ==> k[j] != NEWLINE
}

/// Every record's key is free of record terminators: the shape every input
/// of one record per line has.
pub open spec fn clean_keys(rs: Seq<RecordModel>) -> bool {
    forall|i: int| 0 <= i < rs.len() ==> key_clean((#[trigger] rs[i]).0)
}

/// Scanning continues across a boundary after a complete record: the records
/// of a terminated range followed by more bytes are its own records followed
/// by those of the rest, and the first error of the rest is kept.
pub proof fn lemma_parse_concat(a: Seq<u8>, b: Seq<u8>)
    requires
        parse_records(a) is Ok,
        a.len() == 0 || a[a.len() - 1] == NEWLINE,
    ensures
        parse_records(a + b) == match parse_records(b) {
            Ok(rb) => Ok::<Seq<RecordModel>, ParseError>(parse_records(a)->Ok_0 + rb),
            Err(e) => Err::<Seq<RecordModel>, ParseError>(e),
        },
    decreases a.len(),
{
    if a.len() == 0 {
        assert(a + b =~= b);
        assert(parse_records(a)->Ok_0 =~= Seq::<RecordModel>::empty());
        match parse_records(b) {
            Ok(rb) => {
                assert(parse_records(a)->Ok_0 + rb =~= rb);
            },
            Err(_) => {},
        }
    } else {
        let s = a + b;
        assert(is_first_at(a, SEMICOLON, first_at(a, SEMICOLON)));
        let sp = first_at(a, SEMICOLON);
        assert forall|j: int| 0 <= j < sp implies s[j] != SEMICOLON by {
            assert(s[j] == a[j]);
        }
        assert(s[sp] == a[sp]);
        assert(is_first_at(s, SEMICOLON, sp));
        assert(has_first(s, SEMICOLON));
        assert(is_first_at(s, SEMICOLON, first_at(s, SEMICOLON)));
        lemma_first_at_unique(s, SEMICOLON, first_at(s, SEMICOLON), sp);
        let rest0a = a.skip(sp + 1);
        let rest0s = s.skip(sp + 1);
        assert(rest0s =~= rest0a + b);
        assert(a[a.len() - 1] == NEWLINE && a[sp] == SEMICOLON);
        assert(sp < a.len() - 1);
        assert(rest0a.len() >= 1);
        assert(rest0a[rest0a.len() - 1] == a[a.len() - 1]);
        lemma_has_first(rest0a, NEWLINE, rest0a.len() - 1);
        assert(is_first_at(rest0a, NEWLINE, first_at(rest0a, NEWLINE)));
        let np = first_at(rest0a, NEWLINE);
        assert forall|j: int| 0 <= j < np implies rest0s[j] != NEWLINE by {
            assert(rest0s[j] == rest0a[j]);
        }
        assert(rest0s[np] == rest0a[np]);
        assert(is_first_at(rest0s, NEWLINE, np));
        assert(has_first(rest0s, NEWLINE));
        assert(is_first_at(rest0s, NEWLINE, first_at(rest0s, NEWLINE)));
        lemma_first_at_unique(rest0s, NEWLINE, first_at(rest0s, NEWLINE), np);
        let value_a = rest0a.take(np);
        let value_s = rest0s.take(np);
        assert(value_s =~= value_a);
        assert(valid_value(value_a));
        let key_a = a.take(sp);
        let key_s = s.take(sp);
        assert(key_s =~= key_a);
        let rest_a = rest0a.skip(np + 1);
        let rest_s = rest0s.skip(np + 1);
        assert(rest_s =~= rest_a + b);
        assert(parse_records(rest_a) is Ok);
        if rest_a.len() > 0 {
            assert(rest_a[rest_a.len() - 1] == a[a.len() - 1]);
        }
        lemma_parse_concat(rest_a, b);
        let rec: RecordModel = (key_a, decoded_value(value_a));
        match parse_records(b) {
            Ok(rb) => {
                let ra_rest = parse_records(rest_a)->Ok_0;
                assert(parse_records(rest_s) == Ok::<Seq<RecordModel>, ParseError>(ra_rest + rb));
                assert(parse_records(s) == Ok::<Seq<RecordModel>, ParseError>(
                    seq![rec] + (ra_rest + rb),
                ));
                assert(parse_records(a)->Ok_0 == seq![rec] + ra_rest);
                assert(seq![rec] + (ra_rest + rb) =~= (seq![rec] + ra_rest) + rb);
            },
            Err(e) => {
                assert(parse_records(rest_s) == Err::<Seq<RecordModel>, ParseError>(e));
                assert(parse_records(s) == Err::<Seq<RecordModel>, ParseError>(e));
            },
        }
    }
}

/// A range holding exactly one terminated record parses to that record.
pub proof fn lemma_parse_one_record(pre: Seq<u8>, sp: int, np: int)
    requires
        0 <= sp,
        0 <= np,
        sp + 1 + np + 1 == pre.len(),
        is_first_at(pre, SEMICOLON, sp),
        is_first_at(pre.skip(sp + 1), NEWLINE, np),
        valid_value(pre.skip(sp + 1).take(np)),
    ensures
        parse_records(pre) == Ok::<Seq<RecordModel>, ParseError>(
            seq![(pre.take(sp), decoded_value(pre.skip(sp + 1).take(np)))],
        ),
{
    reveal_with_fuel(parse_records, 3);
    assert(has_first(pre, SEMICOLON));
    assert(is_first_at(pre, SEMICOLON, first_at(pre, SEMICOLON)));
    lemma_first_at_unique(pre, SEMICOLON, first_at(pre, SEMICOLON), sp);
    let rest0p = pre.skip(sp + 1);
    assert(has_first(rest0p, NEWLINE));
    assert(is_first_at(rest0p, NEWLINE, first_at(rest0p, NEWLINE)));
    lemma_first_at_unique(rest0p, NEWLINE, first_at(rest0p, NEWLINE), np);
    assert(rest0p.skip(np + 1) =~= Seq::<u8>::empty());
    let rec: RecordModel = (pre.take(sp), decoded_value(rest0p.take(np)));
    assert(seq![rec] + Seq::<RecordModel>::empty() =~= seq![rec]);
}

/// A line-aligned boundary of a well-formed range splits its records: both
/// sides parse, and the whole's records are the two sides' records in order.
/// Holds wherever every key is free of terminators, so every terminator in
/// the range ends a record.
#[verifier::rlimit(100)]
pub proof fn lemma_parse_split(s: Seq<u8>, b: int)
    requires
        parse_records(s) is Ok,
        clean_keys(parse_records(s)->Ok_0),
        0 <= b <= s.len(),
        b == 0 || b == s.len() || s[b - 1] == NEWLINE,
    ensures
        parse_records(s.take(b)) is Ok,
        parse_records(s.skip(b)) is Ok,
        parse_records(s)->Ok_0 == parse_records(s.take(b))->Ok_0 + parse_records(s.skip(b))->Ok_0,
    decreases s.len(),
{
    let rs = parse_records(s)->Ok_0;
    if b == 0 {
        assert(s.take(0) =~= Seq::<u8>::empty());
        assert(s.skip(0) =~= s);
        assert(Seq::<RecordModel>::empty() + rs =~= rs);
    } else if b == s.len() {
        assert(s.take(b) =~= s);
        assert(s.skip(b) =~= Seq::<u8>::empty());
        assert(rs + Seq::<RecordModel>::empty() =~= rs);
    } else {
        assert(s.len() > 0);
        assert(is_first_at(s, SEMICOLON, first_at(s, SEMICOLON)));
        let sp = first_at(s, SEMICOLON);
        let key = s.take(sp);
        let rest0 = s.skip(sp + 1);
        assert(rs.len() >= 1 && rs[0].0 == key);
        assert(key_clean(key));
        assert(b - 1 != sp);
        if b - 1 < sp {
            assert(key[b - 1] == s[b - 1]);
            assert(false);
        }
        assert(rest0[b - sp - 2] == NEWLINE);
        lemma_has_first(rest0, NEWLINE, b - sp - 2);
        assert(is_first_at(rest0, NEWLINE, first_at(rest0, NEWLINE)));
        let np = first_at(rest0, NEWLINE);
        let value = rest0.take(np);
        let rest = rest0.skip(np + 1);
        let rec_end = sp + 1 + np + 1;
        assert(valid_value(value));
        if b < rec_end {
            assert(rest0[b - sp - 2] != NEWLINE);
            assert(false);
        }
        let pre = s.take(rec_end);
        assert forall|j: int| 0 <= j < sp implies pre[j] != SEMICOLON by {
            assert(pre[j] == s[j]);
        }
        assert(pre[sp] == s[sp]);
        assert(is_first_at(pre, SEMICOLON, sp));
        let rest0p = pre.skip(sp + 1);
        assert(rest0p =~= rest0.take(np + 1));
        assert forall|j: int| 0 <= j < np implies rest0p[j] != NEWLINE by {
            assert(rest0p[j] == rest0[j]);
        }
        assert(rest0p[np] == rest0[np]);
        assert(is_first_at(rest0p, NEWLINE, np));
        assert(rest0p.take(np) =~= value);
        assert(pre.take(sp) =~= key);
        let rec: RecordModel = (key, decoded_value(value));
        lemma_parse_one_record(pre, sp, np);
        assert(parse_records(pre) == Ok::<Seq<RecordModel>, ParseError>(seq![rec]));
        assert(pre[rec_end - 1] == rest0[np]);
        let rs_rest = parse_records(rest)->Ok_0;
        assert(rs == seq![rec] + rs_rest);
        if b == rec_end {
            assert(s.take(b) =~= pre);
            assert(s.skip(b) =~= rest);
            assert(rs == parse_records(s.take(b))->Ok_0 + parse_records(s.skip(b))->Ok_0);
        } else {
            let b2 = b - rec_end;
            assert(rest =~= s.skip(rec_end));
            assert forall|i: int| 0 <= i < rs_rest.len() implies key_clean(
                (#[trigger] rs_rest[i]).0,
            ) by {
                assert(rs[i + 1] == rs_rest[i]);
            }
            assert(rest[b2 - 1] == s[b - 1]);
            lemma_parse_split(rest, b2);
            lemma_parse_concat(pre, rest.take(b2));
            assert(s.take(b) =~= pre + rest.take(b2));
            assert(s.skip(b) =~= rest.skip(b2));
            let r1 = parse_records(rest.take(b2))->Ok_0;
            let r2 = parse_records(rest.skip(b2))->Ok_0;
            assert(parse_records(s.take(b)) == Ok::<Seq<RecordModel>, ParseError>(seq![rec] + r1));
            assert(rs_rest == r1 + r2);
            assert(seq![rec] + (r1 + r2) =~= (seq![rec] + r1) + r2);
        }
    }
}

/// Every decoded record of a parsed range carries a scaled value in
/// `[-999, 999]`.
pub proof fn lemma_parse_in_range(s: Seq<u8>)
    requires
        parse_records(s) is Ok,
    ensures
        forall|i: int|
            0 <= i < parse_records(s)->Ok_0.len() ==> -999 <= (#[trigger] parse_records(
                s,
            )->Ok_0[i]).1 <= 999,
    decreases s.len(),
{
    if s.len() == 0 {
    } else {
        assert(is_first_at(s, SEMICOLON, first_at(s, SEMICOLON)));
        let sp = first_at(s, SEMICOLON);
        let rest0 = s.skip(sp + 1);
        if has_first(rest0, NEWLINE) {
            assert(is_first_at(rest0, NEWLINE, first_at(rest0, NEWLINE)));
            let np = first_at(rest0, NEWLINE);
            let value = rest0.take(np);
            let rest = rest0.skip(np + 1);
            crate::decode::lemma_decoded_value_bounds(value);
            lemma_parse_in_range(rest);
            let rs = parse_records(s)->Ok_0;
            let rr = parse_records(rest)->Ok_0;
            assert forall|i: int| 0 <= i < rs.len() implies -999 <= (#[trigger] rs[i]).1
                <= 999 by {
                if i > 0 {
                    assert(rs[i] == rr[i - 1]);
                }
            }
        } else {
            crate::decode::lemma_decoded_value_bounds(rest0);
        }
    }
}

} // verus!
