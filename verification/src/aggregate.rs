//! Partition aggregator: consumes the records of one byte range and folds
//! them into a fresh table, with no side effects beyond the returned table.

use vstd::prelude::*;
use crate::decode::{ParseError, parse_temp_fast};
use crate::scan::{
    SEMICOLON, NEWLINE, find_byte, is_first_at, has_first, first_at, lemma_first_at_unique,
    parse_records, RecordModel,
};
use crate::table::{Table, table_of, MAX_TOTAL_COUNT};

verus! {

/// `done` followed by whatever `rest` stands for continues `whole`: the
/// records already folded plus the meaning of the remaining bytes.
pub open spec fn continues(
    whole: Result<Seq<RecordModel>, ParseError>,
    done: Seq<RecordModel>,
    rest: Result<Seq<RecordModel>, ParseError>,
) -> bool {
    match rest {
        Ok(rs) => whole == Ok::<Seq<RecordModel>, ParseError>(done + rs),
        Err(e) => whole == Err::<Seq<RecordModel>, ParseError>(e),
    }
}

/// Copies the bytes of `data[a..b]` into owned storage.
pub fn copy_range(data: &[u8], a: usize, b: usize) -> (r: Vec<u8>)
    requires
        a <= b <= data@.len(),
    ensures
        r@ == data@.subrange(a as int, b as int),
{
    let mut r: Vec<u8> = Vec::new();
    let mut i: usize = a;
    while i < b
        invariant
            a <= i <= b <= data@.len(),
            r@ == data@.subrange(a as int, i as int),
        decreases b - i,
    {
        r.push(data[i]);
        i = i + 1;
        proof {
            assert(data@.subrange(a as int, i as int) =~= data@.subrange(a as int, i - 1).push(
                data@[i - 1],
            ));
        }
    }
    r
}

/// Folds the records of `data[lo..hi]` into a fresh table: scans each record
/// without copying, decodes its value, and updates the key's aggregate.
/// Returns the table exactly when the whole range parses; fails with the
/// range's first error otherwise.
pub fn process_chunk(data: &[u8], lo: usize, hi: usize) -> (r: Result<Table, ParseError>)
    requires
        lo <= hi <= data@.len(),
        hi - lo <= MAX_TOTAL_COUNT,
    ensures
        match r {
            Ok(t) => {
                &&& parse_records(data@.subrange(lo as int, hi as int)) is Ok
                &&& t.wf()
                &&& t.model() == table_of(
                    parse_records(data@.subrange(lo as int, hi as int))->Ok_0,
                )
                &&& t.total() == parse_records(data@.subrange(lo as int, hi as int))->Ok_0.len()
            },
            Err(e) => parse_records(data@.subrange(lo as int, hi as int)) == Err::<
                Seq<RecordModel>,
                ParseError,
            >(e),
        },
{
    let ghost chunk = data@.subrange(lo as int, hi as int);
    let mut t = Table::new();
    let ghost done: Seq<RecordModel> = Seq::empty();
    let mut offset: usize = lo;
    proof {
        assert(t.model() =~= table_of(done));
        assert(done + parse_records(chunk)->Ok_0 =~= parse_records(chunk)->Ok_0);
    }
    while offset < hi
        invariant
            lo <= offset <= hi <= data@.len(),
            hi - lo <= MAX_TOTAL_COUNT,
            chunk == data@.subrange(lo as int, hi as int),
            t.wf(),
            t.model() == table_of(done),
            t.total() == done.len(),
            done.len() <= offset - lo,
            continues(parse_records(chunk), done, parse_records(data@.subrange(offset as int, hi as int))),
        decreases hi - offset,
    {
        let ghost s = data@.subrange(offset as int, hi as int);
        let rem = &data[offset..hi];
        proof {
            assert(rem@ == s);
        }
        let semi = match find_byte(SEMICOLON, rem) {
            Some(p) => p,
            None => {
                proof {
                    if has_first(s, SEMICOLON) {
                        let f = first_at(s, SEMICOLON);
                        assert(is_first_at(s, SEMICOLON, f));
                    }
                }
                return Err(ParseError::MalformedRecord);
            },
        };
        proof {
            assert(is_first_at(s, SEMICOLON, semi as int));
            assert(has_first(s, SEMICOLON));
            assert(is_first_at(s, SEMICOLON, first_at(s, SEMICOLON)));
            lemma_first_at_unique(s, SEMICOLON, first_at(s, SEMICOLON), semi as int);
        }
        let key_end = offset + semi;
        let temp_start = key_end + 1;
        let ghost rest0 = s.skip(semi + 1);
        let rem2 = &data[temp_start..hi];
        proof {
            assert(rem2@ =~= rest0);
        }
        let (vend, next) = match find_byte(NEWLINE, rem2) {
            Some(nl) => {
                proof {
                    assert(is_first_at(rest0, NEWLINE, nl as int));
                    assert(has_first(rest0, NEWLINE));
                    assert(is_first_at(rest0, NEWLINE, first_at(rest0, NEWLINE)));
                    lemma_first_at_unique(rest0, NEWLINE, first_at(rest0, NEWLINE), nl as int);
                }
                (temp_start + nl, temp_start + nl + 1)
            },
            None => {
                proof {
                    if has_first(rest0, NEWLINE) {
                        let f = first_at(rest0, NEWLINE);
                        assert(is_first_at(rest0, NEWLINE, f));
                    }
                }
                (hi, hi)
            },
        };
        let vbytes = &data[temp_start..vend];
        let ghost value = if has_first(rest0, NEWLINE) {
            rest0.take(first_at(rest0, NEWLINE))
        } else {
            rest0
        };
        proof {
            assert(vbytes@ =~= value);
        }
        let v = match parse_temp_fast(vbytes) {
            Ok(v) => v,
            Err(e) => {
                return Err(e);
            },
        };
        let key = copy_range(data, offset, key_end);
        proof {
            assert(key@ =~= s.take(semi as int));
            crate::decode::lemma_decoded_value_bounds(value);
        }
        t.upsert(key, v);
        proof {
            let rec: RecordModel = (s.take(semi as int), v as int);
            if has_first(rest0, NEWLINE) {
                let np = first_at(rest0, NEWLINE);
                let rest = rest0.skip(np + 1);
                assert(rest =~= data@.subrange(temp_start + np + 1, hi as int));
                match parse_records(rest) {
                    Ok(rs) => {
                        assert(parse_records(s) == Ok::<Seq<RecordModel>, ParseError>(
                            seq![rec] + rs,
                        ));
                        assert(done + (seq![rec] + rs) =~= done.push(rec) + rs);
                    },
                    Err(e) => {
                        assert(parse_records(s) == Err::<Seq<RecordModel>, ParseError>(e));
                    },
                }
            } else {
                assert(parse_records(s) == Ok::<Seq<RecordModel>, ParseError>(seq![rec]));
                assert(data@.subrange(hi as int, hi as int) =~= Seq::<u8>::empty());
                assert(done + seq![rec] =~= done.push(rec) + Seq::<RecordModel>::empty());
                assert(done.push(rec) + parse_records(data@.subrange(hi as int, hi as int))->Ok_0
                    =~= done.push(rec));
            }
            assert(done.push(rec).drop_last() =~= done);
            assert(table_of(done.push(rec)) == crate::table::fold_record(
                table_of(done),
                rec.0,
                rec.1,
            ));
            done = done.push(rec);
        }
        offset = next;
    }
    proof {
        assert(data@.subrange(offset as int, hi as int) =~= Seq::<u8>::empty());
        assert(parse_records(chunk) == Ok::<Seq<RecordModel>, ParseError>(done + Seq::empty()));
        assert(done + Seq::<RecordModel>::empty() =~= done);
    }
    Ok(t)
}

} // verus!
