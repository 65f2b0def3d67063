//! The partition-parse-aggregate-reduce pipeline: split the input into
//! line-aligned byte ranges, fold each range into a table, merge the tables,
//! and render the merged table as the report.
//!
//! The partitioned run's contract names only the input, never the partition
//! count: splitting the work cannot change the answer.

use vstd::prelude::*;
use crate::decode::ParseError;
use crate::scan::{
    NEWLINE, find_byte, parse_records, RecordModel, clean_keys, lemma_parse_concat,
    lemma_parse_split, lemma_parse_records_len,
};
use crate::table::{
    Table, AggModel, table_of, merge_tables, lemma_table_of_concat, lemma_merge_tables_empty,
    MAX_TOTAL_COUNT, sorted_strict, map_of,
};
use crate::report::{fmt_report, sorted_entries_of};
use crate::aggregate::process_chunk;

verus! {

/// `b` is a line-aligned boundary of `s`: the start, the end, or an offset
/// just past a record terminator.
pub open spec fn aligned(s: Seq<u8>, b: int) -> bool {
    b == 0 || b == s.len() || (0 < b < s.len() && s[b - 1] == NEWLINE)
}

/// The report a buffer denotes: its records folded into one table, the
/// table rendered with keys sorted ascending. Meaningful when the buffer
/// parses.
pub open spec fn report_of(s: Seq<u8>) -> Seq<u8> {
    fmt_report(sorted_entries_of(table_of(parse_records(s)->Ok_0)))
}

/// Partition invariance: at every line-aligned boundary of a well-formed
/// buffer whose keys hold no terminator, both sides parse, and merging the
/// two sides' tables gives exactly the table of the whole buffer. Splitting
/// the input for parallel work cannot change the global table.
pub proof fn lemma_partition_invariance(s: Seq<u8>, b: int)
    requires
        parse_records(s) is Ok,
        clean_keys(parse_records(s)->Ok_0),
        0 <= b <= s.len(),
        aligned(s, b),
    ensures
        parse_records(s.take(b)) is Ok,
        parse_records(s.skip(b)) is Ok,
        table_of(parse_records(s)->Ok_0) == merge_tables(
            table_of(parse_records(s.take(b))->Ok_0),
            table_of(parse_records(s.skip(b))->Ok_0),
        ),
{
    lemma_parse_split(s, b);
    lemma_table_of_concat(parse_records(s.take(b))->Ok_0, parse_records(s.skip(b))->Ok_0);
}

/// Runs the whole pipeline on one buffer in a single pass: parse, fold,
/// render. Succeeds exactly when the buffer parses, and then the output is
/// the buffer's report — a function of the input bytes alone, so two runs on
/// the same input are byte-identical.
pub fn run(data: &[u8]) -> (r: Result<Vec<u8>, ParseError>)
    requires
        data@.len() <= MAX_TOTAL_COUNT,
    ensures
        match r {
            Ok(out) => {
                &&& parse_records(data@) is Ok
                &&& out@ == report_of(data@)
                &&& sorted_strict(sorted_entries_of(table_of(parse_records(data@)->Ok_0)))
                &&& map_of(sorted_entries_of(table_of(parse_records(data@)->Ok_0))) == table_of(
                    parse_records(data@)->Ok_0,
                )
            },
            Err(e) => parse_records(data@) == Err::<Seq<RecordModel>, ParseError>(e),
        },
{
    proof {
        assert(data@.subrange(0, data@.len() as int) =~= data@);
    }
    let t = match process_chunk(data, 0, data.len()) {
        Ok(t) => t,
        Err(e) => {
            return Err(e);
        },
    };
    Ok(t.render())
}

/// Divides the buffer into `n` contiguous, line-aligned ranges: boundary
/// `i` of the returned vector starts range `i`; every inner boundary lies
/// just past a terminator or at the end of the buffer; empty ranges are
/// valid when the buffer is shorter than `n` lines.
pub fn partition_ranges(data: &[u8], n: usize) -> (bs: Vec<usize>)
    requires
        1 <= n,
        n < usize::MAX,
    ensures
        bs@.len() == n + 1,
        bs@[0] == 0,
        bs@[n as int] == data@.len(),
        forall|i: int| 0 <= i < n ==> #[trigger] bs@[i] <= bs@[i + 1],
        forall|i: int| 0 <= i <= n ==> #[trigger] bs@[i] <= data@.len(),
        forall|i: int| 0 < i < n ==> aligned(data@, #[trigger] bs@[i] as int),
{
    let len = data.len();
    let chunk = len / n;
    let mut bs: Vec<usize> = Vec::new();
    bs.push(0);
    let mut start: usize = 0;
    let mut i: usize = 0;
    while i < n - 1
        invariant
            1 <= n < usize::MAX,
            i <= n - 1,
            len == data@.len(),
            bs@.len() == i + 1,
            bs@[0] == 0,
            bs@[i as int] == start,
            start <= len,
            forall|j: int| 0 <= j < i ==> #[trigger] bs@[j] <= bs@[j + 1],
            forall|j: int| 0 <= j <= i ==> #[trigger] bs@[j] <= len,
            forall|j: int| 0 < j <= i ==> aligned(data@, #[trigger] bs@[j] as int),
        decreases n - 1 - i,
    {
        let end0 = if len - start < chunk {
            len
        } else {
            start + chunk
        };
        let rem = &data[end0..len];
        let end = match find_byte(NEWLINE, rem) {
            Some(p) => {
                proof {
                    assert(rem@[p as int] == data@[end0 + p]);
                }
                end0 + p + 1
            },
            None => len,
        };
        proof {
            assert(aligned(data@, end as int));
        }
        bs.push(end);
        start = end;
        i = i + 1;
    }
    bs.push(len);
    bs
}

/// Every line-aligned range of a well-formed buffer whose keys hold no
/// terminator parses on its own.
pub proof fn lemma_chunk_must_parse(data: Seq<u8>, lo: int, hi: int)
    requires
        parse_records(data) is Ok,
        clean_keys(parse_records(data)->Ok_0),
        0 <= lo <= hi <= data.len(),
        aligned(data, lo),
        aligned(data, hi),
    ensures
        parse_records(data.subrange(lo, hi)) is Ok,
{
    lemma_parse_split(data, hi);
    let whole = parse_records(data)->Ok_0;
    let rs_hi = parse_records(data.take(hi))->Ok_0;
    assert forall|p: int| 0 <= p < rs_hi.len() implies crate::scan::key_clean(
        (#[trigger] rs_hi[p]).0,
    ) by {
        assert(whole[p] == rs_hi[p]);
    }
    if lo < hi {
        assert(data.take(hi)[lo - 1] == data[lo - 1] || lo == 0);
        lemma_parse_split(data.take(hi), lo);
        assert(data.take(hi).skip(lo) =~= data.subrange(lo, hi));
    } else {
        assert(data.subrange(lo, hi) =~= Seq::<u8>::empty());
    }
}

/// Extending a parsed, line-aligned prefix by a parsed range keeps the
/// longer prefix parsed, and its table is the merge of the two tables.
pub proof fn lemma_prefix_extend(data: Seq<u8>, lo: int, hi: int)
    requires
        0 <= lo <= hi <= data.len(),
        aligned(data, lo),
        parse_records(data.take(lo)) is Ok,
        parse_records(data.subrange(lo, hi)) is Ok,
    ensures
        parse_records(data.take(hi)) is Ok,
        parse_records(data.take(hi))->Ok_0.len() == parse_records(data.take(lo))->Ok_0.len()
            + parse_records(data.subrange(lo, hi))->Ok_0.len(),
        table_of(parse_records(data.take(hi))->Ok_0) == merge_tables(
            table_of(parse_records(data.take(lo))->Ok_0),
            table_of(parse_records(data.subrange(lo, hi))->Ok_0),
        ),
{
    let pre = data.take(lo);
    let chunk = data.subrange(lo, hi);
    let rs_pre = parse_records(pre)->Ok_0;
    let rs_chunk = parse_records(chunk)->Ok_0;
    if lo == hi {
        assert(chunk =~= Seq::<u8>::empty());
        assert(rs_chunk =~= Seq::<RecordModel>::empty());
        assert(table_of(rs_chunk) =~= Map::<Seq<u8>, AggModel>::empty());
        lemma_merge_tables_empty(table_of(rs_pre));
        assert(data.take(hi) == data.take(lo));
        assert(rs_pre + rs_chunk =~= rs_pre);
    } else {
        assert(pre.len() == 0 || pre[pre.len() - 1] == NEWLINE);
        lemma_parse_concat(pre, chunk);
        assert(pre + chunk =~= data.take(hi));
        lemma_table_of_concat(rs_pre, rs_chunk);
        assert(parse_records(data.take(hi))->Ok_0 == rs_pre + rs_chunk);
    }
}

/// Runs the pipeline over `n` line-aligned partitions, folding each one and
/// merging the partition tables in order. On success the output is the
/// buffer's report — the same value for every worker count `n`. Succeeds
/// whenever the buffer parses and no key holds a terminator; fails only when
/// the buffer does not parse or some key holds one.
#[verifier::rlimit(100)]
pub fn run_partitioned(data: &[u8], n: usize) -> (r: Result<Vec<u8>, ParseError>)
    requires
        1 <= n,
        n < usize::MAX,
        data@.len() <= MAX_TOTAL_COUNT,
    ensures
        match r {
            Ok(out) => parse_records(data@) is Ok && out@ == report_of(data@),
            Err(_) => !(parse_records(data@) is Ok && clean_keys(parse_records(data@)->Ok_0)),
        },
{
    let bs = partition_ranges(data, n);
    let mut t = Table::new();
    proof {
        assert(data@.take(0) =~= Seq::<u8>::empty());
        assert(parse_records(data@.take(0))->Ok_0 =~= Seq::<RecordModel>::empty());
        assert(t.model() =~= table_of(parse_records(data@.take(0))->Ok_0));
    }
    let mut i: usize = 0;
    while i < n
        invariant
            1 <= n < usize::MAX,
            i <= n,
            bs@.len() == n + 1,
            bs@[0] == 0,
            bs@[n as int] == data@.len(),
            data@.len() <= MAX_TOTAL_COUNT,
            forall|j: int| 0 <= j < n ==> #[trigger] bs@[j] <= bs@[j + 1],
            forall|j: int| 0 <= j <= n ==> #[trigger] bs@[j] <= data@.len(),
            forall|j: int| 0 < j < n ==> aligned(data@, #[trigger] bs@[j] as int),
            aligned(data@, bs@[i as int] as int),
            t.wf(),
            parse_records(data@.take(bs@[i as int] as int)) is Ok,
            t.model() == table_of(parse_records(data@.take(bs@[i as int] as int))->Ok_0),
            t.total() == parse_records(data@.take(bs@[i as int] as int))->Ok_0.len(),
        decreases n - i,
    {
        let lo = bs[i];
        let hi = bs[i + 1];
        let ghost pre = data@.take(lo as int);
        let ghost chunk = data@.subrange(lo as int, hi as int);
        let ghost rs_pre = parse_records(pre)->Ok_0;
        proof {
            if i + 1 < n {
                assert(aligned(data@, bs@[i + 1] as int));
            } else {
                assert(bs@[i + 1] == data@.len());
            }
        }
        let tc = match process_chunk(data, lo, hi) {
            Ok(tc) => tc,
            Err(e) => {
                proof {
                    if parse_records(data@) is Ok && clean_keys(parse_records(data@)->Ok_0) {
                        lemma_chunk_must_parse(data@, lo as int, hi as int);
                    }
                }
                return Err(e);
            },
        };
        let ghost rs_chunk = parse_records(chunk)->Ok_0;
        proof {
            lemma_parse_records_len(pre);
            lemma_parse_records_len(chunk);
            lemma_prefix_extend(data@, lo as int, hi as int);
        }
        t.merge_from(tc);
        i = i + 1;
    }
    proof {
        assert(data@.take(bs@[n as int] as int) =~= data@);
    }
    Ok(t.render())
}

/// Aggregate bounds: in the table of any parsed buffer, every key's
/// aggregate is well-formed — at least one record contributed and
/// `min * count <= sum <= max * count`, that is `min <= sum / count <= max`.
pub proof fn lemma_aggregate_bounds(s: Seq<u8>)
    requires
        parse_records(s) is Ok,
    ensures
        crate::table::table_all_wf(table_of(parse_records(s)->Ok_0)),
{
    crate::scan::lemma_parse_in_range(s);
    crate::table::lemma_table_of_all_wf(parse_records(s)->Ok_0);
}

/// The first `i` ranges of a boundary list, each folded into its own table,
/// merged in order: what `i` workers hand the reducer.
pub open spec fn chunk_tables_merged(s: Seq<u8>, bs: Seq<int>, i: int) -> Map<Seq<u8>, AggModel>
    decreases i,
{
    if i <= 0 {
        Map::empty()
    } else {
        merge_tables(
            chunk_tables_merged(s, bs, i - 1),
            table_of(parse_records(s.subrange(bs[i - 1], bs[i]))->Ok_0),
        )
    }
}

/// A boundary list that splits `s` into `n` contiguous, line-aligned ranges.
pub open spec fn valid_boundaries(s: Seq<u8>, bs: Seq<int>) -> bool {
    &&& bs.len() >= 2
    &&& bs[0] == 0
    &&& bs[bs.len() - 1] == s.len()
    &&& forall|i: int| 0 <= i < bs.len() - 1 ==> #[trigger] bs[i] <= bs[i + 1]
    &&& forall|i: int| 0 <= i < bs.len() ==> aligned(s, #[trigger] bs[i])
}

/// Partition invariance over a whole split: for every valid boundary list of
/// a well-formed buffer whose keys hold no terminator, each range parses and
/// the merge of all the range tables is the table of the whole buffer — so
/// any two splits, of any two range counts, give the same Global Table.
pub proof fn lemma_partition_invariance_many(s: Seq<u8>, bs: Seq<int>, i: int)
    requires
        parse_records(s) is Ok,
        clean_keys(parse_records(s)->Ok_0),
        valid_boundaries(s, bs),
        0 <= i < bs.len(),
    ensures
        parse_records(s.take(bs[i])) is Ok,
        i > 0 ==> parse_records(s.subrange(bs[i - 1], bs[i])) is Ok,
        chunk_tables_merged(s, bs, i) == table_of(parse_records(s.take(bs[i]))->Ok_0),
    decreases i,
{
    if i == 0 {
        assert(s.take(0) =~= Seq::<u8>::empty());
        assert(parse_records(s.take(0))->Ok_0 =~= Seq::<RecordModel>::empty());
        assert(chunk_tables_merged(s, bs, 0) =~= table_of(parse_records(s.take(0))->Ok_0));
    } else {
        lemma_partition_invariance_many(s, bs, i - 1);
        let lo = bs[i - 1];
        let hi = bs[i];
        lemma_parse_split(s, hi);
        let whole = parse_records(s)->Ok_0;
        let rs_hi = parse_records(s.take(hi))->Ok_0;
        assert forall|p: int| 0 <= p < rs_hi.len() implies crate::scan::key_clean(
            (#[trigger] rs_hi[p]).0,
        ) by {
            assert(whole[p] == rs_hi[p]);
        }
        if lo < hi {
            assert(s.take(hi)[lo - 1] == s[lo - 1] || lo == 0);
            lemma_parse_split(s.take(hi), lo);
            assert(s.take(hi).take(lo) =~= s.take(lo));
            assert(s.take(hi).skip(lo) =~= s.subrange(lo, hi));
            lemma_table_of_concat(
                parse_records(s.take(lo))->Ok_0,
                parse_records(s.subrange(lo, hi))->Ok_0,
            );
        } else {
            assert(s.subrange(lo, hi) =~= Seq::<u8>::empty());
            assert(parse_records(s.subrange(lo, hi))->Ok_0 =~= Seq::<RecordModel>::empty());
            assert(table_of(parse_records(s.subrange(lo, hi))->Ok_0) =~= Map::<
                Seq<u8>,
                AggModel,
            >::empty());
            lemma_merge_tables_empty(chunk_tables_merged(s, bs, i - 1));
            assert(s.take(hi) == s.take(lo));
        }
    }
}

/// Determinism: the report is a function of the input bytes alone, so any
/// two outputs meeting the run contract for the same input are
/// byte-identical, whatever the worker counts of the two runs were.
pub proof fn lemma_deterministic(s: Seq<u8>, o1: Seq<u8>, o2: Seq<u8>)
    requires
        o1 == report_of(s),
        o2 == report_of(s),
    ensures
        o1 == o2,
{
}

} // verus!
