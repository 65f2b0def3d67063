//! Report emitter model and helpers: the global table rendered as
//! `{k1=min/avg/max,k2=...}` with keys sorted ascending in byte order and
//! every numeric field written with exactly one fractional digit.

use vstd::prelude::*;
use vstd::map::*;
use vstd::arithmetic::div_mod::{
    lemma_div_is_ordered, lemma_div_multiples_vanish, lemma_fundamental_div_mod_converse,
};
use crate::decode::{DIGIT_ZERO, DOT, MINUS};
use crate::table::{
    AggModel, agg_wf, lex_lt, sorted_strict, unique_keys, map_of, lemma_sorted_unique,
    lemma_map_of_index, lemma_lex_asym,
};

verus! {

/// ASCII `'='`.
pub const EQUALS: u8 = 61;

/// ASCII `'/'`.
pub const SLASH: u8 = 47;

/// ASCII `','`.
pub const COMMA: u8 = 44;

/// ASCII `'{'`.
pub const LBRACE: u8 = 123;

/// ASCII `'}'`.
pub const RBRACE: u8 = 125;

/// The sum divided by the count, rounded to the nearest integer with halves
/// away from zero: the scaled mean of an aggregate.
pub open spec fn rounded_div(s: int, c: int) -> int {
    if s >= 0 {
        (2 * s + c) / (2 * c)
    } else {
        -((2 * (-s) + c) / (2 * c))
    }
}

/// The rounded mean of a well-formed aggregate lies between its extremes:
/// `min <= sum / count <= max`.
pub proof fn lemma_rounded_div_bounds(a: AggModel)
    requires
        agg_wf(a),
    ensures
        a.min <= rounded_div(a.sum, a.count) <= a.max,
{
    let s = a.sum;
    let c = a.count;
    let d = 2 * c;
    if s >= 0 {
        let q = (2 * s + c) / d;
        assert(a.min * d == 2 * (a.min * c) && (a.max + 1) * d == 2 * (a.max * c) + d)
            by (nonlinear_arith)
            requires
                d == 2 * c,
        {
        }
        lemma_div_is_ordered(a.min * d, 2 * s + c, d);
        lemma_div_multiples_vanish(a.min, d);
        assert(d * a.min == a.min * d) by (nonlinear_arith);
        assert(2 * (a.min * c) <= 2 * s);
        assert(a.min <= q);
        lemma_div_is_ordered(2 * s + c, (a.max + 1) * d - 1, d);
        assert((a.max + 1) * d - 1 == a.max * d + (d - 1)) by (nonlinear_arith);
        lemma_fundamental_div_mod_converse((a.max + 1) * d - 1, d, a.max, d - 1);
        assert(q <= a.max);
    } else {
        let q = (2 * (-s) + c) / d;
        assert((-a.min + 1) * d == 2 * ((-a.min) * c) + d && (-a.min) * c == -(a.min * c))
            by (nonlinear_arith)
            requires
                d == 2 * c,
        {
        }
        lemma_div_is_ordered(2 * (-s) + c, (-a.min + 1) * d - 1, d);
        assert((-a.min + 1) * d - 1 == (-a.min) * d + (d - 1)) by (nonlinear_arith);
        lemma_fundamental_div_mod_converse((-a.min + 1) * d - 1, d, -a.min, d - 1);
        assert(q <= -a.min);
        assert((-a.max) * d == 2 * ((-a.max) * c) && (-a.max) * c == -(a.max * c))
            by (nonlinear_arith)
            requires
                d == 2 * c,
        {
        }
        lemma_div_is_ordered((-a.max) * d, 2 * (-s) + c, d);
        lemma_div_multiples_vanish(-a.max, d);
        assert(d * (-a.max) == (-a.max) * d) by (nonlinear_arith);
        assert(-a.max <= q);
    }
}

/// The byte of one decimal digit.
pub open spec fn digit_byte(d: int) -> u8 {
    (DIGIT_ZERO + d) as u8
}

/// A scaled value in `[-999, 999]` written with exactly one fractional
/// digit: optional minus, one or two integer digits, a dot, one digit.
pub open spec fn fmt_scaled(v: int) -> Seq<u8> {
    let a = if v >= 0 { v } else { -v };
    let sign: Seq<u8> = if v < 0 { seq![MINUS] } else { Seq::empty() };
    let ip = a / 10;
    let fd = a % 10;
    let ipd: Seq<u8> = if ip >= 10 {
        seq![digit_byte(ip / 10), digit_byte(ip % 10)]
    } else {
        seq![digit_byte(ip)]
    };
    sign + ipd + seq![DOT, digit_byte(fd)]
}

/// One report entry: `key=min/avg/max`.
pub open spec fn fmt_entry(e: (Seq<u8>, AggModel)) -> Seq<u8> {
    e.0 + seq![EQUALS] + fmt_scaled(e.1.min) + seq![SLASH] + fmt_scaled(
        rounded_div(e.1.sum, e.1.count),
    ) + seq![SLASH] + fmt_scaled(e.1.max)
}

/// The entries joined by commas, in order.
pub open spec fn fmt_entries(es: Seq<(Seq<u8>, AggModel)>) -> Seq<u8>
    decreases es.len(),
{
    if es.len() == 0 {
        Seq::empty()
    } else if es.len() == 1 {
        fmt_entry(es[0])
    } else {
        fmt_entry(es[0]) + seq![COMMA] + fmt_entries(es.skip(1))
    }
}

/// The whole report: the joined entries inside one pair of braces.
pub open spec fn fmt_report(es: Seq<(Seq<u8>, AggModel)>) -> Seq<u8> {
    seq![LBRACE] + fmt_entries(es) + seq![RBRACE]
}

/// Joining grows at the tail: the last entry is appended after a comma
/// (or alone, for the first).
pub proof fn lemma_fmt_entries_snoc(es: Seq<(Seq<u8>, AggModel)>)
    requires
        es.len() >= 1,
    ensures
        fmt_entries(es) == if es.len() == 1 {
            fmt_entry(es[0])
        } else {
            fmt_entries(es.drop_last()) + seq![COMMA] + fmt_entry(es.last())
        },
    decreases es.len(),
{
    if es.len() == 1 {
    } else if es.len() == 2 {
        assert(es.skip(1) =~= seq![es[1]]);
        assert(es.drop_last() =~= seq![es[0]]);
        assert(fmt_entries(es.skip(1)) == fmt_entry(es[1]));
        assert(fmt_entries(es.drop_last()) == fmt_entry(es[0]));
        assert(fmt_entry(es[0]) + seq![COMMA] + fmt_entry(es[1]) == (fmt_entry(es[0]) + seq![
            COMMA,
        ]) + fmt_entry(es[1])) by {
            assert(fmt_entry(es[0]) + seq![COMMA] + fmt_entry(es[1]) =~= (fmt_entry(es[0]) + seq![
                COMMA,
            ]) + fmt_entry(es[1]));
        }
    } else {
        let t = es.skip(1);
        lemma_fmt_entries_snoc(t);
        assert(t.drop_last() =~= es.drop_last().skip(1));
        assert(t.last() == es.last());
        assert(es.drop_last().len() >= 2);
        assert(es.drop_last()[0] == es[0]);
        assert(fmt_entries(es.drop_last()) == fmt_entry(es[0]) + seq![COMMA] + fmt_entries(
            es.drop_last().skip(1),
        ));
        assert(fmt_entry(es[0]) + seq![COMMA] + (fmt_entries(t.drop_last()) + seq![COMMA]
            + fmt_entry(t.last())) =~= (fmt_entry(es[0]) + seq![COMMA] + fmt_entries(t.drop_last()))
            + seq![COMMA] + fmt_entry(t.last()));
    }
}

/// The strictly sorted entry sequence a table stands for; meaningful for
/// every table that has one, and then unique.
pub open spec fn sorted_entries_of(m: Map<Seq<u8>, AggModel>) -> Seq<(Seq<u8>, AggModel)> {
    choose|es: Seq<(Seq<u8>, AggModel)>| sorted_strict(es) && map_of(es) == m
}

/// Dropping the first entry removes exactly its key from the map.
pub proof fn lemma_map_of_skip_first(es: Seq<(Seq<u8>, AggModel)>)
    requires
        unique_keys(es),
        es.len() > 0,
    ensures
        map_of(es.skip(1)) == map_of(es).remove(es[0].0),
{
    let t = es.skip(1);
    assert(forall|p: int| 0 <= p < t.len() ==> #[trigger] t[p] == es[p + 1]);
    assert(unique_keys(t));
    let lhs = map_of(t);
    let rhs = map_of(es).remove(es[0].0);
    assert_maps_equal!(lhs, rhs, k => {
        if k != es[0].0 {
            if map_of(t).dom().contains(k) {
                let p = choose|p: int| 0 <= p < t.len() && t[p].0 == k;
                lemma_map_of_index(t, p);
                assert(es[p + 1].0 == k);
                lemma_map_of_index(es, p + 1);
            }
            if map_of(es).dom().contains(k) {
                let p = choose|p: int| 0 <= p < es.len() && es[p].0 == k;
                lemma_map_of_index(es, p);
                assert(p != 0);
                assert(t[p - 1].0 == k);
                lemma_map_of_index(t, p - 1);
            }
        } else {
            if map_of(t).dom().contains(k) {
                let p = choose|p: int| 0 <= p < t.len() && t[p].0 == k;
                assert(es[p + 1].0 == k && es[0].0 == k);
            }
        }
    });
}

/// A table has at most one strictly sorted entry sequence.
pub proof fn lemma_sorted_rep_unique(e1: Seq<(Seq<u8>, AggModel)>, e2: Seq<(Seq<u8>, AggModel)>)
    requires
        sorted_strict(e1),
        sorted_strict(e2),
        map_of(e1) == map_of(e2),
    ensures
        e1 == e2,
    decreases e1.len(),
{
    lemma_sorted_unique(e1);
    lemma_sorted_unique(e2);
    if e1.len() == 0 {
        if e2.len() > 0 {
            lemma_map_of_index(e2, 0);
            assert(map_of(e1).dom().contains(e2[0].0));
        }
        assert(e1 =~= e2);
    } else if e2.len() == 0 {
        lemma_map_of_index(e1, 0);
        assert(map_of(e2).dom().contains(e1[0].0));
    } else {
        let k1 = e1[0].0;
        let k2 = e2[0].0;
        lemma_map_of_index(e1, 0);
        lemma_map_of_index(e2, 0);
        assert(map_of(e2).dom().contains(k1));
        let j = choose|j: int| 0 <= j < e2.len() && e2[j].0 == k1;
        assert(map_of(e1).dom().contains(k2));
        let i = choose|i: int| 0 <= i < e1.len() && e1[i].0 == k2;
        if k1 != k2 {
            assert(j > 0 && i > 0);
            assert(lex_lt(k2, e2[j].0));
            assert(lex_lt(k1, e1[i].0));
            lemma_lex_asym(k2, k1);
        }
        assert(k1 == k2);
        lemma_map_of_index(e2, j);
        assert(e1[0].1 == map_of(e1)[k1]);
        assert(e2[0].1 == map_of(e2)[k1]);
        let t1 = e1.skip(1);
        let t2 = e2.skip(1);
        assert(forall|p: int| 0 <= p < t1.len() ==> #[trigger] t1[p] == e1[p + 1]);
        assert(forall|p: int| 0 <= p < t2.len() ==> #[trigger] t2[p] == e2[p + 1]);
        assert(sorted_strict(t1));
        assert(sorted_strict(t2));
        lemma_map_of_skip_first(e1);
        lemma_map_of_skip_first(e2);
        lemma_sorted_rep_unique(t1, t2);
        assert(e1[0] == e2[0]);
        assert(e1.len() == e2.len());
        assert forall|p: int| 0 <= p < e1.len() implies e1[p] == e2[p] by {
            if p > 0 {
                assert(e1[p] == t1[p - 1]);
                assert(e2[p] == t2[p - 1]);
            }
        }
        assert(e1 =~= e2);
    }
}

/// What `sorted_entries_of` chooses is a strictly sorted representation of
/// the table, whenever the table has one.
pub proof fn lemma_sorted_entries_of(m: Map<Seq<u8>, AggModel>)
    requires
        exists|es: Seq<(Seq<u8>, AggModel)>| sorted_strict(es) && map_of(es) == m,
    ensures
        sorted_strict(sorted_entries_of(m)),
        map_of(sorted_entries_of(m)) == m,
{
}

/// Appends all bytes of `b`.
pub fn push_bytes(out: &mut Vec<u8>, b: &Vec<u8>)
    ensures
        final(out)@ == old(out)@ + b@,
{
    let mut i: usize = 0;
    while i < b.len()
        invariant
            i <= b@.len(),
            out@ == old(out)@ + b@.take(i as int),
        decreases b@.len() - i,
    {
        out.push(b[i]);
        i = i + 1;
        proof {
            assert(old(out)@ + b@.take(i as int) =~= (old(out)@ + b@.take(i - 1)).push(b@[i - 1]));
        }
    }
    proof {
        assert(old(out)@ + b@.take(b@.len() as int) =~= old(out)@ + b@);
    }
}

/// Appends a scaled value in the fixed `[-]D[D].D` form.
pub fn push_scaled(out: &mut Vec<u8>, v: i32)
    requires
        -999 <= v <= 999,
    ensures
        final(out)@ == old(out)@ + fmt_scaled(v as int),
{
    let a: u32 = if v < 0 {
        out.push(MINUS);
        (-v) as u32
    } else {
        v as u32
    };
    let ip = a / 10;
    let fd = a % 10;
    if ip >= 10 {
        out.push(DIGIT_ZERO + (ip / 10) as u8);
        out.push(DIGIT_ZERO + (ip % 10) as u8);
    } else {
        out.push(DIGIT_ZERO + ip as u8);
    }
    out.push(DOT);
    out.push(DIGIT_ZERO + fd as u8);
    proof {
        assert(out@ =~= old(out)@ + fmt_scaled(v as int));
    }
}

/// The rounded scaled mean of an aggregate's sum and count.
pub fn rounded_avg(sum: i64, count: u64) -> (q: i32)
    requires
        1 <= count <= crate::table::MAX_TOTAL_COUNT,
        -999 * count <= sum <= 999 * count,
    ensures
        q as int == rounded_div(sum as int, count as int),
        -999 <= q <= 999,
{
    proof {
        let a = AggModel { min: -999, sum: sum as int, count: count as int, max: 999 };
        assert(agg_wf(a));
        lemma_rounded_div_bounds(a);
    }
    let c = count as i64;
    if sum >= 0 {
        ((2 * sum + c) / (2 * c)) as i32
    } else {
        (-((2 * (-sum) + c) / (2 * c))) as i32
    }
}

/// Sorted, unique output: the entries the report renders stand in strictly
/// ascending byte order of their keys, so no key appears twice.
pub proof fn lemma_report_keys_sorted(m: Map<Seq<u8>, AggModel>)
    requires
        exists|es: Seq<(Seq<u8>, AggModel)>| sorted_strict(es) && map_of(es) == m,
    ensures
        sorted_strict(sorted_entries_of(m)),
        unique_keys(sorted_entries_of(m)),
        map_of(sorted_entries_of(m)) == m,
{
    lemma_sorted_entries_of(m);
    lemma_sorted_unique(sorted_entries_of(m));
}

} // verus!
