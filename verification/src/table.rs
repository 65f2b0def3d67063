//! Aggregation tables: per-key `{min, sum, count, max}` summaries, folded
//! record by record within one partition and merged across partitions by a
//! commutative, associative rule.
//!
//! A table is held as a pair of parallel vectors sorted strictly ascending
//! by key in byte-wise lexicographic order; its meaning is a map from key
//! bytes to the aggregate model.

use vstd::prelude::*;
use vstd::map::*;

verus! {

/// The mathematical model of one aggregate: for every contributing scaled
/// value `v`, `min <= v <= max`; `sum` is the arithmetic sum of the values;
/// `count` is how many were folded.
pub ghost struct AggModel {
    pub min: int,
    pub sum: int,
    pub count: int,
    pub max: int,
}

/// The aggregate of a single scaled value.
pub open spec fn agg_unit(v: int) -> AggModel {
    AggModel { min: v, sum: v, count: 1, max: v }
}

/// The merge of two aggregates: least minimum, summed sums and counts,
/// greatest maximum.
pub open spec fn agg_merge(a: AggModel, b: AggModel) -> AggModel {
    AggModel {
        min: if a.min <= b.min { a.min } else { b.min },
        sum: a.sum + b.sum,
        count: a.count + b.count,
        max: if a.max >= b.max { a.max } else { b.max },
    }
}

/// Well-formedness of an aggregate over scaled values in `[-999, 999]`:
/// at least one value contributed, and the sum lies between `min * count`
/// and `max * count` (that is, `min <= sum / count <= max`).
pub open spec fn agg_wf(a: AggModel) -> bool {
    &&& 1 <= a.count
    &&& -999 <= a.min
    &&& a.min <= a.max
    &&& a.max <= 999
    &&& a.min * a.count <= a.sum
    &&& a.sum <= a.max * a.count
}

/// A single in-range value forms a well-formed aggregate.
pub proof fn lemma_agg_unit_wf(v: int)
    requires
        -999 <= v <= 999,
    ensures
        agg_wf(agg_unit(v)),
{
}

/// Merging preserves well-formedness.
pub proof fn lemma_agg_merge_wf(a: AggModel, b: AggModel)
    requires
        agg_wf(a),
        agg_wf(b),
    ensures
        agg_wf(agg_merge(a, b)),
{
    let m = agg_merge(a, b);
    assert(m.min * m.count <= m.sum && m.sum <= m.max * m.count) by (nonlinear_arith)
        requires
            m == agg_merge(a, b),
            agg_wf(a),
            agg_wf(b),
    {
    }
}

/// Merging aggregates is commutative.
pub proof fn lemma_agg_merge_comm(a: AggModel, b: AggModel)
    ensures
        agg_merge(a, b) == agg_merge(b, a),
{
}

/// Merging aggregates is associative.
pub proof fn lemma_agg_merge_assoc(a: AggModel, b: AggModel, c: AggModel)
    ensures
        agg_merge(agg_merge(a, b), c) == agg_merge(a, agg_merge(b, c)),
{
}

/// Byte-wise (not locale-aware) strict lexicographic order on keys.
pub open spec fn lex_lt(a: Seq<u8>, b: Seq<u8>) -> bool
    decreases a.len(),
{
    if b.len() == 0 {
        false
    } else if a.len() == 0 {
        true
    } else if a[0] < b[0] {
        true
    } else if a[0] > b[0] {
        false
    } else {
        lex_lt(a.skip(1), b.skip(1))
    }
}

/// The order is asymmetric.
pub proof fn lemma_lex_asym(a: Seq<u8>, b: Seq<u8>)
    requires
        lex_lt(a, b),
    ensures
        !lex_lt(b, a),
        a != b,
    decreases a.len(),
{
    if a.len() > 0 && b.len() > 0 && a[0] == b[0] {
        lemma_lex_asym(a.skip(1), b.skip(1));
        if a =~= b {
            assert(a.skip(1) =~= b.skip(1));
        }
    } else {
        if a.len() == 0 && lex_lt(b, a) {
        }
        if a == b && a.len() == 0 {
            assert(b.len() == 0);
        }
    }
}

/// The order is transitive.
pub proof fn lemma_lex_trans(a: Seq<u8>, b: Seq<u8>, c: Seq<u8>)
    requires
        lex_lt(a, b),
        lex_lt(b, c),
    ensures
        lex_lt(a, c),
    decreases a.len(),
{
    if b.len() > 0 && c.len() > 0 && a.len() > 0 {
        if a[0] == b[0] && b[0] == c[0] {
            lemma_lex_trans(a.skip(1), b.skip(1), c.skip(1));
        }
    }
}

/// A shared strict prefix up to a smaller first difference orders the keys;
/// a proper prefix comes first.
pub proof fn lemma_lex_lt_at(a: Seq<u8>, b: Seq<u8>, i: int)
    requires
        0 <= i <= a.len(),
        i <= b.len(),
        forall|j: int| 0 <= j < i ==> a[j] == b[j],
        (i < a.len() && i < b.len() && a[i] < b[i]) || (i == a.len() && i < b.len()),
    ensures
        lex_lt(a, b),
    decreases i,
{
    if i == 0 {
    } else {
        assert(forall|j: int| 0 <= j < i - 1 ==> a.skip(1)[j] == b.skip(1)[j]);
        lemma_lex_lt_at(a.skip(1), b.skip(1), i - 1);
    }
}

/// Keys equal at every offset of their common (full) length are equal.
pub proof fn lemma_lex_eq_at(a: Seq<u8>, b: Seq<u8>)
    requires
        a.len() == b.len(),
        forall|j: int| 0 <= j < a.len() ==> a[j] == b[j],
    ensures
        a == b,
{
    assert(a =~= b);
}

/// Entries with pairwise distinct keys.
pub open spec fn unique_keys(es: Seq<(Seq<u8>, AggModel)>) -> bool {
    forall|i: int, j: int| 0 <= i < j < es.len() ==> es[i].0 != es[j].0
}

/// Entries sorted strictly ascending by key.
pub open spec fn sorted_strict(es: Seq<(Seq<u8>, AggModel)>) -> bool {
    forall|i: int, j: int| 0 <= i < j < es.len() ==> lex_lt(es[i].0, es[j].0)
}

/// Strictly sorted entries have pairwise distinct keys.
pub proof fn lemma_sorted_unique(es: Seq<(Seq<u8>, AggModel)>)
    requires
        sorted_strict(es),
    ensures
        unique_keys(es),
{
    assert forall|i: int, j: int| 0 <= i < j < es.len() implies es[i].0 != es[j].0 by {
        lemma_lex_asym(es[i].0, es[j].0);
    }
}

/// The map a sequence of entries stands for; with `unique_keys` it maps each
/// entry's key to that entry's aggregate and holds nothing else.
pub open spec fn map_of(es: Seq<(Seq<u8>, AggModel)>) -> Map<Seq<u8>, AggModel> {
    Map::new(
        |k: Seq<u8>| exists|i: int| 0 <= i < es.len() && es[i].0 == k,
        |k: Seq<u8>| es[choose|i: int| 0 <= i < es.len() && es[i].0 == k].1,
    )
}

/// Each entry of a duplicate-free sequence is found in its map.
pub proof fn lemma_map_of_index(es: Seq<(Seq<u8>, AggModel)>, i: int)
    requires
        unique_keys(es),
        0 <= i < es.len(),
    ensures
        map_of(es).dom().contains(es[i].0),
        map_of(es)[es[i].0] == es[i].1,
{
    let k = es[i].0;
    assert(exists|j: int| 0 <= j < es.len() && es[j].0 == k);
    let j = choose|j: int| 0 <= j < es.len() && es[j].0 == k;
    assert(j == i);
}

/// Replacing the aggregate of entry `i` is insertion into the map.
pub proof fn lemma_map_of_update(es: Seq<(Seq<u8>, AggModel)>, i: int, a: AggModel)
    requires
        unique_keys(es),
        0 <= i < es.len(),
    ensures
        map_of(es.update(i, (es[i].0, a))) == map_of(es).insert(es[i].0, a),
{
    let es2 = es.update(i, (es[i].0, a));
    assert(forall|j: int| 0 <= j < es.len() ==> es2[j].0 == es[j].0);
    assert(unique_keys(es2));
    let lhs = map_of(es2);
    let rhs = map_of(es).insert(es[i].0, a);
    assert_maps_equal!(lhs, rhs, k => {
        if k == es[i].0 {
            lemma_map_of_index(es2, i);
        } else {
            if map_of(es2).dom().contains(k) {
                let j = choose|j: int| 0 <= j < es2.len() && es2[j].0 == k;
                lemma_map_of_index(es2, j);
                lemma_map_of_index(es, j);
            }
            if map_of(es).dom().contains(k) {
                let j = choose|j: int| 0 <= j < es.len() && es[j].0 == k;
                lemma_map_of_index(es, j);
                lemma_map_of_index(es2, j);
            }
        }
    });
}

/// Inserting an entry under a fresh key is insertion into the map.
pub proof fn lemma_map_of_insert(es: Seq<(Seq<u8>, AggModel)>, i: int, e: (Seq<u8>, AggModel))
    requires
        unique_keys(es),
        0 <= i <= es.len(),
        forall|j: int| 0 <= j < es.len() ==> es[j].0 != e.0,
    ensures
        map_of(es.insert(i, e)) == map_of(es).insert(e.0, e.1),
{
    let es2 = es.insert(i, e);
    assert(es2.len() == es.len() + 1);
    assert(forall|j: int| 0 <= j < i ==> es2[j] == es[j]);
    assert(es2[i] == e);
    assert(forall|j: int| i < j < es2.len() ==> es2[j] == es[j - 1]);
    assert(unique_keys(es2)) by {
        assert forall|p: int, q: int| 0 <= p < q < es2.len() implies es2[p].0 != es2[q].0 by {
            let p0: int = if p < i { p } else { p - 1 };
            let q0: int = if q < i { q } else { q - 1 };
            if p == i {
                assert(es2[q].0 == es[q0].0);
            } else if q == i {
                assert(es2[p].0 == es[p0].0);
            } else {
                assert(es2[p].0 == es[p0].0 && es2[q].0 == es[q0].0);
            }
        }
    }
    let lhs = map_of(es2);
    let rhs = map_of(es).insert(e.0, e.1);
    assert_maps_equal!(lhs, rhs, k => {
        if k == e.0 {
            lemma_map_of_index(es2, i);
        } else {
            if map_of(es2).dom().contains(k) {
                let j = choose|j: int| 0 <= j < es2.len() && es2[j].0 == k;
                lemma_map_of_index(es2, j);
                let j0: int = if j < i { j } else { j - 1 };
                assert(es[j0].0 == k);
                lemma_map_of_index(es, j0);
            }
            if map_of(es).dom().contains(k) {
                let j = choose|j: int| 0 <= j < es.len() && es[j].0 == k;
                lemma_map_of_index(es, j);
                let j2: int = if j < i { j } else { j + 1 };
                assert(es2[j2].0 == k);
                lemma_map_of_index(es2, j2);
            }
        }
    });
}

/// Folding one whole aggregate into a table under a key: merge into the
/// key's aggregate, or open the key with the incoming aggregate.
pub open spec fn fold_entry(m: Map<Seq<u8>, AggModel>, k: Seq<u8>, a: AggModel) -> Map<
    Seq<u8>,
    AggModel,
> {
    if m.dom().contains(k) {
        m.insert(k, agg_merge(m[k], a))
    } else {
        m.insert(k, a)
    }
}

/// Folding one decoded record into a table: merge into the key's aggregate,
/// or open the key with the unit aggregate of the value.
pub open spec fn fold_record(m: Map<Seq<u8>, AggModel>, k: Seq<u8>, v: int) -> Map<
    Seq<u8>,
    AggModel,
> {
    fold_entry(m, k, agg_unit(v))
}

/// The table of a record sequence: every record folded in, in order.
pub open spec fn table_of(rs: Seq<(Seq<u8>, int)>) -> Map<Seq<u8>, AggModel>
    decreases rs.len(),
{
    if rs.len() == 0 {
        Map::empty()
    } else {
        fold_record(table_of(rs.drop_last()), rs.last().0, rs.last().1)
    }
}

/// The merge of two tables: aggregates of shared keys merged, aggregates of
/// keys on one side kept as they are.
pub open spec fn merge_tables(a: Map<Seq<u8>, AggModel>, b: Map<Seq<u8>, AggModel>) -> Map<
    Seq<u8>,
    AggModel,
> {
    Map::new(
        |k: Seq<u8>| a.dom().contains(k) || b.dom().contains(k),
        |k: Seq<u8>|
            if a.dom().contains(k) && b.dom().contains(k) {
                agg_merge(a[k], b[k])
            } else if a.dom().contains(k) {
                a[k]
            } else {
                b[k]
            },
    )
}

/// The empty table is the unit of merging.
pub proof fn lemma_merge_tables_empty(m: Map<Seq<u8>, AggModel>)
    ensures
        merge_tables(m, Map::empty()) == m,
        merge_tables(Map::empty(), m) == m,
{
    let l1 = merge_tables(m, Map::empty());
    assert_maps_equal!(l1, m);
    let l2 = merge_tables(Map::empty(), m);
    assert_maps_equal!(l2, m);
}

/// Merging tables is commutative.
pub proof fn lemma_merge_tables_comm(a: Map<Seq<u8>, AggModel>, b: Map<Seq<u8>, AggModel>)
    ensures
        merge_tables(a, b) == merge_tables(b, a),
{
    let lhs = merge_tables(a, b);
    let rhs = merge_tables(b, a);
    assert_maps_equal!(lhs, rhs);
}

/// Merging tables is associative.
pub proof fn lemma_merge_tables_assoc(
    a: Map<Seq<u8>, AggModel>,
    b: Map<Seq<u8>, AggModel>,
    c: Map<Seq<u8>, AggModel>,
)
    ensures
        merge_tables(merge_tables(a, b), c) == merge_tables(a, merge_tables(b, c)),
{
    let lhs = merge_tables(merge_tables(a, b), c);
    let rhs = merge_tables(a, merge_tables(b, c));
    assert_maps_equal!(lhs, rhs);
}

/// Folding an aggregate into a merged table folds it into the right side.
pub proof fn lemma_fold_entry_merge(
    a: Map<Seq<u8>, AggModel>,
    b: Map<Seq<u8>, AggModel>,
    k: Seq<u8>,
    ag: AggModel,
)
    ensures
        fold_entry(merge_tables(a, b), k, ag) == merge_tables(a, fold_entry(b, k, ag)),
{
    let lhs = fold_entry(merge_tables(a, b), k, ag);
    let rhs = merge_tables(a, fold_entry(b, k, ag));
    assert_maps_equal!(lhs, rhs);
}

/// The table of concatenated record sequences is the merge of their tables:
/// the reduction rule does not depend on where the records were split.
pub proof fn lemma_table_of_concat(r1: Seq<(Seq<u8>, int)>, r2: Seq<(Seq<u8>, int)>)
    ensures
        table_of(r1 + r2) == merge_tables(table_of(r1), table_of(r2)),
    decreases r2.len(),
{
    if r2.len() == 0 {
        assert(r1 + r2 =~= r1);
        lemma_merge_tables_empty(table_of(r1));
    } else {
        let r2p = r2.drop_last();
        lemma_table_of_concat(r1, r2p);
        assert((r1 + r2).drop_last() =~= r1 + r2p);
        assert((r1 + r2).last() == r2.last());
        lemma_fold_entry_merge(table_of(r1), table_of(r2p), r2.last().0, agg_unit(r2.last().1));
    }
}

/// Every record's scaled value lies in `[-999, 999]`.
pub open spec fn records_in_range(rs: Seq<(Seq<u8>, int)>) -> bool {
    forall|i: int| 0 <= i < rs.len() ==> -999 <= (#[trigger] rs[i]).1 <= 999
}

/// Every aggregate of the table is well-formed.
pub open spec fn table_all_wf(m: Map<Seq<u8>, AggModel>) -> bool {
    forall|k: Seq<u8>| m.dom().contains(k) ==> agg_wf(m[k])
}

/// Aggregate bounds: folding in-range records leaves every key of the table
/// with a well-formed aggregate, so `min <= sum / count <= max` for each.
pub proof fn lemma_table_of_all_wf(rs: Seq<(Seq<u8>, int)>)
    requires
        records_in_range(rs),
    ensures
        table_all_wf(table_of(rs)),
    decreases rs.len(),
{
    if rs.len() == 0 {
    } else {
        let rsp = rs.drop_last();
        assert(records_in_range(rsp));
        lemma_table_of_all_wf(rsp);
        let m = table_of(rsp);
        let k = rs.last().0;
        let v = rs.last().1;
        assert(-999 <= v <= 999);
        lemma_agg_unit_wf(v);
        if m.dom().contains(k) {
            lemma_agg_merge_wf(m[k], agg_unit(v));
        }
    }
}

/// The largest record total a run may fold: bounds every count and, with
/// values in `[-999, 999]`, every sum, so the fixed-width arithmetic of the
/// hot loop cannot overflow.
pub const MAX_TOTAL_COUNT: u64 = 0x2000_0000_0000;

/// One aggregate as held at run time: scaled extremes, a wide sum and count.
#[derive(Clone, Copy, Debug)]
pub struct Agg {
    pub min: i32,
    pub sum: i64,
    pub count: u64,
    pub max: i32,
}

impl View for Agg {
    type V = AggModel;

    open spec fn view(&self) -> AggModel {
        AggModel {
            min: self.min as int,
            sum: self.sum as int,
            count: self.count as int,
            max: self.max as int,
        }
    }
}

/// The outcome of a three-way key comparison.
pub enum KeyOrder {
    Less,
    Equal,
    Greater,
}

/// Compares two keys in byte-wise lexicographic order.
pub fn key_compare(a: &[u8], b: &[u8]) -> (r: KeyOrder)
    ensures
        r is Less ==> lex_lt(a@, b@),
        r is Equal ==> a@ == b@,
        r is Greater ==> lex_lt(b@, a@),
{
    let mut i: usize = 0;
    while i < a.len() && i < b.len()
        invariant
            i <= a@.len(),
            i <= b@.len(),
            forall|j: int| 0 <= j < i ==> a@[j] == b@[j],
        decreases a@.len() - i,
    {
        let x = a[i];
        let y = b[i];
        if x < y {
            proof {
                lemma_lex_lt_at(a@, b@, i as int);
            }
            return KeyOrder::Less;
        }
        if y < x {
            proof {
                lemma_lex_lt_at(b@, a@, i as int);
            }
            return KeyOrder::Greater;
        }
        i = i + 1;
    }
    if a.len() == b.len() {
        proof {
            lemma_lex_eq_at(a@, b@);
        }
        KeyOrder::Equal
    } else if a.len() < b.len() {
        proof {
            lemma_lex_lt_at(a@, b@, i as int);
        }
        KeyOrder::Less
    } else {
        proof {
            lemma_lex_lt_at(b@, a@, i as int);
        }
        KeyOrder::Greater
    }
}

/// A partition or global table: key -> aggregate, held as parallel vectors
/// sorted strictly ascending by key, with the total folded record count.
pub struct Table {
    keys: Vec<Vec<u8>>,
    aggs: Vec<Agg>,
    records: u64,
}

impl Table {
    /// The entries as key and aggregate models, in stored order.
    pub closed spec fn entries(&self) -> Seq<(Seq<u8>, AggModel)> {
        Seq::new(self.keys@.len(), |i: int| (self.keys@[i]@, self.aggs@[i]@))
    }

    /// The table's meaning: the map its entries stand for.
    pub closed spec fn model(&self) -> Map<Seq<u8>, AggModel> {
        map_of(self.entries())
    }

    /// The total number of records folded into the table.
    pub closed spec fn total(&self) -> int {
        self.records as int
    }

    /// Well-formed: parallel vectors, keys strictly ascending, every
    /// aggregate well-formed with its count within the record total, and the
    /// record total within the global budget.
    pub closed spec fn wf(&self) -> bool {
        &&& self.keys@.len() == self.aggs@.len()
        &&& self.records <= MAX_TOTAL_COUNT
        &&& sorted_strict(self.entries())
        &&& forall|i: int|
            0 <= i < self.entries().len() ==> agg_wf((#[trigger] self.entries()[i]).1)
                && self.entries()[i].1.count <= self.records as int
        &&& prefix_count(self.entries(), self.entries().len() as int) == self.records as int
    }

    /// A well-formed table's entries are strictly sorted, its model is their
    /// map, its aggregates are all well-formed, and its record total is the
    /// sum of their counts.
    pub proof fn lemma_wf_facts(&self)
        requires
            self.wf(),
        ensures
            sorted_strict(self.entries()),
            map_of(self.entries()) == self.model(),
            table_all_wf(self.model()),
            0 <= self.total(),
            prefix_count(self.entries(), self.entries().len() as int) == self.total(),
    {
        lemma_sorted_unique(self.entries());
        assert forall|k: Seq<u8>| self.model().dom().contains(k) implies agg_wf(
            self.model()[k],
        ) by {
            let i = choose|i: int| 0 <= i < self.entries().len() && self.entries()[i].0 == k;
            lemma_map_of_index(self.entries(), i);
        }
    }

    /// The empty table.
    pub fn new() -> (t: Table)
        ensures
            t.wf(),
            t.model() == Map::<Seq<u8>, AggModel>::empty(),
            t.total() == 0,
    {
        let t = Table { keys: Vec::new(), aggs: Vec::new(), records: 0 };
        proof {
            assert(t.entries() =~= Seq::<(Seq<u8>, AggModel)>::empty());
            let lhs = t.model();
            let rhs = Map::<Seq<u8>, AggModel>::empty();
            assert_maps_equal!(lhs, rhs);
        }
        t
    }

    /// The total folded record count.
    pub fn record_count(&self) -> (n: u64)
        ensures
            n as int == self.total(),
    {
        self.records
    }

    /// The aggregate stored under `key`, if the key has been seen.
    pub fn get(&self, key: &[u8]) -> (r: Option<Agg>)
        requires
            self.wf(),
        ensures
            match r {
                Some(a) => self.model().dom().contains(key@) && a@ == self.model()[key@],
                None => !self.model().dom().contains(key@),
            },
    {
        proof {
            self.lemma_wf_facts();
            lemma_sorted_unique(self.entries());
        }
        let (i, found) = self.find_slot(key);
        if found {
            let a = self.aggs[i];
            proof {
                lemma_map_of_index(self.entries(), i as int);
                assert(self.entries()[i as int].1 == a@);
            }
            Some(a)
        } else {
            proof {
                if self.model().dom().contains(key@) {
                    let j = choose|j: int|
                        0 <= j < self.entries().len() && self.entries()[j].0 == key@;
                    assert(self.entries()[j].0 != key@);
                }
            }
            None
        }
    }

    /// The slot of `key`: either the index of the entry holding it, or the
    /// index at which it keeps the keys sorted when inserted.
    fn find_slot(&self, key: &[u8]) -> (r: (usize, bool))
        requires
            self.wf(),
        ensures
            r.0 <= self.entries().len(),
            r.1 ==> r.0 < self.entries().len() && self.entries()[r.0 as int].0 == key@,
            !r.1 ==> forall|j: int|
                0 <= j < self.entries().len() ==> (#[trigger] self.entries()[j]).0 != key@,
            !r.1 ==> forall|j: int| 0 <= j < r.0 ==> lex_lt((#[trigger] self.entries()[j]).0, key@),
            !r.1 ==> forall|j: int|
                r.0 <= j < self.entries().len() ==> lex_lt(key@, (#[trigger] self.entries()[j]).0),
    {
        let ghost es = self.entries();
        let mut i: usize = 0;
        while i < self.keys.len()
            invariant
                self.wf(),
                es == self.entries(),
                i <= es.len(),
                forall|j: int| 0 <= j < i ==> lex_lt((#[trigger] es[j]).0, key@),
            decreases self.keys@.len() - i,
        {
            match key_compare(self.keys[i].as_slice(), key) {
                KeyOrder::Less => {
                    i = i + 1;
                },
                KeyOrder::Equal => {
                    return (i, true);
                },
                KeyOrder::Greater => {
                    proof {
                        assert forall|j: int| i <= j < es.len() implies lex_lt(
                            key@,
                            (#[trigger] es[j]).0,
                        ) by {
                            if j > i {
                                lemma_lex_trans(key@, es[i as int].0, es[j].0);
                            }
                        }
                        assert forall|j: int| 0 <= j < es.len() implies (#[trigger] es[j]).0
                            != key@ by {
                            if j < i {
                                lemma_lex_asym(es[j].0, key@);
                            } else {
                                lemma_lex_asym(key@, es[j].0);
                            }
                        }
                    }
                    return (i, false);
                },
            }
        }
        proof {
            assert forall|j: int| 0 <= j < es.len() implies (#[trigger] es[j]).0 != key@ by {
                lemma_lex_asym(es[j].0, key@);
            }
        }
        (i, false)
    }

    /// Folds a whole aggregate into the table under `key`: the merge rule of
    /// the reducer, applied to one key.
    pub fn merge_one(&mut self, key: Vec<u8>, agg: Agg)
        requires
            old(self).wf(),
            agg_wf(agg@),
            old(self).total() + agg@.count <= MAX_TOTAL_COUNT,
        ensures
            final(self).wf(),
            final(self).model() == fold_entry(old(self).model(), key@, agg@),
            final(self).total() == old(self).total() + agg@.count,
    {
        proof {
            self.lemma_wf_facts();
        }
        let ghost es = self.entries();
        let (i, found) = self.find_slot(key.as_slice());
        if found {
            let a = self.aggs[i];
            proof {
                assert(a@ == es[i as int].1);
                assert(a@.count <= self.records as int);
                assert(-999 * a@.count <= a@.sum <= 999 * a@.count) by (nonlinear_arith)
                    requires
                        agg_wf(a@),
                {
                }
                assert(-999 * agg@.count <= agg@.sum <= 999 * agg@.count) by (nonlinear_arith)
                    requires
                        agg_wf(agg@),
                {
                }
            }
            let merged = Agg {
                min: if a.min <= agg.min { a.min } else { agg.min },
                sum: a.sum + agg.sum,
                count: a.count + agg.count,
                max: if a.max >= agg.max { a.max } else { agg.max },
            };
            proof {
                assert(merged@ == agg_merge(a@, agg@));
                lemma_agg_merge_wf(a@, agg@);
            }
            self.aggs[i] = merged;
            self.records = self.records + agg.count;
            proof {
                assert(self.entries() =~= es.update(i as int, (es[i as int].0, merged@)));
                lemma_sorted_unique(es);
                lemma_map_of_update(es, i as int, merged@);
                lemma_map_of_index(es, i as int);
                lemma_prefix_count_update(es, i as int, (es[i as int].0, merged@), es.len() as int);
                assert forall|j: int| 0 <= j < self.entries().len() implies agg_wf(
                    (#[trigger] self.entries()[j]).1,
                ) && self.entries()[j].1.count <= self.records as int by {
                    if j != i {
                        assert(self.entries()[j] == es[j]);
                    }
                }
            }
        } else {
            proof {
                lemma_sorted_unique(es);
            }
            self.keys.insert(i, key);
            self.aggs.insert(i, agg);
            self.records = self.records + agg.count;
            proof {
                assert(self.entries() =~= es.insert(i as int, (key@, agg@)));
                lemma_map_of_insert(es, i as int, (key@, agg@));
                lemma_prefix_count_insert(es, i as int, (key@, agg@), es.len() as int + 1);
                assert(!map_of(es).dom().contains(key@));
                let es2 = self.entries();
                assert forall|p: int, q: int| 0 <= p < q < es2.len() implies lex_lt(
                    (#[trigger] es2[p]).0,
                    (#[trigger] es2[q]).0,
                ) by {
                    let p0: int = if p < i { p } else { p - 1 };
                    let q0: int = if q < i { q } else { q - 1 };
                    if p == i {
                        assert(es2[q].0 == es[q0].0);
                    } else if q == i {
                        assert(es2[p].0 == es[p0].0);
                    } else {
                        assert(es2[p].0 == es[p0].0 && es2[q].0 == es[q0].0);
                    }
                }
                assert forall|j: int| 0 <= j < es2.len() implies agg_wf((#[trigger] es2[j]).1)
                    && es2[j].1.count <= self.records as int by {
                    if j != i {
                        let j0: int = if j < i { j } else { j - 1 };
                        assert(es2[j] == es[j0]);
                    }
                }
            }
        }
    }

    /// Folds one decoded record into the table: update the key's aggregate,
    /// or insert `{value, value, 1, value}` on first sight of the key.
    pub fn upsert(&mut self, key: Vec<u8>, v: i32)
        requires
            old(self).wf(),
            -999 <= v <= 999,
            old(self).total() < MAX_TOTAL_COUNT,
        ensures
            final(self).wf(),
            final(self).model() == fold_record(old(self).model(), key@, v as int),
            final(self).total() == old(self).total() + 1,
    {
        let unit = Agg { min: v, sum: v as i64, count: 1, max: v };
        proof {
            lemma_agg_unit_wf(v as int);
            assert(unit@ == agg_unit(v as int));
        }
        self.merge_one(key, unit);
    }

    /// Merges another table into this one, consuming it: the reducer's rule,
    /// key by key. The result stands for the merge of the two models.
    pub fn merge_from(&mut self, other: Table)
        requires
            old(self).wf(),
            other.wf(),
            old(self).total() + other.total() <= MAX_TOTAL_COUNT,
        ensures
            final(self).wf(),
            final(self).model() == merge_tables(old(self).model(), other.model()),
            final(self).total() == old(self).total() + other.total(),
    {
        let ghost oes = other.entries();
        let ghost ototal = other.total();
        let ghost m0 = old(self).model();
        proof {
            other.lemma_wf_facts();
            lemma_sorted_unique(oes);
        }
        let Table { mut keys, mut aggs, records: _records } = other;
        let mut j: usize = keys.len();
        proof {
            assert(oes.skip(j as int) =~= Seq::<(Seq<u8>, AggModel)>::empty());
            let le = map_of(oes.skip(j as int));
            let re = Map::<Seq<u8>, AggModel>::empty();
            assert_maps_equal!(le, re);
            lemma_merge_tables_empty(m0);
            assert(suffix_count(oes, j as int) == 0);
        }
        while j > 0
            invariant
                self.wf(),
                j <= oes.len(),
                keys@.len() == j,
                aggs@.len() == j,
                forall|p: int| 0 <= p < j ==> ((#[trigger] keys@[p])@, aggs@[p]@) == oes[p],
                unique_keys(oes),
                forall|p: int|
                    0 <= p < oes.len() ==> agg_wf((#[trigger] oes[p]).1) && 1 <= oes[p].1.count,
                self.model() == merge_tables(m0, map_of(oes.skip(j as int))),
                self.total() == old(self).total() + suffix_count(oes, j as int),
                old(self).total() + ototal <= MAX_TOTAL_COUNT,
                suffix_count(oes, j as int) + prefix_count(oes, j as int) == ototal,
            decreases j,
        {
            let k = keys.pop().unwrap();
            let a = aggs.pop().unwrap();
            proof {
                assert((k@, a@) == oes[j - 1]);
                lemma_prefix_count_bounds(oes, j - 1);
                assert(suffix_count(oes, j - 1) == oes[j - 1].1.count + suffix_count(
                    oes,
                    j as int,
                ));
                assert(prefix_count(oes, j as int) == prefix_count(oes, j - 1) + oes[
                    j - 1].1.count);
                assert(suffix_count(oes, j - 1) <= ototal);
            }
            j = j - 1;
            self.merge_one(k, a);
            proof {
                let e = oes[j as int];
                let tail = oes.skip(j as int + 1);
                assert(oes.skip(j as int) =~= tail.insert(0, e));
                assert forall|p: int, q: int| 0 <= p < q < tail.len() implies (#[trigger] tail[p]).0
                    != (#[trigger] tail[q]).0 by {
                    assert(tail[p] == oes[j as int + 1 + p]);
                    assert(tail[q] == oes[j as int + 1 + q]);
                }
                assert forall|p: int| 0 <= p < tail.len() implies (#[trigger] tail[p]).0 != e.0 by {
                    assert(tail[p] == oes[j as int + 1 + p]);
                }
                lemma_map_of_insert(tail, 0, e);
                assert(!map_of(tail).dom().contains(e.0));
                lemma_fold_entry_merge(m0, map_of(tail), e.0, e.1);
            }
        }
        proof {
            assert(oes.skip(0) =~= oes);
            assert(prefix_count(oes, 0) == 0);
        }
    }

    /// Renders the table as the textual report `{k1=min/avg/max,...}` with
    /// keys ascending in byte order and every numeric field written with
    /// exactly one fractional digit.
    #[verifier::rlimit(100)]
    pub fn render(&self) -> (out: Vec<u8>)
        requires
            self.wf(),
        ensures
            out@ == crate::report::fmt_report(crate::report::sorted_entries_of(self.model())),
            sorted_strict(crate::report::sorted_entries_of(self.model())),
            map_of(crate::report::sorted_entries_of(self.model())) == self.model(),
    {
        let ghost es = self.entries();
        proof {
            self.lemma_wf_facts();
            assert(sorted_strict(es) && map_of(es) == self.model());
            crate::report::lemma_sorted_entries_of(self.model());
            crate::report::lemma_sorted_rep_unique(
                crate::report::sorted_entries_of(self.model()),
                es,
            );
        }
        let mut out: Vec<u8> = Vec::new();
        out.push(crate::report::LBRACE);
        proof {
            assert(es.take(0) =~= Seq::<(Seq<u8>, AggModel)>::empty());
            assert(out@ =~= seq![crate::report::LBRACE] + crate::report::fmt_entries(es.take(0)));
        }
        let mut i: usize = 0;
        while i < self.keys.len()
            invariant
                self.wf(),
                es == self.entries(),
                i <= es.len(),
                self.keys@.len() == es.len(),
                out@ == seq![crate::report::LBRACE] + crate::report::fmt_entries(es.take(i as int)),
            decreases es.len() - i,
        {
            if i > 0 {
                out.push(crate::report::COMMA);
            }
            crate::report::push_bytes(&mut out, &self.keys[i]);
            out.push(crate::report::EQUALS);
            let a = self.aggs[i];
            proof {
                assert(es[i as int].1 == a@);
                assert(agg_wf(a@) && a@.count <= self.records as int);
                assert(-999 * a@.count <= a@.sum <= 999 * a@.count) by (nonlinear_arith)
                    requires
                        agg_wf(a@),
                {
                }
            }
            crate::report::push_scaled(&mut out, a.min);
            out.push(crate::report::SLASH);
            let avg = crate::report::rounded_avg(a.sum, a.count);
            crate::report::push_scaled(&mut out, avg);
            out.push(crate::report::SLASH);
            crate::report::push_scaled(&mut out, a.max);
            i = i + 1;
            proof {
                let taken = es.take(i as int);
                crate::report::lemma_fmt_entries_snoc(taken);
                assert(taken.drop_last() =~= es.take(i - 1));
                assert(taken.last() == es[i - 1]);
                assert(out@ =~= seq![crate::report::LBRACE] + crate::report::fmt_entries(taken));
            }
        }
        out.push(crate::report::RBRACE);
        proof {
            assert(es.take(es.len() as int) =~= es);
            assert(out@ =~= crate::report::fmt_report(es));
        }
        out
    }
}

/// The summed counts of the entries at and after offset `j`.
pub open spec fn suffix_count(es: Seq<(Seq<u8>, AggModel)>, j: int) -> int
    decreases es.len() - j,
{
    if j < 0 || j >= es.len() {
        0
    } else {
        es[j].1.count + suffix_count(es, j + 1)
    }
}

/// The summed counts of the entries before offset `j`.
pub open spec fn prefix_count(es: Seq<(Seq<u8>, AggModel)>, j: int) -> int
    decreases j,
{
    if j <= 0 || j > es.len() {
        0
    } else {
        prefix_count(es, j - 1) + es[j - 1].1.count
    }
}

/// Prefix counts of entries with positive counts are never negative.
pub proof fn lemma_prefix_count_bounds(es: Seq<(Seq<u8>, AggModel)>, j: int)
    requires
        0 <= j <= es.len(),
        forall|p: int| 0 <= p < es.len() ==> 1 <= (#[trigger] es[p]).1.count,
    ensures
        0 <= prefix_count(es, j),
    decreases j,
{
    if j >= 1 {
        lemma_prefix_count_bounds(es, j - 1);
    }
}

/// Replacing one entry shifts the prefix sum by the difference in counts.
pub proof fn lemma_prefix_count_update(
    es: Seq<(Seq<u8>, AggModel)>,
    i: int,
    e: (Seq<u8>, AggModel),
    j: int,
)
    requires
        0 <= i < es.len(),
        0 <= j <= es.len(),
    ensures
        prefix_count(es.update(i, e), j) == prefix_count(es, j) + if i < j {
            e.1.count - es[i].1.count
        } else {
            0
        },
    decreases j,
{
    if j > 0 {
        lemma_prefix_count_update(es, i, e, j - 1);
    }
}

/// Inserting an entry adds its count to every prefix sum that covers it.
pub proof fn lemma_prefix_count_insert(
    es: Seq<(Seq<u8>, AggModel)>,
    i: int,
    e: (Seq<u8>, AggModel),
    j: int,
)
    requires
        0 <= i <= es.len(),
        0 <= j <= es.len() + 1,
    ensures
        prefix_count(es.insert(i, e), j) == if i < j {
            prefix_count(es, j - 1) + e.1.count
        } else {
            prefix_count(es, j)
        },
    decreases j,
{
    if j > 0 {
        lemma_prefix_count_insert(es, i, e, j - 1);
    }
}

} // verus!
