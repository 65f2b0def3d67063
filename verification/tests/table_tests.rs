use keystats::table::{Table, Agg, key_compare, KeyOrder};
use keystats::aggregate::process_chunk;

fn render_text(t: &Table) -> String {
    String::from_utf8(t.render()).expect("report should be text")
}

#[test]
fn empty_table_renders_bare_braces() {
    let t = Table::new();
    assert_eq!(t.record_count(), 0);
    assert_eq!(render_text(&t), "{}");
}

#[test]
fn upsert_folds_min_sum_count_max() {
    let mut t = Table::new();
    t.upsert(b"A".to_vec(), 100);
    t.upsert(b"A".to_vec(), 200);
    t.upsert(b"B".to_vec(), -55);
    assert_eq!(t.record_count(), 3);
    assert_eq!(render_text(&t), "{A=10.0/15.0/20.0,B=-5.5/-5.5/-5.5}");
}

#[test]
fn merge_from_merges_shared_and_disjoint_keys() {
    let mut a = Table::new();
    a.upsert(b"k1".to_vec(), 10);
    a.upsert(b"k2".to_vec(), 20);
    let mut b = Table::new();
    b.upsert(b"k2".to_vec(), 40);
    b.upsert(b"k3".to_vec(), -10);
    a.merge_from(b);
    assert_eq!(a.record_count(), 4);
    assert_eq!(render_text(&a), "{k1=1.0/1.0/1.0,k2=2.0/3.0/4.0,k3=-1.0/-1.0/-1.0}");
}

#[test]
fn merge_order_does_not_matter() {
    let build = |pairs: &[(&str, i32)]| {
        let mut t = Table::new();
        for (k, v) in pairs {
            t.upsert(k.as_bytes().to_vec(), *v);
        }
        t
    };
    let mut ab = build(&[("x", 5), ("y", -5)]);
    ab.merge_from(build(&[("y", 15), ("z", 0)]));
    let mut ba = build(&[("y", 15), ("z", 0)]);
    ba.merge_from(build(&[("x", 5), ("y", -5)]));
    assert_eq!(ab.render(), ba.render());
}

#[test]
fn aggregate_bounds_hold_in_rendered_fields() {
    // min <= mean <= max for each key of a processed chunk.
    let input = b"k;3.0\nk;1.0\nk;2.0\n";
    let t = process_chunk(input, 0, input.len()).unwrap();
    assert_eq!(render_text(&t), "{k=1.0/2.0/3.0}");
}

#[test]
fn process_chunk_of_subrange_only_reads_that_range() {
    let input = b"a;1.0\nb;2.0\nc;3.0\n";
    let t = process_chunk(input, 6, 12).unwrap();
    assert_eq!(t.record_count(), 1);
    assert_eq!(render_text(&t), "{b=2.0/2.0/2.0}");
}

#[test]
fn key_compare_is_bytewise() {
    assert!(matches!(key_compare(b"abc", b"abd"), KeyOrder::Less));
    assert!(matches!(key_compare(b"abc", b"abc"), KeyOrder::Equal));
    assert!(matches!(key_compare(b"abd", b"abc"), KeyOrder::Greater));
    assert!(matches!(key_compare(b"ab", b"abc"), KeyOrder::Less));
    assert!(matches!(key_compare(b"abc", b"ab"), KeyOrder::Greater));
    assert!(matches!(key_compare(b"", b""), KeyOrder::Equal));
    // Byte order, not human order: uppercase sorts before lowercase.
    assert!(matches!(key_compare(b"Z", b"a"), KeyOrder::Less));
}

#[test]
fn merge_one_takes_whole_aggregates() {
    let mut t = Table::new();
    t.upsert(b"q".to_vec(), 30);
    let agg = Agg { min: -20, sum: 10, count: 3, max: 25 };
    t.merge_one(b"q".to_vec(), agg);
    assert_eq!(t.record_count(), 4);
    assert_eq!(render_text(&t), "{q=-2.0/1.0/3.0}");
}

#[test]
fn global_table_of_three_records() {
    // Global Table for A;10.0 B;-5.5 A;20.0:
    // A holds min=10.0, sum=30.0, count=2, max=20.0; B holds -5.5 once.
    let input = b"A;10.0\nB;-5.5\nA;20.0\n";
    let t = process_chunk(input, 0, input.len()).unwrap();
    let a = t.get(b"A").unwrap();
    assert_eq!((a.min, a.sum, a.count, a.max), (100, 300, 2, 200));
    let b = t.get(b"B").unwrap();
    assert_eq!((b.min, b.sum, b.count, b.max), (-55, -55, 1, -55));
    assert!(t.get(b"C").is_none());
    assert!(t.get(b"").is_none());
}

#[test]
fn single_and_multi_worker_tables_agree() {
    // A 10,000-record synthetic set with repeated keys: the table folded in
    // one pass equals the merge of per-partition tables, key by key.
    let mut input = Vec::new();
    for i in 0..10_000 {
        let key = format!("s{:02}", i % 40);
        let v: i32 = ((i * 73) % 1999) as i32 - 999;
        input.extend_from_slice(key.as_bytes());
        input.push(b';');
        let a = v.abs();
        input.extend_from_slice(format!("{}{}.{}", if v < 0 { "-" } else { "" }, a / 10, a % 10).as_bytes());
        input.push(b'\n');
    }
    let single = process_chunk(&input, 0, input.len()).unwrap();
    let bs = keystats::pipeline::partition_ranges(&input, 7);
    let mut merged = Table::new();
    for w in bs.windows(2) {
        merged.merge_from(process_chunk(&input, w[0], w[1]).unwrap());
    }
    assert_eq!(merged.record_count(), single.record_count());
    for i in 0..40 {
        let key = format!("s{:02}", i);
        let a = single.get(key.as_bytes()).unwrap();
        let b = merged.get(key.as_bytes()).unwrap();
        assert_eq!(
            (a.min, a.sum, a.count, a.max),
            (b.min, b.sum, b.count, b.max)
        );
    }
    assert_eq!(merged.render(), single.render());
}
