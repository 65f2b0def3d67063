use keystats::decode::ParseError;
use keystats::pipeline::{run, run_partitioned, partition_ranges};

fn report(input: &[u8]) -> String {
    String::from_utf8(run(input).expect("input should parse")).expect("report should be text")
}

#[test]
fn empty_input_empty_report() {
    assert_eq!(run(b"").unwrap(), b"{}".to_vec());
}

#[test]
fn three_records() {
    // Two values for A (10.0 and 20.0: min 10.0, mean 15.0, max 20.0) and
    // one for B (-5.5 everywhere).
    let input = b"A;10.0\nB;-5.5\nA;20.0\n";
    assert_eq!(report(input), "{A=10.0/15.0/20.0,B=-5.5/-5.5/-5.5}");
}

#[test]
fn three_records_partitioned_matches() {
    let input = b"A;10.0\nB;-5.5\nA;20.0\n";
    let whole = run(input).unwrap();
    for n in 1..=6 {
        assert_eq!(run_partitioned(input, n).unwrap(), whole);
    }
}

#[test]
fn single_record_without_trailing_newline() {
    assert_eq!(report(b"a;1.0"), "{a=1.0/1.0/1.0}");
}

#[test]
fn last_record_without_trailing_newline() {
    assert_eq!(report(b"a;1.0\nb;2.5"), "{a=1.0/1.0/1.0,b=2.5/2.5/2.5}");
}

#[test]
fn keys_sorted_unique_in_output() {
    let input = b"b;1.0\na;2.0\nc;3.0\nb;1.0\n";
    assert_eq!(report(input), "{a=2.0/2.0/2.0,b=1.0/1.0/1.0,c=3.0/3.0/3.0}");
}

#[test]
fn deterministic_output() {
    let input = b"x;4.2\ny;-9.9\nx;0.1\n";
    let first = run(input).unwrap();
    let second = run(input).unwrap();
    assert_eq!(first, second);
    let third = run_partitioned(input, 3).unwrap();
    assert_eq!(first, third);
}

#[test]
fn mean_rounds_half_away_from_zero() {
    // 0.1 and 0.2 average to 0.15, written as 0.2.
    assert_eq!(report(b"a;0.1\na;0.2\n"), "{a=0.1/0.2/0.2}");
    // -0.1 and -0.2 average to -0.15, written as -0.2.
    assert_eq!(report(b"a;-0.1\na;-0.2\n"), "{a=-0.2/-0.2/-0.1}");
    // 1.0, 2.0, 2.0 average to 1.666..., written as 1.7.
    assert_eq!(report(b"a;1.0\na;2.0\na;2.0\n"), "{a=1.0/1.7/2.0}");
    assert_eq!(report(b"a;-1.0\na;-2.0\na;-2.0\n"), "{a=-2.0/-1.7/-1.0}");
}

#[test]
fn missing_delimiter_is_malformed() {
    assert_eq!(run(b"abc"), Err(ParseError::MalformedRecord));
    assert_eq!(run(b"a;1.0\nxyz"), Err(ParseError::MalformedRecord));
}

#[test]
fn bad_value_is_invalid_number() {
    assert_eq!(run(b"a;1.00\n"), Err(ParseError::InvalidNumberFormat));
    assert_eq!(run(b"a;\n"), Err(ParseError::InvalidNumberFormat));
    assert_eq!(run(b"a;hot\n"), Err(ParseError::InvalidNumberFormat));
}

#[test]
fn first_error_wins() {
    // The bad value comes before the record without a delimiter.
    assert_eq!(run(b"a;9.99\nnodelim"), Err(ParseError::InvalidNumberFormat));
    // The record without a delimiter never ends, so its bytes swallow the rest.
    assert_eq!(run_partitioned(b"a;1.0\nxyz", 2).is_err(), true);
}

#[test]
fn empty_key_is_a_key() {
    assert_eq!(report(b";1.0\n;3.0\n"), "{=1.0/2.0/3.0}");
}

#[test]
fn partition_boundaries_are_line_aligned() {
    let input: &[u8] = b"aa;1.0\nbb;2.0\ncc;3.0\ndd;4.0\n";
    for n in 1..=8 {
        let bs = partition_ranges(input, n);
        assert_eq!(bs.len(), n + 1);
        assert_eq!(bs[0], 0);
        assert_eq!(bs[n], input.len());
        for i in 0..n {
            assert!(bs[i] <= bs[i + 1]);
        }
        for i in 1..n {
            let b = bs[i];
            assert!(b == input.len() || b == 0 || input[b - 1] == b'\n');
        }
    }
}

fn scaled_to_text(v: i32) -> String {
    let a = v.abs();
    let sign = if v < 0 { "-" } else { "" };
    format!("{}{}.{}", sign, a / 10, a % 10)
}

fn synthetic_input(records: usize) -> Vec<u8> {
    let mut input = Vec::new();
    for i in 0..records {
        let key = format!("station_{:03}", i % 100);
        let v = ((i * 37) % 1999) as i32 - 999;
        input.extend_from_slice(key.as_bytes());
        input.push(b';');
        input.extend_from_slice(scaled_to_text(v).as_bytes());
        input.push(b'\n');
    }
    input
}

#[test]
fn partition_invariance_synthetic_10k() {
    let input = synthetic_input(10_000);
    let single = run_partitioned(&input, 1).unwrap();
    for n in [2, 3, 7, 16, 64] {
        assert_eq!(run_partitioned(&input, n).unwrap(), single);
    }
    assert_eq!(run(&input).unwrap(), single);
}

#[test]
fn more_workers_than_lines() {
    let input = b"a;1.0\nb;2.0\n";
    let whole = run(input).unwrap();
    assert_eq!(run_partitioned(input, 50).unwrap(), whole);
}
