use brc::format::{lex_less, mean_of, render};
use brc::pipeline::{aggregate, aggregate_blocks};
use brc::plan::{plan_blocks, plan_blocks_with, BlockAssignment, PAGE_SIZE};
use brc::record::{parse_record_in, parse_value_in};
use brc::scan::{find_line_start, scan_block, ScanError};
use brc::stats::{StationStats, Stats};

fn text(agg: &StationStats) -> String {
    String::from_utf8(render(agg)).unwrap()
}

fn whole(data: &[u8]) -> String {
    text(&aggregate(data).unwrap())
}

const TEN_LINES: &str = "Dushanbe;1.7
Honiara;34.9
Taipei;3.3
Suwałki;4.2
Lahore;15.3
Philadelphia;24.4
Kingston;29.0
Hamburg;-18.1
Damascus;5.4
Rabat;16.6
";

#[test]
fn read_measurements_end_newline() {
    let data: &[u8] = TEN_LINES.as_bytes();
    let agg = aggregate(data).unwrap();
    assert_eq!(agg.len(), 10);
    let hamburg = agg.get(b"Hamburg").unwrap();
    assert_eq!(hamburg.min, -181);
    assert_eq!(hamburg.max, -181);
    assert_eq!(hamburg.count, 1);
    assert_eq!(agg.get("Suwałki".as_bytes()).unwrap().sum, 42);
    assert_eq!(agg.get(b"Rabat").unwrap().min, 166);
}

#[test]
fn read_measurements_truncated() {
    let data: &[u8] = r#"Dushanbe;1.7
Honiara;34.9
Taipei;3.3
Suwałki;4.2
Lahore;15.3
Philadelphia;24.4
Kingston;29.0
Hamburg;-18.1
Damascus;5.4
Rabat;1"#
        .as_bytes();
    // As the whole input, the cut last line is malformed.
    let last = data.len() - "Rabat;1".len();
    assert_eq!(aggregate(data).err(), Some(ScanError::MalformedRecord { offset: last }));
    // As a block that ends inside the last record, that record is left to the next block.
    let full = TEN_LINES.as_bytes();
    let part = scan_block(full, 0, data.len()).unwrap();
    assert_eq!(part.len(), 9);
    assert!(part.get(b"Rabat").is_none());
    let rest = scan_block(full, data.len(), full.len()).unwrap();
    assert_eq!(rest.len(), 1);
    assert_eq!(rest.get(b"Rabat").unwrap().max, 166);
}

#[test]
fn read_measurements_no_newline() {
    let data: &[u8] = r#"Dushanbe;1.7
Honiara;34.9
Taipei;3.3
Suwałki;4.2
Lahore;15.3
Philadelphia;24.4
Kingston;29.0
Hamburg;-18.1
Damascus;5.4
Rabat;16.6"#
        .as_bytes();
    let agg = aggregate(data).unwrap();
    assert_eq!(agg.len(), 10);
    assert_eq!(agg.get(b"Rabat").unwrap().max, 166);
    assert_eq!(text(&agg), whole(TEN_LINES.as_bytes()));
}

#[test]
fn three_records_render() {
    assert_eq!(whole(b"A;1.0\nB;2.0\nA;3.0\n"), "{A=1.0/2.0/3.0, B=2.0/2.0/2.0}");
}

#[test]
fn empty_input_renders_braces() {
    assert_eq!(whole(b""), "{}");
    assert!(plan_blocks(0).is_empty());
    let agg = aggregate_blocks(b"", &plan_blocks(0)).unwrap();
    assert_eq!(text(&agg), "{}");
}

#[test]
fn input_below_one_page_has_one_worker() {
    let data = b"A;1.0\nB;2.0\nA;3.0\n";
    let plan = plan_blocks(data.len());
    assert_eq!(plan, vec![BlockAssignment { index: 0, start: 0, end: data.len() }]);
    let agg = aggregate_blocks(data, &plan).unwrap();
    assert_eq!(text(&agg), whole(data));
}

#[test]
fn final_line_without_newline_parses() {
    assert_eq!(whole(b"A;1.0\nB;-2.5"), whole(b"A;1.0\nB;-2.5\n"));
    assert_eq!(whole(b"B;-2.5"), "{B=-2.5/-2.5/-2.5}");
}

#[test]
fn straddling_record_counted_once_at_every_cut() {
    let data = b"Alpha;1.5\nBeta;-0.3\nAlpha;12.0\nGamma;7.7\n";
    let expected = whole(data);
    for cut in 1..data.len() {
        let mut first = scan_block(data, 0, cut).unwrap();
        let second = scan_block(data, cut, data.len()).unwrap();
        assert!(first.can_merge(&second));
        first.merge(second);
        assert_eq!(text(&first), expected, "cut at {}", cut);
    }
}

#[test]
fn worker_count_does_not_change_result() {
    // 16-byte pages: eight workers get blocks of 16 bytes; a record spans offset 16.
    let data = b"abc;1.0\nlongerkey;-9.9\nabc;2.0\nz;0.1\nlongerkey;99.9\nq;-0.0\nabc;3.0\nzz;4.4\n";
    let one = plan_blocks_with(data.len(), 1, 16);
    let many = plan_blocks_with(data.len(), 8, 16);
    assert_eq!(one.len(), 1);
    assert_eq!(many.len(), 5);
    assert_eq!(many[1].start, 16);
    assert!(data[15] != b'\n' && data[16] != b'\n');
    let a = text(&aggregate_blocks(data, &one).unwrap());
    let b = text(&aggregate_blocks(data, &many).unwrap());
    assert_eq!(a, b);
    assert_eq!(a, whole(data));
}

#[test]
fn merge_order_does_not_matter() {
    let data = b"x;1.0\ny;2.0\nx;-4.0\nw;3.3\ny;0.5\n";
    let left = || scan_block(data, 0, 14).unwrap();
    let right = || scan_block(data, 14, data.len()).unwrap();
    let mut ab = left();
    ab.merge(right());
    let mut ba = right();
    ba.merge(left());
    assert_eq!(text(&ab), text(&ba));
    assert_eq!(text(&ab), "{w=3.3/3.3/3.3, x=-4.0/-1.5/1.0, y=0.5/1.3/2.0}");
}

#[test]
fn plan_covers_whole_input() {
    let len = 8 * PAGE_SIZE + 7;
    let plan = plan_blocks(len);
    assert_eq!(plan.len(), 8);
    assert_eq!(plan[0].start, 0);
    assert_eq!(plan[7].end, len);
    for w in plan.windows(2) {
        assert_eq!(w[0].end, w[1].start);
    }
    assert_eq!(plan[0].end, 2 * PAGE_SIZE);
    let small = plan_blocks(3 * PAGE_SIZE + 1);
    assert_eq!(small.len(), 4);
    assert_eq!(small[1].start, PAGE_SIZE);
    let padded = plan_blocks(8 * PAGE_SIZE + 1);
    assert_eq!(padded[7].start, 8 * PAGE_SIZE + 1);
    assert_eq!(padded[7].end, 8 * PAGE_SIZE + 1);
}

#[test]
fn malformed_interior_line_fails() {
    assert_eq!(
        aggregate(b"A;1.0\nnonsense\nB;2.0\n").err(),
        Some(ScanError::MalformedRecord { offset: 6 })
    );
    assert_eq!(
        aggregate(b"A;1.0\n\nB;2.0\n").err(),
        Some(ScanError::MalformedRecord { offset: 6 })
    );
    assert_eq!(aggregate(b"A;1.25\n").err(), Some(ScanError::MalformedRecord { offset: 0 }));
    let bad: &[u8] = b"A;1.0\nB;x.0\nC;3.0\n";
    let plan = plan_blocks_with(bad.len(), 8, 4);
    assert_eq!(plan.len(), 5);
    assert_eq!(
        aggregate_blocks(bad, &plan).err(),
        Some(ScanError::MalformedRecord { offset: 6 })
    );
}

#[test]
fn values_parse_in_tenths() {
    let cases: [(&[u8], Option<i64>); 16] = [
        (b"-3.4", Some(-34)),
        (b"12.0", Some(120)),
        (b"0.0", Some(0)),
        (b"-0.5", Some(-5)),
        (b"99.9", Some(999)),
        (b"123.4", Some(1234)),
        (b"-007.5", Some(-75)),
        (b"100000000000000000.0", Some(1_000_000_000_000_000_000)),
        (b"-100000000000000000.0", Some(-1_000_000_000_000_000_000)),
        (b"100000000000000000.1", None),
        (b"99999999999999999999999.9", None),
        (b"1.23", None),
        (b"1a.3", None),
        (b".5", None),
        (b"abc", None),
        (b"-", None),
    ];
    for (s, want) in cases {
        assert_eq!(parse_value_in(s, 0, s.len()), want);
    }
    let line = b"key;with;-1.0";
    assert_eq!(parse_record_in(line, 0, line.len()), None);
    let line = b"Oslo;-1.0";
    assert_eq!(parse_record_in(line, 0, line.len()), Some((4, -10)));
    let line = b"a;123.4";
    assert_eq!(parse_record_in(line, 0, line.len()), Some((1, 1234)));
}

#[test]
fn mean_rounds_half_up() {
    let up = Stats { min: 10, max: 11, sum: 21, count: 2 };
    assert_eq!(mean_of(&up), 11);
    let down = Stats { min: -11, max: -10, sum: -21, count: 2 };
    assert_eq!(mean_of(&down), -10);
    assert_eq!(whole(b"a;-0.5\n"), "{a=-0.5/-0.5/-0.5}");
}

#[test]
fn keys_sort_by_bytes() {
    assert!(lex_less(b"a", b"ab"));
    assert!(lex_less(b"B", b"a"));
    assert!(!lex_less(b"ab", b"ab"));
    assert!(!lex_less(b"b", b"ab"));
    assert_eq!(whole(b"b;1.0\nab;2.0\na;3.0\nB;4.0\n"), "{B=4.0/4.0/4.0, a=3.0/3.0/3.0, ab=2.0/2.0/2.0, b=1.0/1.0/1.0}");
}

#[test]
fn repeated_key_accumulates() {
    let mut agg = StationStats::new();
    agg.record(b"k", 5);
    agg.record(b"k", -7);
    agg.record(b"j", 1);
    assert_eq!(agg.len(), 2);
    let k = agg.get(b"k").unwrap();
    assert_eq!((k.min, k.max, k.sum, k.count), (-7, 5, -2, 2));
    assert_eq!(*agg.key_at(1), b"j".to_vec());
}

#[test]
fn line_start_walks_back() {
    let data = b"ab;1.0\ncd;2.0\n";
    assert_eq!(find_line_start(data, 0), 0);
    assert_eq!(find_line_start(data, 3), 0);
    assert_eq!(find_line_start(data, 7), 7);
    assert_eq!(find_line_start(data, 10), 7);
    assert_eq!(find_line_start(data, data.len()), data.len());
}

#[test]
fn default_plan_matches_single_block_on_large_input() {
    let mut data: Vec<u8> = Vec::new();
    let mut i: u32 = 0;
    while data.len() < 9 * PAGE_SIZE + 123 {
        let line = format!("station{};{}.{}\n", i % 37, (i * 7) % 100, i % 10);
        data.extend_from_slice(line.as_bytes());
        i += 1;
    }
    let many = plan_blocks(data.len());
    assert_eq!(many.len(), 8);
    let straddled = many
        .iter()
        .skip(1)
        .filter(|b| b.start < data.len() && data[b.start - 1] != b'\n')
        .count();
    assert!(straddled > 0);
    let one = plan_blocks_with(data.len(), 1, PAGE_SIZE);
    assert_eq!(one.len(), 1);
    let a = text(&aggregate_blocks(&data, &many).unwrap());
    let b = text(&aggregate_blocks(&data, &one).unwrap());
    assert_eq!(a, b);
    assert_eq!(a, whole(&data));
}

#[test]
fn values_beyond_two_digits_aggregate() {
    assert_eq!(
        whole(b"a;123.4\na;-1000.0\nb;12345.6\n"),
        "{a=-1000.0/-438.3/123.4, b=12345.6/12345.6/12345.6}"
    );
    let big = b"x;100000000000000000.0\nx;100000000000000000.0\nx;-100000000000000000.0\n";
    assert_eq!(
        whole(big),
        "{x=-100000000000000000.0/33333333333333333.3/100000000000000000.0}"
    );
    assert_eq!(
        aggregate(b"x;1.0\ny;100000000000000000.1\n").err(),
        Some(ScanError::MalformedRecord { offset: 6 })
    );
}
