use weather_agg::entry::WeatherEntry;
use weather_agg::fixed::{render_fixed, utf8_funky_int, ValueError};
use weather_agg::pipeline::{aggregate_buffer, mapper_interleaved, reduce_tables, summarize};
use weather_agg::fnv::{hash_bytes, LilFnvHasher, INITIAL_STATE};
use weather_agg::report::{render_row, report, sorted_order};
use weather_agg::scan::{chunker, mapper, partition, ParseError, NEWLINE};
use weather_agg::table::{merge, FnvTable, MergeOverflow};

fn run(input: &[u8], workers: usize) -> Vec<String> {
    let ranges = partition(input, workers);
    assert_eq!(ranges.len(), workers);
    let mut acc: Option<FnvTable> = None;
    for (s, e) in ranges {
        let t = mapper(s, e, input).expect("well-formed input");
        acc = Some(match acc {
            None => t,
            Some(a) => merge(a, t, input).expect("no overflow"),
        });
    }
    let table = acc.unwrap();
    report(&table, input).into_iter().map(|r| String::from_utf8(r).unwrap()).collect()
}

fn entry_of(values: &[i64]) -> WeatherEntry {
    let mut e = WeatherEntry::new();
    for v in values {
        e.update(*v);
    }
    e
}

fn same(a: &WeatherEntry, b: &WeatherEntry) -> bool {
    a.min == b.min && a.max == b.max && a.sum == b.sum && a.cnt == b.cnt
}

#[test]
fn example_two_workers() {
    let input = b"A;10.0\nB;-5.5\nA;20.0\n";
    assert_eq!(run(input, 2), vec!["A;10.0;15.0;20.0".to_string(), "B;-5.5;-5.5;-5.5".to_string()]);
}

#[test]
fn example_any_worker_count() {
    let input = b"A;10.0\nB;-5.5\nA;20.0\n";
    for w in 1..=6 {
        assert_eq!(run(input, w), vec!["A;10.0;15.0;20.0".to_string(), "B;-5.5;-5.5;-5.5".to_string()]);
    }
}

#[test]
fn input_without_final_newline() {
    let input = b"A;10.0\nB;-5.5\nA;20.0";
    assert_eq!(run(input, 3), vec!["A;10.0;15.0;20.0".to_string(), "B;-5.5;-5.5;-5.5".to_string()]);
}

#[test]
fn keys_sorted_by_bytes() {
    let input = b"b;1.0\na;2.0\nB;3.0\nab;4.0\na;0.0\n";
    let rows = run(input, 2);
    assert_eq!(rows, vec!["B;3.0;3.0;3.0", "a;0.0;1.0;2.0", "ab;4.0;4.0;4.0", "b;1.0;1.0;1.0"]);
}

#[test]
fn mean_rounds_toward_zero() {
    let input = b"x;-0.1\nx;-0.2\ny;0.1\ny;0.2\n";
    assert_eq!(run(input, 1), vec!["x;-0.2;-0.1;-0.1", "y;0.1;0.1;0.2"]);
}

#[test]
fn empty_input_gives_no_rows() {
    assert_eq!(run(b"", 4), Vec::<String>::new());
    assert_eq!(run(b"\n", 2), Vec::<String>::new());
}

#[test]
fn parse_values() {
    assert_eq!(utf8_funky_int(b"-3.2"), Ok(-32));
    assert_eq!(utf8_funky_int(b"0.0"), Ok(0));
    assert_eq!(utf8_funky_int(b"99.9"), Ok(999));
    assert_eq!(utf8_funky_int(b"12"), Ok(12));
    assert_eq!(utf8_funky_int(b""), Err(ValueError::Empty));
    assert_eq!(utf8_funky_int(b"10000000000000000.0"), Err(ValueError::TooLarge));
    assert_eq!(utf8_funky_int(b"100000000000000.0"), Ok(1_000_000_000_000_000));
}

#[test]
fn render_values() {
    assert_eq!(render_fixed(-32), b"-3.2".to_vec());
    assert_eq!(render_fixed(0), b"0.0".to_vec());
    assert_eq!(render_fixed(999), b"99.9".to_vec());
    assert_eq!(render_fixed(-5), b"-0.5".to_vec());
    assert_eq!(render_fixed(i128::MIN).len(), 41);
}

#[test]
fn parse_render_round_trip() {
    for text in ["-3.2", "0.0", "99.9", "-0.5", "123.4"] {
        let v = utf8_funky_int(text.as_bytes()).unwrap();
        assert_eq!(render_fixed(v as i128), text.as_bytes().to_vec());
    }
}

#[test]
fn entry_update_and_merge() {
    let e = entry_of(&[100, -55, 200]);
    assert_eq!((e.min, e.max, e.sum, e.cnt), (-55, 200, 245, 3));
    let mut a = entry_of(&[1, 2]);
    a.merge(&entry_of(&[-7]));
    assert_eq!((a.min, a.max, a.sum, a.cnt), (-7, 2, -4, 3));
    let fresh = WeatherEntry::default();
    assert_eq!((fresh.min, fresh.max, fresh.sum, fresh.cnt), (i64::MAX, i64::MIN, 0, 0));
}

#[test]
fn merge_commutes_and_associates() {
    let a = entry_of(&[5, 9]);
    let b = entry_of(&[-3]);
    let c = entry_of(&[12, 0, 4]);
    let mut ab = a;
    ab.merge(&b);
    let mut ba = b;
    ba.merge(&a);
    assert!(same(&ab, &ba));
    let mut ab_c = ab;
    ab_c.merge(&c);
    let mut bc = b;
    bc.merge(&c);
    let mut a_bc = a;
    a_bc.merge(&bc);
    assert!(same(&ab_c, &a_bc));
}

#[test]
fn updates_equal_merged_parts() {
    let values = [31, -4, 17, 0, 250, -99];
    let whole = entry_of(&values);
    for cut in 0..=values.len() {
        let mut left = entry_of(&values[..cut]);
        left.merge(&entry_of(&values[cut..]));
        assert!(same(&whole, &left));
    }
}

#[test]
fn fnv_known_values() {
    assert_eq!(hash_bytes(b""), INITIAL_STATE);
    assert_eq!(hash_bytes(b"a"), 0xaf63dc4c8601ec8c);
    let mut h = LilFnvHasher::default();
    h.write(b"fo");
    h.write(b"obar");
    assert_eq!(h.finish(), 0x85944171f73967e8);
    assert_eq!(hash_bytes(b"foobar"), 0x85944171f73967e8);
}

#[test]
fn chunker_stops_at_delimiter() {
    let b = b"ab\ncd\nef";
    assert_eq!(chunker(0, 1, NEWLINE, b), (0, 2));
    assert_eq!(chunker(3, 0, NEWLINE, b), (3, 5));
    assert_eq!(chunker(6, 1, NEWLINE, b), (6, 8));
    assert_eq!(chunker(0, 100, NEWLINE, b), (0, 8));
    assert_eq!(chunker(8, 3, NEWLINE, b), (8, 8));
    assert_eq!(chunker(9, 3, NEWLINE, b), (9, 8));
    assert_eq!(chunker(usize::MAX, usize::MAX, NEWLINE, b), (usize::MAX, 8));
}

#[test]
fn partition_ranges() {
    let b = b"A;10.0\nB;-5.5\nA;20.0\n";
    assert_eq!(partition(b, 2), vec![(0, 13), (14, 20)]);
    assert_eq!(partition(b, 1), vec![(0, 20)]);
    assert_eq!(partition(b, 4), vec![(0, 6), (7, 13), (14, 20), (20, 20)]);
}

#[test]
fn malformed_lines() {
    assert_eq!(mapper(0, 6, b"A10.0\n").err(), Some(ParseError { line: 0 }));
    assert_eq!(mapper(0, 10, b"A;1.0\n;2.0").err(), Some(ParseError { line: 6 }));
    assert_eq!(mapper(0, 9, b"A;1.0\nB;\n").err(), Some(ParseError { line: 6 }));
    assert_eq!(mapper(0, 27, b"A;1.0\nB;10000000000000000.0").err(), Some(ParseError { line: 6 }));
    assert!(mapper(0, 8, b"A;1.0\n\n\n").is_ok());
}

#[test]
fn table_update_and_find() {
    let b = b"xyxy";
    let mut t = FnvTable::new();
    t.update_key(b, 0, 2, 5);
    t.update_key(b, 2, 4, -5);
    t.update_key(b, 0, 1, 7);
    assert_eq!(t.len(), 2);
    assert_eq!(t.find(b, 2, 4), Some(0));
    assert_eq!(t.find(b, 1, 2), None);
    let e = t.vals[0];
    assert_eq!((e.min, e.max, e.sum, e.cnt), (-5, 5, 0, 2));
}

#[test]
fn merge_overflow_reported() {
    let b = b"k";
    let big = WeatherEntry { min: 1, sum: 1, max: 1, cnt: u64::MAX };
    let mut left = FnvTable::new();
    assert!(left.merge_key(b, 0, 1, &big));
    let mut right = FnvTable::new();
    assert!(right.merge_key(b, 0, 1, &big));
    assert!(!left.merge_key(b, 0, 1, &big));
    assert_eq!(merge(left, right, b).err(), Some(MergeOverflow));
}

#[test]
fn rows_and_order() {
    let b = b"zz;1.0\naa;-2.0\n";
    let t = mapper(0, 15, b).unwrap();
    let order = sorted_order(&t, b);
    assert_eq!(order, vec![1, 0]);
    assert_eq!(render_row(b"k", &entry_of(&[-10, 30])), b"k;-1.0;1.0;3.0".to_vec());
}

fn text_rows(rows: Vec<Vec<u8>>) -> Vec<String> {
    rows.into_iter().map(|r| String::from_utf8(r).unwrap()).collect()
}

#[test]
fn summarize_example_scenario() {
    let input = b"A;10.0\nB;-5.5\nA;20.0\n";
    for w in 1..=5 {
        let rows = text_rows(summarize(input, w).unwrap());
        assert_eq!(rows, vec!["A;10.0;15.0;20.0", "B;-5.5;-5.5;-5.5"]);
    }
}

#[test]
fn summarize_reports_malformed() {
    assert_eq!(summarize(b"A;1.0\nbroken\nC;2.0\n", 2).err(), Some(ParseError { line: 6 }));
    assert_eq!(aggregate_buffer(b"A;1.0\nB;\n", 1).err(), Some(ParseError { line: 6 }));
}

#[test]
fn aggregate_buffer_counts_every_record() {
    let input = b"a;1.0\nb;2.0\na;3.0\nc;4.0\nb;5.0\na;6.0";
    for w in 1..=7 {
        let t = aggregate_buffer(input, w).unwrap();
        assert_eq!(t.len(), 3);
        let ia = t.find(input, 0, 1).unwrap();
        let e = t.vals[ia];
        assert_eq!((e.min, e.max, e.sum, e.cnt), (10, 60, 100, 3));
    }
}

#[test]
fn reduce_tables_folds_in_order() {
    let input = b"x;1.0\nx;-2.0\ny;3.0\n";
    let t1 = mapper(0, 5, input).unwrap();
    let t2 = mapper(6, 19, input).unwrap();
    let t = reduce_tables(vec![t1, t2], input).unwrap();
    assert_eq!(text_rows(report(&t, input)), vec!["x;-2.0;-0.5;1.0", "y;3.0;3.0;3.0"]);
    assert_eq!(reduce_tables(Vec::new(), input).unwrap().len(), 0);
}

#[test]
fn interleaved_matches_sequential() {
    let input = b"Hamburg;12.0\nBulawayo;8.9\nPalembang;38.8\nSt. John's;15.2\nCracow;12.6\nBridgetown;26.9\nIstanbul;6.2\nRoseau;34.4\nConakry;31.2\nIstanbul;23.0\nHamburg;-3.4\n";
    let n = input.len();
    for (s, e) in [(0, n), (0, n - 1), (13, n - 1), (0, 0), (0, 13), (0, 26), (13, 40), (0, 69), (41, 95)] {
        let seq_rows = text_rows(report(&mapper(s, e, input).unwrap(), input));
        let int_rows = text_rows(report(&mapper_interleaved(s, e, input).unwrap(), input));
        assert_eq!(seq_rows, int_rows, "range {}..{}", s, e);
    }
    let rows = text_rows(report(&mapper_interleaved(0, n, input).unwrap(), input));
    assert_eq!(rows[0], "Bridgetown;26.9;26.9;26.9");
    assert_eq!(rows[2], "Conakry;31.2;31.2;31.2");
    assert_eq!(rows[4], "Hamburg;-3.4;4.3;12.0");
    assert_eq!(rows[5], "Istanbul;6.2;14.6;23.0");
    assert_eq!(rows.len(), 9);
}

#[test]
fn interleaved_uneven_parts() {
    let input = b"a;1.0\nbbbbbbbbbbbbbbbbbbbbbbbbbbbbbb;2.0\nc;3.0\nd;4.0\ne;5.0\nf;6.0\ng;7.0";
    let n = input.len();
    let seq_rows = text_rows(report(&mapper(0, n, input).unwrap(), input));
    let int_rows = text_rows(report(&mapper_interleaved(0, n, input).unwrap(), input));
    assert_eq!(seq_rows, int_rows);
    assert_eq!(int_rows.len(), 7);
}

#[test]
fn interleaved_reports_malformed() {
    assert_eq!(mapper_interleaved(0, 19, b"a;1.0\nb;2.0\nno-sep\n").err(), Some(ParseError { line: 12 }));
    assert!(mapper_interleaved(0, 4, b"x;\n\n").is_err());
}

#[test]
fn canonical_text_round_trip() {
    for text in ["-3.2", "0.0", "99.9", "-0.1", "1000.5", "-12345678.9", "7.0"] {
        let v = utf8_funky_int(text.as_bytes()).unwrap();
        assert_eq!(String::from_utf8(render_fixed(v as i128)).unwrap(), text);
    }
}

#[test]
fn updates_equal_merged_many_parts() {
    let values = [31, -4, 17, 0, 250, -99, 12, 12];
    let whole = entry_of(&values);
    for a in 0..=values.len() {
        for b in a..=values.len() {
            let mut acc = entry_of(&values[..a]);
            acc.merge(&entry_of(&values[a..b]));
            acc.merge(&entry_of(&values[b..]));
            assert!(same(&whole, &acc));
        }
    }
}

#[test]
fn scanned_halves_merge_to_whole() {
    let input = b"k;1.0\nj;-2.5\nk;3.0\nj;0.5\nm;9.9\n";
    let n = input.len();
    let whole = text_rows(report(&mapper(0, n, input).unwrap(), input));
    for m in 0..n {
        if input[m] == NEWLINE {
            let left = mapper(0, m, input).unwrap();
            let right = mapper(m + 1, n, input).unwrap();
            let merged = merge(left, right, input).unwrap();
            assert_eq!(text_rows(report(&merged, input)), whole);
        }
    }
}
