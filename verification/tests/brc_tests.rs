use brc::measurement::Measurement;
use brc::parse::parse_ascii_to_int;
use brc::pipeline::brc;
use brc::planner::find_chunk_boundaries;
use brc::render::BrcError;
use brc::scan::{find_next_newline, scan_ascii_chunk};

#[test]
fn parse_positive() {
    assert_eq!(parse_ascii_to_int(b"0.0"), 0);
    assert_eq!(parse_ascii_to_int(b"5.7"), 57);
    assert_eq!(parse_ascii_to_int(b"22.1"), 221);
    assert_eq!(parse_ascii_to_int(b"1234.5"), 12345);
}

#[test]
fn parse_negative() {
    assert_eq!(parse_ascii_to_int(b"-12.3"), -123);
    assert_eq!(parse_ascii_to_int(b"-0.1"), -1);
    assert_eq!(parse_ascii_to_int(b"-99.9"), -999);
}

#[test]
fn next_newline_positions() {
    let buffer = b"ab\ncd\nef\n";
    assert_eq!(find_next_newline(0, buffer), 3);
    assert_eq!(find_next_newline(1, buffer), 3);
    assert_eq!(find_next_newline(3, buffer), 6);
    assert_eq!(find_next_newline(6, buffer), 9);
}

#[test]
fn scenario_two_stations() {
    let out = brc(b"Oslo;-1.2\nOslo;3.4\nParis;10.0\n", 1).unwrap();
    assert_eq!(out, "{Oslo=-1.2/1.1/3.4, Paris=10.0/10.0/10.0}\n");
}

#[test]
fn scenario_unterminated_final_line() {
    let out = brc(b"Tokyo;0.0", 1).unwrap();
    assert_eq!(out, "{Tokyo=0.0/0.0/0.0}\n");
}

#[test]
fn scenario_worker_counts_agree() {
    let mut input = String::new();
    for i in 0..10_000 {
        let tenths: i32 = (i % 1999) - 999;
        let a = tenths.abs();
        input.push_str(&format!(
            "station{:03};{}{}.{}\n",
            i % 97,
            if tenths < 0 { "-" } else { "" },
            a / 10,
            a % 10
        ));
    }
    let one = brc(input.as_bytes(), 1).unwrap();
    let four = brc(input.as_bytes(), 4).unwrap();
    assert_eq!(one, four);
    let seven = brc(input.as_bytes(), 7).unwrap();
    assert_eq!(one, seven);
}

#[test]
fn scenario_key_in_every_chunk() {
    let mut input = String::new();
    for i in 0..1_000 {
        input.push_str(&format!("Everywhere;0.{}\n", i % 10));
        input.push_str(&format!("other{:02};1.0\n", i % 41));
    }
    let buffer = input.as_bytes();
    let bounds = find_chunk_boundaries(buffer, 4);
    let mut sum_of_counts: i64 = 0;
    let mut chunks_holding_key = 0;
    let mut global: Option<brc::table::AggTable> = None;
    for (start, end) in bounds.iter() {
        let local = scan_ascii_chunk(*start, *end, buffer);
        for (key, m) in local.entries() {
            if key == b"Everywhere" {
                sum_of_counts += m.count;
                chunks_holding_key += 1;
            }
        }
        match global.as_mut() {
            None => global = Some(local),
            Some(g) => brc::reduce::merge(g, &local),
        }
    }
    assert_eq!(chunks_holding_key, 4);
    let global = global.unwrap();
    let mut merged_count = 0;
    for (key, m) in global.entries() {
        if key == b"Everywhere" {
            merged_count = m.count;
        }
    }
    assert_eq!(merged_count, 1_000);
    assert_eq!(sum_of_counts, merged_count);
}

#[test]
fn chunk_boundaries_tile_the_input() {
    let input = b"aa;1.0\nbb;2.0\ncc;3.0\ndd;4.0\nee;5.0\nff;6.0\n";
    for workers in 1..=6 {
        let bounds = find_chunk_boundaries(input, workers);
        assert_eq!(bounds.len(), workers);
        assert_eq!(bounds[0].0, 0);
        assert_eq!(bounds[workers - 1].1, input.len());
        for i in 0..workers {
            let (s, e) = bounds[i];
            assert!(s <= e && e <= input.len());
            for &b in [s, e].iter() {
                assert!(b == 0 || b == input.len() || input[b - 1] == b'\n');
            }
            if i + 1 < workers {
                assert_eq!(bounds[i].1, bounds[i + 1].0);
            }
        }
    }
}

#[test]
fn merge_is_commutative_on_tables() {
    let input = b"x;1.0\ny;-2.0\nx;3.0\nz;0.5\ny;2.5\n";
    let boundary = find_next_newline(10, input);
    let a1 = scan_ascii_chunk(0, boundary, input);
    let b1 = scan_ascii_chunk(boundary, input.len(), input);
    let a2 = scan_ascii_chunk(0, boundary, input);
    let mut b2 = scan_ascii_chunk(boundary, input.len(), input);
    let mut left = a1;
    brc::reduce::merge(&mut left, &b1);
    brc::reduce::merge(&mut b2, &a2);
    let mut l = brc::order::sort_entries(left.entries());
    let mut r = brc::order::sort_entries(b2.entries());
    assert_eq!(l.len(), r.len());
    loop {
        match (l.pop(), r.pop()) {
            (None, None) => break,
            (Some(x), Some(y)) => {
                assert_eq!(x.0, y.0);
                assert_eq!(x.1.minimum, y.1.minimum);
                assert_eq!(x.1.maximum, y.1.maximum);
                assert_eq!(x.1.sum, y.1.sum);
                assert_eq!(x.1.count, y.1.count);
            }
            _ => unreachable!(),
        }
    }
}

#[test]
fn merge_with_identity_is_noop() {
    let mut a = Measurement::new(57);
    a.update(-12);
    let identity = Measurement::default();
    assert_eq!(identity.minimum, i64::MAX);
    assert_eq!(identity.maximum, i64::MIN);
    assert_eq!(identity.sum, 0);
    assert_eq!(identity.count, 0);
    let before = a;
    a.merge(&identity);
    assert_eq!(a.minimum, before.minimum);
    assert_eq!(a.maximum, before.maximum);
    assert_eq!(a.sum, before.sum);
    assert_eq!(a.count, before.count);
    let mut b = Measurement::default();
    b.merge(&before);
    assert_eq!(b.minimum, before.minimum);
    assert_eq!(b.maximum, before.maximum);
    assert_eq!(b.sum, before.sum);
    assert_eq!(b.count, before.count);
}

#[test]
fn average_rounds_ties_away_from_zero() {
    let out = brc(b"B;0.0\nB;0.1\n", 1).unwrap();
    assert_eq!(out, "{B=0.0/0.1/0.1}\n");
    let out = brc(b"A;-0.1\nA;0.0\n", 1).unwrap();
    assert_eq!(out, "{A=-0.1/-0.1/0.0}\n");
}

#[test]
fn round_trip_of_literals_in_report() {
    let out = brc(b"X;-12.3\n", 1).unwrap();
    assert_eq!(out, "{X=-12.3/-12.3/-12.3}\n");
    let out = brc(b"X;0.0\n", 1).unwrap();
    assert_eq!(out, "{X=0.0/0.0/0.0}\n");
    let out = brc(b"X;1234.5\n", 1).unwrap();
    assert_eq!(out, "{X=1234.5/1234.5/1234.5}\n");
}

#[test]
fn multibyte_station_name_renders() {
    let input = "Zürich;1.5\nZürich;2.5\n";
    let out = brc(input.as_bytes(), 2).unwrap();
    assert_eq!(out, "{Zürich=1.5/2.0/2.5}\n");
}

#[test]
fn invalid_utf8_station_name_fails_encoding() {
    let input: Vec<u8> = vec![0xFF, b';', b'1', b'.', b'0', b'\n'];
    assert_eq!(brc(&input, 1), Err(BrcError::Encoding));
}

#[test]
fn sort_orders_keys_by_raw_bytes() {
    let entries = vec![
        (b"bb".to_vec(), Measurement::new(10)),
        (b"a".to_vec(), Measurement::new(20)),
        (b"ab".to_vec(), Measurement::new(30)),
        (b"b".to_vec(), Measurement::new(40)),
    ];
    let sorted = brc::order::sort_entries(entries);
    let keys: Vec<&[u8]> = sorted.iter().map(|e| e.0.as_slice()).collect();
    assert_eq!(keys, vec![b"a".as_slice(), b"ab", b"b", b"bb"]);
}

#[test]
fn station_order_is_ascending_in_report() {
    let out = brc(b"b;1.0\nA;2.0\na;3.0\nB;4.0\n", 1).unwrap();
    assert_eq!(out, "{A=2.0/2.0/2.0, B=4.0/4.0/4.0, a=3.0/3.0/3.0, b=1.0/1.0/1.0}\n");
}

#[test]
fn update_tracks_min_max_sum_count() {
    let mut m = Measurement::new(100);
    m.update(-50);
    m.update(75);
    assert_eq!(m.minimum, -50);
    assert_eq!(m.maximum, 100);
    assert_eq!(m.sum, 125);
    assert_eq!(m.count, 3);
}

#[test]
fn key_comparison_is_byte_lexicographic() {
    assert!(brc::order::key_lt(b"a", b"ab"));
    assert!(!brc::order::key_lt(b"ab", b"a"));
    assert!(!brc::order::key_lt(b"a", b"a"));
    assert!(brc::order::key_lt(b"Abc", b"abc"));
    assert!(brc::order::key_lt(b"ab", b"b"));
    assert!(brc::order::key_lt(b"", b"a"));
}
