use netcoords::float_bits::{float_is_nan, float_less, float_order_key};
use netcoords::king::{
    king_landmarks, king_node_count, load_king_measurements, load_king_nodes, parse_i32_token,
    parse_king_matrix, parse_king_row, sample_landmarks, select_landmarks, split_bytes,
    LANDMARK_SAMPLES,
};
use netcoords::measure::{choose_landmarks, landmark_metrics, RANDOM_LANDMARKS};
use netcoords::nc::{clip_nc, NCNodeData, CLIP_CEIL_BITS, CLIP_FLOOR_BITS, INITIAL_LEARN_RATE_BITS};
use netcoords::network::Node;
use netcoords::stats::{error_percentiles, stable_float_order};
use std::collections::HashMap;

fn b(x: f32) -> u32 {
    x.to_bits()
}

#[test]
fn float_less_matches_f32_lt() {
    let values = [
        0.0f32, -0.0, 1.0, -1.0, 0.0001, 1000.0, 1e-40, -1e-40, f32::INFINITY, f32::NEG_INFINITY,
        f32::NAN, f32::MAX, f32::MIN, 2.5, -2.5,
    ];
    for &x in values.iter() {
        for &y in values.iter() {
            assert_eq!(float_less(b(x), b(y)), x < y, "{} < {}", x, y);
        }
        assert_eq!(float_is_nan(b(x)), x.is_nan());
    }
}

#[test]
fn order_key_of_signed_zeros_is_zero() {
    assert_eq!(float_order_key(b(0.0)), 0);
    assert_eq!(float_order_key(b(-0.0)), 0);
    assert_eq!(float_order_key(b(1.0)), 0x3f80_0000);
    assert_eq!(float_order_key(b(-1.0)), -0x3f80_0000);
}

#[test]
fn clip_constants_are_the_bounds() {
    assert_eq!(f32::from_bits(CLIP_FLOOR_BITS), 0.0001f32);
    assert_eq!(f32::from_bits(CLIP_CEIL_BITS), 1000.0f32);
    assert_eq!(f32::from_bits(INITIAL_LEARN_RATE_BITS), 0.05f32);
}

#[test]
fn clip_nc_raises_negatives_and_caps_large_values() {
    let input = [-1.0f32, 0.0, 5.0, 1500.0, f32::NAN, f32::INFINITY, f32::NEG_INFINITY, -0.0, 1000.0, 0.0001];
    let mut v = [0u32; 10];
    for i in 0..10 {
        v[i] = b(input[i]);
    }
    clip_nc(&mut v);
    let out: Vec<f32> = v.iter().map(|x| f32::from_bits(*x)).collect();
    assert_eq!(out[0], 0.0001);
    assert_eq!(out[1].to_bits(), b(0.0));
    assert_eq!(out[2], 5.0);
    assert_eq!(out[3], 1000.0);
    assert!(out[4].is_nan());
    assert_eq!(out[5], 1000.0);
    assert_eq!(out[6], 0.0001);
    assert_eq!(out[7].to_bits(), b(-0.0));
    assert_eq!(out[8], 1000.0);
    assert_eq!(out[9], 0.0001);
}

#[test]
fn clip_nc_twice_is_clip_nc_once() {
    let input = [-3.0f32, 2000.0, 7.0, 0.5, -0.5, 999.0, 1001.0, 0.0, 3.0, 1e9];
    let mut v = [0u32; 10];
    for i in 0..10 {
        v[i] = b(input[i]);
    }
    clip_nc(&mut v);
    let once = v;
    clip_nc(&mut v);
    assert_eq!(v, once);
    for x in v.iter() {
        let f = f32::from_bits(*x);
        assert!(f >= 0.0 && f <= 1000.0);
    }
}

#[test]
fn stable_float_order_sorts_and_keeps_ties_in_place() {
    let values: Vec<u32> = [3.0f32, -1.0, 2.0, -0.0, 0.0, 2.0].iter().map(|x| b(*x)).collect();
    let order = stable_float_order(&values);
    assert_eq!(order, vec![1, 3, 4, 2, 5, 0]);
    let empty: Vec<u32> = Vec::new();
    assert_eq!(stable_float_order(&empty), Vec::<usize>::new());
}

#[test]
fn stable_float_order_is_a_permutation() {
    let values: Vec<u32> = (0..50).map(|i| b(((i * 37) % 50) as f32 - 20.0)).collect();
    let order = stable_float_order(&values);
    let mut seen = order.clone();
    seen.sort();
    assert_eq!(seen, (0..50).collect::<Vec<usize>>());
    for w in order.windows(2) {
        assert!(f32::from_bits(values[w[0]]) <= f32::from_bits(values[w[1]]));
    }
}

#[test]
fn error_percentiles_of_one_to_ten() {
    let values: Vec<u32> = [10.0f32, 9.0, 8.0, 7.0, 6.0, 5.0, 4.0, 3.0, 2.0, 1.0].iter().map(|x| b(*x)).collect();
    let p = error_percentiles(&values);
    let got: Vec<f32> = p.iter().map(|x| f32::from_bits(*x)).collect();
    assert_eq!(got, vec![1.0, 2.0, 3.0, 4.0, 5.0, 6.0, 7.0, 8.0, 9.0]);
}

#[test]
fn error_percentiles_of_one_value() {
    let values = vec![b(0.25)];
    let p = error_percentiles(&values);
    assert_eq!(p, [b(0.25); 9]);
}

#[test]
fn error_percentiles_of_a_lone_nan() {
    let values = vec![b(f32::NAN)];
    let p = error_percentiles(&values);
    assert!(p.iter().all(|x| f32::from_bits(*x).is_nan()));
}

#[test]
fn error_percentiles_of_a_hundred_and_one_values() {
    let values: Vec<u32> = (0..101).rev().map(|i| b(i as f32)).collect();
    let p = error_percentiles(&values);
    let got: Vec<f32> = p.iter().map(|x| f32::from_bits(*x)).collect();
    assert_eq!(got, vec![10.0, 20.0, 30.0, 40.0, 50.0, 60.0, 70.0, 80.0, 90.0]);
    for w in p.windows(2) {
        assert!(f32::from_bits(w[0]) <= f32::from_bits(w[1]));
    }
}

#[test]
fn split_bytes_splits_as_str_split() {
    let s = "a\n\nbc\n";
    let pieces = split_bytes(s.as_bytes(), b'\n');
    let expected: Vec<Vec<u8>> = s.split('\n').map(|p| p.as_bytes().to_vec()).collect();
    assert_eq!(pieces, expected);
    assert_eq!(split_bytes(b"", b'\n'), vec![Vec::<u8>::new()]);
}

#[test]
fn parse_i32_token_matches_str_parse() {
    let tokens = [
        "42", "-7", "+3", "-", "+", "", "12a", "2147483647", "2147483648", "-2147483648",
        "-2147483649", "00012", "99999999999999", "-0", "1-2", "+-1", " 1", "1\r",
    ];
    for t in tokens.iter() {
        assert_eq!(parse_i32_token(t.as_bytes()), t.parse::<i32>().ok(), "token {:?}", t);
    }
}

#[test]
fn parse_king_row_skips_empty_tokens() {
    assert_eq!(parse_king_row(b"1 2  -3 "), Some(vec![1, 2, -3]));
    assert_eq!(parse_king_row(b""), Some(vec![]));
    assert_eq!(parse_king_row(b"   "), Some(vec![]));
    assert_eq!(parse_king_row(b"1 x 2"), None);
}

#[test]
fn parse_king_matrix_one_row_per_line() {
    assert_eq!(
        parse_king_matrix(b"1 2\n3 4\n"),
        Some(vec![vec![1, 2], vec![3, 4], vec![]])
    );
    assert_eq!(parse_king_matrix(b"1\r\n2"), None);
    assert_eq!(parse_king_matrix(b""), Some(vec![vec![]]));
}

#[test]
fn king_node_count_counts_lines() {
    assert_eq!(king_node_count(b"a\nb\n"), 3);
    assert_eq!(king_node_count(b""), 1);
    assert_eq!(king_node_count(b"0 1\n1 0"), 2);
}

#[test]
fn load_king_nodes_one_fresh_node_per_line() {
    let nodes = load_king_nodes(b"0 10\n10 0\n");
    assert_eq!(nodes.len(), 3);
    for n in nodes.iter() {
        assert_eq!(n.node_index, None);
        assert_eq!(n.position, [0, 0]);
        assert_eq!(n.nc.learn_rate, INITIAL_LEARN_RATE_BITS);
        for x in n.nc.outgoing_vec.iter().chain(n.nc.incoming_vec.iter()) {
            let f = f32::from_bits(*x);
            assert!(f >= 0.0 && f < 1.0);
        }
    }
}

#[test]
fn nc_node_data_new_draws_unit_components() {
    let d = NCNodeData::new();
    assert_eq!(f32::from_bits(d.learn_rate), 0.05);
    for x in d.outgoing_vec.iter().chain(d.incoming_vec.iter()) {
        let f = f32::from_bits(*x);
        assert!(f >= 0.0 && f < 1.0 && f.to_bits() == *x);
    }
    let n = Node::at_origin();
    assert_eq!(n.node_index, None);
    assert_eq!(n.position, [0, 0]);
}

#[test]
fn select_landmarks_keeps_nonnegative_columns_in_draw_order() {
    let row = vec![5, -1, 7];
    let picks = vec![0, 1, 2, 2];
    assert_eq!(select_landmarks(&row, &picks), vec![(0, 5), (2, 7), (2, 7)]);
    assert_eq!(select_landmarks(&row, &vec![]), vec![]);
    assert_eq!(select_landmarks(&vec![0], &vec![0]), vec![(0, 0)]);
}

#[test]
fn sample_landmarks_draws_valid_columns() {
    let row = vec![3, -4, 0, 8, -1];
    for _ in 0..20 {
        let s = sample_landmarks(&row);
        assert!(s.len() <= LANDMARK_SAMPLES);
        for &(n, m) in s.iter() {
            assert!(n < row.len());
            assert_eq!(row[n], m);
            assert!(m >= 0);
        }
    }
    assert_eq!(sample_landmarks(&vec![-1, -2]), vec![]);
    assert_eq!(sample_landmarks(&vec![9]), vec![(0, 9); LANDMARK_SAMPLES]);
}

#[test]
fn king_landmarks_keys_the_rows_with_measurements() {
    let rows = vec![vec![1, 2], vec![], vec![3]];
    let m = king_landmarks(&rows);
    assert_eq!(m.len(), 2);
    assert_eq!(m[&0].len(), LANDMARK_SAMPLES);
    for &(n, v) in m[&0].iter() {
        assert_eq!(rows[0][n], v);
    }
    assert_eq!(m[&1], vec![(0, 3); LANDMARK_SAMPLES]);
}

#[test]
fn load_king_measurements_parses_then_draws() {
    let m = load_king_measurements(b"0 -1\n\n5 0\n").unwrap();
    let keys: std::collections::BTreeSet<usize> = m.keys().cloned().collect();
    assert_eq!(keys, [0usize, 1].iter().cloned().collect());
    for &(n, v) in m[&0].iter() {
        assert_eq!((n, v), (0, 0));
    }
    for &(n, v) in m[&1].iter() {
        assert!((n, v) == (0, 5) || (n, v) == (1, 0));
    }
    assert!(load_king_measurements(b"1 2\n3 four\n").is_none());
    assert_eq!(load_king_measurements(b"").unwrap().len(), 0);
}

#[test]
fn choose_landmarks_draws_then_appends_neighbors() {
    let l = choose_landmarks(5, &vec![7, 8]);
    assert_eq!(l.len(), RANDOM_LANDMARKS + 2);
    assert!(l[..RANDOM_LANDMARKS].iter().all(|&x| x < 5));
    assert_eq!(&l[RANDOM_LANDMARKS..], &[7, 8]);
    assert_eq!(choose_landmarks(1, &vec![]), vec![0; RANDOM_LANDMARKS]);
}

#[test]
fn landmark_metrics_looks_up_each_landmark() {
    let mut d: HashMap<usize, u32> = HashMap::new();
    d.insert(1, b(10.0));
    d.insert(2, b(20.5));
    assert_eq!(
        landmark_metrics(&vec![2, 1, 2], &d),
        Some(vec![(2, b(20.5)), (1, b(10.0)), (2, b(20.5))])
    );
    assert_eq!(landmark_metrics(&vec![1, 3], &d), None);
    assert_eq!(landmark_metrics(&vec![], &d), Some(vec![]));
}
