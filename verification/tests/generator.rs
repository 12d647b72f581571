use nado::config::{InputSpec, Pbt, Problem};
use nado::constraints::{parse_bounds, parse_problem_inputs, BoundsError};
use nado::generator::{edge_values, format_case, generate_inputs, midpoint, partition_points, seed_to_bytes};

fn integer_spec(range: Option<&str>, min: Option<i64>, max: Option<i64>) -> InputSpec {
    InputSpec {
        kind: b"integer".to_vec(),
        range: range.map(|r| r.as_bytes().to_vec()),
        min,
        max,
    }
}

fn two_field_problem(lo: i64, hi: i64) -> Problem {
    Problem {
        inputs: vec![
            (b"a".to_vec(), integer_spec(None, Some(lo), Some(hi))),
            (b"b".to_vec(), integer_spec(None, Some(lo), Some(hi))),
        ],
    }
}

#[test]
fn generator_parse_range_tokens() {
    let spec = integer_spec(Some(">= 1, <= 9"), None, None);
    let (min, max) = parse_bounds(&spec).expect("must parse");
    assert_eq!(min, 1);
    assert_eq!(max, 9);
}

#[test]
fn generator_parse_range_with_explicit_min_max() {
    let spec = integer_spec(Some("> 0"), Some(5), Some(10));
    let (min, max) = parse_bounds(&spec).expect("must parse");
    assert_eq!(min, 5);
    assert_eq!(max, 10);
}

#[test]
fn seeded_generation_includes_edges() {
    let problem = two_field_problem(1, 9);
    let specs = parse_problem_inputs(&problem).expect("parse");

    let samples = generate_inputs(&specs, 30, 42, &Pbt::default()).expect("generate");
    let lines: Vec<String> = samples
        .iter()
        .map(|l| String::from_utf8(l.clone()).unwrap())
        .collect();
    assert!(lines.iter().any(|line| line.trim() == "1 1"));
    assert!(lines.iter().any(|line| line.trim() == "9 9"));
}

#[test]
fn main_parse_range_tokens() {
    let spec = integer_spec(Some(">= 1, <= 9"), None, None);
    let (min, max) = parse_bounds(&spec).expect("must parse");
    assert_eq!(min, 1);
    assert_eq!(max, 9);
}

#[test]
fn main_parse_range_with_explicit_min_max() {
    let spec = integer_spec(Some("> 0"), Some(5), Some(10));
    let (min, max) = parse_bounds(&spec).expect("must parse");
    assert_eq!(min, 5);
    assert_eq!(max, 10);
}

#[test]
fn exact_range_token_pins_both_bounds() {
    let spec = integer_spec(Some("==7"), None, None);
    let (min, max) = parse_bounds(&spec).expect("must parse");
    assert_eq!(min, 7);
    assert_eq!(max, 7);
}

#[test]
fn defaults_apply_without_bounds() {
    let spec = integer_spec(None, None, None);
    let (min, max) = parse_bounds(&spec).expect("must parse");
    assert_eq!(min, -100);
    assert_eq!(max, 100);
}

#[test]
fn ampersand_separates_tokens() {
    let spec = integer_spec(Some("> -4 & < 4"), None, None);
    let (min, max) = parse_bounds(&spec).expect("must parse");
    assert_eq!(min, -3);
    assert_eq!(max, 3);
}

#[test]
fn contradictory_range_fails() {
    let spec = integer_spec(Some(">= 5, <= 4"), None, None);
    match parse_bounds(&spec) {
        Err(BoundsError::EmptyInterval { lo, hi }) => {
            assert_eq!(lo, 5);
            assert_eq!(hi, 4);
        }
        other => panic!("expected an empty interval, got {:?}", other.is_ok()),
    }
}

#[test]
fn malformed_token_fails() {
    let spec = integer_spec(Some(">= five"), None, None);
    assert!(matches!(
        parse_bounds(&spec),
        Err(BoundsError::UnsupportedToken)
    ));
}

#[test]
fn empty_inputs_are_rejected() {
    let problem = Problem { inputs: vec![] };
    assert!(parse_problem_inputs(&problem).is_err());
}

#[test]
fn non_integer_kind_is_rejected() {
    let problem = Problem {
        inputs: vec![(
            b"a".to_vec(),
            InputSpec {
                kind: b"string".to_vec(),
                range: None,
                min: None,
                max: None,
            },
        )],
    };
    assert!(parse_problem_inputs(&problem).is_err());
}

#[test]
fn corpus_length_equals_cases() {
    let problem = two_field_problem(1, 9);
    let specs = parse_problem_inputs(&problem).expect("parse");
    for cases in [0usize, 1, 7, 100] {
        let samples = generate_inputs(&specs, cases, 7, &Pbt::default()).expect("generate");
        assert_eq!(samples.len(), cases);
    }
}

#[test]
fn corpus_values_lie_in_bounds() {
    let problem = two_field_problem(-3, 12);
    let specs = parse_problem_inputs(&problem).expect("parse");
    let samples = generate_inputs(&specs, 200, 9, &Pbt::default()).expect("generate");
    for line in &samples {
        let text = String::from_utf8(line.clone()).unwrap();
        let values: Vec<i64> = text
            .split_whitespace()
            .map(|w| w.parse().unwrap())
            .collect();
        assert_eq!(values.len(), 2);
        for v in values {
            assert!((-3..=12).contains(&v));
        }
    }
}

#[test]
fn determinism_same_config() {
    let problem = two_field_problem(1, 1000);
    let specs = parse_problem_inputs(&problem).expect("parse");
    let a = generate_inputs(&specs, 250, 42, &Pbt::default()).expect("generate");
    let b = generate_inputs(&specs, 250, 42, &Pbt::default()).expect("generate");
    assert_eq!(a, b);
}

#[test]
fn disabled_mixing_is_uniform_random_only() {
    let problem = two_field_problem(5, 5);
    let specs = parse_problem_inputs(&problem).expect("parse");
    let pbt = Pbt {
        enabled: false,
        edge_case_ratio_milli: 200,
        partition_ratio_milli: 200,
        max_cartesian_cases: 128,
    };
    let samples = generate_inputs(&specs, 10, 1, &pbt).expect("generate");
    assert_eq!(samples.len(), 10);
    for line in &samples {
        assert_eq!(line.as_slice(), b"5 5\n");
    }
}

#[test]
fn invalid_ratios_are_fatal() {
    let problem = two_field_problem(1, 9);
    let specs = parse_problem_inputs(&problem).expect("parse");
    let pbt = Pbt {
        enabled: true,
        edge_case_ratio_milli: 800,
        partition_ratio_milli: 800,
        max_cartesian_cases: 128,
    };
    assert!(generate_inputs(&specs, 10, 1, &pbt).is_err());
    let pbt2 = Pbt {
        enabled: true,
        edge_case_ratio_milli: 200,
        partition_ratio_milli: 200,
        max_cartesian_cases: 0,
    };
    assert!(generate_inputs(&specs, 10, 1, &pbt2).is_err());
}

#[test]
fn format_case_renders_signed_decimals() {
    let line = format_case(&vec![-3, 0, 42]);
    assert_eq!(line.as_slice(), b"-3 0 42\n");
    let empty = format_case(&vec![]);
    assert_eq!(empty.as_slice(), b"\n");
}

#[test]
fn midpoint_rounds_toward_low_end() {
    assert_eq!(midpoint(-100, 100), 0);
    assert_eq!(midpoint(1, 9), 5);
    assert_eq!(midpoint(i64::MIN, i64::MAX), -1);
}

#[test]
fn edge_values_are_sorted_and_in_range() {
    let spec = nado::constraints::ParsedInput { min: 1, max: 9 };
    assert_eq!(edge_values(&spec), vec![1, 2, 8, 9]);
    let wide = nado::constraints::ParsedInput { min: -5, max: 5 };
    assert_eq!(edge_values(&wide), vec![-5, -4, -1, 0, 1, 4, 5]);
}

#[test]
fn partition_points_cover_the_quartile_grid() {
    let spec = nado::constraints::ParsedInput { min: 0, max: 8 };
    assert_eq!(partition_points(&spec), vec![0, 2, 4, 6, 8]);
    let neg = nado::constraints::ParsedInput { min: -4, max: 4 };
    assert_eq!(partition_points(&neg), vec![-4, -2, 0, 2, 4]);
}

#[test]
fn seed_bytes_are_four_little_endian_words() {
    let bytes = seed_to_bytes(0);
    assert_eq!(bytes.len(), 32);
    let mut expected = vec![0u8; 32];
    expected[8] = 1;
    expected[16] = 2;
    expected[24] = 3;
    assert_eq!(bytes, expected);
}

#[test]
fn tighter_range_never_widens() {
    let loose = integer_spec(Some(">= 1"), None, None);
    let (lo1, hi1) = parse_bounds(&loose).expect("must parse");
    let tight = integer_spec(Some(">= 1, <= 9"), None, None);
    let (lo2, hi2) = parse_bounds(&tight).expect("must parse");
    assert!(lo2 >= lo1);
    assert!(hi2 <= hi1);
}

#[test]
fn each_ratio_is_checked_alone() {
    let problem = two_field_problem(1, 9);
    let specs = parse_problem_inputs(&problem).expect("parse");
    let bad_edge = Pbt {
        enabled: true,
        edge_case_ratio_milli: 1500,
        partition_ratio_milli: 0,
        max_cartesian_cases: 128,
    };
    assert!(generate_inputs(&specs, 10, 1, &bad_edge).is_err());
    let bad_partition = Pbt {
        enabled: true,
        edge_case_ratio_milli: 0,
        partition_ratio_milli: 1500,
        max_cartesian_cases: 128,
    };
    assert!(generate_inputs(&specs, 10, 1, &bad_partition).is_err());
}

#[test]
fn bad_range_is_reported_with_its_field() {
    let problem = Problem {
        inputs: vec![(b"n".to_vec(), integer_spec(Some("~= 3"), None, None))],
    };
    assert!(matches!(
        parse_problem_inputs(&problem),
        Err(nado::constraints::InputsError::Bounds { index: 0, .. })
    ));
}

#[test]
fn small_cartesian_product_is_enumerated() {
    let problem = two_field_problem(0, 1);
    let specs = parse_problem_inputs(&problem).expect("parse");
    let samples = generate_inputs(&specs, 30, 3, &Pbt::default()).expect("generate");
    for want in ["0 0", "0 1", "1 0", "1 1"] {
        assert!(
            samples
                .iter()
                .any(|l| String::from_utf8(l.clone()).unwrap().trim() == want),
            "missing {want}"
        );
    }
}
