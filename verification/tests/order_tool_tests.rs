use order_tool::distance::total_distance;
use order_tool::lines::split_lines;
use order_tool::order::order_bytes;
use order_tool::pair::Pair;
use order_tool::parse::{parse_pair_i32, parse_pair_u32, parse_pairs_u32};
use order_tool::sort::{sort_i32, sort_pairs};

fn v(s: &str) -> Vec<u8> {
    s.as_bytes().to_vec()
}

#[test]
fn parse_valid_line_yields_pair_in_order() {
    assert_eq!(parse_pair_u32(&v("12 34")), Some(Pair { a: 12, b: 34 }));
    assert_eq!(parse_pair_u32(&v("0 0")), Some(Pair { a: 0, b: 0 }));
    assert_eq!(parse_pair_u32(&v("  7\t 9  ")), Some(Pair { a: 7, b: 9 }));
    assert_eq!(parse_pair_i32(&v("12 34")), Some((12, 34)));
}

#[test]
fn parse_wrong_token_count_yields_no_pair() {
    assert_eq!(parse_pair_u32(&v("")), None);
    assert_eq!(parse_pair_u32(&v("   ")), None);
    assert_eq!(parse_pair_u32(&v("12")), None);
    assert_eq!(parse_pair_u32(&v("1 2 3")), None);
    assert_eq!(parse_pair_i32(&v("1 2 3")), None);
}

#[test]
fn parse_non_numeric_yields_no_pair() {
    assert_eq!(parse_pair_u32(&v("abc def")), None);
    assert_eq!(parse_pair_u32(&v("1 x")), None);
    assert_eq!(parse_pair_u32(&v("x 1")), None);
    assert_eq!(parse_pair_i32(&v("abc def")), None);
    assert_eq!(parse_pair_i32(&v("- 1")), None);
    assert_eq!(parse_pair_i32(&v("+ 1")), None);
}

#[test]
fn parse_unsigned_domain_bounds() {
    assert_eq!(
        parse_pair_u32(&v("4294967295 0")),
        Some(Pair { a: 4294967295, b: 0 })
    );
    assert_eq!(parse_pair_u32(&v("4294967296 0")), None);
    assert_eq!(parse_pair_u32(&v("-1 2")), None);
    assert_eq!(parse_pair_u32(&v("+5 7")), Some(Pair { a: 5, b: 7 }));
    assert_eq!(
        parse_pair_u32(&v("0000000000042 1")),
        Some(Pair { a: 42, b: 1 })
    );
}

#[test]
fn parse_signed_domain_bounds() {
    assert_eq!(parse_pair_i32(&v("-2147483648 0")), Some((-2147483648, 0)));
    assert_eq!(parse_pair_i32(&v("-2147483649 0")), None);
    assert_eq!(parse_pair_i32(&v("2147483647 0")), Some((2147483647, 0)));
    assert_eq!(parse_pair_i32(&v("2147483648 0")), None);
    assert_eq!(parse_pair_i32(&v("-0 +0")), Some((0, 0)));
}

#[test]
fn split_lines_handles_terminators() {
    let ls = split_lines(&v("a\nb\nc"));
    assert_eq!(ls, vec![v("a"), v("b"), v("c")]);
    let ls = split_lines(&v("a\nb\n"));
    assert_eq!(ls, vec![v("a"), v("b")]);
    let ls = split_lines(&v("a\r\nb\r\n"));
    assert_eq!(ls, vec![v("a"), v("b")]);
    let ls = split_lines(&v(""));
    assert_eq!(ls, Vec::<Vec<u8>>::new());
    let ls = split_lines(&v("\n\n"));
    assert_eq!(ls, vec![v(""), v("")]);
    let ls = split_lines(&v("a\r\nb\r"));
    assert_eq!(ls, vec![v("a"), v("b\r")]);
}

#[test]
fn carriage_returns_do_not_disturb_parsing() {
    assert_eq!(order_bytes(&v("3 4\r\n1 2\r\n")), v("1 2\n3 4\n"));
    assert_eq!(total_distance(&v("1 2\r")), 1);
}

#[test]
fn order_concrete_scenario() {
    let out = order_bytes(&v("10 5\n3 8\n"));
    assert_eq!(out, v("3 8\n10 5\n"));
}

#[test]
fn order_sorts_lexicographically_with_tie_break() {
    let out = order_bytes(&v("2 9\n2 1\n1 7\n2 5\n"));
    assert_eq!(out, v("1 7\n2 1\n2 5\n2 9\n"));
}

#[test]
fn order_is_idempotent_on_its_output() {
    let once = order_bytes(&v("9 1\n3 3\n7 2\n3 1\n"));
    let twice = order_bytes(&once);
    assert_eq!(twice, once);
}

#[test]
fn order_skips_malformed_lines() {
    let out = order_bytes(&v("3 4\nabc def\n1 2\n"));
    assert_eq!(out, v("1 2\n3 4\n"));
}

#[test]
fn order_of_empty_input_is_empty() {
    assert_eq!(order_bytes(&v("")), v(""));
    assert_eq!(order_bytes(&v("no pairs here at all\n")), v(""));
}

#[test]
fn order_drops_negative_values() {
    let out = order_bytes(&v("-1 2\n5 6\n"));
    assert_eq!(out, v("5 6\n"));
}

#[test]
fn distance_concrete_scenario() {
    let d = total_distance(&v("3 4\n4 3\n2 5\n1 3\n3 9\n3 3\n"));
    assert_eq!(d, 11);
}

#[test]
fn distance_is_invariant_under_line_permutation() {
    let d1 = total_distance(&v("3 4\n4 3\n2 5\n1 3\n3 9\n3 3\n"));
    let d2 = total_distance(&v("3 3\n3 9\n1 3\n2 5\n4 3\n3 4\n"));
    assert_eq!(d1, d2);
}

#[test]
fn distance_of_identical_pairs_is_zero() {
    let d = total_distance(&v("5 5\n-3 -3\n0 0\n2147483647 2147483647\n"));
    assert_eq!(d, 0);
}

#[test]
fn distance_skips_malformed_lines() {
    let d = total_distance(&v("1 2\nabc def\n4 4\n"));
    assert_eq!(d, 1);
}

#[test]
fn distance_with_negative_values() {
    let d = total_distance(&v("-5 5\n"));
    assert_eq!(d, 10);
    let d = total_distance(&v("-2147483648 2147483647\n"));
    assert_eq!(d, 4294967295);
}

#[test]
fn distance_of_empty_input_is_zero() {
    assert_eq!(total_distance(&v("")), 0);
}

#[test]
fn parse_pairs_keeps_file_order() {
    let lines = split_lines(&v("3 4\nbad\n1 2\n"));
    let ps = parse_pairs_u32(&lines);
    assert_eq!(ps, vec![Pair { a: 3, b: 4 }, Pair { a: 1, b: 2 }]);
}

#[test]
fn sort_pairs_orders_ascending() {
    let mut ps = vec![
        Pair { a: 2, b: 1 },
        Pair { a: 1, b: 9 },
        Pair { a: 2, b: 0 },
    ];
    sort_pairs(&mut ps);
    assert_eq!(
        ps,
        vec![
            Pair { a: 1, b: 9 },
            Pair { a: 2, b: 0 },
            Pair { a: 2, b: 1 },
        ]
    );
}

#[test]
fn sort_i32_orders_ascending() {
    let mut c = vec![3, -1, 2, -1];
    sort_i32(&mut c);
    assert_eq!(c, vec![-1, -1, 2, 3]);
}
