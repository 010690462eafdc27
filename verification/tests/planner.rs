use tape_planner::model::SizeClass;
use tape_planner::parse::{parse_tape, parse_tapes};
use tape_planner::present::{calculate, Category, Fragment};
use tape_planner::ranges::{class_a_lengths, class_b_lengths};
use tape_planner::ratio::{gcd, is_accepted, simplify_ratio};
use tape_planner::search::search;

fn lengths_of(texts: &[&str]) -> Vec<String> {
    texts.iter().map(|t| t.to_string()).collect()
}

fn line_texts(line: &Vec<Fragment>) -> Vec<String> {
    line.iter().map(|f| f.text.clone()).collect()
}

#[test]
fn class_a_catalog_is_the_ascending_grid() {
    let a = class_a_lengths();
    assert_eq!(a.len(), 601);
    assert_eq!(a[0], 300_000);
    assert_eq!(a[600], 360_000);
    for (i, v) in a.iter().enumerate() {
        assert_eq!(*v, 300_000 + 100 * i as u64);
    }
}

#[test]
fn class_b_catalog_is_the_ascending_grid() {
    let b = class_b_lengths();
    assert_eq!(b.len(), 2391);
    assert_eq!(b[0], 361_000);
    assert_eq!(b[2390], 600_000);
    for (i, v) in b.iter().enumerate() {
        assert_eq!(*v, 361_000 + 100 * i as u64);
    }
}

#[test]
fn catalogs_share_no_value() {
    let a = class_a_lengths();
    let b = class_b_lengths();
    let max_a = a.iter().max().unwrap();
    let min_b = b.iter().min().unwrap();
    assert!(max_a < min_b);
}

#[test]
fn gcd_of_plain_pairs() {
    assert_eq!(gcd(12, 18), 6);
    assert_eq!(gcd(18, 12), 6);
    assert_eq!(gcd(0, 5), 5);
    assert_eq!(gcd(5, 0), 5);
    assert_eq!(gcd(7, 13), 1);
    assert_eq!(gcd(0, 0), 0);
}

#[test]
fn ratio_reduces_to_lowest_terms() {
    assert_eq!(simplify_ratio(2, 1), "2:1");
    assert_eq!(simplify_ratio(4, 2), "2:1");
    assert_eq!(simplify_ratio(0, 1), "0:1");
    assert_eq!(simplify_ratio(1, 0), "1:0");
    assert_eq!(simplify_ratio(3125, 0), "1:0");
    assert_eq!(simplify_ratio(10, 4), "5:2");
    assert_eq!(simplify_ratio(9, 6), "3:2");
}

#[test]
fn zero_over_zero_matches_no_accepted_ratio() {
    let r = simplify_ratio(0, 0);
    assert_eq!(r, "0:0");
    for accepted in ["2:1", "5:2", "3:2"] {
        assert_ne!(r, accepted);
    }
    assert!(!is_accepted(0, 0));
}

#[test]
fn accepted_ratio_test_by_counts() {
    assert!(is_accepted(2, 1));
    assert!(is_accepted(4, 2));
    assert!(is_accepted(5, 2));
    assert!(is_accepted(3, 2));
    assert!(is_accepted(15, 6));
    assert!(!is_accepted(1, 0));
    assert!(!is_accepted(0, 1));
    assert!(!is_accepted(7, 3));
}

#[test]
fn parse_accepts_plain_decimals() {
    assert_eq!(parse_tape("600"), Some(600_000));
    assert_eq!(parse_tape("300.1"), Some(300_100));
    assert_eq!(parse_tape("300.25"), Some(300_250));
    assert_eq!(parse_tape("+5"), Some(5_000));
    assert_eq!(parse_tape("5."), Some(5_000));
    assert_eq!(parse_tape(".5"), Some(500));
    assert_eq!(parse_tape("007"), Some(7_000));
}

#[test]
fn parse_rounds_below_the_millimeter() {
    assert_eq!(parse_tape("300.0004"), Some(300_000));
    assert_eq!(parse_tape("300.0005"), Some(300_001));
    assert_eq!(parse_tape("0.0004"), None);
    assert_eq!(parse_tape("0.0005"), Some(1));
}

#[test]
fn parse_drops_what_is_no_positive_length() {
    assert_eq!(parse_tape(""), None);
    assert_eq!(parse_tape("abc"), None);
    assert_eq!(parse_tape("."), None);
    assert_eq!(parse_tape("+"), None);
    assert_eq!(parse_tape("-5"), None);
    assert_eq!(parse_tape("0"), None);
    assert_eq!(parse_tape("6 00"), None);
    assert_eq!(parse_tape("1.2.3"), None);
    assert_eq!(parse_tape("99999999999999999999999999"), None);
}

#[test]
fn parse_accepts_exponent_forms() {
    assert_eq!(parse_tape("1e3"), Some(1_000_000));
    assert_eq!(parse_tape("1E3"), Some(1_000_000));
    assert_eq!(parse_tape("2.5e2"), Some(250_000));
    assert_eq!(parse_tape("600e0"), Some(600_000));
    assert_eq!(parse_tape("6e2"), Some(600_000));
    assert_eq!(parse_tape("1e+2"), Some(100_000));
    assert_eq!(parse_tape("1e-3"), Some(1));
    assert_eq!(parse_tape("5e-4"), Some(1));
    assert_eq!(parse_tape("3.611e2"), Some(361_100));
}

#[test]
fn parse_rejects_malformed_exponents() {
    assert_eq!(parse_tape("1e"), None);
    assert_eq!(parse_tape("1e+"), None);
    assert_eq!(parse_tape("1e2.5"), None);
    assert_eq!(parse_tape("e3"), None);
    assert_eq!(parse_tape("1e2e3"), None);
    assert_eq!(parse_tape("0e5"), None);
    assert_eq!(parse_tape("4e-4"), None);
    assert_eq!(parse_tape("1e99999999999999999999999999999999"), None);
    assert_eq!(parse_tape("1e-99999999999999999999999999999999"), None);
}

#[test]
fn validated_set_keeps_order_and_drops_bad_entries() {
    let tapes = lengths_of(&["600", "x", "", "361", "-2", "0.5"]);
    let parsed = parse_tapes(&tapes);
    assert_eq!(parsed, vec![600_000, 361_000, 500]);
}

#[test]
fn search_covers_each_tape_exactly() {
    let lengths = vec![600_000u64, 361_000u64];
    let (groups, ratio) = search(&lengths).expect("an accepted allocation exists");
    assert_eq!(ratio, "2:1");
    assert_eq!(groups.len(), 2);
    for (g, len) in groups.iter().zip(lengths.iter()) {
        assert_eq!(g.tape_mm, *len);
        let total: u64 = g.segments.iter().map(|s| s.count * s.len_mm).sum();
        assert_eq!(total, *len);
    }
}

#[test]
fn search_rejects_what_no_catalog_reaches() {
    let lengths = vec![123u64];
    assert!(search(&lengths).is_none());
}

#[test]
fn two_tapes_reach_the_two_to_one_ratio() {
    let tapes = lengths_of(&["600", "361"]);
    let res = calculate(&tapes);
    assert_eq!(res.len(), 4);
    assert_eq!(res[0][0].category, Category::InputSummary);
    assert_eq!(res[0][0].text, "Input is [600.0, 361.0] m, sum 961.0 m\n");
    assert_eq!(line_texts(&res[1]), vec!["2x 300 m", "from 600 m tape"]);
    assert_eq!(res[1][0].category, Category::ClassASegment);
    assert_eq!(res[1][1].category, Category::PlainNote);
    assert_eq!(line_texts(&res[2]), vec!["1x 361 m", "from 361 m tape"]);
    assert_eq!(res[2][0].category, Category::ClassBSegment);
    assert_eq!(res[3][0].category, Category::RatioSummary);
    assert_eq!(res[3][0].text, "\nRatio 2:1");
}

#[test]
fn unparsable_input_asks_for_a_valid_length() {
    let tapes = lengths_of(&["abc"]);
    let res = calculate(&tapes);
    assert_eq!(res.len(), 1);
    assert_eq!(res[0].len(), 1);
    assert_eq!(res[0][0].category, Category::ErrorMessage);
    assert_eq!(res[0][0].text, "Please enter at least one valid tape length.");
}

#[test]
fn out_of_range_tape_reports_no_combination() {
    let tapes = lengths_of(&["1000000"]);
    let res = calculate(&tapes);
    assert_eq!(res.len(), 2);
    assert_eq!(res[0][0].category, Category::InputSummary);
    assert_eq!(res[0][0].text, "Input is [1000000.0] m, sum 1000000.0 m\n");
    assert_eq!(res[1].len(), 1);
    assert_eq!(res[1][0].category, Category::ErrorMessage);
    assert_eq!(res[1][0].text, "No valid combinations found. Please add more tapes.");
}

#[test]
fn exponent_entry_is_validated_and_searched() {
    let tapes = lengths_of(&["1e3"]);
    let res = calculate(&tapes);
    assert_eq!(res.len(), 2);
    assert_eq!(res[0][0].category, Category::InputSummary);
    assert_eq!(res[0][0].text, "Input is [1000.0] m, sum 1000.0 m\n");
    assert_eq!(res[1][0].category, Category::ErrorMessage);
    assert_eq!(res[1][0].text, "No valid combinations found. Please add more tapes.");
}

#[test]
fn repeated_calls_give_byte_identical_output() {
    let tapes = lengths_of(&["600", "361", "912"]);
    let first = calculate(&tapes);
    let second = calculate(&tapes);
    assert_eq!(first.len(), second.len());
    for (l1, l2) in first.iter().zip(second.iter()) {
        assert_eq!(l1.len(), l2.len());
        for (f1, f2) in l1.iter().zip(l2.iter()) {
            assert_eq!(f1.category, f2.category);
            assert_eq!(f1.text, f2.text);
        }
    }
}

#[test]
fn calls_share_no_state() {
    let tapes_a = lengths_of(&["600", "361"]);
    let tapes_b = lengths_of(&["123"]);
    let before = calculate(&tapes_a);
    let _ = calculate(&tapes_b);
    let _ = calculate(&tapes_b);
    let after = calculate(&tapes_a);
    for (l1, l2) in before.iter().zip(after.iter()) {
        for (f1, f2) in l1.iter().zip(l2.iter()) {
            assert_eq!(f1.text, f2.text);
        }
    }
    assert_eq!(before.len(), after.len());
}

#[test]
fn split_strategy_joins_one_piece_of_each_class() {
    // 661.0 m splits only as 300.0 + 361.0. With a second 661.0 m tape the
    // search first tries that split again, fails every continuation, then
    // finds 661.0 == 2 x 330.5 in class A; two 600.0 m tapes then settle at
    // counts (5, 2), an accepted ratio.
    let lengths = vec![661_000u64, 661_000u64, 600_000u64, 600_000u64];
    let (groups, ratio) = search(&lengths).expect("an accepted allocation exists");
    assert_eq!(ratio, "5:2");
    assert_eq!(groups[0].segments.len(), 2);
    assert_eq!(groups[0].segments[0].class, SizeClass::ClassA);
    assert_eq!(groups[0].segments[1].class, SizeClass::ClassB);
    assert_eq!(groups[0].segments[0].len_mm + groups[0].segments[1].len_mm, 661_000);
}

#[test]
fn split_line_carries_both_classes() {
    let tapes = lengths_of(&["661", "661", "600", "600"]);
    let res = calculate(&tapes);
    assert_eq!(res[1].len(), 3);
    assert_eq!(res[1][0].category, Category::ClassASegment);
    assert_eq!(res[1][0].text, "1x 300 m,");
    assert_eq!(res[1][1].category, Category::ClassBSegment);
    assert_eq!(res[1][1].text, "1x 361 m");
    assert_eq!(res[1][2].text, "from 661 m tape");
}
