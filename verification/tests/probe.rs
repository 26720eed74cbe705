use jmon::gpu::parse_query_output;
use jmon::model::UiButton;
use jmon::ui::sparkline_data;
use std::collections::VecDeque;

#[test]
fn query_output_single_value() {
    assert_eq!(parse_query_output("47\n"), Some(47_000));
    assert_eq!(parse_query_output("  47  \n"), Some(47_000));
}

#[test]
fn query_output_averages_devices() {
    assert_eq!(parse_query_output("45\n55\n"), Some(50_000));
    assert_eq!(parse_query_output("1\n2"), Some(1_500));
}

#[test]
fn query_output_skips_unparsable_lines() {
    assert_eq!(parse_query_output("abc\n12"), Some(12_000));
    assert_eq!(parse_query_output(""), None);
    assert_eq!(parse_query_output("no data"), None);
}

#[test]
fn sparkline_right_aligns_and_pads() {
    let mut data: VecDeque<u64> = VecDeque::new();
    data.push_back(1);
    data.push_back(2);
    data.push_back(3);
    assert_eq!(sparkline_data(&data, 5), vec![0, 0, 1, 2, 3]);
    assert_eq!(sparkline_data(&data, 2), vec![2, 3]);
    assert_eq!(sparkline_data(&data, 0), Vec::<u64>::new());
    let empty: VecDeque<u64> = VecDeque::new();
    assert_eq!(sparkline_data(&empty, 3), vec![0, 0, 0]);
}

#[test]
fn button_hit_testing() {
    let b = UiButton {
        x: 10,
        y: 2,
        width: 3,
    };
    assert!(b.contains(10, 2));
    assert!(b.contains(12, 2));
    assert!(!b.contains(13, 2));
    assert!(!b.contains(9, 2));
    assert!(!b.contains(10, 3));
    let zero = UiButton {
        x: 10,
        y: 2,
        width: 0,
    };
    assert!(!zero.contains(10, 2));
}
