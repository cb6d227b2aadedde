use ctrim::detector::FormatType;
use ctrim::utils::stats::{thousands, ReductionStats};

#[test]
fn formats_thousands_separators() {
    assert_eq!(thousands(0), "0");
    assert_eq!(thousands(999), "999");
    assert_eq!(thousands(1000), "1,000");
    assert_eq!(thousands(14200), "14,200");
    assert_eq!(thousands(1234567), "1,234,567");
}

#[test]
fn report_mentions_the_clipboard_only_when_used() {
    let stats = ReductionStats {
        raw_tokens: 100,
        reduced_tokens: 20,
        raw_lines: 10,
        reduced_lines: 3,
        ..ReductionStats::default()
    };
    let plain = stats.report(FormatType::Pytest, false);
    assert!(plain.contains("pytest"));
    assert!(plain.contains("-80.0%"));
    assert!(!plain.contains("clipboard"));
    assert!(stats
        .report(FormatType::Pytest, true)
        .contains("copied to clipboard"));
}

#[test]
fn report_has_the_documented_shape() {
    let stats = ReductionStats {
        raw_tokens: 14200,
        reduced_tokens: 2150,
        raw_lines: 310,
        reduced_lines: 42,
        ..ReductionStats::default()
    };
    assert_eq!(
        stats.report(FormatType::Pytest, false),
        "[ctrim] pytest: ~14,200 -> ~2,150 tokens (-84.9%) | 310 -> 42 lines"
    );
}

#[test]
fn reduction_text_rounds_to_one_decimal() {
    let stats = ReductionStats {
        raw_tokens: 14200,
        reduced_tokens: 2150,
        ..ReductionStats::default()
    };
    assert_eq!(stats.reduction_text(), "84.9");
    let half = ReductionStats {
        raw_tokens: 400,
        reduced_tokens: 399,
        ..ReductionStats::default()
    };
    // 0.25% is a tie: it goes to the even tenth.
    assert_eq!(half.reduction_text(), "0.2");
}

#[test]
fn empty_input_reports_zero_reduction_text() {
    assert_eq!(ReductionStats::default().reduction_text(), "0.0");
}

#[test]
fn growth_reports_a_negative_reduction() {
    let stats = ReductionStats {
        raw_tokens: 10,
        reduced_tokens: 15,
        ..ReductionStats::default()
    };
    assert_eq!(stats.reduction_text(), "-50.0");
}

#[test]
fn thousands_without_separators_is_the_decimal() {
    for n in [0usize, 7, 999, 1000, 14200, 1234567, usize::MAX] {
        assert_eq!(thousands(n).replace(',', ""), n.to_string());
    }
}

#[test]
fn thousands_groups_digits_in_threes() {
    for n in [0usize, 7, 999, 1000, 14200, 1234567, usize::MAX] {
        let text = thousands(n);
        let groups: Vec<&str> = text.split(',').collect();
        assert!((1..=3).contains(&groups[0].len()), "{text}");
        assert!(groups[1..].iter().all(|g| g.len() == 3), "{text}");
    }
}
