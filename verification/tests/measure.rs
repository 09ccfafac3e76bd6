use fomoxa_codec_bench::measure::{group_thousands, nearest_rank, parse_ticks, stat_cpu_ticks};

#[test]
fn thousands_groups_digits() {
    assert_eq!(group_thousands(0), "0");
    assert_eq!(group_thousands(999), "999");
    assert_eq!(group_thousands(1234567), "1,234,567");
}

#[test]
fn thousands_groups_edges() {
    assert_eq!(group_thousands(1000), "1,000");
    assert_eq!(group_thousands(100_000), "100,000");
    assert_eq!(group_thousands(1_000_001), "1,000,001");
    assert_eq!(group_thousands(u64::MAX), "18,446,744,073,709,551,615");
}

#[test]
fn percentile_picks_the_nearest_rank() {
    let sorted = [1000, 2000, 3000, 4000];
    let rank = |quantile: f64| (quantile * sorted.len() as f64).ceil() as usize;
    assert_eq!(nearest_rank(&sorted, rank(0.5)), Some(2000));
    assert_eq!(nearest_rank(&sorted, rank(0.99)), Some(4000));
}

#[test]
fn nearest_rank_clamps_to_the_list() {
    let sorted = [5, 6, 7];
    assert_eq!(nearest_rank(&sorted, 0), Some(5));
    assert_eq!(nearest_rank(&sorted, 3), Some(7));
    assert_eq!(nearest_rank(&sorted, 99), Some(7));
    assert_eq!(nearest_rank(&[], 1), None);
}

#[test]
fn stat_line_gives_user_and_system_ticks() {
    let stat = "4242 (my (odd) cmd) R 1 2 3 4 5 6 7 8 9 10 1234 567 0 0 20 0 1 0 100";
    assert_eq!(stat_cpu_ticks(stat), Some((1234, 567)));
}

#[test]
fn stat_line_without_enough_fields_or_name() {
    assert_eq!(stat_cpu_ticks("1 (x) R 1 2 3"), None);
    assert_eq!(stat_cpu_ticks("no name here 1 2 3 4 5 6 7 8 9 10 11 12 13 14"), None);
    assert_eq!(stat_cpu_ticks("1 (x) R 1 2 3 4 5 6 7 8 9 10 x 12 13"), None);
    assert_eq!(stat_cpu_ticks("1 (x)\tR 1 2 3 4 5 6 7 8 9\n10  11 12 13"), Some((11, 12)));
}

#[test]
fn ticks_parse_as_u64_does() {
    let chars = |text: &str| text.chars().collect::<Vec<char>>();
    assert_eq!(parse_ticks(&chars("0")), Some(0));
    assert_eq!(parse_ticks(&chars("+17")), Some(17));
    assert_eq!(parse_ticks(&chars("+")), None);
    assert_eq!(parse_ticks(&chars("")), None);
    assert_eq!(parse_ticks(&chars("-1")), None);
    assert_eq!(parse_ticks(&chars("18446744073709551615")), Some(u64::MAX));
    assert_eq!(parse_ticks(&chars("18446744073709551616")), None);
    for text in ["0", "+17", "+", "", "-1", "18446744073709551615", "18446744073709551616", "12a", "+\u{e9}", "\u{661}"] {
        assert_eq!(parse_ticks(&chars(text)), text.parse::<u64>().ok(), "{text}");
    }
}

fn reference_ticks(stat: &str) -> Option<(u64, u64)> {
    let (_, after_name) = stat.rsplit_once(')')?;
    let fields: Vec<&str> = after_name.split_whitespace().collect();
    let ticks = |index: usize| fields.get(index).and_then(|field| field.parse::<u64>().ok());
    Some((ticks(11)?, ticks(12)?))
}

#[test]
fn stat_fields_split_on_unicode_whitespace() {
    let stat = "7 (a) b)\u{a0}S 0 0 0 0 0 0 0 0 0 0 250\u{3000}50";
    assert_eq!(stat_cpu_ticks(stat), Some((250, 50)));
    for stat in [
        stat,
        "7 (a) b) S 0 0 0 0 0 0 0 0 0 0 250 50",
        "1 (x)\u{2028}R\u{85}1 2 3 4 5 6 7 8 9 10\u{205f}11\u{1680}12 13",
        "1 (x) R 1 2 3 4 5 6 7 8 9 10 11\u{200b}12 13",
        "1 (\u{a0}) R 1 2 3 4 5 6 7 8 9 10 11 12",
    ] {
        assert_eq!(stat_cpu_ticks(stat), reference_ticks(stat), "{stat:?}");
    }
}
