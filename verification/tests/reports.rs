use etf_decline::decline::{calculate, Change, ReportMode};
use etf_decline::feed::{closing_prices, price_series, KLine, Observation};
use etf_decline::price::{Price, Quote};
use etf_decline::ranking::{rank, rows_are_sound, Row};
use etf_decline::report::{assess, diagnostic, row_line, takes_window, Finding, Report, Verdict};

fn bar(close: &str) -> KLine {
    KLine {
        open: String::from("1.000"),
        high: String::from("1.100"),
        low: String::from("0.900"),
        close: String::from(close),
        volume: String::from("123456"),
        day: String::from("2024-05-06"),
    }
}

fn answered(status: u16, closes: &[&str]) -> Observation {
    Observation::Answered { status, bars: Some(closes.iter().map(|close| bar(close)).collect()) }
}

/// A change of so many hundredths of a percent.
fn hundredths(figure: i128) -> Change {
    Change { rise: figure, base: 10_000 }
}

fn row(code: &str, change: i128, half_change: i128) -> Row {
    Row {
        code: String::from(code),
        change: hundredths(change),
        half_change: Some(hundredths(half_change)),
    }
}

fn between(older: &str, newer: &str) -> Change {
    calculate(Price::parse(older).unwrap(), Price::parse(newer).unwrap())
}

fn number(units: i64) -> Quote {
    Quote::Number(Price { units })
}

const NO_CHANGE: Change = Change { rise: 0, base: 1 };

fn codes_of(rows: &Vec<Row>) -> Vec<String> {
    rows.iter().map(|row| row.code.clone()).collect()
}

const HEADING_5: &str = " ETF Decline over 5 days:";
const RULE: &str = "-----------------------------------------";
const NOTHING: &str = "No ETF data: no results";

#[test]
fn closing_prices_keep_the_order_of_the_bars() {
    let bars = vec![bar("100"), bar("98.5"), bar("0.684")];
    assert_eq!(
        closing_prices(&bars),
        vec![number(100_000_000), number(98_500_000), number(684_000)]
    );
}

#[test]
fn one_bad_close_empties_the_series() {
    assert_eq!(closing_prices(&vec![bar("100"), bar("n/a"), bar("95")]), vec![]);
    assert_eq!(closing_prices(&vec![bar("100"), bar("98"), bar("")]), vec![]);
    assert_eq!(closing_prices(&vec![bar("100"), bar("nan"), bar("nane")]), vec![]);
}

#[test]
fn quote_of_no_number_is_kept_in_its_place() {
    assert_eq!(
        closing_prices(&vec![bar("100"), bar("nan"), bar("NaN"), bar("-nan"), bar("95")]),
        vec![
            number(100_000_000),
            Quote::NotANumber,
            Quote::NotANumber,
            Quote::NotANumber,
            number(95_000_000),
        ]
    );
}

#[test]
fn every_close_that_is_a_number_gives_a_price() {
    let bars = vec![bar("1.2345678"), bar("1e2"), bar("1.1"), bar("inf"), bar("-0.5E-3")];
    assert_eq!(
        closing_prices(&bars),
        vec![
            number(1_234_568),
            number(100_000_000),
            number(1_100_000),
            number(1_000_000_000_000_000_000),
            number(-500),
        ]
    );
}

#[test]
fn fall_from_a_close_with_many_digits_is_listed() {
    let observation = answered(200, &["1.2345678", "1.1"]);
    assert_eq!(
        assess(&observation, 2),
        Verdict::Declined {
            change: Change { rise: -134_568, base: 1_234_568 },
            half_change: Some(Change { rise: 0, base: 1_234_568 }),
        }
    );
    let mut report = Report::new(2, ReportMode::SignedChange);
    assert_eq!(report.record("513520", &observation), None);
    assert_eq!(
        report.lines()[3],
        "Code: 513520 | Rate(Today/2 days ago): -10.90% | Rate(1 days ago/2 days ago): 0.00%"
    );
}

#[test]
fn no_bars_give_no_prices() {
    assert_eq!(closing_prices(&vec![]), vec![]);
}

#[test]
fn only_the_close_is_read() {
    let mut odd = bar("12.5");
    odd.open = String::from("?");
    odd.high = String::from("");
    odd.low = String::from("low");
    odd.volume = String::from("-");
    odd.day = String::from("someday");
    assert_eq!(closing_prices(&vec![odd]), vec![number(12_500_000)]);
}

#[test]
fn body_that_is_no_list_of_bars_gives_no_prices() {
    assert_eq!(price_series(&None), vec![]);
    assert_eq!(price_series(&Some(vec![bar("7")])), vec![number(7_000_000)]);
}

#[test]
fn verdict_on_a_fall() {
    let observation = answered(200, &["100", "98", "95", "90", "85"]);
    assert_eq!(
        assess(&observation, 5),
        Verdict::Declined {
            change: Change { rise: -15_000_000, base: 100_000_000 },
            half_change: Some(Change { rise: -5_000_000, base: 100_000_000 }),
        }
    );
}

#[test]
fn verdict_reads_only_the_window() {
    // more prices than the window: the first `day` of them count
    let observation = answered(200, &["100", "98", "95", "90", "85", "200", "300"]);
    assert_eq!(
        assess(&observation, 5),
        Verdict::Declined { change: between("100", "85"), half_change: Some(between("100", "95")) }
    );
    assert_eq!(
        assess(&observation, 4),
        Verdict::Declined { change: between("100", "90"), half_change: Some(between("100", "98")) }
    );
    assert_eq!(assess(&observation, 6), Verdict::NotDeclined);
}

#[test]
fn verdict_on_flat_and_rising_prices() {
    assert_eq!(assess(&answered(200, &["100", "90", "100"]), 3), Verdict::NotDeclined);
    assert_eq!(assess(&answered(200, &["100", "90", "100.000001"]), 3), Verdict::NotDeclined);
    assert_eq!(assess(&answered(200, &["100", "90", "110"]), 3), Verdict::NotDeclined);
    assert_eq!(assess(&answered(200, &["100"]), 1), Verdict::NotDeclined);
}

#[test]
fn verdict_on_the_smallest_fall() {
    assert_eq!(
        assess(&answered(200, &["100", "99.999999"]), 2),
        Verdict::Declined {
            change: Change { rise: -1, base: 100_000_000 },
            half_change: Some(Change { rise: 0, base: 100_000_000 }),
        }
    );
}

#[test]
fn fall_below_half_a_hundredth_keeps_its_sign() {
    let mut report = Report::new(2, ReportMode::SignedChange);
    report.record("513520", &answered(200, &["100", "99.999999"]));
    assert_eq!(
        report.lines()[3],
        "Code: 513520 | Rate(Today/2 days ago): -0.00% | Rate(1 days ago/2 days ago): 0.00%"
    );
    let mut sizes = Report::new(2, ReportMode::Magnitude);
    sizes.record("513520", &answered(200, &["100", "99.999999"]));
    assert_eq!(
        sizes.lines()[3],
        "Code: 513520 | Drop(Today/2 days ago): 0.00% | Drop(1 days ago/2 days ago): 0.00%"
    );
}

#[test]
fn verdict_on_a_short_series() {
    assert_eq!(
        assess(&answered(200, &["100", "98", "95"]), 5),
        Verdict::InsufficientData { got: 3 }
    );
    assert_eq!(assess(&answered(200, &[]), 1), Verdict::InsufficientData { got: 0 });
}

#[test]
fn verdict_on_an_unreadable_answer() {
    let body = Observation::Answered { status: 200, bars: None };
    assert_eq!(assess(&body, 5), Verdict::InsufficientData { got: 0 });
    let close = answered(200, &["100", "98", "oops", "90", "85"]);
    assert_eq!(assess(&close, 5), Verdict::InsufficientData { got: 0 });
}

#[test]
fn verdict_on_another_status() {
    assert_eq!(
        assess(&answered(404, &["100", "98", "95", "90", "85"]), 5),
        Verdict::HttpStatus { status: 404 }
    );
    assert_eq!(
        assess(&Observation::Answered { status: 500, bars: None }, 5),
        Verdict::HttpStatus { status: 500 }
    );
    assert_eq!(assess(&answered(201, &["2", "1"]), 2), Verdict::HttpStatus { status: 201 });
}

#[test]
fn verdict_on_a_failed_request() {
    let observation = Observation::Unreachable { reason: String::from("timed out") };
    assert_eq!(assess(&observation, 5), Verdict::Unreachable);
}

#[test]
fn half_window_of_one_day_is_zero() {
    assert_eq!(
        assess(&answered(200, &["-1", "-2"]), 1),
        Verdict::NotDeclined
    );
    let mut report = Report::new(1, ReportMode::SignedChange);
    assert_eq!(report.record("513520", &answered(200, &["100"])), None);
    assert!(report.rows.is_empty());
}

#[test]
fn half_window_midpoints() {
    // day 2: midpoint 0; day 3: midpoint 1; day 4: midpoint 1; day 5: midpoint 2
    let closes = ["100", "99", "98", "97", "96"];
    assert_eq!(
        assess(&answered(200, &closes), 2),
        Verdict::Declined { change: between("100", "99"), half_change: Some(between("100", "100")) }
    );
    assert_eq!(
        assess(&answered(200, &closes), 3),
        Verdict::Declined { change: between("100", "98"), half_change: Some(between("100", "99")) }
    );
    assert_eq!(
        assess(&answered(200, &closes), 4),
        Verdict::Declined { change: between("100", "97"), half_change: Some(between("100", "99")) }
    );
    assert_eq!(
        assess(&answered(200, &closes), 5),
        Verdict::Declined { change: between("100", "96"), half_change: Some(between("100", "98")) }
    );
}

#[test]
fn fall_from_a_base_of_zero_has_no_figure() {
    assert_eq!(
        assess(&answered(200, &["0", "-1"]), 2),
        Verdict::Declined { change: NO_CHANGE, half_change: Some(NO_CHANGE) }
    );
}

#[test]
fn window_of_no_day_is_judged_where_no_price_is_read() {
    let failed = Observation::Unreachable { reason: String::from("timed out") };
    assert!(!takes_window(&failed));
    assert!(!takes_window(&answered(404, &["1"])));
    assert!(takes_window(&answered(200, &["1"])));
    assert!(takes_window(&Observation::Answered { status: 200, bars: None }));
    assert_eq!(assess(&failed, 0), Verdict::Unreachable);
    assert_eq!(assess(&answered(404, &["1"]), 0), Verdict::HttpStatus { status: 404 });
    let mut report = Report::new(0, ReportMode::SignedChange);
    assert_eq!(
        report.record("513520", &failed),
        Some(String::from("Failed to fetch data for 513520: timed out (No HTTP status available)"))
    );
    assert_eq!(
        report.record("513350", &answered(503, &[])),
        Some(String::from("HTTP 503 for code: 513350"))
    );
    assert_eq!(
        report.lines(),
        vec!["", " ETF Decline over 0 days:", RULE, NOTHING]
    );
}

#[test]
fn diagnostic_of_a_failed_request() {
    let observation = Observation::Unreachable { reason: String::from("connection refused") };
    assert_eq!(
        diagnostic("513520", &observation, 5),
        Some(String::from(
            "Failed to fetch data for 513520: connection refused (No HTTP status available)"
        ))
    );
}

#[test]
fn diagnostic_of_another_status() {
    assert_eq!(
        diagnostic("513520", &answered(503, &[]), 5),
        Some(String::from("HTTP 503 for code: 513520"))
    );
}

#[test]
fn diagnostic_of_a_short_series() {
    assert_eq!(
        diagnostic("513520", &answered(200, &["100", "98", "95"]), 5),
        Some(String::from("Not enough data for 513520: got 3 of 5 days"))
    );
    assert_eq!(
        diagnostic("512660", &Observation::Answered { status: 200, bars: None }, 10),
        Some(String::from("Not enough data for 512660: got 0 of 10 days"))
    );
}

#[test]
fn no_diagnostic_for_a_ticker_judged_on_its_prices() {
    assert_eq!(diagnostic("513520", &answered(200, &["100", "98", "95", "90", "85"]), 5), None);
    assert_eq!(diagnostic("513520", &answered(200, &["100", "98", "95", "90", "101"]), 5), None);
}

#[test]
fn short_series_is_skipped_and_told() {
    let mut report = Report::new(5, ReportMode::SignedChange);
    let line = report.record("513520", &answered(200, &["100", "98", "95"]));
    assert_eq!(line, Some(String::from("Not enough data for 513520: got 3 of 5 days")));
    assert!(report.rows.is_empty());
    assert_eq!(report.lines(), vec!["", HEADING_5, RULE, NOTHING]);
}

#[test]
fn flat_or_rising_fund_never_appears() {
    let mut report = Report::new(3, ReportMode::SignedChange);
    assert_eq!(report.record("513520", &answered(200, &["100", "50", "100"])), None);
    assert_eq!(report.record("513350", &answered(200, &["100", "50", "120"])), None);
    assert!(report.rows.is_empty());
    let lines = report.lines();
    assert!(lines.iter().all(|line| !line.contains("513520") && !line.contains("513350")));
}

#[test]
fn end_to_end_signed_change() {
    let mut report = Report::new(5, ReportMode::SignedChange);
    let line = report.record("513520", &answered(200, &["100", "98", "95", "90", "85"]));
    assert_eq!(line, None);
    assert_eq!(report.rows.len(), 1);
    assert_eq!(report.rows[0].code, "513520");
    assert_eq!(report.rows[0].change, Change { rise: -15_000_000, base: 100_000_000 });
    assert_eq!(report.rows[0].half_change, Some(Change { rise: -5_000_000, base: 100_000_000 }));
    assert_eq!(report.rows[0].change.hundredths(), -1500);
    assert_eq!(report.rows[0].half_change.unwrap().hundredths(), -500);
    assert_eq!(
        report.lines(),
        vec![
            "",
            HEADING_5,
            RULE,
            "Code: 513520 | Rate(Today/5 days ago): -15.00% | Rate(2 days ago/5 days ago): -5.00%",
        ]
    );
}

#[test]
fn end_to_end_magnitude() {
    let mut report = Report::new(5, ReportMode::Magnitude);
    report.record("513520", &answered(200, &["100", "98", "95", "90", "85"]));
    assert_eq!(
        report.lines(),
        vec![
            "",
            HEADING_5,
            RULE,
            "Code: 513520 | Drop(Today/5 days ago): 15.00% | Drop(2 days ago/5 days ago): 5.00%",
        ]
    );
}

#[test]
fn empty_report_says_no_results() {
    let mut report = Report::new(5, ReportMode::SignedChange);
    report.record("513520", &answered(200, &["100", "98", "95", "90", "100"]));
    report.record("513350", &answered(200, &["100", "98", "95", "90", "130"]));
    report.record("513870", &Observation::Unreachable { reason: String::from("dns") });
    report.record("512800", &answered(500, &["100", "98", "95", "90", "85"]));
    report.record("515000", &Observation::Answered { status: 200, bars: None });
    let lines = report.lines();
    assert_eq!(lines, vec!["", HEADING_5, RULE, NOTHING]);
    assert!(lines[3].contains("no results"));
    assert!(lines.iter().all(|line| !line.starts_with("Code: ")));
}

#[test]
fn report_without_any_ticker_says_no_results() {
    let report = Report::new(12, ReportMode::Magnitude);
    assert_eq!(
        report.lines(),
        vec!["", " ETF Decline over 12 days:", RULE, NOTHING]
    );
}

#[test]
fn rows_are_listed_deepest_fall_first() {
    let mut report = Report::new(2, ReportMode::SignedChange);
    report.record("513520", &answered(200, &["100", "95"]));
    report.record("513350", &answered(200, &["100", "80"]));
    report.record("513870", &answered(200, &["100", "101"]));
    report.record("512800", &answered(200, &["100", "99.5"]));
    report.record("515000", &answered(200, &["100", "90"]));
    assert_eq!(codes_of(&report.rows), vec!["513520", "513350", "512800", "515000"]);
    assert_eq!(codes_of(&report.ranked()), vec!["513350", "515000", "513520", "512800"]);
    assert_eq!(
        report.lines(),
        vec![
            "",
            " ETF Decline over 2 days:",
            RULE,
            "Code: 513350 | Rate(Today/2 days ago): -20.00% | Rate(1 days ago/2 days ago): 0.00%",
            "Code: 515000 | Rate(Today/2 days ago): -10.00% | Rate(1 days ago/2 days ago): 0.00%",
            "Code: 513520 | Rate(Today/2 days ago): -5.00% | Rate(1 days ago/2 days ago): 0.00%",
            "Code: 512800 | Rate(Today/2 days ago): -0.50% | Rate(1 days ago/2 days ago): 0.00%",
        ]
    );
}

#[test]
fn magnitudes_are_listed_in_descending_order() {
    let mut report = Report::new(2, ReportMode::Magnitude);
    report.record("513520", &answered(200, &["100", "95"]));
    report.record("513350", &answered(200, &["100", "80"]));
    report.record("515000", &answered(200, &["100", "90"]));
    assert_eq!(
        report.lines(),
        vec![
            "",
            " ETF Decline over 2 days:",
            RULE,
            "Code: 513350 | Drop(Today/2 days ago): 20.00% | Drop(1 days ago/2 days ago): 0.00%",
            "Code: 515000 | Drop(Today/2 days ago): 10.00% | Drop(1 days ago/2 days ago): 0.00%",
            "Code: 513520 | Drop(Today/2 days ago): 5.00% | Drop(1 days ago/2 days ago): 0.00%",
        ]
    );
}

#[test]
fn ranking_orders_every_pair() {
    let widest: i128 = (1 << 64) - 1;
    let rows = vec![
        row("a", -300, 0),
        row("b", -1200, -1),
        row("c", 0, 7),
        row("d", -1200, -2),
        row("e", 450, 0),
        row("f", -301, 0),
        row("g", -widest, 0),
        row("h", widest, 0),
    ];
    let ranked = rank(&rows);
    assert_eq!(ranked.len(), rows.len());
    for i in 0..ranked.len() {
        for j in i..ranked.len() {
            assert!(ranked[i].change.no_greater_than(&ranked[j].change));
        }
    }
    assert_eq!(codes_of(&ranked), vec!["g", "b", "d", "f", "a", "c", "e", "h"]);
}

#[test]
fn ranking_keeps_the_rows_whole() {
    let rows = vec![row("a", -3, 11), row("b", -12, 22), row("c", -7, 33)];
    let ranked = rank(&rows);
    assert_eq!(codes_of(&ranked), vec!["b", "c", "a"]);
    assert_eq!(ranked[0].half_change, Some(hundredths(22)));
    assert_eq!(ranked[1].half_change, Some(hundredths(33)));
    assert_eq!(ranked[2].half_change, Some(hundredths(11)));
    // the rows given are left as they were
    assert_eq!(codes_of(&rows), vec!["a", "b", "c"]);
}

#[test]
fn ranking_keeps_ties_in_order() {
    let rows = vec![row("x", -5, 0), row("y", -5, 1), row("z", -9, 2), row("w", -5, 3)];
    assert_eq!(codes_of(&rank(&rows)), vec!["z", "x", "y", "w"]);
}

#[test]
fn same_quotient_on_another_base_is_a_tie() {
    let rows = vec![
        Row { code: String::from("x"), change: Change { rise: -1, base: 3 }, half_change: Some(NO_CHANGE) },
        Row { code: String::from("y"), change: Change { rise: -2, base: 6 }, half_change: Some(NO_CHANGE) },
        Row { code: String::from("z"), change: Change { rise: -1, base: 2 }, half_change: Some(NO_CHANGE) },
        Row { code: String::from("w"), change: Change { rise: -3, base: 9 }, half_change: Some(NO_CHANGE) },
    ];
    assert_eq!(codes_of(&rank(&rows)), vec!["z", "x", "y", "w"]);
}

#[test]
fn ranking_goes_by_the_exact_change() {
    // both falls show as -10.00; the deeper one is listed first all the same
    let mut report = Report::new(2, ReportMode::SignedChange);
    report.record("513520", &answered(200, &["100", "89.999"]));
    report.record("513350", &answered(200, &["100", "89.996"]));
    report.record("513870", &answered(200, &["100", "89.9999"]));
    assert_eq!(codes_of(&report.rows), vec!["513520", "513350", "513870"]);
    assert_eq!(codes_of(&report.ranked()), vec!["513350", "513520", "513870"]);
    assert_eq!(
        report.lines(),
        vec![
            "",
            " ETF Decline over 2 days:",
            RULE,
            "Code: 513350 | Rate(Today/2 days ago): -10.00% | Rate(1 days ago/2 days ago): 0.00%",
            "Code: 513520 | Rate(Today/2 days ago): -10.00% | Rate(1 days ago/2 days ago): 0.00%",
            "Code: 513870 | Rate(Today/2 days ago): -10.00% | Rate(1 days ago/2 days ago): 0.00%",
        ]
    );
}

#[test]
fn ranking_compares_falls_on_different_bases() {
    // 1/3 against 0.3334 and 0.3333
    let mut report = Report::new(2, ReportMode::Magnitude);
    report.record("a", &answered(200, &["3", "2"]));
    report.record("b", &answered(200, &["1", "0.6666"]));
    report.record("c", &answered(200, &["1", "0.6667"]));
    assert_eq!(codes_of(&report.ranked()), vec!["b", "a", "c"]);
}

#[test]
fn ranking_of_nothing_and_of_one() {
    assert!(rank(&vec![]).is_empty());
    assert_eq!(codes_of(&rank(&vec![row("a", 1, 2)])), vec!["a"]);
}

#[test]
fn duplicate_says_the_same() {
    let first = row("513520", -1500, -500);
    let second = first.duplicate();
    assert_eq!(second.code, "513520");
    assert_eq!(second.change, hundredths(-1500));
    assert_eq!(second.half_change, Some(hundredths(-500)));
}

#[test]
fn row_line_in_each_mode() {
    let fallen = row("513520", -1234, 56);
    assert_eq!(
        row_line(10, ReportMode::SignedChange, &fallen),
        "Code: 513520 | Rate(Today/10 days ago): -12.34% | Rate(5 days ago/10 days ago): 0.56%"
    );
    assert_eq!(
        row_line(10, ReportMode::Magnitude, &fallen),
        "Code: 513520 | Drop(Today/10 days ago): 12.34% | Drop(5 days ago/10 days ago): -0.56%"
    );
    let steep = Row {
        code: String::from("x"),
        change: NO_CHANGE,
        half_change: Some(Change { rise: -((1 << 64) - 1), base: 1 }),
    };
    assert_eq!(
        row_line(7, ReportMode::Magnitude, &steep),
        "Code: x | Drop(Today/7 days ago): 0.00% | Drop(3 days ago/7 days ago): 1844674407370955161500.00%"
    );
    assert_eq!(
        row_line(7, ReportMode::SignedChange, &steep),
        "Code: x | Rate(Today/7 days ago): 0.00% | Rate(3 days ago/7 days ago): -1844674407370955161500.00%"
    );
}

#[test]
fn new_report_is_empty() {
    let report = Report::new(5, ReportMode::Magnitude);
    assert_eq!(report.day, 5);
    assert_eq!(report.mode, ReportMode::Magnitude);
    assert!(report.rows.is_empty());
    assert!(report.ranked().is_empty());
}

#[test]
fn compile_takes_in_a_whole_run() {
    let findings = vec![
        Finding { code: String::from("513520"), observation: answered(200, &["10", "9", "9.5"]) },
        Finding {
            code: String::from("513350"),
            observation: Observation::Unreachable { reason: String::from("timed out") },
        },
        Finding { code: String::from("513870"), observation: answered(200, &["10", "9", "8"]) },
        Finding { code: String::from("512800"), observation: answered(200, &["10", "9"]) },
        Finding { code: String::from("515000"), observation: answered(429, &["10", "9", "8"]) },
        Finding { code: String::from("513030"), observation: answered(200, &["10", "9", "10"]) },
    ];
    let (report, told) = Report::compile(3, ReportMode::SignedChange, &findings);
    assert_eq!(report.day, 3);
    assert_eq!(report.mode, ReportMode::SignedChange);
    assert_eq!(codes_of(&report.rows), vec!["513520", "513870"]);
    assert_eq!(
        told,
        vec![
            "Failed to fetch data for 513350: timed out (No HTTP status available)",
            "Not enough data for 512800: got 2 of 3 days",
            "HTTP 429 for code: 515000",
        ]
    );
    assert_eq!(
        report.lines(),
        vec![
            "",
            " ETF Decline over 3 days:",
            RULE,
            "Code: 513870 | Rate(Today/3 days ago): -20.00% | Rate(1 days ago/3 days ago): -10.00%",
            "Code: 513520 | Rate(Today/3 days ago): -5.00% | Rate(1 days ago/3 days ago): -10.00%",
        ]
    );
}

#[test]
fn compile_agrees_with_recording_one_by_one() {
    let findings = vec![
        Finding { code: String::from("a"), observation: answered(200, &["3", "2"]) },
        Finding { code: String::from("b"), observation: answered(200, &["3"]) },
        Finding { code: String::from("c"), observation: answered(200, &["3", "1"]) },
    ];
    let (compiled, told) = Report::compile(2, ReportMode::Magnitude, &findings);
    let mut stepwise = Report::new(2, ReportMode::Magnitude);
    let mut lines = Vec::new();
    for finding in &findings {
        if let Some(line) = stepwise.record(&finding.code, &finding.observation) {
            lines.push(line);
        }
    }
    assert_eq!(told, lines);
    assert_eq!(compiled.lines(), stepwise.lines());
}

#[test]
fn compile_of_no_findings() {
    let (report, told) = Report::compile(5, ReportMode::SignedChange, &vec![]);
    assert!(told.is_empty());
    assert_eq!(report.lines(), vec!["", HEADING_5, RULE, NOTHING]);
}

#[test]
fn no_number_at_an_end_of_the_window_is_no_fall() {
    assert_eq!(assess(&answered(200, &["nan", "90", "85"]), 3), Verdict::NotDeclined);
    assert_eq!(assess(&answered(200, &["100", "90", "nan"]), 3), Verdict::NotDeclined);
    assert_eq!(assess(&answered(200, &["nan", "nan"]), 2), Verdict::NotDeclined);
    let mut report = Report::new(3, ReportMode::SignedChange);
    assert_eq!(report.record("513520", &answered(200, &["100", "90", "NaN"])), None);
    assert!(report.rows.is_empty());
}

#[test]
fn no_number_at_the_midpoint_shows_as_such() {
    let observation = answered(200, &["100", "nan", "95", "90", "85"]);
    assert_eq!(
        assess(&observation, 5),
        Verdict::Declined { change: between("100", "85"), half_change: Some(between("100", "95")) }
    );
    let observation = answered(200, &["100", "98", "nan", "90", "85"]);
    assert_eq!(
        assess(&observation, 5),
        Verdict::Declined { change: between("100", "85"), half_change: None }
    );
    let mut report = Report::new(5, ReportMode::SignedChange);
    assert_eq!(report.record("513520", &observation), None);
    assert_eq!(
        report.lines()[3],
        "Code: 513520 | Rate(Today/5 days ago): -15.00% | Rate(2 days ago/5 days ago): NaN%"
    );
}

#[test]
fn no_number_at_the_midpoint_after_a_base_of_zero() {
    assert_eq!(
        assess(&answered(200, &["0", "nan", "-1"]), 3),
        Verdict::Declined { change: NO_CHANGE, half_change: Some(NO_CHANGE) }
    );
}

#[test]
fn infinite_close_is_the_largest_price() {
    // from the largest price down to 85
    let observation = answered(200, &["inf", "85"]);
    assert_eq!(
        assess(&observation, 2),
        Verdict::Declined {
            change: Change { rise: 85_000_000 - 1_000_000_000_000_000_000, base: 1_000_000_000_000_000_000 },
            half_change: Some(Change { rise: 0, base: 1_000_000_000_000_000_000 }),
        }
    );
    let mut report = Report::new(2, ReportMode::SignedChange);
    report.record("513520", &observation);
    assert_eq!(
        report.lines()[3],
        "Code: 513520 | Rate(Today/2 days ago): -100.00% | Rate(1 days ago/2 days ago): 0.00%"
    );
}

#[test]
fn soundness_of_changes_and_rows() {
    let widest: i128 = (1 << 64) - 1;
    assert!(NO_CHANGE.is_sound());
    assert!(Change { rise: widest, base: i64::MAX }.is_sound());
    assert!(Change { rise: -widest, base: 1 }.is_sound());
    assert!(!Change { rise: widest + 1, base: 1 }.is_sound());
    assert!(!Change { rise: -widest - 1, base: 1 }.is_sound());
    assert!(!Change { rise: 0, base: 0 }.is_sound());
    assert!(!Change { rise: 0, base: -5 }.is_sound());
    let good = row("a", -5, 1);
    let mut no_half = row("b", -5, 1);
    no_half.half_change = None;
    let mut bad = row("c", -5, 1);
    bad.change = Change { rise: 1, base: 0 };
    let mut bad_half = row("d", -5, 1);
    bad_half.half_change = Some(Change { rise: 1, base: 0 });
    assert!(good.is_sound() && no_half.is_sound());
    assert!(!bad.is_sound() && !bad_half.is_sound());
    assert!(rows_are_sound(&vec![]));
    assert!(rows_are_sound(&vec![row("a", -5, 1), row("b", 7, 0)]));
    assert!(!rows_are_sound(&vec![row("a", -5, 1), bad]));
}

#[test]
fn report_keeps_sound_rows_only() {
    let mut report = Report::new(2, ReportMode::SignedChange);
    assert!(report.is_sound());
    report.record("513520", &answered(200, &["inf", "-inf"]));
    report.record("513350", &answered(200, &["100", "nan"]));
    report.record("513870", &answered(200, &["0.000001", "-1e400"]));
    assert_eq!(report.rows.len(), 2);
    assert!(report.is_sound());
    report.rows.push(Row { code: String::from("x"), change: Change { rise: 0, base: 0 }, half_change: None });
    assert!(!report.is_sound());
}
