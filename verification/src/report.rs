//! The report of one run: which funds it lists, and how it words them.
//!
//! A run hands the report one observation per ticker. The report judges the
//! observation, keeps a row where the fund fell over the window, and says
//! what to tell the operator where the ticker had to be passed over. At the
//! end it gives its lines: a heading, then the rows ranked, or one line that
//! says that there is nothing to list.
use vstd::prelude::*;
use vstd::seq_lib::*;
use vstd::string::*;
use crate::decline::{calculate, exact_change, hundredths_of, shown_change, Change, ReportMode};
use crate::feed::{answered_series, price_series, Observation};
use crate::price::{Price, Quote};
use crate::ranking::{rank, ranked_rows, row_views, rows_are_sound, rows_wf, Row, RowView};
use crate::text::{append_natural, decimal_text, figure_text, figure_to_text, magnitude};
use crate::text::magnitude_of;

verus! {

/// The status of an answer that carries data.
pub const STATUS_OK: u16 = 200;

/// What an observation means for its ticker.
#[derive(Clone, Copy, Debug, PartialEq, Eq, Structural)]
pub enum Verdict {
    /// No answer arrived.
    Unreachable,
    /// The answer's status was not 200.
    HttpStatus { status: u16 },
    /// The answer held fewer prices than the window needs.
    InsufficientData { got: usize },
    /// The price at the end of the window was not below the one at its start.
    NotDeclined,
    /// The fund fell. Both changes start from the first price of the window:
    /// one goes to its last price, the other to the price half a window
    /// before the last, and is `None` where that quote is no number.
    Declined { change: Change, half_change: Option<Change> },
}

/// The position, within a window of `day` prices, of the price that the
/// half-window figure is taken at.
pub open spec fn midpoint(day: nat) -> int {
    day - 1 - day / 2
}

/// Whether the quote `newer` is a price below the price that `older`
/// quotes. No number is neither below nor above anything.
pub open spec fn falls_below(newer: Quote, older: Quote) -> bool {
    &&& newer matches Quote::Number(last)
    &&& older matches Quote::Number(first)
    &&& last.units < first.units
}

/// The change over the whole window of `day` quotes, where both its ends
/// are prices.
pub open spec fn window_change(quotes: Seq<Quote>, day: nat) -> Change
    recommends
        1 <= day <= quotes.len(),
        quotes[0] is Number,
        quotes[day - 1] is Number,
{
    exact_change(quotes[0]->Number_0.units as int, quotes[day - 1]->Number_0.units as int)
}

/// The change from a first price to the quote at the midpoint: the change
/// to that price; where the quote is no number, no number either, unless
/// the first price is not positive and the change is zero by definition.
pub open spec fn change_to(first: Price, quote: Quote) -> Option<Change> {
    match quote {
        Quote::Number(price) => Some(exact_change(first.units as int, price.units as int)),
        Quote::NotANumber => if first.units > 0 {
            None
        } else {
            Some(Change { rise: 0, base: 1 })
        },
    }
}

/// The change from the start of the window to its midpoint; no change for
/// a window of a single day.
pub open spec fn half_window_change(quotes: Seq<Quote>, day: nat) -> Option<Change>
    recommends
        1 <= day <= quotes.len(),
        quotes[0] is Number,
{
    if day > 1 {
        change_to(quotes[0]->Number_0, quotes[midpoint(day)])
    } else {
        Some(Change { rise: 0, base: 1 })
    }
}

/// Whether judging an observation takes prices from the window: it is an
/// answer with status 200.
pub open spec fn reads_window(observation: Observation) -> bool {
    observation matches Observation::Answered { status, .. } && status == STATUS_OK
}

/// The verdict on a price series that came with status 200.
pub open spec fn series_verdict(quotes: Seq<Quote>, day: nat) -> Verdict
    recommends
        day >= 1,
{
    if quotes.len() < day {
        Verdict::InsufficientData { got: quotes.len() as usize }
    } else if !falls_below(quotes[day - 1], quotes[0]) {
        Verdict::NotDeclined
    } else {
        Verdict::Declined {
            change: window_change(quotes, day),
            half_change: half_window_change(quotes, day),
        }
    }
}

/// The verdict on an observation for a window of `day` prices.
pub open spec fn verdict_of(observation: Observation, day: nat) -> Verdict
    recommends
        day >= 1,
{
    match observation {
        Observation::Unreachable { .. } => Verdict::Unreachable,
        Observation::Answered { status, bars } => if status != STATUS_OK {
            Verdict::HttpStatus { status }
        } else {
            series_verdict(answered_series(bars), day)
        },
    }
}

/// The rows after an observation for the ticker `code`: one more where the
/// fund fell, the same rows otherwise.
pub open spec fn collected(
    rows: Seq<RowView>,
    code: Seq<char>,
    observation: Observation,
    day: nat,
) -> Seq<RowView> {
    match verdict_of(observation, day) {
        Verdict::Declined { change, half_change } => rows.push(
            RowView { code, change, half_change },
        ),
        _ => rows,
    }
}

/// What the operator is told about a ticker that was passed over because of
/// a failure; `None` for a ticker that was judged on its prices.
pub open spec fn diagnostic_text(code: Seq<char>, observation: Observation, day: nat) -> Option<
    Seq<char>,
> {
    match verdict_of(observation, day) {
        Verdict::Unreachable => Some(
            "Failed to fetch data for "@ + code + ": "@ + observation->reason@
                + " (No HTTP status available)"@,
        ),
        Verdict::HttpStatus { status } => Some(
            "HTTP "@ + decimal_text(status as nat) + " for code: "@ + code,
        ),
        Verdict::InsufficientData { got } => Some(
            "Not enough data for "@ + code + ": got "@ + decimal_text(got as nat) + " of "@
                + decimal_text(day) + " days"@,
        ),
        _ => None,
    }
}

/// The word that names the figures of a report.
pub open spec fn figure_label(mode: ReportMode) -> Seq<char> {
    match mode {
        ReportMode::SignedChange => "Rate"@,
        ReportMode::Magnitude => "Drop"@,
    }
}

/// The heading of a report over a window of `day` prices.
pub open spec fn heading_text(day: nat) -> Seq<char> {
    " ETF Decline over "@ + decimal_text(day) + " days:"@
}

/// The rule under the heading.
pub open spec fn rule_text() -> Seq<char> {
    "-----------------------------------------"@
}

/// The line of a report that lists no fund.
pub open spec fn no_results_text() -> Seq<char> {
    "No ETF data: no results"@
}

/// The figure that a report in `mode` shows for a change: the change in
/// hundredths of a percent, rounded, with the sign of the change that the
/// mode shows. A change that is rounded to nothing keeps its sign.
pub open spec fn change_text(mode: ReportMode, change: Change) -> Seq<char> {
    figure_text(shown_change(mode, change).rise < 0, magnitude(hundredths_of(change)))
}

/// The figure that a report in `mode` shows for the change up to the
/// midpoint; `NaN` where that change is no number.
pub open spec fn half_change_text(mode: ReportMode, change: Option<Change>) -> Seq<char> {
    match change {
        Some(half) => change_text(mode, half),
        None => "NaN"@,
    }
}

/// The line of one row.
pub open spec fn row_text(day: nat, mode: ReportMode, row: RowView) -> Seq<char> {
    "Code: "@ + row.code + " | "@ + figure_label(mode) + "(Today/"@ + decimal_text(day)
        + " days ago): "@ + change_text(mode, row.change) + "% | "@
        + figure_label(mode) + "("@ + decimal_text(day / 2) + " days ago/"@ + decimal_text(day)
        + " days ago): "@ + half_change_text(mode, row.half_change) + "%"@
}

/// The lines that list `rows`: one line for each row in the order given, or
/// the line that says that there is none.
pub open spec fn listing_text(day: nat, mode: ReportMode, rows: Seq<RowView>) -> Seq<Seq<char>> {
    if rows.len() == 0 {
        seq![no_results_text()]
    } else {
        rows.map_values(|row: RowView| row_text(day, mode, row))
    }
}

/// The lines of a report on the rows collected: an empty line, the heading,
/// the rule, and the listing of the rows ranked.
pub open spec fn report_text(day: nat, mode: ReportMode, rows: Seq<RowView>) -> Seq<Seq<char>> {
    seq![Seq::<char>::empty(), heading_text(day), rule_text()] + listing_text(
        day,
        mode,
        ranked_rows(rows),
    )
}

/// What a list of lines says, line by line.
pub open spec fn line_views(lines: Seq<String>) -> Seq<Seq<char>> {
    lines.map_values(|line: String| line@)
}

/// A ticker together with what its request brought back.
#[derive(Clone, Debug)]
pub struct Finding {
    pub code: String,
    pub observation: Observation,
}

/// Whether an observation shows a fall over a window of `day` prices: the
/// answer has status 200 and at least `day` prices, and the last price of
/// the window is below the first.
pub open spec fn fell(observation: Observation, day: nat) -> bool {
    &&& observation matches Observation::Answered { status, bars }
    &&& status == STATUS_OK
    &&& day <= answered_series(bars).len()
    &&& falls_below(answered_series(bars)[day - 1], answered_series(bars)[0])
}

/// The row of a finding that shows a fall.
pub open spec fn row_of(finding: Finding, day: nat) -> RowView
    recommends
        fell(finding.observation, day),
{
    let prices = answered_series(finding.observation->bars);
    RowView {
        code: finding.code@,
        change: window_change(prices, day),
        half_change: half_window_change(prices, day),
    }
}

/// The rows of a whole run: the rows of those findings that show a fall, in
/// the order of the findings.
pub open spec fn collected_run(findings: Seq<Finding>, day: nat) -> Seq<RowView> {
    findings.filter(|finding: Finding| fell(finding.observation, day)).map_values(
        |finding: Finding| row_of(finding, day),
    )
}

/// What the operator is told in a whole run: the diagnostic of each finding
/// that has one, in the order of the findings.
pub open spec fn diagnostics_run(findings: Seq<Finding>, day: nat) -> Seq<Seq<char>> {
    findings.filter(
        |finding: Finding| diagnostic_text(finding.code@, finding.observation, day) is Some,
    ).map_values(
        |finding: Finding| diagnostic_text(finding.code@, finding.observation, day).unwrap(),
    )
}

/// An observation is judged a fall exactly where it shows one, and its
/// figures are then the changes over the window and up to its midpoint.
pub proof fn lemma_declined_iff_fell(observation: Observation, day: nat)
    requires
        day >= 1,
    ensures
        verdict_of(observation, day) is Declined <==> fell(observation, day),
        verdict_of(observation, day) matches Verdict::Declined { change, half_change } ==> {
            &&& change == window_change(answered_series(observation->bars), day)
            &&& half_change == half_window_change(answered_series(observation->bars), day)
        },
{
}

/// A fund whose price at the end of the window is not below the one at its
/// start adds no row, whatever else its answer holds. Nor does one whose
/// quote at either end is no number.
pub proof fn lemma_flat_or_rising_adds_no_row(
    rows: Seq<RowView>,
    code: Seq<char>,
    observation: Observation,
    day: nat,
)
    requires
        day >= 1,
        observation matches Observation::Answered { bars, .. } && day <= answered_series(
            bars,
        ).len() && !falls_below(answered_series(bars)[day - 1], answered_series(bars)[0]),
    ensures
        collected(rows, code, observation, day) == rows,
{
}

/// An answer with fewer prices than the window needs adds no row and is
/// told to the operator.
pub proof fn lemma_short_series_is_passed_over(
    rows: Seq<RowView>,
    code: Seq<char>,
    observation: Observation,
    day: nat,
)
    requires
        day >= 1,
        observation matches Observation::Answered { bars, .. } && answered_series(bars).len()
            < day,
    ensures
        collected(rows, code, observation, day) == rows,
        diagnostic_text(code, observation, day) is Some,
{
}

/// Taking in one more finding extends the rows and the diagnostics of a run
/// by what that finding adds.
pub proof fn lemma_run_step(findings: Seq<Finding>, finding: Finding, day: nat)
    requires
        day >= 1,
    ensures
        collected_run(findings.push(finding), day) == collected(
            collected_run(findings, day),
            finding.code@,
            finding.observation,
            day,
        ),
        diagnostics_run(findings.push(finding), day) == match diagnostic_text(
            finding.code@,
            finding.observation,
            day,
        ) {
            Some(text) => diagnostics_run(findings, day).push(text),
            None => diagnostics_run(findings, day),
        },
{
    let falls = |finding: Finding| fell(finding.observation, day);
    let told = |finding: Finding|
        diagnostic_text(finding.code@, finding.observation, day) is Some;
    lemma_declined_iff_fell(finding.observation, day);
    findings.lemma_filter_push(finding, falls);
    findings.lemma_filter_push(finding, told);
    findings.filter(falls).lemma_push_map_commute(
        |finding: Finding| row_of(finding, day),
        finding,
    );
    findings.filter(told).lemma_push_map_commute(
        |finding: Finding| diagnostic_text(finding.code@, finding.observation, day).unwrap(),
        finding,
    );
}

/// Every row of a run is the row of a finding that shows a fall.
pub proof fn lemma_listed_rows_fell(findings: Seq<Finding>, day: nat, i: int)
    requires
        0 <= i < collected_run(findings, day).len(),
    ensures
        exists|k: int|
            0 <= k < findings.len() && fell((#[trigger] findings[k]).observation, day)
                && collected_run(findings, day)[i] == row_of(findings[k], day),
{
    let falls = |finding: Finding| fell(finding.observation, day);
    let kept = findings.filter(falls);
    findings.lemma_filter_pred(falls, i);
    assert(kept.contains(kept[i]));
    findings.lemma_filter_contains_rev(falls, kept[i]);
    let k = choose|k: int| 0 <= k < findings.len() && findings[k] == kept[i];
    assert(fell(findings[k].observation, day));
}

/// A run in which no finding shows a fall lists no fund: its report is the
/// heading and the line that says that there is nothing to list.
pub proof fn lemma_no_falls_no_rows(findings: Seq<Finding>, day: nat, mode: ReportMode)
    requires
        forall|k: int| 0 <= k < findings.len() ==> !fell((#[trigger] findings[k]).observation, day),
    ensures
        collected_run(findings, day).len() == 0,
        report_text(day, mode, collected_run(findings, day)) == seq![
            Seq::<char>::empty(),
            heading_text(day),
            rule_text(),
            no_results_text(),
        ],
{
    let falls = |finding: Finding| fell(finding.observation, day);
    assert(findings.all(|finding: Finding| !falls(finding)));
    findings.lemma_all_neg_filter_empty(falls);
    assert(collected_run(findings, day) =~= Seq::<RowView>::empty());
    assert(report_text(day, mode, collected_run(findings, day)) =~= seq![
        Seq::<char>::empty(),
        heading_text(day),
        rule_text(),
        no_results_text(),
    ]);
}

/// A report has one line for each row collected, or one line where there
/// is none, after the three lines of its heading.
pub proof fn lemma_report_length(day: nat, mode: ReportMode, rows: Seq<RowView>)
    ensures
        report_text(day, mode, rows).len() == if rows.len() == 0 {
            4
        } else {
            3 + rows.len()
        },
{
    crate::ranking::lemma_ranked_len(rows);
}

/// The change from a first price to the quote at the midpoint.
pub fn change_until(first: Price, quote: Quote) -> (change: Option<Change>)
    ensures
        change == change_to(first, quote),
        change matches Some(half) ==> half.wf(),
{
    match quote {
        Quote::Number(price) => Some(calculate(first, price)),
        Quote::NotANumber => if first.units > 0 {
            None
        } else {
            Some(Change { rise: 0, base: 1 })
        },
    }
}

/// Tells whether judging an observation takes prices from the window.
pub fn takes_window(observation: &Observation) -> (yes: bool)
    ensures
        yes == reads_window(*observation),
{
    match observation {
        Observation::Unreachable { .. } => false,
        Observation::Answered { status, .. } => *status == STATUS_OK,
    }
}

/// Judges one observation for a window of `day` prices. A window of no day
/// at all can be judged only where no price is taken from it.
pub fn assess(observation: &Observation, day: usize) -> (verdict: Verdict)
    requires
        day >= 1 || !reads_window(*observation),
    ensures
        verdict == verdict_of(*observation, day as nat),
{
    match observation {
        Observation::Unreachable { .. } => Verdict::Unreachable,
        Observation::Answered { status, bars } => {
            if *status != STATUS_OK {
                return Verdict::HttpStatus { status: *status };
            }
            let prices = price_series(bars);
            if prices.len() < day {
                return Verdict::InsufficientData { got: prices.len() };
            }
            match (prices[0], prices[day - 1]) {
                (Quote::Number(first), Quote::Number(last)) => {
                    if last.units >= first.units {
                        Verdict::NotDeclined
                    } else {
                        let change = calculate(first, last);
                        let half_change = if day > 1 {
                            change_until(first, prices[day - 1 - day / 2])
                        } else {
                            Some(Change { rise: 0, base: 1 })
                        };
                        Verdict::Declined { change, half_change }
                    }
                },
                _ => Verdict::NotDeclined,
            }
        },
    }
}

/// Words what the operator is told about a ticker that was passed over
/// because of a failure.
pub fn diagnostic(code: &str, observation: &Observation, day: usize) -> (line: Option<String>)
    requires
        day >= 1 || !reads_window(*observation),
    ensures
        line is Some <==> diagnostic_text(code@, *observation, day as nat) is Some,
        line matches Some(text) ==> diagnostic_text(code@, *observation, day as nat) == Some(
            text@,
        ),
{
    match assess(observation, day) {
        Verdict::Unreachable => {
            let mut text = String::from_str("Failed to fetch data for ");
            text.append(code);
            text.append(": ");
            match observation {
                Observation::Unreachable { reason } => {
                    text.append(reason.as_str());
                },
                _ => {},
            }
            text.append(" (No HTTP status available)");
            Some(text)
        },
        Verdict::HttpStatus { status } => {
            let mut text = String::from_str("HTTP ");
            append_natural(&mut text, status as u128);
            text.append(" for code: ");
            text.append(code);
            Some(text)
        },
        Verdict::InsufficientData { got } => {
            let mut text = String::from_str("Not enough data for ");
            text.append(code);
            text.append(": got ");
            append_natural(&mut text, got as u128);
            text.append(" of ");
            append_natural(&mut text, day as u128);
            text.append(" days");
            Some(text)
        },
        _ => None,
    }
}

/// The word that names the figures of a report.
fn label(mode: ReportMode) -> (word: &'static str)
    ensures
        word@ == figure_label(mode),
{
    match mode {
        ReportMode::SignedChange => "Rate",
        ReportMode::Magnitude => "Drop",
    }
}

/// Appends the figure that a report in `mode` shows for a change.
fn append_figure(text: &mut String, mode: ReportMode, change: Change)
    requires
        change.wf(),
    ensures
        final(text)@ == old(text)@ + change_text(mode, change),
{
    let rounded: i128 = change.hundredths();
    let negative = match mode {
        ReportMode::SignedChange => change.rise < 0,
        ReportMode::Magnitude => change.rise > 0,
    };
    let figure = figure_to_text(negative, magnitude_of(rounded));
    text.append(figure.as_str());
}

/// Words the line of one row.
pub fn row_line(day: usize, mode: ReportMode, row: &Row) -> (line: String)
    requires
        row@.wf(),
    ensures
        line@ == row_text(day as nat, mode, row@),
{
    let mut line = String::from_str("Code: ");
    line.append(row.code.as_str());
    line.append(" | ");
    line.append(label(mode));
    line.append("(Today/");
    append_natural(&mut line, day as u128);
    line.append(" days ago): ");
    append_figure(&mut line, mode, row.change);
    line.append("% | ");
    line.append(label(mode));
    line.append("(");
    append_natural(&mut line, (day / 2) as u128);
    line.append(" days ago/");
    append_natural(&mut line, day as u128);
    line.append(" days ago): ");
    match row.half_change {
        Some(half) => {
            append_figure(&mut line, mode, half);
        },
        None => {
            line.append("NaN");
        },
    }
    line.append("%");
    line
}

/// The state of a run: the window, the mode, and the rows collected so far
/// in the order of their tickers.
#[derive(Clone, Debug)]
pub struct Report {
    pub day: usize,
    pub mode: ReportMode,
    pub rows: Vec<Row>,
}

impl Report {
    /// A report over a window of `day` prices that lists no fund yet.
    pub fn new(day: usize, mode: ReportMode) -> (report: Report)
        ensures
            report.day == day,
            report.mode == mode,
            report.rows@.len() == 0,
    {
        Report { day, mode, rows: Vec::new() }
    }

    /// Takes in the observation for the ticker `code`: keeps a row where the
    /// fund fell over the window, and returns what to tell the operator
    /// where the ticker was passed over because of a failure.
    pub fn record(&mut self, code: &str, observation: &Observation) -> (line: Option<String>)
        requires
            old(self).day >= 1 || !reads_window(*observation),
        ensures
            final(self).day == old(self).day,
            final(self).mode == old(self).mode,
            rows_wf(row_views(old(self).rows@)) ==> rows_wf(row_views(final(self).rows@)),
            row_views(final(self).rows@) == collected(
                row_views(old(self).rows@),
                code@,
                *observation,
                old(self).day as nat,
            ),
            line is Some <==> diagnostic_text(code@, *observation, old(self).day as nat) is Some,
            line matches Some(text) ==> diagnostic_text(code@, *observation, old(self).day as nat)
                == Some(text@),
    {
        match assess(observation, self.day) {
            Verdict::Declined { change, half_change } => {
                let ghost before = self.rows@;
                let row = Row { code: String::from_str(code), change, half_change };
                self.rows.push(row);
                assert(row_views(self.rows@) =~= row_views(before).push(row@));
                assert(row@.wf());
                assert(rows_wf(row_views(before)) ==> rows_wf(row_views(self.rows@))) by {
                    if rows_wf(row_views(before)) {
                        assert forall|i: int| 0 <= i < row_views(self.rows@).len() implies (
                        #[trigger] row_views(self.rows@)[i]).wf() by {
                            if i < before.len() {
                                assert(row_views(self.rows@)[i] == row_views(before)[i]);
                            }
                        }
                    }
                }
                None
            },
            _ => diagnostic(code, observation, self.day),
        }
    }

    /// Takes in the findings of a whole run in their order. Returns the
    /// report and what to tell the operator.
    pub fn compile(day: usize, mode: ReportMode, findings: &Vec<Finding>) -> (outcome: (
        Report,
        Vec<String>,
    ))
        requires
            day >= 1,
        ensures
            outcome.0.day == day,
            outcome.0.mode == mode,
            rows_wf(row_views(outcome.0.rows@)),
            row_views(outcome.0.rows@) == collected_run(findings@, day as nat),
            line_views(outcome.1@) == diagnostics_run(findings@, day as nat),
    {
        let mut report = Report::new(day, mode);
        let mut told: Vec<String> = Vec::new();
        let mut i: usize = 0;
        assert(findings@.take(0) =~= Seq::<Finding>::empty());
        assert(row_views(report.rows@) =~= collected_run(findings@.take(0), day as nat));
        assert(line_views(told@) =~= diagnostics_run(findings@.take(0), day as nat));
        while i < findings.len()
            invariant
                i <= findings.len(),
                day >= 1,
                report.day == day,
                report.mode == mode,
                rows_wf(row_views(report.rows@)),
                row_views(report.rows@) == collected_run(findings@.take(i as int), day as nat),
                line_views(told@) == diagnostics_run(findings@.take(i as int), day as nat),
            decreases findings.len() - i,
        {
            let finding = &findings[i];
            proof {
                lemma_run_step(findings@.take(i as int), *finding, day as nat);
                assert(findings@.take(i + 1) =~= findings@.take(i as int).push(*finding));
            }
            match report.record(finding.code.as_str(), &finding.observation) {
                Some(line) => {
                    let ghost before = told@;
                    told.push(line);
                    assert(line_views(told@) =~= line_views(before).push(line@));
                },
                None => {},
            }
            i = i + 1;
        }
        assert(findings@.take(i as int) =~= findings@);
        (report, told)
    }

    /// Tells whether the changes of every row collected can be worked with,
    /// as those of every row are that the report itself has kept.
    pub fn is_sound(&self) -> (ok: bool)
        ensures
            ok == rows_wf(row_views(self.rows@)),
    {
        rows_are_sound(&self.rows)
    }

    /// The rows collected, ranked with the deepest fall first.
    pub fn ranked(&self) -> (rows: Vec<Row>)
        requires
            rows_wf(row_views(self.rows@)),
        ensures
            row_views(rows@) == ranked_rows(row_views(self.rows@)),
    {
        rank(&self.rows)
    }

    /// The lines of the report.
    pub fn lines(&self) -> (lines: Vec<String>)
        requires
            rows_wf(row_views(self.rows@)),
        ensures
            line_views(lines@) == report_text(self.day as nat, self.mode, row_views(self.rows@)),
    {
        let ranked = rank(&self.rows);
        let ghost listed = row_views(ranked@);
        proof {
            crate::ranking::lemma_ranked_is_ordered(row_views(self.rows@));
        }
        let ghost day = self.day as nat;
        let ghost head = seq![Seq::<char>::empty(), heading_text(day), rule_text()];
        let mut heading = String::from_str(" ETF Decline over ");
        append_natural(&mut heading, self.day as u128);
        heading.append(" days:");
        let mut lines: Vec<String> = Vec::new();
        lines.push(String::new());
        lines.push(heading);
        lines.push(String::from_str("-----------------------------------------"));
        assert(line_views(lines@) =~= head);
        if ranked.len() == 0 {
            lines.push(String::from_str("No ETF data: no results"));
            assert(line_views(lines@) =~= head + listing_text(day, self.mode, listed));
            return lines;
        }
        let mut i: usize = 0;
        while i < ranked.len()
            invariant
                i <= ranked.len(),
                listed == row_views(ranked@),
                rows_wf(listed),
                day == self.day as nat,
                line_views(lines@) == head + listed.take(i as int).map_values(
                    |row: RowView| row_text(day, self.mode, row),
                ),
            decreases ranked.len() - i,
        {
            assert(listed[i as int] == ranked@[i as int]@);
            assert(listed[i as int].wf());
            let line = row_line(self.day, self.mode, &ranked[i]);
            let ghost before = lines@;
            lines.push(line);
            proof {
                assert(listed[i as int] == ranked@[i as int]@);
                assert(line_views(lines@) =~= line_views(before).push(line@));
                assert(listed.take(i + 1) =~= listed.take(i as int).push(listed[i as int]));
                assert(line_views(lines@) =~= head + listed.take(i + 1).map_values(
                    |row: RowView| row_text(day, self.mode, row),
                ));
            }
            i = i + 1;
        }
        assert(listed.take(i as int) =~= listed);
        lines
    }
}

} // verus!
