//! Report rows and the order in which a report lists them.
//!
//! Rows are ranked by their exact change, the deepest fall first. Rows whose
//! changes are the same quotient stay in the order in which they were
//! collected.
use vstd::prelude::*;
use vstd::seq_lib::*;
use crate::decline::{change_le, lemma_change_le_total, lemma_change_le_transitive};
use crate::decline::{hundredths_of, lemma_figures_follow_changes, shown_change, shown_figure};
use crate::decline::{Change, ReportMode};

verus! {

/// One fund that fell over the window, with its change over the whole
/// window and its change up to the midpoint of the window. The second is
/// `None` where the quote at the midpoint is no number.
#[derive(Clone, Debug)]
pub struct Row {
    pub code: String,
    pub change: Change,
    pub half_change: Option<Change>,
}

/// What a row says, as plain values.
pub struct RowView {
    pub code: Seq<char>,
    pub change: Change,
    pub half_change: Option<Change>,
}

impl View for Row {
    type V = RowView;

    open spec fn view(&self) -> RowView {
        RowView { code: self.code@, change: self.change, half_change: self.half_change }
    }
}

impl RowView {
    /// Whether the changes of the row are quotients that can be worked
    /// with.
    pub open spec fn wf(self) -> bool {
        &&& self.change.wf()
        &&& self.half_change matches Some(half) ==> half.wf()
    }
}

/// What a list of rows says, row by row.
pub open spec fn row_views(rows: Seq<Row>) -> Seq<RowView> {
    rows.map_values(|row: Row| row@)
}

/// Whether the changes of every row can be worked with.
pub open spec fn rows_wf(rows: Seq<RowView>) -> bool {
    forall|i: int| 0 <= i < rows.len() ==> (#[trigger] rows[i]).wf()
}

/// Whether no row stands before one with a smaller change.
pub open spec fn is_ordered(rows: Seq<RowView>) -> bool {
    forall|i: int, j: int|
        0 <= i <= j < rows.len() ==> change_le(
            (#[trigger] rows[i]).change,
            (#[trigger] rows[j]).change,
        )
}

/// The first position at or after `from` whose row has a change greater
/// than `change`, or the length of `rows` where there is none.
pub open spec fn slot_from(rows: Seq<RowView>, change: Change, from: int) -> int
    decreases rows.len() - from,
{
    if from < 0 || from >= rows.len() {
        rows.len() as int
    } else if !change_le(rows[from].change, change) {
        from
    } else {
        slot_from(rows, change, from + 1)
    }
}

/// `rows` with `row` put in behind every leading row whose change is no
/// greater than its own.
pub open spec fn place(rows: Seq<RowView>, row: RowView) -> Seq<RowView> {
    rows.insert(slot_from(rows, row.change, 0), row)
}

/// The ranking of `rows`: each row in turn is placed among those collected
/// before it.
pub open spec fn ranked_rows(rows: Seq<RowView>) -> Seq<RowView>
    decreases rows.len(),
{
    if rows.len() == 0 {
        Seq::<RowView>::empty()
    } else {
        place(ranked_rows(rows.drop_last()), rows.last())
    }
}

/// The test whether a row's change is the same quotient as `change`.
pub open spec fn ties_with(change: Change) -> spec_fn(RowView) -> bool {
    |row: RowView| change_le(row.change, change) && change_le(change, row.change)
}

/// The first rows of a list of sound rows are sound.
proof fn lemma_front_wf(rows: Seq<RowView>, count: int)
    requires
        rows_wf(rows),
        0 <= count <= rows.len(),
    ensures
        rows_wf(rows.take(count)),
        count < rows.len() ==> rows[count].wf(),
{
    assert forall|i: int| 0 <= i < count implies (#[trigger] rows.take(count)[i]).wf() by {
        assert(rows.take(count)[i] == rows[i]);
    }
}

proof fn lemma_slot(rows: Seq<RowView>, change: Change, from: int)
    requires
        0 <= from <= rows.len(),
    ensures
        from <= slot_from(rows, change, from) <= rows.len(),
        forall|j: int|
            from <= j < slot_from(rows, change, from) ==> change_le(
                (#[trigger] rows[j]).change,
                change,
            ),
        slot_from(rows, change, from) < rows.len() ==> !change_le(
            rows[slot_from(rows, change, from)].change,
            change,
        ),
    decreases rows.len() - from,
{
    if from < rows.len() && change_le(rows[from].change, change) {
        lemma_slot(rows, change, from + 1);
    }
}

/// In an ordered list, every row from the slot of `row` on has a change
/// that is greater than that of `row`.
proof fn lemma_behind_slot(rows: Seq<RowView>, row: RowView, j: int)
    requires
        rows_wf(rows),
        row.wf(),
        is_ordered(rows),
        slot_from(rows, row.change, 0) <= j < rows.len(),
    ensures
        change_le(row.change, rows[j].change),
        !change_le(rows[j].change, row.change),
{
    lemma_slot(rows, row.change, 0);
    let at = slot_from(rows, row.change, 0);
    assert(rows[at].wf() && rows[j].wf());
    assert(change_le(rows[at].change, rows[j].change));
    lemma_change_le_total(rows[at].change, row.change);
    lemma_change_le_transitive(row.change, rows[at].change, rows[j].change);
    if change_le(rows[j].change, row.change) {
        lemma_change_le_transitive(rows[at].change, rows[j].change, row.change);
    }
}

proof fn lemma_place_ordered(rows: Seq<RowView>, row: RowView)
    requires
        rows_wf(rows),
        row.wf(),
        is_ordered(rows),
    ensures
        is_ordered(place(rows, row)),
        rows_wf(place(rows, row)),
        place(rows, row).len() == rows.len() + 1,
{
    lemma_slot(rows, row.change, 0);
    let at = slot_from(rows, row.change, 0);
    let placed = place(rows, row);
    assert forall|i: int| 0 <= i < placed.len() implies (#[trigger] placed[i]).wf() by {
        if i < at {
            assert(placed[i] == rows[i]);
        } else if i > at {
            assert(placed[i] == rows[i - 1]);
        }
    }
    assert forall|i: int, j: int| 0 <= i <= j < placed.len() implies change_le(
        (#[trigger] placed[i]).change,
        (#[trigger] placed[j]).change,
    ) by {
        if i < at {
            assert(placed[i] == rows[i]);
        } else if i > at {
            assert(placed[i] == rows[i - 1]);
        }
        if j < at {
            assert(placed[j] == rows[j]);
        } else if j > at {
            assert(placed[j] == rows[j - 1]);
            lemma_behind_slot(rows, row, j - 1);
        }
        if i < at && j > at {
            assert(change_le(rows[i].change, rows[j - 1].change));
        }
    }
}

/// A ranking has as many rows as were collected.
pub proof fn lemma_ranked_len(rows: Seq<RowView>)
    ensures
        ranked_rows(rows).len() == rows.len(),
    decreases rows.len(),
{
    if rows.len() > 0 {
        lemma_ranked_len(rows.drop_last());
        lemma_slot(ranked_rows(rows.drop_last()), rows.last().change, 0);
    }
}

/// In a ranking no row stands before one with a smaller change, and every
/// row is as sound as the rows collected.
pub proof fn lemma_ranked_is_ordered(rows: Seq<RowView>)
    requires
        rows_wf(rows),
    ensures
        is_ordered(ranked_rows(rows)),
        rows_wf(ranked_rows(rows)),
    decreases rows.len(),
{
    if rows.len() > 0 {
        let front = rows.drop_last();
        lemma_front_wf(rows, rows.len() - 1);
        assert(front =~= rows.take(rows.len() - 1));
        lemma_ranked_is_ordered(front);
        lemma_place_ordered(ranked_rows(front), rows.last());
    }
}

/// A ranking holds exactly the rows that were collected, each as often as it
/// was collected.
pub proof fn lemma_ranked_is_permutation(rows: Seq<RowView>)
    ensures
        ranked_rows(rows).to_multiset() == rows.to_multiset(),
    decreases rows.len(),
{
    if rows.len() == 0 {
        assert(ranked_rows(rows) =~= rows);
    } else {
        let front = rows.drop_last();
        lemma_ranked_is_permutation(front);
        lemma_slot(ranked_rows(front), rows.last().change, 0);
        to_multiset_insert(
            ranked_rows(front),
            slot_from(ranked_rows(front), rows.last().change, 0),
            rows.last(),
        );
        to_multiset_build(front, rows.last());
        assert(front.push(rows.last()) =~= rows);
    }
}

/// A ranking follows the report's mode from row to row: signed changes
/// never decrease, sizes of falls never increase. Either way the deepest
/// fall comes first. This holds of the exact changes, by which the rows are
/// ranked, and so of the rounded figures that the lines show.
pub proof fn lemma_ranking_follows_mode(rows: Seq<RowView>, mode: ReportMode, i: int, j: int)
    requires
        rows_wf(rows),
        0 <= i <= j < ranked_rows(rows).len(),
    ensures
        mode == ReportMode::SignedChange ==> change_le(
            shown_change(mode, ranked_rows(rows)[i].change),
            shown_change(mode, ranked_rows(rows)[j].change),
        ),
        mode == ReportMode::Magnitude ==> change_le(
            shown_change(mode, ranked_rows(rows)[j].change),
            shown_change(mode, ranked_rows(rows)[i].change),
        ),
        mode == ReportMode::SignedChange ==> shown_figure(
            mode,
            hundredths_of(ranked_rows(rows)[i].change),
        ) <= shown_figure(mode, hundredths_of(ranked_rows(rows)[j].change)),
        mode == ReportMode::Magnitude ==> shown_figure(
            mode,
            hundredths_of(ranked_rows(rows)[i].change),
        ) >= shown_figure(mode, hundredths_of(ranked_rows(rows)[j].change)),
{
    lemma_ranked_is_ordered(rows);
    let a = ranked_rows(rows)[i].change;
    let b = ranked_rows(rows)[j].change;
    assert(change_le(a, b));
    assert(a.wf() && b.wf()) by {
        assert(ranked_rows(rows)[i].wf() && ranked_rows(rows)[j].wf());
    }
    assert((-b.rise) * a.base == -(b.rise * a.base)) by (nonlinear_arith);
    assert((-a.rise) * b.base == -(a.rise * b.base)) by (nonlinear_arith);
    lemma_figures_follow_changes(a, b);
}

/// Rows whose changes are the same quotient stand in a ranking in the order
/// in which they were collected.
pub proof fn lemma_ranked_keeps_ties_in_order(rows: Seq<RowView>, change: Change)
    requires
        rows_wf(rows),
        change.wf(),
    ensures
        ranked_rows(rows).filter(ties_with(change)) == rows.filter(ties_with(change)),
    decreases rows.len(),
{
    let pred = ties_with(change);
    if rows.len() == 0 {
        assert(ranked_rows(rows) =~= rows);
    } else {
        let front = rows.drop_last();
        let row = rows.last();
        let before = ranked_rows(front);
        lemma_front_wf(rows, rows.len() - 1);
        assert(front =~= rows.take(rows.len() - 1));
        lemma_ranked_keeps_ties_in_order(front, change);
        lemma_ranked_is_ordered(front);
        lemma_slot(before, row.change, 0);
        let at = slot_from(before, row.change, 0);
        let head = before.take(at);
        let tail = before.skip(at);
        assert(before =~= head + tail);
        assert(place(before, row) =~= head.push(row) + tail);
        Seq::filter_distributes_over_add(head, tail, pred);
        Seq::filter_distributes_over_add(head.push(row), tail, pred);
        head.lemma_filter_push(row, pred);
        front.lemma_filter_push(row, pred);
        assert(front.push(row) =~= rows);
        if pred(row) {
            assert(tail.all(|other: RowView| !pred(other))) by {
                assert forall|i: int| 0 <= i < tail.len() implies !pred(#[trigger] tail[i]) by {
                    assert(tail[i] == before[at + i]);
                    assert(before[at + i].wf());
                    lemma_behind_slot(before, row, at + i);
                    if pred(tail[i]) {
                        lemma_change_le_transitive(tail[i].change, change, row.change);
                    }
                }
            }
            tail.lemma_all_neg_filter_empty(pred);
            assert(tail.filter(pred) =~= Seq::<RowView>::empty());
            assert(head.filter(pred) + tail.filter(pred) =~= head.filter(pred));
            assert(head.filter(pred).push(row) + tail.filter(pred) =~= head.filter(pred).push(
                row,
            ));
        }
    }
}

impl Row {
    /// Tells whether the changes of the row can be worked with.
    pub fn is_sound(&self) -> (ok: bool)
        ensures
            ok == self@.wf(),
    {
        self.change.is_sound() && match self.half_change {
            Some(half) => half.is_sound(),
            None => true,
        }
    }

    /// A second row that says the same.
    pub fn duplicate(&self) -> (copy: Row)
        ensures
            copy@ == self@,
    {
        Row { code: self.code.clone(), change: self.change, half_change: self.half_change }
    }
}

/// Tells whether the changes of every row can be worked with.
pub fn rows_are_sound(rows: &Vec<Row>) -> (ok: bool)
    ensures
        ok == rows_wf(row_views(rows@)),
{
    let mut i: usize = 0;
    while i < rows.len()
        invariant
            i <= rows.len(),
            forall|k: int| 0 <= k < i ==> (#[trigger] row_views(rows@)[k]).wf(),
        decreases rows.len() - i,
    {
        assert(row_views(rows@)[i as int] == rows@[i as int]@);
        if !rows[i].is_sound() {
            return false;
        }
        i = i + 1;
    }
    true
}

/// Finds where a row with the given change goes in a ranking.
fn slot(rows: &Vec<Row>, change: Change) -> (at: usize)
    requires
        rows_wf(row_views(rows@)),
        change.wf(),
    ensures
        at == slot_from(row_views(rows@), change, 0),
        at <= rows.len(),
{
    let mut at: usize = 0;
    while at < rows.len()
        invariant
            at <= rows.len(),
            rows_wf(row_views(rows@)),
            change.wf(),
            slot_from(row_views(rows@), change, 0) == slot_from(
                row_views(rows@),
                change,
                at as int,
            ),
        ensures
            at <= rows.len(),
            at == slot_from(row_views(rows@), change, 0),
        decreases rows.len() - at,
    {
        assert(row_views(rows@)[at as int] == rows@[at as int]@);
        assert(row_views(rows@)[at as int].wf());
        if !rows[at].change.no_greater_than(&change) {
            break ;
        }
        at = at + 1;
    }
    at
}

/// Ranks rows by their exact change, the deepest fall first; rows whose
/// changes are the same quotient keep their order.
pub fn rank(rows: &Vec<Row>) -> (ranked: Vec<Row>)
    requires
        rows_wf(row_views(rows@)),
    ensures
        row_views(ranked@) == ranked_rows(row_views(rows@)),
{
    let ghost views = row_views(rows@);
    let mut ranked: Vec<Row> = Vec::new();
    let mut i: usize = 0;
    assert(row_views(ranked@) =~= ranked_rows(views.take(0)));
    while i < rows.len()
        invariant
            i <= rows.len(),
            views == row_views(rows@),
            rows_wf(views),
            row_views(ranked@) == ranked_rows(views.take(i as int)),
        decreases rows.len() - i,
    {
        proof {
            lemma_front_wf(views, i as int);
            lemma_ranked_is_ordered(views.take(i as int));
        }
        let row = rows[i].duplicate();
        let at: usize = slot(&ranked, row.change);
        let ghost before = ranked@;
        ranked.insert(at, row);
        proof {
            assert(views.take(i + 1).drop_last() =~= views.take(i as int));
            assert(views.take(i + 1).last() == rows@[i as int]@);
            assert(row_views(ranked@) =~= row_views(before).insert(at as int, row@));
        }
        i = i + 1;
    }
    assert(views.take(i as int) =~= views);
    ranked
}

} // verus!
