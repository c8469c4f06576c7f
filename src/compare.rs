//! Judging one case: the rows a server returned against the recorded ones.
//!
//! Rows are paired by position and cells by column; every value is compared as
//! text, and a cell that is missing or has no text (NULL) reads as the empty
//! string.
use vstd::prelude::*;
use crate::suite::Test;

verus! {

/// Rows as returned by a server: each cell holds its text, or nothing when it has none.
pub type ActualRows = Seq<Seq<Option<Seq<char>>>>;

/// Rows as recorded in a suite file.
pub type ExpectedRows = Seq<Seq<Seq<char>>>;

/// How a case ended.
#[derive(Debug)]
pub enum CaseOutcome {
    /// Every row and cell matched; `rows` rows came back.
    Passed { rows: usize },
    /// The number of rows differs, and nothing else was found wrong first.
    RowCountMismatch { expected_rows: usize, actual_rows: usize },
    /// The first returned row and the first recorded row differ in width.
    ColumnCountMismatch { expected_columns: usize, actual_columns: usize },
    /// The first cell, in row-major order, whose text differs from the recorded field.
    ValueMismatch { row: usize, column: usize, expected: String, actual: String },
    /// The query could not be run, or its rows could not be read.
    QueryFailed { message: String },
}

/// The text of cell `j` of a returned row: empty when the cell is missing or holds no text.
pub open spec fn cell_text(row: Seq<Option<Seq<char>>>, j: int) -> Seq<char> {
    if 0 <= j < row.len() {
        match row[j] {
            Some(s) => s,
            None => Seq::empty(),
        }
    } else {
        Seq::empty()
    }
}

/// Position `(i, j)` is compared: row `i` was both returned and recorded, and the
/// recorded row has a field `j`.
pub open spec fn compared(e: ExpectedRows, a: ActualRows, i: int, j: int) -> bool {
    0 <= i < e.len() && i < a.len() && 0 <= j < e[i].len()
}

pub open spec fn cell_agrees(e: ExpectedRows, a: ActualRows, i: int, j: int) -> bool {
    e[i][j] == cell_text(a[i], j)
}

/// Every compared position before `(i, j)` in row-major order agrees.
pub open spec fn agree_before(e: ExpectedRows, a: ActualRows, i: int, j: int) -> bool {
    forall|i2: int, j2: int|
        #![trigger e[i2][j2], a[i2]]
        compared(e, a, i2, j2) && (i2 < i || (i2 == i && j2 < j)) ==> cell_agrees(e, a, i2, j2)
}

/// Every compared position agrees.
pub open spec fn all_agree(e: ExpectedRows, a: ActualRows) -> bool {
    forall|i: int, j: int|
        #![trigger e[i][j], a[i]]
        compared(e, a, i, j) ==> cell_agrees(e, a, i, j)
}

/// The first returned row is as wide as the first recorded row.
pub open spec fn widths_agree(e: ExpectedRows, a: ActualRows) -> bool {
    a[0].len() == e[0].len()
}

/// `o` is the verdict on a case that recorded `e` and got back `a`: an empty
/// result passes only against no recorded rows; then the widths of the first
/// rows are compared; then the cells, in row-major order; the number of rows last.
pub open spec fn judged(e: ExpectedRows, a: ActualRows, o: CaseOutcome) -> bool {
    match o {
        CaseOutcome::Passed { rows } => {
            &&& rows == a.len()
            &&& a.len() == e.len()
            &&& a.len() > 0 ==> widths_agree(e, a)
            &&& all_agree(e, a)
        },
        CaseOutcome::RowCountMismatch { expected_rows, actual_rows } => {
            &&& expected_rows == e.len()
            &&& actual_rows == a.len()
            &&& e.len() != a.len()
            &&& a.len() > 0 && e.len() > 0 ==> widths_agree(e, a) && all_agree(e, a)
        },
        CaseOutcome::ColumnCountMismatch { expected_columns, actual_columns } => {
            &&& a.len() > 0 && e.len() > 0
            &&& expected_columns == e[0].len()
            &&& actual_columns == a[0].len()
            &&& expected_columns != actual_columns
        },
        CaseOutcome::ValueMismatch { row, column, expected, actual } => {
            &&& a.len() > 0 && e.len() > 0
            &&& widths_agree(e, a)
            &&& compared(e, a, row as int, column as int)
            &&& !cell_agrees(e, a, row as int, column as int)
            &&& agree_before(e, a, row as int, column as int)
            &&& expected@ == e[row as int][column as int]
            &&& actual@ == cell_text(a[row as int], column as int)
        },
        CaseOutcome::QueryFailed { .. } => false,
    }
}

/// A query that returns no rows passes exactly when no rows were recorded for it.
pub proof fn lemma_empty_result(e: ExpectedRows, a: ActualRows, o: CaseOutcome)
    requires
        a.len() == 0,
        judged(e, a, o),
    ensures
        (o is Passed) <==> e.len() == 0,
        !(o is Passed) ==> o == (CaseOutcome::RowCountMismatch {
            expected_rows: e.len() as usize,
            actual_rows: 0,
        }),
{
}

/// When the first returned row and the first recorded row differ in width, the
/// case fails on the widths, whatever the cells hold.
pub proof fn lemma_width_checked_first(e: ExpectedRows, a: ActualRows, o: CaseOutcome)
    requires
        a.len() > 0,
        e.len() > 0,
        a[0].len() != e[0].len(),
        judged(e, a, o),
    ensures
        o == (CaseOutcome::ColumnCountMismatch {
            expected_columns: e[0].len() as usize,
            actual_columns: a[0].len() as usize,
        }),
{
}

/// When every row both returned and recorded matches, but more or fewer rows came
/// back than were recorded, the case fails on the number of rows, not on a value.
pub proof fn lemma_row_count_reported_last(e: ExpectedRows, a: ActualRows, o: CaseOutcome)
    requires
        a.len() > 0,
        e.len() > 0,
        a.len() != e.len(),
        widths_agree(e, a),
        all_agree(e, a),
        judged(e, a, o),
    ensures
        o == (CaseOutcome::RowCountMismatch {
            expected_rows: e.len() as usize,
            actual_rows: a.len() as usize,
        }),
{
}

/// The verdict on a case is determined by the rows: two verdicts on the same rows
/// are the same variant, with the same counts, position and texts.
pub proof fn lemma_verdict_unique(e: ExpectedRows, a: ActualRows, o1: CaseOutcome, o2: CaseOutcome)
    requires
        judged(e, a, o1),
        judged(e, a, o2),
    ensures
        match (o1, o2) {
            (CaseOutcome::Passed { rows: r1 }, CaseOutcome::Passed { rows: r2 }) => r1 == r2,
            (
                CaseOutcome::RowCountMismatch { expected_rows: e1, actual_rows: a1 },
                CaseOutcome::RowCountMismatch { expected_rows: e2, actual_rows: a2 },
            ) => e1 == e2 && a1 == a2,
            (
                CaseOutcome::ColumnCountMismatch { expected_columns: e1, actual_columns: a1 },
                CaseOutcome::ColumnCountMismatch { expected_columns: e2, actual_columns: a2 },
            ) => e1 == e2 && a1 == a2,
            (
                CaseOutcome::ValueMismatch { row: r1, column: c1, expected: e1, actual: a1 },
                CaseOutcome::ValueMismatch { row: r2, column: c2, expected: e2, actual: a2 },
            ) => r1 == r2 && c1 == c2 && e1@ == e2@ && a1@ == a2@,
            _ => false,
        },
{
}

/// The rows that a server holding exactly the recorded data returns: every field
/// comes back as the same text.
pub open spec fn seeded(e: ExpectedRows) -> ActualRows {
    e.map_values(|r: Seq<Seq<char>>| r.map_values(|f: Seq<char>| Some(f)))
}

/// Rows that are the recorded ones, field for field, pass.
pub proof fn lemma_matching_rows_pass(e: ExpectedRows, o: CaseOutcome)
    requires
        judged(e, seeded(e), o),
    ensures
        o is Passed,
{
    let a = seeded(e);
    assert forall|i: int, j: int| #![trigger e[i][j], a[i]] compared(e, a, i, j) implies cell_agrees(
        e,
        a,
        i,
        j,
    ) by {
        assert(a[i][j] == Some(e[i][j]));
    }
}

impl CaseOutcome {
    pub fn is_pass(&self) -> (r: bool)
        ensures
            r == (*self is Passed),
    {
        match self {
            CaseOutcome::Passed { .. } => true,
            _ => false,
        }
    }
}

/// The text of cell `j` of a returned row.
pub fn cell_text_at(row: &Vec<Option<String>>, j: usize) -> (r: String)
    ensures
        r@ == cell_text(row.deep_view(), j as int),
{
    if j < row.len() {
        match &row[j] {
            Some(s) => s.clone(),
            None => String::new(),
        }
    } else {
        String::new()
    }
}

impl Test {
    /// Judges the rows that this case's query returned.
    pub fn check(&self, actual: &Vec<Vec<Option<String>>>) -> (o: CaseOutcome)
        ensures
            judged(self.expected_results.deep_view(), actual.deep_view(), o),
    {
        let expected = &self.expected_results;
        let ghost e = expected.deep_view();
        let ghost a = actual.deep_view();
        if actual.len() == 0 {
            if expected.len() == 0 {
                return CaseOutcome::Passed { rows: 0 };
            }
            return CaseOutcome::RowCountMismatch { expected_rows: expected.len(), actual_rows: 0 };
        }
        if expected.len() == 0 {
            return CaseOutcome::RowCountMismatch { expected_rows: 0, actual_rows: actual.len() };
        }
        if actual[0].len() != expected[0].len() {
            return CaseOutcome::ColumnCountMismatch {
                expected_columns: expected[0].len(),
                actual_columns: actual[0].len(),
            };
        }
        let paired: usize = if actual.len() < expected.len() {
            actual.len()
        } else {
            expected.len()
        };
        let mut i: usize = 0;
        while i < paired
            invariant
                e == expected.deep_view(),
                e == self.expected_results.deep_view(),
                a == actual.deep_view(),
                paired <= actual.len(),
                paired <= expected.len(),
                paired == actual.len() || paired == expected.len(),
                0 <= i <= paired,
                a.len() > 0 && e.len() > 0 && widths_agree(e, a),
                agree_before(e, a, i as int, 0),
            decreases paired - i,
        {
            let row = &actual[i];
            let fields = &expected[i];
            let mut j: usize = 0;
            while j < fields.len()
                invariant
                    e == expected.deep_view(),
                    e == self.expected_results.deep_view(),
                    a == actual.deep_view(),
                    i < paired <= actual.len(),
                    paired <= expected.len(),
                    row == actual[i as int],
                    fields == expected[i as int],
                    0 <= j <= fields.len(),
                    a.len() > 0 && e.len() > 0 && widths_agree(e, a),
                    agree_before(e, a, i as int, j as int),
                decreases fields.len() - j,
            {
                let text = cell_text_at(row, j);
                assert(e[i as int][j as int] == fields[j as int]@);
                assert(a[i as int] == row.deep_view());
                if !(fields[j] == text) {
                    return CaseOutcome::ValueMismatch {
                        row: i,
                        column: j,
                        expected: fields[j].clone(),
                        actual: text,
                    };
                }
                j = j + 1;
            }
            i = i + 1;
        }
        if actual.len() != expected.len() {
            return CaseOutcome::RowCountMismatch {
                expected_rows: expected.len(),
                actual_rows: actual.len(),
            };
        }
        CaseOutcome::Passed { rows: actual.len() }
    }
}

} // verus!
