//! Test cases and the suite file that lists them.
//!
//! The format is line oriented: a non-blank line holds a query; the non-blank
//! lines after it are its expected rows, fields separated by commas; a blank
//! line ends the case. Nothing is escaped, so a field cannot hold a comma or a
//! line break.
use vstd::prelude::*;
use crate::text::{
    blank, fields_of, join_fields, lines_of, is_blank, plain_field, single_line, split_fields,
    split_lines, text_of_lines, lemma_fields_round_trip, lemma_lines_round_trip,
};

verus! {

/// A case as a value: the query, and the expected rows, each a sequence of fields.
pub type CaseModel = (Seq<char>, Seq<Seq<Seq<char>>>);

/// One query and the rows it is expected to return, in order.
pub struct Test {
    pub query: String,
    pub expected_results: Vec<Vec<String>>,
}

impl View for Test {
    type V = CaseModel;

    open spec fn view(&self) -> CaseModel {
        (self.query@, self.expected_results.deep_view())
    }
}

impl Test {
    pub fn new(query: String, expected_results: Vec<Vec<String>>) -> (r: Test)
        ensures
            r@ == (query@, expected_results.deep_view()),
    {
        Test { query, expected_results }
    }
}

/// The cases of a suite, in the order in which they run.
pub struct Tests {
    pub tests: Vec<Test>,
}

impl View for Tests {
    type V = Seq<CaseModel>;

    open spec fn view(&self) -> Seq<CaseModel> {
        self.tests@.map_values(|t: Test| t@)
    }
}

/// Reading lines from the first: the cases found so far, and whether the last
/// of them is still collecting rows.
pub open spec fn group_lines(lines: Seq<Seq<char>>) -> (Seq<CaseModel>, bool)
    decreases lines.len(),
{
    if lines.len() == 0 {
        (seq![], false)
    } else {
        let (cases, open) = group_lines(lines.drop_last());
        let line = lines.last();
        if blank(line) {
            (cases, false)
        } else if !open {
            (cases.push((line, seq![])), true)
        } else {
            let last = cases.last();
            (cases.update(cases.len() - 1, (last.0, last.1.push(fields_of(line)))), true)
        }
    }
}

/// The cases that a sequence of lines describes.
pub open spec fn suite_of_lines(lines: Seq<Seq<char>>) -> Seq<CaseModel> {
    group_lines(lines).0
}

/// The cases that the text of a suite file describes.
pub open spec fn suite_of_text(text: Seq<char>) -> Seq<CaseModel> {
    suite_of_lines(lines_of(text))
}

/// The lines that write a case: its query, one line per row, and a blank line.
pub open spec fn case_lines(c: CaseModel) -> Seq<Seq<char>> {
    seq![c.0] + c.1.map_values(|r: Seq<Seq<char>>| join_fields(r)) + seq![Seq::<char>::empty()]
}

/// The lines that write a suite, case after case.
pub open spec fn suite_lines(cases: Seq<CaseModel>) -> Seq<Seq<char>>
    decreases cases.len(),
{
    if cases.len() == 0 {
        seq![]
    } else {
        suite_lines(cases.drop_last()) + case_lines(cases.last())
    }
}

/// The text of a suite file that lists `cases`.
pub open spec fn render_suite(cases: Seq<CaseModel>) -> Seq<char> {
    text_of_lines(suite_lines(cases))
}

/// A case that the format can write: a non-blank query on one line, and rows of
/// at least one field each, fields without commas or line breaks, no row line blank.
pub open spec fn writable_case(c: CaseModel) -> bool {
    &&& single_line(c.0)
    &&& !blank(c.0)
    &&& forall|r: int|
        #![trigger c.1[r]]
        0 <= r < c.1.len() ==> {
            &&& c.1[r].len() > 0
            &&& forall|f: int| 0 <= f < c.1[r].len() ==> plain_field(#[trigger] c.1[r][f])
            &&& !blank(join_fields(c.1[r]))
        }
}

/// A text whose lines are all blank describes no case.
pub proof fn lemma_blank_lines_no_cases(lines: Seq<Seq<char>>)
    requires
        forall|i: int| 0 <= i < lines.len() ==> blank(#[trigger] lines[i]),
    ensures
        group_lines(lines) == (Seq::<CaseModel>::empty(), false),
    decreases lines.len(),
{
    if lines.len() > 0 {
        assert(blank(lines[lines.len() - 1]));
        lemma_blank_lines_no_cases(lines.drop_last());
    }
}

/// The first `k` row lines of a writable case, read after its query line, add
/// those rows to the case.
proof fn lemma_group_rows(prefix: Seq<Seq<char>>, c: CaseModel, k: int)
    requires
        !group_lines(prefix).1,
        writable_case(c),
        0 <= k <= c.1.len(),
    ensures
        group_lines(prefix.push(c.0) + c.1.map_values(|r: Seq<Seq<char>>| join_fields(r)).take(k))
            == (group_lines(prefix).0.push((c.0, c.1.take(k))), true),
    decreases k,
{
    let cases = group_lines(prefix).0;
    let row_lines = c.1.map_values(|r: Seq<Seq<char>>| join_fields(r));
    let head = prefix.push(c.0);
    if k == 0 {
        assert(head + row_lines.take(0) =~= head);
        assert(head.drop_last() =~= prefix);
        assert(c.1.take(0) =~= seq![]);
    } else {
        lemma_group_rows(prefix, c, k - 1);
        let row = c.1[k - 1];
        assert(row.len() > 0);
        assert(!blank(join_fields(row)));
        assert forall|f: int| 0 <= f < row.len() implies plain_field(#[trigger] row[f]) by {
            assert(plain_field(c.1[k - 1][f]));
        }
        lemma_fields_round_trip(row);
        assert((head + row_lines.take(k)).drop_last() =~= head + row_lines.take(k - 1));
        assert((head + row_lines.take(k)).last() == join_fields(row));
        assert(c.1.take(k - 1).push(row) =~= c.1.take(k));
        assert(cases.push((c.0, c.1.take(k - 1))).update(
            cases.len() as int,
            (c.0, c.1.take(k - 1).push(row)),
        ) =~= cases.push((c.0, c.1.take(k))));
    }
}

/// The lines of a writable case, read after a closed case, add that case.
proof fn lemma_group_case(prefix: Seq<Seq<char>>, c: CaseModel)
    requires
        !group_lines(prefix).1,
        writable_case(c),
    ensures
        group_lines(prefix + case_lines(c)) == (group_lines(prefix).0.push(c), false),
{
    let row_lines = c.1.map_values(|r: Seq<Seq<char>>| join_fields(r));
    lemma_group_rows(prefix, c, c.1.len() as int);
    assert(row_lines.take(c.1.len() as int) =~= row_lines);
    assert(c.1.take(c.1.len() as int) =~= c.1);
    let full = prefix.push(c.0) + row_lines;
    assert((full.push(Seq::<char>::empty())).drop_last() =~= full);
    assert(prefix + case_lines(c) =~= full.push(Seq::<char>::empty()));
    assert(blank(Seq::<char>::empty()));
}

/// Reading back the lines that write a suite of writable cases gives that suite.
pub proof fn lemma_suite_lines_round_trip(cases: Seq<CaseModel>)
    requires
        forall|i: int| 0 <= i < cases.len() ==> writable_case(#[trigger] cases[i]),
    ensures
        group_lines(suite_lines(cases)) == (cases, false),
    decreases cases.len(),
{
    if cases.len() == 0 {
        assert(cases =~= seq![]);
    } else {
        let rest = cases.drop_last();
        assert(writable_case(cases[cases.len() - 1]));
        lemma_suite_lines_round_trip(rest);
        lemma_group_case(suite_lines(rest), cases.last());
        assert(rest.push(cases.last()) =~= cases);
    }
}

/// Writing a suite of writable cases in the file format and reading the text back
/// gives the same cases, in the same order.
pub proof fn lemma_round_trip(cases: Seq<CaseModel>)
    requires
        forall|i: int| 0 <= i < cases.len() ==> writable_case(#[trigger] cases[i]),
    ensures
        suite_of_text(render_suite(cases)) == cases,
{
    lemma_suite_lines_round_trip(cases);
    lemma_suite_lines_single(cases);
    lemma_lines_round_trip(suite_lines(cases));
}

/// Every line that writes a suite of writable cases is a single line.
proof fn lemma_suite_lines_single(cases: Seq<CaseModel>)
    requires
        forall|i: int| 0 <= i < cases.len() ==> writable_case(#[trigger] cases[i]),
    ensures
        forall|i: int|
            0 <= i < suite_lines(cases).len() ==> single_line(#[trigger] suite_lines(cases)[i]),
    decreases cases.len(),
{
    if cases.len() > 0 {
        let rest = cases.drop_last();
        let c = cases.last();
        assert(writable_case(cases[cases.len() - 1]));
        lemma_suite_lines_single(rest);
        let cl = case_lines(c);
        assert forall|i: int| 0 <= i < cl.len() implies single_line(#[trigger] cl[i]) by {
            if 1 <= i < cl.len() - 1 {
                let row = c.1[i - 1];
                assert forall|f: int| 0 <= f < row.len() implies plain_field(#[trigger] row[f]) by {
                    assert(plain_field(c.1[i - 1][f]));
                }
                lemma_join_single_line(row);
            }
        }
        let sl = suite_lines(cases);
        assert forall|i: int| 0 <= i < sl.len() implies single_line(#[trigger] sl[i]) by {
            if i < suite_lines(rest).len() {
                assert(sl[i] == suite_lines(rest)[i]);
            } else {
                assert(sl[i] == cl[i - suite_lines(rest).len()]);
            }
        }
    }
}

/// Fields on one line join into one line.
proof fn lemma_join_single_line(fields: Seq<Seq<char>>)
    requires
        forall|f: int| 0 <= f < fields.len() ==> plain_field(#[trigger] fields[f]),
    ensures
        single_line(join_fields(fields)),
    decreases fields.len(),
{
    if fields.len() == 1 {
        assert(plain_field(fields[0]));
    } else if fields.len() > 1 {
        let rest = fields.drop_last();
        assert(plain_field(fields[fields.len() - 1]));
        lemma_join_single_line(rest);
        let j = join_fields(fields);
        let a = join_fields(rest) + seq![','];
        assert forall|i: int| 0 <= i < j.len() implies #[trigger] j[i] != '\n' && j[i] != '\r' by {
            if i < join_fields(rest).len() {
                assert(j[i] == join_fields(rest)[i]);
            } else if i == join_fields(rest).len() {
                assert(j[i] == ',');
            } else {
                assert(j[i] == fields.last()[i - a.len()]);
            }
        }
    }
}

impl Tests {
    pub fn new() -> (r: Tests)
        ensures
            r@ == Seq::<CaseModel>::empty(),
    {
        Tests { tests: Vec::new() }
    }

    /// Appends a case at the end of the suite.
    pub fn add_test(&mut self, query: String, expected_results: Vec<Vec<String>>)
        ensures
            final(self)@ == old(self)@.push((query@, expected_results.deep_view())),
    {
        self.tests.push(Test::new(query, expected_results));
        assert(self@ =~= old(self)@.push((query@, expected_results.deep_view())));
    }

    /// Appends the cases that the text of a suite file describes, in file order.
    pub fn read_tests_from_text(&mut self, text: &str)
        ensures
            final(self)@ == old(self)@ + suite_of_text(text@),
    {
        let lines = split_lines(text);
        let ghost ls = lines.deep_view();
        let mut current: Option<Test> = None;
        let mut i: usize = 0;
        while i < lines.len()
            invariant
                0 <= i <= lines.len(),
                ls == lines.deep_view(),
                group_lines(ls.take(i as int)).1 == current.is_some(),
                group_lines(ls.take(i as int)).0 == match current {
                    Some(t) => self@.subrange(old(self)@.len() as int, self@.len() as int).push(t@),
                    None => self@.subrange(old(self)@.len() as int, self@.len() as int),
                },
                old(self)@.len() <= self@.len(),
                self@.subrange(0, old(self)@.len() as int) == old(self)@,
            decreases lines.len() - i,
        {
            let line = &lines[i];
            let ghost before = group_lines(ls.take(i as int));
            let ghost sub = self@.subrange(old(self)@.len() as int, self@.len() as int);
            assert(ls.take(i + 1).drop_last() == ls.take(i as int));
            assert(ls.take(i + 1).last() == line@);
            if is_blank(line.as_str()) {
                match current {
                    Some(t) => {
                        self.add_test(t.query, t.expected_results);
                        assert(self@.subrange(old(self)@.len() as int, self@.len() as int)
                            =~= sub.push(t@));
                    },
                    None => {},
                }
                current = None;
            } else {
                match current {
                    Some(t) => {
                        let mut rows = t.expected_results;
                        let ghost old_rows = rows.deep_view();
                        rows.push(split_fields(line.as_str()));
                        assert(rows.deep_view() =~= old_rows.push(fields_of(line@)));
                        current = Some(Test::new(t.query, rows));
                        assert(before.0.update(before.0.len() - 1, (t@.0, t@.1.push(fields_of(line@))))
                            =~= sub.push((t@.0, t@.1.push(fields_of(line@)))));
                    },
                    None => {
                        let rows: Vec<Vec<String>> = Vec::new();
                        assert(rows.deep_view() =~= Seq::<Seq<Seq<char>>>::empty());
                        current = Some(Test::new(line.clone(), rows));
                    },
                }
            }
            i = i + 1;
            assert(self@.subrange(0, old(self)@.len() as int) =~= old(self)@);
        }
        let ghost sub = self@.subrange(old(self)@.len() as int, self@.len() as int);
        assert(self@ =~= old(self)@ + sub);
        match current {
            Some(t) => {
                self.add_test(t.query, t.expected_results);
            },
            None => {},
        }
        assert(ls.take(lines.len() as int) == ls);
        assert(self@ =~= old(self)@ + suite_of_text(text@));
    }
}

} // verus!
