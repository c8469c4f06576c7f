//! Line and field splitting for the suite file format.
use vstd::prelude::*;

verus! {

/// Whether a character has Unicode's White_Space property, as `char::is_whitespace` reports it.
pub uninterp spec fn whitespace_of(c: char) -> bool;

/// Relies on `char::is_whitespace`: whether `c` has Unicode's White_Space property.
#[verifier::external_body]
fn is_whitespace(c: char) -> (r: bool)
    ensures
        r == whitespace_of(c),
{
    c.is_whitespace()
}

/// Relies on `String::push`: appends one character at the end.
#[verifier::external_body]
fn push_char(s: &mut String, c: char)
    ensures
        final(s)@ == old(s)@.push(c),
{
    s.push(c)
}

/// A line is blank when it is empty once surrounding whitespace is trimmed,
/// that is, when every character of it is whitespace.
pub open spec fn blank(line: Seq<char>) -> bool {
    forall|i: int| 0 <= i < line.len() ==> whitespace_of(#[trigger] line[i])
}

/// A line as `BufRead::lines` hands it out: a `'\r'` just before the newline is dropped.
pub open spec fn strip_cr(line: Seq<char>) -> Seq<char> {
    if line.len() > 0 && line.last() == '\r' {
        line.drop_last()
    } else {
        line
    }
}

/// Reading `s` from the left: the lines completed so far, and the text after the last newline.
pub open spec fn scan_lines(s: Seq<char>) -> (Seq<Seq<char>>, Seq<char>)
    decreases s.len(),
{
    if s.len() == 0 {
        (seq![], seq![])
    } else {
        let (done, cur) = scan_lines(s.drop_last());
        if s.last() == '\n' {
            (done.push(strip_cr(cur)), seq![])
        } else {
            (done, cur.push(s.last()))
        }
    }
}

/// The lines of a text: split at each newline, without the line terminators;
/// a final line without a newline counts when it is not empty.
pub open spec fn lines_of(s: Seq<char>) -> Seq<Seq<char>> {
    let (done, cur) = scan_lines(s);
    if cur.len() == 0 {
        done
    } else {
        done.push(cur)
    }
}

/// Reading a line from the left: the fields completed so far, and the field being read.
pub open spec fn scan_fields(line: Seq<char>) -> (Seq<Seq<char>>, Seq<char>)
    decreases line.len(),
{
    if line.len() == 0 {
        (seq![], seq![])
    } else {
        let (done, cur) = scan_fields(line.drop_last());
        if line.last() == ',' {
            (done.push(cur), seq![])
        } else {
            (done, cur.push(line.last()))
        }
    }
}

/// The fields of a row line: the pieces between commas, verbatim; never fewer than one.
pub open spec fn fields_of(line: Seq<char>) -> Seq<Seq<char>> {
    let (done, cur) = scan_fields(line);
    done.push(cur)
}

/// Whether a line holds nothing but whitespace.
pub fn is_blank(line: &str) -> (r: bool)
    ensures
        r == blank(line@),
{
    let mut all: bool = true;
    for c in it: line.chars()
        invariant
            it.seq() == line@,
            all == (forall|i: int| 0 <= i < it.index() ==> whitespace_of(#[trigger] line@[i])),
    {
        if !is_whitespace(c) {
            all = false;
        }
    }
    all
}

/// Splits a text into lines, as reading it line by line would.
pub fn split_lines(text: &str) -> (r: Vec<String>)
    ensures
        r.deep_view() == lines_of(text@),
{
    let mut done: Vec<String> = Vec::new();
    let mut cur = String::new();
    // a '\r' read last, held back until it is known whether a newline follows
    let mut pending_cr: bool = false;
    for c in it: text.chars()
        invariant
            it.seq() == text@,
            it.index() <= text@.len(),
            done.deep_view() == scan_lines(text@.take(it.index() as int)).0,
            scan_lines(text@.take(it.index() as int)).1 == if pending_cr {
                cur@.push('\r')
            } else {
                cur@
            },
            !pending_cr ==> cur@.len() == 0 || cur@.last() != '\r',
    {
        let ghost i = it.index() as int;
        assert(text@.take(i + 1).drop_last() == text@.take(i));
        assert(text@.take(i + 1).last() == c);
        if c == '\n' {
            assert(strip_cr(scan_lines(text@.take(i)).1) == cur@) by {
                if pending_cr {
                    assert(cur@.push('\r').drop_last() =~= cur@);
                }
            }
            let line = cur;
            cur = String::new();
            done.push(line);
            pending_cr = false;
        } else if c == '\r' {
            if pending_cr {
                push_char(&mut cur, '\r');
            }
            pending_cr = true;
        } else {
            if pending_cr {
                push_char(&mut cur, '\r');
                pending_cr = false;
            }
            push_char(&mut cur, c);
        }
        assert(done.deep_view() =~= scan_lines(text@.take(i + 1)).0);
    }
    assert(text@.take(text@.len() as int) == text@);
    if pending_cr {
        push_char(&mut cur, '\r');
    }
    if !cur.as_str().is_empty() {
        done.push(cur);
    }
    assert(done.deep_view() =~= lines_of(text@));
    done
}

/// Splits a row line at each comma; the fields are taken verbatim.
pub fn split_fields(line: &str) -> (r: Vec<String>)
    ensures
        r.deep_view() == fields_of(line@),
{
    let mut done: Vec<String> = Vec::new();
    let mut cur = String::new();
    for c in it: line.chars()
        invariant
            it.seq() == line@,
            it.index() <= line@.len(),
            done.deep_view() == scan_fields(line@.take(it.index() as int)).0,
            cur@ == scan_fields(line@.take(it.index() as int)).1,
    {
        let ghost i = it.index() as int;
        assert(line@.take(i + 1).drop_last() == line@.take(i));
        assert(line@.take(i + 1).last() == c);
        if c == ',' {
            let field = cur;
            cur = String::new();
            done.push(field);
        } else {
            push_char(&mut cur, c);
        }
        assert(done.deep_view() =~= scan_fields(line@.take(i + 1)).0);
    }
    assert(line@.take(line@.len() as int) == line@);
    done.push(cur);
    assert(done.deep_view() =~= fields_of(line@));
    done
}

/// A value that fits on one line: it holds no line break.
pub open spec fn single_line(v: Seq<char>) -> bool {
    forall|i: int| 0 <= i < v.len() ==> #[trigger] v[i] != '\n' && v[i] != '\r'
}

/// A value that fits in one field: on one line, and without a comma.
pub open spec fn plain_field(f: Seq<char>) -> bool {
    single_line(f) && forall|i: int| 0 <= i < f.len() ==> #[trigger] f[i] != ','
}

/// The line of a row: its fields joined by commas.
pub open spec fn join_fields(fields: Seq<Seq<char>>) -> Seq<char>
    decreases fields.len(),
{
    if fields.len() == 0 {
        seq![]
    } else if fields.len() == 1 {
        fields[0]
    } else {
        join_fields(fields.drop_last()) + seq![','] + fields.last()
    }
}

/// A text made of lines, each ended by a newline.
pub open spec fn text_of_lines(lines: Seq<Seq<char>>) -> Seq<char>
    decreases lines.len(),
{
    if lines.len() == 0 {
        seq![]
    } else {
        text_of_lines(lines.drop_last()) + lines.last() + seq!['\n']
    }
}

proof fn lemma_scan_lines_append(a: Seq<char>, l: Seq<char>)
    requires
        forall|i: int| 0 <= i < l.len() ==> #[trigger] l[i] != '\n',
    ensures
        scan_lines(a + l) == (scan_lines(a).0, scan_lines(a).1 + l),
    decreases l.len(),
{
    if l.len() == 0 {
        assert(a + l =~= a);
        assert(scan_lines(a).1 + l =~= scan_lines(a).1);
    } else {
        let m = l.drop_last();
        assert((a + l).drop_last() =~= a + m);
        assert((a + l).last() == l.last());
        lemma_scan_lines_append(a, m);
        assert(scan_lines(a).1 + m + seq![l.last()] =~= scan_lines(a).1 + l);
    }
}

/// Splitting a text made of single lines, each ended by a newline, gives those lines back.
pub proof fn lemma_lines_round_trip(lines: Seq<Seq<char>>)
    requires
        forall|i: int| 0 <= i < lines.len() ==> single_line(#[trigger] lines[i]),
    ensures
        scan_lines(text_of_lines(lines)) == (lines, Seq::<char>::empty()),
        lines_of(text_of_lines(lines)) == lines,
    decreases lines.len(),
{
    if lines.len() == 0 {
        assert(lines =~= seq![]);
    } else {
        let rest = lines.drop_last();
        let l = lines.last();
        assert(single_line(lines[lines.len() - 1]));
        lemma_lines_round_trip(rest);
        let t = text_of_lines(rest) + l;
        lemma_scan_lines_append(text_of_lines(rest), l);
        assert((t + seq!['\n']).drop_last() =~= t);
        assert(Seq::<char>::empty() + l =~= l);
        assert(strip_cr(l) == l);
        assert(rest.push(l) =~= lines);
    }
}

proof fn lemma_scan_fields_append(a: Seq<char>, f: Seq<char>)
    requires
        forall|i: int| 0 <= i < f.len() ==> #[trigger] f[i] != ',',
    ensures
        scan_fields(a + f) == (scan_fields(a).0, scan_fields(a).1 + f),
    decreases f.len(),
{
    if f.len() == 0 {
        assert(a + f =~= a);
        assert(scan_fields(a).1 + f =~= scan_fields(a).1);
    } else {
        let m = f.drop_last();
        assert((a + f).drop_last() =~= a + m);
        assert((a + f).last() == f.last());
        lemma_scan_fields_append(a, m);
        assert(scan_fields(a).1 + m + seq![f.last()] =~= scan_fields(a).1 + f);
    }
}

/// Splitting the line of a row whose fields hold no comma gives those fields back.
pub proof fn lemma_fields_round_trip(fields: Seq<Seq<char>>)
    requires
        fields.len() > 0,
        forall|i: int| 0 <= i < fields.len() ==> plain_field(#[trigger] fields[i]),
    ensures
        fields_of(join_fields(fields)) == fields,
    decreases fields.len(),
{
    let l = fields.last();
    assert(plain_field(fields[fields.len() - 1]));
    if fields.len() == 1 {
        lemma_scan_fields_append(seq![], l);
        assert(Seq::<char>::empty() + l =~= l);
        assert(scan_fields(Seq::<char>::empty()) == (Seq::<Seq<char>>::empty(), Seq::<char>::empty()));
        assert(seq![l] =~= fields);
    } else {
        let rest = fields.drop_last();
        lemma_fields_round_trip(rest);
        let j = join_fields(rest) + seq![','];
        assert(j.drop_last() =~= join_fields(rest));
        lemma_scan_fields_append(j, l);
        assert(Seq::<char>::empty() + l =~= l);
        assert(rest.drop_last().push(rest.last()) =~= rest);
        assert(rest.push(l) =~= fields);
    }
}

} // verus!
