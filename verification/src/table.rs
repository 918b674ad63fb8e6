//! The report as a table of text.

use vstd::prelude::*;
use vstd::string::{StrSliceExecFns, StringExecFns};
use crate::report::{lists, Report};
use crate::statistics::Statistics;

verus! {

/// The width of each column.
pub const COLUMN_WIDTH: usize = 16;

/// The character of a decimal digit.
pub open spec fn digit(value: nat) -> char {
    if value == 0 {
        '0'
    } else if value == 1 {
        '1'
    } else if value == 2 {
        '2'
    } else if value == 3 {
        '3'
    } else if value == 4 {
        '4'
    } else if value == 5 {
        '5'
    } else if value == 6 {
        '6'
    } else if value == 7 {
        '7'
    } else if value == 8 {
        '8'
    } else {
        '9'
    }
}

/// A number in decimal digits, without leading zeros.
pub open spec fn decimal(value: nat) -> Seq<char>
    decreases value,
{
    if value < 10 {
        seq![digit(value)]
    } else {
        decimal(value / 10).push(digit(value % 10))
    }
}

/// `count` spaces.
pub open spec fn spaces(count: int) -> Seq<char> {
    Seq::new(
        if count > 0 {
            count as nat
        } else {
            0
        },
        |i: int| ' ',
    )
}

/// `text` with spaces behind it up to `width` characters; longer text is
/// left as it is.
pub open spec fn left_aligned(text: Seq<char>, width: nat) -> Seq<char> {
    text + spaces(width - text.len())
}

/// `text` with spaces before it up to `width` characters; longer text is
/// left as it is.
pub open spec fn right_aligned(text: Seq<char>, width: nat) -> Seq<char> {
    spaces(width - text.len()) + text
}

/// One line of the table: three cells and their separators.
pub open spec fn table_line(first: Seq<char>, second: Seq<char>, third: Seq<char>) -> Seq<char> {
    left_aligned(first, COLUMN_WIDTH as nat) + " | "@ + right_aligned(second, COLUMN_WIDTH as nat)
        + " | "@ + right_aligned(third, COLUMN_WIDTH as nat) + "|\n"@
}

/// The lines of `rows`, one for each type.
pub open spec fn table_body(rows: Seq<(String, Statistics)>) -> Seq<char>
    decreases rows.len(),
{
    if rows.len() == 0 {
        Seq::empty()
    } else {
        table_body(rows.drop_last()) + table_line(
            rows.last().0@,
            decimal(rows.last().1@.cardinality),
            decimal(rows.last().1@.number_of_bytes),
        )
    }
}

/// The whole table: the headings, a rule, a line for each row, a rule, an
/// empty line, and the number of rejected records.
pub open spec fn table(rows: Seq<(String, Statistics)>, errors: nat) -> Seq<char> {
    table_line("Type"@, "Cardinality"@, "Bytes"@)
        + "-------------------------------------------------------\n"@ + table_body(rows)
        + "-------------------------------------------------------\n\n"@
        + "Number of erroneous objects: "@ + decimal(errors) + "\n"@
}

/// The text of one decimal digit.
fn digit_text(value: usize) -> (text: &'static str)
    requires
        value < 10,
    ensures
        text@ == seq![digit(value as nat)],
{
    proof {
        reveal_strlit("0");
        reveal_strlit("1");
        reveal_strlit("2");
        reveal_strlit("3");
        reveal_strlit("4");
        reveal_strlit("5");
        reveal_strlit("6");
        reveal_strlit("7");
        reveal_strlit("8");
        reveal_strlit("9");
    }
    let text = if value == 0 {
        "0"
    } else if value == 1 {
        "1"
    } else if value == 2 {
        "2"
    } else if value == 3 {
        "3"
    } else if value == 4 {
        "4"
    } else if value == 5 {
        "5"
    } else if value == 6 {
        "6"
    } else if value == 7 {
        "7"
    } else if value == 8 {
        "8"
    } else {
        "9"
    };
    assert(text@ =~= seq![digit(value as nat)]);
    text
}

/// Writes a number in decimal digits.
pub fn decimal_text(value: usize) -> (text: String)
    ensures
        text@ == decimal(value as nat),
    decreases value,
{
    if value < 10 {
        digit_text(value).to_owned()
    } else {
        let mut text = decimal_text(value / 10);
        text.append(digit_text(value % 10));
        assert(text@ =~= decimal(value as nat));
        text
    }
}

/// Appends `count` spaces to `out`.
fn push_spaces(out: &mut String, count: usize)
    ensures
        final(out)@ == old(out)@ + spaces(count as int),
{
    proof {
        reveal_strlit(" ");
    }
    let mut i: usize = 0;
    assert(out@ =~= old(out)@ + spaces(0));
    while i < count
        invariant
            i <= count,
            out@ == old(out)@ + spaces(i as int),
            " "@.len() == 1,
            " "@[0] == ' ',
        decreases count - i,
    {
        out.append(" ");
        assert(out@ =~= old(out)@ + spaces(i + 1));
        i += 1;
    }
}

/// How many spaces fill `text` up to `width` characters.
fn padding(text: &str, width: usize) -> (count: usize)
    ensures
        spaces(count as int) == spaces(width - text@.len()),
{
    let length = text.unicode_len();
    if length < width {
        width - length
    } else {
        assert(spaces(0) =~= spaces(width - text@.len()));
        0
    }
}

/// Appends one line of the table to `out`.
fn push_line(out: &mut String, first: &str, second: &str, third: &str)
    ensures
        final(out)@ == old(out)@ + table_line(first@, second@, third@),
{
    out.append(first);
    push_spaces(out, padding(first, COLUMN_WIDTH));
    out.append(" | ");
    push_spaces(out, padding(second, COLUMN_WIDTH));
    out.append(second);
    out.append(" | ");
    push_spaces(out, padding(third, COLUMN_WIDTH));
    out.append(third);
    out.append("|\n");
    assert(out@ =~= old(out)@ + table_line(first@, second@, third@));
}

/// Writes `rows` and the number of rejected records as a table, the rows in
/// the order given.
pub fn render_table(rows: &Vec<(String, Statistics)>, errors: usize) -> (text: String)
    ensures
        text@ == table(rows@, errors as nat),
{
    let mut out = String::new();
    push_line(&mut out, "Type", "Cardinality", "Bytes");
    out.append("-------------------------------------------------------\n");
    let ghost head = out@;
    assert(out@ =~= head + table_body(rows@.take(0)));
    let mut i: usize = 0;
    while i < rows.len()
        invariant
            i <= rows@.len(),
            out@ == head + table_body(rows@.take(i as int)),
        decreases rows@.len() - i,
    {
        let cardinality = decimal_text(rows[i].1.cardinality());
        let number_of_bytes = decimal_text(rows[i].1.number_of_bytes());
        push_line(&mut out, rows[i].0.as_str(), cardinality.as_str(), number_of_bytes.as_str());
        proof {
            let next = rows@.take(i + 1);
            assert(next.drop_last() =~= rows@.take(i as int));
            assert(next.last() == rows@[i as int]);
            assert(out@ =~= head + table_body(next));
        }
        i += 1;
    }
    assert(rows@.take(rows@.len() as int) =~= rows@);
    out.append("-------------------------------------------------------\n\n");
    out.append("Number of erroneous objects: ");
    let count = decimal_text(errors);
    out.append(count.as_str());
    out.append("\n");
    assert(out@ =~= table(rows@, errors as nat));
    out
}

impl Report {
    /// Writes the report as a table with one line for each type. The order
    /// of the lines has no meaning.
    pub fn render(&self) -> (text: String)
        ensures
            exists|rows: Seq<(String, Statistics)>| #[trigger]
                lists(rows, self@.histogram) && text@ == table(rows, self@.errors),
    {
        let rows = self.rows();
        render_table(&rows, self.errors())
    }
}

} // verus!
