//! The report of a build: a row for every chosen item, and a row of totals.

use vstd::prelude::*;
use vstd::string::StringExecFns;
use crate::items::Item;
use crate::optimizer::{
    Build, OptimizeError, Quantity, Requirements, SolverOutcome, feasible, interpret,
    lemma_term_fits, lemma_total_grows, measure, total,
};

verus! {

/// One chosen item with the number of copies.
#[derive(Clone, Debug, PartialEq, Eq)]
pub struct Row {
    pub count: u64,
    pub name: String,
    pub cost: u64,
    pub ad: u64,
    pub ap: u64,
    pub asp: u64,
    pub ms: u64,
}

/// The rows of a build and its totals. The cost and each stat count every
/// copy.
#[derive(Clone, Debug, PartialEq, Eq)]
pub struct Report {
    pub rows: Vec<Row>,
    pub cost: u128,
    pub ad: u128,
    pub ap: u128,
    pub asp: u128,
    pub ms: u128,
}

/// The row of `item` taken `count` times.
pub open spec fn row_of(item: Item, count: i64) -> Row {
    Row {
        count: count as u64,
        name: item.name,
        cost: item.cost,
        ad: item.ad,
        ap: item.ap,
        asp: item.asp,
        ms: item.ms,
    }
}

/// The rows of the items among the first `n` whose count is positive, in the
/// items' order.
pub open spec fn rows_upto(items: Seq<Item>, counts: Seq<i64>, n: int) -> Seq<Row>
    decreases n,
{
    if n <= 0 {
        Seq::empty()
    } else {
        let before = rows_upto(items, counts, n - 1);
        if counts[n - 1] > 0 {
            before.push(row_of(items[n - 1], counts[n - 1]))
        } else {
            before
        }
    }
}

/// Counts that can be tabulated: one for each item, none negative, and no
/// more copies in all than eight bytes count.
pub open spec fn countable(items: Seq<Item>, counts: Seq<i64>) -> bool {
    &&& counts.len() == items.len()
    &&& forall|i: int| 0 <= i < counts.len() ==> #[trigger] counts[i] >= 0
    &&& total(items, counts, Quantity::Slots, items.len() as int) <= u64::MAX
}

/// The report of `counts` over `items` at cost `cost`: a row for every item
/// with a positive count, and for each stat what all the copies add up to.
pub open spec fn reports(report: Report, items: Seq<Item>, counts: Seq<i64>, cost: u128) -> bool {
    let n = items.len() as int;
    &&& report.rows@ == rows_upto(items, counts, n)
    &&& report.cost == cost
    &&& report.ad == total(items, counts, Quantity::Ad, n)
    &&& report.ap == total(items, counts, Quantity::Ap, n)
    &&& report.asp == total(items, counts, Quantity::Asp, n)
    &&& report.ms == total(items, counts, Quantity::Ms, n)
}

/// Tabulates a build: the items with a positive count, in the items' order,
/// and the totals over all copies.
pub fn tabulate(items: &Vec<Item>, build: &Build) -> (r: Report)
    requires
        countable(items@, build.counts@),
    ensures
        reports(r, items@, build.counts@, build.cost),
{
    let n = items.len();
    let mut rows: Vec<Row> = Vec::new();
    let mut used: u64 = 0;
    let mut ad: u128 = 0;
    let mut ap: u128 = 0;
    let mut asp: u128 = 0;
    let mut ms: u128 = 0;
    let mut i: usize = 0;
    while i < n
        invariant
            countable(items@, build.counts@),
            n == items@.len(),
            i <= n,
            rows@ == rows_upto(items@, build.counts@, i as int),
            used == total(items@, build.counts@, Quantity::Slots, i as int),
            ad == total(items@, build.counts@, Quantity::Ad, i as int),
            ap == total(items@, build.counts@, Quantity::Ap, i as int),
            asp == total(items@, build.counts@, Quantity::Asp, i as int),
            ms == total(items@, build.counts@, Quantity::Ms, i as int),
            ad <= used * u64::MAX,
            ap <= used * u64::MAX,
            asp <= used * u64::MAX,
            ms <= used * u64::MAX,
        decreases n - i,
    {
        let item = &items[i];
        let count = build.counts[i];
        let copies = count as u64;
        proof {
            lemma_total_grows(items@, build.counts@, Quantity::Slots, i + 1, n as int);
            let room = u64::MAX as int;
            lemma_term_fits(item.ad as int, copies as int, used as int, room, ad as int);
            lemma_term_fits(item.ap as int, copies as int, used as int, room, ap as int);
            lemma_term_fits(item.asp as int, copies as int, used as int, room, asp as int);
            lemma_term_fits(item.ms as int, copies as int, used as int, room, ms as int);
        }
        if count > 0 {
            rows.push(
                Row {
                    count: copies,
                    name: item.name.clone(),
                    cost: item.cost,
                    ad: item.ad,
                    ap: item.ap,
                    asp: item.asp,
                    ms: item.ms,
                },
            );
        }
        ad = ad + (measure(item, Quantity::Ad) as u128) * (copies as u128);
        ap = ap + (measure(item, Quantity::Ap) as u128) * (copies as u128);
        asp = asp + (measure(item, Quantity::Asp) as u128) * (copies as u128);
        ms = ms + (measure(item, Quantity::Ms) as u128) * (copies as u128);
        used = used + copies;
        i += 1;
    }
    Report { rows, cost: build.cost, ad, ap, asp, ms }
}

/// The report of a solver's answer: that of the build where the answer is a
/// feasible assignment, else the reason for none.
pub fn summarize(items: &Vec<Item>, req: &Requirements, outcome: &SolverOutcome) -> (r: Result<
    Report,
    OptimizeError,
>)
    ensures
        match *outcome {
            SolverOutcome::Optimal(counts) => match r {
                Ok(report) => feasible(items@, *req, counts@) && reports(
                    report,
                    items@,
                    counts@,
                    total(items@, counts@, Quantity::Cost, items@.len() as int) as u128,
                ),
                Err(e) => !feasible(items@, *req, counts@) && e
                    == OptimizeError::SolverInternalError,
            },
            SolverOutcome::Infeasible => r == Err::<Report, OptimizeError>(
                OptimizeError::Infeasible,
            ),
            SolverOutcome::Unbounded => r == Err::<Report, OptimizeError>(
                OptimizeError::Unbounded,
            ),
            SolverOutcome::TimedOut => r == Err::<Report, OptimizeError>(
                OptimizeError::SolverTimeout,
            ),
            SolverOutcome::Failed => r == Err::<Report, OptimizeError>(
                OptimizeError::SolverInternalError,
            ),
        },
{
    match interpret(items, req, outcome) {
        Ok(build) => Ok(tabulate(items, &build)),
        Err(e) => Err(e),
    }
}

/// The text of one decimal digit.
pub open spec fn digit_text(digit: int) -> Seq<char> {
    if digit == 0 {
        "0"@
    } else if digit == 1 {
        "1"@
    } else if digit == 2 {
        "2"@
    } else if digit == 3 {
        "3"@
    } else if digit == 4 {
        "4"@
    } else if digit == 5 {
        "5"@
    } else if digit == 6 {
        "6"@
    } else if digit == 7 {
        "7"@
    } else if digit == 8 {
        "8"@
    } else {
        "9"@
    }
}

/// A number in decimal digits, without leading zeros.
pub open spec fn decimal_text(n: nat) -> Seq<char>
    decreases n,
{
    if n < 10 {
        digit_text(n as int)
    } else {
        decimal_text(n / 10) + digit_text((n % 10) as int)
    }
}

/// `n` spaces.
pub open spec fn blanks(n: int) -> Seq<char>
    decreases n,
{
    if n <= 0 {
        Seq::empty()
    } else {
        blanks(n - 1) + " "@
    }
}

/// A cell padded on the right with spaces to `width` characters; a longer
/// cell stays as it is.
pub open spec fn padded(cell: Seq<char>, width: int) -> Seq<char> {
    cell + blanks(width - cell.len())
}

/// A line of the table: seven cells, each padded on the right to the width
/// of its column, one space apart.
pub open spec fn table_text(
    count: Seq<char>,
    name: Seq<char>,
    cost: Seq<char>,
    ad: Seq<char>,
    ap: Seq<char>,
    asp: Seq<char>,
    ms: Seq<char>,
) -> Seq<char> {
    padded(count, 6) + " "@ + padded(name, 24) + " "@ + padded(cost, 6) + " "@ + padded(ad, 3)
        + " "@ + padded(ap, 3) + " "@ + padded(asp, 12) + " "@ + padded(ms, 3)
}

/// The text of one decimal digit.
fn digit(d: u8) -> (r: &'static str)
    requires
        d < 10,
    ensures
        r@ == digit_text(d as int),
{
    match d {
        0 => "0",
        1 => "1",
        2 => "2",
        3 => "3",
        4 => "4",
        5 => "5",
        6 => "6",
        7 => "7",
        8 => "8",
        _ => "9",
    }
}

/// A number in decimal digits.
pub fn decimal(n: u128) -> (r: String)
    ensures
        r@ == decimal_text(n as nat),
    decreases n,
{
    if n < 10 {
        String::from_str(digit(n as u8))
    } else {
        decimal(n / 10).concat(digit((n % 10) as u8))
    }
}

/// A cell padded on the right with spaces to `width` characters.
pub fn pad(cell: &str, width: usize) -> (r: String)
    ensures
        r@ == padded(cell@, width as int),
{
    let len = cell.unicode_len();
    let mut out = String::from_str(cell);
    let mut k: usize = len;
    assert(out@ =~= cell@ + blanks(0));
    while k < width
        invariant
            len == cell@.len(),
            len <= k,
            k <= width || k == len,
            out@ == cell@ + blanks(k - len),
        decreases width - k,
    {
        out.append(" ");
        k += 1;
        assert(out@ =~= cell@ + blanks(k - len));
    }
    out
}

/// A line of the table from its seven cells.
pub fn table_line(
    count: &str,
    name: &str,
    cost: &str,
    ad: &str,
    ap: &str,
    asp: &str,
    ms: &str,
) -> (r: String)
    ensures
        r@ == table_text(count@, name@, cost@, ad@, ap@, asp@, ms@),
{
    let mut line = pad(count, 6);
    line.append(" ");
    line.append(pad(name, 24).as_str());
    line.append(" ");
    line.append(pad(cost, 6).as_str());
    line.append(" ");
    line.append(pad(ad, 3).as_str());
    line.append(" ");
    line.append(pad(ap, 3).as_str());
    line.append(" ");
    line.append(pad(asp, 12).as_str());
    line.append(" ");
    line.append(pad(ms, 3).as_str());
    line
}

/// The table line of a row.
pub open spec fn row_text(row: Row) -> Seq<char> {
    table_text(
        decimal_text(row.count as nat),
        row.name@,
        decimal_text(row.cost as nat),
        decimal_text(row.ad as nat),
        decimal_text(row.ap as nat),
        decimal_text(row.asp as nat),
        decimal_text(row.ms as nat),
    )
}

/// The table line of the column titles.
pub open spec fn header_text() -> Seq<char> {
    table_text("count"@, "name"@, "cost"@, "ad"@, "ap"@, "attack speed"@, "movement speed"@)
}

/// The table line of the totals.
pub open spec fn total_text(report: Report) -> Seq<char> {
    table_text(
        "total"@,
        ""@,
        decimal_text(report.cost as nat),
        decimal_text(report.ad as nat),
        decimal_text(report.ap as nat),
        decimal_text(report.asp as nat),
        decimal_text(report.ms as nat),
    )
}

/// The lines of a rendered report: a rule, the title, the cost, a blank line,
/// the column titles, the rows, a rule and the totals.
pub open spec fn rendered(lines: Seq<String>, report: Report) -> bool {
    let n = report.rows@.len() as int;
    &&& lines.len() == n + 7
    &&& lines[0]@ == "-----"@
    &&& lines[1]@ == "Best build"@
    &&& lines[2]@ == "Total cost: "@ + decimal_text(report.cost as nat)
    &&& lines[3]@ == ""@
    &&& lines[4]@ == header_text()
    &&& forall|j: int| 0 <= j < n ==> (#[trigger] lines[5 + j])@ == row_text(report.rows@[j])
    &&& lines[5 + n]@ == "-----"@
    &&& lines[6 + n]@ == total_text(report)
}

/// The table line of one row.
pub fn render_row(row: &Row) -> (r: String)
    ensures
        r@ == row_text(*row),
{
    let count = decimal(row.count as u128);
    let cost = decimal(row.cost as u128);
    let ad = decimal(row.ad as u128);
    let ap = decimal(row.ap as u128);
    let asp = decimal(row.asp as u128);
    let ms = decimal(row.ms as u128);
    table_line(
        count.as_str(),
        row.name.as_str(),
        cost.as_str(),
        ad.as_str(),
        ap.as_str(),
        asp.as_str(),
        ms.as_str(),
    )
}

/// Renders a report as lines of text.
pub fn render(report: &Report) -> (r: Vec<String>)
    ensures
        rendered(r@, *report),
{
    let cost = decimal(report.cost);
    let mut lines: Vec<String> = Vec::new();
    lines.push(String::from_str("-----"));
    lines.push(String::from_str("Best build"));
    lines.push(String::from_str("Total cost: ").concat(cost.as_str()));
    lines.push(String::from_str(""));
    lines.push(
        table_line("count", "name", "cost", "ad", "ap", "attack speed", "movement speed"),
    );
    let mut i: usize = 0;
    while i < report.rows.len()
        invariant
            i <= report.rows@.len(),
            lines@.len() == 5 + i,
            lines@[0]@ == "-----"@,
            lines@[1]@ == "Best build"@,
            lines@[2]@ == "Total cost: "@ + decimal_text(report.cost as nat),
            lines@[3]@ == ""@,
            lines@[4]@ == header_text(),
            forall|j: int| 0 <= j < i ==> (#[trigger] lines@[5 + j])@ == row_text(report.rows@[j]),
        decreases report.rows.len() - i,
    {
        lines.push(render_row(&report.rows[i]));
        i += 1;
    }
    let ad = decimal(report.ad);
    let ap = decimal(report.ap);
    let asp = decimal(report.asp);
    let ms = decimal(report.ms);
    lines.push(String::from_str("-----"));
    lines.push(
        table_line("total", "", cost.as_str(), ad.as_str(), ap.as_str(), asp.as_str(), ms.as_str()),
    );
    lines
}

/// A report is determined by the items, the counts and the cost, and its
/// text by the report: two reports of the same, rendered, agree row by row
/// and line by line.
pub proof fn lemma_report_determined(
    items: Seq<Item>,
    counts: Seq<i64>,
    cost: u128,
    first: Report,
    second: Report,
    first_lines: Seq<String>,
    second_lines: Seq<String>,
)
    requires
        reports(first, items, counts, cost),
        reports(second, items, counts, cost),
        rendered(first_lines, first),
        rendered(second_lines, second),
    ensures
        first.rows@ == second.rows@,
        first.cost == second.cost,
        first.ad == second.ad,
        first.ap == second.ap,
        first.asp == second.asp,
        first.ms == second.ms,
        first_lines.len() == second_lines.len(),
        forall|k: int| 0 <= k < first_lines.len() ==> first_lines[k]@ == second_lines[k]@,
{
    let n = first.rows@.len() as int;
    assert forall|k: int| 0 <= k < first_lines.len() implies first_lines[k]@
        == second_lines[k]@ by {
        if 5 <= k < 5 + n {
            let j = k - 5;
            assert(first_lines[5 + j]@ == row_text(first.rows@[j]));
            assert(second_lines[5 + j]@ == row_text(second.rows@[j]));
        }
    }
}

} // verus!
