//! The tabular report: one column of text cells per day, padded to equal
//! length, with a block of summary rows at the foot of each column.
use vstd::prelude::*;
use vstd::multiset::Multiset;
use crate::aggregate::DailySummary;
use crate::day::{day_label, format_day, has_four_digit_year, lemma_label_order, Day};
use crate::text::{decimal_text, int_text, lemma_text_le_reflexive, lemma_text_le_total, lemma_text_le_transitive, text_le, text_le_exec};

verus! {

/// The texts of a column's cells.
pub open spec fn column_view(c: Seq<String>) -> Seq<Seq<char>> {
    c.map_values(|t: String| t@)
}

/// The texts of a grid, column by column.
pub open spec fn grid_view(cols: Seq<Vec<String>>) -> Seq<Seq<Seq<char>>> {
    cols.map_values(|c: Vec<String>| column_view(c@))
}

/// The length of the longest column (zero for no columns).
pub open spec fn longest(g: Seq<Seq<Seq<char>>>) -> nat
    decreases g.len(),
{
    if g.len() == 0 {
        0
    } else {
        let m = longest(g.drop_last());
        if g.last().len() > m { g.last().len() } else { m }
    }
}

/// A column right-padded with empty cells up to `m` cells.
pub open spec fn padded(col: Seq<Seq<char>>, m: nat) -> Seq<Seq<char>> {
    if col.len() >= m {
        col
    } else {
        col + Seq::new((m - col.len()) as nat, |i: int| Seq::<char>::empty())
    }
}

/// Every column of a grid padded up to `m` cells.
pub open spec fn aligned(g: Seq<Seq<Seq<char>>>, m: nat) -> Seq<Seq<Seq<char>>> {
    g.map_values(|c: Seq<Seq<char>>| padded(c, m))
}

/// The larger of two lengths.
pub open spec fn max_nat(a: nat, b: nat) -> nat {
    if a >= b { a } else { b }
}

/// The columns are in ascending order of their first cell.
pub open spec fn sorted_by_label(g: Seq<Seq<Seq<char>>>) -> bool {
    forall|a: int, b: int| 0 <= a < b < g.len() ==> text_le(#[trigger] g[a][0], #[trigger] g[b][0])
}

/// A report sheet: columns of text cells, the length of the longest column
/// seen so far, and the name of the file it is meant for.
pub struct CSVSheet {
    pub columns: Vec<Vec<String>>,
    pub max_columns_length: usize,
    pub file_name: String,
}

impl CSVSheet {
    /// The texts of the sheet, column by column.
    pub open spec fn grid(&self) -> Seq<Seq<Seq<char>>> {
        grid_view(self.columns@)
    }

    /// Every column has its label cell.
    pub open spec fn well_formed(&self) -> bool {
        forall|i: int| 0 <= i < self.columns@.len() ==> (#[trigger] self.columns@[i])@.len() > 0
    }

    /// An empty sheet meant for the file `file_name`.
    pub fn new(file_name: &str) -> (r: CSVSheet)
        ensures
            r.columns@.len() == 0,
            r.max_columns_length == 0,
            r.file_name@ == file_name@,
            r.well_formed(),
    {
        CSVSheet {
            columns: Vec::new(),
            max_columns_length: 0,
            file_name: String::from_str(file_name),
        }
    }

    /// Appends a column; its first cell is its label.
    pub fn add_column(&mut self, column: Vec<String>)
        requires
            old(self).well_formed(),
            column@.len() > 0,
        ensures
            final(self).well_formed(),
            final(self).grid() == old(self).grid().push(column_view(column@)),
            final(self).max_columns_length == old(self).max_columns_length,
            final(self).file_name == old(self).file_name,
    {
        let ghost c = column@;
        self.columns.push(column);
        assert(self.grid() =~= old(self).grid().push(column_view(c)));
    }

    /// Raises the recorded maximum to the length of the longest column.
    pub fn update_max_columns_length(&mut self)
        ensures
            final(self).columns == old(self).columns,
            final(self).file_name == old(self).file_name,
            final(self).max_columns_length == max_nat(old(self).max_columns_length as nat, longest(old(self).grid())),
    {
        let mut i: usize = 0;
        let ghost g = self.grid();
        let ghost m0 = self.max_columns_length as nat;
        assert(g.take(0) =~= Seq::<Seq<Seq<char>>>::empty());
        while i < self.columns.len()
            invariant
                i <= self.columns@.len(),
                self.columns == old(self).columns,
                self.file_name == old(self).file_name,
                g == self.grid(),
                self.max_columns_length == max_nat(m0, longest(g.take(i as int))),
            decreases self.columns@.len() - i,
        {
            assert(g.take(i + 1).drop_last() =~= g.take(i as int));
            let len = self.columns[i].len();
            if len > self.max_columns_length {
                self.max_columns_length = len;
            }
            i = i + 1;
        }
        assert(g.take(i as int) =~= g);
    }
}

/// No column is longer than the longest.
pub proof fn lemma_longest_bound(g: Seq<Seq<Seq<char>>>, i: int)
    requires
        0 <= i < g.len(),
    ensures
        g[i].len() <= longest(g),
    decreases g.len(),
{
    if i < g.len() - 1 {
        lemma_longest_bound(g.drop_last(), i);
    }
}

/// A bound on every column bounds the longest.
pub proof fn lemma_longest_at_most(g: Seq<Seq<Seq<char>>>, m: nat)
    requires
        forall|i: int| 0 <= i < g.len() ==> (#[trigger] g[i]).len() <= m,
    ensures
        longest(g) <= m,
    decreases g.len(),
{
    if g.len() > 0 {
        lemma_longest_at_most(g.drop_last(), m);
    }
}

/// Padding is idempotent: once every column has been padded to a length at
/// least that of the longest, every column has exactly that length and
/// padding again changes nothing.
pub proof fn lemma_align_idempotent(g: Seq<Seq<Seq<char>>>, m: nat)
    requires
        longest(g) <= m,
    ensures
        forall|i: int| 0 <= i < g.len() ==> (#[trigger] aligned(g, m)[i]).len() == m,
        longest(aligned(g, m)) <= m,
        max_nat(m, longest(aligned(g, m))) == m,
        aligned(aligned(g, m), m) == aligned(g, m),
{
    let a = aligned(g, m);
    assert forall|i: int| 0 <= i < g.len() implies (#[trigger] a[i]).len() == m by {
        lemma_longest_bound(g, i);
    }
    lemma_longest_at_most(a, m);
    assert(aligned(a, m) =~= a);
}

impl CSVSheet {
    /// Pads every column with empty cells up to the length of the longest.
    pub fn align_columns(&mut self)
        requires
            old(self).well_formed(),
        ensures
            final(self).well_formed(),
            final(self).max_columns_length == max_nat(old(self).max_columns_length as nat, longest(old(self).grid())),
            final(self).grid() == aligned(old(self).grid(), final(self).max_columns_length as nat),
            final(self).file_name == old(self).file_name,
    {
        self.update_max_columns_length();
        let m = self.max_columns_length;
        let ghost g = self.grid();
        let n = self.columns.len();
        let mut i: usize = 0;
        while i < n
            invariant
                i <= n,
                n == g.len(),
                self.columns@.len() == n,
                self.max_columns_length == m,
                self.file_name == old(self).file_name,
                longest(g) <= m,
                g == grid_view(old(self).columns@),
                forall|j: int| 0 <= j < n ==> (#[trigger] old(self).columns@[j])@.len() > 0,
                forall|j: int| 0 <= j < i ==> #[trigger] self.grid()[j] == padded(g[j], m as nat),
                forall|j: int| i <= j < n ==> #[trigger] self.columns@[j] == old(self).columns@[j],
                forall|j: int| 0 <= j < n ==> (#[trigger] self.columns@[j])@.len() > 0,
            decreases n - i,
        {
            let ghost before = self.columns@;
            let ghost gb = self.grid();
            let mut col = self.columns.remove(i);
            let ghost orig = col@;
            proof { lemma_longest_bound(g, i as int); }
            assert(g[i as int] == column_view(orig));
            while col.len() < m
                invariant
                    orig.len() <= col@.len() <= m,
                    column_view(col@) == column_view(orig) + Seq::new((col@.len() - orig.len()) as nat, |k: int| Seq::<char>::empty()),
                decreases m - col@.len(),
            {
                let ghost c0 = col@;
                col.push(String::new());
                assert(column_view(col@) =~= column_view(c0).push(Seq::<char>::empty()));
                assert(column_view(col@) =~= column_view(orig) + Seq::new((col@.len() - orig.len()) as nat, |k: int| Seq::<char>::empty()));
            }
            self.columns.insert(i, col);
            proof {
                if orig.len() >= m {
                    assert(column_view(col@) =~= column_view(orig));
                }
                assert(column_view(col@) =~= padded(g[i as int], m as nat));
                assert forall|j: int| 0 <= j < i implies #[trigger] self.grid()[j] == padded(g[j], m as nat) by {
                    assert(self.columns@[j] == before[j]);
                    assert(gb[j] == column_view(before[j]@));
                    assert(gb[j] == padded(g[j], m as nat));
                }
                assert forall|j: int| 0 <= j < n implies (#[trigger] self.columns@[j])@.len() > 0 by {
                    if j != i {
                        assert(self.columns@[j] == before[j]);
                    }
                }
                assert forall|j: int| i < j < n implies #[trigger] self.columns@[j] == old(self).columns@[j] by {
                    assert(self.columns@[j] == before[j]);
                }
            }
            i = i + 1;
        }
        assert(self.grid() =~= aligned(g, m as nat));
    }
}

/// The position of the column with the least label.
fn least_label(cols: &Vec<Vec<String>>) -> (m: usize)
    requires
        cols@.len() > 0,
        forall|i: int| 0 <= i < cols@.len() ==> (#[trigger] cols@[i])@.len() > 0,
    ensures
        m < cols@.len(),
        forall|j: int| 0 <= j < cols@.len() ==> text_le(grid_view(cols@)[m as int][0], #[trigger] grid_view(cols@)[j][0]),
{
    let ghost g = grid_view(cols@);
    let mut m: usize = 0;
    let mut j: usize = 1;
    proof { lemma_text_le_reflexive(g[0][0]); }
    while j < cols.len()
        invariant
            g == grid_view(cols@),
            forall|i: int| 0 <= i < cols@.len() ==> (#[trigger] cols@[i])@.len() > 0,
            m < j <= cols@.len(),
            forall|k: int| 0 <= k < j ==> text_le(g[m as int][0], #[trigger] g[k][0]),
        decreases cols@.len() - j,
    {
        assert(g[j as int][0] == cols@[j as int]@[0]@);
        assert(g[m as int][0] == cols@[m as int]@[0]@);
        if !text_le_exec(&cols[m][0], &cols[j][0]) {
            proof {
                lemma_text_le_total(g[m as int][0], g[j as int][0]);
                assert forall|k: int| 0 <= k <= j implies text_le(g[j as int][0], #[trigger] g[k][0]) by {
                    if k < j {
                        lemma_text_le_transitive(g[j as int][0], g[m as int][0], g[k][0]);
                    } else {
                        lemma_text_le_reflexive(g[j as int][0]);
                    }
                }
            }
            m = j;
        }
        j = j + 1;
    }
    m
}

impl CSVSheet {
    /// Reorders the columns into ascending order of their labels.
    pub fn sort_columns(&mut self)
        requires
            old(self).well_formed(),
        ensures
            final(self).well_formed(),
            sorted_by_label(final(self).grid()),
            final(self).grid().to_multiset() == old(self).grid().to_multiset(),
            final(self).max_columns_length == old(self).max_columns_length,
            final(self).file_name == old(self).file_name,
    {
        broadcast use vstd::seq_lib::group_to_multiset_ensures;
        let ghost g0 = self.grid();
        let mut rest: Vec<Vec<String>> = Vec::new();
        std::mem::swap(&mut rest, &mut self.columns);
        let mut out: Vec<Vec<String>> = Vec::new();
        assert(grid_view(out@) =~= Seq::<Seq<Seq<char>>>::empty());
        assert(grid_view(rest@) =~= g0);
        while rest.len() > 0
            invariant
                forall|i: int| 0 <= i < rest@.len() ==> (#[trigger] rest@[i])@.len() > 0,
                forall|i: int| 0 <= i < out@.len() ==> (#[trigger] out@[i])@.len() > 0,
                sorted_by_label(grid_view(out@)),
                forall|a: int, b: int| 0 <= a < out@.len() && 0 <= b < rest@.len() ==>
                    text_le(#[trigger] grid_view(out@)[a][0], #[trigger] grid_view(rest@)[b][0]),
                grid_view(out@).to_multiset().add(grid_view(rest@).to_multiset()) == g0.to_multiset(),
                self.max_columns_length == old(self).max_columns_length,
                self.file_name == old(self).file_name,
            decreases rest@.len(),
        {
            let m = least_label(&rest);
            let ghost go = grid_view(out@);
            let ghost gr = grid_view(rest@);
            let ghost r0 = rest@;
            let c = rest.remove(m);
            out.push(c);
            proof {
                assert(grid_view(rest@) =~= gr.remove(m as int));
                assert(grid_view(out@) =~= go.push(gr[m as int]));
                let x = gr[m as int];
                go.to_multiset_ensures();
                gr.to_multiset_ensures();
                assert(go.push(x).to_multiset() =~= go.to_multiset().insert(x));
                assert(gr.remove(m as int).to_multiset() =~= gr.to_multiset().remove(x));
                assert(gr.contains(x));
                assert(gr.to_multiset().count(x) > 0);
                assert(grid_view(out@).to_multiset().add(grid_view(rest@).to_multiset())
                    =~= go.to_multiset().add(gr.to_multiset()));
                assert forall|a: int, b: int| 0 <= a < b < out@.len() implies
                    text_le(#[trigger] grid_view(out@)[a][0], #[trigger] grid_view(out@)[b][0]) by {
                    if b == out@.len() - 1 {
                        assert(text_le(go[a][0], gr[m as int][0]));
                    } else {
                        assert(text_le(go[a][0], go[b][0]));
                    }
                }
                assert forall|a: int, b: int| 0 <= a < out@.len() && 0 <= b < rest@.len() implies
                    text_le(#[trigger] grid_view(out@)[a][0], #[trigger] grid_view(rest@)[b][0]) by {
                    let bb = if b < m { b } else { b + 1 };
                    assert(grid_view(rest@)[b] == gr[bb]);
                    if a == out@.len() - 1 {
                        assert(text_le(gr[m as int][0], gr[bb][0]));
                    } else {
                        assert(text_le(go[a][0], gr[bb][0]));
                    }
                }
                assert forall|i: int| 0 <= i < rest@.len() implies (#[trigger] rest@[i])@.len() > 0 by {
                    let ii = if i < m { i } else { i + 1 };
                    assert(rest@[i] == r0[ii]);
                }
            }
        }
        self.columns = out;
        proof {
            assert(grid_view(rest@).to_multiset() =~= Multiset::<Seq<Seq<char>>>::empty());
            assert(self.grid().to_multiset() =~= g0.to_multiset());
        }
    }
}

/// Failure of building the report.
#[derive(Clone, Copy, Debug, PartialEq, Eq, Structural)]
pub enum ReportError {
    /// A column's label names no day of the summary.
    UnknownDay,
}

/// How many summary rows end each column.
pub const SUMMARY_ROWS: usize = 9;

/// The summary rows at the foot of the column of day `k`: its total, its
/// extra time and its cumulative extra time, each under a label and after a
/// blank row.
pub open spec fn summary_block(s: &DailySummary, k: int) -> Seq<Seq<char>> {
    seq![
        Seq::<char>::empty(),
        "Total time worked that day :"@,
        decimal_text(s.totals@[k] as int),
        Seq::<char>::empty(),
        "Extra time worked that day :"@,
        decimal_text(s.extras@[k] as int),
        Seq::<char>::empty(),
        "Cumulated extra time worked :"@,
        decimal_text(s.cumulative@[k] as int),
    ]
}

/// Whether some day of the summary is shown under `label`.
pub open spec fn names_some_day(s: &DailySummary, label: Seq<char>) -> bool {
    exists|k: int| 0 <= k < s.days@.len() && day_label(#[trigger] s.days@[k]) == label
}

/// The summary's days are valid calendar dates and its vectors line up.
pub open spec fn printable(s: &DailySummary) -> bool {
    &&& s.well_formed()
    &&& forall|k: int| 0 <= k < s.days@.len() ==> (#[trigger] s.days@[k]).is_valid()
}

/// The first day of the summary shown under `label`.
fn find_label(s: &DailySummary, label: &String) -> (r: Option<usize>)
    requires
        printable(s),
    ensures
        r is None <==> !names_some_day(s, label@),
        r matches Some(k) ==> k < s.days@.len() && day_label(s.days@[k as int]) == label@,
{
    let mut k: usize = 0;
    while k < s.days.len()
        invariant
            printable(s),
            k <= s.days@.len(),
            forall|j: int| 0 <= j < k ==> day_label(#[trigger] s.days@[j]) != label@,
        decreases s.days@.len() - k,
    {
        let text = format_day(&s.days[k]);
        if text == *label {
            return Some(k);
        }
        k = k + 1;
    }
    None
}

/// Appends the summary rows of day `k` to a column.
fn push_summary_rows(col: &mut Vec<String>, s: &DailySummary, k: usize)
    requires
        s.well_formed(),
        k < s.days@.len(),
    ensures
        column_view(final(col)@) == column_view(old(col)@) + summary_block(s, k as int),
{
    let ghost c0 = column_view(col@);
    col.push(String::new());
    col.push(String::from_str("Total time worked that day :"));
    col.push(int_text(s.totals[k]));
    col.push(String::new());
    col.push(String::from_str("Extra time worked that day :"));
    col.push(int_text(s.extras[k]));
    col.push(String::new());
    col.push(String::from_str("Cumulated extra time worked :"));
    col.push(int_text(s.cumulative[k]));
    assert(column_view(col@) =~= c0 + summary_block(s, k as int));
}

/// Column `after` is column `before` padded to `m` cells and followed by the
/// summary rows of a day shown under the label of `before`.
pub open spec fn completed_column(before: Seq<Seq<char>>, after: Seq<Seq<char>>, m: nat, s: &DailySummary) -> bool {
    exists|k: int|
        0 <= k < s.days@.len() && day_label(s.days@[k]) == before[0]
        && after == padded(before, m) + #[trigger] summary_block(s, k)
}

/// The length to which aligning pads the columns of a sheet.
pub open spec fn aligned_length(s: &CSVSheet) -> nat {
    max_nat(s.max_columns_length as nat, longest(s.grid()))
}

impl CSVSheet {
    /// Pads the columns to equal length, then appends to each column the
    /// summary rows of the day its label names. Fails, leaving the sheet as
    /// it was, when some label names no day of the summary.
    pub fn add_total_times_to_columns(&mut self, summary: &DailySummary) -> (r: Result<(), ReportError>)
        requires
            old(self).well_formed(),
            printable(summary),
            old(self).max_columns_length + SUMMARY_ROWS <= usize::MAX,
            longest(old(self).grid()) + SUMMARY_ROWS <= usize::MAX,
        ensures
            r is Err <==> exists|i: int| 0 <= i < old(self).grid().len()
                && !names_some_day(summary, (#[trigger] old(self).grid()[i])[0]),
            r is Err ==> r == Err::<(), ReportError>(ReportError::UnknownDay) && *final(self) == *old(self),
            r is Ok ==> final(self).well_formed(),
            r is Ok ==> final(self).file_name == old(self).file_name,
            r is Ok ==> final(self).grid().len() == old(self).grid().len(),
            r is Ok ==> forall|i: int| 0 <= i < old(self).grid().len() ==>
                #[trigger] completed_column(old(self).grid()[i], final(self).grid()[i], aligned_length(old(self)), summary),
            r is Ok ==> final(self).max_columns_length == if old(self).grid().len() > 0 {
                aligned_length(old(self)) + SUMMARY_ROWS
            } else {
                aligned_length(old(self)) as int
            },
    {
        let ghost g0 = self.grid();
        let n = self.columns.len();
        let mut found: Vec<usize> = Vec::new();
        let mut i: usize = 0;
        while i < n
            invariant
                i <= n,
                n == self.columns@.len(),
                g0 == self.grid(),
                self.well_formed(),
                printable(summary),
                found@.len() == i,
                forall|j: int| 0 <= j < i ==> #[trigger] found@[j] < summary.days@.len()
                    && day_label(summary.days@[found@[j] as int]) == g0[j][0],
            decreases n - i,
        {
            assert(g0[i as int][0] == self.columns@[i as int]@[0]@);
            match find_label(summary, &self.columns[i][0]) {
                Some(k) => {
                    found.push(k);
                }
                None => {
                    return Err(ReportError::UnknownDay);
                }
            }
            i = i + 1;
        }
        self.align_columns();
        let m = self.max_columns_length;
        let ghost g1 = self.grid();
        proof {
            lemma_align_idempotent(g0, m as nat);
            assert forall|j: int| 0 <= j < n implies (#[trigger] g0[j]).len() > 0 by {
                assert(g0[j].len() == old(self).columns@[j]@.len());
            }
            assert forall|j: int| 0 <= j < n implies names_some_day(summary, (#[trigger] g0[j])[0]) by {
                let k = found@[j] as int;
                assert(day_label(summary.days@[k]) == g0[j][0]);
            }
        }
        let mut i: usize = 0;
        while i < n
            invariant
                i <= n,
                n == self.columns@.len(),
                n == g1.len(),
                g1 == aligned(g0, m as nat),
                longest(g0) <= m,
                m + SUMMARY_ROWS <= usize::MAX,
                self.max_columns_length == m,
                self.file_name == old(self).file_name,
                summary.well_formed(),
                found@.len() == n,
                forall|j: int| 0 <= j < n ==> #[trigger] found@[j] < summary.days@.len()
                    && day_label(summary.days@[found@[j] as int]) == g0[j][0],
                forall|j: int| 0 <= j < n ==> (#[trigger] self.columns@[j])@.len() > 0,
                forall|j: int| 0 <= j < n ==> (#[trigger] g0[j]).len() > 0,
                forall|j: int| 0 <= j < i ==> #[trigger] self.grid()[j] == g1[j] + summary_block(summary, found@[j] as int),
                forall|j: int| i <= j < n ==> #[trigger] self.grid()[j] == g1[j],
            decreases n - i,
        {
            let ghost before = self.columns@;
            let ghost gb = self.grid();
            let mut col = self.columns.remove(i);
            assert(column_view(col@) == gb[i as int]);
            push_summary_rows(&mut col, summary, found[i]);
            self.columns.insert(i, col);
            proof {
                assert forall|j: int| 0 <= j < n && j != i implies #[trigger] self.grid()[j] == gb[j] by {
                    assert(self.columns@[j] == before[j]);
                }
                assert(self.grid()[i as int] == g1[i as int] + summary_block(summary, found@[i as int] as int));
                assert forall|j: int| 0 <= j < n implies (#[trigger] self.columns@[j])@.len() > 0 by {
                    if j != i {
                        assert(self.columns@[j] == before[j]);
                    } else {
                        assert(self.grid()[j].len() == self.columns@[j]@.len());
                    }
                }
            }
            i = i + 1;
        }
        let ghost g2 = self.grid();
        proof {
            assert forall|j: int| 0 <= j < n implies (#[trigger] g2[j]).len() == m + SUMMARY_ROWS by {
                assert(g1[j].len() == m);
            }
            lemma_longest_at_most(g2, (m + SUMMARY_ROWS) as nat);
            if n > 0 {
                lemma_longest_bound(g2, 0);
            }
        }
        self.update_max_columns_length();
        proof {
            if n > 0 {
                assert(g2[0].len() == m + SUMMARY_ROWS);
            } else {
                assert(longest(g2) == 0);
            }
            assert(aligned_length(old(self)) == m as nat);
            assert forall|i: int| 0 <= i < old(self).grid().len() implies
                #[trigger] completed_column(old(self).grid()[i], self.grid()[i], aligned_length(old(self)), summary) by {
                let k = found@[i] as int;
                assert(g2[i] == g1[i] + summary_block(summary, k));
            }
        }
        Ok(())
    }
}

/// Columns in ascending order of their labels are in chronological order of
/// the days they are labelled with, for valid days with four-digit years: no
/// column is labelled with a day later than that of a column to its right.
pub proof fn lemma_label_sorted_columns_follow_days(g: Seq<Seq<Seq<char>>>, i: int, j: int, a: Day, b: Day)
    requires
        sorted_by_label(g),
        0 <= i < j < g.len(),
        a.is_valid(),
        b.is_valid(),
        has_four_digit_year(a),
        has_four_digit_year(b),
        g[i][0] == day_label(a),
        g[j][0] == day_label(b),
    ensures
        !b.before(a),
{
    if b.before(a) {
        lemma_label_order(b, a);
        assert(text_le(g[i][0], g[j][0]));
    }
}

/// The column of day `k` before padding: its label, then the durations of its
/// entries in input order.
pub open spec fn day_column(s: &DailySummary, k: int) -> Seq<Seq<char>> {
    seq![day_label(s.days@[k])] + s.buckets@[k]@.map_values(|v: i64| decimal_text(v as int))
}

/// The columns of all days, in day order, before padding.
pub open spec fn day_columns(s: &DailySummary) -> Seq<Seq<Seq<char>>> {
    Seq::new(s.days@.len(), |k: int| day_column(s, k))
}

/// A finished report column: the column of some day, padded to `m` cells and
/// followed by the summary rows of the day shown under the same label.
pub open spec fn report_column(s: &DailySummary, col: Seq<Seq<char>>, m: nat) -> bool {
    exists|k: int, k2: int|
        0 <= k < s.days@.len() && 0 <= k2 < s.days@.len()
        && day_label(s.days@[k2]) == day_label(s.days@[k])
        && col == padded(#[trigger] day_column(s, k), m) + #[trigger] summary_block(s, k2)
}

/// Builds the column of day `k`.
fn build_day_column(s: &DailySummary, k: usize) -> (r: Vec<String>)
    requires
        printable(s),
        k < s.days@.len(),
    ensures
        column_view(r@) == day_column(s, k as int),
{
    let mut col: Vec<String> = Vec::new();
    col.push(format_day(&s.days[k]));
    let bucket = &s.buckets[k];
    let mut j: usize = 0;
    while j < bucket.len()
        invariant
            j <= bucket@.len(),
            k < s.days@.len(),
            s.buckets@.len() == s.days@.len(),
            bucket == s.buckets@[k as int],
            column_view(col@) == seq![day_label(s.days@[k as int])]
                + bucket@.take(j as int).map_values(|v: i64| decimal_text(v as int)),
        decreases bucket@.len() - j,
    {
        let ghost c0 = col@;
        col.push(int_text(bucket[j]));
        assert(bucket@.take(j + 1).map_values(|v: i64| decimal_text(v as int))
            =~= bucket@.take(j as int).map_values(|v: i64| decimal_text(v as int)).push(decimal_text(bucket@[j as int] as int)));
        assert(column_view(col@) =~= column_view(c0).push(decimal_text(bucket@[j as int] as int)));
        j = j + 1;
    }
    assert(bucket@.take(j as int) =~= bucket@);
    col
}

/// Every column of `a` is a column of `b`, so the longest of `a` is no longer.
proof fn lemma_longest_of_contained(a: Seq<Seq<Seq<char>>>, b: Seq<Seq<Seq<char>>>)
    requires
        forall|i: int| 0 <= i < a.len() ==> b.contains(#[trigger] a[i]),
    ensures
        longest(a) <= longest(b),
{
    assert forall|i: int| 0 <= i < a.len() implies (#[trigger] a[i]).len() <= longest(b) by {
        let j = choose|j: int| 0 <= j < b.len() && b[j] == a[i];
        lemma_longest_bound(b, j);
    }
    lemma_longest_at_most(a, longest(b));
}

/// Two grids holding the same columns, each as often, have the same number
/// of columns, each column of one is a column of the other, and their longest
/// columns have the same length.
proof fn lemma_permuted_grids(a: Seq<Seq<Seq<char>>>, b: Seq<Seq<Seq<char>>>)
    requires
        a.to_multiset() == b.to_multiset(),
    ensures
        a.len() == b.len(),
        forall|i: int| 0 <= i < a.len() ==> b.contains(#[trigger] a[i]),
        forall|i: int| 0 <= i < b.len() ==> a.contains(#[trigger] b[i]),
        longest(a) == longest(b),
{
    broadcast use vstd::seq_lib::group_to_multiset_ensures;
    assert forall|i: int| 0 <= i < a.len() implies b.contains(#[trigger] a[i]) by {
        assert(a.contains(a[i]));
        assert(a.to_multiset().count(a[i]) > 0);
    }
    assert forall|i: int| 0 <= i < b.len() implies a.contains(#[trigger] b[i]) by {
        assert(b.contains(b[i]));
        assert(b.to_multiset().count(b[i]) > 0);
    }
    lemma_longest_of_contained(a, b);
    lemma_longest_of_contained(b, a);
    assert(a.len() == a.to_multiset().len());
    assert(b.len() == b.to_multiset().len());
}

/// A sheet holding the column of each day, in day order, unpadded.
fn day_sheet(summary: &DailySummary, file_name: &str) -> (r: CSVSheet)
    requires
        printable(summary),
    ensures
        r.well_formed(),
        r.file_name@ == file_name@,
        r.max_columns_length == 0,
        r.grid() == day_columns(summary),
{
    let ghost init = day_columns(summary);
    let mut sheet = CSVSheet::new(file_name);
    let n = summary.days.len();
    let mut k: usize = 0;
    assert(init.take(0) =~= Seq::<Seq<Seq<char>>>::empty());
    assert(sheet.grid() =~= Seq::<Seq<Seq<char>>>::empty());
    while k < n
        invariant
            k <= n,
            n == summary.days@.len(),
            init == day_columns(summary),
            printable(summary),
            sheet.well_formed(),
            sheet.file_name@ == file_name@,
            sheet.max_columns_length == 0,
            sheet.grid() == init.take(k as int),
        decreases n - k,
    {
        let col = build_day_column(summary, k);
        assert(col@.len() == column_view(col@).len());
        sheet.add_column(col);
        assert(init.take(k + 1) =~= init.take(k as int).push(init[k as int]));
        k = k + 1;
    }
    assert(init.take(n as int) =~= init);
    sheet
}

/// The columns of the finished report, given the sorted columns `g1` of
/// which it was made: each is a finished column of some day, and each day has
/// a column under its label.
proof fn lemma_report_columns(summary: &DailySummary, g1: Seq<Seq<Seq<char>>>, g2: Seq<Seq<Seq<char>>>)
    requires
        printable(summary),
        g1.to_multiset() == day_columns(summary).to_multiset(),
        g2.len() == g1.len(),
        forall|i: int| 0 <= i < g1.len() ==> #[trigger] completed_column(g1[i], g2[i],
            longest(day_columns(summary)), summary),
        sorted_by_label(g1),
    ensures
        sorted_by_label(g2),
        g2.len() == summary.days@.len(),
        forall|i: int| 0 <= i < g2.len() ==> #[trigger] g2[i].len() == longest(day_columns(summary)) + SUMMARY_ROWS,
        forall|i: int| 0 <= i < g2.len() ==> report_column(summary, #[trigger] g2[i], longest(day_columns(summary))),
        forall|k: int| 0 <= k < summary.days@.len() ==> exists|i: int| 0 <= i < g2.len()
            && (#[trigger] g2[i])[0] == day_label(#[trigger] summary.days@[k]),
{
    let init = day_columns(summary);
    let m = longest(init);
    lemma_permuted_grids(g1, init);
    assert forall|i: int| 0 <= i < g2.len() implies #[trigger] g2[i][0] == g1[i][0] by {
        assert(completed_column(g1[i], g2[i], m, summary));
        let k = choose|k: int| 0 <= k < init.len() && init[k] == g1[i];
        assert(init[k] == day_column(summary, k));
        assert(g2[i][0] == padded(g1[i], m)[0]);
    }
    assert forall|a: int, b: int| 0 <= a < b < g2.len() implies text_le(#[trigger] g2[a][0], #[trigger] g2[b][0]) by {
        assert(g2[a][0] == g1[a][0]);
        assert(g2[b][0] == g1[b][0]);
    }
    assert forall|i: int| 0 <= i < g2.len() implies
        report_column(summary, #[trigger] g2[i], m) && g2[i].len() == m + SUMMARY_ROWS by {
        assert(completed_column(g1[i], g2[i], m, summary));
        let k2 = choose|k2: int| 0 <= k2 < summary.days@.len() && day_label(summary.days@[k2]) == g1[i][0]
            && g2[i] == padded(g1[i], m) + #[trigger] summary_block(summary, k2);
        let k = choose|k: int| 0 <= k < init.len() && init[k] == g1[i];
        assert(init[k] == day_column(summary, k));
        lemma_longest_bound(init, k);
        assert(day_label(summary.days@[k]) == init[k][0]);
        assert(g2[i] == padded(day_column(summary, k), m) + summary_block(summary, k2));
    }
    assert forall|k: int| 0 <= k < summary.days@.len() implies exists|i: int| 0 <= i < g2.len()
        && (#[trigger] g2[i])[0] == day_label(#[trigger] summary.days@[k]) by {
        assert(init[k] == day_column(summary, k));
        let i = choose|i: int| 0 <= i < g1.len() && g1[i] == init[k];
        assert(completed_column(g1[i], g2[i], m, summary));
        assert(init[k][0] == day_label(summary.days@[k]));
        assert(g2[i][0] == padded(g1[i], m)[0]);
    }
}

/// Builds the report of a summary, meant for the file `file_name`: one column
/// per day with its label and durations, the columns in ascending order of
/// their labels, padded to equal length, each ending with the day's summary
/// rows.
pub fn build_report(summary: &DailySummary, file_name: &str) -> (r: CSVSheet)
    requires
        printable(summary),
        forall|k: int| 0 <= k < summary.days@.len() ==> (#[trigger] summary.buckets@[k])@.len() + 1 + SUMMARY_ROWS <= usize::MAX,
    ensures
        r.well_formed(),
        r.file_name@ == file_name@,
        r.grid().len() == summary.days@.len(),
        sorted_by_label(r.grid()),
        forall|i: int| 0 <= i < r.grid().len() ==> #[trigger] r.grid()[i].len() == longest(day_columns(summary)) + SUMMARY_ROWS,
        forall|i: int| 0 <= i < r.grid().len() ==> report_column(summary, #[trigger] r.grid()[i], longest(day_columns(summary))),
        forall|k: int| 0 <= k < summary.days@.len() ==> exists|i: int| 0 <= i < r.grid().len()
            && (#[trigger] r.grid()[i])[0] == day_label(#[trigger] summary.days@[k]),
        r.max_columns_length == if summary.days@.len() > 0 { longest(day_columns(summary)) + SUMMARY_ROWS } else { 0 },
{
    let ghost init = day_columns(summary);
    let mut sheet = day_sheet(summary, file_name);
    sheet.sort_columns();
    let ghost g1 = sheet.grid();
    proof {
        lemma_permuted_grids(g1, init);
        assert forall|i: int| 0 <= i < init.len() implies (#[trigger] init[i]).len() + SUMMARY_ROWS <= usize::MAX by {
            assert(init[i].len() == summary.buckets@[i]@.len() + 1);
        }
        lemma_longest_at_most(init, (usize::MAX - SUMMARY_ROWS) as nat);
        assert forall|i: int| 0 <= i < g1.len() implies names_some_day(summary, (#[trigger] g1[i])[0]) by {
            let j = choose|j: int| 0 <= j < init.len() && init[j] == g1[i];
            assert(init[j] == day_column(summary, j));
            assert(day_label(summary.days@[j]) == init[j][0]);
        }
    }
    let res = sheet.add_total_times_to_columns(summary);
    proof {
        assert(res is Ok);
        lemma_report_columns(summary, g1, sheet.grid());
    }
    sheet
}

/// One line of the sheet's text without its line break: the cell of each
/// column at row `r`, each followed by a `;`.
pub open spec fn csv_row(g: Seq<Seq<Seq<char>>>, r: int) -> Seq<char>
    decreases g.len(),
{
    if g.len() == 0 {
        Seq::empty()
    } else {
        csv_row(g.drop_last(), r) + g.last()[r] + ";"@
    }
}

/// The text of the first `rows` rows of a grid, one line per row.
pub open spec fn csv_content(g: Seq<Seq<Seq<char>>>, rows: nat) -> Seq<char>
    decreases rows,
{
    if rows == 0 {
        Seq::empty()
    } else {
        csv_content(g, (rows - 1) as nat) + csv_row(g, rows - 1) + "\n"@
    }
}

impl CSVSheet {
    /// The text of the sheet as a file holds it: one line per row up to the
    /// recorded maximum length, each cell followed by a `;`.
    pub fn csv_text(&self) -> (r: String)
        requires
            forall|i: int| 0 <= i < self.columns@.len() ==> (#[trigger] self.columns@[i])@.len() >= self.max_columns_length,
        ensures
            r@ == csv_content(self.grid(), self.max_columns_length as nat),
    {
        let ghost g = self.grid();
        let mut text = String::new();
        let mut row: usize = 0;
        while row < self.max_columns_length
            invariant
                row <= self.max_columns_length,
                g == self.grid(),
                forall|i: int| 0 <= i < self.columns@.len() ==> (#[trigger] self.columns@[i])@.len() >= self.max_columns_length,
                text@ == csv_content(g, row as nat),
            decreases self.max_columns_length - row,
        {
            let mut c: usize = 0;
            let ghost start = text@;
            assert(g.take(0) =~= Seq::<Seq<Seq<char>>>::empty());
            while c < self.columns.len()
                invariant
                    c <= self.columns@.len(),
                    row < self.max_columns_length,
                    g == self.grid(),
                    forall|i: int| 0 <= i < self.columns@.len() ==> (#[trigger] self.columns@[i])@.len() >= self.max_columns_length,
                    text@ == start + csv_row(g.take(c as int), row as int),
                decreases self.columns@.len() - c,
            {
                assert(g.take(c + 1).drop_last() =~= g.take(c as int));
                assert(g[c as int][row as int] == self.columns@[c as int]@[row as int]@);
                text.append(self.columns[c][row].as_str());
                text.append(";");
                c = c + 1;
            }
            assert(g.take(c as int) =~= g);
            text.append("\n");
            row = row + 1;
        }
        text
    }
}

} // verus!
