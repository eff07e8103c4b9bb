//! Table column-width resolution: fixed, bounded and fill columns share a
//! total display width, minus the decoration overhead.

use vstd::prelude::*;

use crate::util::str_display_width;

verus! {

/// How a column's width is determined.
#[derive(Debug, Clone, Copy, PartialEq, Eq)]
pub enum Width {
    /// Exactly this many columns.
    Fixed(usize),
    /// As wide as its data, clamped between the bounds.
    Bounded { min: Option<usize>, max: Option<usize> },
    /// Shares the space left over after the other columns.
    Fill,
}

/// One table column.
#[derive(Debug, Clone, Copy, PartialEq, Eq)]
pub struct Column {
    /// The column's width rule.
    pub width: Width,
}

impl Column {
    /// A column with the given width rule.
    pub fn new(width: Width) -> (r: Column)
        ensures
            r.width == width,
    {
        Column { width }
    }
}

/// A table layout: columns plus the decoration strings around and between
/// them.
#[derive(Debug, Clone)]
pub struct TableSpec {
    /// The column width rules.
    pub columns: Vec<Column>,
    /// The separator drawn between columns.
    pub separator: String,
    /// The prefix drawn before the first column.
    pub prefix: String,
    /// The suffix drawn after the last column.
    pub suffix: String,
}

/// Builder for a `TableSpec`.
#[derive(Debug)]
pub struct TableSpecBuilder {
    /// The column width rules collected so far.
    pub columns: Vec<Column>,
    /// The separator drawn between columns.
    pub separator: String,
    /// The prefix drawn before the first column.
    pub prefix: String,
    /// The suffix drawn after the last column.
    pub suffix: String,
}

impl TableSpecBuilder {
    /// Appends a column.
    pub fn column(self, c: Column) -> (r: TableSpecBuilder)
        ensures
            r.columns@ == self.columns@.push(c),
            r.separator@ == self.separator@,
            r.prefix@ == self.prefix@,
            r.suffix@ == self.suffix@,
    {
        let TableSpecBuilder { mut columns, separator, prefix, suffix } = self;
        columns.push(c);
        TableSpecBuilder { columns, separator, prefix, suffix }
    }

    /// Sets the separator drawn between columns.
    pub fn separator(self, s: &str) -> (r: TableSpecBuilder)
        ensures
            r.columns@ == self.columns@,
            r.separator@ == s@,
            r.prefix@ == self.prefix@,
            r.suffix@ == self.suffix@,
    {
        let TableSpecBuilder { columns, separator: _, prefix, suffix } = self;
        TableSpecBuilder { columns, separator: copy_str(s), prefix, suffix }
    }

    /// Sets the prefix drawn before the first column.
    pub fn prefix(self, s: &str) -> (r: TableSpecBuilder)
        ensures
            r.columns@ == self.columns@,
            r.separator@ == self.separator@,
            r.prefix@ == s@,
            r.suffix@ == self.suffix@,
    {
        let TableSpecBuilder { columns, separator, prefix: _, suffix } = self;
        TableSpecBuilder { columns, separator, prefix: copy_str(s), suffix }
    }

    /// Sets the suffix drawn after the last column.
    pub fn suffix(self, s: &str) -> (r: TableSpecBuilder)
        ensures
            r.columns@ == self.columns@,
            r.separator@ == self.separator@,
            r.prefix@ == self.prefix@,
            r.suffix@ == s@,
    {
        let TableSpecBuilder { columns, separator, prefix, suffix: _ } = self;
        TableSpecBuilder { columns, separator, prefix, suffix: copy_str(s) }
    }

    /// Freezes the builder into a layout.
    pub fn build(self) -> (r: TableSpec)
        ensures
            r.columns@ == self.columns@,
            r.spec_separator() == self.separator@,
            r.spec_prefix() == self.prefix@,
            r.spec_suffix() == self.suffix@,
    {
        let TableSpecBuilder { columns, separator, prefix, suffix } = self;
        TableSpec { columns, separator, prefix, suffix }
    }
}

/// Copies a borrowed string.
fn copy_str(s: &str) -> (r: String)
    ensures
        r@ == s@,
{
    let chars = crate::text::str_chars(s);
    crate::text::chars_string(&chars)
}

/// Resolved widths for all columns of a table, in display columns.
#[derive(Clone, Debug, PartialEq, Eq)]
pub struct ResolvedWidths {
    /// Width of each column.
    pub widths: Vec<usize>,
}

/// Sum of a width list.
pub open spec fn spec_sum(s: Seq<usize>) -> int
    decreases s.len(),
{
    if s.len() == 0 {
        0
    } else {
        spec_sum(s.drop_last()) + s.last()
    }
}

impl ResolvedWidths {
    /// The width of one column, if it exists.
    pub fn get(&self, index: usize) -> (r: Option<usize>)
        ensures
            index < self.widths@.len() ==> r == Some(self.widths@[index as int]),
            index >= self.widths@.len() ==> r is None,
    {
        if index < self.widths.len() {
            Some(self.widths[index])
        } else {
            None
        }
    }

    /// The total width of all columns, without decorations.
    pub fn total(&self) -> (r: usize)
        requires
            spec_sum(self.widths@) <= usize::MAX,
        ensures
            r == spec_sum(self.widths@),
    {
        let mut sum: usize = 0;
        let mut i: usize = 0;
        proof {
            assert(self.widths@.take(0) =~= Seq::<usize>::empty());
        }
        while i < self.widths.len()
            invariant
                i <= self.widths@.len(),
                sum == spec_sum(self.widths@.take(i as int)),
                spec_sum(self.widths@) <= usize::MAX,
            decreases self.widths@.len() - i,
        {
            proof {
                assert(self.widths@.take(i + 1 as int).drop_last() =~= self.widths@.take(i as int));
                lemma_sum_prefix(self.widths@, i + 1 as int);
            }
            sum = sum + self.widths[i];
            i = i + 1;
        }
        proof {
            assert(self.widths@.take(self.widths@.len() as int) =~= self.widths@);
        }
        sum
    }

    /// Number of columns.
    pub fn len(&self) -> (r: usize)
        ensures
            r == self.widths@.len(),
    {
        self.widths.len()
    }

    /// Whether there are no columns.
    pub fn is_empty(&self) -> (r: bool)
        ensures
            r == (self.widths@.len() == 0),
    {
        self.widths.is_empty()
    }
}

/// Euclidean division facts used when sharing space among fill columns.
proof fn lemma_div_mod_facts(remaining: int, fills: int)
    requires
        fills > 0,
        remaining >= 0,
    ensures
        remaining % fills < fills,
        0 <= remaining % fills,
        0 <= remaining / fills <= remaining,
        remaining % fills >= 1 ==> remaining / fills + 1 <= remaining,
{
    assert(remaining % fills < fills && 0 <= remaining % fills && 0 <= remaining / fills
        <= remaining) by (nonlinear_arith)
        requires
            fills > 0,
            remaining >= 0,
    ;
    assert(remaining % fills >= 1 ==> remaining / fills + 1 <= remaining) by (nonlinear_arith)
        requires
            fills > 0,
            remaining >= 0,
    ;
}

/// A prefix sum never exceeds the whole sum (widths are non-negative).
proof fn lemma_sum_prefix(s: Seq<usize>, i: int)
    requires
        0 <= i <= s.len(),
    ensures
        0 <= spec_sum(s.take(i)) <= spec_sum(s),
    decreases s.len() - i,
{
    if i == s.len() {
        assert(s.take(i) =~= s);
        lemma_sum_nonneg(s);
    } else {
        lemma_sum_prefix(s, i + 1);
        assert(s.take(i + 1).drop_last() =~= s.take(i));
        lemma_sum_nonneg(s.take(i));
    }
}

/// Width sums are non-negative.
proof fn lemma_sum_nonneg(s: Seq<usize>)
    ensures
        spec_sum(s) >= 0,
    decreases s.len(),
{
    if s.len() > 0 {
        lemma_sum_nonneg(s.drop_last());
    }
}

/// The width a column takes in the first pass: its fixed width, its data
/// width clamped between its bounds, or zero for a fill column.
pub open spec fn spec_base_width(w: Width, data: int) -> int {
    match w {
        Width::Fixed(x) => x as int,
        Width::Bounded { min, max } => {
            let mn: int = match min {
                Some(m) => m as int,
                None => 0,
            };
            let mx: int = match max {
                Some(m) => m as int,
                None => usize::MAX as int,
            };
            let d = if data >= mn {
                data
            } else {
                mn
            };
            if d <= mx {
                d
            } else {
                mx
            }
        },
        Width::Fill => 0,
    }
}

/// The data width available for column `i`: zero without data.
pub open spec fn spec_data_at(dw: Option<Seq<usize>>, i: int) -> int {
    match dw {
        Some(s) => if 0 <= i < s.len() {
            s[i] as int
        } else {
            0
        },
        None => 0,
    }
}

/// Sum of the first-pass widths of the first `n` columns.
pub open spec fn spec_used(cols: Seq<Column>, dw: Option<Seq<usize>>, n: int) -> int
    decreases n,
{
    if n <= 0 {
        0
    } else {
        spec_used(cols, dw, n - 1) + spec_base_width(cols[n - 1].width, spec_data_at(dw, n - 1))
    }
}

/// How many of the first `n` columns are fill columns.
pub open spec fn spec_fill_count(cols: Seq<Column>, n: int) -> int
    decreases n,
{
    if n <= 0 {
        0
    } else {
        spec_fill_count(cols, n - 1) + if cols[n - 1].width is Fill {
            1int
        } else {
            0int
        }
    }
}

impl TableSpec {
    /// The separator drawn between columns.
    pub open spec fn spec_separator(self) -> Seq<char> {
        self.separator@
    }

    /// The prefix drawn before the first column.
    pub open spec fn spec_prefix(self) -> Seq<char> {
        self.prefix@
    }

    /// The suffix drawn after the last column.
    pub open spec fn spec_suffix(self) -> Seq<char> {
        self.suffix@
    }

    /// Starts building a table layout with no columns and empty decorations.
    pub fn builder() -> (r: TableSpecBuilder)
        ensures
            r.columns@.len() == 0,
            r.separator@.len() == 0,
            r.prefix@.len() == 0,
            r.suffix@.len() == 0,
    {
        TableSpecBuilder {
            columns: Vec::new(),
            separator: String::new(),
            prefix: String::new(),
            suffix: String::new(),
        }
    }

    /// The character count of the decorations around `n` columns: prefix,
    /// suffix, and one separator between each adjacent pair.
    pub open spec fn spec_overhead(self, n: int) -> int {
        self.spec_prefix().len() + self.spec_suffix().len() + self.spec_separator().len() * (if n
            >= 1 {
            n - 1
        } else {
            0
        })
    }

    /// The decoration overhead for `n` columns, saturated at `usize::MAX`.
    fn overhead(&self, n: usize) -> (r: usize)
        ensures
            r as int == if self.spec_overhead(n as int) <= usize::MAX {
                self.spec_overhead(n as int)
            } else {
                usize::MAX as int
            },
    {
        let pre = self.prefix.as_str().unicode_len();
        let suf = self.suffix.as_str().unicode_len();
        let sep = self.separator.as_str().unicode_len();
        let m: u128 = if n >= 1 {
            (n - 1) as u128
        } else {
            0
        };
        proof {
            assert(sep as int * (m as int) <= 0xffffffffffffffff * 0xffffffffffffffff)
                by (nonlinear_arith)
                requires
                    0 <= sep <= 0xffffffffffffffff,
                    0 <= m <= 0xffffffffffffffff,
            ;
        }
        let total: u128 = pre as u128 + suf as u128 + sep as u128 * m;
        if total > usize::MAX as u128 {
            usize::MAX
        } else {
            total as usize
        }
    }

    /// Resolves column widths without examining data: bounded columns take
    /// their minimum, fill columns share what remains.
    pub fn resolve_widths(&self, total_width: usize) -> (r: ResolvedWidths)
        ensures
            self.spec_resolved(total_width as int, None, r.widths@),
    {
        self.resolve_widths_impl(total_width, None)
    }

    /// Resolves column widths from data: each bounded column takes its
    /// longest cell's display width, clamped to its bounds.
    pub fn resolve_widths_from_data(&self, total_width: usize, data: &Vec<Vec<String>>) -> (r:
        ResolvedWidths)
        ensures
            self.spec_resolved(
                total_width as int,
                Some(spec_data_widths(data@, self.columns@.len() as int)),
                r.widths@,
            ),
    {
        let ncols = self.columns.len();
        let mut dw: Vec<usize> = Vec::new();
        let mut c: usize = 0;
        while c < ncols
            invariant
                c <= ncols,
                ncols == self.columns@.len(),
                dw@.len() == c,
                forall|k: int|
                    0 <= k < c ==> #[trigger] dw@[k] == spec_col_max(
                        data@,
                        k,
                        data@.len() as int,
                    ) as usize,
            decreases ncols - c,
        {
            let mut best: usize = 0;
            let mut rrow: usize = 0;
            while rrow < data.len()
                invariant
                    rrow <= data@.len(),
                    c < ncols,
                    best == spec_col_max(data@, c as int, rrow as int),
                decreases data@.len() - rrow,
            {
                let row = &data[rrow];
                if c < row.len() {
                    let w = crate::util::display_width(row[c].as_str());
                    if w > best {
                        best = w;
                    }
                }
                rrow = rrow + 1;
            }
            dw.push(best);
            c = c + 1;
        }
        proof {
            assert(dw@ =~= spec_data_widths(data@, ncols as int));
        }
        self.resolve_widths_impl(total_width, Some(&dw))
    }

    /// What resolution promises, pointwise: fixed and bounded columns take
    /// their first-pass widths; the space left after them (under the total
    /// minus overhead) is split evenly among the fill columns, the first
    /// `remaining % fills` of them getting one extra column.
    pub open spec fn spec_resolved(
        self,
        total_width: int,
        dw: Option<Seq<usize>>,
        out: Seq<usize>,
    ) -> bool {
        let cols = self.columns@;
        let n = cols.len() as int;
        let overhead = if self.spec_overhead(n) <= usize::MAX {
            self.spec_overhead(n)
        } else {
            usize::MAX as int
        };
        let avail = if total_width >= overhead {
            total_width - overhead
        } else {
            0
        };
        let used = spec_used(cols, dw, n);
        let remaining = if avail >= used {
            avail - used
        } else {
            0
        };
        let fills = spec_fill_count(cols, n);
        &&& out.len() == n
        &&& forall|i: int|
            0 <= i < n && !((#[trigger] cols[i]).width is Fill) ==> out[i] == spec_base_width(
                cols[i].width,
                spec_data_at(dw, i),
            )
        &&& forall|i: int|
            0 <= i < n && (#[trigger] cols[i]).width is Fill ==> out[i] == remaining / fills + (
            if spec_fill_count(cols, i) < remaining % fills {
                1int
            } else {
                0int
            })
    }

    /// Internal width resolution, per `spec_resolved`.
    #[verifier::rlimit(100)]
    fn resolve_widths_impl(&self, total_width: usize, data_widths: Option<&Vec<usize>>) -> (r:
        ResolvedWidths)
        ensures
            self.spec_resolved(
                total_width as int,
                match data_widths {
                    Some(v) => Some(v@),
                    None => None,
                },
                r.widths@,
            ),
    {
        let ghost dw: Option<Seq<usize>> = match data_widths {
            Some(v) => Some(v@),
            None => None,
        };
        let ghost cols = self.columns@;
        let n = self.columns.len();
        let overhead = self.overhead(n);
        let avail = if total_width >= overhead {
            total_width - overhead
        } else {
            0
        };
        let mut widths: Vec<usize> = Vec::new();
        let mut used: u128 = 0;
        let mut fills: usize = 0;
        let mut i: usize = 0;
        while i < n
            invariant
                i <= n,
                n == cols.len(),
                cols == self.columns@,
                dw == match data_widths {
                    Some(v) => Some(v@),
                    None => None,
                },
                widths@.len() == i,
                used == spec_used(cols, dw, i as int),
                used <= 0xffffffffffffffff as u128 * (i as u128),
                fills == spec_fill_count(cols, i as int),
                fills <= i,
                forall|k: int|
                    0 <= k < i && !((#[trigger] cols[k]).width is Fill) ==> widths@[k]
                        == spec_base_width(cols[k].width, spec_data_at(dw, k)),
                forall|k: int| 0 <= k < i && (#[trigger] cols[k]).width is Fill ==> widths@[k] == 0,
            decreases n - i,
        {
            let w: usize = match self.columns[i].width {
                Width::Fixed(x) => x,
                Width::Bounded { min, max } => {
                    let mn: usize = match min {
                        Some(m) => m,
                        None => 0,
                    };
                    let mx: usize = match max {
                        Some(m) => m,
                        None => usize::MAX,
                    };
                    let d: usize = match data_widths {
                        Some(v) => if i < v.len() {
                            v[i]
                        } else {
                            0
                        },
                        None => 0,
                    };
                    let lo = if d >= mn {
                        d
                    } else {
                        mn
                    };
                    if lo <= mx {
                        lo
                    } else {
                        mx
                    }
                },
                Width::Fill => {
                    fills = fills + 1;
                    0
                },
            };
            proof {
                assert(0xffffffffffffffff as u128 * (i as u128) + 0xffffffffffffffff
                    <= 0xffffffffffffffff as u128 * ((i + 1) as u128)) by (nonlinear_arith)
                    requires
                        0 <= i < 0xffffffffffffffff,
                ;
            }
            used = used + w as u128;
            widths.push(w);
            i = i + 1;
        }
        // Second pass: share the remaining space among the fill columns.
        let remaining: usize = if (avail as u128) >= used {
            avail - (used as usize)
        } else {
            0
        };
        if fills > 0 {
            let per = remaining / fills;
            let extra = remaining % fills;
            let mut j: usize = 0;
            let mut seen: usize = 0;
            while j < n
                invariant
                    j <= n,
                    n == cols.len(),
                    cols == self.columns@,
                    widths@.len() == n,
                    fills > 0,
                    remaining <= usize::MAX,
                    seen == spec_fill_count(cols, j as int),
                    seen <= j,
                    per == remaining as int / fills as int,
                    extra == remaining as int % fills as int,
                    forall|k: int|
                        0 <= k < n && !((#[trigger] cols[k]).width is Fill) ==> widths@[k]
                            == spec_base_width(cols[k].width, spec_data_at(dw, k)),
                    forall|k: int|
                        j <= k < n && (#[trigger] cols[k]).width is Fill ==> widths@[k] == 0,
                    forall|k: int|
                        0 <= k < j && (#[trigger] cols[k]).width is Fill ==> widths@[k] == per + (
                        if spec_fill_count(cols, k) < extra {
                            1int
                        } else {
                            0int
                        }),
                decreases n - j,
            {
                let is_fill = match self.columns[j].width {
                    Width::Fill => true,
                    _ => false,
                };
                if is_fill {
                    let add: usize = if seen < extra {
                        1
                    } else {
                        0
                    };
                    proof {
                        lemma_div_mod_facts(remaining as int, fills as int);
                    }
                    let ghost before = widths@;
                    let filler = widths.remove(j);
                    widths.insert(j, per + add);
                    proof {
                        assert(widths@ =~= before.update(j as int, (per + add) as usize));
                    }
                    seen = seen + 1;
                }
                j = j + 1;
            }
            proof {
                assert(used as int == spec_used(cols, dw, n as int));
                assert(fills as int == spec_fill_count(cols, n as int));
                assert(self.spec_resolved(total_width as int, dw, widths@));
            }
            ResolvedWidths { widths }
        } else {
            proof {
                assert forall|k: int|
                    0 <= k < n && (#[trigger] cols[k]).width is Fill implies false by {
                    lemma_fill_present(cols, k, n as int);
                }
            }
            ResolvedWidths { widths }
        }
    }
}

/// A fill column anywhere makes the fill count positive.
proof fn lemma_fill_present(cols: Seq<Column>, i: int, n: int)
    requires
        0 <= i < n <= cols.len(),
        cols[i].width is Fill,
    ensures
        spec_fill_count(cols, n) >= 1,
        spec_fill_count(cols, n) >= 0,
    decreases n,
{
    if i < n - 1 {
        lemma_fill_present(cols, i, n - 1);
        lemma_fill_count_nonneg(cols, n - 1);
    } else {
        lemma_fill_count_nonneg(cols, n - 1);
    }
}

/// Fill counts are non-negative.
proof fn lemma_fill_count_nonneg(cols: Seq<Column>, n: int)
    ensures
        spec_fill_count(cols, n) >= 0,
    decreases n,
{
    if n > 0 {
        lemma_fill_count_nonneg(cols, n - 1);
    }
}

/// The largest display width in column `c` among the first `rows` rows of
/// the data; zero when no row reaches the column.
pub open spec fn spec_col_max(data: Seq<Vec<String>>, c: int, rows: int) -> int
    decreases rows,
{
    if rows <= 0 {
        0
    } else {
        let prev = spec_col_max(data, c, rows - 1);
        let row = data[rows - 1]@;
        if c < row.len() && str_display_width(row[c]@) > prev {
            str_display_width(row[c]@) as int
        } else {
            prev
        }
    }
}

/// The per-column data widths of a data set, for `n` columns.
pub open spec fn spec_data_widths(data: Seq<Vec<String>>, n: int) -> Seq<usize> {
    Seq::new(n as nat, |c: int| spec_col_max(data, c, data.len() as int) as usize)
}

} // verus!
