//! The summary as text: a box of three rows, with the lower values of the
//! seven summary quantiles, their upper values, and a scale that names the
//! quantiles.
use vstd::prelude::*;
use vstd::string::StringExecFns;
use crate::ccdf::ccdf_points;
use crate::histogram::HDRHist;
use crate::quantile::{Quantile, quantile_brackets, summary_quantiles};

verus! {

/// What std's `format!` makes of a `u64` with the pattern `" {:^11.6e} "`:
/// the value in scientific notation with six decimals, centred in a field
/// of eleven characters, between two spaces.
pub uninterp spec fn scientific_cell_text(value: u64) -> Seq<char>;

/// Formats one value of the summary with std's `format!` and the pattern
/// `" {:^11.6e} "`, which goes through `LowerExp` for `u64`. It is taken on
/// trust that the text depends on the value alone; nothing else is claimed
/// of it.
#[verifier::external_body]
fn scientific_cell(value: u64) -> (cell: String)
    ensures
        cell@ == scientific_cell_text(value),
{
    format!(" {:^11.6e} ", value)
}

/// A row of values: each cell with a space before it.
pub open spec fn value_row(cells: Seq<Seq<char>>) -> Seq<char>
    decreases cells.len(),
{
    if cells.len() == 0 {
        Seq::empty()
    } else {
        value_row(cells.drop_last()) + " "@ + cells.last()
    }
}

/// The scale below the values: for each quantile of the summary a mark and
/// a label. A bracket runs from the first quartile to the 0.95 quantile,
/// and a whisker from there to the maximum.
pub open spec fn scale_row() -> Seq<char> {
    "╰ "@ + "["@ + "    0.25     "@ + " "@ + "    0.5      "@ + " "@ + "    0.75     "@ + "]"@
        + "--- 0.95  ---"@ + "-"@ + "--- 0.99  ---"@ + "-"@ + "--- 0.999 ---"@ + "-"@
        + "---| max     "@ + "╯"@
}

/// The three rows of the summary, from the cells of the lower and of the
/// upper values.
pub open spec fn summary_layout(lower: Seq<Seq<char>>, upper: Seq<Seq<char>>) -> Seq<char> {
    "╭ "@ + value_row(lower) + "╮\n"@ + "| "@ + value_row(upper) + "|\n"@ + scale_row()
}

/// The cells of the lower values of a list of brackets.
pub open spec fn lower_cells(brackets: Seq<(Quantile, u64, u64)>) -> Seq<Seq<char>> {
    Seq::new(brackets.len(), |j: int| scientific_cell_text(brackets[j].1))
}

/// The cells of the upper values of a list of brackets.
pub open spec fn upper_cells(brackets: Seq<(Quantile, u64, u64)>) -> Seq<Seq<char>> {
    Seq::new(brackets.len(), |j: int| scientific_cell_text(brackets[j].2))
}

/// Appends a row of values to `text`.
fn append_value_row(text: &mut String, cells: &Vec<String>)
    ensures
        final(text)@ == old(text)@ + value_row(cells.deep_view()),
{
    let ghost all = cells.deep_view();
    let mut j: usize = 0;
    while j < cells.len()
        invariant
            j <= cells@.len(),
            all == cells.deep_view(),
            text@ == old(text)@ + value_row(all.take(j as int)),
        decreases cells@.len() - j,
    {
        text.append(" ");
        text.append(cells[j].as_str());
        proof {
            let next = all.take(j + 1);
            assert(next.drop_last() =~= all.take(j as int));
            assert(next.last() == cells@[j as int]@);
        }
        j += 1;
    }
    proof {
        assert(all.take(cells@.len() as int) =~= all);
    }
}

/// Appends the scale to `text`.
fn append_scale_row(text: &mut String)
    ensures
        final(text)@ == old(text)@ + scale_row(),
{
    text.append("╰ ");
    text.append("[");
    text.append("    0.25     ");
    text.append(" ");
    text.append("    0.5      ");
    text.append(" ");
    text.append("    0.75     ");
    text.append("]");
    text.append("--- 0.95  ---");
    text.append("-");
    text.append("--- 0.99  ---");
    text.append("-");
    text.append("--- 0.999 ---");
    text.append("-");
    text.append("---| max     ");
    text.append("╯");
}

/// Lays the cells of the lower and of the upper values out as the three
/// rows of the summary.
pub fn render_summary(lower: &Vec<String>, upper: &Vec<String>) -> (text: String)
    ensures
        text@ == summary_layout(lower.deep_view(), upper.deep_view()),
{
    let mut text = String::from_str("╭ ");
    append_value_row(&mut text, lower);
    text.append("╮\n");
    text.append("| ");
    append_value_row(&mut text, upper);
    text.append("|\n");
    append_scale_row(&mut text);
    text
}

impl HDRHist {
    /// The summary as three rows of text: the lower values of the seven
    /// summary quantiles, their upper values, and the scale.
    pub fn summary_string(&self) -> (text: String)
        requires
            self.wf(),
        ensures
            ({
                let brackets = quantile_brackets(
                    ccdf_points(self@.counts, self.precision_bits()),
                    summary_quantiles(),
                );
                text@ == summary_layout(lower_cells(brackets), upper_cells(brackets))
            }),
    {
        let brackets = self.summary();
        let mut lower: Vec<String> = Vec::new();
        let mut upper: Vec<String> = Vec::new();
        let mut j: usize = 0;
        while j < brackets.len()
            invariant
                j <= brackets@.len(),
                lower@.len() == j,
                upper@.len() == j,
                forall|k: int| 0 <= k < j ==> lower@[k]@ == scientific_cell_text(brackets@[k].1),
                forall|k: int| 0 <= k < j ==> upper@[k]@ == scientific_cell_text(brackets@[k].2),
            decreases brackets@.len() - j,
        {
            lower.push(scientific_cell(brackets[j].1));
            upper.push(scientific_cell(brackets[j].2));
            j += 1;
        }
        proof {
            assert(lower.deep_view() =~= lower_cells(brackets@));
            assert(upper.deep_view() =~= upper_cells(brackets@));
        }
        render_summary(&lower, &upper)
    }
}

} // verus!
