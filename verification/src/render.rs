//! Rendering one record as a quoted, padded, tab-expanded line.
//!
//! Each field is written as a double quote, the field's characters with every
//! tab expanded to four literal spaces, a closing double quote, and then
//! enough spaces to pad the field's display width up to its column width plus
//! a two-column gap. The quote-pad sequence is the only column separator. A
//! field beyond the tracked columns is rendered unpadded. The line ends with
//! a single newline.

use vstd::prelude::*;

use crate::columns::ColumnWidths;
use crate::columns::col_at;
use crate::columns::est_cols;
use crate::columns::est_len;
use crate::columns::est_width;
use crate::columns::nat_max;
use crate::columns::rec_ok;
use crate::columns::rec_view;
use crate::columns::row_width;
use crate::width::field_ok;
use crate::width::terminal_len;
use crate::width::terminal_length;

verus! {

/// Relies on `String::push`: appends exactly the given character.
#[verifier::external_body]
fn push_char(out: &mut String, c: char)
    ensures
        final (out)@ == old(out)@.push(c),
{
    out.push(c);
}

/// A field's characters with every tab replaced by four literal spaces.
pub open spec fn expand_tabs(f: Seq<char>) -> Seq<char>
    decreases f.len(),
{
    if f.len() == 0 {
        Seq::empty()
    } else {
        expand_tabs(f.drop_last()) + (if f.last() == '\t' {
            seq![' ', ' ', ' ', ' ']
        } else {
            seq![f.last()]
        })
    }
}

pub open spec fn spaces(n: nat) -> Seq<char> {
    Seq::new(n, |i: int| ' ')
}

/// Spaces appended after a field's closing quote: enough to pad the field's
/// display width up to the column width plus the two-column gap, none for a
/// field beyond the tracked columns or one already wider than that target.
pub open spec fn pad_width(cols: Seq<nat>, i: int, f: Seq<char>) -> nat {
    if 0 <= i < cols.len() {
        if terminal_len(f) <= cols[i] + 2 {
            (cols[i] + 2 - terminal_len(f)) as nat
        } else {
            0
        }
    } else {
        0
    }
}

/// One rendered cell: the quoted, tab-expanded field followed by its padding.
pub open spec fn render_cell(f: Seq<char>, pad: nat) -> Seq<char> {
    seq!['"'] + expand_tabs(f) + seq!['"'] + spaces(pad)
}

pub open spec fn render_cells(rec: Seq<Seq<char>>, cols: Seq<nat>) -> Seq<char>
    decreases rec.len(),
{
    if rec.len() == 0 {
        Seq::empty()
    } else {
        render_cells(rec.drop_last(), cols) + render_cell(
            rec.last(),
            pad_width(cols, rec.len() - 1, rec.last()),
        )
    }
}

/// One record as a full output line: every cell in order, then a newline.
pub open spec fn render_line(rec: Seq<Seq<char>>, cols: Seq<nat>) -> Seq<char> {
    render_cells(rec, cols) + seq!['\n']
}

/// Write one record as a line at the given frozen column widths.
pub fn render_record(record: &Vec<String>, cols: &ColumnWidths) -> (out: String)
    requires
        rec_ok(rec_view(*record)),
        cols.wf(),
    ensures
        out@ == render_line(rec_view(*record), cols@),
{
    let ghost rv = rec_view(*record);
    let mut out = String::new();
    let mut i: usize = 0;
    while i < record.len()
        invariant
            rec_ok(rv),
            rv == rec_view(*record),
            cols.wf(),
            i <= rv.len(),
            out@ == render_cells(rv.subrange(0, i as int), cols@),
        decreases rv.len() - i,
    {
        let ghost cell_start = out@;
        let ghost fv = rv[i as int];
        push_char(&mut out, '"');
        let field: &str = record[i].as_str();
        let n = field.unicode_len();
        let mut j: usize = 0;
        while j < n
            invariant
                n == fv.len(),
                field@ == fv,
                j <= n,
                out@ == cell_start + seq!['"'] + expand_tabs(fv.subrange(0, j as int)),
            decreases n - j,
        {
            let c = field.get_char(j);
            let ghost before = out@;
            if c == '\t' {
                push_char(&mut out, ' ');
                push_char(&mut out, ' ');
                push_char(&mut out, ' ');
                push_char(&mut out, ' ');
                proof {
                    assert(out@ =~= before + seq![' ', ' ', ' ', ' ']);
                }
            } else {
                push_char(&mut out, c);
                proof {
                    assert(out@ =~= before + seq![c]);
                }
            }
            proof {
                assert(fv.subrange(0, j + 1).drop_last() =~= fv.subrange(0, j as int));
                assert(fv.subrange(0, j + 1).last() == fv[j as int]);
                assert(out@ =~= cell_start + seq!['"'] + expand_tabs(fv.subrange(0, j + 1)));
            }
            j = j + 1;
        }
        proof {
            assert(fv.subrange(0, n as int) =~= fv);
        }
        push_char(&mut out, '"');
        proof {
            assert(field_ok(fv));
        }
        let tl = terminal_length(field);
        let ghost quoted = out@;
        if i < cols.len() {
            let target = cols.width_at(i) + 2;
            let pad = if tl <= target {
                target - tl
            } else {
                0
            };
            proof {
                assert(pad == pad_width(cols@, i as int, fv));
                assert(quoted + spaces(0) =~= quoted);
            }
            let mut k: usize = 0;
            while k < pad
                invariant
                    k <= pad,
                    out@ == quoted + spaces(k as nat),
                decreases pad - k,
            {
                push_char(&mut out, ' ');
                proof {
                    assert(out@ =~= quoted + spaces((k + 1) as nat));
                }
                k = k + 1;
            }
        } else {
            proof {
                assert(pad_width(cols@, i as int, fv) == 0);
                assert(out@ =~= quoted + spaces(0));
            }
        }
        proof {
            assert(out@ =~= cell_start + render_cell(fv, pad_width(cols@, i as int, fv)));
            assert(rv.subrange(0, i + 1).drop_last() =~= rv.subrange(0, i as int));
            assert(rv.subrange(0, i + 1).last() == fv);
            assert(out@ =~= render_cells(rv.subrange(0, i + 1), cols@));
        }
        i = i + 1;
    }
    proof {
        assert(rv.subrange(0, rv.len() as int) =~= rv);
    }
    push_char(&mut out, '\n');
    proof {
        assert(out@ =~= render_line(rv, cols@));
    }
    out
}

/// The rendered line is a pure function of the record and the frozen column
/// widths: two renderings of the same record at the same widths are
/// character-for-character identical.
pub proof fn lemma_render_idempotent(
    rec: Seq<Seq<char>>,
    cols: Seq<nat>,
    first: Seq<char>,
    second: Seq<char>,
)
    requires
        first == render_line(rec, cols),
        second == render_line(rec, cols),
    ensures
        first == second,
{
}

/// Alignment of a single cell: a field no wider than its column is padded so
/// that its display width plus its padding equals the column width plus the
/// two-column gap, exactly.
pub proof fn lemma_alignment(f: Seq<char>, cols: Seq<nat>, i: int)
    requires
        0 <= i < cols.len(),
        terminal_len(f) <= cols[i],
    ensures
        terminal_len(f) + pad_width(cols, i, f) == cols[i] + 2,
{
}

/// No record in the estimation window is wider than the widths estimated
/// from that window: the window's largest field count and per-column widths
/// bound every record in it.
pub proof fn lemma_est_bounds(rows: Seq<Seq<Seq<char>>>, k: int)
    requires
        0 <= k < rows.len(),
    ensures
        rows[k].len() <= est_len(rows),
        forall|i: int| row_width(rows[k], i) <= #[trigger] est_width(rows, i),
    decreases rows.len(),
{
    if k == rows.len() - 1 {
        assert(rows.last() == rows[k]);
        assert forall|i: int| row_width(rows[k], i) <= #[trigger] est_width(rows, i) by {
            assert(est_width(rows, i) == nat_max(
                est_width(rows.drop_last(), i),
                row_width(rows[k], i),
            ));
        }
    } else {
        lemma_est_bounds(rows.drop_last(), k);
        assert(rows.drop_last()[k] == rows[k]);
        assert(rows[k].len() <= est_len(rows.drop_last()));
        assert forall|i: int| row_width(rows[k], i) <= #[trigger] est_width(rows, i) by {
            assert(row_width(rows[k], i) <= est_width(rows.drop_last(), i));
            assert(est_width(rows, i) == nat_max(
                est_width(rows.drop_last(), i),
                row_width(rows.last(), i),
            ));
        }
    }
}

/// Alignment across the estimation window: for every record in the window
/// and every field it has, the field's display width plus its padding at the
/// estimated widths equals that column's estimated width plus the two-column
/// gap, exactly.
pub proof fn lemma_window_alignment(rows: Seq<Seq<Seq<char>>>, k: int, i: int)
    requires
        0 <= k < rows.len(),
        0 <= i < rows[k].len(),
    ensures
        i < est_cols(rows).len(),
        terminal_len(rows[k][i]) + pad_width(est_cols(rows), i, rows[k][i]) == est_cols(rows)[i]
            + 2,
{
    lemma_est_bounds(rows, k);
    assert(row_width(rows[k], i) == terminal_len(rows[k][i]));
    lemma_alignment(rows[k][i], est_cols(rows), i);
}

} // verus!
