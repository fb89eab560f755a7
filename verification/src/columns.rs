//! Per-column display widths, estimated from a window of records.
//!
//! A `ColumnWidths` value tracks the running maximum display width of every
//! column seen so far. It is seeded from the header's fields and then grows,
//! never shrinks, as further records are observed; a record with more fields
//! than any seen before extends the column set.

use vstd::prelude::*;

use crate::width::field_ok;
use crate::width::terminal_len;
use crate::width::terminal_length;

verus! {

/// The characters of each field of a record.
pub open spec fn rec_view(r: Vec<String>) -> Seq<Seq<char>> {
    Seq::new(r@.len(), |i: int| r@[i]@)
}

/// Every field of the record is short enough for width arithmetic.
pub open spec fn rec_ok(r: Seq<Seq<char>>) -> bool {
    forall|i: int| 0 <= i < r.len() ==> field_ok(#[trigger] r[i])
}

/// The width a record asks of column `i`: the display width of its field
/// there, or 0 where the record has no such field.
pub open spec fn row_width(r: Seq<Seq<char>>, i: int) -> nat {
    if 0 <= i < r.len() {
        terminal_len(r[i])
    } else {
        0
    }
}

/// The width recorded for column `i`, 0 beyond the tracked columns.
pub open spec fn col_at(cols: Seq<nat>, i: int) -> nat {
    if 0 <= i < cols.len() {
        cols[i]
    } else {
        0
    }
}

pub open spec fn nat_max(a: nat, b: nat) -> nat {
    if a >= b {
        a
    } else {
        b
    }
}

/// Number of columns after a sequence of records has been estimated: the
/// largest field count among them.
pub open spec fn est_len(rows: Seq<Seq<Seq<char>>>) -> nat
    decreases rows.len(),
{
    if rows.len() == 0 {
        0
    } else {
        nat_max(est_len(rows.drop_last()), rows.last().len())
    }
}

/// Width of column `i` after a sequence of records has been estimated: the
/// largest display width any of them shows in that column.
pub open spec fn est_width(rows: Seq<Seq<Seq<char>>>, i: int) -> nat
    decreases rows.len(),
{
    if rows.len() == 0 {
        0
    } else {
        nat_max(est_width(rows.drop_last(), i), row_width(rows.last(), i))
    }
}

/// The column widths that estimating a sequence of records yields.
pub open spec fn est_cols(rows: Seq<Seq<Seq<char>>>) -> Seq<nat> {
    Seq::new(est_len(rows), |i: int| est_width(rows, i))
}

pub open spec fn nat_min(a: nat, b: nat) -> nat {
    if a <= b {
        a
    } else {
        b
    }
}

/// Estimating one more record extends the column set to the record's field
/// count where it is larger and raises each column to the record's width
/// there where that is larger.
pub proof fn lemma_est_step(rows: Seq<Seq<Seq<char>>>, r: Seq<Seq<char>>)
    ensures
        est_len(rows.push(r)) == nat_max(est_len(rows), r.len()),
        forall|i: int| #[trigger]
            est_width(rows.push(r), i) == nat_max(est_width(rows, i), row_width(r, i)),
{
    assert(rows.push(r).drop_last() =~= rows);
    assert(rows.push(r).last() == r);
}

/// Beyond the estimated column count no record has a field, so the estimated
/// width there is zero.
pub proof fn lemma_est_width_beyond(rows: Seq<Seq<Seq<char>>>, i: int)
    requires
        i >= est_len(rows),
    ensures
        est_width(rows, i) == 0,
    decreases rows.len(),
{
    if rows.len() > 0 {
        lemma_est_width_beyond(rows.drop_last(), i);
    }
}

/// Running per-column maximum display widths.
pub struct ColumnWidths {
    widths: Vec<usize>,
}

impl View for ColumnWidths {
    type V = Seq<nat>;

    closed spec fn view(&self) -> Seq<nat> {
        Seq::new(self.widths@.len(), |i: int| self.widths@[i] as nat)
    }
}

impl ColumnWidths {
    /// Every recorded width leaves room for the two-column gap without
    /// overflowing `usize`.
    pub open spec fn wf(&self) -> bool {
        forall|i: int| 0 <= i < self@.len() ==> #[trigger] self@[i] + 2 <= usize::MAX
    }

    /// Seed the column widths from the header: one column per header field,
    /// at that field's display width.
    pub fn from_header(header: &Vec<String>) -> (r: ColumnWidths)
        requires
            rec_ok(rec_view(*header)),
        ensures
            r@ == est_cols(seq![rec_view(*header)]),
            r.wf(),
    {
        let ghost hv = rec_view(*header);
        let mut widths: Vec<usize> = Vec::new();
        let mut i: usize = 0;
        while i < header.len()
            invariant
                i <= header@.len(),
                rec_ok(rec_view(*header)),
                hv == rec_view(*header),
                widths@.len() == i,
                forall|j: int|
                    0 <= j < i ==> #[trigger] widths@[j] == terminal_len(hv[j]) && 4 * hv[j].len()
                        + 2 <= usize::MAX && widths@[j] <= 4 * hv[j].len(),
            decreases header@.len() - i,
        {
            proof {
                assert(field_ok(hv[i as int]));
            }
            let w = terminal_length(header[i].as_str());
            widths.push(w);
            i = i + 1;
        }
        let r = ColumnWidths { widths };
        proof {
            assert(seq![hv].drop_last() =~= Seq::<Seq<Seq<char>>>::empty());
            assert(seq![hv].last() == hv);
            assert(est_len(Seq::<Seq<Seq<char>>>::empty()) == 0);
            assert(est_len(seq![hv]) == hv.len());
            assert forall|j: int| 0 <= j < r@.len() implies #[trigger] r@[j] == est_width(
                seq![hv],
                j,
            ) by {
                assert(est_width(Seq::<Seq<Seq<char>>>::empty(), j) == 0);
                assert(row_width(hv, j) == terminal_len(hv[j]));
            }
            assert(r@ =~= est_cols(seq![hv]));
        }
        r
    }

    /// Fold one more record into the running maxima: extend the column set
    /// with zero-width entries if the record has more fields than any seen
    /// before, then raise each column to that field's display width where it
    /// is larger. Existing widths never shrink.
    pub fn observe(&mut self, record: &Vec<String>)
        requires
            old(self).wf(),
            rec_ok(rec_view(*record)),
        ensures
            final(self).wf(),
            final(self)@.len() == nat_max(old(self)@.len(), rec_view(*record).len()),
            forall|i: int|
                0 <= i < final(self)@.len() ==> #[trigger] final(self)@[i] == nat_max(
                    col_at(old(self)@, i),
                    row_width(rec_view(*record), i),
                ),
            forall|i: int| 0 <= i < old(self)@.len() ==> #[trigger] final(self)@[i] >= old(self)@[i],
    {
        let ghost cols0 = self@;
        let ghost rv = rec_view(*record);
        while self.widths.len() < record.len()
            invariant
                rec_ok(rv),
                rv == rec_view(*record),
                self@.len() >= cols0.len(),
                self@.len() <= nat_max(cols0.len(), rv.len()),
                forall|i: int| 0 <= i < cols0.len() ==> #[trigger] self@[i] == cols0[i],
                forall|i: int| cols0.len() <= i < self@.len() ==> #[trigger] self@[i] == 0,
                self.wf(),
            decreases rv.len() - self.widths@.len(),
        {
            let ghost prev = self@;
            self.widths.push(0);
            proof {
                assert(self@ =~= prev.push(0nat));
            }
        }
        let ghost ext = self@;
        proof {
            assert(ext.len() == nat_max(cols0.len(), rv.len()));
            assert(forall|i: int| 0 <= i < ext.len() ==> #[trigger] ext[i] == col_at(cols0, i));
        }
        let mut i: usize = 0;
        while i < record.len()
            invariant
                rec_ok(rv),
                rv == rec_view(*record),
                i <= rv.len(),
                self@.len() == ext.len(),
                rv.len() <= ext.len(),
                forall|j: int|
                    0 <= j < i ==> #[trigger] self@[j] == nat_max(ext[j], row_width(rv, j)),
                forall|j: int| i <= j < ext.len() ==> #[trigger] self@[j] == ext[j],
                self.wf(),
            decreases rv.len() - i,
        {
            proof {
                assert(field_ok(rv[i as int]));
            }
            let w = terminal_length(record[i].as_str());
            let ghost prev = self@;
            proof {
                assert(w == terminal_len(rv[i as int]));
                assert(prev[i as int] == ext[i as int]);
            }
            if w > self.widths[i] {
                self.widths.set(i, w);
                proof {
                    assert(self@ =~= prev.update(i as int, w as nat));
                }
            }
            proof {
                assert(row_width(rv, i as int) == terminal_len(rv[i as int]));
                assert(self@[i as int] == nat_max(ext[i as int], row_width(rv, i as int)));
            }
            i = i + 1;
        }
        proof {
            assert forall|j: int| 0 <= j < self@.len() implies #[trigger] self@[j] == nat_max(
                col_at(cols0, j),
                row_width(rv, j),
            ) by {
                if j >= rv.len() {
                    assert(row_width(rv, j) == 0);
                }
            }
        }
    }

    /// The width recorded for column `i`, 0 beyond the tracked columns.
    pub fn width_at(&self, i: usize) -> (r: usize)
        ensures
            r == col_at(self@, i as int),
    {
        if i < self.widths.len() {
            self.widths[i]
        } else {
            0
        }
    }

    /// How many columns have been seen so far.
    pub fn len(&self) -> (r: usize)
        ensures
            r == self@.len(),
    {
        self.widths.len()
    }
}

} // verus!
