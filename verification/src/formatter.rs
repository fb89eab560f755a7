//! The streaming two-pass formatter.
//!
//! The formatter first estimates column widths over a bounded lookahead
//! window — the header plus up to `bound` buffered records — then emits the
//! whole window at the frozen widths, and from then on renders every further
//! record immediately as it arrives, so memory stays bounded on unbounded
//! input. A record seen only after the window is rendered at the frozen
//! widths even where it is wider; later rows may therefore misalign, the
//! accepted price of one-pass estimation.

use vstd::prelude::*;

use crate::columns::ColumnWidths;
use crate::columns::col_at;
use crate::columns::est_cols;
use crate::columns::est_len;
use crate::columns::est_width;
use crate::columns::lemma_est_step;
use crate::columns::lemma_est_width_beyond;
use crate::columns::nat_min;
use crate::columns::rec_ok;
use crate::columns::rec_view;
use crate::render::render_line;
use crate::render::render_record;

verus! {

/// Where the formatter stands: still filling the lookahead window, past it
/// and rendering records as they arrive, or finished.
#[derive(Clone, Copy)]
pub enum Phase {
    Estimating,
    Streaming,
    Done,
}

/// The characters of each field of each record of a sequence.
pub open spec fn recs_view(rs: Vec<Vec<String>>) -> Seq<Seq<Seq<char>>> {
    Seq::new(rs@.len(), |i: int| rec_view(rs@[i]))
}

/// The lines that flushing a window yields: every record of the window, the
/// header first, rendered at the widths estimated from the whole window.
pub open spec fn flush_lines(rows: Seq<Seq<Seq<char>>>) -> Seq<Seq<char>> {
    Seq::new(rows.len(), |i: int| render_line(rows[i], est_cols(rows)))
}

/// The estimation window a whole input yields: the header, then the first
/// `bound` records — or all of them, where the input is shorter.
pub open spec fn window_of(
    h: Seq<Seq<char>>,
    rows: Seq<Seq<Seq<char>>>,
    bound: nat,
) -> Seq<Seq<Seq<char>>> {
    seq![h] + rows.take(nat_min(bound, rows.len()) as int)
}

/// The first `n + 1` output lines for an input: the header and then each of
/// the first `n` records, all rendered at the same column widths.
pub open spec fn prefix_lines(
    h: Seq<Seq<char>>,
    rows: Seq<Seq<Seq<char>>>,
    cols: Seq<nat>,
    n: int,
) -> Seq<Seq<char>> {
    Seq::new(
        (n + 1) as nat,
        |j: int|
            if j == 0 {
                render_line(h, cols)
            } else {
                render_line(rows[j - 1], cols)
            },
    )
}

/// The complete output for an input: one line per record, the header first,
/// every line rendered at the widths estimated from the lookahead window.
pub open spec fn run_lines(
    h: Seq<Seq<char>>,
    rows: Seq<Seq<Seq<char>>>,
    bound: nat,
) -> Seq<Seq<char>> {
    prefix_lines(h, rows, est_cols(window_of(h, rows, bound)), rows.len() as int)
}

pub struct StreamingFormatter {
    phase: Phase,
    header: Vec<String>,
    buffer: Vec<Vec<String>>,
    cols: ColumnWidths,
    bound: usize,
}

impl StreamingFormatter {
    pub closed spec fn spec_phase(&self) -> Phase {
        self.phase
    }

    pub closed spec fn spec_bound(&self) -> nat {
        self.bound as nat
    }

    pub closed spec fn spec_header(&self) -> Seq<Seq<char>> {
        rec_view(self.header)
    }

    pub closed spec fn spec_buffer(&self) -> Seq<Seq<Seq<char>>> {
        Seq::new(self.buffer@.len(), |i: int| rec_view(self.buffer@[i]))
    }

    pub closed spec fn spec_cols(&self) -> Seq<nat> {
        self.cols@
    }

    /// The estimation window as read so far: the header, then the buffered
    /// records in arrival order.
    pub open spec fn window(&self) -> Seq<Seq<Seq<char>>> {
        seq![self.spec_header()] + self.spec_buffer()
    }

    /// Every tracked column width leaves room for the two-column gap.
    pub closed spec fn cols_ok(&self) -> bool {
        self.cols.wf()
    }

    /// The formatter's invariant: every held field is short enough for width
    /// arithmetic; while estimating, the buffer respects the lookahead bound
    /// and the column widths are exactly those estimated from the window;
    /// once the window is flushed the buffer is empty and the widths frozen.
    pub open spec fn wf(&self) -> bool {
        &&& rec_ok(self.spec_header())
        &&& (forall|k: int|
            0 <= k < self.spec_buffer().len() ==> rec_ok(#[trigger] self.spec_buffer()[k]))
        &&& self.cols_ok()
        &&& (self.spec_phase() is Estimating ==> self.spec_cols() == est_cols(self.window())
            && self.spec_buffer().len() <= self.spec_bound())
        &&& (!(self.spec_phase() is Estimating) ==> self.spec_buffer().len() == 0)
    }

    /// Open the stream: take the header, seed the column widths from it, and
    /// start filling the lookahead window.
    pub fn new(header: Vec<String>, bound: usize) -> (r: StreamingFormatter)
        requires
            rec_ok(rec_view(header)),
        ensures
            r.wf(),
            r.spec_phase() is Estimating,
            r.spec_header() == rec_view(header),
            r.spec_buffer().len() == 0,
            r.spec_bound() == bound,
    {
        let cols = ColumnWidths::from_header(&header);
        let r = StreamingFormatter { phase: Phase::Estimating, header, buffer: Vec::new(), cols, bound };
        proof {
            assert(r.spec_buffer() =~= Seq::<Seq<Seq<char>>>::empty());
            assert(r.window() =~= seq![r.spec_header()]);
        }
        r
    }

    /// Render the whole window — header first, then the buffered records in
    /// arrival order — at the widths estimated from it, drain the buffer and
    /// freeze the widths.
    fn flush(&mut self) -> (r: Vec<String>)
        requires
            old(self).wf(),
            old(self).spec_phase() is Estimating,
        ensures
            final (self).wf(),
            final (self).spec_phase() is Streaming,
            final (self).spec_header() == old(self).spec_header(),
            final (self).spec_bound() == old(self).spec_bound(),
            final (self).spec_cols() == est_cols(old(self).window()),
            rec_view(r) == flush_lines(old(self).window()),
    {
        let ghost w = self.window();
        let mut lines: Vec<String> = Vec::new();
        proof {
            assert(w[0] == self.spec_header());
        }
        let first = render_record(&self.header, &self.cols);
        lines.push(first);
        let mut k: usize = 0;
        while k < self.buffer.len()
            invariant
                self.wf(),
                self.spec_phase() is Estimating,
                w == self.window(),
                k <= self.spec_buffer().len(),
                lines@.len() == k + 1,
                forall|j: int|
                    0 <= j <= k ==> #[trigger] lines@[j]@ == render_line(w[j], est_cols(w)),
            decreases self.spec_buffer().len() - k,
        {
            proof {
                assert(rec_ok(self.spec_buffer()[k as int]));
                assert(w[k + 1] == rec_view(self.buffer@[k as int]));
            }
            let line = render_record(&self.buffer[k], &self.cols);
            lines.push(line);
            k = k + 1;
        }
        self.buffer = Vec::new();
        self.phase = Phase::Streaming;
        proof {
            assert(self.spec_buffer() =~= Seq::<Seq<Seq<char>>>::empty());
            assert(rec_view(lines) =~= flush_lines(w));
        }
        lines
    }

    /// Accept the next record and return the lines to emit now, in order.
    ///
    /// While the window has room the record is buffered into it, widening
    /// the columns, and nothing is emitted — except that the record filling
    /// the window triggers the flush, whose lines are returned. Past the
    /// window, the record is rendered immediately at the frozen widths.
    pub fn push(&mut self, record: Vec<String>) -> (r: Vec<String>)
        requires
            old(self).wf(),
            rec_ok(rec_view(record)),
            !(old(self).spec_phase() is Done),
        ensures
            final (self).wf(),
            !(final (self).spec_phase() is Done),
            final (self).spec_header() == old(self).spec_header(),
            final (self).spec_bound() == old(self).spec_bound(),
            (old(self).spec_phase() is Estimating && old(self).spec_buffer().len() + 1
                < old(self).spec_bound()) ==> {
                &&& final (self).spec_phase() is Estimating
                &&& final (self).spec_buffer() == old(self).spec_buffer().push(rec_view(record))
                &&& r@.len() == 0
            },
            (old(self).spec_phase() is Estimating && old(self).spec_buffer().len() + 1
                == old(self).spec_bound()) ==> {
                &&& final (self).spec_phase() is Streaming
                &&& final (self).spec_cols() == est_cols(
                    old(self).window().push(rec_view(record)),
                )
                &&& rec_view(r) == flush_lines(old(self).window().push(rec_view(record)))
            },
            (old(self).spec_phase() is Estimating && old(self).spec_buffer().len() + 1
                > old(self).spec_bound()) ==> {
                &&& final (self).spec_phase() is Streaming
                &&& final (self).spec_cols() == est_cols(old(self).window())
                &&& rec_view(r) == flush_lines(old(self).window()).push(
                    render_line(rec_view(record), est_cols(old(self).window())),
                )
            },
            old(self).spec_phase() is Streaming ==> {
                &&& final (self).spec_phase() is Streaming
                &&& final (self).spec_cols() == old(self).spec_cols()
                &&& rec_view(r) == seq![render_line(rec_view(record), old(self).spec_cols())]
            },
    {
        let ghost w = self.window();
        let ghost rv = rec_view(record);
        match self.phase {
            Phase::Estimating => {
                if self.buffer.len() < self.bound {
                    self.cols.observe(&record);
                    self.buffer.push(record);
                    proof {
                        assert(self.spec_buffer() =~= old(self).spec_buffer().push(rv));
                        assert(self.window() =~= w.push(rv));
                        lemma_est_step(w, rv);
                        assert(est_len(w) == old(self).spec_cols().len());
                        assert forall|i: int| 0 <= i < self.spec_cols().len() implies #[trigger]
                        self.spec_cols()[i] == est_width(w.push(rv), i) by {
                            if i >= est_len(w) {
                                lemma_est_width_beyond(w, i);
                            }
                            assert(col_at(old(self).spec_cols(), i) == est_width(w, i));
                        }
                        assert(self.spec_cols() =~= est_cols(w.push(rv)));
                    }
                    if self.buffer.len() == self.bound {
                        let lines = self.flush();
                        proof {
                            assert(w.push(rv).len() >= 1);
                        }
                        lines
                    } else {
                        Vec::new()
                    }
                } else {
                    let lines_flushed = self.flush();
                    let mut lines = lines_flushed;
                    proof {
                        assert(rec_ok(rv));
                    }
                    let line = render_record(&record, &self.cols);
                    lines.push(line);
                    proof {
                        assert(rec_view(lines) =~= flush_lines(w).push(
                            render_line(rv, est_cols(w)),
                        ));
                    }
                    lines
                }
            },
            Phase::Streaming => {
                let line = render_record(&record, &self.cols);
                let mut lines: Vec<String> = Vec::new();
                lines.push(line);
                proof {
                    assert(rec_view(lines) =~= seq![render_line(rv, old(self).spec_cols())]);
                }
                lines
            },
            Phase::Done => {
                proof {
                    assert(false);
                }
                Vec::new()
            },
        }
    }

    /// The input is exhausted. A window still being filled — the whole input
    /// fit in it — is flushed now; past the window there is nothing left to
    /// emit. Either way the formatter is done.
    pub fn finish(&mut self) -> (r: Vec<String>)
        requires
            old(self).wf(),
        ensures
            final (self).wf(),
            final (self).spec_phase() is Done,
            final (self).spec_header() == old(self).spec_header(),
            final (self).spec_bound() == old(self).spec_bound(),
            old(self).spec_phase() is Estimating ==> final (self).spec_cols() == est_cols(
                old(self).window(),
            ) && rec_view(r) == flush_lines(old(self).window()),
            !(old(self).spec_phase() is Estimating) ==> r@.len() == 0 && final (self).spec_cols()
                == old(self).spec_cols(),
    {
        match self.phase {
            Phase::Estimating => {
                let lines = self.flush();
                self.phase = Phase::Done;
                lines
            },
            Phase::Streaming => {
                self.phase = Phase::Done;
                Vec::new()
            },
            Phase::Done => Vec::new(),
        }
    }
}

fn clone_record(r: &Vec<String>) -> (c: Vec<String>)
    ensures
        rec_view(c) == rec_view(*r),
{
    let mut out: Vec<String> = Vec::new();
    let mut i: usize = 0;
    while i < r.len()
        invariant
            i <= r@.len(),
            out@.len() == i,
            forall|j: int| 0 <= j < i ==> #[trigger] out@[j]@ == r@[j]@,
        decreases r@.len() - i,
    {
        out.push(r[i].clone());
        i = i + 1;
    }
    proof {
        assert(rec_view(out) =~= rec_view(*r));
    }
    out
}

/// Format a whole input held in memory: feed every record through the
/// streaming formatter and collect the emitted lines. Exactly one line comes
/// out per record read, the header included — none dropped, none duplicated
/// — whether the input is shorter or longer than the lookahead bound.
pub fn format_records(header: Vec<String>, records: &Vec<Vec<String>>, bound: usize) -> (lines:
    Vec<String>)
    requires
        rec_ok(rec_view(header)),
        forall|k: int| 0 <= k < records@.len() ==> rec_ok(#[trigger] recs_view(*records)[k]),
    ensures
        rec_view(lines) == run_lines(rec_view(header), recs_view(*records), bound as nat),
        lines@.len() == records@.len() + 1,
{
    let ghost h = rec_view(header);
    let ghost rows = recs_view(*records);
    let ghost w = window_of(h, rows, bound as nat);
    let mut fmt = StreamingFormatter::new(header, bound);
    let mut lines: Vec<String> = Vec::new();
    let mut i: usize = 0;
    while i < records.len()
        invariant
            rows == recs_view(*records),
            w == window_of(h, rows, bound as nat),
            forall|k: int| 0 <= k < rows.len() ==> rec_ok(#[trigger] rows[k]),
            i <= rows.len(),
            fmt.wf(),
            fmt.spec_header() == h,
            fmt.spec_bound() == bound,
            !(fmt.spec_phase() is Done),
            fmt.spec_phase() is Estimating ==> fmt.spec_buffer() == rows.take(i as int)
                && lines@.len() == 0,
            fmt.spec_phase() is Streaming ==> bound <= rows.len() && i >= bound
                && fmt.spec_cols() == est_cols(w) && rec_view(lines) == prefix_lines(
                h,
                rows,
                est_cols(w),
                i as int,
            ),
        decreases rows.len() - i,
    {
        let rec = clone_record(&records[i]);
        proof {
            assert(rec_view(rec) == rows[i as int]);
            assert(rec_ok(rows[i as int]));
        }
        let ghost pre = fmt;
        let ghost lines0 = rec_view(lines);
        let mut out = fmt.push(rec);
        let ghost out0 = rec_view(out);
        lines.append(&mut out);
        proof {
            assert(rec_view(lines) =~= lines0 + out0);
            if pre.spec_phase() is Estimating {
                assert(pre.spec_buffer() == rows.take(i as int));
                assert(pre.spec_buffer().len() == i);
                assert(pre.window() =~= seq![h] + rows.take(i as int));
                if i + 1 < bound {
                    assert(fmt.spec_buffer() =~= rows.take(i + 1));
                    assert(rec_view(lines) =~= lines0);
                } else if i + 1 == bound {
                    assert(nat_min(bound as nat, rows.len()) == bound as nat);
                    assert(pre.window().push(rows[i as int]) =~= w);
                    assert(rec_view(lines) =~= flush_lines(w));
                    assert(rec_view(lines) =~= prefix_lines(h, rows, est_cols(w), i + 1));
                } else {
                    assert(i == bound);
                    assert(nat_min(bound as nat, rows.len()) == bound as nat);
                    assert(pre.window() =~= w);
                    assert(rec_view(lines) =~= flush_lines(w).push(
                        render_line(rows[i as int], est_cols(w)),
                    ));
                    assert(rec_view(lines) =~= prefix_lines(h, rows, est_cols(w), i + 1));
                }
            } else {
                assert(rec_view(lines) =~= prefix_lines(h, rows, est_cols(w), i as int).push(
                    render_line(rows[i as int], est_cols(w)),
                ));
                assert(rec_view(lines) =~= prefix_lines(h, rows, est_cols(w), i + 1));
            }
        }
        i = i + 1;
    }
    let ghost pre = fmt;
    let ghost lines0 = rec_view(lines);
    let mut tail = fmt.finish();
    let ghost tail0 = rec_view(tail);
    lines.append(&mut tail);
    proof {
        assert(rec_view(lines) =~= lines0 + tail0);
        if pre.spec_phase() is Estimating {
            assert(pre.spec_buffer() == rows.take(rows.len() as int));
            assert(rows.take(rows.len() as int) =~= rows);
            assert(nat_min(bound as nat, rows.len()) == rows.len());
            assert(pre.window() =~= w);
            assert(rec_view(lines) =~= flush_lines(w));
            assert(rec_view(lines) =~= run_lines(h, rows, bound as nat));
        } else {
            assert(rec_view(lines) =~= prefix_lines(h, rows, est_cols(w), rows.len() as int));
            assert(rec_view(lines) =~= run_lines(h, rows, bound as nat));
        }
        assert(lines@.len() == rec_view(lines).len());
    }
    lines
}

} // verus!
