//! Display width of characters and fields.
//!
//! A character occupies 0, 1 or 2 terminal columns (3 for one exceptional
//! Khmer sign); the per-character classification is delegated to the
//! `unicode_width` crate. A tab is special-cased: it always contributes a
//! fixed 4 columns to a field, independent of its position.

use vstd::prelude::*;

verus! {

/// Display width that `unicode_width` assigns to a character: `None` for a
/// control character, otherwise the number of terminal columns the glyph
/// occupies. The result depends on the character alone.
pub uninterp spec fn unicode_char_width(c: char) -> Option<usize>;

/// Relies on `unicode_width::UnicodeWidthChar::width`: the UAX #11 display
/// width of a single character, `None` for control characters; its lookup
/// tables never yield a width above 3.
#[verifier::external_body]
fn query_char_width(c: char) -> (r: Option<usize>)
    ensures
        r == unicode_char_width(c),
        r matches Some(w) ==> w <= 3,
{
    unicode_width::UnicodeWidthChar::width(c)
}

/// Columns a single non-tab character occupies in a rendered cell: an
/// unclassified (control) character counts 0.
pub open spec fn char_width(c: char) -> nat {
    match unicode_char_width(c) {
        Some(w) => w as nat,
        None => 0,
    }
}

/// Columns a character contributes to a field's display width: a tab always
/// counts a fixed 4 columns, every other character its display width.
pub open spec fn cell_char_width(c: char) -> nat {
    if c == '\t' {
        4
    } else {
        char_width(c)
    }
}

/// Display width of a whole field: the sum of its characters' contributions.
pub open spec fn terminal_len(s: Seq<char>) -> nat
    decreases s.len(),
{
    if s.len() == 0 {
        0
    } else {
        terminal_len(s.drop_last()) + cell_char_width(s.last())
    }
}

/// A field short enough that width arithmetic on it cannot overflow `usize`.
pub open spec fn field_ok(f: Seq<char>) -> bool {
    4 * f.len() + 2 <= usize::MAX
}

/// A field's width is the sum of its parts': splitting a field anywhere
/// splits its display width.
pub proof fn lemma_terminal_len_additive(a: Seq<char>, b: Seq<char>)
    ensures
        terminal_len(a + b) == terminal_len(a) + terminal_len(b),
    decreases b.len(),
{
    if b.len() == 0 {
        assert(a + b =~= a);
    } else {
        lemma_terminal_len_additive(a, b.drop_last());
        assert((a + b).drop_last() =~= a + b.drop_last());
        assert((a + b).last() == b.last());
    }
}

/// A tab contributes exactly 4 columns wherever it stands: the surrounding
/// content does not change its share.
pub proof fn lemma_tab_counts_four(a: Seq<char>, b: Seq<char>)
    ensures
        terminal_len(a + seq!['\t'] + b) == terminal_len(a) + 4 + terminal_len(b),
{
    lemma_terminal_len_additive(a + seq!['\t'], b);
    lemma_terminal_len_additive(a, seq!['\t']);
    assert(terminal_len(seq!['\t']) == 4) by {
        assert(terminal_len(Seq::<char>::empty()) == 0);
        assert(seq!['\t'].drop_last() =~= Seq::<char>::empty());
        assert(seq!['\t'].last() == '\t');
    }
}

/// Whether a character occupies two terminal columns, as fullwidth and wide
/// East-Asian glyphs do.
pub fn is_fullwidth(c: char) -> (r: bool)
    ensures
        r == (unicode_char_width(c) == Some(2usize)),
{
    match query_char_width(c) {
        Some(w) => w == 2,
        None => false,
    }
}

/// Total display width of a field, with every tab expanded to 4 columns.
pub fn terminal_length(string: &str) -> (r: usize)
    requires
        field_ok(string@),
    ensures
        r == terminal_len(string@),
        r <= 4 * string@.len(),
{
    let n = string.unicode_len();
    let mut acc: usize = 0;
    let mut i: usize = 0;
    while i < n
        invariant
            n == string@.len(),
            i <= n,
            field_ok(string@),
            acc == terminal_len(string@.subrange(0, i as int)),
            acc <= 4 * i,
        decreases n - i,
    {
        let c = string.get_char(i);
        let w: usize = if c == '\t' {
            4
        } else {
            match query_char_width(c) {
                Some(k) => k,
                None => 0,
            }
        };
        proof {
            assert(string@.subrange(0, i + 1).drop_last() =~= string@.subrange(0, i as int));
            assert(string@.subrange(0, i + 1).last() == string@[i as int]);
        }
        acc = acc + w;
        i = i + 1;
    }
    proof {
        assert(string@.subrange(0, n as int) =~= string@);
    }
    acc
}

} // verus!
