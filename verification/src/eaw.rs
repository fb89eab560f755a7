//! The East-Asian-Width classifier, built from range-based rules.
//!
//! The rules come in the layout of the Unicode `EastAsianWidth` data file:
//! everything after a `#` is a comment, blank lines carry nothing, and every
//! remaining line is `<codepoint-or-range>;<category>`, where a range is
//! `START..END` in hexadecimal, inclusive at both ends, and the category is
//! one of the six abbreviations `A`, `F`, `H`, `N`, `Na`, `W`. Rules apply in
//! file order, a later rule overwriting an earlier one for the same code
//! point; a point no rule covers is Ambiguous. An unknown category or a
//! malformed code point is a configuration error, not a value to coerce.

use vstd::prelude::*;

use crate::columns::rec_view;

verus! {

/// A Unicode East-Asian-Width category.
#[derive(Clone, Copy, PartialEq, Eq, Structural, Debug)]
pub enum Category {
    Ambiguous,
    Fullwidth,
    Halfwidth,
    Neutral,
    Narrow,
    Wide,
}

/// Why a set of rule lines was rejected.
#[derive(Clone, Copy, PartialEq, Eq, Structural, Debug)]
pub enum TableError {
    MissingSeparator,
    UnknownCategory,
    BadCodePoint,
}

/// Columns a character of the category occupies: fullwidth and wide glyphs
/// two, every other category — Ambiguous included — one.
pub open spec fn spec_category_width(cat: Category) -> nat {
    if cat is Fullwidth || cat is Wide {
        2
    } else {
        1
    }
}

/// The derived display width is 2 for exactly the Fullwidth and Wide
/// categories, and 1 for Halfwidth, Narrow, Neutral and Ambiguous alike.
pub proof fn lemma_category_width_cases()
    ensures
        forall|cat: Category|
            (cat is Fullwidth || cat is Wide) ==> spec_category_width(cat) == 2,
        forall|cat: Category|
            !(cat is Fullwidth || cat is Wide) ==> spec_category_width(cat) == 1,
{
}

pub fn category_width(cat: Category) -> (w: usize)
    ensures
        w == spec_category_width(cat),
{
    match cat {
        Category::Fullwidth => 2,
        Category::Wide => 2,
        _ => 1,
    }
}

/// One rule: an inclusive code point range and the category it assigns.
#[derive(Clone, Copy, PartialEq, Eq, Structural, Debug)]
pub struct Rule {
    pub lo: u32,
    pub hi: u32,
    pub cat: Category,
}

/// The category the rules assign to a code point: the last rule covering it
/// wins, and a point no rule covers is Ambiguous.
pub open spec fn classify_rules(rules: Seq<Rule>, cp: u32) -> Category
    decreases rules.len(),
{
    if rules.len() == 0 {
        Category::Ambiguous
    } else if rules.last().lo <= cp <= rules.last().hi {
        rules.last().cat
    } else {
        classify_rules(rules.drop_last(), cp)
    }
}

/// Value of one hexadecimal digit.
pub open spec fn hex_digit_value(c: char) -> Option<u32> {
    if 48 <= c as u32 <= 57 {
        Some((c as u32 - 48) as u32)
    } else if 65 <= c as u32 <= 70 {
        Some((c as u32 - 55) as u32)
    } else if 97 <= c as u32 <= 102 {
        Some((c as u32 - 87) as u32)
    } else {
        None
    }
}

/// A non-empty string of hexadecimal digits.
pub open spec fn is_hex_digits(s: Seq<char>) -> bool {
    s.len() > 0 && forall|i: int| 0 <= i < s.len() ==> hex_digit_value(#[trigger] s[i]) is Some
}

/// The number a string of hexadecimal digits denotes, most significant digit
/// first; a non-digit counts 0.
pub open spec fn hex_value(s: Seq<char>) -> nat
    decreases s.len(),
{
    if s.len() == 0 {
        0
    } else {
        hex_value(s.drop_last()) * 16 + (match hex_digit_value(s.last()) {
            Some(d) => d as nat,
            None => 0,
        })
    }
}

/// Whatever digits follow, a number only grows: the value of a string is at
/// least the value of any of its prefixes.
proof fn lemma_hex_value_extend(s: Seq<char>, i: int)
    requires
        0 <= i <= s.len(),
    ensures
        hex_value(s) >= hex_value(s.subrange(0, i)),
    decreases s.len() - i,
{
    if i < s.len() {
        assert(s.subrange(0, i + 1).drop_last() =~= s.subrange(0, i));
        assert(s.subrange(0, i + 1).last() == s[i]);
        assert(hex_value(s.subrange(0, i + 1)) >= hex_value(s.subrange(0, i)));
        lemma_hex_value_extend(s, i + 1);
        assert(s.subrange(0, s.len() as int) =~= s);
    } else {
        assert(s.subrange(0, s.len() as int) =~= s);
    }
}

/// Code points run to 0x110000 exclusive.
pub open spec fn valid_code_point(n: nat) -> bool {
    n < 0x110000
}

/// Parse a hexadecimal code point; rejected unless the string is all digits
/// and its value is in the code point range.
pub fn parse_hex(s: &str) -> (r: Option<u32>)
    ensures
        r is Some <==> is_hex_digits(s@) && valid_code_point(hex_value(s@)),
        r matches Some(v) ==> v == hex_value(s@),
{
    let n = s.unicode_len();
    if n == 0 {
        return None;
    }
    let mut acc: u32 = 0;
    let mut i: usize = 0;
    while i < n
        invariant
            n == s@.len(),
            0 < n,
            i <= n,
            is_hex_digits(s@.subrange(0, i as int)) || i == 0,
            forall|j: int| 0 <= j < i ==> hex_digit_value(#[trigger] s@[j]) is Some,
            acc == hex_value(s@.subrange(0, i as int)),
            acc < 0x110000,
        decreases n - i,
    {
        let c = s.get_char(i);
        let cu = c as u32;
        let d: u32 = if 48 <= cu && cu <= 57 {
            cu - 48
        } else if 65 <= cu && cu <= 70 {
            cu - 55
        } else if 97 <= cu && cu <= 102 {
            cu - 87
        } else {
            return None;
        };
        proof {
            assert(hex_digit_value(c) == Some(d));
            assert(s@.subrange(0, i + 1).drop_last() =~= s@.subrange(0, i as int));
            assert(s@.subrange(0, i + 1).last() == s@[i as int]);
        }
        let next = acc * 16 + d;
        if next >= 0x110000 {
            proof {
                lemma_hex_value_extend(s@, i + 1);
            }
            return None;
        }
        acc = next;
        i = i + 1;
    }
    proof {
        assert(s@.subrange(0, n as int) =~= s@);
    }
    Some(acc)
}

/// Split a string at the first occurrence of a character: the part before it
/// and the part after it, or nothing where the character does not occur.
pub open spec fn split_at_char(s: Seq<char>, t: char) -> Option<(Seq<char>, Seq<char>)>
    decreases s.len(),
{
    if s.len() == 0 {
        None
    } else if s.first() == t {
        Some((Seq::empty(), s.drop_first()))
    } else {
        match split_at_char(s.drop_first(), t) {
            Some(parts) => Some((seq![s.first()] + parts.0, parts.1)),
            None => None,
        }
    }
}

proof fn lemma_split_at_char_found(s: Seq<char>, t: char, i: int)
    requires
        0 <= i < s.len(),
        s[i] == t,
        forall|j: int| 0 <= j < i ==> s[j] != t,
    ensures
        split_at_char(s, t) == Some((s.subrange(0, i), s.subrange(i + 1, s.len() as int))),
    decreases i,
{
    if i == 0 {
        assert(s.drop_first() =~= s.subrange(1, s.len() as int));
        assert(Seq::<char>::empty() =~= s.subrange(0, 0));
    } else {
        assert(forall|j: int| 0 <= j < i - 1 ==> s.drop_first()[j] != t);
        lemma_split_at_char_found(s.drop_first(), t, i - 1);
        assert(seq![s.first()] + s.drop_first().subrange(0, i - 1) =~= s.subrange(0, i));
        assert(s.drop_first().subrange(i, s.drop_first().len() as int) =~= s.subrange(
            i + 1,
            s.len() as int,
        ));
    }
}

proof fn lemma_split_at_char_none(s: Seq<char>, t: char)
    requires
        forall|j: int| 0 <= j < s.len() ==> s[j] != t,
    ensures
        split_at_char(s, t) is None,
    decreases s.len(),
{
    if s.len() > 0 {
        lemma_split_at_char_none(s.drop_first(), t);
    }
}

/// Split a string at the first `..`: the parts before and after it.
pub open spec fn split_range(s: Seq<char>) -> Option<(Seq<char>, Seq<char>)>
    decreases s.len(),
{
    if s.len() < 2 {
        None
    } else if s[0] == '.' && s[1] == '.' {
        Some((Seq::empty(), s.subrange(2, s.len() as int)))
    } else {
        match split_range(s.drop_first()) {
            Some(parts) => Some((seq![s.first()] + parts.0, parts.1)),
            None => None,
        }
    }
}

proof fn lemma_split_range_found(s: Seq<char>, i: int)
    requires
        0 <= i,
        i + 1 < s.len(),
        s[i] == '.',
        s[i + 1] == '.',
        forall|j: int| 0 <= j < i ==> !(#[trigger] s[j] == '.' && s[j + 1] == '.'),
    ensures
        split_range(s) == Some((s.subrange(0, i), s.subrange(i + 2, s.len() as int))),
    decreases i,
{
    if i == 0 {
        assert(Seq::<char>::empty() =~= s.subrange(0, 0));
    } else {
        assert(!(s[0] == '.' && s[1] == '.'));
        assert(forall|j: int|
            0 <= j < i - 1 ==> !(#[trigger] s.drop_first()[j] == '.' && s.drop_first()[j + 1] == '.'));
        lemma_split_range_found(s.drop_first(), i - 1);
        assert(seq![s.first()] + s.drop_first().subrange(0, i - 1) =~= s.subrange(0, i));
        assert(s.drop_first().subrange(i + 1, s.drop_first().len() as int) =~= s.subrange(
            i + 2,
            s.len() as int,
        ));
    }
}

proof fn lemma_split_range_none(s: Seq<char>)
    requires
        forall|j: int| 0 <= j && j + 1 < s.len() ==> !(#[trigger] s[j] == '.' && s[j + 1] == '.'),
    ensures
        split_range(s) is None,
    decreases s.len(),
{
    if s.len() >= 2 {
        assert(forall|j: int|
            0 <= j && j + 1 < s.drop_first().len() ==> !(#[trigger] s.drop_first()[j] == '.'
                && s.drop_first()[j + 1] == '.'));
        lemma_split_range_none(s.drop_first());
    }
}

/// A character the line trimming removes at either end.
pub open spec fn is_blank(c: char) -> bool {
    c == ' ' || c == '\t' || c == '\r'
}

pub open spec fn trim_front(s: Seq<char>) -> Seq<char>
    decreases s.len(),
{
    if s.len() > 0 && is_blank(s.first()) {
        trim_front(s.drop_first())
    } else {
        s
    }
}

pub open spec fn trim_back(s: Seq<char>) -> Seq<char>
    decreases s.len(),
{
    if s.len() > 0 && is_blank(s.last()) {
        trim_back(s.drop_last())
    } else {
        s
    }
}

/// The string with blanks removed at both ends.
pub open spec fn trim_spec(s: Seq<char>) -> Seq<char> {
    trim_back(trim_front(s))
}

/// The six category abbreviations of the data file.
pub open spec fn category_of_token(s: Seq<char>) -> Option<Category> {
    if s.len() == 1 && s[0] == 'A' {
        Some(Category::Ambiguous)
    } else if s.len() == 1 && s[0] == 'F' {
        Some(Category::Fullwidth)
    } else if s.len() == 1 && s[0] == 'H' {
        Some(Category::Halfwidth)
    } else if s.len() == 1 && s[0] == 'N' {
        Some(Category::Neutral)
    } else if s.len() == 2 && s[0] == 'N' && s[1] == 'a' {
        Some(Category::Narrow)
    } else if s.len() == 1 && s[0] == 'W' {
        Some(Category::Wide)
    } else {
        None
    }
}

/// The rule a non-blank line content denotes: the code point part before the
/// first `;`, the category token up to the next `;` or the end, the code
/// points in hexadecimal, a single point standing for itself at both ends.
pub open spec fn rule_of_content(s: Seq<char>) -> Result<Rule, TableError> {
    match split_at_char(s, ';') {
        None => Err(TableError::MissingSeparator),
        Some(parts) => {
            let cp_part = parts.0;
            let value_token = match split_at_char(parts.1, ';') {
                Some(vparts) => vparts.0,
                None => parts.1,
            };
            match category_of_token(value_token) {
                None => Err(TableError::UnknownCategory),
                Some(cat) => match split_range(cp_part) {
                    Some(range) => {
                        if is_hex_digits(range.0) && valid_code_point(hex_value(range.0))
                            && is_hex_digits(range.1) && valid_code_point(hex_value(range.1)) {
                            Ok(
                                Rule {
                                    lo: hex_value(range.0) as u32,
                                    hi: hex_value(range.1) as u32,
                                    cat,
                                },
                            )
                        } else {
                            Err(TableError::BadCodePoint)
                        }
                    },
                    None => {
                        if is_hex_digits(cp_part) && valid_code_point(hex_value(cp_part)) {
                            Ok(
                                Rule {
                                    lo: hex_value(cp_part) as u32,
                                    hi: hex_value(cp_part) as u32,
                                    cat,
                                },
                            )
                        } else {
                            Err(TableError::BadCodePoint)
                        }
                    },
                },
            }
        },
    }
}

/// What one line of the data file contributes: its content is what stands
/// before any `#`, trimmed of blanks; an empty content carries no rule.
pub open spec fn line_rule(line: Seq<char>) -> Result<Option<Rule>, TableError> {
    let content = trim_spec(
        match split_at_char(line, '#') {
            Some(parts) => parts.0,
            None => line,
        },
    );
    if content.len() == 0 {
        Ok(None)
    } else {
        match rule_of_content(content) {
            Ok(rule) => Ok(Some(rule)),
            Err(e) => Err(e),
        }
    }
}

/// The rules a whole file denotes, in line order; the first bad line rejects
/// the file.
pub open spec fn rules_of_lines(lines: Seq<Seq<char>>) -> Result<Seq<Rule>, TableError>
    decreases lines.len(),
{
    if lines.len() == 0 {
        Ok(Seq::empty())
    } else {
        match rules_of_lines(lines.drop_last()) {
            Err(e) => Err(e),
            Ok(rules) => match line_rule(lines.last()) {
                Err(e) => Err(e),
                Ok(None) => Ok(rules),
                Ok(Some(rule)) => Ok(rules.push(rule)),
            },
        }
    }
}

/// Once a prefix of the lines is rejected, the whole file is, with the same
/// error.
proof fn lemma_rules_err_extends(lines: Seq<Seq<char>>, i: int)
    requires
        0 <= i <= lines.len(),
        rules_of_lines(lines.subrange(0, i)) is Err,
    ensures
        rules_of_lines(lines) == rules_of_lines(lines.subrange(0, i)),
    decreases lines.len() - i,
{
    if i < lines.len() {
        assert(lines.subrange(0, i + 1).drop_last() =~= lines.subrange(0, i));
        lemma_rules_err_extends(lines, i + 1);
    } else {
        assert(lines.subrange(0, lines.len() as int) =~= lines);
    }
}

/// Index of the first occurrence of a character, if any.
fn find_char(s: &str, t: char) -> (r: Option<usize>)
    ensures
        r matches Some(i) ==> i < s@.len() && s@[i as int] == t && (forall|j: int|
            0 <= j < i ==> s@[j] != t),
        r is None ==> forall|j: int| 0 <= j < s@.len() ==> s@[j] != t,
{
    let n = s.unicode_len();
    let mut i: usize = 0;
    while i < n
        invariant
            n == s@.len(),
            i <= n,
            forall|j: int| 0 <= j < i ==> s@[j] != t,
        decreases n - i,
    {
        if s.get_char(i) == t {
            return Some(i);
        }
        i = i + 1;
    }
    None
}

/// Index of the first `..`, if any.
fn find_range(s: &str) -> (r: Option<usize>)
    ensures
        r matches Some(i) ==> i + 1 < s@.len() && s@[i as int] == '.' && s@[i + 1] == '.' && (
        forall|j: int| 0 <= j < i ==> !(#[trigger] s@[j] == '.' && s@[j + 1] == '.')),
        r is None ==> forall|j: int| 0 <= j && j + 1 < s@.len() ==> !(#[trigger] s@[j] == '.' && s@[j + 1]
            == '.'),
{
    let n = s.unicode_len();
    if n < 2 {
        return None;
    }
    let mut i: usize = 0;
    while i + 1 < n
        invariant
            n == s@.len(),
            i + 1 <= n,
            forall|j: int| 0 <= j < i ==> !(#[trigger] s@[j] == '.' && s@[j + 1] == '.'),
        decreases n - i,
    {
        if s.get_char(i) == '.' && s.get_char(i + 1) == '.' {
            return Some(i);
        }
        i = i + 1;
    }
    None
}

/// The string with blanks removed at both ends.
fn trim_blanks(s: &str) -> (r: &str)
    ensures
        r@ == trim_spec(s@),
{
    let n = s.unicode_len();
    proof {
        assert(s@.subrange(0, n as int) =~= s@);
    }
    let mut lo: usize = 0;
    while lo < n && (s.get_char(lo) == ' ' || s.get_char(lo) == '\t' || s.get_char(lo) == '\r')
        invariant
            n == s@.len(),
            lo <= n,
            trim_front(s@) == trim_front(s@.subrange(lo as int, n as int)),
        decreases n - lo,
    {
        proof {
            assert(s@.subrange(lo as int, n as int).first() == s@[lo as int]);
            assert(s@.subrange(lo as int, n as int).drop_first() =~= s@.subrange(
                lo + 1,
                n as int,
            ));
        }
        lo = lo + 1;
    }
    proof {
        if lo == n {
            assert(s@.subrange(lo as int, n as int).len() == 0);
        } else {
            assert(s@.subrange(lo as int, n as int).first() == s@[lo as int]);
        }
        assert(trim_front(s@) == s@.subrange(lo as int, n as int));
    }
    let mut hi: usize = n;
    while hi > lo && (s.get_char(hi - 1) == ' ' || s.get_char(hi - 1) == '\t' || s.get_char(hi - 1)
        == '\r')
        invariant
            n == s@.len(),
            lo <= hi <= n,
            trim_front(s@) == s@.subrange(lo as int, n as int),
            trim_spec(s@) == trim_back(s@.subrange(lo as int, hi as int)),
        decreases hi,
    {
        proof {
            assert(s@.subrange(lo as int, hi as int).last() == s@[hi - 1]);
            assert(s@.subrange(lo as int, hi as int).drop_last() =~= s@.subrange(
                lo as int,
                hi - 1,
            ));
        }
        hi = hi - 1;
    }
    proof {
        if hi == lo {
            assert(s@.subrange(lo as int, hi as int).len() == 0);
        } else {
            assert(s@.subrange(lo as int, hi as int).last() == s@[hi - 1]);
        }
        assert(trim_spec(s@) == s@.subrange(lo as int, hi as int));
    }
    s.substring_char(lo, hi)
}

/// The category abbreviation a token denotes.
fn parse_category(s: &str) -> (r: Option<Category>)
    ensures
        r == category_of_token(s@),
{
    let n = s.unicode_len();
    if n == 1 {
        let c = s.get_char(0);
        if c == 'A' {
            Some(Category::Ambiguous)
        } else if c == 'F' {
            Some(Category::Fullwidth)
        } else if c == 'H' {
            Some(Category::Halfwidth)
        } else if c == 'N' {
            Some(Category::Neutral)
        } else if c == 'W' {
            Some(Category::Wide)
        } else {
            None
        }
    } else if n == 2 {
        if s.get_char(0) == 'N' && s.get_char(1) == 'a' {
            Some(Category::Narrow)
        } else {
            None
        }
    } else {
        None
    }
}

/// The rule one line contributes, if any.
fn parse_line(line: &str) -> (r: Result<Option<Rule>, TableError>)
    ensures
        r == line_rule(line@),
{
    let stripped: &str = match find_char(line, '#') {
        Some(i) => {
            proof {
                lemma_split_at_char_found(line@, '#', i as int);
            }
            line.substring_char(0, i)
        },
        None => {
            proof {
                lemma_split_at_char_none(line@, '#');
            }
            line
        },
    };
    let content = trim_blanks(stripped);
    let n = content.unicode_len();
    if n == 0 {
        return Ok(None);
    }
    let semi = match find_char(content, ';') {
        Some(i) => {
            proof {
                lemma_split_at_char_found(content@, ';', i as int);
            }
            i
        },
        None => {
            proof {
                lemma_split_at_char_none(content@, ';');
            }
            return Err(TableError::MissingSeparator);
        },
    };
    let cp_part = content.substring_char(0, semi);
    let rest = content.substring_char(semi + 1, n);
    let value: &str = match find_char(rest, ';') {
        Some(k) => {
            proof {
                lemma_split_at_char_found(rest@, ';', k as int);
            }
            rest.substring_char(0, k)
        },
        None => {
            proof {
                lemma_split_at_char_none(rest@, ';');
            }
            rest
        },
    };
    let cat = match parse_category(value) {
        Some(c) => c,
        None => {
            return Err(TableError::UnknownCategory);
        },
    };
    match find_range(cp_part) {
        Some(j) => {
            proof {
                lemma_split_range_found(cp_part@, j as int);
            }
            let lo_part = cp_part.substring_char(0, j);
            let hi_part = cp_part.substring_char(j + 2, cp_part.unicode_len());
            match (parse_hex(lo_part), parse_hex(hi_part)) {
                (Some(lo), Some(hi)) => Ok(Some(Rule { lo, hi, cat })),
                _ => Err(TableError::BadCodePoint),
            }
        },
        None => {
            proof {
                lemma_split_range_none(cp_part@);
            }
            match parse_hex(cp_part) {
                Some(v) => Ok(Some(Rule { lo: v, hi: v, cat })),
                None => Err(TableError::BadCodePoint),
            }
        },
    }
}

/// The classifier: the rules of the data file, in file order.
pub struct WidthTable {
    rules: Vec<Rule>,
}

impl View for WidthTable {
    type V = Seq<Rule>;

    closed spec fn view(&self) -> Seq<Rule> {
        self.rules@
    }
}

impl WidthTable {
    /// Build the table from the lines of a data file; the first bad line
    /// rejects the whole file, as a configuration defect.
    pub fn from_lines(lines: &Vec<String>) -> (r: Result<WidthTable, TableError>)
        ensures
            r matches Ok(t) ==> rules_of_lines(rec_view(*lines)) == Ok::<Seq<Rule>, TableError>(
                t@,
            ),
            r matches Err(e) ==> rules_of_lines(rec_view(*lines)) == Err::<Seq<Rule>, TableError>(
                e,
            ),
    {
        let ghost lv = rec_view(*lines);
        let mut rules: Vec<Rule> = Vec::new();
        proof {
            assert(lv.subrange(0, 0) =~= Seq::<Seq<char>>::empty());
        }
        let mut i: usize = 0;
        while i < lines.len()
            invariant
                lv == rec_view(*lines),
                i <= lv.len(),
                rules_of_lines(lv.subrange(0, i as int)) == Ok::<Seq<Rule>, TableError>(rules@),
            decreases lv.len() - i,
        {
            proof {
                assert(lv.subrange(0, i + 1).drop_last() =~= lv.subrange(0, i as int));
                assert(lv.subrange(0, i + 1).last() == lv[i as int]);
            }
            match parse_line(lines[i].as_str()) {
                Ok(Some(rule)) => {
                    rules.push(rule);
                },
                Ok(None) => {
                },
                Err(e) => {
                    proof {
                        lemma_rules_err_extends(lv, i + 1);
                    }
                    return Err(e);
                },
            }
            i = i + 1;
        }
        proof {
            assert(lv.subrange(0, lv.len() as int) =~= lv);
        }
        Ok(WidthTable { rules })
    }

    /// The category of a code point: the last rule covering it, Ambiguous
    /// where none does. Total over the whole code point range.
    pub fn classify(&self, cp: u32) -> (cat: Category)
        ensures
            cat == classify_rules(self@, cp),
    {
        proof {
            assert(self@.subrange(0, self@.len() as int) =~= self@);
        }
        let mut k: usize = self.rules.len();
        while k > 0
            invariant
                k <= self@.len(),
                classify_rules(self@, cp) == classify_rules(self@.subrange(0, k as int), cp),
            decreases k,
        {
            let rule = self.rules[k - 1];
            proof {
                assert(self@.subrange(0, k as int).last() == self@[k - 1]);
                assert(self@.subrange(0, k as int).drop_last() =~= self@.subrange(0, k - 1));
            }
            if rule.lo <= cp && cp <= rule.hi {
                return rule.cat;
            }
            k = k - 1;
        }
        Category::Ambiguous
    }

    /// Columns a code point occupies under this table: 2 where it is
    /// classified Fullwidth or Wide, 1 otherwise.
    pub fn display_width(&self, cp: u32) -> (w: usize)
        ensures
            w == spec_category_width(classify_rules(self@, cp)),
    {
        category_width(self.classify(cp))
    }
}

} // verus!
