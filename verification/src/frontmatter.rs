//! YAML frontmatter extraction and parsing.
//!
//! A file's content is an optional frontmatter block followed by the body. The
//! block opens with `---` on the very first line (a byte order mark before it is
//! tolerated) and ends at the first line that is `---` up to trailing white
//! space. Files without an opening line are all body.
//!
//! Most heads are flat: one `key: value` per line. Those are resolved here, by
//! rules that answer only where the YAML parser would give the same value; all
//! other heads go to the parser. Nothing is stated of what the parser makes of a
//! given text, so that this agreement is not proved; it is tested on many heads.

use vstd::prelude::*;
use vstd::slice::slice_subrange;

use crate::text::{
    all_digits, begins_text, chars_of, copy_range, digit, digits_value, ends_with, find_from,
    glue2, hex_digit, holds_char, is_digit, is_hex_digit, is_space, lemma_find_from, lines,
    only_digits, pieces, position_from, same_chars, space, spells, split_on, starts_with,
    text_lines, text_of, trim, trim_end, trimmed, trimmed_end, views,
};
use crate::value::{
    contents, entry_contents, integer_view, lemma_mapping_content, lemma_sequence_content,
    lookup_from, same_value, NumberView, Value, ValueView,
};
use crate::yaml::{parse_yaml, rebuildable, rebuildable_entry, yaml_parse};

verus! {

/// Why a file's frontmatter could not be read.
#[derive(Debug)]
pub enum FrontmatterError {
    /// The block was opened but never closed.
    Unclosed,
    /// The block is not valid YAML.
    Yaml(String),
}

/// The content of a [`FrontmatterError`].
pub enum FrontmatterErrorView {
    Unclosed,
    Yaml(Seq<char>),
}

impl View for FrontmatterError {
    type V = FrontmatterErrorView;

    open spec fn view(&self) -> FrontmatterErrorView {
        match *self {
            FrontmatterError::Unclosed => FrontmatterErrorView::Unclosed,
            FrontmatterError::Yaml(e) => FrontmatterErrorView::Yaml(e@),
        }
    }
}

impl FrontmatterErrorView {
    /// The error in words.
    pub open spec fn message(self) -> Seq<char> {
        match self {
            FrontmatterErrorView::Unclosed => "frontmatter opened with `---` but never closed"@,
            FrontmatterErrorView::Yaml(e) => "invalid YAML in frontmatter: "@ + e,
        }
    }
}

impl FrontmatterError {
    /// The error in words.
    pub fn message(&self) -> (r: String)
        ensures
            r@ == self@.message(),
    {
        match self {
            FrontmatterError::Unclosed => "frontmatter opened with `---` but never closed".to_string(),
            FrontmatterError::Yaml(e) => glue2("invalid YAML in frontmatter: ", e),
        }
    }
}

// ---------------------------------------------------------------------------
// The lexical split
// ---------------------------------------------------------------------------

/// The byte order mark.
pub const BOM: char = '\u{feff}';

/// Where the line that starts at `from` ends, its newline included.
pub open spec fn line_end(s: Seq<char>, from: int) -> int {
    match find_from(s, '\n', from) {
        Some(i) => i + 1,
        None => s.len() as int,
    }
}

/// Start and end of the first line at or behind `from` that closes the block.
/// `from` is the start of a line.
pub open spec fn closing_line(rest: Seq<char>, from: int) -> Option<(int, int)>
    decreases rest.len() - from,
    when 0 <= from
    via lemma_closing_line_decreases
{
    if from >= rest.len() {
        None
    } else {
        let end = line_end(rest, from);
        if trim_end(rest.subrange(from, end)) == "---"@ {
            Some((from, end))
        } else {
            closing_line(rest, end)
        }
    }
}

#[via_fn]
proof fn lemma_closing_line_decreases(rest: Seq<char>, from: int) {
    if 0 <= from < rest.len() {
        lemma_find_from(rest, '\n', from);
    }
}

/// The content behind a byte order mark.
pub open spec fn unmarked(content: Seq<char>) -> Seq<char> {
    if content.len() > 0 && content[0] == BOM {
        content.skip(1)
    } else {
        content
    }
}

/// What follows the opening line, where there is one.
pub open spec fn opened(content: Seq<char>) -> Option<Seq<char>> {
    let s = unmarked(content);
    if starts_with(s, "---\r\n"@) {
        Some(s.skip(5))
    } else if starts_with(s, "---\n"@) {
        Some(s.skip(4))
    } else {
        None
    }
}

/// The frontmatter text and the body of a file; nothing for a block that is
/// opened and never closed. A blank block counts as absent.
pub open spec fn raw_split(content: Seq<char>) -> Option<(Option<Seq<char>>, Seq<char>)> {
    match opened(content) {
        None => Some((None, content)),
        Some(rest) => match closing_line(rest, 0) {
            None => None,
            Some((start, end)) => {
                let head = rest.take(start);
                if trim(head).len() == 0 {
                    Some((None, rest.skip(end)))
                } else {
                    Some((Some(head), rest.skip(end)))
                }
            },
        },
    }
}

/// The lexical split of a file: raw frontmatter text and body.
pub struct RawSplit<'a> {
    pub head: Option<&'a str>,
    pub body: &'a str,
}

pub open spec fn opt_text(t: Option<&str>) -> Option<Seq<char>> {
    match t {
        Some(s) => Some(s@),
        None => None,
    }
}

/// Where the frontmatter of a file starts, and within the rest from there where its
/// closing line starts and ends.
pub fn split_parts(content: &str) -> (r: Option<(usize, usize, usize)>)
    ensures
        match r {
            Some((base, start, end)) => {
                &&& opened(content@) == Some(content@.skip(base as int))
                &&& closing_line(content@.skip(base as int), 0) == Some((start as int, end as int))
                &&& start <= end
                &&& base + end <= content@.len() <= usize::MAX
            },
            None => match opened(content@) {
                Some(rest) => closing_line(rest, 0) is None,
                None => true,
            },
        },
{
    let chars = chars_of(content);
    let mark: usize = if chars.len() > 0 && chars[0] == BOM {
        1
    } else {
        0
    };
    let stripped = slice_subrange(chars.as_slice(), mark, chars.len());
    assert(stripped@ =~= unmarked(content@));
    proof {
        reveal_strlit("---\r\n");
        reveal_strlit("---\n");
    }
    let opening: usize = if begins_text(stripped, "---\r\n") {
        5
    } else if begins_text(stripped, "---\n") {
        4
    } else {
        return None;
    };
    let base: usize = mark + opening;
    let total: usize = chars.len();
    let rest = slice_subrange(stripped, opening, stripped.len());
    assert(rest@ =~= stripped@.skip(opening as int));
    assert(rest@ =~= content@.skip(base as int));
    let mut from: usize = 0;
    while from < rest.len()
        invariant
            from <= rest@.len(),
            base + rest@.len() == content@.len(),
            content@.len() == total,
            rest@ == content@.skip(base as int),
            opened(content@) == Some(rest@),
            closing_line(rest@, from as int) == closing_line(rest@, 0),
        decreases rest@.len() - from,
    {
        proof {
            lemma_find_from(rest@, '\n', from as int);
        }
        let end: usize = match position_from(rest, '\n', from) {
            Some(i) => i + 1,
            None => rest.len(),
        };
        let line = slice_subrange(rest, from, end);
        if spells(trimmed_end(line), "---") {
            return Some((base, from, end));
        }
        from = end;
    }
    None
}

/// Splits a file's content into raw frontmatter and body, without parsing.
pub fn split_raw<'a>(content: &'a str) -> (r: Result<RawSplit<'a>, FrontmatterError>)
    ensures
        match r {
            Ok(s) => raw_split(content@) == Some((opt_text(s.head), s.body@)),
            Err(e) => raw_split(content@) is None && e@ == FrontmatterErrorView::Unclosed,
        },
{
    match split_parts(content) {
        None => if is_opened(content) {
            Err(FrontmatterError::Unclosed)
        } else {
            Ok(RawSplit { head: None, body: content })
        },
        Some((base, start, end)) => {
            let ghost rest = content@.skip(base as int);
            let total: usize = content.unicode_len();
            let body = content.substring_char(base + end, total);
            assert(body@ =~= rest.skip(end as int));
            let head = content.substring_char(base, base + start);
            assert(head@ =~= rest.take(start as int));
            let head_chars = chars_of(head);
            if trimmed(&head_chars).len() == 0 {
                Ok(RawSplit { head: None, body })
            } else {
                Ok(RawSplit { head: Some(head), body })
            }
        },
    }
}

/// Whether a file starts with an opening line.
fn is_opened(content: &str) -> (r: bool)
    ensures
        r == (opened(content@) is Some),
{
    let chars = chars_of(content);
    let mark: usize = if chars.len() > 0 && chars[0] == BOM {
        1
    } else {
        0
    };
    let stripped = slice_subrange(chars.as_slice(), mark, chars.len());
    assert(stripped@ =~= unmarked(content@));
    begins_text(stripped, "---\r\n") || begins_text(stripped, "---\n")
}

// ---------------------------------------------------------------------------
// Shapes of scalars
// ---------------------------------------------------------------------------

/// Space or tab.
pub open spec fn is_blank(c: char) -> bool {
    c == ' ' || c == '\t'
}

/// `s` without one leading sign.
pub open spec fn unsigned(s: Seq<char>) -> Seq<char> {
    if s.len() > 0 && (s[0] == '+' || s[0] == '-') {
        s.skip(1)
    } else {
        s
    }
}

/// `0`, or digits that do not start with `0`.
pub open spec fn plain_decimal(b: Seq<char>) -> bool {
    b == seq!['0'] || (b.len() > 0 && b[0] != '0' && all_digits(b))
}

/// `0x`, `0o` or `0b` and at least one digit of that base.
pub open spec fn radix_shape(b: Seq<char>) -> bool {
    &&& b.len() > 2
    &&& b[0] == '0'
    &&& {
        ||| b[1] == 'x' && forall|i: int| 2 <= i < b.len() ==> is_hex_digit(#[trigger] b[i])
        ||| b[1] == 'o' && forall|i: int| 2 <= i < b.len() ==> '0' <= #[trigger] b[i] <= '7'
        ||| b[1] == 'b' && forall|i: int| 2 <= i < b.len() ==> '0' <= #[trigger] b[i] <= '1'
    }
}

/// An integer in decimal, hexadecimal, octal or binary notation. Decimal digits
/// with a leading zero are no integer.
pub open spec fn int_shape(s: Seq<char>) -> bool {
    plain_decimal(unsigned(s)) || radix_shape(unsigned(s))
}

pub open spec fn lower(c: char) -> char {
    if 'A' <= c <= 'Z' {
        ((c as u32 + 32) as u8) as char
    } else {
        c
    }
}

/// `s` in ASCII lower case.
pub open spec fn lowered(s: Seq<char>) -> Seq<char> {
    s.map_values(|c: char| lower(c))
}

/// The names of the infinities and of what is no number, in any case.
pub open spec fn special_float(s: Seq<char>) -> bool {
    let l = lowered(s);
    l == ".inf"@ || l == "+.inf"@ || l == "-.inf"@ || l == ".nan"@
}

/// The position of the first `e` or `E` at or behind `from`.
pub open spec fn exponent_from(s: Seq<char>, from: int) -> Option<int>
    decreases s.len() - from,
{
    if from < 0 || from >= s.len() {
        None
    } else if s[from] == 'e' || s[from] == 'E' {
        Some(from)
    } else {
        exponent_from(s, from + 1)
    }
}

/// Digits with at most one point among them, and at least one digit.
pub open spec fn mantissa_shape(m: Seq<char>) -> bool {
    &&& forall|i: int| 0 <= i < m.len() ==> is_digit(#[trigger] m[i]) || m[i] == '.'
    &&& forall|i: int, j: int| 0 <= i < j < m.len() ==> !(m[i] == '.' && m[j] == '.')
    &&& exists|i: int| 0 <= i < m.len() && is_digit(#[trigger] m[i])
}

/// An optional sign and at least one digit.
pub open spec fn exponent_shape(e: Seq<char>) -> bool {
    unsigned(e).len() > 0 && all_digits(unsigned(e))
}

/// A floating-point number: a special name, or a mantissa with a point or an
/// exponent.
pub open spec fn float_shape(s: Seq<char>) -> bool {
    let body = unsigned(s);
    ||| special_float(s)
    ||| match exponent_from(body, 0) {
        Some(i) => mantissa_shape(body.take(i)) && exponent_shape(body.skip(i + 1)),
        None => mantissa_shape(body) && body.contains('.'),
    }
}

/// Whether the YAML parser might take `s` for a number. Every text that it does
/// take for one has this shape.
pub open spec fn number_shaped(s: Seq<char>) -> bool {
    int_shape(s) || float_shape(s)
}

/// The integer that a plain decimal `s` spells, where it fits in 64 bits.
pub open spec fn decimal_int(s: Seq<char>) -> Option<int> {
    let b = unsigned(s);
    let n = if s.len() > 0 && s[0] == '-' {
        -(digits_value(b) as int)
    } else {
        digits_value(b) as int
    };
    if plain_decimal(b) && i64::MIN <= n <= i64::MAX {
        Some(n)
    } else {
        None
    }
}

/// The characters with which no plain scalar starts here.
pub open spec fn is_indicator(c: char) -> bool {
    ||| c == '[' || c == ']' || c == '{' || c == '}' || c == '&' || c == '*' || c == '!' || c == '|'
    ||| c == '>' || c == '%' || c == '@' || c == '`' || c == '"' || c == '\'' || c == '#'
    ||| c == ',' || c == '?' || c == ':' || c == '-'
}

/// A `#` behind a blank starts a comment.
pub open spec fn has_comment(s: Seq<char>) -> bool {
    exists|i: int| 0 <= i && i + 1 < s.len() && is_blank(#[trigger] s[i]) && s[i + 1] == '#'
}

/// A `:` before a blank or at the end separates a key from its value.
pub open spec fn has_separator(s: Seq<char>) -> bool {
    exists|i: int|
        0 <= i < s.len() && #[trigger] s[i] == ':' && (i + 1 == s.len() || is_blank(s[i + 1]))
}

/// A text without any special meaning in YAML: it stands for itself, unless it
/// names a null, a truth value or a number.
pub open spec fn plain_string(s: Seq<char>) -> bool {
    s.len() > 0 && !is_indicator(s[0]) && !has_comment(s) && !has_separator(s)
}

pub open spec fn names_null(s: Seq<char>) -> bool {
    s == "null"@ || s == "Null"@ || s == "NULL"@ || s == "~"@
}

pub open spec fn names_true(s: Seq<char>) -> bool {
    s == "true"@ || s == "True"@ || s == "TRUE"@
}

pub open spec fn names_false(s: Seq<char>) -> bool {
    s == "false"@ || s == "False"@ || s == "FALSE"@
}

pub open spec fn names_constant(s: Seq<char>) -> bool {
    names_null(s) || names_true(s) || names_false(s)
}

fn blank(c: char) -> (r: bool)
    ensures
        r == is_blank(c),
{
    c == ' ' || c == '\t'
}

/// `s` without one leading sign.
pub fn without_sign(s: &[char]) -> (r: &[char])
    ensures
        r@ == unsigned(s@),
{
    if s.len() > 0 && (s[0] == '+' || s[0] == '-') {
        let r = slice_subrange(s, 1, s.len());
        assert(r@ =~= s@.skip(1));
        r
    } else {
        s
    }
}

fn is_plain_decimal(b: &[char]) -> (r: bool)
    ensures
        r == plain_decimal(b@),
{
    if b.len() == 1 && b[0] == '0' {
        assert(b@ =~= seq!['0']);
        return true;
    }
    assert(b@ != seq!['0']) by {
        if b@ == seq!['0'] {
            assert(b@.len() == 1 && b@[0] == '0');
        }
    }
    b.len() > 0 && b[0] != '0' && only_digits(b)
}

fn is_radix_shape(b: &[char]) -> (r: bool)
    ensures
        r == radix_shape(b@),
{
    if b.len() <= 2 || b[0] != '0' {
        return false;
    }
    let mut hex = true;
    let mut octal = true;
    let mut binary = true;
    for i in 2..b.len()
        invariant
            b@.len() > 2,
            hex == forall|j: int| 2 <= j < i ==> is_hex_digit(#[trigger] b@[j]),
            octal == forall|j: int| 2 <= j < i ==> '0' <= #[trigger] b@[j] <= '7',
            binary == forall|j: int| 2 <= j < i ==> '0' <= #[trigger] b@[j] <= '1',
    {
        let c = b[i];
        hex = hex && hex_digit(c);
        octal = octal && '0' <= c && c <= '7';
        binary = binary && '0' <= c && c <= '1';
    }
    (b[1] == 'x' && hex) || (b[1] == 'o' && octal) || (b[1] == 'b' && binary)
}

/// Whether `s` has the shape of an integer.
pub fn is_core_int_shape(s: &[char]) -> (r: bool)
    ensures
        r == int_shape(s@),
{
    let b = without_sign(s);
    is_plain_decimal(b) || is_radix_shape(b)
}

fn lower_char(c: char) -> (r: char)
    ensures
        r == lower(c),
{
    if 'A' <= c && c <= 'Z' {
        ((c as u32 + 32) as u8) as char
    } else {
        c
    }
}

fn is_special_float(s: &[char]) -> (r: bool)
    ensures
        r == special_float(s@),
{
    let mut l: Vec<char> = Vec::new();
    for i in 0..s.len()
        invariant
            l@.len() == i,
            forall|j: int| 0 <= j < i ==> l@[j] == lower(#[trigger] s@[j]),
    {
        l.push(lower_char(s[i]));
    }
    assert(l@ =~= lowered(s@));
    spells(&l, ".inf") || spells(&l, "+.inf") || spells(&l, "-.inf") || spells(&l, ".nan")
}

fn is_mantissa_shape(m: &[char]) -> (r: bool)
    ensures
        r == mantissa_shape(m@),
{
    let mut point: Option<usize> = None;
    let mut some_digit = false;
    for i in 0..m.len()
        invariant
            forall|j: int| 0 <= j < i ==> is_digit(#[trigger] m@[j]) || m@[j] == '.',
            some_digit == exists|j: int| 0 <= j < i && is_digit(#[trigger] m@[j]),
            match point {
                Some(p) => p < i && m@[p as int] == '.' && forall|j: int|
                    0 <= j < i && j != p ==> #[trigger] m@[j] != '.',
                None => forall|j: int| 0 <= j < i ==> #[trigger] m@[j] != '.',
            },
    {
        let c = m[i];
        if c == '.' {
            if let Some(p) = point {
                assert(m@[p as int] == '.' && m@[i as int] == '.');
                return false;
            }
            point = Some(i);
        } else if digit(c) {
            some_digit = true;
        } else {
            return false;
        }
    }
    some_digit
}

fn exponent_position(s: &[char]) -> (r: Option<usize>)
    ensures
        match r {
            Some(i) => exponent_from(s@, 0) == Some(i as int) && i < s@.len(),
            None => exponent_from(s@, 0) is None,
        },
{
    let mut i: usize = 0;
    while i < s.len()
        invariant
            i <= s@.len(),
            exponent_from(s@, i as int) == exponent_from(s@, 0),
        decreases s@.len() - i,
    {
        if s[i] == 'e' || s[i] == 'E' {
            return Some(i);
        }
        i = i + 1;
    }
    None
}

/// Whether `s` has the shape of a floating-point number.
pub fn is_core_float_shape(s: &[char]) -> (r: bool)
    ensures
        r == float_shape(s@),
{
    if is_special_float(s) {
        return true;
    }
    let body = without_sign(s);
    let total: usize = body.len();
    match exponent_position(body) {
        Some(i) => {
            let mantissa = slice_subrange(body, 0, i);
            let exponent = slice_subrange(body, i + 1, total);
            assert(mantissa@ =~= body@.take(i as int));
            assert(exponent@ =~= body@.skip(i + 1));
            let digits = without_sign(exponent);
            is_mantissa_shape(mantissa) && digits.len() > 0 && only_digits(digits)
        },
        None => is_mantissa_shape(body) && holds_char(body, '.'),
    }
}

/// Whether the YAML parser might take `s` for a number.
pub fn is_number_shaped(s: &[char]) -> (r: bool)
    ensures
        r == number_shaped(s@),
{
    is_core_int_shape(s) || is_core_float_shape(s)
}

proof fn lemma_digits_value_monotone(s: Seq<char>, k: int)
    requires
        0 <= k <= s.len(),
    ensures
        digits_value(s.take(k)) <= digits_value(s),
    decreases s.len() - k,
{
    if k < s.len() {
        lemma_digits_value_monotone(s, k + 1);
        assert(s.take(k + 1).drop_last() =~= s.take(k));
    } else {
        assert(s.take(k) =~= s);
    }
}

/// The integer that digits spell with the given sign, where it fits in 64 bits.
pub fn digits_int(b: &[char], negative: bool) -> (r: Option<i64>)
    requires
        all_digits(b@),
    ensures
        ({
            let n = if negative {
                -(digits_value(b@) as int)
            } else {
                digits_value(b@) as int
            };
            match r {
                Some(i) => i == n,
                None => !(i64::MIN <= n <= i64::MAX),
            }
        }),
{
    let mut n: u64 = 0;
    let limit: u64 = 0x8000_0000_0000_0000;
    for i in 0..b.len()
        invariant
            all_digits(b@),
            n == digits_value(b@.take(i as int)),
            n <= limit,
            limit == 0x8000_0000_0000_0000,
    {
        let d: u64 = (b[i] as u32 - 48) as u64;
        proof {
            assert(is_digit(b@[i as int]));
            assert(b@.take(i + 1).drop_last() =~= b@.take(i as int));
            assert(digits_value(b@.take(i + 1)) == n * 10 + d);
            lemma_digits_value_monotone(b@, i + 1);
        }
        if n > (limit - d) / 10 {
            assert(n * 10 + d > limit);
            return None;
        }
        n = n * 10 + d;
    }
    assert(b@.take(b@.len() as int) =~= b@);
    if negative {
        if n == limit {
            Some(i64::MIN)
        } else {
            Some(0 - (n as i64))
        }
    } else if n < limit {
        Some(n as i64)
    } else {
        None
    }
}

/// The integer that a plain decimal spells, where it fits in 64 bits.
pub fn safe_decimal_int(s: &[char]) -> (r: Option<i64>)
    ensures
        match r {
            Some(n) => decimal_int(s@) == Some(n as int),
            None => decimal_int(s@) is None,
        },
{
    let b = without_sign(s);
    if !is_plain_decimal(b) {
        return None;
    }
    assert(all_digits(b@));
    digits_int(b, s.len() > 0 && s[0] == '-')
}

/// The integer that a text spells: an optional sign and digits, within 64 bits.
pub open spec fn spelled_integer(text: Seq<char>) -> Option<int> {
    let b = unsigned(text);
    let n = if text.len() > 0 && text[0] == '-' {
        -(digits_value(b) as int)
    } else {
        digits_value(b) as int
    };
    if b.len() > 0 && all_digits(b) && i64::MIN <= n <= i64::MAX {
        Some(n)
    } else {
        None
    }
}

/// The integer that a text spells.
pub fn integer_of(text: &[char]) -> (r: Option<i64>)
    ensures
        match r {
            Some(n) => spelled_integer(text@) == Some(n as int),
            None => spelled_integer(text@) is None,
        },
{
    let digits = without_sign(text);
    if digits.len() > 0 && only_digits(digits) {
        digits_int(digits, text.len() > 0 && text[0] == '-')
    } else {
        None
    }
}

fn indicator(c: char) -> (r: bool)
    ensures
        r == is_indicator(c),
{
    c == '[' || c == ']' || c == '{' || c == '}' || c == '&' || c == '*' || c == '!' || c == '|' || c
        == '>' || c == '%' || c == '@' || c == '`' || c == '"' || c == '\'' || c == '#' || c == ','
        || c == '?' || c == ':' || c == '-'
}

/// Whether `s` is a text without any special meaning in YAML.
pub fn is_plain_string(s: &[char]) -> (r: bool)
    ensures
        r == plain_string(s@),
{
    if s.len() == 0 || indicator(s[0]) {
        return false;
    }
    for i in 0..s.len()
        invariant
            forall|j: int|
                0 <= j < i ==> !(is_blank(#[trigger] s@[j]) && j + 1 < s@.len() && s@[j + 1] == '#'),
            forall|j: int|
                0 <= j < i ==> !(#[trigger] s@[j] == ':' && (j + 1 == s@.len() || is_blank(
                    s@[j + 1],
                ))),
    {
        let last = i + 1 == s.len();
        if blank(s[i]) && !last && s[i + 1] == '#' {
            assert(is_blank(s@[i as int]));
            return false;
        }
        if s[i] == ':' && (last || blank(s[i + 1])) {
            assert(s@[i as int] == ':');
            return false;
        }
    }
    true
}

fn is_null_name(s: &[char]) -> (r: bool)
    ensures
        r == names_null(s@),
{
    spells(s, "null") || spells(s, "Null") || spells(s, "NULL") || spells(s, "~")
}

fn is_true_name(s: &[char]) -> (r: bool)
    ensures
        r == names_true(s@),
{
    spells(s, "true") || spells(s, "True") || spells(s, "TRUE")
}

fn is_false_name(s: &[char]) -> (r: bool)
    ensures
        r == names_false(s@),
{
    spells(s, "false") || spells(s, "False") || spells(s, "FALSE")
}

// ---------------------------------------------------------------------------
// Resolving scalars
// ---------------------------------------------------------------------------

/// What a trimmed text outside a flow sequence stands for, or nothing where the
/// YAML parser has to decide.
pub open spec fn resolve_plain(s: Seq<char>) -> Option<ValueView> {
    if s.len() == 0 || names_null(s) {
        Some(ValueView::Null)
    } else if names_true(s) {
        Some(ValueView::Bool(true))
    } else if names_false(s) {
        Some(ValueView::Bool(false))
    } else if number_shaped(s) {
        match decimal_int(s) {
            Some(n) => Some(integer_view(n)),
            None => None,
        }
    } else if plain_string(s) {
        Some(ValueView::String(s))
    } else {
        None
    }
}

/// The parts of a flow sequence resolve one by one; an empty part does not.
pub open spec fn resolve_parts(parts: Seq<Seq<char>>) -> Option<Seq<ValueView>>
    decreases parts.len(),
{
    if parts.len() == 0 {
        Some(Seq::empty())
    } else {
        let part = trim(parts.last());
        match (resolve_parts(parts.drop_last()), resolve_plain(part)) {
            (Some(done), Some(v)) => if part.len() == 0 {
                None
            } else {
                Some(done.push(v))
            },
            _ => None,
        }
    }
}

/// The characters that make a flow sequence more than a list of plain scalars.
pub open spec fn is_flow_special(c: char) -> bool {
    c == '[' || c == ']' || c == '{' || c == '}' || c == '"' || c == '\''
}

/// Whether the character at `i` makes a flow sequence more than such a list: by
/// itself, or as a `:` before a `?`.
pub open spec fn special_at(s: Seq<char>, i: int) -> bool {
    is_flow_special(s[i]) || (s[i] == ':' && i + 1 < s.len() && s[i + 1] == '?')
}

/// Whether some character makes a flow sequence more than such a list.
pub open spec fn has_special(s: Seq<char>) -> bool {
    exists|i: int| 0 <= i < s.len() && #[trigger] special_at(s, i)
}

/// The text between the brackets of a flow sequence, trimmed.
pub open spec fn flow_inner(s: Seq<char>) -> Seq<char> {
    trim(s.subrange(1, s.len() - 1))
}

/// Whether `s` is enclosed in square brackets.
pub open spec fn bracketed(s: Seq<char>) -> bool {
    s.len() >= 2 && s[0] == '[' && s.last() == ']'
}

/// A single-line `[a, b, c]` of plain scalars.
pub open spec fn resolve_flow(s: Seq<char>) -> Option<ValueView> {
    let inner = flow_inner(s);
    if !bracketed(s) {
        None
    } else if inner.len() == 0 {
        Some(ValueView::Sequence(Seq::empty()))
    } else if has_special(inner) {
        None
    } else {
        match resolve_parts(split_on(inner, ',')) {
            Some(items) => Some(ValueView::Sequence(items)),
            None => None,
        }
    }
}

/// What a text stands for, or nothing where the YAML parser has to decide.
pub open spec fn resolve(raw: Seq<char>) -> Option<ValueView> {
    let s = trim(raw);
    if s.len() > 0 && s[0] == '[' {
        resolve_flow(s)
    } else {
        resolve_plain(s)
    }
}

/// The content of an optional value.
pub open spec fn opt_content(v: Option<Value>) -> Option<ValueView> {
    match v {
        Some(v) => Some(v@),
        None => None,
    }
}

fn resolve_trimmed(s: &[char]) -> (r: Option<Value>)
    ensures
        opt_content(r) == resolve_plain(s@),
{
    if s.len() == 0 || is_null_name(s) {
        return Some(Value::Null);
    }
    if is_true_name(s) {
        return Some(Value::Bool(true));
    }
    if is_false_name(s) {
        return Some(Value::Bool(false));
    }
    if is_number_shaped(s) {
        return match safe_decimal_int(s) {
            Some(n) => Some(Value::integer(n)),
            None => None,
        };
    }
    if is_plain_string(s) {
        return Some(Value::String(text_of(s)));
    }
    None
}

/// Once a part does not resolve, no longer list of parts does.
proof fn lemma_resolve_parts_prefix(parts: Seq<Seq<char>>, k: int)
    requires
        0 <= k <= parts.len(),
        resolve_parts(parts.take(k)) is None,
    ensures
        resolve_parts(parts) is None,
    decreases parts.len() - k,
{
    if k == parts.len() {
        assert(parts.take(k) =~= parts);
    } else {
        assert(parts.take(k + 1).drop_last() =~= parts.take(k));
        lemma_resolve_parts_prefix(parts, k + 1);
    }
}

fn flow_special(c: char) -> (r: bool)
    ensures
        r == is_flow_special(c),
{
    c == '[' || c == ']' || c == '{' || c == '}' || c == '"' || c == '\''
}

fn has_flow_special(s: &[char]) -> (r: bool)
    ensures
        r == has_special(s@),
{
    for i in 0..s.len()
        invariant
            forall|j: int| 0 <= j < i ==> !(#[trigger] special_at(s@, j)),
    {
        let before_mark = s[i] == ':' && i + 1 < s.len() && s[i + 1] == '?';
        if flow_special(s[i]) || before_mark {
            assert(special_at(s@, i as int));
            return true;
        }
    }
    false
}

/// Resolves a single-line flow sequence of plain scalars.
pub fn parse_flow_seq(s: &[char]) -> (r: Option<Value>)
    ensures
        opt_content(r) == resolve_flow(s@),
{
    if s.len() < 2 || s[0] != '[' || s[s.len() - 1] != ']' {
        return None;
    }
    let between = slice_subrange(s, 1, s.len() - 1);
    assert(between@ =~= s@.subrange(1, s@.len() - 1));
    let inner = trimmed(between);
    if inner.len() == 0 {
        let r = Value::Sequence(Vec::new());
        assert(r@->Sequence_0 =~= Seq::<ValueView>::empty());
        return Some(r);
    }
    if has_flow_special(inner) {
        return None;
    }
    let parts = pieces(inner, ',');
    let ghost all = views(parts@);
    let mut out: Vec<Value> = Vec::new();
    assert(contents(out@) =~= Seq::<ValueView>::empty());
    assert(all.take(0) =~= Seq::<Seq<char>>::empty());
    for i in 0..parts.len()
        invariant
            all == views(parts@),
            bracketed(s@),
            inner@ == flow_inner(s@),
            inner@.len() > 0,
            !has_special(inner@),
            all == split_on(inner@, ','),
            resolve_parts(all.take(i as int)) == Some(contents(out@)),
    {
        let part = trimmed(parts[i].as_slice());
        assert(all.take(i + 1).drop_last() =~= all.take(i as int));
        assert(all.take(i + 1).last() == parts@[i as int]@);
        if part.len() == 0 {
            proof {
                lemma_resolve_parts_prefix(all, i + 1);
            }
            return None;
        }
        match resolve_trimmed(part) {
            Some(v) => {
                let ghost before = out@;
                out.push(v);
                assert(contents(out@) =~= contents(before).push(v@));
            },
            None => {
                proof {
                    lemma_resolve_parts_prefix(all, i + 1);
                }
                return None;
            },
        }
    }
    assert(all.take(all.len() as int) =~= all);
    let r = Value::Sequence(out);
    proof {
        lemma_sequence_content(r);
    }
    Some(r)
}

/// Resolves one scalar, or nothing where the YAML parser has to decide.
pub fn resolve_scalar(raw: &[char]) -> (r: Option<Value>)
    ensures
        opt_content(r) == resolve(raw@),
{
    let s = trimmed(raw);
    if s.len() > 0 && s[0] == '[' {
        parse_flow_seq(s)
    } else {
        resolve_trimmed(s)
    }
}

// ---------------------------------------------------------------------------
// Flat heads
// ---------------------------------------------------------------------------

/// Whether the character at `i` is one that a line of a flat head may hold:
/// printable, and no white space but spaces and line ends.
pub open spec fn ordinary_at(s: Seq<char>, i: int) -> bool {
    let c = s[i];
    let n = c as u32;
    ||| c == '\n'
    ||| c == '\r' && i + 1 < s.len() && s[i + 1] == '\n'
    ||| n >= 0x20 && !(0x7f <= n <= 0xa0) && (c == ' ' || !is_space(c)) && n != 0xfeff && n != 0xfffe
        && n != 0xffff
}

/// Whether the head holds ordinary characters only.
pub open spec fn ordinary(s: Seq<char>) -> bool {
    forall|i: int| 0 <= i < s.len() ==> #[trigger] ordinary_at(s, i)
}

/// The position of the first `:` at or behind `from` that a space follows.
pub open spec fn separator_from(line: Seq<char>, from: int) -> Option<int>
    decreases line.len() - from,
{
    if from < 0 || from + 1 >= line.len() {
        None
    } else if line[from] == ':' && line[from + 1] == ' ' {
        Some(from)
    } else {
        separator_from(line, from + 1)
    }
}

/// The longest key that the YAML parser looks for on one line.
pub const MAX_KEY: usize = 1024;

/// Whether a line marks the end of a YAML document: `...` alone or before a blank.
pub open spec fn ends_document(line: Seq<char>) -> bool {
    starts_with(line, "..."@) && (line.len() == 3 || is_blank(line[3]))
}

/// The text of a line before and behind its separator.
pub open spec fn around_separator(line: Seq<char>) -> Option<(Seq<char>, Seq<char>)> {
    match separator_from(line, 0) {
        Some(i) => Some((line.take(i), line.skip(i + 2))),
        None => if line.len() > 0 && line.last() == ':' {
            Some((line.drop_last(), Seq::empty()))
        } else {
            None
        },
    }
}

/// The raw key and the raw value of a line that is not indented, ends no document
/// and has a key that is not too long.
pub open spec fn line_parts(line: Seq<char>) -> Option<(Seq<char>, Seq<char>)> {
    if line.len() > 0 && is_blank(line[0]) || ends_document(line) {
        None
    } else {
        match around_separator(line) {
            Some((key, val)) => if key.len() <= MAX_KEY {
                Some((key, val))
            } else {
                None
            },
            None => None,
        }
    }
}

/// The entry that a line of a flat head makes.
pub open spec fn line_entry(line: Seq<char>) -> Option<(ValueView, ValueView)> {
    match line_parts(line) {
        None => None,
        Some((key, val)) => if key.len() == 0 {
            None
        } else {
            match (resolve(key), resolve(val)) {
                (Some(k), Some(v)) => Some((k, v)),
                _ => None,
            }
        },
    }
}

pub open spec fn has_key(entries: Seq<(ValueView, ValueView)>, key: ValueView) -> bool {
    exists|i: int| 0 <= i < entries.len() && (#[trigger] entries[i]).0 == key
}

/// The entries of the lines that are not blank, where each makes one and no key
/// comes twice.
pub open spec fn line_entries(all: Seq<Seq<char>>) -> Option<Seq<(ValueView, ValueView)>>
    decreases all.len(),
{
    if all.len() == 0 {
        Some(Seq::empty())
    } else {
        match line_entries(all.drop_last()) {
            None => None,
            Some(entries) => if trim(all.last()).len() == 0 {
                Some(entries)
            } else {
                match line_entry(all.last()) {
                    None => None,
                    Some((k, v)) => if has_key(entries, k) {
                        None
                    } else {
                        Some(entries.push((k, v)))
                    },
                }
            },
        }
    }
}

/// The mapping that a flat head makes, or nothing where the YAML parser has to
/// decide.
pub open spec fn fast_value(head: Seq<char>) -> Option<ValueView> {
    if !ordinary(head) {
        None
    } else {
        match line_entries(lines(head)) {
            Some(entries) => if entries.len() == 0 {
                None
            } else {
                Some(ValueView::Mapping(entries))
            },
            None => None,
        }
    }
}

/// The value of a head: by the flat rules where they answer, else by the YAML
/// parser.
pub open spec fn head_value(head: Seq<char>) -> Result<ValueView, Seq<char>> {
    match fast_value(head) {
        Some(v) => Ok(v),
        None => yaml_parse(head),
    }
}

fn is_ordinary(s: &[char]) -> (r: bool)
    ensures
        r == ordinary(s@),
{
    for i in 0..s.len()
        invariant
            forall|j: int| 0 <= j < i ==> #[trigger] ordinary_at(s@, j),
    {
        let c = s[i];
        let n: u32 = c as u32;
        let good = c == '\n' || (c == '\r' && i + 1 < s.len() && s[i + 1] == '\n') || (n
            >= 0x20 && !(0x7f <= n && n <= 0xa0) && (c == ' ' || !space(c)) && n != 0xfeff && n
            != 0xfffe && n != 0xffff);
        if !good {
            assert(!ordinary_at(s@, i as int));
            return false;
        }
    }
    true
}

fn ends_a_document(line: &[char]) -> (r: bool)
    ensures
        r == ends_document(line@),
{
    proof {
        reveal_strlit("...");
    }
    begins_text(line, "...") && (line.len() == 3 || blank(line[3]))
}

fn cut_at_separator(line: &[char]) -> (r: Option<(&[char], &[char])>)
    ensures
        match r {
            Some((k, v)) => around_separator(line@) == Some((k@, v@)),
            None => around_separator(line@) is None,
        },
{
    let total: usize = line.len();
    let mut i: usize = 0;
    while total >= 2 && i < total - 1
        invariant
            total == line@.len(),
            i <= total,
            separator_from(line@, i as int) == separator_from(line@, 0),
        decreases total - i,
    {
        if line[i] == ':' && line[i + 1] == ' ' {
            let key = slice_subrange(line, 0, i);
            let val = slice_subrange(line, i + 2, total);
            assert(key@ =~= line@.take(i as int));
            assert(val@ =~= line@.skip(i + 2));
            return Some((key, val));
        }
        i = i + 1;
    }
    if total > 0 && line[total - 1] == ':' {
        let key = slice_subrange(line, 0, total - 1);
        let val = slice_subrange(line, total, total);
        assert(key@ =~= line@.drop_last());
        assert(val@ =~= Seq::<char>::empty());
        return Some((key, val));
    }
    None
}

fn split_line(line: &[char]) -> (r: Option<(&[char], &[char])>)
    ensures
        match r {
            Some((k, v)) => line_parts(line@) == Some((k@, v@)),
            None => line_parts(line@) is None,
        },
{
    if (line.len() > 0 && blank(line[0])) || ends_a_document(line) {
        return None;
    }
    match cut_at_separator(line) {
        Some((key, val)) => if key.len() <= MAX_KEY {
            Some((key, val))
        } else {
            None
        },
        None => None,
    }
}

proof fn lemma_line_entries_prefix(all: Seq<Seq<char>>, k: int)
    requires
        0 <= k <= all.len(),
        line_entries(all.take(k)) is None,
    ensures
        line_entries(all) is None,
    decreases all.len() - k,
{
    if k == all.len() {
        assert(all.take(k) =~= all);
    } else {
        assert(all.take(k + 1).drop_last() =~= all.take(k));
        lemma_line_entries_prefix(all, k + 1);
    }
}

/// A null, a truth value, an integer or a text.
pub open spec fn is_scalar(v: ValueView) -> bool {
    match v {
        ValueView::Null | ValueView::Bool(_) | ValueView::String(_) => true,
        ValueView::Number(NumberView::PosInt(_)) => true,
        ValueView::Number(NumberView::NegInt(n)) => n < 0,
        _ => false,
    }
}

/// A scalar or a sequence of scalars.
pub open spec fn is_simple(v: ValueView) -> bool {
    match v {
        ValueView::Sequence(items) => forall|i: int|
            0 <= i < items.len() ==> is_scalar(#[trigger] items[i]),
        _ => is_scalar(v),
    }
}

proof fn lemma_parts_scalar(parts: Seq<Seq<char>>)
    ensures
        resolve_parts(parts) matches Some(items) ==> forall|i: int|
            0 <= i < items.len() ==> is_scalar(#[trigger] items[i]),
    decreases parts.len(),
{
    if parts.len() > 0 {
        lemma_parts_scalar(parts.drop_last());
    }
}

/// What resolves is simple.
pub proof fn lemma_resolve_simple(raw: Seq<char>)
    ensures
        resolve(raw) matches Some(v) ==> is_simple(v),
{
    let s = trim(raw);
    if s.len() > 0 && s[0] == '[' {
        lemma_parts_scalar(split_on(flow_inner(s), ','));
    }
}

/// Simple values are the same value exactly when their contents are equal.
proof fn lemma_simple_same(a: ValueView, b: ValueView)
    requires
        is_simple(a),
        is_simple(b),
    ensures
        same_value(a, b) <==> a == b,
{
    reveal_with_fuel(same_value, 2);
    if let (ValueView::Sequence(x), ValueView::Sequence(y)) = (a, b) {
        assert forall|i: int| 0 <= i < x.len() && i < y.len() implies same_value(x[i], y[i]) == (
        x[i] == y[i]) by {
            assert(is_scalar(x[i]) && is_scalar(y[i]));
        }
        if same_value(a, b) {
            assert forall|i: int| 0 <= i < x.len() implies x[i] == y[i] by {
                assert(same_value(x[i], y[i]));
            }
            assert(x =~= y);
        }
    }
}

proof fn lemma_simple_rebuildable(v: ValueView)
    requires
        is_simple(v),
    ensures
        rebuildable(v),
{
    reveal_with_fuel(rebuildable, 2);
}

/// The entries of a flat head are simple, and no key comes twice.
proof fn lemma_line_entries_simple(all: Seq<Seq<char>>)
    ensures
        line_entries(all) matches Some(entries) ==> {
            &&& forall|i: int|
                0 <= i < entries.len() ==> is_simple((#[trigger] entries[i]).0) && is_simple(
                    entries[i].1,
                )
            &&& forall|i: int, j: int|
                0 <= i < j < entries.len() ==> (#[trigger] entries[i]).0 != (#[trigger] entries[j]).0
        },
    decreases all.len(),
{
    if all.len() > 0 {
        lemma_line_entries_simple(all.drop_last());
        if let Some((key, val)) = line_parts(all.last()) {
            lemma_resolve_simple(key);
            lemma_resolve_simple(val);
        }
    }
}

/// What the flat rules answer can be written back as a YAML node.
pub proof fn lemma_fast_value_rebuildable(head: Seq<char>)
    ensures
        fast_value(head) matches Some(v) ==> rebuildable(v),
{
    if let Some(v) = fast_value(head) {
        let entries = line_entries(lines(head))->Some_0;
        lemma_line_entries_simple(lines(head));
        assert(v == ValueView::Mapping(entries));
        assert forall|i: int, j: int| 0 <= i < j < entries.len() implies !same_value(
            (#[trigger] entries[i]).0,
            (#[trigger] entries[j]).0,
        ) by {
            lemma_simple_same(entries[i].0, entries[j].0);
        }
        assert forall|i: int| 0 <= i < entries.len() implies rebuildable_entry(
            #[trigger] entries[i],
        ) by {
            lemma_simple_rebuildable(entries[i].0);
            lemma_simple_rebuildable(entries[i].1);
        }
    }
}

fn key_taken(entries: &Vec<(Value, Value)>, key: &Value) -> (r: bool)
    requires
        is_simple(key@),
        forall|i: int|
            0 <= i < entries@.len() ==> is_simple((#[trigger] entry_contents(entries@)[i]).0),
    ensures
        r == has_key(entry_contents(entries@), key@),
{
    let ghost all = entry_contents(entries@);
    for i in 0..entries.len()
        invariant
            all == entry_contents(entries@),
            is_simple(key@),
            forall|j: int| 0 <= j < entries@.len() ==> is_simple((#[trigger] all[j]).0),
            forall|j: int| 0 <= j < i ==> (#[trigger] all[j]).0 != key@,
    {
        proof {
            assert(all[i as int].0 == entries@[i as int].0@);
            lemma_simple_same(all[i as int].0, key@);
        }
        if entries[i].0.same(key) {
            return true;
        }
    }
    false
}

fn resolve_line(line: &[char]) -> (r: Option<(Value, Value)>)
    ensures
        match r {
            Some((k, v)) => line_entry(line@) == Some((k@, v@)) && is_simple(k@) && is_simple(v@),
            None => line_entry(line@) is None,
        },
{
    let (key, val) = match split_line(line) {
        Some(p) => p,
        None => {
            return None;
        },
    };
    if key.len() == 0 {
        return None;
    }
    proof {
        lemma_resolve_simple(key@);
        lemma_resolve_simple(val@);
    }
    match (resolve_scalar(key), resolve_scalar(val)) {
        (Some(k), Some(v)) => Some((k, v)),
        _ => None,
    }
}

/// Parses a flat head, or nothing where the YAML parser has to decide.
pub fn fast_parse(yaml: &str) -> (r: Option<Value>)
    ensures
        opt_content(r) == fast_value(yaml@),
{
    let chars = chars_of(yaml);
    if !is_ordinary(&chars) {
        return None;
    }
    let rows = text_lines(&chars);
    let ghost all = views(rows@);
    let mut entries: Vec<(Value, Value)> = Vec::new();
    assert(entry_contents(entries@) =~= Seq::<(ValueView, ValueView)>::empty());
    assert(all.take(0) =~= Seq::<Seq<char>>::empty());
    for i in 0..rows.len()
        invariant
            all == views(rows@),
            all == lines(yaml@),
            ordinary(yaml@),
            line_entries(all.take(i as int)) == Some(entry_contents(entries@)),
    {
        let line = rows[i].as_slice();
        let ghost before = entries@;
        proof {
            assert(all.take(i + 1).drop_last() =~= all.take(i as int));
            assert(all.take(i + 1).last() == line@);
            lemma_line_entries_simple(all.take(i as int));
            if line_entries(all.take(i + 1)) is None {
                lemma_line_entries_prefix(all, i + 1);
            }
        }
        if trimmed(line).len() > 0 {
            let (k, v) = match resolve_line(line) {
                Some(e) => e,
                None => {
                    return None;
                },
            };
            if key_taken(&entries, &k) {
                return None;
            }
            entries.push((k, v));
            assert(entry_contents(entries@) =~= entry_contents(before).push((k@, v@)));
        }
    }
    assert(all.take(all.len() as int) =~= all);
    if entries.len() == 0 {
        return None;
    }
    let r = Value::Mapping(entries);
    proof {
        lemma_mapping_content(r);
    }
    Some(r)
}

/// Parses a head that is not blank.
pub fn parse_head(head: &str) -> (r: Result<Value, FrontmatterError>)
    ensures
        match r {
            Ok(v) => head_value(head@) == Ok::<ValueView, Seq<char>>(v@),
            Err(e) => match head_value(head@) {
                Err(m) => e@ == FrontmatterErrorView::Yaml(m),
                Ok(_) => false,
            },
        },
{
    match fast_parse(head) {
        Some(v) => Ok(v),
        None => match parse_yaml(head) {
            Ok(v) => Ok(v),
            Err(e) => Err(FrontmatterError::Yaml(e)),
        },
    }
}

// ---------------------------------------------------------------------------
// The split with the frontmatter parsed
// ---------------------------------------------------------------------------

/// A file split into frontmatter and body.
pub struct Split<'a> {
    /// The parsed frontmatter, where the file has a block that is not blank.
    pub frontmatter: Option<Value>,
    /// Everything behind the block, verbatim.
    pub body: &'a str,
}

/// The parsed frontmatter and the body of a file, or why it has none.
pub open spec fn file_split(content: Seq<char>) -> Result<
    (Option<ValueView>, Seq<char>),
    FrontmatterErrorView,
> {
    match raw_split(content) {
        None => Err(FrontmatterErrorView::Unclosed),
        Some((None, body)) => Ok((None, body)),
        Some((Some(head), body)) => match head_value(head) {
            Ok(v) => Ok((Some(v), body)),
            Err(e) => Err(FrontmatterErrorView::Yaml(e)),
        },
    }
}

/// Splits a file's content into parsed frontmatter and body.
pub fn split<'a>(content: &'a str) -> (r: Result<Split<'a>, FrontmatterError>)
    ensures
        match r {
            Ok(s) => file_split(content@) == Ok::<
                (Option<ValueView>, Seq<char>),
                FrontmatterErrorView,
            >((opt_content(s.frontmatter), s.body@)),
            Err(e) => file_split(content@) == Err::<
                (Option<ValueView>, Seq<char>),
                FrontmatterErrorView,
            >(e@),
        },
{
    let raw = match split_raw(content) {
        Ok(raw) => raw,
        Err(e) => {
            return Err(e);
        },
    };
    match raw.head {
        None => Ok(Split { frontmatter: None, body: raw.body }),
        Some(h) => match parse_head(h) {
            Ok(v) => Ok(Split { frontmatter: Some(v), body: raw.body }),
            Err(e) => Err(e),
        },
    }
}

// ---------------------------------------------------------------------------
// Looking up one field of a flat head
// ---------------------------------------------------------------------------

/// A text that keys a mapping by itself.
pub open spec fn plain_string_key(key: Seq<char>) -> bool {
    plain_string(key) && !number_shaped(key) && !names_constant(key)
}

/// A trimmed text that is a scalar on its own: a constant, a number or plain text.
pub open spec fn scalar_shaped(s: Seq<char>) -> bool {
    names_constant(s) || number_shaped(s) || plain_string(s)
}

/// Whether every part is a scalar on its own.
pub open spec fn all_scalars(parts: Seq<Seq<char>>) -> bool {
    forall|i: int| 0 <= i < parts.len() ==> scalar_shaped(trim(#[trigger] parts[i]))
}

/// A single-line flow sequence of scalars.
pub open spec fn flow_shaped(v: Seq<char>) -> bool {
    let inner = flow_inner(v);
    let parts = split_on(inner, ',');
    &&& bracketed(v)
    &&& inner.len() > 0 ==> {
        &&& !has_special(inner)
        &&& all_scalars(parts)
    }
}

/// A value that its line holds completely: nothing, one scalar, or a flow
/// sequence of scalars.
pub open spec fn self_contained(val: Seq<char>) -> bool {
    let v = trim(val);
    if v.len() == 0 {
        true
    } else if v[0] == '[' {
        flow_shaped(v)
    } else {
        scalar_shaped(v)
    }
}

/// Key and raw value of a line of a flat head.
pub open spec fn flat_line(line: Seq<char>) -> Option<(Seq<char>, Seq<char>)> {
    match line_parts(line) {
        Some((key, val)) => if plain_string_key(trim(key)) && self_contained(val) {
            Some((trim(key), val))
        } else {
            None
        },
        None => None,
    }
}

/// The keys of the lines that are not blank, where each is a flat line and no key
/// comes twice.
pub open spec fn flat_keys(all: Seq<Seq<char>>) -> Option<Seq<Seq<char>>>
    decreases all.len(),
{
    if all.len() == 0 {
        Some(Seq::empty())
    } else {
        match flat_keys(all.drop_last()) {
            None => None,
            Some(keys) => if trim(all.last()).len() == 0 {
                Some(keys)
            } else {
                match flat_line(all.last()) {
                    None => None,
                    Some((key, _)) => if keys.contains(key) {
                        None
                    } else {
                        Some(keys.push(key))
                    },
                }
            },
        }
    }
}

/// Whether a head is flat: at least one line, each a `key: value` with a plain
/// key of its own and a self-contained value.
pub open spec fn flat(head: Seq<char>) -> bool {
    &&& ordinary(head)
    &&& match flat_keys(lines(head)) {
        Some(keys) => keys.len() > 0,
        None => false,
    }
}

/// What looking up one field in a flat head gives.
pub enum ScanOne {
    Found(Value),
    Missing,
    /// The field exists, but only the YAML parser can tell its value.
    Unresolvable,
}

/// The content of a [`ScanOne`].
pub enum ScanView {
    Found(ValueView),
    Missing,
    Unresolvable,
}

impl View for ScanOne {
    type V = ScanView;

    open spec fn view(&self) -> ScanView {
        match *self {
            ScanOne::Found(v) => ScanView::Found(v@),
            ScanOne::Missing => ScanView::Missing,
            ScanOne::Unresolvable => ScanView::Unresolvable,
        }
    }
}

/// Looks `name` up among the lines: a line that is not flat, a second line with
/// the name, or a value that does not resolve leaves the answer to the parser.
pub open spec fn scan_lines(all: Seq<Seq<char>>, name: Seq<char>) -> ScanView
    decreases all.len(),
{
    if all.len() == 0 {
        ScanView::Missing
    } else {
        let before = scan_lines(all.drop_last(), name);
        if before is Unresolvable || trim(all.last()).len() == 0 {
            before
        } else {
            match flat_line(all.last()) {
                None => ScanView::Unresolvable,
                Some((key, val)) => if key != name {
                    before
                } else if before is Found {
                    ScanView::Unresolvable
                } else {
                    match resolve(val) {
                        Some(v) => ScanView::Found(v),
                        None => ScanView::Unresolvable,
                    }
                },
            }
        }
    }
}

fn is_scalar_shaped(s: &[char]) -> (r: bool)
    ensures
        r == scalar_shaped(s@),
{
    is_null_name(s) || is_true_name(s) || is_false_name(s) || is_number_shaped(s) || is_plain_string(s)
}

/// Whether a text keys a mapping by itself.
pub fn is_plain_string_key(key: &[char]) -> (r: bool)
    ensures
        r == plain_string_key(key@),
{
    is_plain_string(key) && !is_number_shaped(key) && !is_null_name(key) && !is_true_name(key)
        && !is_false_name(key)
}

fn is_flow_shaped(v: &[char]) -> (r: bool)
    ensures
        r == flow_shaped(v@),
{
    if v.len() < 2 || v[0] != '[' || v[v.len() - 1] != ']' {
        return false;
    }
    let between = slice_subrange(v, 1, v.len() - 1);
    assert(between@ =~= v@.subrange(1, v@.len() - 1));
    let inner = trimmed(between);
    if inner.len() == 0 {
        return true;
    }
    if has_flow_special(inner) {
        return false;
    }
    let parts = pieces(inner, ',');
    let ghost all = views(parts@);
    for i in 0..parts.len()
        invariant
            all == views(parts@),
            all == split_on(inner@, ','),
            inner@ == flow_inner(v@),
            inner@.len() > 0,
            forall|j: int| 0 <= j < i ==> scalar_shaped(trim(#[trigger] all[j])),
    {
        assert(all[i as int] == parts@[i as int]@);
        if !is_scalar_shaped(trimmed(parts[i].as_slice())) {
            return false;
        }
    }
    true
}

/// Whether a value is completely on its line.
pub fn value_self_contained(val: &[char]) -> (r: bool)
    ensures
        r == self_contained(val@),
{
    let v = trimmed(val);
    if v.len() == 0 {
        true
    } else if v[0] == '[' {
        is_flow_shaped(v)
    } else {
        is_scalar_shaped(v)
    }
}

/// Key and raw value of a line of a flat head.
pub fn parse_flat_line(line: &[char]) -> (r: Option<(&[char], &[char])>)
    ensures
        match r {
            Some((k, v)) => flat_line(line@) == Some((k@, v@)),
            None => flat_line(line@) is None,
        },
{
    match split_line(line) {
        Some((key, val)) => {
            let key = trimmed(key);
            if is_plain_string_key(key) && value_self_contained(val) {
                Some((key, val))
            } else {
                None
            }
        },
        None => None,
    }
}

proof fn lemma_flat_keys_prefix(all: Seq<Seq<char>>, k: int)
    requires
        0 <= k <= all.len(),
        flat_keys(all.take(k)) is None,
    ensures
        flat_keys(all) is None,
    decreases all.len() - k,
{
    if k == all.len() {
        assert(all.take(k) =~= all);
    } else {
        assert(all.take(k + 1).drop_last() =~= all.take(k));
        lemma_flat_keys_prefix(all, k + 1);
    }
}

fn lists_chars(list: &Vec<Vec<char>>, key: &[char]) -> (r: bool)
    ensures
        r == views(list@).contains(key@),
{
    for i in 0..list.len()
        invariant
            forall|j: int| 0 <= j < i ==> #[trigger] views(list@)[j] != key@,
    {
        if same_chars(list[i].as_slice(), key) {
            assert(views(list@)[i as int] == key@);
            return true;
        }
    }
    false
}

/// Whether a head is flat, so that a single field can be looked up without
/// parsing all of it.
pub fn is_flat(head: &str) -> (r: bool)
    ensures
        r == flat(head@),
{
    let chars = chars_of(head);
    if !is_ordinary(&chars) {
        return false;
    }
    let rows = text_lines(&chars);
    let ghost all = views(rows@);
    let mut keys: Vec<Vec<char>> = Vec::new();
    assert(views(keys@) =~= Seq::<Seq<char>>::empty());
    assert(all.take(0) =~= Seq::<Seq<char>>::empty());
    for i in 0..rows.len()
        invariant
            all == views(rows@),
            all == lines(head@),
            ordinary(head@),
            flat_keys(all.take(i as int)) == Some(views(keys@)),
    {
        let line = rows[i].as_slice();
        let ghost before = keys@;
        proof {
            assert(all.take(i + 1).drop_last() =~= all.take(i as int));
            assert(all.take(i + 1).last() == line@);
            if flat_keys(all.take(i + 1)) is None {
                lemma_flat_keys_prefix(all, i + 1);
            }
        }
        if trimmed(line).len() > 0 {
            match parse_flat_line(line) {
                Some((key, _)) => {
                    if lists_chars(&keys, key) {
                        return false;
                    }
                    let own = copy_range(key, 0, key.len());
                    assert(own@ =~= key@);
                    keys.push(own);
                    assert(views(keys@) =~= views(before).push(key@));
                },
                None => {
                    return false;
                },
            }
        }
    }
    assert(all.take(all.len() as int) =~= all);
    keys.len() > 0
}

proof fn lemma_scan_prefix(all: Seq<Seq<char>>, name: Seq<char>, k: int)
    requires
        0 <= k <= all.len(),
        scan_lines(all.take(k), name) is Unresolvable,
    ensures
        scan_lines(all, name) is Unresolvable,
    decreases all.len() - k,
{
    if k == all.len() {
        assert(all.take(k) =~= all);
    } else {
        assert(all.take(k + 1).drop_last() =~= all.take(k));
        lemma_scan_prefix(all, name, k + 1);
    }
}

/// Resolves a single field from a head, line by line.
pub fn scan_one(head: &str, name: &str) -> (r: ScanOne)
    ensures
        r@ == scan_lines(lines(head@), name@),
{
    let chars = chars_of(head);
    let wanted = chars_of(name);
    let rows = text_lines(&chars);
    let ghost all = views(rows@);
    let mut found: Option<Value> = None;
    assert(all.take(0) =~= Seq::<Seq<char>>::empty());
    for i in 0..rows.len()
        invariant
            all == views(rows@),
            all == lines(head@),
            wanted@ == name@,
            scan_lines(all.take(i as int), name@) == (match found {
                Some(v) => ScanView::Found(v@),
                None => ScanView::Missing,
            }),
    {
        let line = rows[i].as_slice();
        proof {
            assert(all.take(i + 1).drop_last() =~= all.take(i as int));
            assert(all.take(i + 1).last() == line@);
            if scan_lines(all.take(i + 1), name@) is Unresolvable {
                lemma_scan_prefix(all, name@, i + 1);
            }
        }
        if trimmed(line).len() > 0 {
            match parse_flat_line(line) {
                Some((key, val)) => {
                    if same_chars(key, &wanted) {
                        if found.is_some() {
                            return ScanOne::Unresolvable;
                        }
                        match resolve_scalar(val) {
                            Some(v) => {
                                found = Some(v);
                            },
                            None => {
                                return ScanOne::Unresolvable;
                            },
                        }
                    }
                },
                None => {
                    return ScanOne::Unresolvable;
                },
            }
        }
    }
    assert(all.take(all.len() as int) =~= all);
    match found {
        Some(v) => ScanOne::Found(v),
        None => ScanOne::Missing,
    }
}

// ---------------------------------------------------------------------------
// Laws
// ---------------------------------------------------------------------------

/// Looking past an entry at the end.
pub proof fn lemma_lookup_push(
    entries: Seq<(ValueView, ValueView)>,
    e: (ValueView, ValueView),
    name: Seq<char>,
    from: int,
)
    requires
        0 <= from <= entries.len(),
    ensures
        lookup_from(entries.push(e), name, from) == match lookup_from(entries, name, from) {
            Some(v) => Some(v),
            None => if e.0 == ValueView::String(name) {
                Some(e.1)
            } else {
                None
            },
        },
    decreases entries.len() - from,
{
    let more = entries.push(e);
    if from < entries.len() {
        assert(more[from] == entries[from]);
        lemma_lookup_push(entries, e, name, from + 1);
    } else {
        assert(more[from] == e);
        assert(lookup_from(more, name, from + 1) is None);
    }
}

proof fn lemma_scan_agrees(all: Seq<Seq<char>>, name: Seq<char>)
    requires
        line_entries(all) is Some,
        flat_keys(all) is Some,
    ensures
        scan_lines(all, name) == match lookup_from(line_entries(all)->Some_0, name, 0) {
            Some(v) => ScanView::Found(v),
            None => ScanView::Missing,
        },
        lookup_from(line_entries(all)->Some_0, name, 0) is Some ==> flat_keys(
            all,
        )->Some_0.contains(name),
    decreases all.len(),
{
    if all.len() > 0 {
        let rest = all.drop_last();
        lemma_scan_agrees(rest, name);
        let entries = line_entries(rest)->Some_0;
        let keys = flat_keys(rest)->Some_0;
        if trim(all.last()).len() > 0 {
            let (key, val) = line_parts(all.last())->Some_0;
            let k = trim(key);
            assert(resolve(key) == Some(ValueView::String(k)));
            lemma_lookup_push(entries, (ValueView::String(k), resolve(val)->Some_0), name, 0);
            let more = keys.push(k);
            assert(flat_keys(all) == Some(more));
            if keys.contains(name) {
                let i = choose|i: int| 0 <= i < keys.len() && keys[i] == name;
                assert(more[i] == name);
            }
            assert(more[keys.len() as int] == k);
        }
    }
}

/// Looking up one field of a flat head gives what the whole mapping holds under
/// that name, wherever the flat rules resolve the whole head. Of other flat heads
/// the parser decides what the mapping holds, of which nothing is stated.
pub proof fn law_scan_equals_lookup(head: Seq<char>, name: Seq<char>)
    requires
        flat(head),
        fast_value(head) is Some,
    ensures
        scan_lines(lines(head), name) == match fast_value(head)->Some_0.get(name) {
            Some(v) => ScanView::Found(v),
            None => ScanView::Missing,
        },
{
    lemma_scan_agrees(lines(head), name);
}

/// The closing line lies within the text, on whole lines.
proof fn lemma_closing_line(rest: Seq<char>, from: int)
    requires
        0 <= from <= rest.len(),
    ensures
        closing_line(rest, from) matches Some((start, end)) ==> {
            &&& from <= start < end <= rest.len()
            &&& trim_end(rest.subrange(start, end)) == "---"@
        },
    decreases rest.len() - from,
{
    if from < rest.len() {
        lemma_find_from(rest, '\n', from);
        if trim_end(rest.subrange(from, line_end(rest, from))) != "---"@ {
            lemma_closing_line(rest, line_end(rest, from));
        }
    }
}

/// An opening line, with or without a byte order mark before it.
pub open spec fn is_opener(s: Seq<char>) -> bool {
    unmarked(s) == "---\n"@ || unmarked(s) == "---\r\n"@
}

/// A file with frontmatter is the concatenation of an opening line, the
/// frontmatter, a closing line and the body: splitting loses nothing. The body
/// is always the verbatim end of the file, and all of it where there is no
/// opening line.
pub proof fn law_split_reassembles(content: Seq<char>)
    ensures
        opened(content) is None ==> raw_split(content) == Some((None::<Seq<char>>, content)),
        raw_split(content) matches Some((_, body)) ==> ends_with(content, body),
        raw_split(content) matches Some((Some(head), body)) ==> exists|
            opener: Seq<char>,
            closer: Seq<char>,
        |
            #![trigger is_opener(opener), trim_end(closer)]
            content == opener + head + closer + body && is_opener(opener) && trim_end(closer)
                == "---"@,
{
    reveal_strlit("---\n");
    reveal_strlit("---\r\n");
    if let Some(rest) = opened(content) {
        let cut = content.len() - rest.len();
        let s = unmarked(content);
        let opener = content.take(cut);
        assert(rest =~= content.skip(cut));
        if starts_with(s, "---\r\n"@) {
            assert(unmarked(opener) =~= s.take(5));
        } else {
            assert(unmarked(opener) =~= s.take(4));
        }
        assert(is_opener(opener));
        lemma_closing_line(rest, 0);
        if let Some((start, end)) = closing_line(rest, 0) {
            let body = rest.skip(end);
            assert(content.skip(content.len() - body.len()) =~= body);
            let closer = rest.subrange(start, end);
            assert(content =~= opener + rest.take(start) + closer + body);
            assert(trim_end(closer) == "---"@);
        }
    } else {
        assert(content.skip(0) =~= content);
    }
}

/// Lines that do not close the block are passed over.
pub(crate) proof fn lemma_closing_line_skips(head: Seq<char>, tail: Seq<char>, from: int)
    requires
        0 <= from <= head.len(),
        head.len() > 0 ==> head.last() == '\n',
        closing_line(head, from) is None,
    ensures
        closing_line(head + tail, from) == closing_line(head + tail, head.len() as int),
    decreases head.len() - from,
{
    let all = head + tail;
    if from < head.len() {
        lemma_find_from(head, '\n', from);
        lemma_find_from(all, '\n', from);
        let i = find_from(head, '\n', from);
        assert(head[head.len() - 1] == '\n');
        assert(i is Some);
        let n = i->Some_0;
        assert(all[n] == '\n');
        let m = find_from(all, '\n', from)->Some_0;
        assert(m <= n);
        assert(all[m] == head[m]);
        assert(m == n);
        assert(all.subrange(from, n + 1) =~= head.subrange(from, n + 1));
        lemma_closing_line_skips(head, tail, n + 1);
    }
}

/// The file with the given frontmatter text and body.
pub open spec fn written(head: Seq<char>, body: Seq<char>) -> Seq<char> {
    "---\n"@ + head + "---\n"@ + body
}

/// What was written is read back: a file made of an opening line, whole lines
/// of frontmatter none of which closes the block, a closing line and a body
/// splits into that frontmatter and that body.
pub proof fn law_written_file_splits(head: Seq<char>, body: Seq<char>)
    requires
        head.len() > 0 ==> head.last() == '\n',
        closing_line(head, 0) is None,
    ensures
        raw_split(written(head, body)) == Some(
            (
                if trim(head).len() == 0 {
                    None
                } else {
                    Some(head)
                },
                body,
            ),
        ),
{
    reveal_strlit("---\n");
    reveal_strlit("---\r\n");
    reveal_strlit("---");
    let content = written(head, body);
    let closer = "---\n"@;
    let tail = closer + body;
    let rest = head + tail;
    assert(content[3] == '\n');
    assert(unmarked(content) == content);
    assert(content.take(4) =~= "---\n"@);
    assert(content.skip(4) =~= rest);
    assert(!starts_with(content, "---\r\n"@)) by {
        if starts_with(content, "---\r\n"@) {
            assert(content.take(5)[3] == '\r');
        }
    }
    assert(opened(content) == Some(rest));
    lemma_closing_line_skips(head, tail, 0);
    let n = head.len() as int;
    lemma_find_from(rest, '\n', n);
    assert(rest[n] == '-' && rest[n + 1] == '-' && rest[n + 2] == '-' && rest[n + 3] == '\n');
    assert(line_end(rest, n) == n + 4);
    assert(rest.subrange(n, n + 4) =~= closer);
    assert(closer.drop_last() =~= "---"@);
    assert(is_space('\n'));
    assert(!is_space('-'));
    assert(trim_end(closer) == trim_end("---"@));
    assert(trim_end("---"@) == "---"@);
    assert(rest.take(n) =~= head);
    assert(rest.skip(n + 4) =~= body);
}

} // verus!
