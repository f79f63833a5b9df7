//! Text as a sequence of characters: the operations that the parsers, the
//! validators and the index share, each with an exact mathematical meaning.
//!
//! Specifications speak of `Seq<char>`. The executable functions work on
//! `&[char]`, so that every position is a character position.

use vstd::prelude::*;
use vstd::slice::slice_subrange;

verus! {

/// `String::push` appends one character to the end of the text.
pub assume_specification[ std::string::String::push ](text: &mut std::string::String, c: char)
    ensures
        final(text)@ == old(text)@.push(c),
;

// ---------------------------------------------------------------------------
// Characters
// ---------------------------------------------------------------------------

/// The characters with the Unicode property `White_Space`.
pub open spec fn is_space(c: char) -> bool {
    let n = c as u32;
    ||| 0x9 <= n <= 0xd
    ||| n == 0x20
    ||| n == 0x85
    ||| n == 0xa0
    ||| n == 0x1680
    ||| 0x2000 <= n <= 0x200a
    ||| n == 0x2028
    ||| n == 0x2029
    ||| n == 0x202f
    ||| n == 0x205f
    ||| n == 0x3000
}

pub open spec fn is_digit(c: char) -> bool {
    '0' <= c <= '9'
}

pub open spec fn is_hex_digit(c: char) -> bool {
    '0' <= c <= '9' || 'a' <= c <= 'f' || 'A' <= c <= 'F'
}

/// Every character of `s` is an ASCII digit.
pub open spec fn all_digits(s: Seq<char>) -> bool {
    forall|i: int| 0 <= i < s.len() ==> is_digit(#[trigger] s[i])
}

pub fn space(c: char) -> (r: bool)
    ensures
        r == is_space(c),
{
    let n: u32 = c as u32;
    (0x9 <= n && n <= 0xd) || n == 0x20 || n == 0x85 || n == 0xa0 || n == 0x1680 || (0x2000 <= n && n
        <= 0x200a) || n == 0x2028 || n == 0x2029 || n == 0x202f || n == 0x205f || n == 0x3000
}

pub fn digit(c: char) -> (r: bool)
    ensures
        r == is_digit(c),
{
    '0' <= c && c <= '9'
}

pub fn hex_digit(c: char) -> (r: bool)
    ensures
        r == is_hex_digit(c),
{
    ('0' <= c && c <= '9') || ('a' <= c && c <= 'f') || ('A' <= c && c <= 'F')
}

/// Whether every character of `s` is an ASCII digit.
pub fn only_digits(s: &[char]) -> (r: bool)
    ensures
        r == all_digits(s@),
{
    for i in 0..s.len()
        invariant
            forall|j: int| 0 <= j < i ==> is_digit(#[trigger] s@[j]),
    {
        if !digit(s[i]) {
            return false;
        }
    }
    true
}

// ---------------------------------------------------------------------------
// Conversions
// ---------------------------------------------------------------------------

/// The characters of a text.
pub fn chars_of(text: &str) -> (r: Vec<char>)
    ensures
        r@ == text@,
{
    let mut out: Vec<char> = Vec::new();
    for c in it: text.chars()
        invariant
            out@ == it.seq().take(it.index() as int),
            it.seq() == text@,
    {
        out.push(c);
    }
    out
}

/// The text made of the given characters.
pub fn text_of(chars: &[char]) -> (r: String)
    ensures
        r@ == chars@,
{
    let mut out: String = String::new();
    for i in 0..chars.len()
        invariant
            out@ == chars@.take(i as int),
    {
        out.push(chars[i]);
        assert(chars@.take(i as int).push(chars@[i as int]) =~= chars@.take(i + 1));
    }
    assert(chars@.take(chars@.len() as int) =~= chars@);
    out
}

/// A copy of `chars[from..to]`.
pub fn copy_range(chars: &[char], from: usize, to: usize) -> (r: Vec<char>)
    requires
        from <= to <= chars@.len(),
    ensures
        r@ == chars@.subrange(from as int, to as int),
{
    let mut out: Vec<char> = Vec::new();
    for i in from..to
        invariant
            from <= to <= chars@.len(),
            out@ =~= chars@.subrange(from as int, i as int),
    {
        out.push(chars[i]);
    }
    out
}

/// Whether two runs of characters are the same.
pub fn same_chars(a: &[char], b: &[char]) -> (r: bool)
    ensures
        r == (a@ == b@),
{
    if a.len() != b.len() {
        return false;
    }
    for i in 0..a.len()
        invariant
            a@.len() == b@.len(),
            forall|j: int| 0 <= j < i ==> a@[j] == b@[j],
    {
        if a[i] != b[i] {
            return false;
        }
    }
    assert(a@ =~= b@);
    true
}

/// Whether two texts are the same.
pub fn same_text(a: &str, b: &str) -> (r: bool)
    ensures
        r == (a@ == b@),
{
    let left = chars_of(a);
    let right = chars_of(b);
    same_chars(&left, &right)
}

/// Whether a run of characters spells the given text.
pub fn spells(chars: &[char], text: &str) -> (r: bool)
    ensures
        r == (chars@ == text@),
{
    let right = chars_of(text);
    same_chars(chars, &right)
}

/// Whether `text` occurs in `list`.
pub fn lists_text(list: &[String], text: &str) -> (r: bool)
    ensures
        r == exists|i: int| 0 <= i < list@.len() && #[trigger] list@[i]@ == text@,
{
    for i in 0..list.len()
        invariant
            forall|j: int| 0 <= j < i ==> #[trigger] list@[j]@ != text@,
    {
        if same_text(&list[i], text) {
            return true;
        }
    }
    false
}

// ---------------------------------------------------------------------------
// Trimming
// ---------------------------------------------------------------------------

/// `s` without its leading white space.
pub open spec fn trim_start(s: Seq<char>) -> Seq<char>
    decreases s.len(),
{
    if s.len() > 0 && is_space(s[0]) {
        trim_start(s.skip(1))
    } else {
        s
    }
}

/// `s` without its trailing white space.
pub open spec fn trim_end(s: Seq<char>) -> Seq<char>
    decreases s.len(),
{
    if s.len() > 0 && is_space(s.last()) {
        trim_end(s.drop_last())
    } else {
        s
    }
}

/// `s` without white space at either end.
pub open spec fn trim(s: Seq<char>) -> Seq<char> {
    trim_end(trim_start(s))
}

/// The part of `s` that [`trim_start`] keeps.
pub fn trimmed_start(s: &[char]) -> (r: &[char])
    ensures
        r@ == trim_start(s@),
{
    let mut from: usize = 0;
    assert(s@.skip(0) =~= s@);
    while from < s.len() && space(s[from])
        invariant
            from <= s@.len(),
            trim_start(s@.skip(from as int)) == trim_start(s@),
        decreases s@.len() - from,
    {
        assert(s@.skip(from as int).skip(1) =~= s@.skip(from + 1));
        from = from + 1;
    }
    let r = slice_subrange(s, from, s.len());
    assert(r@ =~= s@.skip(from as int));
    r
}

/// The part of `s` that [`trim_end`] keeps.
pub fn trimmed_end(s: &[char]) -> (r: &[char])
    ensures
        r@ == trim_end(s@),
{
    let mut to: usize = s.len();
    assert(s@.take(to as int) =~= s@);
    while to > 0 && space(s[to - 1])
        invariant
            to <= s@.len(),
            trim_end(s@.take(to as int)) == trim_end(s@),
        decreases to,
    {
        assert(s@.take(to as int).drop_last() =~= s@.take(to - 1));
        to = to - 1;
    }
    let r = slice_subrange(s, 0, to);
    assert(r@ =~= s@.take(to as int));
    r
}

/// The part of `s` that [`trim`] keeps.
pub fn trimmed(s: &[char]) -> (r: &[char])
    ensures
        r@ == trim(s@),
{
    trimmed_end(trimmed_start(s))
}

// ---------------------------------------------------------------------------
// Prefixes, suffixes and occurrences
// ---------------------------------------------------------------------------

pub open spec fn starts_with(s: Seq<char>, prefix: Seq<char>) -> bool {
    prefix.len() <= s.len() && s.take(prefix.len() as int) == prefix
}

pub open spec fn ends_with(s: Seq<char>, suffix: Seq<char>) -> bool {
    suffix.len() <= s.len() && s.skip(s.len() - suffix.len()) == suffix
}

pub fn begins(s: &[char], prefix: &[char]) -> (r: bool)
    ensures
        r == starts_with(s@, prefix@),
{
    if prefix.len() > s.len() {
        return false;
    }
    let head = slice_subrange(s, 0, prefix.len());
    assert(head@ =~= s@.take(prefix@.len() as int));
    same_chars(head, prefix)
}

/// Whether `s` begins with the text `prefix`.
pub fn begins_text(s: &[char], prefix: &str) -> (r: bool)
    ensures
        r == starts_with(s@, prefix@),
{
    let p = chars_of(prefix);
    begins(s, &p)
}

/// The position of the first `c` in `s` at or behind `from`.
pub open spec fn find_from(s: Seq<char>, c: char, from: int) -> Option<int>
    decreases s.len() - from,
{
    if from < 0 || from >= s.len() {
        None
    } else if s[from] == c {
        Some(from)
    } else {
        find_from(s, c, from + 1)
    }
}

/// The position of the first `c` in `s`.
pub open spec fn find_char(s: Seq<char>, c: char) -> Option<int> {
    find_from(s, c, 0)
}

/// What [`find_from`] gives back is the first occurrence.
pub proof fn lemma_find_from(s: Seq<char>, c: char, from: int)
    requires
        0 <= from <= s.len(),
    ensures
        match find_from(s, c, from) {
            Some(i) => from <= i < s.len() && s[i] == c && forall|j: int|
                from <= j < i ==> s[j] != c,
            None => forall|j: int| from <= j < s.len() ==> s[j] != c,
        },
    decreases s.len() - from,
{
    if from < s.len() && s[from] != c {
        lemma_find_from(s, c, from + 1);
    }
}

pub fn position_from(s: &[char], c: char, from: usize) -> (r: Option<usize>)
    requires
        from <= s@.len(),
    ensures
        match r {
            Some(i) => find_from(s@, c, from as int) == Some(i as int) && from <= i < s@.len(),
            None => find_from(s@, c, from as int) is None,
        },
{
    let mut i: usize = from;
    while i < s.len()
        invariant
            from <= i <= s@.len(),
            find_from(s@, c, i as int) == find_from(s@, c, from as int),
        decreases s@.len() - i,
    {
        if s[i] == c {
            return Some(i);
        }
        i = i + 1;
    }
    None
}

pub fn position(s: &[char], c: char) -> (r: Option<usize>)
    ensures
        match r {
            Some(i) => find_char(s@, c) == Some(i as int) && i < s@.len(),
            None => find_char(s@, c) is None,
        },
{
    position_from(s, c, 0)
}

/// Whether `c` occurs in `s`.
pub fn holds_char(s: &[char], c: char) -> (r: bool)
    ensures
        r == s@.contains(c),
{
    proof {
        lemma_find_from(s@, c, 0);
    }
    match position(s, c) {
        Some(i) => {
            assert(s@[i as int] == c);
            true
        },
        None => false,
    }
}

// ---------------------------------------------------------------------------
// Splitting
// ---------------------------------------------------------------------------

/// The pieces of `s` between the occurrences of `c`: one more piece than there
/// are occurrences.
pub open spec fn split_on(s: Seq<char>, c: char) -> Seq<Seq<char>>
    decreases s.len(),
{
    if s.len() == 0 {
        seq![Seq::<char>::empty()]
    } else {
        let before = split_on(s.drop_last(), c);
        if s.last() == c {
            before.push(Seq::<char>::empty())
        } else {
            before.drop_last().push(before.last().push(s.last()))
        }
    }
}

pub proof fn lemma_split_on_len(s: Seq<char>, c: char)
    ensures
        split_on(s, c).len() > 0,
    decreases s.len(),
{
    if s.len() > 0 {
        lemma_split_on_len(s.drop_last(), c);
    }
}

/// The views of a list of character vectors.
pub open spec fn views(pieces: Seq<Vec<char>>) -> Seq<Seq<char>> {
    pieces.map_values(|p: Vec<char>| p@)
}

/// The pieces of `s` between the occurrences of `c`.
pub fn pieces(s: &[char], c: char) -> (r: Vec<Vec<char>>)
    ensures
        views(r@) == split_on(s@, c),
        r@.len() > 0,
{
    let mut done: Vec<Vec<char>> = Vec::new();
    let mut current: Vec<char> = Vec::new();
    assert(views(done@).push(current@) =~= split_on(s@.take(0), c));
    for i in 0..s.len()
        invariant
            views(done@).push(current@) == split_on(s@.take(i as int), c),
    {
        let ghost upto = s@.take(i + 1);
        let ghost d0 = done@;
        let ghost c0 = current@;
        assert(upto.drop_last() =~= s@.take(i as int));
        assert(upto.last() == s@[i as int]);
        if s[i] == c {
            done.push(current);
            current = Vec::new();
            assert(views(done@) =~= views(d0).push(c0));
        } else {
            current.push(s[i]);
            assert(views(d0).push(c0).drop_last() =~= views(d0));
        }
    }
    assert(s@.take(s@.len() as int) =~= s@);
    let ghost d0 = done@;
    let ghost c0 = current@;
    done.push(current);
    assert(views(done@) =~= views(d0).push(c0));
    done
}

/// A line without the carriage return that ends it.
pub open spec fn without_return(line: Seq<char>) -> Seq<char> {
    if line.len() > 0 && line.last() == '\r' {
        line.drop_last()
    } else {
        line
    }
}

/// The lines of `s`: the pieces that newlines end, each without one carriage
/// return before its newline, and what follows the last newline unless that is
/// empty.
pub open spec fn lines(s: Seq<char>) -> Seq<Seq<char>> {
    let all = split_on(s, '\n');
    let ended = Seq::new((all.len() - 1) as nat, |i: int| without_return(all[i]));
    if all.last().len() == 0 {
        ended
    } else {
        ended.push(all.last())
    }
}

/// The lines of `s`.
pub fn text_lines(s: &[char]) -> (r: Vec<Vec<char>>)
    ensures
        views(r@) == lines(s@),
{
    let mut all = pieces(s, '\n');
    let ghost parts = views(all@);
    let last = all.pop().unwrap();
    assert(parts.last() == last@);
    let mut out: Vec<Vec<char>> = Vec::new();
    for i in 0..all.len()
        invariant
            parts == split_on(s@, '\n'),
            parts.len() == all@.len() + 1,
            forall|j: int| 0 <= j < all@.len() ==> #[trigger] all@[j]@ == parts[j],
            out@.len() == i,
            forall|j: int| 0 <= j < i ==> #[trigger] out@[j]@ == without_return(parts[j]),
    {
        let line = all[i].as_slice();
        assert(line@ == parts[i as int]);
        if line.len() > 0 && line[line.len() - 1] == '\r' {
            let cut = copy_range(line, 0, line.len() - 1);
            assert(cut@ =~= parts[i as int].drop_last());
            out.push(cut);
        } else {
            let whole = copy_range(line, 0, line.len());
            assert(whole@ =~= parts[i as int]);
            out.push(whole);
        }
    }
    let ghost ended = out@;
    if last.len() > 0 {
        out.push(last);
    }
    assert(views(out@) =~= lines(s@));
    out
}

/// The pieces joined with `c` between them.
pub open spec fn join(parts: Seq<Seq<char>>, c: char) -> Seq<char>
    decreases parts.len(),
{
    if parts.len() == 0 {
        Seq::empty()
    } else if parts.len() == 1 {
        parts[0]
    } else {
        join(parts.drop_last(), c).push(c) + parts.last()
    }
}

/// Text without the separator only extends the last piece.
pub proof fn lemma_split_append(x: Seq<char>, y: Seq<char>, c: char)
    requires
        !y.contains(c),
    ensures
        split_on(x + y, c) == split_on(x, c).drop_last().push(split_on(x, c).last() + y),
    decreases y.len(),
{
    lemma_split_on_len(x, c);
    if y.len() == 0 {
        assert(x + y =~= x);
        assert(split_on(x, c).last() + y =~= split_on(x, c).last());
        assert(split_on(x, c) =~= split_on(x, c).drop_last().push(split_on(x, c).last()));
    } else {
        let z = y.drop_last();
        assert forall|i: int| 0 <= i < z.len() implies z[i] != c by {
            assert(z[i] == y[i]);
            assert(y.contains(y[i]));
        }
        lemma_split_append(x, z, c);
        assert((x + y).drop_last() =~= x + z);
        assert((x + y).last() == y.last());
        assert(y.contains(y.last()));
        let before = split_on(x, c).drop_last().push(split_on(x, c).last() + z);
        assert(before.drop_last() =~= split_on(x, c).drop_last());
        assert(before.last().push(y.last()) =~= split_on(x, c).last() + y);
    }
}

/// Splitting joined pieces gives the pieces back, where none holds the separator.
pub proof fn lemma_join_split(parts: Seq<Seq<char>>, c: char)
    requires
        parts.len() > 0,
        forall|i: int| 0 <= i < parts.len() ==> !(#[trigger] parts[i]).contains(c),
    ensures
        split_on(join(parts, c), c) == parts,
    decreases parts.len(),
{
    let empty = Seq::<char>::empty();
    if parts.len() == 1 {
        lemma_split_append(empty, parts[0], c);
        assert(empty + parts[0] =~= parts[0]);
        assert(split_on(empty, c) =~= seq![empty]);
        assert(split_on(parts[0], c) =~= parts);
    } else {
        let front = parts.drop_last();
        lemma_join_split(front, c);
        let x = join(front, c).push(c);
        assert(x.drop_last() =~= join(front, c));
        assert(split_on(x, c) == front.push(empty));
        lemma_split_append(x, parts.last(), c);
        assert(front.push(empty).drop_last() =~= front);
        assert(empty + parts.last() =~= parts.last());
        assert(front.push(parts.last()) =~= parts);
    }
}

/// No piece holds the separator.
pub proof fn lemma_split_pieces(s: Seq<char>, c: char)
    ensures
        forall|i: int| 0 <= i < split_on(s, c).len() ==> !(#[trigger] split_on(s, c)[i]).contains(c),
    decreases s.len(),
{
    lemma_split_on_len(s, c);
    if s.len() > 0 {
        lemma_split_on_len(s.drop_last(), c);
        lemma_split_pieces(s.drop_last(), c);
        let before = split_on(s.drop_last(), c);
        assert forall|i: int| 0 <= i < split_on(s, c).len() implies !(#[trigger] split_on(
            s,
            c,
        )[i]).contains(c) by {
            if s.last() == c {
                if i < before.len() {
                    assert(!before[i].contains(c));
                }
            } else {
                assert(!before[i].contains(c));
                if i == before.len() - 1 {
                    let piece = before.last().push(s.last());
                    assert forall|k: int| 0 <= k < piece.len() implies piece[k] != c by {
                        if k < before.last().len() {
                            assert(before.last()[k] == piece[k]);
                        }
                    }
                }
            }
        }
    }
}

/// The texts of a list joined with `c` between them.
pub fn join_texts(parts: &[String], c: char) -> (r: String)
    ensures
        r@ == join(text_views(parts@), c),
{
    let mut out = String::new();
    let ghost all = text_views(parts@);
    for i in 0..parts.len()
        invariant
            all == text_views(parts@),
            out@ == join(all.take(i as int), c),
    {
        assert(all.take(i + 1).drop_last() =~= all.take(i as int));
        assert(all.take(i + 1).last() == parts@[i as int]@);
        if i > 0 {
            out.push(c);
        }
        out.append(parts[i].as_str());
        if i == 0 {
            assert(all.take(1).len() == 1);
            assert(out@ =~= all[0]);
        }
    }
    assert(all.take(all.len() as int) =~= all);
    out
}

/// A copy of a list of texts.
pub fn copy_texts(list: &[String]) -> (r: Vec<String>)
    ensures
        text_views(r@) == text_views(list@),
{
    let mut out: Vec<String> = Vec::new();
    for i in 0..list.len()
        invariant
            out@.len() == i,
            forall|j: int| 0 <= j < i ==> (#[trigger] out@[j])@ == list@[j]@,
    {
        out.push(list[i].clone());
    }
    assert(text_views(out@) =~= text_views(list@));
    out
}

/// The views of a list of texts.
pub open spec fn text_views(list: Seq<String>) -> Seq<Seq<char>> {
    list.map_values(|s: String| s@)
}

/// Trimming changes nothing where neither end is white space.
pub proof fn lemma_trim_same(s: Seq<char>)
    requires
        s.len() > 0,
        !is_space(s[0]),
        !is_space(s.last()),
    ensures
        trim(s) == s,
{
}

pub proof fn lemma_trim_start_suffix(s: Seq<char>)
    ensures
        trim_start(s).len() <= s.len(),
        trim_start(s).len() > 0 ==> !is_space(trim_start(s)[0]) && trim_start(s).last() == s.last(),
        forall|c: char| trim_start(s).contains(c) ==> #[trigger] s.contains(c),
    decreases s.len(),
{
    if s.len() > 0 && is_space(s[0]) {
        let t = s.skip(1);
        lemma_trim_start_suffix(t);
        assert forall|c: char| trim_start(s).contains(c) implies #[trigger] s.contains(c) by {
            assert(t.contains(c));
            let i = choose|i: int| 0 <= i < t.len() && t[i] == c;
            assert(s[i + 1] == c);
        }
    }
}

pub proof fn lemma_trim_end_prefix(s: Seq<char>)
    ensures
        trim_end(s).len() <= s.len(),
        trim_end(s).len() > 0 ==> !is_space(trim_end(s).last()) && trim_end(s)[0] == s[0],
        forall|c: char| trim_end(s).contains(c) ==> #[trigger] s.contains(c),
    decreases s.len(),
{
    if s.len() > 0 && is_space(s.last()) {
        let t = s.drop_last();
        lemma_trim_end_prefix(t);
        assert forall|c: char| trim_end(s).contains(c) implies #[trigger] s.contains(c) by {
            assert(t.contains(c));
            let i = choose|i: int| 0 <= i < t.len() && t[i] == c;
            assert(s[i] == c);
        }
    }
}

/// A trimmed text is no longer than the text, has no white space at its ends and
/// holds only characters of the text.
pub proof fn lemma_trim(s: Seq<char>)
    ensures
        trim(s).len() <= s.len(),
        trim(s).len() > 0 ==> !is_space(trim(s)[0]) && !is_space(trim(s).last()),
        forall|c: char| trim(s).contains(c) ==> #[trigger] s.contains(c),
        trim(trim(s)) == trim(s),
{
    lemma_trim_start_suffix(s);
    lemma_trim_end_prefix(trim_start(s));
    if trim(s).len() > 0 {
        lemma_trim_same(trim(s));
    }
    assert forall|c: char| trim(s).contains(c) implies #[trigger] s.contains(c) by {
        assert(trim_start(s).contains(c));
    }
}

// ---------------------------------------------------------------------------
// Numbers in text
// ---------------------------------------------------------------------------

/// The digit character for `d`.
pub open spec fn digit_char(d: int) -> char {
    (d + 48) as char
}

/// The decimal notation of `n`.
pub open spec fn decimal(n: nat) -> Seq<char>
    decreases n,
{
    if n < 10 {
        seq![digit_char(n as int)]
    } else {
        decimal(n / 10).push(digit_char((n % 10) as int))
    }
}

/// The decimal notation of a signed number.
pub open spec fn signed_decimal(n: int) -> Seq<char> {
    if n < 0 {
        seq!['-'] + decimal((-n) as nat)
    } else {
        decimal(n as nat)
    }
}

/// The number that the digits of `s` spell in base ten.
pub open spec fn digits_value(s: Seq<char>) -> nat
    decreases s.len(),
{
    if s.len() == 0 {
        0
    } else {
        digits_value(s.drop_last()) * 10 + (s.last() as int - 48) as nat
    }
}

fn decimal_chars(n: u64) -> (r: Vec<char>)
    ensures
        r@ == decimal(n as nat),
    decreases n,
{
    if n < 10 {
        let c = (n as u8 + 48) as char;
        assert(c == digit_char(n as int));
        let mut out: Vec<char> = Vec::new();
        out.push(c);
        assert(out@ =~= seq![digit_char(n as int)]);
        out
    } else {
        let mut out = decimal_chars(n / 10);
        let c = ((n % 10) as u8 + 48) as char;
        assert(c == digit_char((n % 10) as int));
        out.push(c);
        out
    }
}

/// The decimal notation of `n`.
pub fn decimal_text(n: u64) -> (r: String)
    ensures
        r@ == decimal(n as nat),
{
    let out = decimal_chars(n);
    text_of(&out)
}

/// The character for one hexadecimal digit, with the letters as given.
pub open spec fn hex_char(d: int, upper: bool) -> char {
    if d < 10 {
        (d + 48) as char
    } else if upper {
        (d + 55) as char
    } else {
        (d + 87) as char
    }
}

/// The lower-case hexadecimal notation of `n`, without leading zeros.
pub open spec fn hex(n: nat) -> Seq<char>
    decreases n,
{
    if n < 16 {
        seq![hex_char(n as int, false)]
    } else {
        hex(n / 16).push(hex_char((n % 16) as int, false))
    }
}

pub fn hex_digit_char(d: u8, upper: bool) -> (r: char)
    requires
        d < 16,
    ensures
        r == hex_char(d as int, upper),
{
    if d < 10 {
        (d + 48) as char
    } else if upper {
        (d + 55) as char
    } else {
        (d + 87) as char
    }
}

fn hex_chars(n: u128) -> (r: Vec<char>)
    ensures
        r@ == hex(n as nat),
    decreases n,
{
    if n < 16 {
        let mut out: Vec<char> = Vec::new();
        out.push(hex_digit_char(n as u8, false));
        assert(out@ =~= seq![hex_char(n as int, false)]);
        out
    } else {
        let mut out = hex_chars(n / 16);
        out.push(hex_digit_char((n % 16) as u8, false));
        out
    }
}

/// The lower-case hexadecimal notation of `n`.
pub fn hex_text(n: u128) -> (r: String)
    ensures
        r@ == hex(n as nat),
{
    let out = hex_chars(n);
    text_of(&out)
}

// ---------------------------------------------------------------------------
// Building text
// ---------------------------------------------------------------------------

pub fn glue2(a: &str, b: &str) -> (r: String)
    ensures
        r@ == a@ + b@,
{
    let mut out = a.to_string();
    out.append(b);
    out
}

pub fn glue3(a: &str, b: &str, c: &str) -> (r: String)
    ensures
        r@ == a@ + b@ + c@,
{
    let mut out = a.to_string();
    out.append(b);
    out.append(c);
    out
}

pub fn glue4(a: &str, b: &str, c: &str, d: &str) -> (r: String)
    ensures
        r@ == a@ + b@ + c@ + d@,
{
    let mut out = a.to_string();
    out.append(b);
    out.append(c);
    out.append(d);
    out
}

pub fn glue5(a: &str, b: &str, c: &str, d: &str, e: &str) -> (r: String)
    ensures
        r@ == a@ + b@ + c@ + d@ + e@,
{
    let mut out = a.to_string();
    out.append(b);
    out.append(c);
    out.append(d);
    out.append(e);
    out
}

// ---------------------------------------------------------------------------
// Order
// ---------------------------------------------------------------------------

/// The outcome of a three-way comparison.
#[derive(Clone, Copy, PartialEq, Eq, Structural, Debug)]
pub enum Order {
    Less,
    Equal,
    Greater,
}

impl Order {
    pub open spec fn flipped(self) -> Order {
        match self {
            Order::Less => Order::Greater,
            Order::Equal => Order::Equal,
            Order::Greater => Order::Less,
        }
    }

    pub fn reverse(self) -> (r: Order)
        ensures
            r == self.flipped(),
    {
        match self {
            Order::Less => Order::Greater,
            Order::Equal => Order::Equal,
            Order::Greater => Order::Less,
        }
    }
}

/// The order of two integers.
pub open spec fn int_order(a: int, b: int) -> Order {
    if a < b {
        Order::Less
    } else if a == b {
        Order::Equal
    } else {
        Order::Greater
    }
}

/// Lexicographic order.
pub open spec fn lex_lt(a: Seq<int>, b: Seq<int>) -> bool
    decreases b.len(),
{
    if b.len() == 0 {
        false
    } else if a.len() == 0 {
        true
    } else {
        a[0] < b[0] || (a[0] == b[0] && lex_lt(a.skip(1), b.skip(1)))
    }
}

pub proof fn lemma_lex_irreflexive(a: Seq<int>)
    ensures
        !lex_lt(a, a),
    decreases a.len(),
{
    if a.len() > 0 {
        lemma_lex_irreflexive(a.skip(1));
    }
}

pub proof fn lemma_lex_transitive(a: Seq<int>, b: Seq<int>, c: Seq<int>)
    requires
        lex_lt(a, b),
        lex_lt(b, c),
    ensures
        lex_lt(a, c),
    decreases c.len(),
{
    if a.len() > 0 && a[0] == b[0] && b[0] == c[0] {
        lemma_lex_transitive(a.skip(1), b.skip(1), c.skip(1));
    }
}

pub proof fn lemma_lex_total(a: Seq<int>, b: Seq<int>)
    ensures
        lex_lt(a, b) || a == b || lex_lt(b, a),
    decreases a.len(),
{
    if a.len() == 0 && b.len() == 0 {
        assert(a =~= b);
    } else if a.len() > 0 && b.len() > 0 && a[0] == b[0] {
        lemma_lex_total(a.skip(1), b.skip(1));
        if a.skip(1) == b.skip(1) {
            assert(a =~= seq![a[0]] + a.skip(1));
            assert(b =~= seq![b[0]] + b.skip(1));
        }
    }
}

/// The rank of a character: its code, or, in the order of paths, below every
/// other character for the separator.
pub open spec fn char_rank(c: char, as_path: bool) -> int {
    if as_path && c == '/' {
        -1
    } else {
        (c as u32) as int
    }
}

pub open spec fn ranks(s: Seq<char>, as_path: bool) -> Seq<int> {
    s.map_values(|c: char| char_rank(c, as_path))
}

/// The order of texts: by character code, position by position.
pub open spec fn text_lt(a: Seq<char>, b: Seq<char>) -> bool {
    lex_lt(ranks(a, false), ranks(b, false))
}

/// The order of relative paths: component by component, so that a directory's
/// contents stand together.
pub open spec fn path_lt(a: Seq<char>, b: Seq<char>) -> bool {
    lex_lt(ranks(a, true), ranks(b, true))
}

pub open spec fn ranked_order(a: Seq<char>, b: Seq<char>, as_path: bool) -> Order {
    if lex_lt(ranks(a, as_path), ranks(b, as_path)) {
        Order::Less
    } else if a == b {
        Order::Equal
    } else {
        Order::Greater
    }
}

pub open spec fn text_order(a: Seq<char>, b: Seq<char>) -> Order {
    ranked_order(a, b, false)
}

pub open spec fn path_order(a: Seq<char>, b: Seq<char>) -> Order {
    ranked_order(a, b, true)
}

/// Different characters have different ranks.
pub proof fn lemma_rank_injective(a: char, b: char, as_path: bool)
    requires
        char_rank(a, as_path) == char_rank(b, as_path),
    ensures
        a == b,
{
}

pub proof fn lemma_ranks_injective(a: Seq<char>, b: Seq<char>, as_path: bool)
    requires
        ranks(a, as_path) == ranks(b, as_path),
    ensures
        a == b,
{
    assert(ranks(a, as_path).len() == a.len());
    assert(ranks(b, as_path).len() == b.len());
    assert forall|i: int| 0 <= i < a.len() implies a[i] == b[i] by {
        assert(ranks(a, as_path)[i] == char_rank(a[i], as_path));
        assert(ranks(b, as_path)[i] == char_rank(b[i], as_path));
        lemma_rank_injective(a[i], b[i], as_path);
    }
    assert(a =~= b);
}

/// [`ranked_order`] is a strict total order: comparing the other way round
/// gives the opposite outcome, and `Less` is transitive.
pub proof fn lemma_ranked_total(a: Seq<char>, b: Seq<char>, as_path: bool)
    ensures
        ranked_order(a, b, as_path) == ranked_order(b, a, as_path).flipped(),
        ranked_order(a, a, as_path) is Equal,
        ranked_order(a, b, as_path) is Equal <==> a == b,
{
    let x = ranks(a, as_path);
    let y = ranks(b, as_path);
    lemma_lex_total(x, y);
    lemma_lex_irreflexive(x);
    if x == y {
        lemma_ranks_injective(a, b, as_path);
    }
    if lex_lt(x, y) && lex_lt(y, x) {
        lemma_lex_transitive(x, y, x);
    }
}

pub proof fn lemma_ranked_transitive(a: Seq<char>, b: Seq<char>, c: Seq<char>, as_path: bool)
    requires
        ranked_order(a, b, as_path) is Less,
        ranked_order(b, c, as_path) is Less,
    ensures
        ranked_order(a, c, as_path) is Less,
{
    lemma_lex_transitive(ranks(a, as_path), ranks(b, as_path), ranks(c, as_path));
}

fn rank_of(c: char, as_path: bool) -> (r: i64)
    ensures
        r == char_rank(c, as_path),
{
    if as_path && c == '/' {
        -1
    } else {
        (c as u32) as i64
    }
}

/// How two runs of characters compare, as texts or as paths.
pub fn compare_chars(a: &[char], b: &[char], as_path: bool) -> (r: Order)
    ensures
        r == ranked_order(a@, b@, as_path),
{
    let ghost x = ranks(a@, as_path);
    let ghost y = ranks(b@, as_path);
    proof {
        lemma_ranked_total(a@, b@, as_path);
        lemma_lex_total(x, y);
        assert(x.skip(0) =~= x);
        assert(y.skip(0) =~= y);
    }
    let mut i: usize = 0;
    while i < a.len() && i < b.len()
        invariant
            i <= a@.len(),
            i <= b@.len(),
            x == ranks(a@, as_path),
            y == ranks(b@, as_path),
            a@.take(i as int) == b@.take(i as int),
            lex_lt(x, y) == lex_lt(x.skip(i as int), y.skip(i as int)),
            lex_lt(y, x) == lex_lt(y.skip(i as int), x.skip(i as int)),
            lex_lt(x, y) || a@ == b@ || lex_lt(y, x),
            ranked_order(a@, b@, as_path) == ranked_order(b@, a@, as_path).flipped(),
        decreases a@.len() - i,
    {
        let p = rank_of(a[i], as_path);
        let q = rank_of(b[i], as_path);
        assert(x.skip(i as int)[0] == p);
        assert(y.skip(i as int)[0] == q);
        assert(x.skip(i as int).skip(1) =~= x.skip(i + 1));
        assert(y.skip(i as int).skip(1) =~= y.skip(i + 1));
        if p < q {
            return Order::Less;
        }
        if q < p {
            return Order::Greater;
        }
        proof {
            lemma_rank_injective(a@[i as int], b@[i as int], as_path);
        }
        assert(a@.take(i + 1) =~= a@.take(i as int).push(a@[i as int]));
        assert(b@.take(i + 1) =~= b@.take(i as int).push(b@[i as int]));
        i = i + 1;
    }
    if i < b.len() {
        Order::Less
    } else if i < a.len() {
        Order::Greater
    } else {
        assert(a@.take(i as int) =~= a@);
        assert(b@.take(i as int) =~= b@);
        Order::Equal
    }
}

/// How two texts compare, by character code.
pub fn compare_text(a: &str, b: &str) -> (r: Order)
    ensures
        r == text_order(a@, b@),
{
    let x = chars_of(a);
    let y = chars_of(b);
    compare_chars(&x, &y, false)
}

/// How two relative paths compare, component by component.
pub fn compare_paths(a: &str, b: &str) -> (r: Order)
    ensures
        r == path_order(a@, b@),
{
    let x = chars_of(a);
    let y = chars_of(b);
    compare_chars(&x, &y, true)
}

} // verus!
