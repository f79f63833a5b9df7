//! Reading single fields straight from the text of a file, without parsing its
//! frontmatter: the quickest way to look at one value of many records.

use vstd::prelude::*;
use vstd::slice::slice_subrange;

use crate::frontmatter::{closing_line, integer_of, opened, spelled_integer, split_parts};
use crate::text::{begins_text, chars_of, lines, starts_with, text_lines, text_of, trim, trimmed, views};

verus! {

/// The text between the opening and the closing line of a file's frontmatter.
pub open spec fn head_text(content: Seq<char>) -> Option<Seq<char>> {
    match opened(content) {
        None => None,
        Some(rest) => match closing_line(rest, 0) {
            None => None,
            Some((start, _)) => Some(rest.take(start)),
        },
    }
}

/// The text between the opening and the closing line of a file's frontmatter.
pub fn head_slice(content: &str) -> (r: Option<&str>)
    ensures
        match r {
            Some(head) => head_text(content@) == Some(head@),
            None => head_text(content@) is None,
        },
{
    match split_parts(content) {
        Some((base, start, _)) => {
            let head = content.substring_char(base, base + start);
            assert(head@ =~= opened(content@)->Some_0.take(start as int));
            Some(head)
        },
        None => None,
    }
}

/// What follows `key:` on a line, where the line starts with that.
pub open spec fn after_key(line: Seq<char>, key: Seq<char>) -> Option<Seq<char>> {
    if starts_with(line, key) && line.len() > key.len() && line[key.len() as int] == ':' {
        Some(line.skip(key.len() as int + 1))
    } else {
        None
    }
}

/// What follows `key:` on the first line at or behind `from` that starts with it.
pub open spec fn first_after_key(all: Seq<Seq<char>>, key: Seq<char>, from: int) -> Option<Seq<char>>
    decreases all.len() - from,
{
    if from < 0 || from >= all.len() {
        None
    } else {
        match after_key(all[from], key) {
            Some(v) => Some(v),
            None => first_after_key(all, key, from + 1),
        }
    }
}

/// The raw text of a field: what follows its name and a colon at the start of a
/// line, trimmed.
pub open spec fn field_text(head: Seq<char>, key: Seq<char>) -> Option<Seq<char>> {
    match first_after_key(lines(head), key, 0) {
        Some(v) => Some(trim(v)),
        None => None,
    }
}

fn find_field(head: &str, key: &str) -> (r: Option<Vec<char>>)
    ensures
        match r {
            Some(v) => field_text(head@, key@) == Some(v@),
            None => field_text(head@, key@) is None,
        },
{
    let chars = chars_of(head);
    let name = chars_of(key);
    let rows = text_lines(&chars);
    let ghost all = views(rows@);
    for i in 0..rows.len()
        invariant
            all == views(rows@),
            all == lines(head@),
            name@ == key@,
            first_after_key(all, key@, 0) == first_after_key(all, key@, i as int),
    {
        let line = rows[i].as_slice();
        assert(all[i as int] == line@);
        if begins_text(line, key) && line.len() > name.len() && line[name.len()] == ':' {
            let rest = slice_subrange(line, name.len() + 1, line.len());
            assert(rest@ =~= line@.skip(key@.len() as int + 1));
            let value = trimmed(rest);
            return Some(crate::text::copy_range(value, 0, value.len()));
        }
    }
    None
}

/// The raw text of a field.
pub fn field(head: &str, key: &str) -> (r: Option<String>)
    ensures
        match r {
            Some(v) => field_text(head@, key@) == Some(v@),
            None => field_text(head@, key@) is None,
        },
{
    match find_field(head, key) {
        Some(v) => Some(text_of(&v)),
        None => None,
    }
}

/// The integer in a field, where its raw text spells one.
pub fn scan_int_field(head: &str, key: &str) -> (r: Option<i64>)
    ensures
        match (r, field_text(head@, key@)) {
            (Some(n), Some(text)) => spelled_integer(text) == Some(n as int),
            (None, Some(text)) => spelled_integer(text) is None,
            (r, None) => r is None,
        },
{
    match find_field(head, key) {
        Some(v) => integer_of(&v),
        None => None,
    }
}

} // verus!
