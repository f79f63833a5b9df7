//! A single record: one file's parsed frontmatter and body.

use vstd::prelude::*;
use vstd::utf8::encode_utf8;

use crate::frontmatter::{
    fast_parse, fast_value, file_split, flat, head_value, is_flat, law_scan_equals_lookup,
    lemma_fast_value_rebuildable, opt_content, parse_head, raw_split, scan_lines, scan_one,
    split_raw, FrontmatterErrorView, ScanOne, ScanView,
};
use crate::text::{decimal, decimal_text, glue2, glue3, glue4, glue5, lines};
use crate::value::{Value, ValueView};
use crate::yaml::{json_text, value_json, yaml_json};

verus! {

/// Why a record could not be read.
#[derive(Debug)]
pub enum RecordError {
    Frontmatter(String),
    ReadFile { path: String, reason: String },
    InvalidPath(String),
}

/// The content of a [`RecordError`].
pub enum RecordErrorView {
    Frontmatter(Seq<char>),
    ReadFile { path: Seq<char>, reason: Seq<char> },
    InvalidPath(Seq<char>),
}

impl View for RecordError {
    type V = RecordErrorView;

    open spec fn view(&self) -> RecordErrorView {
        match *self {
            RecordError::Frontmatter(m) => RecordErrorView::Frontmatter(m@),
            RecordError::ReadFile { path, reason } => RecordErrorView::ReadFile {
                path: path@,
                reason: reason@,
            },
            RecordError::InvalidPath(m) => RecordErrorView::InvalidPath(m@),
        }
    }
}

impl RecordErrorView {
    /// The error in words.
    pub open spec fn message(self) -> Seq<char> {
        match self {
            RecordErrorView::Frontmatter(m) => "frontmatter error: "@ + m,
            RecordErrorView::ReadFile { path, reason } => "failed to read record file `"@ + path
                + "`: "@ + reason,
            RecordErrorView::InvalidPath(m) => "invalid record path `"@ + m
                + "`: absolute paths, `..`, and backslashes are not allowed"@,
        }
    }
}

impl RecordError {
    /// The error in words.
    pub fn message(&self) -> (r: String)
        ensures
            r@ == self@.message(),
    {
        match self {
            RecordError::Frontmatter(m) => glue2("frontmatter error: ", m),
            RecordError::ReadFile { path, reason } => glue4(
                "failed to read record file `",
                path,
                "`: ",
                reason,
            ),
            RecordError::InvalidPath(m) => glue3(
                "invalid record path `",
                m,
                "`: absolute paths, `..`, and backslashes are not allowed",
            ),
        }
    }
}

/// The content of a record: its path relative to the collection, the raw
/// frontmatter text where there is a block that is not blank, and the body.
pub struct RecordView {
    pub path: Seq<char>,
    pub head: Option<Seq<char>>,
    pub body: Seq<char>,
}

/// The frontmatter of a record with the given head: null where there is none. No
/// record has a head without a value.
pub open spec fn head_frontmatter(head: Option<Seq<char>>) -> ValueView {
    match head {
        None => ValueView::Null,
        Some(h) => match head_value(h) {
            Ok(v) => v,
            Err(_) => ValueView::Null,
        },
    }
}

/// The JSON text of a value; an empty object where JSON cannot hold it.
pub open spec fn json_or_empty(v: ValueView) -> Seq<char> {
    match json_text(v) {
        Some(s) => s,
        None => "{}"@,
    }
}

impl RecordView {
    /// The parsed frontmatter: null where there is none.
    pub open spec fn frontmatter(self) -> ValueView {
        head_frontmatter(self.head)
    }

    /// Whether the record has frontmatter: a flat head always counts, any other
    /// counts where it is not null.
    pub open spec fn has_frontmatter(self) -> bool {
        ||| self.head matches Some(h) && flat(h)
        ||| !self.frontmatter().is_null()
    }

    /// The value of a frontmatter field.
    pub open spec fn field(self, name: Seq<char>) -> Option<ValueView> {
        self.frontmatter().get(name)
    }

    /// One line about the record: its path, its frontmatter as JSON, and the size of
    /// its body in bytes.
    pub open spec fn summary(self) -> Seq<char> {
        self.path + ": "@ + json_or_empty(self.frontmatter()) + ", body_len: "@ + decimal(
            encode_utf8(self.body).len(),
        )
    }

    /// The value of a frontmatter field, looked up line by line in a flat head that
    /// the flat rules resolve.
    pub open spec fn field_scalar(self, name: Seq<char>) -> Option<ValueView> {
        match self.head {
            Some(h) => if flat(h) && fast_value(h) is Some {
                match scan_lines(lines(h), name) {
                    ScanView::Found(v) => Some(v),
                    ScanView::Missing => None,
                    ScanView::Unresolvable => self.field(name),
                }
            } else {
                self.field(name)
            },
            None => self.field(name),
        }
    }
}

/// What a file with the given path and content is read as: a record, or the
/// message of the frontmatter error.
pub open spec fn read_content(path: Seq<char>, content: Seq<char>) -> Result<
    RecordView,
    RecordErrorView,
> {
    match raw_split(content) {
        None => Err(RecordErrorView::Frontmatter(FrontmatterErrorView::Unclosed.message())),
        Some((head, body)) => {
            let record = RecordView { path, head, body };
            match head {
                None => Ok(record),
                Some(h) => match head_value(h) {
                    Ok(_) => Ok(record),
                    Err(e) => Err(
                        RecordErrorView::Frontmatter(FrontmatterErrorView::Yaml(e).message()),
                    ),
                },
            }
        },
    }
}

/// A single record of a collection.
pub struct Record {
    path: String,
    head: Option<String>,
    frontmatter: Value,
    body: String,
}

pub closed spec fn owned_text(t: Option<String>) -> Option<Seq<char>> {
    match t {
        Some(s) => Some(s@),
        None => None,
    }
}

impl View for Record {
    type V = RecordView;

    closed spec fn view(&self) -> RecordView {
        RecordView { path: self.path@, head: owned_text(self.head), body: self.body@ }
    }
}

impl Record {
    #[verifier::type_invariant]
    spec fn parsed(&self) -> bool {
        self.frontmatter@ == head_frontmatter(owned_text(self.head))
    }

    /// Parses a record from its path relative to the collection and the content
    /// of its file.
    pub fn from_content(path: &str, content: &str) -> (r: Result<Record, RecordError>)
        ensures
            match r {
                Ok(record) => read_content(path@, content@) == Ok::<RecordView, RecordErrorView>(
                    record@,
                ),
                Err(e) => read_content(path@, content@) == Err::<RecordView, RecordErrorView>(e@),
            },
    {
        let raw = match split_raw(content) {
            Ok(raw) => raw,
            Err(e) => {
                return Err(RecordError::Frontmatter(e.message()));
            },
        };
        let frontmatter = match raw.head {
            None => Value::Null,
            Some(h) => match parse_head(h) {
                Ok(v) => v,
                Err(e) => {
                    return Err(RecordError::Frontmatter(e.message()));
                },
            },
        };
        let head = match raw.head {
            None => None,
            Some(h) => Some(h.to_string()),
        };
        Ok(Record { path: path.to_string(), head, frontmatter, body: raw.body.to_string() })
    }

    /// The record's path relative to its collection.
    pub fn path(&self) -> (r: &str)
        ensures
            r@ == self@.path,
    {
        self.path.as_str()
    }

    /// Everything behind the frontmatter block.
    pub fn body(&self) -> (r: &str)
        ensures
            r@ == self@.body,
    {
        self.body.as_str()
    }

    /// Whether this record has frontmatter.
    pub fn has_frontmatter(&self) -> (r: bool)
        ensures
            r == self@.has_frontmatter(),
    {
        proof {
            use_type_invariant(self);
        }
        match &self.head {
            Some(h) => is_flat(h) || !self.frontmatter.is_null(),
            None => false,
        }
    }

    /// The whole parsed frontmatter.
    pub fn frontmatter(&self) -> (r: &Value)
        ensures
            r@ == self@.frontmatter(),
    {
        proof {
            use_type_invariant(self);
        }
        &self.frontmatter
    }

    /// The value of a frontmatter field.
    pub fn field(&self, name: &str) -> (r: Option<&Value>)
        ensures
            match r {
                Some(v) => self@.field(name@) == Some(v@),
                None => self@.field(name@) is None,
            },
    {
        self.frontmatter().get(name)
    }

    /// The value of a frontmatter field, looked up line by line in a flat head that
    /// the flat rules resolve.
    pub fn field_scalar(&self, name: &str) -> (r: Option<Value>)
        ensures
            opt_content(r) == self@.field_scalar(name@),
    {
        if let Some(h) = &self.head {
            if is_flat(h) && fast_parse(h).is_some() {
                match scan_one(h, name) {
                    ScanOne::Found(v) => {
                        return Some(v);
                    },
                    ScanOne::Missing => {
                        return None;
                    },
                    ScanOne::Unresolvable => {},
                }
            }
        }
        match self.field(name) {
            Some(v) => Some(v.clone()),
            None => None,
        }
    }

    /// One line about the record: its path, its frontmatter as JSON, and the size of
    /// its body in bytes.
    pub fn summary(&self) -> (r: String)
        ensures
            r@ == self@.summary(),
    {
        let json = self.frontmatter_json();
        let bytes = self.body.as_str().as_bytes();
        let size = decimal_text(bytes.len() as u64);
        glue5(self.path.as_str(), ": ", json.as_str(), ", body_len: ", size.as_str())
    }

    /// The frontmatter as JSON text.
    pub fn frontmatter_json(&self) -> (r: String)
        ensures
            r@ == json_or_empty(self@.frontmatter()),
    {
        proof {
            use_type_invariant(self);
        }
        let mut text: Option<String> = None;
        if let Some(h) = &self.head {
            proof {
                lemma_fast_value_rebuildable(h@);
            }
            text = match fast_parse(h) {
                Some(v) => value_json(&v),
                None => yaml_json(h),
            };
        }
        if text.is_none() && matches!(self.frontmatter, Value::Null) {
            assert(crate::yaml::rebuildable(self.frontmatter@));
            text = value_json(&self.frontmatter);
        }
        match text {
            Some(s) => s,
            None => "{}".to_string(),
        }
    }
}

// ---------------------------------------------------------------------------
// Record files
// ---------------------------------------------------------------------------

/// A record's file as it was read: its path relative to the collection, and its
/// content or why it could not be read.
#[derive(Debug)]
pub struct RecordFile {
    pub path: String,
    pub content: Result<String, String>,
}

/// The content of a [`RecordFile`].
pub struct FileView {
    pub path: Seq<char>,
    pub content: Result<Seq<char>, Seq<char>>,
}

impl View for RecordFile {
    type V = FileView;

    open spec fn view(&self) -> FileView {
        FileView {
            path: self.path@,
            content: match self.content {
                Ok(c) => Ok(c@),
                Err(e) => Err(e@),
            },
        }
    }
}

impl Clone for RecordFile {
    fn clone(&self) -> (r: RecordFile)
        ensures
            r@ == self@,
    {
        let content = match &self.content {
            Ok(c) => Ok(c.clone()),
            Err(e) => Err(e.clone()),
        };
        RecordFile { path: self.path.clone(), content }
    }
}

pub open spec fn file_views(files: Seq<RecordFile>) -> Seq<FileView> {
    files.map_values(|f: RecordFile| f@)
}

impl FileView {
    /// The record that the file holds, or why there is none.
    pub open spec fn record(self) -> Result<RecordView, RecordErrorView> {
        match self.content {
            Ok(c) => read_content(self.path, c),
            Err(reason) => Err(RecordErrorView::ReadFile { path: self.path, reason }),
        }
    }
}

impl RecordFile {
    /// Parses the record that the file holds.
    pub fn record(&self) -> (r: Result<Record, RecordError>)
        ensures
            match r {
                Ok(record) => self@.record() == Ok::<RecordView, RecordErrorView>(record@),
                Err(e) => self@.record() == Err::<RecordView, RecordErrorView>(e@),
            },
    {
        match &self.content {
            Ok(c) => Record::from_content(&self.path, c),
            Err(reason) => Err(
                RecordError::ReadFile { path: self.path.clone(), reason: reason.clone() },
            ),
        }
    }
}

pub open spec fn record_views(records: Seq<Record>) -> Seq<RecordView> {
    records.map_values(|r: Record| r@)
}

/// Looking a field up line by line gives what the parsed frontmatter holds under
/// that name, for every record and every name.
pub proof fn law_field_scalar_equals_field(record: RecordView, name: Seq<char>)
    ensures
        record.field_scalar(name) == record.field(name),
{
    if let Some(h) = record.head {
        if flat(h) && fast_value(h) is Some {
            law_scan_equals_lookup(h, name);
        }
    }
}

/// Reading a record agrees with splitting its file: it fails exactly where the
/// split fails, with the same complaint; otherwise the body is that of the split,
/// and the fields are those of its frontmatter.
pub proof fn law_record_agrees_with_split(path: Seq<char>, content: Seq<char>, name: Seq<char>)
    ensures
        match (read_content(path, content), file_split(content)) {
            (Ok(record), Ok((frontmatter, body))) => {
                &&& record.path == path
                &&& record.body == body
                &&& record.frontmatter() == match frontmatter {
                    Some(v) => v,
                    None => ValueView::Null,
                }
                &&& record.field(name) == match frontmatter {
                    Some(v) => v.get(name),
                    None => None,
                }
            },
            (Err(e), Err(f)) => e == RecordErrorView::Frontmatter(f.message()),
            _ => false,
        },
{
}

} // verus!
