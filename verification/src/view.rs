//! View materialization: a query's result as a directory of symbolic links.
//!
//! ```text
//! views/
//!   .generations/
//!     gen-<id>/            the content of the view, built here
//!       <group>/           one directory for each group, where it is grouped
//!         record.md -> ../../../../<collection>/record.md
//!   my-view -> .generations/gen-<id>   published by renaming a link
//! ```
//!
//! What is planned here is carried out by the caller: links are created in a new
//! generation, and renaming one link over the published name makes it visible at
//! once. Generations that no published link refers to can then be removed.

use vstd::prelude::*;
use vstd::utf8::{encode_utf8, encode_utf8_decode_utf8};

use crate::path::{components, file_name, name_of};
use crate::record::{record_views, Record, RecordError, RecordErrorView, RecordView};
use crate::text::{
    begins_text, chars_of, decimal, decimal_text, digits_value, glue2, glue3, glue4, hex, hex_char,
    hex_digit_char, hex_text, holds_char, join, lemma_join_split, same_text, signed_decimal,
    spells, split_on, starts_with, text_of, text_views,
};
use crate::text_laws::hex_number;
use crate::value::{contents, Value, ValueView};
use crate::yaml::{printed, printed_double};

verus! {

/// Why a view could not be materialized.
#[derive(Debug)]
pub enum MaterializeError {
    InvalidViewName(String),
    EmptyGroupValue,
    InvalidGroupValue(String),
    GroupValueTooLong(String),
    Io(String),
    Record(RecordError),
}

/// The content of a [`MaterializeError`].
pub enum MaterializeErrorView {
    InvalidViewName(Seq<char>),
    EmptyGroupValue,
    InvalidGroupValue(Seq<char>),
    GroupValueTooLong(Seq<char>),
    Io(Seq<char>),
    Record(RecordErrorView),
}

impl View for MaterializeError {
    type V = MaterializeErrorView;

    open spec fn view(&self) -> MaterializeErrorView {
        match *self {
            MaterializeError::InvalidViewName(m) => MaterializeErrorView::InvalidViewName(m@),
            MaterializeError::EmptyGroupValue => MaterializeErrorView::EmptyGroupValue,
            MaterializeError::InvalidGroupValue(v) => MaterializeErrorView::InvalidGroupValue(v@),
            MaterializeError::GroupValueTooLong(v) => MaterializeErrorView::GroupValueTooLong(v@),
            MaterializeError::Io(m) => MaterializeErrorView::Io(m@),
            MaterializeError::Record(e) => MaterializeErrorView::Record(e@),
        }
    }
}

impl MaterializeErrorView {
    /// The error in words.
    pub open spec fn message(self) -> Seq<char> {
        match self {
            MaterializeErrorView::InvalidViewName(m) => "invalid view name: "@ + m,
            MaterializeErrorView::EmptyGroupValue => "group value is empty"@,
            MaterializeErrorView::InvalidGroupValue(v) => "group value `"@ + v
                + "` is invalid (encodes to `.` or `..`)"@,
            MaterializeErrorView::GroupValueTooLong(v) => "group value `"@ + v
                + "` is too long after encoding (max 240 bytes)"@,
            MaterializeErrorView::Io(m) => "I/O error: "@ + m,
            MaterializeErrorView::Record(e) => "record error: "@ + e.message(),
        }
    }
}

impl MaterializeError {
    /// The error in words.
    pub fn message(&self) -> (r: String)
        ensures
            r@ == self@.message(),
    {
        match self {
            MaterializeError::InvalidViewName(m) => glue2("invalid view name: ", m),
            MaterializeError::EmptyGroupValue => "group value is empty".to_string(),
            MaterializeError::InvalidGroupValue(v) => glue3(
                "group value `",
                v,
                "` is invalid (encodes to `.` or `..`)",
            ),
            MaterializeError::GroupValueTooLong(v) => glue3(
                "group value `",
                v,
                "` is too long after encoding (max 240 bytes)",
            ),
            MaterializeError::Io(m) => glue2("I/O error: ", m),
            MaterializeError::Record(e) => {
                let m = e.message();
                glue2("record error: ", m.as_str())
            },
        }
    }
}

// ---------------------------------------------------------------------------
// Names
// ---------------------------------------------------------------------------

/// What is wrong with the name of a view, if anything.
pub open spec fn view_name_problem(name: Seq<char>) -> Option<Seq<char>> {
    if name.len() == 0 {
        Some("view name is empty"@)
    } else if name.contains('/') || name.contains('\\') {
        Some("view name `"@ + name + "` contains a path separator"@)
    } else if name[0] == '.' {
        Some("view name `"@ + name + "` starts with `.`"@)
    } else {
        None
    }
}

/// Checks the name of a view.
pub fn validate_view_name(name: &str) -> (r: Result<(), MaterializeError>)
    ensures
        match r {
            Ok(_) => view_name_problem(name@) is None,
            Err(e) => match view_name_problem(name@) {
                Some(m) => e@ == MaterializeErrorView::InvalidViewName(m),
                None => false,
            },
        },
{
    let chars = chars_of(name);
    if chars.len() == 0 {
        return Err(MaterializeError::InvalidViewName("view name is empty".to_string()));
    }
    if holds_char(&chars, '/') || holds_char(&chars, '\\') {
        return Err(
            MaterializeError::InvalidViewName(
                glue3("view name `", name, "` contains a path separator"),
            ),
        );
    }
    if chars[0] == '.' {
        return Err(
            MaterializeError::InvalidViewName(glue3("view name `", name, "` starts with `.`")),
        );
    }
    Ok(())
}

/// The name of a generation, from the time in nanoseconds and a counter.
pub open spec fn generation_name(nanos: nat, counter: nat) -> Seq<char> {
    "gen-"@ + hex(nanos) + "-"@ + decimal(counter)
}

/// The name of a generation.
pub fn gen_id(nanos: u128, counter: u64) -> (r: String)
    ensures
        r@ == generation_name(nanos as nat, counter as nat),
{
    let time = hex_text(nanos);
    let count = decimal_text(counter);
    glue4("gen-", time.as_str(), "-", count.as_str())
}

// ---------------------------------------------------------------------------
// Groups
// ---------------------------------------------------------------------------

/// The text of a value as the name of a group: texts, numbers and truth values
/// have one.
pub open spec fn group_text(v: ValueView) -> Option<Seq<char>> {
    match v.untagged() {
        ValueView::String(s) => Some(s),
        ValueView::Number(n) => match n.as_i64() {
            Some(i) => Some(signed_decimal(i as int)),
            None => Some(printed(n)),
        },
        ValueView::Bool(b) => Some(
            if b {
                "true"@
            } else {
                "false"@
            },
        ),
        _ => None,
    }
}

/// The texts of the items that have one, in order.
pub open spec fn group_texts(items: Seq<ValueView>) -> Seq<Seq<char>>
    decreases items.len(),
{
    if items.len() == 0 {
        Seq::empty()
    } else {
        let before = group_texts(items.drop_last());
        match group_text(items.last()) {
            Some(t) => before.push(t),
            None => before,
        }
    }
}

/// The groups of a record: those of the items where the field is a sequence, else
/// that of its value; a record without the field is in a group of its own kind.
pub open spec fn groups_of(record: RecordView, field: Seq<char>) -> Seq<Seq<char>> {
    match record.field(field) {
        Some(ValueView::Sequence(items)) => group_texts(items),
        Some(v) => match group_text(v) {
            Some(t) => seq![t],
            None => Seq::empty(),
        },
        None => seq!["_ungrouped"@],
    }
}

fn signed_text(n: i64) -> (r: String)
    ensures
        r@ == signed_decimal(n as int),
{
    if n >= 0 {
        decimal_text(n as u64)
    } else {
        let magnitude: u64 = if n == i64::MIN {
            0x8000_0000_0000_0000
        } else {
            (0 - n) as u64
        };
        let digits = decimal_text(magnitude);
        proof {
            reveal_strlit("-");
            assert("-"@ =~= seq!['-']);
        }
        glue2("-", digits.as_str())
    }
}

/// The text of a value as the name of a group.
pub fn value_to_string(v: &Value) -> (r: Option<String>)
    ensures
        match r {
            Some(t) => group_text(v@) == Some(t@),
            None => group_text(v@) is None,
        },
{
    match v.untagged() {
        Value::String(s) => Some(s.clone()),
        Value::Number(n) => match n.as_i64() {
            Some(i) => Some(signed_text(i)),
            None => Some(printed_double(n)),
        },
        Value::Bool(b) => if *b {
            Some("true".to_string())
        } else {
            Some("false".to_string())
        },
        _ => None,
    }
}

/// The groups of a record.
pub fn extract_group_values(record: &Record, field: &str) -> (r: Vec<String>)
    ensures
        text_views(r@) == groups_of(record@, field@),
{
    let mut out: Vec<String> = Vec::new();
    assert(text_views(out@) =~= Seq::<Seq<char>>::empty());
    match record.field(field) {
        None => {
            out.push("_ungrouped".to_string());
            assert(text_views(out@) =~= seq!["_ungrouped"@]);
        },
        Some(v) => {
            if let Value::Sequence(items) = v {
                proof {
                    crate::value::lemma_sequence_content(*v);
                }
                let ghost all = contents(items@);
                for i in 0..items.len()
                    invariant
                        all == contents(items@),
                        text_views(out@) == group_texts(all.take(i as int)),
                {
                    let ghost before = out@;
                    assert(all.take(i + 1).drop_last() =~= all.take(i as int));
                    assert(all.take(i + 1).last() == items@[i as int]@);
                    if let Some(t) = value_to_string(&items[i]) {
                        out.push(t);
                        assert(text_views(out@) =~= text_views(before).push(t@));
                    }
                }
                assert(all.take(all.len() as int) =~= all);
            } else if let Some(t) = value_to_string(v) {
                out.push(t);
                assert(text_views(out@) =~= seq![t@]);
            }
        },
    }
    out
}

// ---------------------------------------------------------------------------
// Encoding group values as directory names
// ---------------------------------------------------------------------------

/// The bytes that stand for themselves: ASCII letters and digits, and `. _ - ~`.
pub open spec fn is_safe_byte(b: u8) -> bool {
    ||| 0x30 <= b <= 0x39
    ||| 0x41 <= b <= 0x5a
    ||| 0x61 <= b <= 0x7a
    ||| b == 0x2e || b == 0x5f || b == 0x2d || b == 0x7e
}

/// One byte as itself or as `%` and two hexadecimal digits.
pub open spec fn encode_byte(b: u8) -> Seq<char> {
    if is_safe_byte(b) {
        seq![b as char]
    } else {
        seq!['%', hex_char(b as int / 16, true), hex_char(b as int % 16, true)]
    }
}

pub open spec fn encode_bytes(bytes: Seq<u8>) -> Seq<char>
    decreases bytes.len(),
{
    if bytes.len() == 0 {
        Seq::empty()
    } else {
        encode_bytes(bytes.drop_last()) + encode_byte(bytes.last())
    }
}

/// A text with all bytes that are not safe in percent notation.
pub open spec fn encoded(value: Seq<char>) -> Seq<char> {
    encode_bytes(encode_utf8(value))
}

/// The longest directory name that is used.
pub const MAX_SEGMENT: usize = 240;

/// The directory name of a group. Empty values, and such as encode to `.` or `..`
/// or to more than 240 bytes, have none.
pub open spec fn segment(value: Seq<char>) -> Result<Seq<char>, MaterializeErrorView> {
    let e = encoded(value);
    if value.len() == 0 {
        Err(MaterializeErrorView::EmptyGroupValue)
    } else if e == "."@ || e == ".."@ {
        Err(MaterializeErrorView::InvalidGroupValue(value))
    } else if e.len() > MAX_SEGMENT {
        Err(MaterializeErrorView::GroupValueTooLong(value))
    } else {
        Ok(e)
    }
}

fn safe_byte(b: u8) -> (r: bool)
    ensures
        r == is_safe_byte(b),
{
    (0x30 <= b && b <= 0x39) || (0x41 <= b && b <= 0x5a) || (0x61 <= b && b <= 0x7a) || b == 0x2e || b
        == 0x5f || b == 0x2d || b == 0x7e
}

/// The directory name of a group.
pub fn encode_segment(value: &str) -> (r: Result<String, MaterializeError>)
    ensures
        match r {
            Ok(s) => segment(value@) == Ok::<Seq<char>, MaterializeErrorView>(s@),
            Err(e) => segment(value@) == Err::<Seq<char>, MaterializeErrorView>(e@),
        },
{
    let chars = chars_of(value);
    if chars.len() == 0 {
        return Err(MaterializeError::EmptyGroupValue);
    }
    let bytes = value.as_bytes();
    let mut out: Vec<char> = Vec::new();
    for i in 0..bytes.len()
        invariant
            bytes@ == encode_utf8(value@),
            out@ == encode_bytes(bytes@.take(i as int)),
    {
        assert(bytes@.take(i + 1).drop_last() =~= bytes@.take(i as int));
        let ghost before = out@;
        let b = bytes[i];
        if safe_byte(b) {
            out.push(b as char);
        } else {
            out.push('%');
            out.push(hex_digit_char(b / 16, true));
            out.push(hex_digit_char(b % 16, true));
        }
        assert(out@ =~= before + encode_byte(b));
    }
    assert(bytes@.take(bytes@.len() as int) =~= bytes@);
    if spells(&out, ".") || spells(&out, "..") {
        return Err(MaterializeError::InvalidGroupValue(value.to_string()));
    }
    if out.len() > MAX_SEGMENT {
        return Err(MaterializeError::GroupValueTooLong(value.to_string()));
    }
    Ok(text_of(&out))
}

// ---------------------------------------------------------------------------
// Links
// ---------------------------------------------------------------------------

/// `count` steps up.
pub open spec fn ups(count: nat) -> Seq<char>
    decreases count,
{
    if count == 0 {
        Seq::empty()
    } else {
        ups((count - 1) as nat) + "../"@
    }
}

/// The number of separators in a path.
pub open spec fn separators(path: Seq<char>) -> nat
    decreases path.len(),
{
    if path.len() == 0 {
        0
    } else {
        separators(path.drop_last()) + if path.last() == '/' {
            1nat
        } else {
            0
        }
    }
}

/// What a record's link points at: from the link's directory up to the database's
/// directory, and down to the record.
pub open spec fn link_target(
    grouped: bool,
    collection: Seq<char>,
    path: Seq<char>,
) -> Seq<char> {
    ups(
        separators(path) + if grouped {
            4nat
        } else {
            3
        },
    ) + collection + "/"@ + path
}

/// What a record's link points at.
pub fn symlink_target(grouped: bool, collection: &str, record_path: &str) -> (r: String)
    ensures
        r@ == link_target(grouped, collection@, record_path@),
{
    let chars = chars_of(record_path);
    let mut steps = String::new();
    for i in 0..chars.len()
        invariant
            chars@ == record_path@,
            steps@ == ups(separators(chars@.take(i as int))),
    {
        assert(chars@.take(i + 1).drop_last() =~= chars@.take(i as int));
        if chars[i] == '/' {
            steps.append("../");
        }
    }
    assert(chars@.take(chars@.len() as int) =~= chars@);
    let ghost n = separators(record_path@);
    steps.append("../");
    assert(steps@ == ups(n + 1));
    steps.append("../");
    assert(steps@ == ups(n + 2));
    steps.append("../");
    assert(steps@ == ups(n + 3));
    if grouped {
        steps.append("../");
        assert(steps@ == ups(n + 4));
    }
    glue4(steps.as_str(), collection, "/", record_path)
}

/// A link of a view: where it stands below the generation's directory, and what
/// it points at.
pub struct Link {
    pub path: String,
    pub target: String,
}

/// The content of a [`Link`].
pub struct LinkView {
    pub path: Seq<char>,
    pub target: Seq<char>,
}

impl View for Link {
    type V = LinkView;

    open spec fn view(&self) -> LinkView {
        LinkView { path: self.path@, target: self.target@ }
    }
}

pub open spec fn link_views(links: Seq<Link>) -> Seq<LinkView> {
    links.map_values(|l: Link| l@)
}

/// The links of a record in the given groups, or the first error among them.
pub open spec fn group_links(
    collection: Seq<char>,
    path: Seq<char>,
    groups: Seq<Seq<char>>,
) -> Result<Seq<LinkView>, MaterializeErrorView>
    decreases groups.len(),
{
    if groups.len() == 0 {
        Ok(Seq::empty())
    } else {
        match group_links(collection, path, groups.drop_last()) {
            Err(e) => Err(e),
            Ok(before) => match segment(groups.last()) {
                Err(e) => Err(e),
                Ok(dir) => Ok(
                    before.push(
                        LinkView {
                            path: dir + "/"@ + path,
                            target: link_target(true, collection, path),
                        },
                    ),
                ),
            },
        }
    }
}

/// The links of a record: one, or one for each of its groups.
pub open spec fn record_links(
    collection: Seq<char>,
    record: RecordView,
    group_by: Option<Seq<char>>,
) -> Result<Seq<LinkView>, MaterializeErrorView> {
    match group_by {
        None => Ok(
            seq![
                LinkView {
                    path: record.path,
                    target: link_target(false, collection, record.path),
                },
            ],
        ),
        Some(field) => group_links(collection, record.path, groups_of(record, field)),
    }
}

/// The links of a view, record by record, or the first error.
pub open spec fn all_links(
    collection: Seq<char>,
    records: Seq<RecordView>,
    group_by: Option<Seq<char>>,
) -> Result<Seq<LinkView>, MaterializeErrorView>
    decreases records.len(),
{
    if records.len() == 0 {
        Ok(Seq::empty())
    } else {
        match all_links(collection, records.drop_last(), group_by) {
            Err(e) => Err(e),
            Ok(before) => match record_links(collection, records.last(), group_by) {
                Err(e) => Err(e),
                Ok(more) => Ok(before + more),
            },
        }
    }
}

fn plan_groups(
    collection: &str,
    path: &str,
    groups: &Vec<String>,
) -> (r: Result<Vec<Link>, MaterializeError>)
    ensures
        match r {
            Ok(links) => group_links(collection@, path@, text_views(groups@)) == Ok::<
                Seq<LinkView>,
                MaterializeErrorView,
            >(link_views(links@)),
            Err(e) => group_links(collection@, path@, text_views(groups@)) == Err::<
                Seq<LinkView>,
                MaterializeErrorView,
            >(e@),
        },
{
    let ghost all = text_views(groups@);
    let mut out: Vec<Link> = Vec::new();
    assert(link_views(out@) =~= Seq::<LinkView>::empty());
    for i in 0..groups.len()
        invariant
            all == text_views(groups@),
            group_links(collection@, path@, all.take(i as int)) == Ok::<
                Seq<LinkView>,
                MaterializeErrorView,
            >(link_views(out@)),
    {
        let ghost before = out@;
        assert(all.take(i + 1).drop_last() =~= all.take(i as int));
        assert(all.take(i + 1).last() == groups@[i as int]@);
        match encode_segment(groups[i].as_str()) {
            Err(e) => {
                proof {
                    lemma_group_prefix(collection@, path@, all, i + 1);
                }
                return Err(e);
            },
            Ok(dir) => {
                let link = Link {
                    path: glue3(dir.as_str(), "/", path),
                    target: symlink_target(true, collection, path),
                };
                out.push(link);
                assert(link_views(out@) =~= link_views(before).push(link@));
            },
        }
    }
    assert(all.take(all.len() as int) =~= all);
    Ok(out)
}

proof fn lemma_group_prefix(
    collection: Seq<char>,
    path: Seq<char>,
    groups: Seq<Seq<char>>,
    k: int,
)
    requires
        0 <= k <= groups.len(),
        group_links(collection, path, groups.take(k)) is Err,
    ensures
        group_links(collection, path, groups) == group_links(collection, path, groups.take(k)),
    decreases groups.len() - k,
{
    if k == groups.len() {
        assert(groups.take(k) =~= groups);
    } else {
        assert(groups.take(k + 1).drop_last() =~= groups.take(k));
        lemma_group_prefix(collection, path, groups, k + 1);
    }
}

proof fn lemma_links_prefix(
    collection: Seq<char>,
    records: Seq<RecordView>,
    group_by: Option<Seq<char>>,
    k: int,
)
    requires
        0 <= k <= records.len(),
        all_links(collection, records.take(k), group_by) is Err,
    ensures
        all_links(collection, records, group_by) == all_links(collection, records.take(k), group_by),
    decreases records.len() - k,
{
    if k == records.len() {
        assert(records.take(k) =~= records);
    } else {
        assert(records.take(k + 1).drop_last() =~= records.take(k));
        lemma_links_prefix(collection, records, group_by, k + 1);
    }
}

fn plan_record(
    collection: &str,
    record: &Record,
    group_by: Option<&str>,
) -> (r: Result<Vec<Link>, MaterializeError>)
    ensures
        match r {
            Ok(links) => record_links(collection@, record@, crate::frontmatter::opt_text(group_by))
                == Ok::<Seq<LinkView>, MaterializeErrorView>(link_views(links@)),
            Err(e) => record_links(collection@, record@, crate::frontmatter::opt_text(group_by))
                == Err::<Seq<LinkView>, MaterializeErrorView>(e@),
        },
{
    match group_by {
        None => {
            let link = Link {
                path: record.path().to_string(),
                target: symlink_target(false, collection, record.path()),
            };
            let mut out: Vec<Link> = Vec::new();
            out.push(link);
            assert(link_views(out@) =~= seq![link@]);
            Ok(out)
        },
        Some(field) => {
            let groups = extract_group_values(record, field);
            plan_groups(collection, record.path(), &groups)
        },
    }
}

/// How to materialize a view.
pub struct ViewPlan {
    /// The directory below `views` in which the links are created.
    pub generation: String,
    pub links: Vec<Link>,
    /// The link below `views` that is created to the generation.
    pub swap: String,
    /// The name below `views` to which that link is renamed.
    pub published: String,
}

/// The content of a [`ViewPlan`].
pub struct PlanView {
    pub generation: Seq<char>,
    pub links: Seq<LinkView>,
    pub swap: Seq<char>,
    pub published: Seq<char>,
}

impl View for ViewPlan {
    type V = PlanView;

    open spec fn view(&self) -> PlanView {
        PlanView {
            generation: self.generation@,
            links: link_views(self.links@),
            swap: self.swap@,
            published: self.published@,
        }
    }
}

/// What materializing a view takes: its name is checked first, then come the links
/// of its records, then the error at which reading them stopped.
pub open spec fn planned(
    view: Seq<char>,
    generation: Seq<char>,
    collection: Seq<char>,
    records: Seq<RecordView>,
    error: Option<RecordErrorView>,
    group_by: Option<Seq<char>>,
) -> Result<PlanView, MaterializeErrorView> {
    match view_name_problem(view) {
        Some(m) => Err(MaterializeErrorView::InvalidViewName(m)),
        None => match all_links(collection, records, group_by) {
            Err(e) => Err(e),
            Ok(links) => match error {
                Some(e) => Err(MaterializeErrorView::Record(e)),
                None => Ok(
                    PlanView {
                        generation: ".generations/"@ + generation,
                        links,
                        swap: "."@ + view + ".swap-"@ + generation,
                        published: view,
                    },
                ),
            },
        },
    }
}

/// Plans a view of the given records.
pub fn materialize(
    view: &str,
    generation: &str,
    collection: &str,
    records: &[Record],
    error: Option<RecordError>,
    group_by: Option<&str>,
) -> (r: Result<ViewPlan, MaterializeError>)
    ensures
        ({
            let p = planned(
                view@,
                generation@,
                collection@,
                record_views(records@),
                crate::query::error_view(error),
                crate::frontmatter::opt_text(group_by),
            );
            match r {
                Ok(plan) => p == Ok::<PlanView, MaterializeErrorView>(plan@),
                Err(e) => p == Err::<PlanView, MaterializeErrorView>(e@),
            }
        }),
{
    if let Err(e) = validate_view_name(view) {
        return Err(e);
    }
    let ghost all = record_views(records@);
    let ghost by = crate::frontmatter::opt_text(group_by);
    let mut links: Vec<Link> = Vec::new();
    assert(link_views(links@) =~= Seq::<LinkView>::empty());
    for i in 0..records.len()
        invariant
            all == record_views(records@),
            by == crate::frontmatter::opt_text(group_by),
            view_name_problem(view@) is None,
            all_links(collection@, all.take(i as int), by) == Ok::<
                Seq<LinkView>,
                MaterializeErrorView,
            >(link_views(links@)),
    {
        let ghost before = links@;
        assert(all.take(i + 1).drop_last() =~= all.take(i as int));
        assert(all.take(i + 1).last() == records@[i as int]@);
        match plan_record(collection, &records[i], group_by) {
            Err(e) => {
                proof {
                    lemma_links_prefix(collection@, all, by, i + 1);
                }
                return Err(e);
            },
            Ok(more) => {
                let mut more = more;
                let ghost added = more@;
                links.append(&mut more);
                assert(link_views(links@) =~= link_views(before) + link_views(added));
            },
        }
    }
    assert(all.take(all.len() as int) =~= all);
    if let Some(e) = error {
        return Err(MaterializeError::Record(e));
    }
    Ok(
        ViewPlan {
            generation: glue2(".generations/", generation),
            links,
            swap: glue4(".", view, ".swap-", generation),
            published: view.to_string(),
        },
    )
}

// ---------------------------------------------------------------------------
// Old generations
// ---------------------------------------------------------------------------

/// Whether one of the links leads to a generation of that name.
pub open spec fn referenced(name: Seq<char>, targets: Seq<Seq<char>>) -> bool {
    exists|i: int| 0 <= i < targets.len() && file_name(#[trigger] targets[i]) == Some(name)
}

/// Whether a directory is a generation that no link leads to.
pub open spec fn is_garbage(name: Seq<char>, targets: Seq<Seq<char>>) -> bool {
    starts_with(name, "gen-"@) && !referenced(name, targets)
}

/// The names that are garbage, in order.
pub open spec fn garbage(names: Seq<Seq<char>>, targets: Seq<Seq<char>>) -> Seq<Seq<char>>
    decreases names.len(),
{
    if names.len() == 0 {
        Seq::empty()
    } else {
        let before = garbage(names.drop_last(), targets);
        if is_garbage(names.last(), targets) {
            before.push(names.last())
        } else {
            before
        }
    }
}

fn is_referenced(name: &str, targets: &[String]) -> (r: bool)
    ensures
        r == referenced(name@, text_views(targets@)),
{
    let ghost all = text_views(targets@);
    for i in 0..targets.len()
        invariant
            all == text_views(targets@),
            forall|j: int| 0 <= j < i ==> file_name(#[trigger] all[j]) != Some(name@),
    {
        assert(all[i as int] == targets@[i as int]@);
        if let Some(own) = name_of(targets[i].as_str()) {
            if same_text(own.as_str(), name) {
                return true;
            }
        }
    }
    false
}

/// The generations to remove, given the names of all of them and what the
/// published links point at.
pub fn gc_generations(names: &[String], targets: &[String]) -> (r: Vec<String>)
    ensures
        text_views(r@) == garbage(text_views(names@), text_views(targets@)),
{
    let ghost all = text_views(names@);
    let mut out: Vec<String> = Vec::new();
    assert(text_views(out@) =~= Seq::<Seq<char>>::empty());
    for i in 0..names.len()
        invariant
            all == text_views(names@),
            text_views(out@) == garbage(all.take(i as int), text_views(targets@)),
    {
        let ghost before = out@;
        assert(all.take(i + 1).drop_last() =~= all.take(i as int));
        assert(all.take(i + 1).last() == names@[i as int]@);
        let chars = chars_of(names[i].as_str());
        if begins_text(&chars, "gen-") && !is_referenced(names[i].as_str(), targets) {
            out.push(names[i].clone());
            assert(text_views(out@) =~= text_views(before).push(names@[i as int]@));
        }
    }
    assert(all.take(all.len() as int) =~= all);
    out
}

// ---------------------------------------------------------------------------
// Laws
// ---------------------------------------------------------------------------

/// The number that a hexadecimal digit in upper case stands for.
pub open spec fn hex_value(c: char) -> int {
    if '0' <= c <= '9' {
        c as int - 48
    } else {
        c as int - 55
    }
}

/// The bytes that a directory name stands for.
pub open spec fn decode_bytes(s: Seq<char>) -> Seq<u8>
    decreases s.len(),
{
    if s.len() == 0 {
        Seq::empty()
    } else if s[0] == '%' && s.len() >= 3 {
        seq![(hex_value(s[1]) * 16 + hex_value(s[2])) as u8] + decode_bytes(s.skip(3))
    } else {
        seq![s[0] as u8] + decode_bytes(s.skip(1))
    }
}

proof fn lemma_decode_byte(b: u8, rest: Seq<char>)
    ensures
        decode_bytes(encode_byte(b) + rest) == seq![b] + decode_bytes(rest),
{
    let s = encode_byte(b) + rest;
    if is_safe_byte(b) {
        assert(s[0] == b as char);
        assert(s[0] != '%');
        assert(s.skip(1) =~= rest);
    } else {
        assert(s[0] == '%');
        assert(s[1] == hex_char(b as int / 16, true));
        assert(s[2] == hex_char(b as int % 16, true));
        assert(hex_value(s[1]) == b as int / 16);
        assert(hex_value(s[2]) == b as int % 16);
        assert(s.skip(3) =~= rest);
    }
}

proof fn lemma_decode_append(bytes: Seq<u8>, rest: Seq<char>)
    ensures
        decode_bytes(encode_bytes(bytes) + rest) == bytes + decode_bytes(rest),
    decreases bytes.len(),
{
    if bytes.len() == 0 {
        assert(encode_bytes(bytes) + rest =~= rest);
        assert(bytes + decode_bytes(rest) =~= decode_bytes(rest));
    } else {
        let front = bytes.drop_last();
        let b = bytes.last();
        lemma_decode_append(front, encode_byte(b) + rest);
        lemma_decode_byte(b, rest);
        assert(encode_bytes(bytes) + rest =~= encode_bytes(front) + (encode_byte(b) + rest));
        assert(bytes + decode_bytes(rest) =~= front + (seq![b] + decode_bytes(rest)));
    }
}

/// The encoding of group values can be reversed.
pub proof fn law_encoding_reversible(value: Seq<char>)
    ensures
        decode_bytes(encoded(value)) == encode_utf8(value),
{
    let bytes = encode_utf8(value);
    lemma_decode_append(bytes, Seq::empty());
    assert(encode_bytes(bytes) + Seq::<char>::empty() =~= encode_bytes(bytes));
    assert(bytes + decode_bytes(Seq::empty()) =~= bytes);
}

/// Different group values never share a directory.
pub proof fn law_groups_never_collide(a: Seq<char>, b: Seq<char>)
    requires
        segment(a) is Ok,
        segment(a) == segment(b),
    ensures
        a == b,
{
    law_encoding_reversible(a);
    law_encoding_reversible(b);
    encode_utf8_decode_utf8(a);
    encode_utf8_decode_utf8(b);
}

/// The characters of directory names.
pub open spec fn is_segment_char(c: char) -> bool {
    ||| '0' <= c <= '9'
    ||| 'A' <= c <= 'Z'
    ||| 'a' <= c <= 'z'
    ||| c == '.' || c == '_' || c == '-' || c == '~' || c == '%'
}

proof fn lemma_encoded_chars(bytes: Seq<u8>)
    ensures
        forall|i: int|
            0 <= i < encode_bytes(bytes).len() ==> is_segment_char(#[trigger] encode_bytes(bytes)[i]),
        bytes.len() <= encode_bytes(bytes).len(),
    decreases bytes.len(),
{
    if bytes.len() > 0 {
        let front = bytes.drop_last();
        let b = bytes.last();
        lemma_encoded_chars(front);
        let s = encode_bytes(bytes);
        let n = encode_bytes(front).len();
        assert forall|i: int| 0 <= i < s.len() implies is_segment_char(#[trigger] s[i]) by {
            if i < n {
                assert(s[i] == encode_bytes(front)[i]);
            } else {
                assert(s[i] == encode_byte(b)[i - n]);
            }
        }
    }
}

/// The directory name of a group stays inside the view: it is not empty, has no
/// separator, is neither `.` nor `..`, and is not too long.
pub proof fn law_segment_is_safe(value: Seq<char>)
    requires
        segment(value) is Ok,
    ensures
        ({
            let s = segment(value)->Ok_0;
            &&& 0 < s.len() <= MAX_SEGMENT
            &&& s != "."@
            &&& s != ".."@
            &&& !s.contains('/')
            &&& forall|i: int| 0 <= i < s.len() ==> is_segment_char(#[trigger] s[i])
        }),
{
    let bytes = encode_utf8(value);
    let s = segment(value)->Ok_0;
    lemma_encoded_chars(bytes);
    if bytes.len() == 0 {
        encode_utf8_decode_utf8(value);
        encode_utf8_decode_utf8(Seq::empty());
        assert(encode_utf8(Seq::<char>::empty()) =~= bytes);
        assert(value =~= Seq::<char>::empty());
    }
    if s.contains('/') {
        let i = choose|i: int| 0 <= i < s.len() && s[i] == '/';
        assert(is_segment_char(s[i]));
    }
}

proof fn lemma_separators_add(a: Seq<char>, b: Seq<char>)
    ensures
        separators(a + b) == separators(a) + separators(b),
    decreases b.len(),
{
    if b.len() == 0 {
        assert(a + b =~= a);
    } else {
        lemma_separators_add(a, b.drop_last());
        assert((a + b).drop_last() =~= a + b.drop_last());
        assert((a + b).last() == b.last());
    }
}

proof fn lemma_no_separators(s: Seq<char>)
    requires
        !s.contains('/'),
    ensures
        separators(s) == 0,
    decreases s.len(),
{
    if s.len() > 0 {
        let t = s.drop_last();
        assert(s.contains(s[s.len() - 1]));
        assert(!t.contains('/')) by {
            if t.contains('/') {
                let i = choose|i: int| 0 <= i < t.len() && t[i] == '/';
                assert(s[i] == '/');
            }
        }
        lemma_no_separators(t);
    }
}

/// Where a link stands, from the database's directory.
pub open spec fn link_place(generation: Seq<char>, link: Seq<char>) -> Seq<char> {
    "views/.generations/"@ + generation + "/"@ + link
}

proof fn lemma_place_depth(generation: Seq<char>, link: Seq<char>)
    requires
        !generation.contains('/'),
    ensures
        separators(link_place(generation, link)) == 3 + separators(link),
{
    reveal_strlit("views/.generations/");
    reveal_strlit("/");
    let base = "views/.generations/"@;
    reveal_with_fuel(separators, 20);
    assert(separators("/"@) == 1) by {
        assert("/"@.drop_last() =~= Seq::<char>::empty());
    }
    assert(separators(base) == 2) by {
        let a = seq!['v', 'i', 'e', 'w', 's'];
        let b = seq!['.', 'g', 'e', 'n', 'e', 'r', 'a', 't', 'i', 'o', 'n', 's'];
        lemma_no_separators(a);
        lemma_no_separators(b);
        lemma_separators_add(a, "/"@);
        lemma_separators_add(a + "/"@, b);
        lemma_separators_add(a + "/"@ + b, "/"@);
        assert(base =~= a + "/"@ + b + "/"@);
    }
    lemma_no_separators(generation);
    lemma_separators_add(base, generation);
    lemma_separators_add(base + generation, "/"@);
    lemma_separators_add(base + generation + "/"@, link);
}

/// Every link of a record leads to the record: it goes up exactly as many
/// directories as the link's place is below the database's directory, and from
/// there down to the record's file in its collection.
pub proof fn law_links_lead_to_record(
    generation: Seq<char>,
    collection: Seq<char>,
    record: RecordView,
    group_by: Option<Seq<char>>,
)
    requires
        !generation.contains('/'),
    ensures
        record_links(collection, record, group_by) matches Ok(links) ==> forall|i: int|
            0 <= i < links.len() ==> (#[trigger] links[i]).target == ups(
                separators(link_place(generation, links[i].path)),
            ) + collection + "/"@ + record.path,
{
    match group_by {
        None => {
            lemma_place_depth(generation, record.path);
        },
        Some(field) => {
            lemma_group_links_lead(generation, collection, record.path, groups_of(record, field));
        },
    }
}

proof fn lemma_group_links_lead(
    generation: Seq<char>,
    collection: Seq<char>,
    path: Seq<char>,
    groups: Seq<Seq<char>>,
)
    requires
        !generation.contains('/'),
    ensures
        group_links(collection, path, groups) matches Ok(links) ==> forall|i: int|
            0 <= i < links.len() ==> (#[trigger] links[i]).target == ups(
                separators(link_place(generation, links[i].path)),
            ) + collection + "/"@ + path,
    decreases groups.len(),
{
    if groups.len() > 0 {
        lemma_group_links_lead(generation, collection, path, groups.drop_last());
        if let Ok(dir) = segment(groups.last()) {
            law_segment_is_safe(groups.last());
            lemma_no_separators(dir);
            reveal_strlit("/");
            lemma_separators_add(dir, "/"@);
            lemma_separators_add(dir + "/"@, path);
            assert(separators("/"@) == 1) by {
                assert("/"@.drop_last() =~= Seq::<char>::empty());
                reveal_with_fuel(separators, 2);
            }
            lemma_place_depth(generation, dir + "/"@ + path);
        }
    }
}

/// A record without the field gets exactly one link, below `_ungrouped`.
pub proof fn law_missing_field_is_ungrouped(
    collection: Seq<char>,
    record: RecordView,
    field: Seq<char>,
)
    requires
        record.field(field) is None,
    ensures
        record_links(collection, record, Some(field)) == Ok::<Seq<LinkView>, MaterializeErrorView>(
            seq![
                LinkView {
                    path: "_ungrouped/"@ + record.path,
                    target: link_target(true, collection, record.path),
                },
            ],
        ),
{
    reveal_strlit("_ungrouped");
    reveal_strlit("_ungrouped/");
    reveal_strlit("/");
    reveal_strlit(".");
    reveal_strlit("..");
    let name = "_ungrouped"@;
    assert(vstd::utf8::is_ascii_chars(name));
    vstd::utf8::is_ascii_chars_encode_utf8(name);
    let bytes = encode_utf8(name);
    lemma_plain_encoding(name, bytes);
    let groups = seq![name];
    assert(groups.drop_last() =~= Seq::<Seq<char>>::empty());
    assert(name + "/"@ + record.path =~= "_ungrouped/"@ + record.path);
    reveal_with_fuel(group_links, 2);
    let links = group_links(collection, record.path, groups)->Ok_0;
    assert(links =~= seq![
        LinkView {
            path: "_ungrouped/"@ + record.path,
            target: link_target(true, collection, record.path),
        },
    ]);
}

pub(crate) proof fn lemma_plain_encoding(s: Seq<char>, bytes: Seq<u8>)
    requires
        s.len() == bytes.len(),
        forall|i: int| 0 <= i < s.len() ==> bytes[i] as char == #[trigger] s[i],
        forall|i: int| 0 <= i < s.len() ==> is_safe_byte(#[trigger] bytes[i]),
    ensures
        encode_bytes(bytes) == s,
    decreases s.len(),
{
    if s.len() > 0 {
        assert forall|i: int| 0 <= i < s.len() - 1 implies bytes.drop_last()[i] as char
            == #[trigger] s.drop_last()[i] by {
            assert(bytes[i] as char == s[i]);
        }
        lemma_plain_encoding(s.drop_last(), bytes.drop_last());
        assert(bytes[s.len() - 1] as char == s[s.len() - 1]);
        assert(encode_bytes(bytes) =~= s);
    } else {
        assert(encode_bytes(bytes) =~= s);
    }
}

/// No generation that a published link leads to is ever removed.
pub proof fn law_referenced_generations_stay(
    names: Seq<Seq<char>>,
    targets: Seq<Seq<char>>,
    name: Seq<char>,
)
    requires
        garbage(names, targets).contains(name),
    ensures
        !referenced(name, targets),
        names.contains(name),
        starts_with(name, "gen-"@),
    decreases names.len(),
{
    if names.len() > 0 {
        let front = names.drop_last();
        let before = garbage(front, targets);
        if before.contains(name) {
            law_referenced_generations_stay(front, targets, name);
            let i = choose|i: int| 0 <= i < front.len() && front[i] == name;
            assert(names[i] == name);
        } else {
            let all = garbage(names, targets);
            let i = choose|i: int| 0 <= i < all.len() && all[i] == name;
            if i < before.len() {
                assert(before[i] == name);
            }
            assert(names[names.len() - 1] == name);
        }
    }
}

/// The link that a plan publishes leads to the plan's generation, so that
/// collecting garbage afterwards keeps it.
pub proof fn law_published_generation_is_referenced(
    generation: Seq<char>,
    targets: Seq<Seq<char>>,
)
    requires
        !generation.contains('/'),
        starts_with(generation, "gen-"@),
        targets.contains(".generations/"@ + generation),
    ensures
        referenced(generation, targets),
        !is_garbage(generation, targets),
{
    reveal_strlit(".generations/");
    reveal_strlit(".generations");
    reveal_strlit("gen-");
    reveal_strlit("/");
    reveal_strlit(".");
    reveal_strlit("..");
    let target = ".generations/"@ + generation;
    let i = choose|i: int| 0 <= i < targets.len() && targets[i] == target;
    assert(targets[i] == target);
    assert(target =~= crate::path::joined(".generations"@, generation)) by {
        assert(".generations"@ + "/"@ =~= ".generations/"@);
    }
    crate::path::lemma_joined_components(".generations"@, generation);
    assert(components(target).last() == generation);
    assert(generation.take(4)[0] == 'g');
    assert(generation[0] == 'g');
    assert(generation != "."@ && generation != ".."@) by {
        assert("."@[0] == '.');
        assert(".."@[0] == '.');
    }
    assert(file_name(target) == Some(generation));
}

/// The name of a valid view is a single component, so that no view lies inside
/// another one or outside the directory of views.
pub proof fn law_view_names_do_not_nest(name: Seq<char>)
    requires
        view_name_problem(name) is None,
    ensures
        components(name) == seq![name],
        name != "."@,
        name != ".."@,
{
    crate::path::lemma_single_component(name);
    reveal_strlit(".");
    reveal_strlit("..");
}

proof fn lemma_decimal_digits(n: nat)
    ensures
        digits_value(decimal(n)) == n,
        decimal(n).len() > 0,
        !decimal(n).contains('-'),
    decreases n,
{
    let s = decimal(n);
    if n < 10 {
        assert(s.drop_last() =~= Seq::<char>::empty());
        assert(s.last() as int - 48 == n);
        reveal_with_fuel(digits_value, 2);
        assert(!s.contains('-'));
    } else {
        let front = decimal(n / 10);
        lemma_decimal_digits(n / 10);
        assert(s.drop_last() =~= front);
        assert(s.last() as int - 48 == n % 10);
        if s.contains('-') {
            let i = choose|i: int| 0 <= i < s.len() && s[i] == '-';
            if i < front.len() {
                assert(front[i] == '-');
            }
        }
    }
}

proof fn lemma_hex_digits(n: nat)
    ensures
        hex_number(hex(n)) == n,
        !hex(n).contains('-'),
    decreases n,
{
    let s = hex(n);
    if n < 16 {
        assert(s.drop_last() =~= Seq::<char>::empty());
        reveal_with_fuel(hex_number, 2);
        assert(!s.contains('-'));
    } else {
        let front = hex(n / 16);
        lemma_hex_digits(n / 16);
        assert(s.drop_last() =~= front);
        if s.contains('-') {
            let i = choose|i: int| 0 <= i < s.len() && s[i] == '-';
            if i < front.len() {
                assert(front[i] == '-');
            }
        }
    }
}

proof fn lemma_generation_parts(nanos: nat, counter: nat)
    ensures
        split_on(generation_name(nanos, counter), '-') == seq![
            seq!['g', 'e', 'n'],
            hex(nanos),
            decimal(counter),
        ],
{
    reveal_strlit("gen-");
    reveal_strlit("-");
    lemma_hex_digits(nanos);
    lemma_decimal_digits(counter);
    let g = seq!['g', 'e', 'n'];
    let parts = seq![g, hex(nanos), decimal(counter)];
    assert forall|i: int| 0 <= i < parts.len() implies !(#[trigger] parts[i]).contains('-') by {
        if i == 0 {
            assert(parts[0] == g);
        }
    }
    lemma_join_split(parts, '-');
    assert(parts.drop_last() =~= seq![g, hex(nanos)]);
    assert(parts.drop_last().drop_last() =~= seq![g]);
    reveal_with_fuel(join, 4);
    assert(join(parts, '-') =~= generation_name(nanos, counter));
}

/// Generations made at different times or with different counters have different
/// names.
pub proof fn law_generation_names_distinct(n1: nat, c1: nat, n2: nat, c2: nat)
    requires
        generation_name(n1, c1) == generation_name(n2, c2),
    ensures
        n1 == n2,
        c1 == c2,
{
    lemma_generation_parts(n1, c1);
    lemma_generation_parts(n2, c2);
    let a = split_on(generation_name(n1, c1), '-');
    let b = split_on(generation_name(n2, c2), '-');
    assert(a[1] == hex(n1) && b[1] == hex(n2));
    assert(a[2] == decimal(c1) && b[2] == decimal(c2));
    lemma_hex_digits(n1);
    lemma_hex_digits(n2);
    lemma_decimal_digits(c1);
    lemma_decimal_digits(c2);
}

} // verus!
