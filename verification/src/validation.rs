//! Schema validation: checks records against their collection's field
//! definitions. Validation only reports; it never changes a record.

use vstd::prelude::*;

use crate::double::{compare_doubles, double_order, INFINITY, SIGN};
use crate::path::{components, is_safe_relative, is_within, safe_relative, within};
use crate::record::{Record, RecordView};
use crate::schema::{field_views, FieldDef, FieldType, FieldView, TypeView};
use crate::text::{
    begins_text, chars_of, decimal, decimal_text, digit, glue2, glue3, glue4, glue5, is_digit,
    lists_text, starts_with, text_views, Order,
};
use crate::value::{contents, Number, NumberView, Value, ValueView};
use crate::yaml::{printed, printed_double};

verus! {

/// How serious a problem is.
#[derive(Debug, Clone, Copy, PartialEq, Eq, Structural)]
pub enum Severity {
    /// The record does not conform to the schema.
    Error,
    /// Worth knowing, but a normal state, such as a reference to a record that is
    /// not there.
    Warning,
}

/// A single problem found in one record.
#[derive(Debug, Clone)]
pub struct ValidationError {
    pub record_path: String,
    pub field: String,
    pub message: String,
    pub severity: Severity,
}

/// The content of a [`ValidationError`].
pub struct ProblemView {
    pub record_path: Seq<char>,
    pub field: Seq<char>,
    pub message: Seq<char>,
    pub severity: Severity,
}

impl View for ValidationError {
    type V = ProblemView;

    open spec fn view(&self) -> ProblemView {
        ProblemView {
            record_path: self.record_path@,
            field: self.field@,
            message: self.message@,
            severity: self.severity,
        }
    }
}

/// The contents of a list of problems.
pub open spec fn problem_views(list: Seq<ValidationError>) -> Seq<ProblemView> {
    list.map_values(|e: ValidationError| e@)
}

// ---------------------------------------------------------------------------
// Dates
// ---------------------------------------------------------------------------

/// The number that the digits at `i` and `i + 1` spell.
pub open spec fn two_digits(s: Seq<char>, i: int) -> int {
    (s[i] as u32 - 48) * 10 + (s[i + 1] as u32 - 48)
}

pub open spec fn digits_at(s: Seq<char>, from: int, to: int) -> bool {
    forall|i: int| from <= i < to ==> is_digit(#[trigger] s[i])
}

/// The number that the four digits at the start spell.
pub open spec fn year_of(s: Seq<char>) -> int {
    two_digits(s, 0) * 100 + two_digits(s, 2)
}

pub open spec fn is_leap_year(year: int) -> bool {
    year % 4 == 0 && (year % 100 != 0 || year % 400 == 0)
}

/// The number of days of a month.
pub open spec fn days_in_month(year: int, month: int) -> int {
    if month == 2 {
        if is_leap_year(year) {
            29
        } else {
            28
        }
    } else if month == 4 || month == 6 || month == 9 || month == 11 {
        30
    } else {
        31
    }
}

/// Starts with `YYYY-MM-DD`, a day of the calendar.
pub open spec fn starts_with_date(s: Seq<char>) -> bool {
    &&& s.len() >= 10
    &&& s[4] == '-' && s[7] == '-'
    &&& digits_at(s, 0, 4) && digits_at(s, 5, 7) && digits_at(s, 8, 10)
    &&& 1 <= two_digits(s, 5) <= 12
    &&& 1 <= two_digits(s, 8) <= days_in_month(year_of(s), two_digits(s, 5))
}

/// `YYYY-MM-DD`, a day of the calendar.
pub open spec fn iso_date(s: Seq<char>) -> bool {
    s.len() == 10 && starts_with_date(s)
}

/// The position behind the digits at `from`.
pub open spec fn digits_end(s: Seq<char>, from: int) -> int
    decreases s.len() - from,
{
    if 0 <= from < s.len() && is_digit(s[from]) {
        digits_end(s, from + 1)
    } else {
        from
    }
}

/// The position behind the fraction of a second at `from`: a point and at least one
/// digit; `from` itself where there is none.
pub open spec fn fraction_end(s: Seq<char>, from: int) -> int {
    if from + 1 < s.len() && s[from] == '.' && is_digit(s[from + 1]) {
        digits_end(s, from + 1)
    } else {
        from
    }
}

/// From `at` to its end, the text is an offset: `Z`, or a sign and `hh:mm`.
pub open spec fn is_offset(s: Seq<char>, at: int) -> bool {
    ||| s.len() == at + 1 && (s[at] == 'Z' || s[at] == 'z')
    ||| {
        &&& s.len() == at + 6
        &&& s[at] == '+' || s[at] == '-'
        &&& digits_at(s, at + 1, at + 3) && s[at + 3] == ':' && digits_at(s, at + 4, at + 6)
        &&& two_digits(s, at + 1) <= 23 && two_digits(s, at + 4) <= 59
    }
}

/// A date, `T` or a space, `hh:mm:ss` with an optional fraction, and an offset, as
/// RFC 3339 has it: hours up to 23, minutes up to 59, seconds up to 60 for a leap
/// second; `T` and `Z` may be in lower case.
pub open spec fn iso_datetime(s: Seq<char>) -> bool {
    &&& starts_with_date(s)
    &&& s.len() > 19
    &&& s[10] == 'T' || s[10] == 't' || s[10] == ' '
    &&& s[13] == ':' && s[16] == ':'
    &&& digits_at(s, 11, 13) && digits_at(s, 14, 16) && digits_at(s, 17, 19)
    &&& two_digits(s, 11) <= 23
    &&& two_digits(s, 14) <= 59
    &&& two_digits(s, 17) <= 60
    &&& is_offset(s, fraction_end(s, 19))
}

fn are_digits(s: &[char], from: usize, to: usize) -> (r: bool)
    requires
        from <= to <= s@.len(),
    ensures
        r == digits_at(s@, from as int, to as int),
{
    for i in from..to
        invariant
            from <= to <= s@.len(),
            digits_at(s@, from as int, i as int),
    {
        if !digit(s[i]) {
            assert(!is_digit(s@[i as int]));
            return false;
        }
    }
    true
}

fn two_at(s: &[char], i: usize) -> (r: u32)
    requires
        i + 1 < s@.len(),
        digits_at(s@, i as int, i + 2),
    ensures
        r == two_digits(s@, i as int),
        r <= 99,
{
    assert(is_digit(s@[i as int]) && is_digit(s@[i + 1]));
    (s[i] as u32 - 48) * 10 + (s[i + 1] as u32 - 48)
}

fn month_days(year: u32, month: u32) -> (r: u32)
    ensures
        r == days_in_month(year as int, month as int),
{
    if month == 2 {
        if year % 4 == 0 && (year % 100 != 0 || year % 400 == 0) {
            29
        } else {
            28
        }
    } else if month == 4 || month == 6 || month == 9 || month == 11 {
        30
    } else {
        31
    }
}

fn begins_with_date(s: &[char]) -> (r: bool)
    ensures
        r == starts_with_date(s@),
{
    if s.len() < 10 || s[4] != '-' || s[7] != '-' {
        return false;
    }
    if !are_digits(s, 0, 4) || !are_digits(s, 5, 7) || !are_digits(s, 8, 10) {
        return false;
    }
    let year: u32 = two_at(s, 0) * 100 + two_at(s, 2);
    let month: u32 = two_at(s, 5);
    let day: u32 = two_at(s, 8);
    1 <= month && month <= 12 && 1 <= day && day <= month_days(year, month)
}

/// Whether `text` is a date.
pub fn is_iso_date(text: &str) -> (r: bool)
    ensures
        r == iso_date(text@),
{
    let s = chars_of(text);
    s.len() == 10 && begins_with_date(&s)
}

fn behind_fraction(s: &[char], from: usize) -> (r: usize)
    requires
        from < s@.len(),
    ensures
        r == fraction_end(s@, from as int),
        from <= r <= s@.len(),
{
    let total: usize = s.len();
    if s[from] != '.' || total - from < 2 || !digit(s[from + 1]) {
        return from;
    }
    let mut i: usize = from + 1;
    while i < total && digit(s[i])
        invariant
            total == s@.len(),
            from < i <= total,
            digits_end(s@, i as int) == digits_end(s@, from + 1),
        decreases total - i,
    {
        i = i + 1;
    }
    i
}

fn is_offset_at(s: &[char], at: usize) -> (r: bool)
    requires
        at <= s@.len(),
    ensures
        r == is_offset(s@, at as int),
{
    let rest: usize = s.len() - at;
    if rest == 1 {
        return s[at] == 'Z' || s[at] == 'z';
    }
    if rest != 6 || !(s[at] == '+' || s[at] == '-') || s[at + 3] != ':' {
        return false;
    }
    are_digits(s, at + 1, at + 3) && are_digits(s, at + 4, at + 6) && two_at(s, at + 1) <= 23
        && two_at(s, at + 4) <= 59
}

/// Whether `text` is a date with a time and an offset.
pub fn is_iso_datetime(text: &str) -> (r: bool)
    ensures
        r == iso_datetime(text@),
{
    let chars = chars_of(text);
    let s = chars.as_slice();
    if !begins_with_date(s) || s.len() <= 19 || !(s[10] == 'T' || s[10] == 't' || s[10] == ' ')
        || s[13] != ':' || s[16] != ':' {
        return false;
    }
    if !are_digits(s, 11, 13) || !are_digits(s, 14, 16) || !are_digits(s, 17, 19) {
        return false;
    }
    if two_at(s, 11) > 23 || two_at(s, 14) > 59 || two_at(s, 17) > 60 {
        return false;
    }
    let at = behind_fraction(s, 19);
    is_offset_at(s, at)
}

// ---------------------------------------------------------------------------
// Values
// ---------------------------------------------------------------------------

/// The kind of a value, in words.
pub open spec fn type_word(v: ValueView) -> Seq<char> {
    match v {
        ValueView::Null => "null"@,
        ValueView::Bool(_) => "boolean"@,
        ValueView::Number(_) => "number"@,
        ValueView::String(_) => "string"@,
        ValueView::Sequence(_) => "array"@,
        ValueView::Mapping(_) => "object"@,
        ValueView::Tagged(..) => "other"@,
    }
}

/// The texts joined with ` | ` between them.
pub open spec fn bar_list(parts: Seq<Seq<char>>) -> Seq<char>
    decreases parts.len(),
{
    if parts.len() == 0 {
        Seq::empty()
    } else if parts.len() == 1 {
        parts[0]
    } else {
        bar_list(parts.drop_last()) + " | "@ + parts.last()
    }
}

/// What is wrong with a text as a reference into the collection `target`.
pub open spec fn ref_problem(s: Seq<char>, target: Seq<char>) -> Option<Seq<char>> {
    if !safe_relative(s) {
        Some("ref `"@ + s + "` is empty or has forbidden components"@)
    } else if !starts_with(s, target + "/"@) {
        Some("ref `"@ + s + "` does not begin with `"@ + target + "/`"@)
    } else {
        None
    }
}

/// What is wrong with a value as a value of the given type, if anything.
pub open spec fn value_problem(v: ValueView, t: TypeView) -> Option<Seq<char>>
    decreases t, 0nat, 0nat,
{
    match t {
        TypeView::String => if v.as_str() is Some {
            None
        } else {
            Some("expected string, got "@ + type_word(v))
        },
        TypeView::Integer => if v.as_i64() is Some {
            None
        } else {
            Some("expected integer, got "@ + type_word(v))
        },
        TypeView::Float => if v.as_number() is Some {
            None
        } else {
            Some("expected float, got "@ + type_word(v))
        },
        TypeView::Boolean => if v.as_bool() is Some {
            None
        } else {
            Some("expected boolean, got "@ + type_word(v))
        },
        TypeView::Date => match v.as_str() {
            None => Some("expected date string, got "@ + type_word(v)),
            Some(s) => if iso_date(s) {
                None
            } else {
                Some("invalid date `"@ + s + "` (expected YYYY-MM-DD)"@)
            },
        },
        TypeView::DateTime => match v.as_str() {
            None => Some("expected datetime string, got "@ + type_word(v)),
            Some(s) => if iso_datetime(s) {
                None
            } else {
                Some("invalid datetime `"@ + s + "` (expected RFC 3339)"@)
            },
        },
        TypeView::Array(inner) => match v.as_sequence() {
            None => Some("expected array, got "@ + type_word(v)),
            Some(items) => item_problem(items, *inner, 0),
        },
        TypeView::Enum(variants) => match v.as_str() {
            None => Some("expected enum value, got "@ + type_word(v)),
            Some(s) => if variants.contains(s) {
                None
            } else {
                Some("`"@ + s + "` not in: "@ + bar_list(variants))
            },
        },
        TypeView::Ref(target) => match v.as_str() {
            None => Some("expected ref path string, got "@ + type_word(v)),
            Some(s) => ref_problem(s, target),
        },
    }
}

/// What is wrong with the first item at or behind `from` that is not a value of
/// the given type, with its position.
pub open spec fn item_problem(items: Seq<ValueView>, t: TypeView, from: nat) -> Option<Seq<char>>
    decreases t, 1nat, items.len() - from,
{
    if from >= items.len() {
        None
    } else {
        match value_problem(items[from as int], t) {
            Some(m) => Some("["@ + decimal(from) + "]: "@ + m),
            None => item_problem(items, t, from + 1),
        }
    }
}

pub open spec fn is_finite(bits: u64) -> bool {
    bits % SIGN < INFINITY
}

/// What is wrong with a value as a value within a range; both bounds belong to
/// the range.
pub open spec fn range_problem(v: ValueView, low: NumberView, high: NumberView) -> Option<
    Seq<char>,
> {
    match v.as_number() {
        None => Some("cannot range-check non-numeric value"@),
        Some(n) => if !is_finite(n.double()) {
            Some("value "@ + printed(n) + " is not finite"@)
        } else if double_order(n.double(), low.double()) == Some(Order::Less) || double_order(
            n.double(),
            high.double(),
        ) == Some(Order::Greater) {
            Some(
                "value "@ + printed(n) + " outside range ["@ + printed(low) + ", "@ + printed(high)
                    + "]"@,
            )
        } else {
            None
        },
    }
}

/// What is wrong with what a record holds in a field.
pub open spec fn field_problem(v: Option<ValueView>, def: FieldView) -> Option<Seq<char>> {
    match v {
        None | Some(ValueView::Null) => if def.required {
            Some("required field is missing or null"@)
        } else {
            None
        },
        Some(value) => match value_problem(value, def.field_type) {
            Some(m) => Some(m),
            None => match def.range {
                Some((low, high)) => range_problem(value, low, high),
                None => None,
            },
        },
    }
}

/// The problems of a record: at most one for each field, in the order of the
/// definitions.
pub open spec fn record_problems(record: RecordView, fields: Seq<FieldView>) -> Seq<ProblemView>
    decreases fields.len(),
{
    if fields.len() == 0 {
        Seq::empty()
    } else {
        let before = record_problems(record, fields.drop_last());
        let def = fields.last();
        match field_problem(record.field(def.name), def) {
            Some(m) => before.push(
                ProblemView {
                    record_path: record.path,
                    field: def.name,
                    message: m,
                    severity: Severity::Error,
                },
            ),
            None => before,
        }
    }
}

/// The kind of a value, in words.
pub fn kind_name(v: &Value) -> (r: &'static str)
    ensures
        r@ == type_word(v@),
{
    match v {
        Value::Null => "null",
        Value::Bool(_) => "boolean",
        Value::Number(_) => "number",
        Value::String(_) => "string",
        Value::Sequence(_) => "array",
        Value::Mapping(_) => "object",
        Value::Tagged(..) => "other",
    }
}

fn bar_join(parts: &[String]) -> (r: String)
    ensures
        r@ == bar_list(text_views(parts@)),
{
    let mut out = String::new();
    let ghost all = text_views(parts@);
    for i in 0..parts.len()
        invariant
            all == text_views(parts@),
            out@ == bar_list(all.take(i as int)),
    {
        assert(all.take(i + 1).drop_last() =~= all.take(i as int));
        assert(all.take(i + 1).last() == parts@[i as int]@);
        if i > 0 {
            out.append(" | ");
        }
        out.append(parts[i].as_str());
        if i == 0 {
            assert(all.take(1).len() == 1);
            assert(out@ =~= all[0]);
        }
    }
    assert(all.take(all.len() as int) =~= all);
    out
}

fn expected(what: &str, v: &Value) -> (r: String)
    ensures
        r@ == what@ + type_word(v@),
{
    glue2(what, kind_name(v))
}

fn check_ref(s: &str, target: &str) -> (r: Result<(), String>)
    ensures
        match r {
            Ok(_) => ref_problem(s@, target@) is None,
            Err(m) => ref_problem(s@, target@) == Some(m@),
        },
{
    if !is_safe_relative(s) {
        return Err(glue3("ref `", s, "` is empty or has forbidden components"));
    }
    let chars = chars_of(s);
    let prefix = glue2(target, "/");
    if !begins_text(&chars, prefix.as_str()) {
        return Err(glue5("ref `", s, "` does not begin with `", target, "/`"));
    }
    Ok(())
}

/// Checks a value against a type.
pub fn validate_value(value: &Value, field_type: &FieldType) -> (r: Result<(), String>)
    ensures
        match r {
            Ok(_) => value_problem(value@, field_type@) is None,
            Err(m) => value_problem(value@, field_type@) == Some(m@),
        },
    decreases field_type,
{
    match field_type {
        FieldType::String => match value.as_str() {
            Some(_) => Ok(()),
            None => Err(expected("expected string, got ", value)),
        },
        FieldType::Integer => match value.as_i64() {
            Some(_) => Ok(()),
            None => Err(expected("expected integer, got ", value)),
        },
        FieldType::Float => match value.as_number() {
            Some(_) => Ok(()),
            None => Err(expected("expected float, got ", value)),
        },
        FieldType::Boolean => match value.as_bool() {
            Some(_) => Ok(()),
            None => Err(expected("expected boolean, got ", value)),
        },
        FieldType::Date => match value.as_str() {
            None => Err(expected("expected date string, got ", value)),
            Some(s) => if is_iso_date(s) {
                Ok(())
            } else {
                Err(glue3("invalid date `", s, "` (expected YYYY-MM-DD)"))
            },
        },
        FieldType::DateTime => match value.as_str() {
            None => Err(expected("expected datetime string, got ", value)),
            Some(s) => if is_iso_datetime(s) {
                Ok(())
            } else {
                Err(glue3("invalid datetime `", s, "` (expected RFC 3339)"))
            },
        },
        FieldType::Array(inner) => {
            let items = match value.as_sequence() {
                None => {
                    return Err(expected("expected array, got ", value));
                },
                Some(items) => items,
            };
            let ghost all = contents(items@);
            for i in 0..items.len()
                invariant
                    *field_type == FieldType::Array(*inner),
                    all == contents(items@),
                    value@.as_sequence() == Some(all),
                    item_problem(all, inner@, i as nat) == item_problem(all, inner@, 0),
            {
                assert(all[i as int] == items@[i as int]@);
                if let Err(m) = validate_value(&items[i], &**inner) {
                    let position = decimal_text(i as u64);
                    return Err(glue4("[", position.as_str(), "]: ", m.as_str()));
                }
            }
            Ok(())
        },
        FieldType::Enum(variants) => match value.as_str() {
            None => Err(expected("expected enum value, got ", value)),
            Some(s) => {
                let known = lists_text(variants, s);
                proof {
                    let all = text_views(variants@);
                    if known {
                        let i = choose|i: int|
                            0 <= i < variants@.len() && #[trigger] variants@[i]@ == s@;
                        assert(all[i] == s@);
                    } else {
                        assert forall|i: int| 0 <= i < all.len() implies all[i] != s@ by {
                            assert(variants@[i]@ != s@);
                        }
                    }
                }
                if known {
                    Ok(())
                } else {
                    let list = bar_join(variants);
                    Err(glue4("`", s, "` not in: ", list.as_str()))
                }
            },
        },
        FieldType::Ref(target) => match value.as_str() {
            None => Err(expected("expected ref path string, got ", value)),
            Some(s) => check_ref(s, target),
        },
    }
}

/// Checks a value against a range.
pub fn validate_range(value: &Value, low: &Number, high: &Number) -> (r: Result<(), String>)
    ensures
        match r {
            Ok(_) => range_problem(value@, low@, high@) is None,
            Err(m) => range_problem(value@, low@, high@) == Some(m@),
        },
{
    let n = match value.as_number() {
        Some(n) => n,
        None => {
            return Err("cannot range-check non-numeric value".to_string());
        },
    };
    let bits = n.double();
    let shown = printed_double(n);
    if !(bits % SIGN < INFINITY) {
        return Err(glue3("value ", shown.as_str(), " is not finite"));
    }
    let below = matches!(compare_doubles(bits, low.double()), Some(Order::Less));
    let above = matches!(compare_doubles(bits, high.double()), Some(Order::Greater));
    if below || above {
        let least = printed_double(low);
        let most = printed_double(high);
        let mut m = glue5("value ", shown.as_str(), " outside range [", least.as_str(), ", ");
        m.append(most.as_str());
        m.append("]");
        return Err(m);
    }
    Ok(())
}

fn check_field(value: Option<&Value>, def: &FieldDef) -> (r: Result<(), String>)
    ensures
        ({
            let v = match value {
                Some(v) => Some(v@),
                None => None,
            };
            match r {
                Ok(_) => field_problem(v, def@) is None,
                Err(m) => field_problem(v, def@) == Some(m@),
            }
        }),
{
    match value {
        None | Some(Value::Null) => if def.required {
            Err("required field is missing or null".to_string())
        } else {
            Ok(())
        },
        Some(v) => match validate_value(v, &def.field_type) {
            Err(m) => Err(m),
            Ok(_) => match &def.range {
                Some((low, high)) => validate_range(v, low, high),
                None => Ok(()),
            },
        },
    }
}

/// Checks a record against field definitions.
pub fn validate_record(record: &Record, fields: &[FieldDef]) -> (r: Vec<ValidationError>)
    ensures
        problem_views(r@) == record_problems(record@, field_views(fields@)),
{
    let mut out: Vec<ValidationError> = Vec::new();
    let ghost all = field_views(fields@);
    assert(problem_views(out@) =~= Seq::<ProblemView>::empty());
    for i in 0..fields.len()
        invariant
            all == field_views(fields@),
            problem_views(out@) == record_problems(record@, all.take(i as int)),
    {
        let ghost before = out@;
        assert(all.take(i + 1).drop_last() =~= all.take(i as int));
        assert(all.take(i + 1).last() == fields@[i as int]@);
        let def = &fields[i];
        if let Err(message) = check_field(record.field(&def.name), def) {
            let e = ValidationError {
                record_path: record.path().to_string(),
                field: def.name.clone(),
                message,
                severity: Severity::Error,
            };
            out.push(e);
            assert(problem_views(out@) =~= problem_views(before).push(e@));
        }
    }
    assert(all.take(all.len() as int) =~= all);
    out
}

// ---------------------------------------------------------------------------
// References
// ---------------------------------------------------------------------------

/// A well-formed reference that a record holds in a field.
pub struct RefUse {
    pub field: String,
    /// The path of the target, relative to the database root.
    pub path: String,
}

/// The content of a [`RefUse`].
pub struct RefView {
    pub field: Seq<char>,
    pub path: Seq<char>,
}

impl View for RefUse {
    type V = RefView;

    open spec fn view(&self) -> RefView {
        RefView { field: self.field@, path: self.path@ }
    }
}

pub open spec fn ref_views(list: Seq<RefUse>) -> Seq<RefView> {
    list.map_values(|u: RefUse| u@)
}

/// The well-formed references in a value of the given type.
pub open spec fn value_refs(field: Seq<char>, v: ValueView, t: TypeView) -> Seq<RefView>
    decreases t, 0nat, 0nat,
{
    match t {
        TypeView::Ref(target) => match v.as_str() {
            Some(s) => if ref_problem(s, target) is None {
                seq![RefView { field, path: s }]
            } else {
                Seq::empty()
            },
            None => Seq::empty(),
        },
        TypeView::Array(inner) => match v.as_sequence() {
            Some(items) => item_refs(field, items, *inner),
            None => Seq::empty(),
        },
        _ => Seq::empty(),
    }
}

pub open spec fn item_refs(field: Seq<char>, items: Seq<ValueView>, t: TypeView) -> Seq<RefView>
    decreases t, 1nat, items.len(),
{
    if items.len() == 0 {
        Seq::empty()
    } else {
        item_refs(field, items.drop_last(), t) + value_refs(field, items.last(), t)
    }
}

/// The well-formed references of a record, in the order of the definitions.
pub open spec fn record_refs(record: RecordView, fields: Seq<FieldView>) -> Seq<RefView>
    decreases fields.len(),
{
    if fields.len() == 0 {
        Seq::empty()
    } else {
        let before = record_refs(record, fields.drop_last());
        let def = fields.last();
        match record.field(def.name) {
            Some(v) => before + value_refs(def.name, v, def.field_type),
            None => before,
        }
    }
}

/// The content of an optional text.
pub open spec fn text_content(t: Option<String>) -> Option<Seq<char>> {
    match t {
        Some(s) => Some(s@),
        None => None,
    }
}

/// The canonical path that the `i`-th reference leads to, where it leads to
/// anything.
pub open spec fn target_at(targets: Seq<Option<String>>, i: int) -> Option<Seq<char>> {
    if 0 <= i < targets.len() {
        text_content(targets[i])
    } else {
        None
    }
}

/// What is wrong with where a reference leads: nothing there is a warning, a
/// place outside the database root is an error.
pub open spec fn target_problem(
    path: Seq<char>,
    target: Option<Seq<char>>,
    root: Seq<char>,
) -> Option<(Seq<char>, Severity)> {
    match target {
        None => Some(("ref `"@ + path + "` is dangling: target not found"@, Severity::Warning)),
        Some(t) => if within(t, root) {
            None
        } else {
            Some(("ref `"@ + path + "` resolves outside the database root"@, Severity::Error))
        },
    }
}

/// The problems of the first `n` references of a record.
pub open spec fn ref_problems(
    record_path: Seq<char>,
    refs: Seq<RefView>,
    targets: Seq<Option<String>>,
    root: Seq<char>,
    n: nat,
) -> Seq<ProblemView>
    decreases n,
{
    if n == 0 {
        Seq::empty()
    } else {
        let i = n - 1;
        let before = ref_problems(record_path, refs, targets, root, i as nat);
        match target_problem(refs[i].path, target_at(targets, i), root) {
            Some((message, severity)) => before.push(
                ProblemView { record_path, field: refs[i].field, message, severity },
            ),
            None => before,
        }
    }
}

fn collect_refs(field: &str, v: &Value, t: &FieldType, out: &mut Vec<RefUse>)
    ensures
        ref_views(final(out)@) == ref_views(old(out)@) + value_refs(field@, v@, t@),
    decreases t,
{
    let ghost start = out@;
    match t {
        FieldType::Ref(target) => {
            if let Some(s) = v.as_str() {
                if check_ref(s, target).is_ok() {
                    let u = RefUse { field: field.to_string(), path: s.to_string() };
                    out.push(u);
                    assert(ref_views(out@) =~= ref_views(start) + seq![u@]);
                    return;
                }
            }
            assert(ref_views(out@) =~= ref_views(start) + Seq::<RefView>::empty());
        },
        FieldType::Array(inner) => {
            if let Some(items) = v.as_sequence() {
                let ghost all = contents(items@);
                assert(ref_views(out@) =~= ref_views(start) + Seq::<RefView>::empty());
                for i in 0..items.len()
                    invariant
                        *t == FieldType::Array(*inner),
                        all == contents(items@),
                        v@.as_sequence() == Some(all),
                        ref_views(out@) == ref_views(start) + item_refs(
                            field@,
                            all.take(i as int),
                            inner@,
                        ),
                {
                    assert(all.take(i + 1).drop_last() =~= all.take(i as int));
                    assert(all.take(i + 1).last() == items@[i as int]@);
                    let ghost done = item_refs(field@, all.take(i as int), inner@);
                    let ghost more = value_refs(field@, items@[i as int]@, inner@);
                    assert(t->Array_0 == *inner);
                    collect_refs(field, &items[i], &**inner, out);
                    assert(ref_views(start) + done + more =~= ref_views(start) + (done + more));
                }
                assert(all.take(all.len() as int) =~= all);
                return;
            }
            assert(ref_views(out@) =~= ref_views(start) + Seq::<RefView>::empty());
        },
        _ => {
            assert(ref_views(out@) =~= ref_views(start) + Seq::<RefView>::empty());
        },
    }
}

/// The well-formed references of a record, whose targets are then looked up.
pub fn refs_of(record: &Record, fields: &[FieldDef]) -> (r: Vec<RefUse>)
    ensures
        ref_views(r@) == record_refs(record@, field_views(fields@)),
{
    let mut out: Vec<RefUse> = Vec::new();
    let ghost all = field_views(fields@);
    assert(ref_views(out@) =~= Seq::<RefView>::empty());
    for i in 0..fields.len()
        invariant
            all == field_views(fields@),
            ref_views(out@) == record_refs(record@, all.take(i as int)),
    {
        assert(all.take(i + 1).drop_last() =~= all.take(i as int));
        assert(all.take(i + 1).last() == fields@[i as int]@);
        let def = &fields[i];
        if let Some(v) = record.field(&def.name) {
            collect_refs(&def.name, v, &def.field_type, &mut out);
        }
    }
    assert(all.take(all.len() as int) =~= all);
    out
}

/// Reports on the references of a record, given where each of them leads.
pub fn resolve_refs(
    record: &Record,
    fields: &[FieldDef],
    targets: &[Option<String>],
    root: &str,
) -> (r: Vec<ValidationError>)
    ensures
        ({
            let refs = record_refs(record@, field_views(fields@));
            problem_views(r@) == ref_problems(record@.path, refs, targets@, root@, refs.len())
        }),
{
    let uses = refs_of(record, fields);
    let ghost refs = ref_views(uses@);
    let mut out: Vec<ValidationError> = Vec::new();
    assert(problem_views(out@) =~= Seq::<ProblemView>::empty());
    for i in 0..uses.len()
        invariant
            refs == ref_views(uses@),
            problem_views(out@) == ref_problems(record@.path, refs, targets@, root@, i as nat),
    {
        let ghost before = out@;
        assert(refs[i as int] == uses@[i as int]@);
        let path = uses[i].path.as_str();
        let found: Option<&String> = if i < targets.len() {
            targets[i].as_ref()
        } else {
            None
        };
        let report: Option<(String, Severity)> = match found {
            None => Some((glue3("ref `", path, "` is dangling: target not found"), Severity::Warning)),
            Some(t) => if is_within(t, root) {
                None
            } else {
                Some((glue3("ref `", path, "` resolves outside the database root"), Severity::Error))
            },
        };
        if let Some((message, severity)) = report {
            let e = ValidationError {
                record_path: record.path().to_string(),
                field: uses[i].field.clone(),
                message,
                severity,
            };
            out.push(e);
            assert(problem_views(out@) =~= problem_views(before).push(e@));
        }
    }
    out
}

// ---------------------------------------------------------------------------
// Laws
// ---------------------------------------------------------------------------

/// A null counts as a missing value, and a missing value is a problem exactly
/// where the field is required.
pub proof fn law_null_counts_as_missing(def: FieldView)
    ensures
        field_problem(Some(ValueView::Null), def) == field_problem(None, def),
        field_problem(None, def) is Some <==> def.required,
{
}

proof fn lemma_item_problem(items: Seq<ValueView>, t: TypeView, from: nat)
    ensures
        item_problem(items, t, from) is None <==> forall|i: int|
            from <= i < items.len() ==> value_problem(#[trigger] items[i], t) is None,
    decreases items.len() - from,
{
    if from < items.len() {
        lemma_item_problem(items, t, from + 1);
    }
}

/// An array is valid exactly where every item is valid.
pub proof fn law_array_valid_iff_items_valid(v: ValueView, inner: TypeView)
    ensures
        value_problem(v, TypeView::Array(Box::new(inner))) is None <==> (v.as_sequence() matches Some(
            items,
        ) && forall|i: int|
            0 <= i < items.len() ==> value_problem(#[trigger] items[i], inner) is None),
{
    if let Some(items) = v.as_sequence() {
        lemma_item_problem(items, inner, 0);
        assert(value_problem(v, TypeView::Array(Box::new(inner))) == item_problem(items, inner, 0));
    }
}

/// A reference that passes stays inside its collection by its text alone: it
/// starts with the collection's name, is not absolute, and has neither `..`
/// components nor backslashes.
pub proof fn law_valid_ref_is_safe(v: ValueView, target: Seq<char>)
    requires
        value_problem(v, TypeView::Ref(target)) is None,
    ensures
        v.as_str() matches Some(s) && starts_with(s, target + "/"@) && s[0] != '/' && !s.contains('\\')
            && !components(s).contains(".."@),
{
}

/// A finite number passes exactly where it is within both bounds, which belong to
/// the range.
pub proof fn law_range_includes_bounds(n: NumberView, low: NumberView, high: NumberView)
    requires
        is_finite(n.double()),
        !crate::double::is_nan(low.double()),
        !crate::double::is_nan(high.double()),
    ensures
        range_problem(ValueView::Number(n), low, high) is None <==> (crate::double::rank(low.double())
            <= crate::double::rank(n.double()) <= crate::double::rank(high.double())),
{
}

/// Reporting where references lead never turns a missing target into an error.
pub proof fn law_dangling_is_warning(path: Seq<char>, root: Seq<char>)
    ensures
        target_problem(path, None, root) matches Some((_, severity)) && severity == Severity::Warning,
{
}

} // verus!
