//! What a command line asks for: filters such as `rating:ge:4`, and the tally of
//! a validation.

use vstd::prelude::*;
use vstd::slice::slice_subrange;

use crate::db::{report_views, Report, ReportView};
use crate::filter::OpView;
use crate::frontmatter::{integer_of, spelled_integer};
use crate::query::Query;
use crate::text::{
    chars_of, decimal, decimal_text, find_char, find_from, glue3, glue4, glue5, position,
    position_from, same_text, spells, text_of,
};
use crate::validation::{problem_views, ProblemView, Severity, ValidationError};
use crate::value::{integer_view, Value, ValueView};

verus! {

/// The operators that can be asked for by name.
#[derive(Debug, Clone, Copy, PartialEq, Eq, Structural)]
pub enum Operator {
    Eq,
    Ne,
    Lt,
    Le,
    Gt,
    Ge,
    Contains,
}

/// A filter as it was asked for.
#[derive(Debug)]
pub struct FilterArgument {
    pub field: String,
    pub operator: Operator,
    pub value: String,
}

/// The content of a [`FilterArgument`].
pub struct ArgumentView {
    pub field: Seq<char>,
    pub operator: Operator,
    pub value: Seq<char>,
}

impl View for FilterArgument {
    type V = ArgumentView;

    open spec fn view(&self) -> ArgumentView {
        ArgumentView { field: self.field@, operator: self.operator, value: self.value@ }
    }
}

/// The operator with that name.
pub open spec fn operator_named(name: Seq<char>) -> Option<Operator> {
    if name == "eq"@ {
        Some(Operator::Eq)
    } else if name == "ne"@ {
        Some(Operator::Ne)
    } else if name == "lt"@ {
        Some(Operator::Lt)
    } else if name == "le"@ {
        Some(Operator::Le)
    } else if name == "gt"@ {
        Some(Operator::Gt)
    } else if name == "ge"@ {
        Some(Operator::Ge)
    } else if name == "contains"@ {
        Some(Operator::Contains)
    } else {
        None
    }
}

/// The filter that `field:op:value` asks for; the value may hold colons. The
/// other case is the complaint.
pub open spec fn parsed_filter(text: Seq<char>) -> Result<ArgumentView, Seq<char>> {
    let malformed = "malformed filter `"@ + text + "` — expected field:op:value"@;
    match find_char(text, ':') {
        None => Err(malformed),
        Some(i) => match find_from(text, ':', i + 1) {
            None => Err(malformed),
            Some(j) => {
                let name = text.subrange(i + 1, j);
                match operator_named(name) {
                    None => Err(
                        "unknown operator `"@ + name + "` in filter `"@ + text + "`"@,
                    ),
                    Some(operator) => Ok(
                        ArgumentView { field: text.take(i), operator, value: text.skip(j + 1) },
                    ),
                }
            },
        },
    }
}

fn find_operator(name: &[char]) -> (r: Option<Operator>)
    ensures
        r == operator_named(name@),
{
    if spells(name, "eq") {
        Some(Operator::Eq)
    } else if spells(name, "ne") {
        Some(Operator::Ne)
    } else if spells(name, "lt") {
        Some(Operator::Lt)
    } else if spells(name, "le") {
        Some(Operator::Le)
    } else if spells(name, "gt") {
        Some(Operator::Gt)
    } else if spells(name, "ge") {
        Some(Operator::Ge)
    } else if spells(name, "contains") {
        Some(Operator::Contains)
    } else {
        None
    }
}

/// Parses `field:op:value`.
pub fn parse_filter(text: &str) -> (r: Result<FilterArgument, String>)
    ensures
        match r {
            Ok(a) => parsed_filter(text@) == Ok::<ArgumentView, Seq<char>>(a@),
            Err(m) => parsed_filter(text@) == Err::<ArgumentView, Seq<char>>(m@),
        },
{
    let chars = chars_of(text);
    let total: usize = chars.len();
    let first = match position(&chars, ':') {
        Some(i) => i,
        None => {
            return Err(glue3("malformed filter `", text, "` — expected field:op:value"));
        },
    };
    let second = match position_from(&chars, ':', first + 1) {
        Some(j) => j,
        None => {
            return Err(glue3("malformed filter `", text, "` — expected field:op:value"));
        },
    };
    let name = slice_subrange(chars.as_slice(), first + 1, second);
    match find_operator(name) {
        None => {
            let shown = text_of(name);
            Err(glue5("unknown operator `", shown.as_str(), "` in filter `", text, "`"))
        },
        Some(operator) => {
            let field = slice_subrange(chars.as_slice(), 0, first);
            let value = slice_subrange(chars.as_slice(), second + 1, total);
            assert(field@ =~= text@.take(first as int));
            assert(value@ =~= text@.skip(second + 1));
            Ok(FilterArgument { field: text_of(field), operator, value: text_of(value) })
        },
    }
}

/// The value that a text on the command line stands for: an integer, else a double
/// where the text spells one, else a truth value, else the text itself.
pub open spec fn argument_content(text: Seq<char>, double: Option<ValueView>) -> ValueView {
    match (spelled_integer(text), double) {
        (Some(n), _) => integer_view(n),
        (None, Some(d)) => d,
        (None, None) => if text == "true"@ {
            ValueView::Bool(true)
        } else if text == "false"@ {
            ValueView::Bool(false)
        } else {
            ValueView::String(text)
        },
    }
}

/// The value that a text on the command line stands for, given the double that it
/// spells, if any.
pub fn argument_value(text: &str, double: Option<Value>) -> (r: Value)
    ensures
        r@ == argument_content(text@, crate::frontmatter::opt_content(double)),
{
    let chars = chars_of(text);
    if let Some(n) = integer_of(&chars) {
        return Value::integer(n);
    }
    match double {
        Some(d) => d,
        None => if same_text(text, "true") {
            Value::Bool(true)
        } else if same_text(text, "false") {
            Value::Bool(false)
        } else {
            Value::String(text.to_string())
        },
    }
}

impl Operator {
    /// What the operator asks of a field's value.
    pub open spec fn condition(self, v: ValueView) -> OpView {
        match self {
            Operator::Eq => OpView::Eq(v),
            Operator::Ne => OpView::Ne(v),
            Operator::Lt => OpView::Lt(v),
            Operator::Le => OpView::Le(v),
            Operator::Gt => OpView::Gt(v),
            Operator::Ge => OpView::Ge(v),
            Operator::Contains => OpView::Contains(v),
        }
    }
}

/// Adds the filter that was asked for to a query, given the double that its value
/// spells, if any.
pub fn apply_filter<'a>(
    query: Query<'a>,
    argument: &FilterArgument,
    double: Option<Value>,
) -> (r: Query<'a>)
    ensures
        r@ == query@.filtered(
            argument.field@,
            argument.operator.condition(
                argument_content(argument.value@, crate::frontmatter::opt_content(double)),
            ),
        ),
        r.source() == query.source(),
{
    let value = argument_value(argument.value.as_str(), double);
    let builder = query.filter(argument.field.as_str());
    match argument.operator {
        Operator::Eq => builder.eq(value),
        Operator::Ne => builder.ne(value),
        Operator::Lt => builder.lt(value),
        Operator::Le => builder.le(value),
        Operator::Gt => builder.gt(value),
        Operator::Ge => builder.ge(value),
        Operator::Contains => builder.contains(value),
    }
}

// ---------------------------------------------------------------------------
// The tally of a validation
// ---------------------------------------------------------------------------

/// How many of the problems have that severity.
pub open spec fn count_of(problems: Seq<ProblemView>, severity: Severity) -> nat
    decreases problems.len(),
{
    if problems.len() == 0 {
        0
    } else {
        count_of(problems.drop_last(), severity) + if problems.last().severity == severity {
            1nat
        } else {
            0
        }
    }
}

pub open spec fn count_in(reports: Seq<ReportView>, severity: Severity) -> nat
    decreases reports.len(),
{
    if reports.len() == 0 {
        0
    } else {
        count_in(reports.drop_last(), severity) + count_of(reports.last().problems, severity)
    }
}

/// The line for one problem.
pub open spec fn problem_line_text(collection: Seq<char>, p: ProblemView) -> Seq<char> {
    collection + "/"@ + p.record_path + ": "@ + p.field + ": ["@ + (if p.severity == Severity::Error {
        "error"@
    } else {
        "warning"@
    }) + "] "@ + p.message
}

/// The last line of a validation: it fails where there are errors; warnings alone
/// do not make it fail.
pub open spec fn verdict_text(errors: nat, warnings: nat) -> Result<Seq<char>, Seq<char>> {
    if errors == 0 {
        Ok("all records valid ("@ + decimal(warnings) + " warning(s))"@)
    } else {
        Err(decimal(errors) + " error(s), "@ + decimal(warnings) + " warning(s)"@)
    }
}

/// The line for one problem.
pub fn problem_line(collection: &str, problem: &ValidationError) -> (r: String)
    ensures
        r@ == problem_line_text(collection@, problem@),
{
    let tag = match problem.severity {
        Severity::Error => "error",
        Severity::Warning => "warning",
    };
    let mut line = glue5(
        collection,
        "/",
        problem.record_path.as_str(),
        ": ",
        problem.field.as_str(),
    );
    line.append(": [");
    line.append(tag);
    line.append("] ");
    line.append(problem.message.as_str());
    line
}

fn count_severity(problems: &Vec<ValidationError>, severity: Severity) -> (r: u64)
    ensures
        r == count_of(problem_views(problems@), severity),
        r <= problems@.len(),
{
    let ghost all = problem_views(problems@);
    let mut n: u64 = 0;
    for i in 0..problems.len()
        invariant
            all == problem_views(problems@),
            n == count_of(all.take(i as int), severity),
            n <= i,
    {
        assert(all.take(i + 1).drop_last() =~= all.take(i as int));
        assert(all.take(i + 1).last() == problems@[i as int]@);
        if problems[i].severity == severity {
            n = n + 1;
        }
    }
    assert(all.take(all.len() as int) =~= all);
    n
}

/// The last line of a validation. Nothing where there are more problems than can
/// be counted.
pub fn verdict(reports: &[Report]) -> (r: Option<Result<String, String>>)
    ensures
        ({
            let errors = count_in(report_views(reports@), Severity::Error);
            let warnings = count_in(report_views(reports@), Severity::Warning);
            match r {
                Some(Ok(m)) => verdict_text(errors, warnings) == Ok::<Seq<char>, Seq<char>>(m@),
                Some(Err(m)) => verdict_text(errors, warnings) == Err::<Seq<char>, Seq<char>>(m@),
                None => errors > u64::MAX || warnings > u64::MAX,
            }
        }),
{
    let ghost all = report_views(reports@);
    let mut errors: u64 = 0;
    let mut warnings: u64 = 0;
    for i in 0..reports.len()
        invariant
            all == report_views(reports@),
            errors == count_in(all.take(i as int), Severity::Error),
            warnings == count_in(all.take(i as int), Severity::Warning),
    {
        proof {
            assert(all.take(i + 1).drop_last() =~= all.take(i as int));
            assert(all.take(i + 1).last() == reports@[i as int]@);
            lemma_count_grows(all, i + 1, Severity::Error);
            lemma_count_grows(all, i + 1, Severity::Warning);
        }
        let e = count_severity(&reports[i].problems, Severity::Error);
        let w = count_severity(&reports[i].problems, Severity::Warning);
        if e > u64::MAX - errors || w > u64::MAX - warnings {
            return None;
        }
        errors = errors + e;
        warnings = warnings + w;
    }
    assert(all.take(all.len() as int) =~= all);
    let w = decimal_text(warnings);
    if errors == 0 {
        Some(Ok(glue3("all records valid (", w.as_str(), " warning(s))")))
    } else {
        let e = decimal_text(errors);
        Some(Err(glue4(e.as_str(), " error(s), ", w.as_str(), " warning(s)")))
    }
}

proof fn lemma_count_grows(reports: Seq<ReportView>, k: int, severity: Severity)
    requires
        0 <= k <= reports.len(),
    ensures
        count_in(reports.take(k), severity) <= count_in(reports, severity),
    decreases reports.len() - k,
{
    if k == reports.len() {
        assert(reports.take(k) =~= reports);
    } else {
        lemma_count_grows(reports, k + 1, severity);
        assert(reports.take(k + 1).drop_last() =~= reports.take(k));
    }
}

} // verus!
