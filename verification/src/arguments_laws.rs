//! What a command line asks for, stated on which records are accepted and on the texts
//! that are written.

use vstd::prelude::*;

use crate::arguments::{
    argument_content, count_in, count_of, operator_named, parsed_filter, problem_line_text,
    verdict_text, ArgumentView, Operator,
};
use crate::db::ReportView;
use crate::filter::{all_accept, FilterView, OpView};
use crate::filter_laws::{law_contains_looks_at_items, law_every_filter_counts};
use crate::frontmatter::spelled_integer;
use crate::query::QueryView;
use crate::record::RecordView;
use crate::text::{decimal, digits_value, find_char, find_from, is_digit, lemma_find_from, signed_decimal};
use crate::text_laws::law_decimal_spells_the_number;
use crate::validation::{ProblemView, Severity};
use crate::value::ValueView;
use crate::value_laws::{carries, whole};

verus! {

/// What the operator of that name asks of a value, by the filter of the same name.
pub open spec fn asks(name: Seq<char>, v: ValueView, target: ValueView) -> bool {
    ||| name == "eq"@ && OpView::Eq(target).accepts(v)
    ||| name == "ne"@ && OpView::Ne(target).accepts(v)
    ||| name == "lt"@ && OpView::Lt(target).accepts(v)
    ||| name == "le"@ && OpView::Le(target).accepts(v)
    ||| name == "gt"@ && OpView::Gt(target).accepts(v)
    ||| name == "ge"@ && OpView::Ge(target).accepts(v)
    ||| name == "contains"@ && OpView::Contains(target).accepts(v)
}

proof fn lemma_names_differ()
    ensures
        "eq"@ != "ne"@ && "eq"@ != "lt"@ && "eq"@ != "le"@ && "eq"@ != "gt"@ && "eq"@ != "ge"@,
        "ne"@ != "lt"@ && "ne"@ != "le"@ && "ne"@ != "gt"@ && "ne"@ != "ge"@,
        "lt"@ != "le"@ && "lt"@ != "gt"@ && "lt"@ != "ge"@,
        "le"@ != "gt"@ && "le"@ != "ge"@,
        "gt"@ != "ge"@,
        "contains"@ != "eq"@ && "contains"@ != "ne"@ && "contains"@ != "lt"@ && "contains"@ != "le"@
            && "contains"@ != "gt"@ && "contains"@ != "ge"@,
{
    reveal_strlit("eq");
    reveal_strlit("ne");
    reveal_strlit("lt");
    reveal_strlit("le");
    reveal_strlit("gt");
    reveal_strlit("ge");
    reveal_strlit("contains");
    assert("eq"@[0] == 'e' && "ne"@[0] == 'n' && "lt"@[0] == 'l' && "le"@[0] == 'l' && "gt"@[0]
        == 'g' && "ge"@[0] == 'g');
    assert("lt"@[1] == 't' && "le"@[1] == 'e' && "gt"@[1] == 't' && "ge"@[1] == 'e');
    assert("contains"@.len() == 8);
}

/// The query made for an operator's name and a value accepts a record exactly where the
/// query before did, the record has the field, and its value meets the condition of the
/// filter with that name.
pub proof fn law_named_operators_filter_by_their_name(
    q: QueryView,
    field: Seq<char>,
    name: Seq<char>,
    operator: Operator,
    target: ValueView,
    record: RecordView,
)
    requires
        operator_named(name) == Some(operator),
    ensures
        all_accept(q.filtered(field, operator.condition(target)).filters, record) <==> all_accept(
            q.filters,
            record,
        ) && (record.field(field) matches Some(v) && asks(name, v, target)),
{
    lemma_names_differ();
    law_every_filter_counts(
        q.filters,
        FilterView { field, op: operator.condition(target) },
        record,
    );
}

/// Asking that a field contains a value accepts a record exactly where the field is a
/// sequence with an item equal to the value, or is no sequence and itself equal to it.
pub proof fn law_contains_argument(
    q: QueryView,
    field: Seq<char>,
    target: ValueView,
    record: RecordView,
)
    ensures
        operator_named("contains"@) == Some(Operator::Contains),
        all_accept(q.filters, record) ==> (all_accept(
            q.filtered(field, Operator::Contains.condition(target)).filters,
            record,
        ) <==> (record.field(field) matches Some(v) && contained(v, target))),
        !all_accept(q.filters, record) ==> !all_accept(
            q.filtered(field, Operator::Contains.condition(target)).filters,
            record,
        ),
{
    lemma_names_differ();
    law_every_filter_counts(
        q.filters,
        FilterView { field, op: Operator::Contains.condition(target) },
        record,
    );
    if let Some(v) = record.field(field) {
        law_contains_looks_at_items(v, target);
        crate::value_laws::lemma_core(v);
        if let ValueView::Sequence(items) = v.untagged() {
            assert(carries(v, ValueView::Sequence(items)));
        }
        if exists|items: Seq<ValueView>| #[trigger] carries(v, ValueView::Sequence(items)) {
            let items = choose|items: Seq<ValueView>| #[trigger]
                carries(v, ValueView::Sequence(items));
            crate::value_laws::lemma_carries(v, ValueView::Sequence(items));
            assert forall|other: Seq<ValueView>| #[trigger]
                carries(v, ValueView::Sequence(other)) implies other == items by {
                crate::value_laws::lemma_carries(v, ValueView::Sequence(other));
            }
        }
    }
}

/// The value is a sequence with an item equal to the target, or no sequence and equal.
pub open spec fn contained(v: ValueView, target: ValueView) -> bool {
    ||| exists|items: Seq<ValueView>, i: int|
        #![trigger carries(v, ValueView::Sequence(items)), items[i]]
        carries(v, ValueView::Sequence(items)) && 0 <= i < items.len() && OpView::Eq(
            target,
        ).accepts(items[i])
    ||| (forall|items: Seq<ValueView>| !#[trigger] carries(v, ValueView::Sequence(items)))
        && OpView::Eq(target).accepts(v)
}

/// Only the names of operators are such.
pub proof fn law_operator_names(name: Seq<char>)
    ensures
        operator_named(name) is Some <==> name == "eq"@ || name == "ne"@ || name == "lt"@ || name
            == "le"@ || name == "gt"@ || name == "ge"@ || name == "contains"@,
{
}

/// A filter is read from a field, an operator's name and a value with colons between
/// them; the value may hold more colons.
pub proof fn law_filters_are_read_in_three_parts(
    field: Seq<char>,
    name: Seq<char>,
    value: Seq<char>,
)
    requires
        !field.contains(':'),
        !name.contains(':'),
    ensures
        ({
            let text = field + seq![':'] + name + seq![':'] + value;
            &&& operator_named(name) matches Some(operator) ==> parsed_filter(text) == Ok::<
                ArgumentView,
                Seq<char>,
            >(ArgumentView { field, operator, value })
            &&& operator_named(name) is None ==> parsed_filter(text) == Err::<
                ArgumentView,
                Seq<char>,
            >("unknown operator `"@ + name + "` in filter `"@ + text + "`"@)
        }),
{
    let text = field + seq![':'] + name + seq![':'] + value;
    let i = field.len() as int;
    let j = i + 1 + name.len();
    lemma_find_from(text, ':', 0);
    assert(text[i] == ':');
    assert(find_char(text, ':') == Some(i)) by {
        let k = find_char(text, ':')->Some_0;
        if k < i {
            assert(field[k] == ':');
        }
    }
    lemma_find_from(text, ':', i + 1);
    assert(text[j] == ':');
    assert(find_from(text, ':', i + 1) == Some(j)) by {
        let k = find_from(text, ':', i + 1)->Some_0;
        if k < j {
            assert(name[k - i - 1] == ':');
        }
    }
    assert(text.subrange(i + 1, j) =~= name);
    assert(text.take(i) =~= field);
    assert(text.skip(j + 1) =~= value);
}

/// A text with fewer than two colons is no filter.
pub proof fn law_filters_need_two_colons(field: Seq<char>, rest: Seq<char>)
    requires
        !field.contains(':'),
        !rest.contains(':'),
    ensures
        parsed_filter(field) == Err::<ArgumentView, Seq<char>>(
            "malformed filter `"@ + field + "` — expected field:op:value"@,
        ),
        parsed_filter(field + seq![':'] + rest) == Err::<ArgumentView, Seq<char>>(
            "malformed filter `"@ + (field + seq![':'] + rest) + "` — expected field:op:value"@,
        ),
{
    lemma_find_from(field, ':', 0);
    let text = field + seq![':'] + rest;
    let i = field.len() as int;
    lemma_find_from(text, ':', 0);
    assert(text[i] == ':');
    assert(find_char(text, ':') == Some(i)) by {
        let k = find_char(text, ':')->Some_0;
        if k < i {
            assert(field[k] == ':');
        }
    }
    lemma_find_from(text, ':', i + 1);
    if let Some(k) = find_from(text, ':', i + 1) {
        assert(rest[k - i - 1] == ':');
    }
}

/// The text of an integer of the signed range stands for that integer, also with zeros
/// in front or a plus sign; a text with anything but digits behind its sign stands for
/// none.
pub proof fn law_texts_of_integers(n: int, text: Seq<char>)
    requires
        i64::MIN <= n <= i64::MAX,
    ensures
        spelled_integer(signed_decimal(n)) == Some(n),
        n >= 0 ==> spelled_integer(seq!['+'] + decimal(n as nat)) == Some(n),
        spelled_integer(text) == Some(n) && n >= 0 && text[0] != '+' && text[0] != '-'
            ==> digits_value(text) == n,
        (exists|i: int|
            1 <= i < text.len() && !is_digit(#[trigger] text[i])) ==> spelled_integer(text) is None,
        text.len() > 0 && text[0] != '+' && text[0] != '-' && !is_digit(text[0])
            ==> spelled_integer(text) is None,
        spelled_integer(Seq::empty()) is None,
        spelled_integer(seq!['-']) is None,
        spelled_integer(seq!['+']) is None,
{
    let m = if n < 0 {
        (-n) as nat
    } else {
        n as nat
    };
    law_decimal_spells_the_number(m);
    let digits = decimal(m);
    assert(is_digit(digits[0]));
    assert((seq!['-'] + digits).skip(1) =~= digits);
    assert((seq!['+'] + digits).skip(1) =~= digits);
    if exists|i: int| 1 <= i < text.len() && !is_digit(#[trigger] text[i]) {
        let i = choose|i: int| 1 <= i < text.len() && !is_digit(#[trigger] text[i]);
        if text[0] == '+' || text[0] == '-' {
            assert(text.skip(1)[i - 1] == text[i]);
        }
    }
}

/// Digits, with or without a sign, spell the number that they stand for, with any zeros
/// in front, exactly where that is in the signed range.
pub proof fn law_digits_spell_integers(digits: Seq<char>)
    requires
        digits.len() > 0,
        forall|i: int| 0 <= i < digits.len() ==> is_digit(#[trigger] digits[i]),
    ensures
        ({
            let n = digits_value(digits) as int;
            &&& spelled_integer(digits) == if n <= i64::MAX {
                Some(n)
            } else {
                None
            }
            &&& spelled_integer(seq!['+'] + digits) == if n <= i64::MAX {
                Some(n)
            } else {
                None
            }
            &&& spelled_integer(seq!['-'] + digits) == if -n >= i64::MIN {
                Some(-n)
            } else {
                None
            }
        }),
{
    assert(is_digit(digits[0]));
    assert((seq!['+'] + digits).skip(1) =~= digits);
    assert((seq!['-'] + digits).skip(1) =~= digits);
}

/// A value on the command line is the integer that it spells, else the double that it
/// spells, else a truth value by its word, else the text itself.
pub proof fn law_values_of_arguments(text: Seq<char>, n: int, double: Option<ValueView>)
    requires
        i64::MIN <= n <= i64::MAX,
    ensures
        argument_content(signed_decimal(n), double) matches ValueView::Number(x) && whole(x) == Some(n),
        spelled_integer(text) == Some(n) ==> (argument_content(
            text,
            double,
        ) matches ValueView::Number(x) && whole(x) == Some(n)),
        spelled_integer(text) is None ==> {
            &&& double matches Some(d) ==> argument_content(text, double) == d
            &&& double is None ==> {
                &&& text == "true"@ ==> argument_content(text, double) == ValueView::Bool(true)
                &&& text == "false"@ ==> argument_content(text, double) == ValueView::Bool(false)
                &&& text != "true"@ && text != "false"@ ==> argument_content(text, double)
                    == ValueView::String(text)
            }
        },
{
    law_texts_of_integers(n, text);
    reveal_strlit("true");
    reveal_strlit("false");
    assert("true"@.len() == 4 && "false"@.len() == 5);
}

// ---------------------------------------------------------------------------
// The tally of a validation
// ---------------------------------------------------------------------------

proof fn lemma_count(problems: Seq<ProblemView>, severity: Severity)
    ensures
        count_of(problems, severity) == problems.filter(
            |p: ProblemView| p.severity == severity,
        ).len(),
    decreases problems.len(),
{
    reveal(Seq::filter);
    if problems.len() > 0 {
        lemma_count(problems.drop_last(), severity);
    }
}

/// The problems of a severity are counted over all reports.
pub proof fn law_problems_are_counted(
    reports: Seq<ReportView>,
    report: ReportView,
    severity: Severity,
)
    ensures
        count_in(Seq::empty(), severity) == 0,
        count_in(reports.push(report), severity) == count_in(reports, severity)
            + report.problems.filter(|p: ProblemView| p.severity == severity).len(),
{
    lemma_count(report.problems, severity);
    assert(reports.push(report).drop_last() =~= reports);
}

/// A validation fails exactly where some report has a problem that is an error;
/// warnings alone do not make it fail.
pub proof fn law_errors_alone_fail(reports: Seq<ReportView>)
    ensures
        verdict_text(
            count_in(reports, Severity::Error),
            count_in(reports, Severity::Warning),
        ) is Err <==> exists|i: int, j: int|
            #![trigger reports[i].problems[j]]
            0 <= i < reports.len() && 0 <= j < reports[i].problems.len()
                && reports[i].problems[j].severity == Severity::Error,
{
    lemma_some_error(reports);
}

proof fn lemma_some_error(reports: Seq<ReportView>)
    ensures
        count_in(reports, Severity::Error) > 0 <==> exists|i: int, j: int|
            #![trigger reports[i].problems[j]]
            0 <= i < reports.len() && 0 <= j < reports[i].problems.len()
                && reports[i].problems[j].severity == Severity::Error,
    decreases reports.len(),
{
    if reports.len() > 0 {
        let front = reports.drop_last();
        let last = reports.last();
        lemma_some_error(front);
        lemma_error_counts(last.problems);
        if count_in(front, Severity::Error) > 0 {
            let (i, j) = choose|i: int, j: int|
                #![trigger front[i].problems[j]]
                0 <= i < front.len() && 0 <= j < front[i].problems.len()
                    && front[i].problems[j].severity == Severity::Error;
            assert(reports[i].problems[j].severity == Severity::Error);
        }
        if count_of(last.problems, Severity::Error) > 0 {
            let j = choose|j: int|
                0 <= j < last.problems.len() && (#[trigger] last.problems[j]).severity
                    == Severity::Error;
            assert(reports[reports.len() - 1].problems[j].severity == Severity::Error);
        }
        if exists|i: int, j: int|
            #![trigger reports[i].problems[j]]
            0 <= i < reports.len() && 0 <= j < reports[i].problems.len()
                && reports[i].problems[j].severity == Severity::Error {
            let (i, j) = choose|i: int, j: int|
                #![trigger reports[i].problems[j]]
                0 <= i < reports.len() && 0 <= j < reports[i].problems.len()
                    && reports[i].problems[j].severity == Severity::Error;
            if i < front.len() {
                assert(front[i].problems[j].severity == Severity::Error);
            } else {
                assert(last.problems[j].severity == Severity::Error);
            }
        }
    }
}

proof fn lemma_error_counts(problems: Seq<ProblemView>)
    ensures
        count_of(problems, Severity::Error) > 0 <==> exists|j: int|
            0 <= j < problems.len() && (#[trigger] problems[j]).severity == Severity::Error,
    decreases problems.len(),
{
    if problems.len() > 0 {
        let front = problems.drop_last();
        lemma_error_counts(front);
        assert(problems[problems.len() - 1] == problems.last());
        if count_of(front, Severity::Error) > 0 {
            let j = choose|j: int|
                0 <= j < front.len() && (#[trigger] front[j]).severity == Severity::Error;
            assert(problems[j].severity == Severity::Error);
        }
        if exists|j: int|
            0 <= j < problems.len() && (#[trigger] problems[j]).severity == Severity::Error {
            let j = choose|j: int|
                0 <= j < problems.len() && (#[trigger] problems[j]).severity == Severity::Error;
            if j < front.len() {
                assert(front[j].severity == Severity::Error);
            }
        }
    }
}

/// The last line of a validation names the numbers of errors and warnings.
pub proof fn law_verdicts(errors: nat, warnings: nat)
    ensures
        errors == 0 ==> verdict_text(errors, warnings) == Ok::<Seq<char>, Seq<char>>(
            "all records valid ("@ + decimal(warnings) + " warning(s))"@,
        ),
        errors > 0 ==> verdict_text(errors, warnings) == Err::<Seq<char>, Seq<char>>(
            decimal(errors) + " error(s), "@ + decimal(warnings) + " warning(s)"@,
        ),
{
}

/// The line for a problem tells where it is, how serious it is, and what is wrong.
pub proof fn law_problem_lines(collection: Seq<char>, p: ProblemView)
    ensures
        p.severity == Severity::Error ==> problem_line_text(collection, p) == collection + seq!['/']
            + p.record_path + ": "@ + p.field + ": [error] "@ + p.message,
        p.severity == Severity::Warning ==> problem_line_text(collection, p) == collection
            + seq!['/'] + p.record_path + ": "@ + p.field + ": [warning] "@ + p.message,
{
    reveal_strlit("/");
    reveal_strlit(": [");
    reveal_strlit("] ");
    reveal_strlit("error");
    reveal_strlit("warning");
    reveal_strlit(": [error] ");
    reveal_strlit(": [warning] ");
    assert("/"@ =~= seq!['/']);
    assert(": [error] "@ =~= ": ["@ + "error"@ + "] "@);
    assert(": [warning] "@ =~= ": ["@ + "warning"@ + "] "@);
    let start = collection + "/"@ + p.record_path + ": "@ + p.field;
    assert(start + ": [error] "@ + p.message =~= start + ": ["@ + "error"@ + "] "@ + p.message);
    assert(start + ": [warning] "@ + p.message =~= start + ": ["@ + "warning"@ + "] "@ + p.message);
}

} // verus!
