//! What a view holds, stated on the values that its records are grouped by.

use vstd::prelude::*;
use vstd::utf8::{encode_utf8, is_ascii_chars, is_ascii_chars_encode_utf8};

use crate::path::file_name;
use crate::path_laws::law_file_names;
use crate::record::{RecordErrorView, RecordView};
use crate::text::{decimal, ends_with, hex, signed_decimal, starts_with};
use crate::text_laws::{is_lower_hex, law_decimal_spells_the_number, law_hex_spells_the_number};
use crate::value::{NumberView, ValueView};
use crate::value_laws::{carries, lemma_carries, lemma_core, whole};
use crate::view::{
    all_links, encode_bytes, encoded, garbage, generation_name, group_links, group_text,
    group_texts, groups_of, hex_value, is_safe_byte, law_encoding_reversible,
    law_groups_never_collide, link_target, planned,
    record_links, referenced, segment, separators, ups, view_name_problem, LinkView,
    MaterializeErrorView, PlanView,
};
use crate::yaml::printed;

verus! {

// ---------------------------------------------------------------------------
// Groups
// ---------------------------------------------------------------------------

/// Whether the value on its own stands for a group of that name: a text by itself, a
/// truth value by its word, an integer by its digits, another number as it prints.
pub open spec fn names_group(v: ValueView, name: Seq<char>) -> bool {
    ||| carries(v, ValueView::String(name))
    ||| carries(v, ValueView::Bool(true)) && name == "true"@
    ||| carries(v, ValueView::Bool(false)) && name == "false"@
    ||| exists|n: NumberView| #[trigger]
        carries(v, ValueView::Number(n)) && name == number_name(n)
}

pub open spec fn number_name(n: NumberView) -> Seq<char> {
    match whole(n) {
        Some(i) => if i <= i64::MAX {
            signed_decimal(i)
        } else {
            printed(n)
        },
        None => printed(n),
    }
}

proof fn lemma_group_text(v: ValueView, name: Seq<char>)
    ensures
        group_text(v) == Some(name) <==> names_group(v, name),
{
    lemma_core(v);
    lemma_carries(v, ValueView::String(name));
    lemma_carries(v, ValueView::Bool(true));
    lemma_carries(v, ValueView::Bool(false));
    if let ValueView::Number(n) = v.untagged() {
        assert(carries(v, ValueView::Number(n)));
    }
    if exists|n: NumberView| #[trigger] carries(v, ValueView::Number(n)) && name == number_name(n) {
        let n = choose|n: NumberView| #[trigger]
            carries(v, ValueView::Number(n)) && name == number_name(n);
        lemma_carries(v, ValueView::Number(n));
    }
}

/// A double prints as its text, an integer as the double nearest to it does.
pub proof fn law_printed_numbers(bits: u64, text: Seq<char>, n: NumberView)
    ensures
        printed(NumberView::Float { bits, text }) == text,
        whole(n) matches Some(i) ==> printed(n) == crate::yaml::double_text(
            crate::double::double_of(i) as u64,
        ),
{
}

/// A record whose field holds a single text, number or truth value is in exactly one
/// group, which has that value's name. One whose field holds anything else but a
/// sequence is in none.
pub proof fn law_single_values_make_one_group(record: RecordView, field: Seq<char>, v: ValueView)
    requires
        record.field(field) == Some(v),
        !(v is Sequence),
    ensures
        forall|name: Seq<char>| #[trigger] names_group(v, name) ==> groups_of(record, field) == seq![name],
        (forall|name: Seq<char>| !#[trigger] names_group(v, name)) ==> groups_of(record, field)
            == Seq::<Seq<char>>::empty(),
{
    assert forall|name: Seq<char>| #[trigger] names_group(v, name) implies groups_of(record, field)
        == seq![name] by {
        lemma_group_text(v, name);
    }
    if let Some(t) = group_text(v) {
        lemma_group_text(v, t);
    }
}

/// Texts, truth values and numbers have a name, and no other value has.
pub proof fn law_scalars_name_groups(v: ValueView)
    ensures
        (exists|name: Seq<char>| #[trigger] names_group(v, name)) <==> {
            ||| exists|s: Seq<char>| #[trigger] carries(v, ValueView::String(s))
            ||| exists|b: bool| #[trigger] carries(v, ValueView::Bool(b))
            ||| exists|n: NumberView| #[trigger] carries(v, ValueView::Number(n))
        },
{
    if exists|s: Seq<char>| #[trigger] carries(v, ValueView::String(s)) {
        let s = choose|s: Seq<char>| #[trigger] carries(v, ValueView::String(s));
        assert(names_group(v, s));
    }
    if exists|b: bool| #[trigger] carries(v, ValueView::Bool(b)) {
        let b = choose|b: bool| #[trigger] carries(v, ValueView::Bool(b));
        if b {
            assert(names_group(v, "true"@));
        } else {
            assert(names_group(v, "false"@));
        }
    }
    if exists|n: NumberView| #[trigger] carries(v, ValueView::Number(n)) {
        let n = choose|n: NumberView| #[trigger] carries(v, ValueView::Number(n));
        assert(names_group(v, number_name(n)));
    }
}

/// The items of a sequence name the groups one after the other; an item without a name
/// adds none.
pub proof fn law_items_make_groups_in_order(items: Seq<ValueView>, item: ValueView)
    ensures
        group_texts(Seq::empty()) == Seq::<Seq<char>>::empty(),
        forall|name: Seq<char>| #[trigger]
            names_group(item, name) ==> group_texts(items.push(item)) == group_texts(items).push(
                name,
            ),
        (forall|name: Seq<char>| !#[trigger] names_group(item, name)) ==> group_texts(
            items.push(item),
        ) == group_texts(items),
{
    assert(items.push(item).drop_last() =~= items);
    assert forall|name: Seq<char>| #[trigger] names_group(item, name) implies group_texts(
        items.push(item),
    ) == group_texts(items).push(name) by {
        lemma_group_text(item, name);
    }
    if let Some(t) = group_text(item) {
        lemma_group_text(item, t);
    }
}

proof fn lemma_group_texts(items: Seq<ValueView>, name: Seq<char>)
    ensures
        group_texts(items).contains(name) <==> exists|i: int|
            0 <= i < items.len() && names_group(#[trigger] items[i], name),
    decreases items.len(),
{
    let all = group_texts(items);
    if items.len() > 0 {
        let front = items.drop_last();
        let before = group_texts(front);
        lemma_group_texts(front, name);
        lemma_group_text(items.last(), name);
        if all.contains(name) {
            let k = choose|k: int| 0 <= k < all.len() && all[k] == name;
            if k < before.len() {
                assert(before[k] == name);
                assert(before.contains(name));
                let i = choose|i: int|
                    0 <= i < front.len() && names_group(#[trigger] front[i], name);
                assert(names_group(items[i], name));
            } else {
                assert(names_group(items[items.len() - 1], name));
            }
        }
        if exists|i: int| 0 <= i < items.len() && names_group(#[trigger] items[i], name) {
            let i = choose|i: int| 0 <= i < items.len() && names_group(#[trigger] items[i], name);
            if i < front.len() {
                assert(names_group(front[i], name));
                assert(before.contains(name));
                let k = choose|k: int| 0 <= k < before.len() && before[k] == name;
                assert(all[k] == name);
            } else {
                assert(all[all.len() - 1] == name);
            }
        }
    }
}

/// A record is in a group exactly where the value of its field, or one of its items
/// where that is a sequence, has the group's name; without the field it is in the group
/// of those.
pub proof fn law_records_are_in_the_groups_they_name(
    record: RecordView,
    field: Seq<char>,
    name: Seq<char>,
)
    ensures
        groups_of(record, field).contains(name) <==> match record.field(field) {
            None => name == "_ungrouped"@,
            Some(v) => (v matches ValueView::Sequence(items) && some_item_names(items, name)) || (!(
            v is Sequence) && names_group(v, name)),
        },
{
    let groups = groups_of(record, field);
    match record.field(field) {
        None => {
            assert(groups =~= seq!["_ungrouped"@]);
            assert(groups[0] == "_ungrouped"@);
        },
        Some(v) => {
            if let ValueView::Sequence(items) = v {
                lemma_group_texts(items, name);
            } else {
                lemma_group_text(v, name);
                if groups.len() > 0 {
                    assert(groups[0] == group_text(v)->Some_0);
                }
            }
        },
    }
}

pub open spec fn some_item_names(items: Seq<ValueView>, name: Seq<char>) -> bool {
    exists|i: int| 0 <= i < items.len() && names_group(#[trigger] items[i], name)
}

// ---------------------------------------------------------------------------
// Directory names
// ---------------------------------------------------------------------------

/// The characters that stand for themselves in directory names.
pub open spec fn stands_for_itself(c: char) -> bool {
    ||| '0' <= c <= '9'
    ||| 'A' <= c <= 'Z'
    ||| 'a' <= c <= 'z'
    ||| c == '.' || c == '_' || c == '-' || c == '~'
}

pub open spec fn is_upper_hex(c: char) -> bool {
    '0' <= c <= '9' || 'A' <= c <= 'F'
}

/// A text of letters, digits, points, underscores, hyphens and tildes is its own
/// encoding.
pub proof fn law_plain_texts_stay(s: Seq<char>)
    requires
        forall|i: int| 0 <= i < s.len() ==> stands_for_itself(#[trigger] s[i]),
    ensures
        encoded(s) == s,
{
    assert(is_ascii_chars(s)) by {
        assert forall|i: int| 0 <= i < s.len() implies (0 <= #[trigger] s[i] as u32 <= 127) by {
            assert(stands_for_itself(s[i]));
        }
    }
    is_ascii_chars_encode_utf8(s);
    let bytes = encode_utf8(s);
    assert forall|i: int| 0 <= i < s.len() implies is_safe_byte(#[trigger] bytes[i]) by {
        assert(stands_for_itself(s[i]));
    }
    assert forall|i: int| 0 <= i < s.len() implies bytes[i] as char == #[trigger] s[i] by {
        assert(stands_for_itself(s[i]));
    }
    crate::view::lemma_plain_encoding(s, bytes);
}

/// Bytes are encoded one by one: such a character as itself, any other byte as a
/// percent sign and the two hexadecimal digits of its number.
pub proof fn law_bytes_are_encoded_one_by_one(bytes: Seq<u8>, b: u8)
    ensures
        encode_bytes(Seq::empty()) == Seq::<char>::empty(),
        stands_for_itself(b as char) ==> encode_bytes(bytes.push(b)) == encode_bytes(bytes).push(
            b as char,
        ),
        !stands_for_itself(b as char) ==> exists|h: char, l: char|
            #![trigger is_upper_hex(h), is_upper_hex(l)]
            is_upper_hex(h) && is_upper_hex(l) && hex_value(h) * 16 + hex_value(l) == b
                && encode_bytes(bytes.push(b)) == encode_bytes(bytes) + seq!['%', h, l],
{
    assert(bytes.push(b).drop_last() =~= bytes);
    assert(is_safe_byte(b) <==> stands_for_itself(b as char));
    if is_safe_byte(b) {
        assert(encode_bytes(bytes.push(b)) =~= encode_bytes(bytes).push(b as char));
    } else {
        let h = crate::text::hex_char(b as int / 16, true);
        let l = crate::text::hex_char(b as int % 16, true);
        assert(is_upper_hex(h) && is_upper_hex(l));
        assert(hex_value(h) == b as int / 16 && hex_value(l) == b as int % 16);
    }
}

/// The directory of a group: the empty text, one point and two points have none, and
/// neither has a text whose encoding is longer than the limit; any other text has its
/// encoding.
pub proof fn law_directories_of_groups(value: Seq<char>)
    ensures
        value.len() == 0 ==> segment(value) == Err::<Seq<char>, MaterializeErrorView>(
            MaterializeErrorView::EmptyGroupValue,
        ),
        value == seq!['.'] || value == seq!['.', '.'] ==> segment(value) == Err::<
            Seq<char>,
            MaterializeErrorView,
        >(MaterializeErrorView::InvalidGroupValue(value)),
        value.len() > 0 && value != seq!['.'] && value != seq!['.', '.'] ==> {
            &&& encoded(value).len() <= 240 ==> segment(value) == Ok::<
                Seq<char>,
                MaterializeErrorView,
            >(encoded(value))
            &&& encoded(value).len() > 240 ==> segment(value) == Err::<
                Seq<char>,
                MaterializeErrorView,
            >(MaterializeErrorView::GroupValueTooLong(value))
        },
{
    reveal_strlit(".");
    reveal_strlit("..");
    let one = seq!['.'];
    let both = seq!['.', '.'];
    assert("."@ =~= one && ".."@ =~= both);
    law_plain_texts_stay(one);
    law_plain_texts_stay(both);
    law_encoding_reversible(value);
    law_encoding_reversible(one);
    law_encoding_reversible(both);
    vstd::utf8::encode_utf8_decode_utf8(value);
    vstd::utf8::encode_utf8_decode_utf8(one);
    vstd::utf8::encode_utf8_decode_utf8(both);
}

// ---------------------------------------------------------------------------
// Links
// ---------------------------------------------------------------------------

/// Without a group, a record has one link in the view, under its own path.
pub proof fn law_ungrouped_views_hold_each_record(collection: Seq<char>, record: RecordView)
    ensures
        record_links(collection, record, None) matches Ok(links) && links.len() == 1
            && links[0].path == record.path && links[0].target == link_target(
            false,
            collection,
            record.path,
        ),
{
}

/// With a group field, a record has one link for each of its groups, in their order,
/// below the group's directory; a group without a directory is the error.
pub proof fn law_grouped_views_hold_each_group(
    collection: Seq<char>,
    record: RecordView,
    field: Seq<char>,
)
    ensures
        match record_links(collection, record, Some(field)) {
            Ok(links) => {
                let groups = groups_of(record, field);
                &&& links.len() == groups.len()
                &&& forall|i: int|
                    0 <= i < groups.len() ==> segment(#[trigger] groups[i]) is Ok && links[i].path
                        == segment(groups[i])->Ok_0 + seq!['/'] + record.path && links[i].target
                        == link_target(true, collection, record.path)
            },
            Err(e) => exists|i: int|
                0 <= i < groups_of(record, field).len() && segment(
                    #[trigger] groups_of(record, field)[i],
                ) == Err::<Seq<char>, MaterializeErrorView>(e),
        },
{
    lemma_group_links(collection, record.path, groups_of(record, field));
}

proof fn lemma_group_links(collection: Seq<char>, path: Seq<char>, groups: Seq<Seq<char>>)
    ensures
        match group_links(collection, path, groups) {
            Ok(links) => {
                &&& links.len() == groups.len()
                &&& forall|i: int|
                    0 <= i < groups.len() ==> segment(#[trigger] groups[i]) is Ok && links[i].path
                        == segment(groups[i])->Ok_0 + seq!['/'] + path && links[i].target
                        == link_target(true, collection, path)
            },
            Err(e) => exists|i: int|
                0 <= i < groups.len() && segment(#[trigger] groups[i]) == Err::<
                    Seq<char>,
                    MaterializeErrorView,
                >(e),
        },
    decreases groups.len(),
{
    reveal_strlit("/");
    assert("/"@ =~= seq!['/']);
    if groups.len() > 0 {
        let front = groups.drop_last();
        lemma_group_links(collection, path, front);
        assert(groups[groups.len() - 1] == groups.last());
        match group_links(collection, path, front) {
            Err(e) => {
                let i = choose|i: int|
                    0 <= i < front.len() && segment(#[trigger] front[i]) == Err::<
                        Seq<char>,
                        MaterializeErrorView,
                    >(e);
                assert(groups[i] == front[i]);
            },
            Ok(before) => {
                if let Ok(links) = group_links(collection, path, groups) {
                    assert forall|i: int| 0 <= i < groups.len() implies segment(
                        #[trigger] groups[i],
                    ) is Ok && links[i].path == segment(groups[i])->Ok_0 + seq!['/'] + path
                        && links[i].target == link_target(true, collection, path) by {
                        if i < front.len() {
                            assert(front[i] == groups[i]);
                            assert(links[i] == before[i]);
                        }
                    }
                }
            },
        }
    }
}

/// A record whose group field holds a single text, number or truth value has exactly one
/// link: below the directory of that value's name, under its own path.
pub proof fn law_a_single_value_makes_one_link(
    collection: Seq<char>,
    record: RecordView,
    field: Seq<char>,
    v: ValueView,
    name: Seq<char>,
)
    requires
        record.field(field) == Some(v),
        names_group(v, name),
        name.len() > 0,
        name != seq!['.'],
        name != seq!['.', '.'],
        encoded(name).len() <= 240,
    ensures
        record_links(collection, record, Some(field)) matches Ok(links) && links.len() == 1
            && links[0].path == encoded(name) + seq!['/'] + record.path && links[0].target
            == link_target(true, collection, record.path),
{
    lemma_group_text(v, name);
    law_single_values_make_one_group(record, field, v);
    law_directories_of_groups(name);
    law_grouped_views_hold_each_group(collection, record, field);
    let groups = groups_of(record, field);
    assert(groups[0] == name);
}

/// A link of a record stands below a group's directory exactly where the value of its
/// field, or one of its items, has the group's name.
pub proof fn law_links_stand_below_their_groups(
    collection: Seq<char>,
    record: RecordView,
    field: Seq<char>,
    v: ValueView,
    name: Seq<char>,
)
    requires
        record.field(field) == Some(v),
        record_links(collection, record, Some(field)) is Ok,
        segment(name) is Ok,
    ensures
        (exists|i: int|
            0 <= i < record_links(collection, record, Some(field))->Ok_0.len() && (
            #[trigger] record_links(collection, record, Some(field))->Ok_0[i]).path == encoded(name)
                + seq!['/'] + record.path) <==> (v matches ValueView::Sequence(items)
            && some_item_names(items, name)) || (!(v is Sequence) && names_group(v, name)),
{
    let links = record_links(collection, record, Some(field))->Ok_0;
    let groups = groups_of(record, field);
    law_records_are_in_the_groups_they_name(record, field, name);
    law_grouped_views_hold_each_group(collection, record, field);
    law_directories_of_groups(name);
    let wanted = encoded(name) + seq!['/'] + record.path;
    if groups.contains(name) {
        let i = choose|i: int| 0 <= i < groups.len() && groups[i] == name;
        assert(segment(groups[i]) is Ok);
        assert(links[i].path == wanted);
    }
    if exists|i: int| 0 <= i < links.len() && (#[trigger] links[i]).path == wanted {
        let i = choose|i: int| 0 <= i < links.len() && (#[trigger] links[i]).path == wanted;
        let g = groups[i];
        assert(segment(g) is Ok);
        let d = segment(g)->Ok_0;
        let e = encoded(name);
        assert(d + seq!['/'] + record.path == e + seq!['/'] + record.path);
        assert(d.len() == e.len());
        assert(d =~= e) by {
            assert(wanted.take(e.len() as int) =~= e);
            assert((d + seq!['/'] + record.path).take(d.len() as int) =~= d);
        }
        law_groups_never_collide(g, name);
        assert(groups.contains(name));
    }
}

/// The links of a view are those of its records, one record after the other; the first
/// error stays.
pub proof fn law_views_hold_all_records(
    collection: Seq<char>,
    records: Seq<RecordView>,
    record: RecordView,
    by: Option<Seq<char>>,
)
    ensures
        all_links(collection, Seq::empty(), by) == Ok::<Seq<LinkView>, MaterializeErrorView>(
            Seq::empty(),
        ),
        all_links(collection, records, by) matches Err(e) ==> all_links(
            collection,
            records.push(record),
            by,
        ) == Err::<Seq<LinkView>, MaterializeErrorView>(e),
        all_links(collection, records, by) matches Ok(links) ==> {
            &&& record_links(collection, record, by) matches Ok(more) ==> all_links(
                collection,
                records.push(record),
                by,
            ) == Ok::<Seq<LinkView>, MaterializeErrorView>(links + more)
            &&& record_links(collection, record, by) matches Err(e) ==> all_links(
                collection,
                records.push(record),
                by,
            ) == Err::<Seq<LinkView>, MaterializeErrorView>(e)
        },
{
    assert(records.push(record).drop_last() =~= records);
}

/// A link goes up one directory for every separator of its path and for those above,
/// and then down to the record.
pub proof fn law_steps_up(path: Seq<char>, c: char, n: nat, collection: Seq<char>, grouped: bool)
    ensures
        ups(0) == Seq::<char>::empty(),
        ups(n + 1) == ups(n) + seq!['.', '.', '/'],
        separators(Seq::empty()) == 0,
        separators(path.push(c)) == separators(path) + if c == '/' {
            1nat
        } else {
            0
        },
        link_target(grouped, collection, path) == ups(
            separators(path) + if grouped {
                4nat
            } else {
                3
            },
        ) + collection + seq!['/'] + path,
{
    reveal_strlit("../");
    reveal_strlit("/");
    assert("../"@ =~= seq!['.', '.', '/']);
    assert("/"@ =~= seq!['/']);
    assert(path.push(c).drop_last() =~= path);
}

/// The name of a view is right exactly where it is not empty, has no separator or
/// backslash, and does not start with a point.
pub proof fn law_view_names(name: Seq<char>)
    ensures
        view_name_problem(name) is None <==> name.len() > 0 && name[0] != '.' && forall|i: int|
            0 <= i < name.len() ==> #[trigger] name[i] != '/' && name[i] != '\\',
{
    if name.contains('/') {
        let i = choose|i: int| 0 <= i < name.len() && name[i] == '/';
        assert(name[i] == '/');
    }
    if name.contains('\\') {
        let i = choose|i: int| 0 <= i < name.len() && name[i] == '\\';
        assert(name[i] == '\\');
    }
    if view_name_problem(name) is None {
        assert forall|i: int| 0 <= i < name.len() implies #[trigger] name[i] != '/' && name[i]
            != '\\' by {
            assert(name.contains(name[i]));
        }
    }
}

/// A view is planned exactly where its name is right, every record has its links, and
/// no record failed to be read; the plan holds all links, and publishes the view under
/// its name.
pub proof fn law_plans(
    view: Seq<char>,
    generation: Seq<char>,
    collection: Seq<char>,
    records: Seq<RecordView>,
    error: Option<RecordErrorView>,
    by: Option<Seq<char>>,
)
    ensures
        ({
            let p = planned(view, generation, collection, records, error, by);
            &&& p is Ok <==> view_name_problem(view) is None && all_links(
                collection,
                records,
                by,
            ) is Ok && error is None
            &&& p matches Ok(plan) ==> {
                &&& all_links(collection, records, by) == Ok::<Seq<LinkView>, MaterializeErrorView>(
                    plan.links,
                )
                &&& plan.published == view
                &&& file_name(plan.generation) == Some(generation) || generation.contains('/')
                    || generation.len() == 0 || generation == seq!['.'] || generation == seq![
                    '.',
                    '.',
                ]
                &&& starts_with(plan.generation, ".generations/"@)
                &&& starts_with(plan.swap, "."@ + view)
                &&& ends_with(plan.swap, ".swap-"@ + generation)
                &&& plan.swap.len() == view.len() + generation.len() + 7
                &&& plan.swap != plan.published
            }
            &&& view_name_problem(view) matches Some(m) ==> p == Err::<
                PlanView,
                MaterializeErrorView,
            >(MaterializeErrorView::InvalidViewName(m))
            &&& view_name_problem(view) is None && all_links(collection, records, by) is Err ==> p
                == Err::<PlanView, MaterializeErrorView>(
                all_links(collection, records, by)->Err_0,
            )
            &&& view_name_problem(view) is None && all_links(collection, records, by) is Ok
                && error is Some ==> p == Err::<PlanView, MaterializeErrorView>(
                MaterializeErrorView::Record(error->Some_0),
            )
        }),
{
    let p = planned(view, generation, collection, records, error, by);
    if let Ok(plan) = p {
        reveal_strlit(".generations/");
        reveal_strlit(".generations");
        reveal_strlit(".");
        reveal_strlit(".swap-");
        if !generation.contains('/') {
            law_file_names(".generations"@, generation);
            assert(".generations"@ + seq!['/'] =~= ".generations/"@);
        }
        assert(plan.generation.take(13) =~= ".generations/"@);
        assert(plan.swap.take((1 + view.len()) as int) =~= "."@ + view);
        assert(plan.swap[0] == '.');
        let tail = ".swap-"@ + generation;
        assert(plan.swap.skip(plan.swap.len() - tail.len()) =~= tail);
    }
}

// ---------------------------------------------------------------------------
// Old generations
// ---------------------------------------------------------------------------

/// The name of a generation is three parts with hyphens between them: the word for it,
/// the time in hexadecimal and the counter in decimal digits. So it is one component,
/// and garbage collection knows it as a generation.
pub proof fn law_names_of_generations(nanos: nat, counter: nat)
    ensures
        generation_name(nanos, counter) == seq!['g', 'e', 'n', '-'] + hex(nanos) + seq!['-']
            + decimal(counter),
        starts_with(generation_name(nanos, counter), seq!['g', 'e', 'n', '-']),
        !generation_name(nanos, counter).contains('/'),
{
    reveal_strlit("gen-");
    reveal_strlit("-");
    let name = generation_name(nanos, counter);
    let word = seq!['g', 'e', 'n', '-'];
    assert("gen-"@ =~= word && "-"@ =~= seq!['-']);
    assert(name.take(4) =~= word);
    law_hex_spells_the_number(nanos);
    law_decimal_spells_the_number(counter);
    if name.contains('/') {
        let i = choose|i: int| 0 <= i < name.len() && name[i] == '/';
        let h = hex(nanos);
        let d = decimal(counter);
        if i >= 4 && i < 4 + h.len() {
            assert(name[i] == h[i - 4]);
            assert(is_lower_hex(h[i - 4]));
        } else if i > 4 + h.len() {
            assert(name[i] == d[i - 5 - h.len()]);
            assert(crate::text::is_digit(d[i - 5 - h.len()]));
        }
    }
}

/// What is removed is exactly the generations that no published link leads to: a
/// directory whose name begins as those of generations do, and is not the last
/// component of any link's target.
pub proof fn law_garbage_is_what_nothing_refers_to(
    names: Seq<Seq<char>>,
    targets: Seq<Seq<char>>,
    name: Seq<char>,
)
    ensures
        garbage(names, targets).contains(name) <==> names.contains(name) && starts_with(
            name,
            seq!['g', 'e', 'n', '-'],
        ) && forall|i: int|
            0 <= i < targets.len() ==> file_name(#[trigger] targets[i]) != Some(name),
    decreases names.len(),
{
    reveal_strlit("gen-");
    assert("gen-"@ =~= seq!['g', 'e', 'n', '-']);
    let all = garbage(names, targets);
    if names.len() > 0 {
        let front = names.drop_last();
        let before = garbage(front, targets);
        law_garbage_is_what_nothing_refers_to(front, targets, name);
        if all.contains(name) {
            let k = choose|k: int| 0 <= k < all.len() && all[k] == name;
            if k < before.len() {
                assert(before[k] == name);
                assert(before.contains(name));
                let i = choose|i: int| 0 <= i < front.len() && front[i] == name;
                assert(names[i] == name);
            } else {
                assert(names[names.len() - 1] == name);
            }
        }
        if names.contains(name) && starts_with(name, "gen-"@) && !referenced(name, targets) {
            let i = choose|i: int| 0 <= i < names.len() && names[i] == name;
            if i < front.len() {
                assert(front[i] == name);
                assert(front.contains(name));
                assert(before.contains(name));
                let k = choose|k: int| 0 <= k < before.len() && before[k] == name;
                assert(all[k] == name);
            } else {
                assert(all[all.len() - 1] == name);
            }
        }
    }
}

} // verus!
