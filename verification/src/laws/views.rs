//! What the mathematical forms of the values of the library hold, and what it means for a
//! method to end as the grammar says.

use vstd::prelude::*;
use vstd::utf8::encode_utf8;
use vstd::std_specs::convert::FromSpec;
use capnp::Error as CapnpError;
use crate::error::{Error, capnp_description, capnp_display};
use crate::filters::{Filter, FilterView};
use crate::grammar::Step;
use crate::grammar::filters::Walk;
use crate::json_value::{JsonValue, JsonView};
use crate::key_builder::{KeyBuilder, Segment, SegmentView};
use crate::parser::{Parser, ParserView};
use crate::query::{AggregateFun, RetView, Returnable, Sort, SortInfo};
use crate::text::{byte_offset, lemma_byte_offset_step};

verus! {

/// The mathematical form of a JSON value has its kind, its text, and the forms of its parts in
/// their order.
pub proof fn law_json_form(value: JsonValue)
    ensures
        match value {
            JsonValue::Null => value.deep_view() == JsonView::Null,
            JsonValue::True => value.deep_view() == JsonView::True,
            JsonValue::False => value.deep_view() == JsonView::False,
            JsonValue::Number(text) => value.deep_view() == JsonView::Number(text@),
            JsonValue::String(text) => value.deep_view() == JsonView::String(text@),
            JsonValue::Array(items) => {
                &&& value.deep_view() matches JsonView::Array(forms)
                &&& forms.len() == items@.len()
                &&& forall|i: int|
                    0 <= i < items@.len() ==> #[trigger] forms[i] == items@[i].deep_view()
            },
            JsonValue::Object(members) => {
                &&& value.deep_view() matches JsonView::Object(forms)
                &&& forms.len() == members@.len()
                &&& forall|i: int|
                    0 <= i < members@.len() ==> #[trigger] forms[i] == (
                        members@[i].0@,
                        members@[i].1.deep_view(),
                    )
            },
        },
{
}

/// The mathematical form of the form of a result has its kind, its path, function, default
/// and order, and the forms of its parts in their order.
pub proof fn law_result_form(form: Returnable)
    ensures
        match form {
            Returnable::Value(value) => {
                &&& form.deep_view() matches RetView::Value { path, ag, default, sort }
                &&& path == value.kb.deep_view()
                &&& default == value.default.deep_view()
                &&& sort == value.sort
                &&& match value.ag {
                    Some((fun, argument)) => ag == Some((fun, argument.deep_view())),
                    None => ag is None,
                }
            },
            Returnable::Object(object) => {
                &&& form.deep_view() matches RetView::Object(fields)
                &&& fields.len() == object.fields@.len()
                &&& forall|i: int|
                    0 <= i < fields.len() ==> #[trigger] fields[i] == (
                        object.fields@[i].0@,
                        object.fields@[i].1.deep_view(),
                    )
            },
            Returnable::Array(array) => {
                &&& form.deep_view() matches RetView::Array(slots)
                &&& slots.len() == array.slots@.len()
                &&& forall|i: int|
                    0 <= i < slots.len() ==> #[trigger] slots[i] == array.slots@[i].deep_view()
            },
            Returnable::Literal(literal) => form.deep_view() == RetView::Literal(
                literal.json.deep_view(),
            ),
        },
{
}

/// The mathematical form of a filter has its kind, its operator and literal, the forms of
/// its two filters, and its path.
pub proof fn law_filter_form(filter: Filter)
    ensures
        match filter {
            Filter::Compare(comparison) => {
                &&& filter.deep_view() matches FilterView::Compare { operator, literal, path }
                &&& operator == comparison.operator
                &&& literal == comparison.literal@
                &&& path == comparison.kb.deep_view()
            },
            Filter::And(left, right, kb) => {
                &&& filter.deep_view() matches FilterView::And(first, second, path)
                &&& *first == left.deep_view()
                &&& *second == right.deep_view()
                &&& path == kb.deep_view()
            },
            Filter::Or(left, right, kb) => {
                &&& filter.deep_view() matches FilterView::Or(first, second, path)
                &&& *first == left.deep_view()
                &&& *second == right.deep_view()
                &&& path == kb.deep_view()
            },
        },
{
}

/// The mathematical form of a path has one step for each segment, with its key or index.
pub proof fn law_path_form(kb: KeyBuilder)
    ensures
        kb.deep_view().len() == kb.segments@.len(),
        forall|i: int|
            0 <= i < kb.segments@.len() ==> (match kb.segments@[i] {
                Segment::ObjectKey(key) => #[trigger] kb.deep_view()[i]
                    == SegmentView::ObjectKey(key@),
                Segment::Array => kb.deep_view()[i] == SegmentView::Array,
                Segment::ArrayIndex(index) => kb.deep_view()[i] == SegmentView::ArrayIndex(index),
            }),
{
}

/// The mathematical forms of directions and of functions over groups are these themselves.
pub proof fn law_plain_forms(sort: Sort, fun: AggregateFun)
    ensures
        sort.deep_view() == sort,
        fun.deep_view() == fun,
{
}

/// The mathematical form of a key of the order has its path, direction and default.
pub proof fn law_sort_form(info: SortInfo)
    ensures
        info.deep_view().path == info.kb.deep_view(),
        info.deep_view().sort == info.sort,
        info.deep_view().default == info.default.deep_view(),
{
}

/// A method that ends as the grammar says returns the value that is read, or an error of the
/// parser with the message. It stands where the reading ends, in the same query and on the
/// same path.
pub proof fn law_lands<T: DeepView>(
    parser: Parser,
    was: ParserView,
    r: Result<T, Error>,
    step: Step<T::V>,
)
    requires
        parser.lands(was, r, step),
    ensures
        parser@.src == was.src,
        parser@.path == was.path,
        match step {
            Step::Done { value, at } => parser@.at == at && r is Ok && r->Ok_0.deep_view() == value,
            Step::Fail { message, at } => parser@.at == at && r is Err && r->Err_0 is Parse && (
            r->Err_0->Parse_0)@ == message,
        },
{
}

/// A method on filters that ends as the grammar says returns the filter that is read, on the
/// path on which it started, or an error of the parser with the message, on the path that it
/// had reached. It stands where the reading ends, in the same query.
pub proof fn law_ends<T: DeepView>(
    parser: Parser,
    was: ParserView,
    r: Result<T, Error>,
    walk: Walk<T::V>,
)
    requires
        parser.ends(was, r, walk),
    ensures
        parser@.src == was.src,
        match walk {
            Walk::Done { value, at } => parser@.at == at && parser@.path == was.path && r is Ok
                && r->Ok_0.deep_view() == value,
            Walk::Fail { message, at, path } => parser@.at == at && parser@.path == path && r is Err
                && r->Err_0 is Parse && (r->Err_0->Parse_0)@ == message,
        },
{
}

/// The invariant of a parser keeps it within its query.
pub proof fn law_within(parser: Parser)
    requires
        parser.wf(),
    ensures
        0 <= parser@.at <= parser@.src.len(),
{
}

/// The offset of a character is the length of the UTF-8 form of what stands before it, and
/// grows with each character by the length of its own form.
pub proof fn law_offset(s: Seq<char>, at: int)
    requires
        0 <= at < s.len(),
    ensures
        byte_offset(s, 0) == 0,
        byte_offset(s, at) == encode_utf8(s.take(at)).len(),
        byte_offset(s, at + 1) - byte_offset(s, at) == encode_utf8(seq![s[at]]).len(),
{
    assert(s.take(0) =~= Seq::<char>::empty());
    lemma_byte_offset_step(s, at);
    let one = seq![s[at]];
    lemma_byte_offset_step(one, 0);
    assert(one.take(1) =~= one);
    assert(one.take(0) =~= Seq::<char>::empty());
}

/// An error describes itself by the text that it holds, and shows it behind the name of where
/// it comes from. An error of the storage engine has one description for all.
pub proof fn law_error_texts(err: Error)
    ensures
        match err {
            Error::Parse(text) => err.described() == text@ && err.displayed() == "Parse error: "@
                + text@,
            Error::Shred(text) => err.described() == text@ && err.displayed() == "Shred error: "@
                + text@,
            Error::Capnp(inner) => err.described() == capnp_description(inner)
                && err.displayed() == "Capnproto error: "@ + capnp_display(inner),
            Error::Rocks(text) => err.described() == "This is an rocksdb error"@
                && err.displayed() == "RocksDB error: "@ + text@,
        },
{
}

/// An error of Cap'n Proto is kept whole.
pub proof fn law_capnp_kept(inner: CapnpError)
    ensures
        <Error as FromSpec<CapnpError>>::obeys_from_spec(),
        <Error as FromSpec<CapnpError>>::from_spec(inner) == Error::Capnp(inner),
{
}

} // verus!
