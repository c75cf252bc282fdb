//! What a query asks for besides its filter: the order of the results, and their form.

use vstd::prelude::*;
use crate::json_value::{JsonValue, JsonView};
use crate::key_builder::{KeyBuilder, Path};

verus! {

/// The direction of an order.
#[derive(Debug, Clone, Copy, PartialEq, Eq, Structural)]
pub enum Sort {
    Asc,
    Desc,
}

impl DeepView for Sort {
    type V = Sort;

    open spec fn deep_view(&self) -> Sort {
        *self
    }
}

/// One key of the order of the results.
#[derive(Debug)]
pub struct SortInfo {
    /// The value in the document that is compared.
    pub kb: KeyBuilder,
    pub sort: Sort,
    /// What stands in for the value where a document has none.
    pub default: JsonValue,
}

/// The mathematical form of a `SortInfo`.
pub struct SortView {
    pub path: Path,
    pub sort: Sort,
    pub default: JsonView,
}

impl DeepView for SortInfo {
    type V = SortView;

    open spec fn deep_view(&self) -> SortView {
        SortView {
            path: self.kb.deep_view(),
            sort: self.sort,
            default: self.default.deep_view(),
        }
    }
}

/// The map from keys to the entries with them. Of several with the same key, the last
/// counts.
pub open spec fn keyed(keys: Seq<Seq<char>>, infos: Seq<SortInfo>) -> Map<Seq<char>, SortInfo>
    decreases keys.len(),
{
    if keys.len() == 0 {
        Map::empty()
    } else {
        keyed(keys.drop_last(), infos.drop_last()).insert(keys.last(), infos.last())
    }
}

/// The keys of entries.
pub open spec fn entry_keys(entries: Seq<(String, SortInfo)>) -> Seq<Seq<char>> {
    Seq::new(entries.len(), |i: int| entries[i].0@)
}

/// The values of entries.
pub open spec fn entry_infos(entries: Seq<(String, SortInfo)>) -> Seq<SortInfo> {
    Seq::new(entries.len(), |i: int| entries[i].1)
}

/// The map has the keys that it was made of.
proof fn lemma_keyed_domain(keys: Seq<Seq<char>>, infos: Seq<SortInfo>, key: Seq<char>)
    ensures
        keyed(keys, infos).dom().contains(key) <==> keys.contains(key),
    decreases keys.len(),
{
    if keys.len() > 0 {
        lemma_keyed_domain(keys.drop_last(), infos.drop_last(), key);
        assert(keys == keys.drop_last().push(keys.last()));
        if keys.contains(key) && key != keys.last() {
            let i = keys.index_of(key);
            assert(keys.drop_last()[i] == key);
        }
        if keys.drop_last().contains(key) {
            let i = keys.drop_last().index_of(key);
            assert(keys[i] == key);
        }
        assert(keys[keys.len() - 1] == keys.last());
    }
}

/// The last of the keys that are `key`.
spec fn last_with(keys: Seq<Seq<char>>, key: Seq<char>) -> int
    decreases keys.len(),
{
    if keys.len() == 0 {
        -1
    } else if keys.last() == key {
        keys.len() - 1
    } else {
        last_with(keys.drop_last(), key)
    }
}

/// The map holds under a key what stands with the last of the keys that are the same.
proof fn lemma_last_with(keys: Seq<Seq<char>>, infos: Seq<SortInfo>, key: Seq<char>)
    requires
        keys.len() == infos.len(),
        keys.contains(key),
    ensures
        ({
            let j = last_with(keys, key);
            &&& 0 <= j < keys.len()
            &&& keys[j] == key
            &&& forall|k: int| j < k < keys.len() ==> #[trigger] keys[k] != key
            &&& keyed(keys, infos)[key] == infos[j]
        }),
    decreases keys.len(),
{
    if keys.last() != key {
        let i = keys.index_of(key);
        assert(keys.drop_last()[i] == key);
        lemma_last_with(keys.drop_last(), infos.drop_last(), key);
        let j = last_with(keys.drop_last(), key);
        assert(infos.drop_last()[j] == infos[j]);
        assert forall|k: int| j < k < keys.len() implies #[trigger] keys[k] != key by {
            if k < keys.len() - 1 {
                assert(keys.drop_last()[k] == keys[k]);
            }
        }
    }
}

/// What is looked up under a key is what was given with the last of the keys that are the
/// same, in all its fields, and no other key is there.
pub proof fn law_last_counts(keys: Seq<Seq<char>>, infos: Seq<SortInfo>, j: int)
    requires
        keys.len() == infos.len(),
        0 <= j < keys.len(),
        forall|k: int| j < k < keys.len() ==> #[trigger] keys[k] != keys[j],
    ensures
        keyed(keys, infos).dom().contains(keys[j]),
        keyed(keys, infos)[keys[j]].kb == infos[j].kb,
        keyed(keys, infos)[keys[j]].sort == infos[j].sort,
        keyed(keys, infos)[keys[j]].default == infos[j].default,
        forall|key: Seq<char>| #[trigger]
            keyed(keys, infos).dom().contains(key) ==> keys.contains(key),
{
    assert(keys.contains(keys[j]));
    lemma_last_with(keys, infos, keys[j]);
    lemma_keyed_domain(keys, infos, keys[j]);
    let last = last_with(keys, keys[j]);
    assert(last == j) by {
        if last < j {
            assert(keys[j] != keys[j]);
        } else if j < last {
            assert(keys[last] != keys[j]);
        }
    }
    assert forall|key: Seq<char>| #[trigger]
        keyed(keys, infos).dom().contains(key) implies keys.contains(key) by {
        lemma_keyed_domain(keys, infos, key);
    }
}

/// Answers whether one of the entries has the key `key`.
fn has_key(entries: &Vec<(String, SortInfo)>, key: &String) -> (r: bool)
    ensures
        r == entry_keys(entries@).contains(key@),
{
    let mut i: usize = 0;
    while i < entries.len()
        invariant
            i <= entries@.len(),
            forall|j: int| 0 <= j < i ==> #[trigger] entry_keys(entries@)[j] != key@,
        decreases entries@.len() - i,
    {
        if entries[i].0 == *key {
            assert(entry_keys(entries@)[i as int] == key@);
            return true;
        }
        i += 1;
    }
    false
}

/// Gives each key of the order the key under which the index holds it, and returns one
/// entry for each of those. Of several with the same one, the last counts.
pub fn sort_map(sort_infos: Vec<SortInfo>, keys: Vec<String>) -> (r: Vec<(String, SortInfo)>)
    requires
        sort_infos@.len() == keys@.len(),
    ensures
        entry_keys(r@).no_duplicates(),
        keyed(entry_keys(r@), entry_infos(r@)) == keyed(keys.deep_view(), sort_infos@),
        forall|i: int|
            0 <= i < r@.len() ==> exists|j: int|
                0 <= j < keys@.len() && #[trigger] keys@[j]@ == (#[trigger] r@[i]).0@ && r@[i].1
                    == sort_infos@[j] && forall|k: int|
                    j < k < keys@.len() ==> #[trigger] keys@[k]@ != r@[i].0@,
        forall|j: int|
            0 <= j < keys@.len() ==> r@.map_values(
                |entry: (String, SortInfo)| entry.0@,
            ).contains((#[trigger] keys@[j])@),
        forall|i: int, j: int|
            0 <= i < j < r@.len() ==> (#[trigger] r@[i]).0@ != (#[trigger] r@[j]).0@,
{
    let ghost all = keyed(keys.deep_view(), sort_infos@);
    let ghost given = keys@;
    let ghost given_keys = keys.deep_view();
    let ghost given_infos = sort_infos@;
    let mut keys = keys;
    let mut sort_infos = sort_infos;
    let mut entries: Vec<(String, SortInfo)> = Vec::new();
    assert(keyed(entry_keys(entries@), entry_infos(entries@)) =~= Map::empty());
    while keys.len() > 0
        invariant
            keys@.len() == sort_infos@.len(),
            given_keys.len() == given.len() == given_infos.len(),
            forall|j: int| 0 <= j < given.len() ==> given_keys[j] == (#[trigger] given[j])@,
            all == keyed(given_keys, given_infos),
            entry_keys(entries@).no_duplicates(),
            all =~= keyed(keys.deep_view(), sort_infos@).union_prefer_right(
                keyed(entry_keys(entries@), entry_infos(entries@)),
            ),
        decreases keys@.len(),
    {
        let ghost before = entries@;
        let ghost left_keys = keys.deep_view();
        let ghost left_infos = sort_infos@;
        if let (Some(key), Some(info)) = (keys.pop(), sort_infos.pop()) {
            assert(keys.deep_view() =~= left_keys.drop_last());
            assert(sort_infos@ =~= left_infos.drop_last());
            assert(left_keys.last() == key@);
            proof {
                lemma_keyed_domain(entry_keys(before), entry_infos(before), key@);
            }
            if !has_key(&entries, &key) {
                entries.push((key, info));
                assert(entry_keys(entries@) =~= entry_keys(before).push(key@));
                assert(entry_infos(entries@) =~= entry_infos(before).push(info));
                assert(entry_keys(entries@).drop_last() =~= entry_keys(before));
                assert(entry_infos(entries@).drop_last() =~= entry_infos(before));
            }
        }
    }
    assert(keyed(keys.deep_view(), sort_infos@) =~= Map::empty());
    proof {
        let found = entry_keys(entries@);
        let infos = entry_infos(entries@);
        assert(keyed(found, infos) == keyed(given_keys, given_infos));
        assert forall|i: int| 0 <= i < entries@.len() implies exists|j: int|
            0 <= j < given.len() && #[trigger] given[j]@ == (#[trigger] entries@[i]).0@
                && entries@[i].1 == given_infos[j] && forall|k: int|
                j < k < given.len() ==> #[trigger] given[k]@ != entries@[i].0@ by {
            let key = found[i];
            assert(found.contains(key));
            lemma_keyed_domain(found, infos, key);
            lemma_keyed_domain(given_keys, given_infos, key);
            lemma_last_with(found, infos, key);
            lemma_last_with(given_keys, given_infos, key);
            let j = last_with(given_keys, key);
            assert(given[j]@ == given_keys[j]);
            assert forall|k: int| j < k < given.len() implies #[trigger] given[k]@
                != entries@[i].0@ by {
                assert(given_keys[k] != key);
            }
            assert(last_with(found, key) == i);
        }
        let names = entries@.map_values(|entry: (String, SortInfo)| entry.0@);
        assert(names =~= found);
        assert forall|j: int| 0 <= j < given.len() implies names.contains((#[trigger] given[j])@) by {
            let key = given_keys[j];
            assert(given_keys.contains(key));
            lemma_keyed_domain(given_keys, given_infos, key);
            lemma_keyed_domain(found, infos, key);
        }
        assert forall|i: int, j: int| 0 <= i < j < entries@.len() implies (#[trigger] entries@[i]).0@
            != (#[trigger] entries@[j]).0@ by {
            assert(found[i] != found[j]);
        }
    }
    entries
}

/// A function over the values of a group of results.
#[derive(Debug, Clone, Copy, PartialEq, Eq, Structural)]
pub enum AggregateFun {
    GroupAsc,
    GroupDesc,
    Sum,
    Max,
    Min,
    List,
    Concat,
    Avg,
    Count,
}

impl DeepView for AggregateFun {
    type V = AggregateFun;

    open spec fn deep_view(&self) -> AggregateFun {
        *self
    }
}

/// A value of the document in a result.
#[derive(Debug)]
pub struct RetValue {
    /// Where the value stands in the document.
    pub kb: KeyBuilder,
    /// The function over the values of a group, and its argument.
    pub ag: Option<(AggregateFun, JsonValue)>,
    /// What stands in for the value where a document has none.
    pub default: JsonValue,
    /// The order of the results by this value.
    pub sort: Option<Sort>,
}

/// An object in a result, by its keys and members.
#[derive(Debug)]
pub struct RetObject {
    pub fields: Vec<(String, Returnable)>,
}

/// An array in a result, by its items.
#[derive(Debug)]
pub struct RetArray {
    pub slots: Vec<Returnable>,
}

/// A fixed value in a result.
#[derive(Debug)]
pub struct RetLiteral {
    pub json: JsonValue,
}

/// The form of a result.
#[derive(Debug)]
pub enum Returnable {
    Value(RetValue),
    Object(RetObject),
    Array(RetArray),
    Literal(RetLiteral),
}

/// The mathematical form of a `Returnable`.
pub enum RetView {
    Value {
        path: Path,
        ag: Option<(AggregateFun, JsonView)>,
        default: JsonView,
        sort: Option<Sort>,
    },
    Object(Seq<(Seq<char>, RetView)>),
    Array(Seq<RetView>),
    Literal(JsonView),
}

/// The mathematical form of `returnable`.
pub open spec fn ret_view(returnable: Returnable) -> RetView
    decreases returnable,
{
    match returnable {
        Returnable::Value(value) => RetView::Value {
            path: value.kb.deep_view(),
            ag: value.ag.deep_view(),
            default: value.default.deep_view(),
            sort: value.sort,
        },
        Returnable::Object(object) => RetView::Object(
            Seq::new(
                object.fields@.len(),
                |i: int|
                    if 0 <= i < object.fields@.len() {
                        (object.fields@[i].0@, ret_view(object.fields@[i].1))
                    } else {
                        (Seq::empty(), RetView::Literal(JsonView::Null))
                    },
            ),
        ),
        Returnable::Array(array) => RetView::Array(
            Seq::new(
                array.slots@.len(),
                |i: int|
                    if 0 <= i < array.slots@.len() {
                        ret_view(array.slots@[i])
                    } else {
                        RetView::Literal(JsonView::Null)
                    },
            ),
        ),
        Returnable::Literal(literal) => RetView::Literal(literal.json.deep_view()),
    }
}

impl DeepView for Returnable {
    type V = RetView;

    open spec fn deep_view(&self) -> RetView {
        ret_view(*self)
    }
}

/// The mathematical form of an object is made of those of its members.
pub broadcast proof fn lemma_ret_object_view(object: RetObject)
    ensures
        #[trigger] ret_view(Returnable::Object(object)) == RetView::Object(
            object.fields.deep_view(),
        ),
{
    assert(ret_view(Returnable::Object(object))->Object_0 =~= object.fields.deep_view());
}

/// The mathematical form of an array is made of those of its items.
pub broadcast proof fn lemma_ret_array_view(array: RetArray)
    ensures
        #[trigger] ret_view(Returnable::Array(array)) == RetView::Array(array.slots.deep_view()),
{
    assert(ret_view(Returnable::Array(array))->Array_0 =~= array.slots.deep_view());
}

} // verus!
