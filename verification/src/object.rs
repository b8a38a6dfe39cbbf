//! Objects being put together entry by entry.
use indexmap::IndexMap;
use vstd::prelude::*;

use crate::value::{entry_views, Value, ValueView};

verus! {

/// `indexmap::IndexMap`, a map that keeps the order in which its keys came.
#[verifier::external_type_specification]
#[verifier::external_body]
#[verifier::reject_recursive_types(K)]
#[verifier::reject_recursive_types(V)]
#[verifier::reject_recursive_types(S)]
pub struct ExIndexMap<K, V, S>(indexmap::IndexMap<K, V, S>);

/// What a map from names to values holds, in order.
pub uninterp spec fn object_entries(map: IndexMap<String, Value>) -> Seq<(Seq<char>, ValueView)>;

/// Whether the entry at `index` has the name `name`.
pub open spec fn entry_at(
    entries: Seq<(Seq<char>, ValueView)>,
    name: Seq<char>,
    index: int,
) -> bool {
    0 <= index < entries.len() && entries[index].0 == name
}

/// Entries with one more value: in the place of the entry of that name, or else at the end.
pub open spec fn with_entry(
    entries: Seq<(Seq<char>, ValueView)>,
    name: Seq<char>,
    value: ValueView,
) -> Seq<(Seq<char>, ValueView)> {
    if exists|index: int| entry_at(entries, name, index) {
        entries.update(choose|index: int| entry_at(entries, name, index), (name, value))
    } else {
        entries.push((name, value))
    }
}

/// Whether no two entries have one name.
pub open spec fn distinct_names<T>(entries: Seq<(Seq<char>, T)>) -> bool {
    forall|i: int, j: int|
        0 <= i < j < entries.len() ==> (#[trigger] entries[i]).0 != (#[trigger] entries[j]).0
}

/// Adding a value keeps names distinct: the name has the value, and every other name has the
/// value that it had.
pub proof fn law_with_entry(
    entries: Seq<(Seq<char>, ValueView)>,
    name: Seq<char>,
    value: ValueView,
)
    requires
        distinct_names(entries),
    ensures
        distinct_names(with_entry(entries, name, value)),
        with_entry(entries, name, value).contains((name, value)),
        forall|entry: (Seq<char>, ValueView)|
            entry.0 != name ==> (#[trigger] with_entry(entries, name, value).contains(entry)
                <==> entries.contains(entry)),
{
    let after = with_entry(entries, name, value);
    if exists|index: int| entry_at(entries, name, index) {
        let place = choose|index: int| entry_at(entries, name, index);
        assert(after[place] == (name, value));
        assert forall|i: int, j: int| 0 <= i < j < after.len() implies (#[trigger] after[i]).0 != (
        #[trigger] after[j]).0 by {
            assert(entries[i].0 != entries[j].0);
        }
        assert forall|entry: (Seq<char>, ValueView)| entry.0 != name implies (
        #[trigger] after.contains(entry) <==> entries.contains(entry)) by {
            if after.contains(entry) {
                let i = choose|i: int| 0 <= i < after.len() && after[i] == entry;
                assert(entries[i] == entry);
            }
            if entries.contains(entry) {
                let i = choose|i: int| 0 <= i < entries.len() && entries[i] == entry;
                assert(after[i] == entry);
            }
        }
    } else {
        assert(after[entries.len() as int] == (name, value));
        assert forall|i: int, j: int| 0 <= i < j < after.len() implies (#[trigger] after[i]).0 != (
        #[trigger] after[j]).0 by {
            assert(!entry_at(entries, name, i));
            if j < entries.len() {
                assert(entries[i].0 != entries[j].0);
            }
        }
        assert forall|entry: (Seq<char>, ValueView)| entry.0 != name implies (
        #[trigger] after.contains(entry) <==> entries.contains(entry)) by {
            if after.contains(entry) {
                let i = choose|i: int| 0 <= i < after.len() && after[i] == entry;
                assert(entries[i] == entry);
            }
            if entries.contains(entry) {
                let i = choose|i: int| 0 <= i < entries.len() && entries[i] == entry;
                assert(after[i] == entry);
            }
        }
    }
}

/// Calls `IndexMap::new`. Claimed: the map is empty.
#[verifier::external_body]
pub(crate) fn empty_object() -> (map: IndexMap<String, Value>)
    ensures
        object_entries(map).len() == 0,
{
    IndexMap::new()
}

/// Calls `IndexMap::insert`. Claimed: a name that the map holds keeps its place and gets the new
/// value; any other comes last.
#[verifier::external_body]
pub(crate) fn object_insert(map: &mut IndexMap<String, Value>, name: String, value: Value)
    ensures
        object_entries(*final(map)) == with_entry(object_entries(*old(map)), name@, value.view()),
{
    map.insert(name, value);
}

/// Calls `IndexMap::into_iter`. Claimed: the entries come out in order.
#[verifier::external_body]
pub(crate) fn object_into_entries(map: IndexMap<String, Value>) -> (entries: Vec<(String, Value)>)
    ensures
        entry_views(entries@) == object_entries(map),
{
    map.into_iter().collect()
}

/// Adding a value under a new name puts it at the end; under a name that is there it takes the
/// place of the value, and every other entry stays where it is.
pub proof fn law_with_entry_in_place(
    entries: Seq<(Seq<char>, ValueView)>,
    name: Seq<char>,
    value: ValueView,
)
    requires
        forall|i: int, j: int|
            0 <= i < j < entries.len() ==> (#[trigger] entries[i]).0 != (#[trigger] entries[j]).0,
    ensures
        (forall|i: int| 0 <= i < entries.len() ==> (#[trigger] entries[i]).0 != name)
            ==> with_entry(entries, name, value) == entries.push((name, value)),
        forall|index: int|
            0 <= index < entries.len() && (#[trigger] entries[index]).0 == name ==> with_entry(
                entries,
                name,
                value,
            ) == entries.update(index, (name, value)),
{
    assert forall|index: int|
        0 <= index < entries.len() && (#[trigger] entries[index]).0 == name implies with_entry(
        entries,
        name,
        value,
    ) == entries.update(index, (name, value)) by {
        assert(entry_at(entries, name, index));
        let place = choose|i: int| entry_at(entries, name, i);
        assert(place == index) by {
            if place < index {
                assert(entries[place].0 != entries[index].0);
            } else if index < place {
                assert(entries[index].0 != entries[place].0);
            }
        }
    }
}

/// Names are distinct exactly if no two entries have one name.
pub proof fn law_distinct_names<T>(entries: Seq<(Seq<char>, T)>)
    ensures
        distinct_names(entries) <==> forall|i: int, j: int|
            0 <= i < entries.len() && 0 <= j < entries.len() && (#[trigger] entries[i]).0 == (
            #[trigger] entries[j]).0 ==> i == j,
{
    if distinct_names(entries) {
        assert forall|i: int, j: int|
            0 <= i < entries.len() && 0 <= j < entries.len() && (#[trigger] entries[i]).0 == (
            #[trigger] entries[j]).0 implies i == j by {
            if i < j {
                assert(entries[i].0 != entries[j].0);
            } else if j < i {
                assert(entries[j].0 != entries[i].0);
            }
        }
    }
}

} // verus!
