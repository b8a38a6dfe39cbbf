//! Data that is found by its type.
use fnv::FnvHashMap;
use std::any::TypeId;
use std::ops::Deref;
use vstd::prelude::*;
use vstd::string::StringExecFns;

use crate::error::Error;

verus! {

/// `std::any::TypeId`, the identifier of a type.
#[verifier::external_type_specification]
#[verifier::external_body]
pub struct ExTypeId(TypeId);

/// `std::hash::BuildHasherDefault`, which makes the hashers of a map.
#[verifier::external_type_specification]
#[verifier::external_body]
#[verifier::reject_recursive_types(H)]
pub struct ExBuildHasherDefault<H>(std::hash::BuildHasherDefault<H>);

/// `fnv::FnvHasher`, the hasher of an `FnvHashMap`.
#[verifier::external_type_specification]
#[verifier::external_body]
pub struct ExFnvHasher(fnv::FnvHasher);

/// `std::any::TypeId::of`, of which nothing is claimed here beyond that it can be called.
pub assume_specification<T: ?Sized + 'static>[ TypeId::of::<T> ]() -> (id: TypeId);

/// The identifier of a type: what `TypeId::of` returns for it.
pub open spec fn type_key<T: 'static>() -> TypeId {
    choose|id: TypeId| call_ensures(TypeId::of::<T>, (), id)
}

/// Calls `std::any::TypeId::of`. Claimed: every call for one type returns the same identifier.
/// That two types have two identifiers is not stated, since a contract cannot range over types.
#[verifier::external_body]
pub(crate) fn type_id_of<T: 'static>() -> (id: TypeId)
    ensures
        id == type_key::<T>(),
{
    TypeId::of::<T>()
}

/// Calls `FnvHashMap::default`. Claimed: the map is empty.
#[verifier::external_body]
fn empty_map<V>() -> (map: FnvHashMap<TypeId, V>)
    ensures
        map@.dom() == Set::<TypeId>::empty(),
{
    FnvHashMap::default()
}

/// Calls `HashMap::insert` on an `FnvHashMap`. Claimed: the key now holds the value, and every
/// other key is as it was.
#[verifier::external_body]
fn map_insert<V>(map: &mut FnvHashMap<TypeId, V>, key: TypeId, value: V)
    ensures
        final(map)@ == old(map)@.insert(key, value),
{
    map.insert(key, value);
}

/// Calls `HashMap::get` on an `FnvHashMap`. Claimed: it finds what the map holds under the key,
/// and nothing if the map does not hold the key.
#[verifier::external_body]
fn map_get<'a, V>(map: &'a FnvHashMap<TypeId, V>, key: &TypeId) -> (value: Option<&'a V>)
    ensures
        match value {
            Some(value) => map@.contains_key(*key) && *value == map@[*key],
            None => !map@.contains_key(*key),
        },
{
    map.get(key)
}

/// Calls `HashMap::extend` on an `FnvHashMap` with the entries of another. Claimed: the entries
/// of the other map are added, and replace those with the same key.
#[verifier::external_body]
fn map_extend<V>(map: &mut FnvHashMap<TypeId, V>, other: FnvHashMap<TypeId, V>)
    ensures
        final(map)@ == old(map)@.union_prefer_right(other@),
{
    map.extend(other);
}

/// Schema/Context data.
///
/// This is a type map, allowing you to store anything inside it. A value is kept in a form `V`
/// that all types share, under the identifier of its own type.
#[verifier::reject_recursive_types(V)]
pub struct Data<V>(FnvHashMap<TypeId, V>);

impl<V> Data<V> {
    /// What is stored, by the identifier of its type.
    pub closed spec fn view(&self) -> Map<TypeId, V> {
        self.0@
    }
}

impl<V> Default for Data<V> {
    fn default() -> (data: Self)
        ensures
            data@ == Map::<TypeId, V>::empty(),
            data@.dom().finite(),
    {
        let data = Data(empty_map());
        assert(data@ =~= Map::empty());
        data
    }
}

impl<V> Deref for Data<V> {
    type Target = FnvHashMap<TypeId, V>;

    fn deref(&self) -> (map: &FnvHashMap<TypeId, V>)
        ensures
            map@ == self@,
    {
        &self.0
    }
}

impl<V> Data<V> {
    /// Insert data.
    pub fn insert<D: 'static + Send + Sync>(&mut self, data: V)
        ensures
            final(self)@ == old(self)@.insert(type_key::<D>(), data),
            old(self)@.dom().finite() ==> final(self)@.dom().finite() && final(self)@.dom().len()
                == old(self)@.dom().len() + (if old(self)@.contains_key(type_key::<D>()) {
                0int
            } else {
                1
            }),
    {
        map_insert(&mut self.0, type_id_of::<D>(), data);
    }

    /// Adds all the data of another map; what is of a type that is already here replaces it.
    pub fn merge(&mut self, other: Data<V>)
        ensures
            final(self)@ == old(self)@.union_prefer_right(other@),
            old(self)@.dom().finite() && other@.dom().finite() ==> final(self)@.dom().finite(),
    {
        let ghost before = self@;
        map_extend(&mut self.0, other.0);
        assert(self@.dom() =~= before.dom().union(other@.dom()));
    }

    /// The data under a type identifier.
    pub fn find(&self, key: TypeId) -> (data: Option<&V>)
        ensures
            match data {
                Some(data) => self@.contains_key(key) && *data == self@[key],
                None => !self@.contains_key(key),
            },
    {
        map_get(&self.0, &key)
    }

    /// How the map shows itself: its contents are not shown.
    pub fn debug_string(&self) -> (text: String)
        ensures
            text@ == "Data"@,
    {
        "Data".to_owned()
    }
}

/// What is said of data that is not there.
pub open spec fn missing_data_message(described: Seq<char>) -> Seq<char> {
    "Data `"@ + described + "` does not exist."@
}

/// The error for data that is not there.
pub fn missing_data(described: &str) -> (error: Error)
    ensures
        error.message@ == missing_data_message(described@),
        error.message@ == "Data `"@ + described@ + "` does not exist."@,
        error.extensions is None,
{
    let mut message: String = "Data `".to_owned();
    message.append(described);
    message.append("` does not exist.");
    Error::new(message)
}

/// Data related functions of the context.
///
/// A value comes back in the form `V` that all types share.
pub trait DataContext<'a, V: 'a> {
    /// The data that can be seen from here, by the identifier of its type.
    spec fn visible_data(&self) -> Map<TypeId, V>;

    /// Gets the global data defined in the `Context` or `Schema`.
    ///
    /// If both `Schema` and `Query` have the same data type, the data in the
    /// `Query` is obtained.
    ///
    /// # Errors
    ///
    /// Returns a `Error` if the specified type data does not exist. The error calls the type
    /// `described`.
    fn data<D: 'static + Send + Sync>(&self, described: &str) -> (data: Result<&'a V, Error>)
        ensures
            match data {
                Ok(data) => self.visible_data().contains_key(type_key::<D>()) && *data
                    == self.visible_data()[type_key::<D>()],
                Err(error) => !self.visible_data().contains_key(type_key::<D>())
                    && error.message@ == missing_data_message(described@)
                    && error.extensions is None,
            },
    ;

    /// Gets the global data defined in the `Context` or `Schema`, which must be there.
    fn data_unchecked<D: 'static + Send + Sync>(&self) -> (data: &'a V)
        requires
            self.visible_data().contains_key(type_key::<D>()),
        ensures
            *data == self.visible_data()[type_key::<D>()],
    ;

    /// Gets the global data defined in the `Context` or `Schema` or `None` if
    /// the specified type data does not exist.
    fn data_opt<D: 'static + Send + Sync>(&self) -> (data: Option<&'a V>)
        ensures
            match data {
                Some(data) => self.visible_data().contains_key(type_key::<D>()) && *data
                    == self.visible_data()[type_key::<D>()],
                None => !self.visible_data().contains_key(type_key::<D>()),
            },
    ;
}

/// What was inserted last for a type is what is found for it, and data of any other type stays as
/// it was.
pub proof fn law_insert_is_found<V>(before: Map<TypeId, V>, key: TypeId, data: V, other: TypeId)
    ensures
        before.insert(key, data).contains_key(key),
        before.insert(key, data)[key] == data,
        other != key ==> before.insert(key, data).contains_key(other) == before.contains_key(other),
        other != key && before.contains_key(other) ==> before.insert(key, data)[other]
            == before[other],
{
}

/// Merging prefers the data that is added, and loses none of the rest.
pub proof fn law_merge_prefers_added<V>(
    before: Map<TypeId, V>,
    added: Map<TypeId, V>,
    key: TypeId,
)
    ensures
        added.contains_key(key) ==> before.union_prefer_right(added).contains_key(key)
            && before.union_prefer_right(added)[key] == added[key],
        !added.contains_key(key) && before.contains_key(key) ==> before.union_prefer_right(
            added,
        ).contains_key(key) && before.union_prefer_right(added)[key] == before[key],
        !added.contains_key(key) && !before.contains_key(key) ==> !before.union_prefer_right(
            added,
        ).contains_key(key),
{
}

/// Inserting data adds an entry exactly if there was no data of that type.
pub proof fn law_insert_size<V>(before: Map<TypeId, V>, key: TypeId, data: V)
    requires
        before.dom().finite(),
    ensures
        before.insert(key, data).dom().finite(),
        before.insert(key, data).dom().len() == before.dom().len() + (if before.contains_key(key) {
            0int
        } else {
            1
        }),
{
    assert(before.insert(key, data).dom() =~= before.dom().insert(key));
}

/// Whether every value is stored under its own type, where `type_of` tells the type of a value.
pub open spec fn well_typed<V>(data: Map<TypeId, V>, type_of: spec_fn(V) -> TypeId) -> bool {
    forall|key: TypeId| #[trigger] data.contains_key(key) ==> type_of(data[key]) == key
}

/// As long as each value is inserted under its own type, every value is stored under its own type:
/// nothing is to begin with, and neither inserting nor merging ends it.
pub proof fn law_data_stays_well_typed<V>(
    before: Map<TypeId, V>,
    data: V,
    added: Map<TypeId, V>,
    type_of: spec_fn(V) -> TypeId,
)
    requires
        well_typed(before, type_of),
        well_typed(added, type_of),
    ensures
        well_typed(Map::<TypeId, V>::empty(), type_of),
        well_typed(before.insert(type_of(data), data), type_of),
        well_typed(before.union_prefer_right(added), type_of),
{
}

} // verus!
