//! Values of a request: what a client may write, and what it stands for.
use vstd::prelude::*;

use crate::object::distinct_names;
use crate::scope::Scope;

verus! {

/// A value as a client writes it: it may hold variables.
#[derive(Debug)]
pub enum InputValue {
    /// A variable, without the leading `$`.
    Variable(String),
    /// `null`.
    Null,
    /// A number, as its JSON text.
    Number(String),
    /// A string.
    String(String),
    /// A boolean.
    Boolean(bool),
    /// A binary.
    Binary(Vec<u8>),
    /// An enum value.
    Enum(String),
    /// A list of values.
    List(Vec<InputValue>),
    /// An object: names and values, in the order they were written. A parsed one is
    /// [`written_once`].
    Object(Vec<(String, InputValue)>),
}

/// A value without variables.
#[derive(Debug)]
pub enum Value {
    /// `null`.
    Null,
    /// A number, as its JSON text.
    Number(String),
    /// A string.
    String(String),
    /// A boolean.
    Boolean(bool),
    /// A binary.
    Binary(Vec<u8>),
    /// An enum value.
    Enum(String),
    /// A list of values.
    List(Vec<Value>),
    /// An object: names and values, in order. One without repeated names is [`named_once`].
    Object(Vec<(String, Value)>),
}

/// The mathematical form of an [`InputValue`].
pub enum InputView {
    Variable(Seq<char>),
    Null,
    Number(Seq<char>),
    String(Seq<char>),
    Boolean(bool),
    Binary(Seq<u8>),
    Enum(Seq<char>),
    List(Seq<InputView>),
    Object(Seq<(Seq<char>, InputView)>),
}

/// The mathematical form of a [`Value`].
pub enum ValueView {
    Null,
    Number(Seq<char>),
    String(Seq<char>),
    Boolean(bool),
    Binary(Seq<u8>),
    Enum(Seq<char>),
    List(Seq<ValueView>),
    Object(Seq<(Seq<char>, ValueView)>),
}

impl InputValue {
    /// The value with its strings and vectors read as sequences.
    pub open spec fn view(&self) -> InputView
        decreases self,
    {
        match self {
            InputValue::Variable(name) => InputView::Variable(name@),
            InputValue::Null => InputView::Null,
            InputValue::Number(text) => InputView::Number(text@),
            InputValue::String(text) => InputView::String(text@),
            InputValue::Boolean(truth) => InputView::Boolean(*truth),
            InputValue::Binary(bytes) => InputView::Binary(bytes@),
            InputValue::Enum(name) => InputView::Enum(name@),
            InputValue::List(items) => InputView::List(
                Seq::new(
                    items@.len(),
                    |i: int|
                        if 0 <= i < items@.len() {
                            items@[i].view()
                        } else {
                            InputView::Null
                        },
                ),
            ),
            InputValue::Object(entries) => InputView::Object(
                Seq::new(
                    entries@.len(),
                    |i: int|
                        if 0 <= i < entries@.len() {
                            (entries@[i].0@, entries@[i].1.view())
                        } else {
                            (Seq::empty(), InputView::Null)
                        },
                ),
            ),
        }
    }
}

impl Value {
    /// The value with its strings and vectors read as sequences.
    pub open spec fn view(&self) -> ValueView
        decreases self,
    {
        match self {
            Value::Null => ValueView::Null,
            Value::Number(text) => ValueView::Number(text@),
            Value::String(text) => ValueView::String(text@),
            Value::Boolean(truth) => ValueView::Boolean(*truth),
            Value::Binary(bytes) => ValueView::Binary(bytes@),
            Value::Enum(name) => ValueView::Enum(name@),
            Value::List(items) => ValueView::List(
                Seq::new(
                    items@.len(),
                    |i: int|
                        if 0 <= i < items@.len() {
                            items@[i].view()
                        } else {
                            ValueView::Null
                        },
                ),
            ),
            Value::Object(entries) => ValueView::Object(
                Seq::new(
                    entries@.len(),
                    |i: int|
                        if 0 <= i < entries@.len() {
                            (entries@[i].0@, entries@[i].1.view())
                        } else {
                            (Seq::empty(), ValueView::Null)
                        },
                ),
            ),
        }
    }
}

/// The entries of an object, read as sequences.
pub open spec fn entry_views(entries: Seq<(String, Value)>) -> Seq<(Seq<char>, ValueView)> {
    Seq::new(entries.len(), |i: int| (entries[i].0@, entries[i].1.view()))
}

/// The mathematical form of a value that may be absent.
pub open spec fn optional_view(value: Option<Value>) -> Option<ValueView> {
    match value {
        Some(value) => Some(value.view()),
        None => None,
    }
}

impl Value {
    /// An object holds exactly its entries.
    pub proof fn lemma_object_view(entries: Vec<(String, Value)>)
        ensures
            Value::Object(entries).view() == ValueView::Object(entry_views(entries@)),
    {
        assert(Value::Object(entries).view()->Object_0 =~= entry_views(entries@));
    }
}

/// Copies a byte vector.
fn copy_bytes(bytes: &Vec<u8>) -> (copy: Vec<u8>)
    ensures
        copy@ == bytes@,
{
    let mut copy: Vec<u8> = Vec::new();
    copy.extend_from_slice(bytes.as_slice());
    assert(copy@ =~= bytes@);
    copy
}

impl Value {
    fn deep_copy(&self) -> (copy: Value)
        ensures
            copy.view() == self.view(),
        decreases self,
    {
        match self {
            Value::Null => Value::Null,
            Value::Number(text) => Value::Number(text.clone()),
            Value::String(text) => Value::String(text.clone()),
            Value::Boolean(truth) => Value::Boolean(*truth),
            Value::Binary(bytes) => Value::Binary(copy_bytes(bytes)),
            Value::Enum(name) => Value::Enum(name.clone()),
            Value::List(items) => {
                let mut copies: Vec<Value> = Vec::new();
                let count: usize = items.len();
                for i in 0..count
                    invariant
                        count == items@.len(),
                        copies@.len() == i,
                        forall|j: int|
                            0 <= j < i ==> (#[trigger] copies@[j]).view() == items@[j].view(),
                        decreases_to!(self => items),
                {
                    copies.push(items[i].deep_copy());
                }
                assert(Value::List(copies).view()->List_0 =~= self.view()->List_0);
                Value::List(copies)
            },
            Value::Object(entries) => {
                let mut copies: Vec<(String, Value)> = Vec::new();
                let count: usize = entries.len();
                for i in 0..count
                    invariant
                        count == entries@.len(),
                        copies@.len() == i,
                        forall|j: int|
                            0 <= j < i ==> (#[trigger] copies@[j]).0@ == entries@[j].0@
                                && copies@[j].1.view() == entries@[j].1.view(),
                        decreases_to!(self => entries),
                {
                    assert(decreases_to!(self => entries@[i as int].1));
                    copies.push((entries[i].0.clone(), entries[i].1.deep_copy()));
                }
                assert(Value::Object(copies).view()->Object_0 =~= self.view()->Object_0);
                Value::Object(copies)
            },
        }
    }
}

impl Clone for Value {
    fn clone(&self) -> (copy: Self)
        ensures
            copy.view() == self.view(),
    {
        self.deep_copy()
    }
}

/// What each variable stands for; `None` for a variable without a value.
pub type Bindings = spec_fn(Seq<char>) -> Option<ValueView>;

/// A value with every variable replaced by what it stands for, or the first variable, reading
/// from left to right, that stands for nothing.
pub open spec fn substitute(value: InputView, bindings: Bindings) -> Result<ValueView, Seq<char>>
    decreases value,
{
    match value {
        InputView::Variable(name) => match bindings(name) {
            Some(bound) => Ok(bound),
            None => Err(name),
        },
        InputView::Null => Ok(ValueView::Null),
        InputView::Number(text) => Ok(ValueView::Number(text)),
        InputView::String(text) => Ok(ValueView::String(text)),
        InputView::Boolean(truth) => Ok(ValueView::Boolean(truth)),
        InputView::Binary(bytes) => Ok(ValueView::Binary(bytes)),
        InputView::Enum(name) => Ok(ValueView::Enum(name)),
        InputView::List(items) => match substitute_items(items, bindings) {
            Ok(values) => Ok(ValueView::List(values)),
            Err(name) => Err(name),
        },
        InputView::Object(entries) => match substitute_entries(entries, bindings) {
            Ok(values) => Ok(ValueView::Object(values)),
            Err(name) => Err(name),
        },
    }
}

/// The items of a list with their variables replaced.
pub open spec fn substitute_items(items: Seq<InputView>, bindings: Bindings) -> Result<
    Seq<ValueView>,
    Seq<char>,
>
    decreases items,
{
    if items.len() == 0 {
        Ok(Seq::empty())
    } else {
        match substitute_items(items.drop_last(), bindings) {
            Ok(values) => match substitute(items.last(), bindings) {
                Ok(value) => Ok(values.push(value)),
                Err(name) => Err(name),
            },
            Err(name) => Err(name),
        }
    }
}

/// The entries of an object with their variables replaced.
pub open spec fn substitute_entries(
    entries: Seq<(Seq<char>, InputView)>,
    bindings: Bindings,
) -> Result<Seq<(Seq<char>, ValueView)>, Seq<char>>
    decreases entries,
{
    if entries.len() == 0 {
        Ok(Seq::empty())
    } else {
        match substitute_entries(entries.drop_last(), bindings) {
            Ok(values) => match substitute(entries.last().1, bindings) {
                Ok(value) => Ok(values.push((entries.last().0, value))),
                Err(name) => Err(name),
            },
            Err(name) => Err(name),
        }
    }
}

/// A prefix of a list fails exactly as the list does.
proof fn lemma_items_prefix(items: Seq<InputView>, count: int, bindings: Bindings)
    requires
        0 <= count <= items.len(),
        substitute_items(items.take(count), bindings) is Err,
    ensures
        substitute_items(items, bindings) == substitute_items(items.take(count), bindings),
    decreases items.len() - count,
{
    if count < items.len() {
        assert(items.take(count + 1).drop_last() =~= items.take(count));
        lemma_items_prefix(items, count + 1, bindings);
    } else {
        assert(items.take(count) =~= items);
    }
}

/// A prefix of an object fails exactly as the object does.
proof fn lemma_entries_prefix(
    entries: Seq<(Seq<char>, InputView)>,
    count: int,
    bindings: Bindings,
)
    requires
        0 <= count <= entries.len(),
        substitute_entries(entries.take(count), bindings) is Err,
    ensures
        substitute_entries(entries, bindings) == substitute_entries(entries.take(count), bindings),
    decreases entries.len() - count,
{
    if count < entries.len() {
        assert(entries.take(count + 1).drop_last() =~= entries.take(count));
        lemma_entries_prefix(entries, count + 1, bindings);
    } else {
        assert(entries.take(count) =~= entries);
    }
}

/// The list of the views of some values.
pub open spec fn item_views(items: Seq<Value>) -> Seq<ValueView> {
    Seq::new(items.len(), |i: int| items[i].view())
}

impl InputValue {
    /// Replaces every variable by what `scope` holds for it.
    pub fn into_const_with(&self, scope: &Scope) -> (outcome: Result<Value, String>)
        ensures
            match substitute(self.view(), scope.bindings()) {
                Ok(value) => outcome matches Ok(found) && found.view() == value,
                Err(name) => outcome matches Err(missing) && missing@ == name,
            },
        decreases self,
    {
        match self {
            InputValue::Variable(name) => match scope.value_of(name.as_str()) {
                Some(value) => Ok(value),
                None => Err(name.clone()),
            },
            InputValue::Null => Ok(Value::Null),
            InputValue::Number(text) => Ok(Value::Number(text.clone())),
            InputValue::String(text) => Ok(Value::String(text.clone())),
            InputValue::Boolean(truth) => Ok(Value::Boolean(*truth)),
            InputValue::Binary(bytes) => Ok(Value::Binary(copy_bytes(bytes))),
            InputValue::Enum(name) => Ok(Value::Enum(name.clone())),
            InputValue::List(items) => {
                let ghost views = self.view()->List_0;
                let mut values: Vec<Value> = Vec::new();
                let count: usize = items.len();
                assert(views.take(0) =~= Seq::empty());
                assert(item_views(values@) =~= Seq::empty());
                for i in 0..count
                    invariant
                        count == items@.len() == views.len(),
                        self.view() == InputView::List(views),
                        forall|j: int| 0 <= j < count ==> #[trigger] views[j] == items@[j].view(),
                        substitute_items(views.take(i as int), scope.bindings()) == Ok::<
                            Seq<ValueView>,
                            Seq<char>,
                        >(item_views(values@)),
                        decreases_to!(self => items),
                {
                    assert(views.take(i + 1).drop_last() =~= views.take(i as int));
                    assert(views.take(i + 1).last() == items@[i as int].view());
                    match items[i].into_const_with(scope) {
                        Ok(value) => {
                            let ghost before = values@;
                            values.push(value);
                            assert(item_views(values@) =~= item_views(before).push(value.view()));
                        },
                        Err(name) => {
                            proof {
                                lemma_items_prefix(views, i + 1, scope.bindings());
                            }
                            return Err(name);
                        },
                    }
                }
                assert(views.take(count as int) =~= views);
                assert(Value::List(values).view()->List_0 =~= item_views(values@));
                Ok(Value::List(values))
            },
            InputValue::Object(entries) => {
                let ghost views = self.view()->Object_0;
                let mut values: Vec<(String, Value)> = Vec::new();
                let count: usize = entries.len();
                assert(views.take(0) =~= Seq::empty());
                assert(entry_views(values@) =~= Seq::empty());
                for i in 0..count
                    invariant
                        count == entries@.len() == views.len(),
                        self.view() == InputView::Object(views),
                        forall|j: int|
                            0 <= j < count ==> #[trigger] views[j] == (
                                entries@[j].0@,
                                entries@[j].1.view(),
                            ),
                        substitute_entries(views.take(i as int), scope.bindings()) == Ok::<
                            Seq<(Seq<char>, ValueView)>,
                            Seq<char>,
                        >(entry_views(values@)),
                        decreases_to!(self => entries),
                {
                    assert(views.take(i + 1).drop_last() =~= views.take(i as int));
                    assert(views.take(i + 1).last() == views[i as int]);
                    assert(decreases_to!(self => entries@[i as int].1));
                    match entries[i].1.into_const_with(scope) {
                        Ok(value) => {
                            let ghost before = values@;
                            let name: String = entries[i].0.clone();
                            values.push((name, value));
                            assert(entry_views(values@) =~= entry_views(before).push(
                                (name@, value.view()),
                            ));
                        },
                        Err(name) => {
                            proof {
                                lemma_entries_prefix(views, i + 1, scope.bindings());
                            }
                            return Err(name);
                        },
                    }
                }
                assert(views.take(count as int) =~= views);
                proof {
                    Value::lemma_object_view(values);
                }
                Ok(Value::Object(values))
            },
        }
    }
}

/// Whether a variable occurs in a value.
pub open spec fn mentions(value: InputView, name: Seq<char>) -> bool
    decreases value,
{
    match value {
        InputView::Variable(variable) => variable == name,
        InputView::List(items) => exists|i: int|
            0 <= i < items.len() && mentions(#[trigger] items[i], name),
        InputView::Object(entries) => exists|i: int|
            0 <= i < entries.len() && mentions((#[trigger] entries[i]).1, name),
        _ => false,
    }
}

/// A value can be resolved exactly if every variable in it stands for something; otherwise the
/// variable that is named does occur in it, and stands for nothing.
pub proof fn law_substitute_needs_its_variables(value: InputView, bindings: Bindings)
    ensures
        substitute(value, bindings) is Ok <==> forall|name: Seq<char>| #[trigger]
            mentions(value, name) ==> bindings(name) is Some,
        substitute(value, bindings) matches Err(name) ==> mentions(value, name) && bindings(name)
            is None,
    decreases value,
{
    match value {
        InputView::Variable(variable) => {
            assert(mentions(value, variable));
        },
        InputView::List(items) => {
            lemma_items_need_their_variables(items, bindings);
            if substitute(value, bindings) is Ok {
                assert forall|name: Seq<char>| #[trigger] mentions(value, name) implies bindings(
                    name,
                ) is Some by {
                    let i = choose|i: int|
                        0 <= i < items.len() && mentions(#[trigger] items[i], name);
                    assert(mentions(items[i], name));
                }
            }
            assert forall|i: int, name: Seq<char>|
                0 <= i < items.len() && #[trigger] mentions(items[i], name) implies mentions(
                value,
                name,
            ) by {}
        },
        InputView::Object(entries) => {
            lemma_entries_need_their_variables(entries, bindings);
            if substitute(value, bindings) is Ok {
                assert forall|name: Seq<char>| #[trigger] mentions(value, name) implies bindings(
                    name,
                ) is Some by {
                    let i = choose|i: int|
                        0 <= i < entries.len() && mentions((#[trigger] entries[i]).1, name);
                    assert(mentions(entries[i].1, name));
                }
            }
            assert forall|i: int, name: Seq<char>|
                0 <= i < entries.len() && #[trigger] mentions(entries[i].1, name) implies mentions(
                value,
                name,
            ) by {}
        },
        _ => {},
    }
}

proof fn lemma_items_need_their_variables(items: Seq<InputView>, bindings: Bindings)
    ensures
        substitute_items(items, bindings) is Ok <==> forall|i: int, name: Seq<char>|
            0 <= i < items.len() && #[trigger] mentions(items[i], name) ==> bindings(name) is Some,
        substitute_items(items, bindings) matches Err(name) ==> bindings(name) is None
            && exists|i: int| 0 <= i < items.len() && mentions(#[trigger] items[i], name),
    decreases items,
{
    if items.len() > 0 {
        let earlier = items.drop_last();
        lemma_items_need_their_variables(earlier, bindings);
        assert(decreases_to!(items => items[items.len() - 1]));
        law_substitute_needs_its_variables(items.last(), bindings);
        assert forall|i: int| 0 <= i < earlier.len() implies #[trigger] earlier[i] == items[i] by {}
        if substitute_items(items, bindings) is Ok {
            assert forall|i: int, name: Seq<char>|
                0 <= i < items.len() && #[trigger] mentions(items[i], name) implies bindings(name)
                is Some by {
                if i < earlier.len() {
                    assert(mentions(earlier[i], name));
                }
            }
        }
        if substitute_items(earlier, bindings) is Err {
            let name = substitute_items(earlier, bindings)->Err_0;
            let i = choose|i: int| 0 <= i < earlier.len() && mentions(#[trigger] earlier[i], name);
            assert(mentions(items[i], name));
        } else if substitute(items.last(), bindings) is Err {
            assert(mentions(items[items.len() - 1], substitute(items.last(), bindings)->Err_0));
        }
    }
}

proof fn lemma_entries_need_their_variables(
    entries: Seq<(Seq<char>, InputView)>,
    bindings: Bindings,
)
    ensures
        substitute_entries(entries, bindings) is Ok <==> forall|i: int, name: Seq<char>|
            0 <= i < entries.len() && #[trigger] mentions(entries[i].1, name) ==> bindings(name)
                is Some,
        substitute_entries(entries, bindings) matches Err(name) ==> bindings(name) is None
            && exists|i: int| 0 <= i < entries.len() && mentions((#[trigger] entries[i]).1, name),
    decreases entries,
{
    if entries.len() > 0 {
        let earlier = entries.drop_last();
        lemma_entries_need_their_variables(earlier, bindings);
        assert(decreases_to!(entries => entries[entries.len() - 1]));
        law_substitute_needs_its_variables(entries.last().1, bindings);
        assert forall|i: int| 0 <= i < earlier.len() implies #[trigger] earlier[i]
            == entries[i] by {}
        if substitute_entries(entries, bindings) is Ok {
            assert forall|i: int, name: Seq<char>|
                0 <= i < entries.len() && #[trigger] mentions(entries[i].1, name) implies bindings(
                name,
            ) is Some by {
                if i < earlier.len() {
                    assert(mentions(earlier[i].1, name));
                }
            }
        }
        if substitute_entries(earlier, bindings) is Err {
            let name = substitute_entries(earlier, bindings)->Err_0;
            let i = choose|i: int|
                0 <= i < earlier.len() && mentions((#[trigger] earlier[i]).1, name);
            assert(mentions(entries[i].1, name));
        } else if substitute(entries.last().1, bindings) is Err {
            assert(mentions(
                entries[entries.len() - 1].1,
                substitute(entries.last().1, bindings)->Err_0,
            ));
        }
    }
}

/// Only the variables that occur in a value matter to what it stands for.
pub proof fn law_substitute_ignores_other_variables(
    value: InputView,
    left: Bindings,
    right: Bindings,
)
    requires
        forall|name: Seq<char>| #[trigger] mentions(value, name) ==> left(name) == right(name),
    ensures
        substitute(value, left) == substitute(value, right),
    decreases value,
{
    match value {
        InputView::Variable(variable) => {
            assert(mentions(value, variable));
        },
        InputView::List(items) => {
            assert forall|i: int, name: Seq<char>|
                0 <= i < items.len() && #[trigger] mentions(items[i], name) implies left(name)
                == right(name) by {
                assert(mentions(value, name));
            }
            lemma_items_ignore_other_variables(items, left, right);
        },
        InputView::Object(entries) => {
            assert forall|i: int, name: Seq<char>|
                0 <= i < entries.len() && #[trigger] mentions(entries[i].1, name) implies left(name)
                == right(name) by {
                assert(mentions(value, name));
            }
            lemma_entries_ignore_other_variables(entries, left, right);
        },
        _ => {},
    }
}

proof fn lemma_items_ignore_other_variables(
    items: Seq<InputView>,
    left: Bindings,
    right: Bindings,
)
    requires
        forall|i: int, name: Seq<char>|
            0 <= i < items.len() && #[trigger] mentions(items[i], name) ==> left(name) == right(
                name,
            ),
    ensures
        substitute_items(items, left) == substitute_items(items, right),
    decreases items,
{
    if items.len() > 0 {
        let earlier = items.drop_last();
        assert forall|i: int, name: Seq<char>|
            0 <= i < earlier.len() && #[trigger] mentions(earlier[i], name) implies left(name)
            == right(name) by {
            assert(mentions(items[i], name));
        }
        lemma_items_ignore_other_variables(earlier, left, right);
        let last = items[items.len() - 1];
        assert(decreases_to!(items => items[items.len() - 1]));
        law_substitute_ignores_other_variables(last, left, right);
    }
}

proof fn lemma_entries_ignore_other_variables(
    entries: Seq<(Seq<char>, InputView)>,
    left: Bindings,
    right: Bindings,
)
    requires
        forall|i: int, name: Seq<char>|
            0 <= i < entries.len() && #[trigger] mentions(entries[i].1, name) ==> left(name)
                == right(name),
    ensures
        substitute_entries(entries, left) == substitute_entries(entries, right),
    decreases entries,
{
    if entries.len() > 0 {
        let earlier = entries.drop_last();
        assert forall|i: int, name: Seq<char>|
            0 <= i < earlier.len() && #[trigger] mentions(earlier[i].1, name) implies left(name)
            == right(name) by {
            assert(mentions(entries[i].1, name));
        }
        lemma_entries_ignore_other_variables(earlier, left, right);
        let last = entries[entries.len() - 1];
        assert(decreases_to!(entries => entries[entries.len() - 1]));
        law_substitute_ignores_other_variables(last.1, left, right);
    }
}

/// A list keeps its length, and each of its items stands for what it stands for alone.
pub proof fn law_substitute_items_one_by_one(items: Seq<InputView>, bindings: Bindings)
    ensures
        substitute_items(items, bindings) matches Ok(values) ==> {
            &&& values.len() == items.len()
            &&& forall|i: int|
                0 <= i < items.len() ==> substitute(#[trigger] items[i], bindings) == Ok::<
                    ValueView,
                    Seq<char>,
                >(values[i])
        },
    decreases items.len(),
{
    if items.len() > 0 {
        let earlier = items.drop_last();
        law_substitute_items_one_by_one(earlier, bindings);
        if let Ok(values) = substitute_items(items, bindings) {
            assert forall|i: int| 0 <= i < items.len() implies substitute(
                #[trigger] items[i],
                bindings,
            ) == Ok::<ValueView, Seq<char>>(values[i]) by {
                if i < earlier.len() {
                    assert(earlier[i] == items[i]);
                }
            }
        }
    }
}

/// An object keeps its names and their order, and each of its values stands for what it stands
/// for alone.
pub proof fn law_substitute_entries_one_by_one(
    entries: Seq<(Seq<char>, InputView)>,
    bindings: Bindings,
)
    ensures
        substitute_entries(entries, bindings) matches Ok(values) ==> {
            &&& values.len() == entries.len()
            &&& forall|i: int|
                0 <= i < entries.len() ==> (#[trigger] entries[i]).0 == values[i].0 && substitute(
                    entries[i].1,
                    bindings,
                ) == Ok::<ValueView, Seq<char>>(values[i].1)
        },
    decreases entries.len(),
{
    if entries.len() > 0 {
        let earlier = entries.drop_last();
        law_substitute_entries_one_by_one(earlier, bindings);
        if let Ok(values) = substitute_entries(entries, bindings) {
            assert forall|i: int| 0 <= i < entries.len() implies (#[trigger] entries[i]).0
                == values[i].0 && substitute(entries[i].1, bindings) == Ok::<ValueView, Seq<char>>(
                values[i].1,
            ) by {
                if i < earlier.len() {
                    assert(earlier[i] == entries[i]);
                }
            }
        }
    }
}

/// A value without variables stands for the same in every scope.
pub proof fn law_constant_value(value: InputView, left: Bindings, right: Bindings)
    requires
        forall|name: Seq<char>| !mentions(value, name),
    ensures
        substitute(value, left) is Ok,
        substitute(value, left) == substitute(value, right),
{
    law_substitute_needs_its_variables(value, left);
    law_substitute_ignores_other_variables(value, left, right);
}

/// Whether no object in a value as it was written has two entries of one name.
pub open spec fn written_once(value: InputView) -> bool
    decreases value,
{
    match value {
        InputView::List(items) => forall|i: int|
            0 <= i < items.len() ==> written_once(#[trigger] items[i]),
        InputView::Object(entries) => {
            &&& distinct_names(entries)
            &&& forall|i: int| 0 <= i < entries.len() ==> written_once((#[trigger] entries[i]).1)
        },
        _ => true,
    }
}

/// Whether no object in a value has two entries of one name.
pub open spec fn named_once(value: ValueView) -> bool
    decreases value,
{
    match value {
        ValueView::List(items) => forall|i: int|
            0 <= i < items.len() ==> named_once(#[trigger] items[i]),
        ValueView::Object(entries) => {
            &&& distinct_names(entries)
            &&& forall|i: int| 0 <= i < entries.len() ==> named_once((#[trigger] entries[i]).1)
        },
        _ => true,
    }
}

/// Replacing variables gives no object two entries of one name, unless it was written so or a
/// variable stands for such a value.
pub proof fn law_substitute_names_once(value: InputView, bindings: Bindings)
    requires
        written_once(value),
        forall|name: Seq<char>| #[trigger]
            bindings(name) matches Some(bound) ==> named_once(bound),
    ensures
        substitute(value, bindings) matches Ok(found) ==> named_once(found),
    decreases value,
{
    match value {
        InputView::Variable(name) => {
            assert(bindings(name) matches Some(bound) ==> named_once(bound));
        },
        InputView::List(items) => {
            law_substitute_items_one_by_one(items, bindings);
            if let Ok(values) = substitute_items(items, bindings) {
                assert forall|i: int| 0 <= i < values.len() implies named_once(
                    #[trigger] values[i],
                ) by {
                    assert(decreases_to!(items => items[i]));
                    assert(substitute(items[i], bindings) == Ok::<ValueView, Seq<char>>(values[i]));
                    law_substitute_names_once(items[i], bindings);
                }
            }
        },
        InputView::Object(entries) => {
            law_substitute_entries_one_by_one(entries, bindings);
            if let Ok(values) = substitute_entries(entries, bindings) {
                assert forall|i: int| 0 <= i < values.len() implies named_once(
                    (#[trigger] values[i]).1,
                ) by {
                    assert(decreases_to!(entries => entries[i]));
                    assert(entries[i].0 == values[i].0);
                    law_substitute_names_once(entries[i].1, bindings);
                }
                assert forall|i: int, j: int| 0 <= i < j < values.len() implies (
                #[trigger] values[i]).0 != (#[trigger] values[j]).0 by {
                    assert(entries[i].0 == values[i].0);
                    assert(entries[j].0 == values[j].0);
                }
            }
        },
        _ => {},
    }
}

/// A value without variables is read as what it is: of the same kind and with the same content.
pub proof fn law_value_view(value: Value)
    ensures
        match value {
            Value::Null => value.view() == ValueView::Null,
            Value::Number(text) => value.view() == ValueView::Number(text@),
            Value::String(text) => value.view() == ValueView::String(text@),
            Value::Boolean(truth) => value.view() == ValueView::Boolean(truth),
            Value::Binary(bytes) => value.view() == ValueView::Binary(bytes@),
            Value::Enum(name) => value.view() == ValueView::Enum(name@),
            Value::List(items) => {
                &&& value.view() matches ValueView::List(views)
                &&& views.len() == items@.len()
                &&& forall|i: int| 0 <= i < items@.len() ==> #[trigger] views[i] == items@[i].view()
            },
            Value::Object(entries) => {
                &&& value.view() matches ValueView::Object(views)
                &&& views.len() == entries@.len()
                &&& forall|i: int|
                    0 <= i < entries@.len() ==> (#[trigger] views[i]).0 == entries@[i].0@
                        && views[i].1 == entries@[i].1.view()
            },
        },
{
}

/// A value as it was written is read as what it is: of the same kind and with the same content.
pub proof fn law_input_view(value: InputValue)
    ensures
        match value {
            InputValue::Variable(name) => value.view() == InputView::Variable(name@),
            InputValue::Null => value.view() == InputView::Null,
            InputValue::Number(text) => value.view() == InputView::Number(text@),
            InputValue::String(text) => value.view() == InputView::String(text@),
            InputValue::Boolean(truth) => value.view() == InputView::Boolean(truth),
            InputValue::Binary(bytes) => value.view() == InputView::Binary(bytes@),
            InputValue::Enum(name) => value.view() == InputView::Enum(name@),
            InputValue::List(items) => {
                &&& value.view() matches InputView::List(views)
                &&& views.len() == items@.len()
                &&& forall|i: int| 0 <= i < items@.len() ==> #[trigger] views[i] == items@[i].view()
            },
            InputValue::Object(entries) => {
                &&& value.view() matches InputView::Object(views)
                &&& views.len() == entries@.len()
                &&& forall|i: int|
                    0 <= i < entries@.len() ==> (#[trigger] views[i]).0 == entries@[i].0@
                        && views[i].1 == entries@[i].1.view()
            },
        },
{
}

/// Lists of values and entries are read one by one, and an absent value as absent.
pub proof fn law_views_one_by_one(
    items: Seq<Value>,
    entries: Seq<(String, Value)>,
    value: Option<Value>,
)
    ensures
        item_views(items).len() == items.len(),
        forall|i: int| 0 <= i < items.len() ==> #[trigger] item_views(items)[i] == items[i].view(),
        entry_views(entries).len() == entries.len(),
        forall|i: int|
            0 <= i < entries.len() ==> (#[trigger] entry_views(entries)[i]).0 == entries[i].0@
                && entry_views(entries)[i].1 == entries[i].1.view(),
        value matches Some(given) ==> optional_view(value) == Some(given.view()),
        value is None ==> optional_view(value) is None,
{
}

/// A variable stands for exactly what the bindings hold for it, and every literal stays as it was
/// written: null, a number, a string, a boolean, a binary and an enum value each for themselves.
pub proof fn law_substitute_leaf(value: InputView, bindings: Bindings)
    ensures
        match value {
            InputView::Variable(name) => match bindings(name) {
                Some(bound) => substitute(value, bindings) == Ok::<ValueView, Seq<char>>(bound),
                None => substitute(value, bindings) == Err::<ValueView, Seq<char>>(name),
            },
            InputView::Null => substitute(value, bindings) == Ok::<ValueView, Seq<char>>(
                ValueView::Null,
            ),
            InputView::Number(text) => substitute(value, bindings) == Ok::<ValueView, Seq<char>>(
                ValueView::Number(text),
            ),
            InputView::String(text) => substitute(value, bindings) == Ok::<ValueView, Seq<char>>(
                ValueView::String(text),
            ),
            InputView::Boolean(truth) => substitute(value, bindings) == Ok::<ValueView, Seq<char>>(
                ValueView::Boolean(truth),
            ),
            InputView::Binary(bytes) => substitute(value, bindings) == Ok::<ValueView, Seq<char>>(
                ValueView::Binary(bytes),
            ),
            InputView::Enum(name) => substitute(value, bindings) == Ok::<ValueView, Seq<char>>(
                ValueView::Enum(name),
            ),
            _ => true,
        },
{
}

/// A list stands for the list of what its items stand for, if each of them stands for something,
/// and else fails as the first one that does not.
pub proof fn law_substitute_list(items: Seq<InputView>, bindings: Bindings)
    ensures
        match substitute(InputView::List(items), bindings) {
            Ok(found) => {
                &&& found matches ValueView::List(values)
                &&& values.len() == items.len()
                &&& forall|i: int|
                    0 <= i < items.len() ==> substitute(#[trigger] items[i], bindings) == Ok::<
                        ValueView,
                        Seq<char>,
                    >(values[i])
            },
            Err(name) => exists|k: int|
                {
                    &&& 0 <= k < items.len()
                    &&& substitute(#[trigger] items[k], bindings) == Err::<ValueView, Seq<char>>(
                        name,
                    )
                    &&& forall|j: int|
                        0 <= j < k ==> substitute(#[trigger] items[j], bindings) is Ok
                },
        },
{
    law_substitute_items_one_by_one(items, bindings);
    if substitute_items(items, bindings) is Err {
        lemma_items_first_failure(items, bindings);
    }
}

proof fn lemma_items_first_failure(items: Seq<InputView>, bindings: Bindings)
    requires
        substitute_items(items, bindings) is Err,
    ensures
        exists|k: int|
            {
                &&& 0 <= k < items.len()
                &&& substitute(#[trigger] items[k], bindings) == Err::<ValueView, Seq<char>>(
                    substitute_items(items, bindings)->Err_0,
                )
                &&& forall|j: int| 0 <= j < k ==> substitute(#[trigger] items[j], bindings) is Ok
            },
    decreases items.len(),
{
    let earlier = items.drop_last();
    let name = substitute_items(items, bindings)->Err_0;
    if substitute_items(earlier, bindings) is Err {
        lemma_items_first_failure(earlier, bindings);
        let k = choose|k: int|
            {
                &&& 0 <= k < earlier.len()
                &&& substitute(#[trigger] earlier[k], bindings) == Err::<ValueView, Seq<char>>(name)
                &&& forall|j: int| 0 <= j < k ==> substitute(#[trigger] earlier[j], bindings) is Ok
            };
        assert(items[k] == earlier[k]);
        assert forall|j: int| 0 <= j < k implies substitute(#[trigger] items[j], bindings)
            is Ok by {
            assert(earlier[j] == items[j]);
        }
    } else {
        law_substitute_items_one_by_one(earlier, bindings);
        let k = items.len() - 1;
        assert(substitute(items[k], bindings) == Err::<ValueView, Seq<char>>(name));
        assert forall|j: int| 0 <= j < k implies substitute(#[trigger] items[j], bindings)
            is Ok by {
            assert(earlier[j] == items[j]);
        }
    }
}

/// An object stands for the object of what its values stand for, each under its name and in its
/// place, if each of them stands for something, and else fails as the first one that does not.
pub proof fn law_substitute_object(entries: Seq<(Seq<char>, InputView)>, bindings: Bindings)
    ensures
        match substitute(InputView::Object(entries), bindings) {
            Ok(found) => {
                &&& found matches ValueView::Object(values)
                &&& values.len() == entries.len()
                &&& forall|i: int|
                    0 <= i < entries.len() ==> values[i].0 == (#[trigger] entries[i]).0
                        && substitute(entries[i].1, bindings) == Ok::<ValueView, Seq<char>>(
                        values[i].1,
                    )
            },
            Err(name) => exists|k: int|
                {
                    &&& 0 <= k < entries.len()
                    &&& substitute((#[trigger] entries[k]).1, bindings) == Err::<
                        ValueView,
                        Seq<char>,
                    >(name)
                    &&& forall|j: int|
                        0 <= j < k ==> substitute((#[trigger] entries[j]).1, bindings) is Ok
                },
        },
{
    law_substitute_entries_one_by_one(entries, bindings);
    if substitute_entries(entries, bindings) is Err {
        lemma_entries_first_failure(entries, bindings);
    }
}

proof fn lemma_entries_first_failure(
    entries: Seq<(Seq<char>, InputView)>,
    bindings: Bindings,
)
    requires
        substitute_entries(entries, bindings) is Err,
    ensures
        exists|k: int|
            {
                &&& 0 <= k < entries.len()
                &&& substitute((#[trigger] entries[k]).1, bindings) == Err::<ValueView, Seq<char>>(
                    substitute_entries(entries, bindings)->Err_0,
                )
                &&& forall|j: int|
                    0 <= j < k ==> substitute((#[trigger] entries[j]).1, bindings) is Ok
            },
    decreases entries.len(),
{
    let earlier = entries.drop_last();
    let name = substitute_entries(entries, bindings)->Err_0;
    if substitute_entries(earlier, bindings) is Err {
        lemma_entries_first_failure(earlier, bindings);
        let k = choose|k: int|
            {
                &&& 0 <= k < earlier.len()
                &&& substitute((#[trigger] earlier[k]).1, bindings) == Err::<ValueView, Seq<char>>(
                    name,
                )
                &&& forall|j: int|
                    0 <= j < k ==> substitute((#[trigger] earlier[j]).1, bindings) is Ok
            };
        assert(entries[k] == earlier[k]);
        assert forall|j: int| 0 <= j < k implies substitute((#[trigger] entries[j]).1, bindings)
            is Ok by {
            assert(earlier[j] == entries[j]);
        }
    } else {
        law_substitute_entries_one_by_one(earlier, bindings);
        let k = entries.len() - 1;
        assert(substitute(entries[k].1, bindings) == Err::<ValueView, Seq<char>>(name));
        assert forall|j: int| 0 <= j < k implies substitute((#[trigger] entries[j]).1, bindings)
            is Ok by {
            assert(earlier[j] == entries[j]);
        }
    }
}

} // verus!
