//! Arguments of fields and directives.
use vstd::pervasive::unreached;
use vstd::prelude::*;

use crate::call::{call, call_with};
use crate::context::{undefined_message, ContextBase};
use crate::document::{Arguments, Directive, Field};
use crate::error::{fresh_error, InputValueError, ServerError, ServerResult};
use crate::input::{place_parsed, read_at, InputType, OneofObjectType};
use crate::object::{
    distinct_names, empty_object, entry_at, law_with_entry, law_with_entry_in_place,
    object_entries, object_insert, object_into_entries, with_entry,
};
use crate::pos::{nowhere, Pos, Positioned};
use crate::text::same_text;
use crate::value::{
    law_substitute_names_once, named_once, optional_view, substitute, written_once, Bindings,
    InputValue, Value, ValueView,
};

verus! {

/// Where the value of an argument comes from.
pub enum ParamSource {
    /// It was not given, and its default stands in.
    Default,
    /// It is to be read from a value, or from `None` if it was not given.
    Given {
        /// Where the value was written.
        pos: Pos,
        /// The value, without variables.
        value: Option<Value>,
    },
}

/// The mathematical form of a [`ParamSource`].
pub enum ParamView {
    Default,
    Given { pos: Pos, value: Option<ValueView> },
}

impl ParamSource {
    /// The source with its value read as a mathematical one.
    pub open spec fn view(&self) -> ParamView {
        match self {
            ParamSource::Default => ParamView::Default,
            ParamSource::Given { pos, value } => ParamView::Given {
                pos: *pos,
                value: optional_view(*value),
            },
        }
    }
}

/// Whether the first argument of that name is the one at `index`.
pub open spec fn argument_at(
    arguments: Seq<(Positioned<String>, Positioned<InputValue>)>,
    name: Seq<char>,
    index: int,
) -> bool {
    &&& 0 <= index < arguments.len()
    &&& arguments[index].0.node@ == name
    &&& forall|i: int| 0 <= i < index ==> (#[trigger] arguments[i]).0.node@ != name
}

/// Where the value of an argument comes from, or the variable in it that stands for nothing and
/// the place where the argument was written.
pub open spec fn param_source(
    arguments: Seq<(Positioned<String>, Positioned<InputValue>)>,
    name: Seq<char>,
    has_default: bool,
    bindings: Bindings,
) -> Result<ParamView, (Seq<char>, Pos)> {
    if exists|index: int| argument_at(arguments, name, index) {
        let given = arguments[choose|index: int| argument_at(arguments, name, index)].1;
        match substitute(given.node.view(), bindings) {
            Ok(value) => Ok(ParamView::Given { pos: given.pos, value: Some(value) }),
            Err(variable) => Err((variable, given.pos)),
        }
    } else if has_default {
        Ok(ParamView::Default)
    } else {
        Ok(ParamView::Given { pos: nowhere(), value: None })
    }
}

/// Whether `error` says that a variable is not defined.
pub open spec fn is_undefined(error: ServerError, missing: (Seq<char>, Pos)) -> bool {
    fresh_error(error, undefined_message(missing.0), Some(missing.1))
}

/// Whether `outcome` is what reading an argument from `source` may give: the default, or what
/// `Q` makes of the value.
pub open spec fn param_read<Q: InputType, D: FnOnce() -> Q>(
    source: Result<ParamView, (Seq<char>, Pos)>,
    default: Option<D>,
    outcome: ServerResult<(Pos, Q)>,
) -> bool {
    match source {
        Ok(ParamView::Default) => {
            &&& default is Some
            &&& outcome matches Ok((pos, value))
            &&& pos == nowhere()
            &&& call_ensures(default->0, (), value)
        },
        Ok(ParamView::Given { pos, value }) => value_read(pos, value, outcome),
        Err(missing) => outcome matches Err(error) && is_undefined(error, missing),
    }
}

/// Whether `outcome` is what `Q` may make of a value, placed at `pos`.
pub open spec fn value_read<Q: InputType>(
    pos: Pos,
    value: Option<ValueView>,
    outcome: ServerResult<(Pos, Q)>,
) -> bool {
    exists|given: Option<Value>, parsed: Result<Q, InputValueError>|
        {
            &&& optional_view(given) == value
            &&& #[trigger] call_ensures(Q::parse, (given,), parsed)
            &&& read_at(pos, parsed, outcome)
        }
}

impl<'a, T, V> ContextBase<'a, T, V> {
    /// Finds where the value of an argument comes from.
    pub fn find_param(&self, arguments: &Arguments, name: &str, has_default: bool) -> (source:
        ServerResult<ParamSource>)
        ensures
            match param_source(arguments@, name@, has_default, self.bindings()) {
                Ok(expected) => source matches Ok(found) && found.view() == expected,
                Err(missing) => source matches Err(error) && is_undefined(error, missing),
            },
            forall|index: int|
                {
                    &&& 0 <= index < arguments@.len()
                    &&& (#[trigger] arguments@[index]).0.node@ == name@
                    &&& forall|i: int|
                        0 <= i < index ==> (#[trigger] arguments@[i]).0.node@ != name@
                } ==> match substitute(arguments@[index].1.node.view(), self.bindings()) {
                    Ok(expected) => {
                        &&& source matches Ok(ParamSource::Given { pos, value: Some(found) })
                        &&& pos == arguments@[index].1.pos
                        &&& found.view() == expected
                    },
                    Err(variable) => {
                        &&& source matches Err(error)
                        &&& error.message@ == "Variable "@ + variable + " is not defined."@
                        &&& error.locations@ == seq![arguments@[index].1.pos]
                    },
                },
            (forall|i: int| 0 <= i < arguments@.len() ==> (#[trigger] arguments@[i]).0.node@
                != name@) ==> if has_default {
                source matches Ok(ParamSource::Default)
            } else {
                source matches Ok(ParamSource::Given { pos, value: None }) && pos.line == 0
                    && pos.column == 0
            },
    {
        let count: usize = arguments.len();
        for i in 0..count
            invariant
                count == arguments@.len(),
                forall|j: int| 0 <= j < i ==> (#[trigger] arguments@[j]).0.node@ != name@,
        {
            if same_text(arguments[i].0.node.as_str(), name) {
                proof {
                    assert(argument_at(arguments@, name@, i as int));
                    let first = choose|index: int| argument_at(arguments@, name@, index);
                    assert(first == i) by {
                        if first < i {
                            assert(arguments@[first].0.node@ != name@);
                        } else if i < first {
                            assert(arguments@[i as int].0.node@ != name@);
                        }
                    }
                }
                assert forall|index: int|
                    {
                        &&& 0 <= index < arguments@.len()
                        &&& (#[trigger] arguments@[index]).0.node@ == name@
                        &&& forall|j: int|
                            0 <= j < index ==> (#[trigger] arguments@[j]).0.node@ != name@
                    } implies index == i by {
                    if index < i {
                        assert(arguments@[index].0.node@ != name@);
                    } else if i < index {
                        assert(arguments@[i as int].0.node@ != name@);
                    }
                }
                let given: &Positioned<InputValue> = &arguments[i].1;
                return match self.resolve_input_value(given) {
                    Ok(value) => Ok(ParamSource::Given { pos: given.pos, value: Some(value) }),
                    Err(error) => Err(error),
                };
            }
        }
        assert(forall|index: int| !argument_at(arguments@, name@, index));
        if has_default {
            Ok(ParamSource::Default)
        } else {
            Ok(ParamSource::Given { pos: Pos::default(), value: None })
        }
    }

    /// Reads an argument.
    fn get_param_value<Q: InputType, D: FnOnce() -> Q>(
        &self,
        arguments: &Arguments,
        name: &str,
        default: Option<D>,
    ) -> (outcome: ServerResult<(Pos, Q)>)
        requires
            default is Some ==> call_requires(default->0, ()),
        ensures
            param_read(
                param_source(arguments@, name@, default is Some, self.bindings()),
                default,
                outcome,
            ),
    {
        match self.find_param(arguments, name, default.is_some()) {
            Ok(ParamSource::Default) => match default {
                Some(default) => Ok((Pos::default(), call(default))),
                None => unreached(),
            },
            Ok(ParamSource::Given { pos, value }) => {
                let ghost given = value;
                let parsed = call_with(Q::parse, value);
                assert(call_ensures(Q::parse, (given,), parsed));
                place_parsed(pos, parsed)
            },
            Err(error) => Err(error),
        }
    }
}

impl<'a, V> ContextBase<'a, &'a Positioned<Field>, V> {
    /// Reads an argument of the field.
    pub fn param_value<Q: InputType, D: FnOnce() -> Q>(&self, name: &str, default: Option<D>) -> (
    outcome: ServerResult<(Pos, Q)>)
        requires
            default is Some ==> call_requires(default->0, ()),
        ensures
            param_read(
                param_source(
                    self.item.node.arguments@,
                    name@,
                    default is Some,
                    self.bindings(),
                ),
                default,
                outcome,
            ),
    {
        self.get_param_value(&self.item.node.arguments, name, default)
    }
}

impl<'a, V> ContextBase<'a, &'a Positioned<Directive>, V> {
    /// Reads an argument of the directive.
    pub fn param_value<Q: InputType, D: FnOnce() -> Q>(&self, name: &str, default: Option<D>) -> (
    outcome: ServerResult<(Pos, Q)>)
        requires
            default is Some ==> call_requires(default->0, ()),
        ensures
            param_read(
                param_source(
                    self.item.node.arguments@,
                    name@,
                    default is Some,
                    self.bindings(),
                ),
                default,
                outcome,
            ),
    {
        self.get_param_value(&self.item.node.arguments, name, default)
    }
}

/// The object that some arguments make: one entry for each name, where the name came first, with
/// the value that came last; or the first variable that stands for nothing, with the place of the
/// argument it stands in.
pub open spec fn arguments_object(
    arguments: Seq<(Positioned<String>, Positioned<InputValue>)>,
    bindings: Bindings,
) -> Result<Seq<(Seq<char>, ValueView)>, (Seq<char>, Pos)>
    decreases arguments.len(),
{
    if arguments.len() == 0 {
        Ok(Seq::empty())
    } else {
        let (name, value) = arguments.last();
        match arguments_object(arguments.drop_last(), bindings) {
            Ok(entries) => match substitute(value.node.view(), bindings) {
                Ok(found) => Ok(with_entry(entries, name.node@, found)),
                Err(variable) => Err((variable, value.pos)),
            },
            Err(missing) => Err(missing),
        }
    }
}

/// A prefix of some arguments fails exactly as they do.
proof fn lemma_object_prefix(
    arguments: Seq<(Positioned<String>, Positioned<InputValue>)>,
    count: int,
    bindings: Bindings,
)
    requires
        0 <= count <= arguments.len(),
        arguments_object(arguments.take(count), bindings) is Err,
    ensures
        arguments_object(arguments, bindings) == arguments_object(arguments.take(count), bindings),
    decreases arguments.len() - count,
{
    if count < arguments.len() {
        assert(arguments.take(count + 1).drop_last() =~= arguments.take(count));
        lemma_object_prefix(arguments, count + 1, bindings);
    } else {
        assert(arguments.take(count) =~= arguments);
    }
}

/// The object that some arguments make has no two entries of one name.
pub proof fn law_arguments_object_distinct(
    arguments: Seq<(Positioned<String>, Positioned<InputValue>)>,
    bindings: Bindings,
)
    ensures
        arguments_object(arguments, bindings) matches Ok(entries) ==> distinct_names(entries),
    decreases arguments.len(),
{
    if arguments.len() > 0 {
        law_arguments_object_distinct(arguments.drop_last(), bindings);
        let (name, value) = arguments.last();
        if let Ok(entries) = arguments_object(arguments.drop_last(), bindings) {
            if let Ok(found) = substitute(value.node.view(), bindings) {
                law_with_entry(entries, name.node@, found);
            }
        }
    }
}

impl<'a, V> ContextBase<'a, &'a Positioned<Field>, V> {
    /// The arguments of the field as one object.
    pub fn arguments_value(&self) -> (outcome: ServerResult<Value>)
        ensures
            match arguments_object(self.item.node.arguments@, self.bindings()) {
                Ok(entries) => outcome matches Ok(value) && value.view() == ValueView::Object(
                    entries,
                ),
                Err(missing) => outcome matches Err(error) && is_undefined(error, missing),
            },
    {
        let arguments: &Arguments = &self.item.node.arguments;
        let mut map = empty_object();
        let count: usize = arguments.len();
        assert(arguments@.take(0) =~= Seq::empty());
        assert(object_entries(map) =~= Seq::empty());
        for i in 0..count
            invariant
                count == arguments@.len(),
                *arguments == self.item.node.arguments,
                arguments_object(arguments@.take(i as int), self.bindings()) == Ok::<
                    Seq<(Seq<char>, ValueView)>,
                    (Seq<char>, Pos),
                >(object_entries(map)),
        {
            assert(arguments@.take(i + 1).drop_last() =~= arguments@.take(i as int));
            assert(arguments@.take(i + 1).last() == arguments@[i as int]);
            match self.resolve_input_value(&arguments[i].1) {
                Ok(value) => {
                    object_insert(&mut map, arguments[i].0.node.clone(), value);
                },
                Err(error) => {
                    proof {
                        lemma_object_prefix(arguments@, i + 1, self.bindings());
                    }
                    return Err(error);
                },
            }
        }
        assert(arguments@.take(count as int) =~= arguments@);
        let entries: Vec<(String, Value)> = object_into_entries(map);
        proof {
            Value::lemma_object_view(entries);
        }
        Ok(Value::Object(entries))
    }

    /// Reads all the arguments of the field as one object.
    pub fn oneof_param_value<Q: OneofObjectType>(&self) -> (outcome: ServerResult<(Pos, Q)>)
        ensures
            match arguments_object(self.item.node.arguments@, self.bindings()) {
                Ok(entries) => value_read(
                    self.item.pos,
                    Some(ValueView::Object(entries)),
                    outcome,
                ),
                Err(missing) => outcome matches Err(error) && is_undefined(error, missing),
            },
    {
        match self.arguments_value() {
            Ok(value) => {
                let given = Some(value);
                let ghost shown = given;
                let parsed = call_with(Q::parse, given);
                assert(call_ensures(Q::parse, (shown,), parsed));
                place_parsed(self.item.pos, parsed)
            },
            Err(error) => Err(error),
        }
    }
}

/// An argument that was given is read, whether or not there is a default; one that was not is
/// replaced by the default if there is one, and else is read from nothing.
pub proof fn law_given_argument_wins(
    arguments: Seq<(Positioned<String>, Positioned<InputValue>)>,
    name: Seq<char>,
    bindings: Bindings,
)
    ensures
        ({
            let given = exists|i: int|
                0 <= i < arguments.len() && (#[trigger] arguments[i]).0.node@ == name;
            &&& given ==> param_source(arguments, name, true, bindings) == param_source(
                arguments,
                name,
                false,
                bindings,
            ) && (param_source(arguments, name, true, bindings) matches Ok(source) ==> source
                matches ParamView::Given { pos: _, value } && value is Some)
            &&& !given ==> param_source(arguments, name, true, bindings) == Ok::<
                ParamView,
                (Seq<char>, Pos),
            >(ParamView::Default) && param_source(arguments, name, false, bindings) == Ok::<
                ParamView,
                (Seq<char>, Pos),
            >(ParamView::Given { pos: nowhere(), value: None })
        }),
{
    if exists|i: int| 0 <= i < arguments.len() && (#[trigger] arguments[i]).0.node@ == name {
        let i = choose|i: int|
            0 <= i < arguments.len() && (#[trigger] arguments[i]).0.node@ == name;
        let first = lemma_first_argument(arguments, name, i);
        assert(argument_at(arguments, name, first));
    }
}

/// Among the arguments of a name there is a first one.
proof fn lemma_first_argument(
    arguments: Seq<(Positioned<String>, Positioned<InputValue>)>,
    name: Seq<char>,
    index: int,
) -> (first: int)
    requires
        0 <= index < arguments.len(),
        arguments[index].0.node@ == name,
    ensures
        argument_at(arguments, name, first),
    decreases index,
{
    if exists|i: int| 0 <= i < index && (#[trigger] arguments[i]).0.node@ == name {
        let i = choose|i: int| 0 <= i < index && (#[trigger] arguments[i]).0.node@ == name;
        lemma_first_argument(arguments, name, i)
    } else {
        index
    }
}

/// Arguments with different names make an object with one entry for each, in order.
pub proof fn law_arguments_object_in_order(
    arguments: Seq<(Positioned<String>, Positioned<InputValue>)>,
    bindings: Bindings,
)
    requires
        forall|i: int, j: int|
            0 <= i < j < arguments.len() ==> (#[trigger] arguments[i]).0.node@ != (
            #[trigger] arguments[j]).0.node@,
    ensures
        arguments_object(arguments, bindings) matches Ok(entries) ==> {
            &&& entries.len() == arguments.len()
            &&& forall|i: int|
                0 <= i < entries.len() ==> (#[trigger] entries[i]).0 == arguments[i].0.node@
                    && substitute(arguments[i].1.node.view(), bindings) == Ok::<
                    ValueView,
                    Seq<char>,
                >(entries[i].1)
        },
    decreases arguments.len(),
{
    if arguments.len() > 0 {
        let earlier = arguments.drop_last();
        assert forall|i: int, j: int| 0 <= i < j < earlier.len() implies (
        #[trigger] earlier[i]).0.node@ != (#[trigger] earlier[j]).0.node@ by {
            assert(arguments[i].0.node@ != arguments[j].0.node@);
        }
        law_arguments_object_in_order(earlier, bindings);
        if let Ok(entries) = arguments_object(earlier, bindings) {
            let name = arguments.last().0.node@;
            assert forall|index: int| !entry_at(entries, name, index) by {
                if entry_at(entries, name, index) {
                    assert(entries[index].0 == earlier[index].0.node@);
                    assert(arguments[index].0.node@ != arguments[arguments.len() - 1].0.node@);
                }
            }
            if let Ok(found) = arguments_object(arguments, bindings) {
                assert forall|i: int| 0 <= i < found.len() implies (#[trigger] found[i]).0
                    == arguments[i].0.node@ && substitute(arguments[i].1.node.view(), bindings)
                    == Ok::<ValueView, Seq<char>>(found[i].1) by {
                    if i < earlier.len() {
                        assert(found[i] == entries[i]);
                        assert(earlier[i] == arguments[i]);
                    }
                }
            }
        }
    }
}

/// Nothing in the object that some arguments make has two entries of one name, unless an argument
/// was written so or a variable stands for such a value.
pub proof fn law_arguments_object_names_once(
    arguments: Seq<(Positioned<String>, Positioned<InputValue>)>,
    bindings: Bindings,
)
    requires
        forall|i: int|
            0 <= i < arguments.len() ==> written_once((#[trigger] arguments[i]).1.node.view()),
        forall|name: Seq<char>| #[trigger]
            bindings(name) matches Some(bound) ==> named_once(bound),
    ensures
        arguments_object(arguments, bindings) matches Ok(entries) ==> named_once(
            ValueView::Object(entries),
        ),
    decreases arguments.len(),
{
    law_arguments_object_distinct(arguments, bindings);
    if arguments.len() > 0 {
        let earlier = arguments.drop_last();
        assert forall|i: int| 0 <= i < earlier.len() implies written_once(
            (#[trigger] earlier[i]).1.node.view(),
        ) by {
            assert(earlier[i] == arguments[i]);
        }
        law_arguments_object_names_once(earlier, bindings);
        let given = arguments[arguments.len() - 1].1.node.view();
        law_substitute_names_once(given, bindings);
        if let Ok(entries) = arguments_object(arguments, bindings) {
            let before = arguments_object(earlier, bindings)->Ok_0;
            assert(named_once(ValueView::Object(before)));
            assert forall|i: int| 0 <= i < entries.len() implies named_once(
                (#[trigger] entries[i]).1,
            ) by {
                if i < before.len() && entries[i] == before[i] {
                    assert(named_once(before[i].1));
                }
            }
        }
    }
}

/// The value that is read is that of the first argument of the name: what it stands for, at the
/// place where it was written, or the error of the variable in it that stands for nothing.
pub proof fn law_first_argument_is_read(
    arguments: Seq<(Positioned<String>, Positioned<InputValue>)>,
    index: int,
    has_default: bool,
    bindings: Bindings,
)
    requires
        0 <= index < arguments.len(),
        forall|i: int|
            0 <= i < index ==> (#[trigger] arguments[i]).0.node@ != arguments[index].0.node@,
    ensures
        match substitute(arguments[index].1.node.view(), bindings) {
            Ok(value) => param_source(
                arguments,
                arguments[index].0.node@,
                has_default,
                bindings,
            ) == Ok::<ParamView, (Seq<char>, Pos)>(
                ParamView::Given { pos: arguments[index].1.pos, value: Some(value) },
            ),
            Err(variable) => param_source(
                arguments,
                arguments[index].0.node@,
                has_default,
                bindings,
            ) == Err::<ParamView, (Seq<char>, Pos)>((variable, arguments[index].1.pos)),
        },
{
    let name = arguments[index].0.node@;
    assert(argument_at(arguments, name, index));
    let first = choose|i: int| argument_at(arguments, name, i);
    assert(first == index) by {
        if first < index {
            assert(arguments[first].0.node@ != name);
        } else if index < first {
            assert(arguments[index].0.node@ != name);
        }
    }
}

/// What is read does not change when arguments of other names are added, removed or changed: it
/// rests on the first argument of the name alone.
pub proof fn law_other_arguments_do_not_matter(
    left: Seq<(Positioned<String>, Positioned<InputValue>)>,
    right: Seq<(Positioned<String>, Positioned<InputValue>)>,
    name: Seq<char>,
    has_default: bool,
    bindings: Bindings,
)
    requires
        left.filter(
            |argument: (Positioned<String>, Positioned<InputValue>)| argument.0.node@ == name,
        ) == right.filter(
            |argument: (Positioned<String>, Positioned<InputValue>)| argument.0.node@ == name,
        ),
    ensures
        param_source(left, name, has_default, bindings) == param_source(
            right,
            name,
            has_default,
            bindings,
        ),
{
    let same = |argument: (Positioned<String>, Positioned<InputValue>)| argument.0.node@ == name;
    lemma_first_of_filter(left, name);
    lemma_first_of_filter(right, name);
    assert(left.filter(same) == right.filter(same));
    if left.filter(same).len() > 0 {
        let i = choose|i: int| #[trigger]
            argument_at(left, name, i) && left[i] == left.filter(same)[0];
        let j = choose|j: int| #[trigger]
            argument_at(right, name, j) && right[j] == right.filter(same)[0];
        law_first_argument_is_read(left, i, has_default, bindings);
        law_first_argument_is_read(right, j, has_default, bindings);
    }
}

/// The first of the arguments of a name is the first argument of that name.
proof fn lemma_first_of_filter(
    arguments: Seq<(Positioned<String>, Positioned<InputValue>)>,
    name: Seq<char>,
)
    ensures
        ({
            let found = arguments.filter(
                |argument: (Positioned<String>, Positioned<InputValue>)| argument.0.node@ == name,
            );
            if found.len() > 0 {
                exists|i: int| #[trigger]
                    argument_at(arguments, name, i) && arguments[i] == found[0]
            } else {
                forall|i: int|
                    0 <= i < arguments.len() ==> (#[trigger] arguments[i]).0.node@ != name
            }
        }),
    decreases arguments.len(),
{
    reveal(Seq::filter);
    let same = |argument: (Positioned<String>, Positioned<InputValue>)| argument.0.node@ == name;
    let found = arguments.filter(same);
    if arguments.len() > 0 {
        let earlier = arguments.drop_last();
        let before = earlier.filter(same);
        let last = arguments.len() - 1;
        lemma_first_of_filter(earlier, name);
        assert forall|i: int| 0 <= i < earlier.len() implies #[trigger] earlier[i]
            == arguments[i] by {}
        if before.len() > 0 {
            let i = choose|i: int| #[trigger]
                argument_at(earlier, name, i) && earlier[i] == before[0];
            assert(found[0] == before[0]);
            assert forall|j: int| 0 <= j < i implies (#[trigger] arguments[j]).0.node@ != name by {
                assert(earlier[j].0.node@ != name);
            }
            assert(argument_at(arguments, name, i));
        } else {
            assert forall|j: int| 0 <= j < last implies (#[trigger] arguments[j]).0.node@
                != name by {
                assert(earlier[j].0.node@ != name);
            }
            if arguments[last].0.node@ == name {
                assert(found =~= seq![arguments[last]]);
                assert(argument_at(arguments, name, last));
            }
        }
    }
}

/// A source is read as what it is: the default, or a value with its place.
pub proof fn law_param_source_view(source: ParamSource)
    ensures
        source is Default ==> source.view() is Default,
        source matches ParamSource::Given { pos, value } ==> (source.view() matches
            ParamView::Given { pos: place, value: shown } && place == pos && (value matches Some(
            given,
        ) ==> shown == Some(given.view())) && (value is None ==> shown is None)),
{
}

/// The error of a variable that is not defined names it and stands at its place.
pub proof fn law_is_undefined(error: ServerError, missing: (Seq<char>, Pos))
    requires
        is_undefined(error, missing),
    ensures
        error.message@ == "Variable "@ + missing.0 + " is not defined."@,
        error.locations@ == seq![missing.1],
        error.path@.len() == 0,
        error.extensions is None,
{
}

/// What is made of a value is what parsing it gave: the result with its place, or the reason
/// placed there.
pub proof fn law_value_read<Q: InputType>(
    pos: Pos,
    value: Option<ValueView>,
    outcome: ServerResult<(Pos, Q)>,
)
    requires
        value_read(pos, value, outcome),
    ensures
        exists|given: Option<Value>, parsed: Result<Q, InputValueError>|
            {
                &&& #[trigger] call_ensures(Q::parse, (given,), parsed)
                &&& given is Some <==> value is Some
                &&& given matches Some(shown) ==> value == Some(shown.view())
                &&& parsed matches Ok(read) ==> outcome == Ok::<(Pos, Q), ServerError>((pos, read))
                &&& parsed matches Err(reason) ==> outcome matches Err(error) && error.message
                    == reason.message && error.extensions == reason.extensions && error.locations@
                    == seq![pos] && error.path@.len() == 0
            },
{
}

/// An argument is read from its source: the default at no place, a value where it was written, and
/// an undefined variable as the error that says so.
pub proof fn law_param_read<Q: InputType, D: FnOnce() -> Q>(
    source: Result<ParamView, (Seq<char>, Pos)>,
    default: Option<D>,
    outcome: ServerResult<(Pos, Q)>,
)
    requires
        param_read(source, default, outcome),
    ensures
        match source {
            Ok(ParamView::Default) => {
                &&& default is Some
                &&& outcome matches Ok((pos, value))
                &&& pos.line == 0
                &&& pos.column == 0
                &&& call_ensures(default->0, (), value)
            },
            Ok(ParamView::Given { pos, value }) => value_read(pos, value, outcome),
            Err(missing) => {
                &&& outcome matches Err(error)
                &&& error.message@ == "Variable "@ + missing.0 + " is not defined."@
                &&& error.locations@ == seq![missing.1]
            },
        },
{
}

/// Whether some entries have one of a name.
pub open spec fn has_entry(entries: Seq<(Seq<char>, ValueView)>, name: Seq<char>) -> bool {
    exists|e: int| 0 <= e < entries.len() && (#[trigger] entries[e]).0 == name
}

/// Whether an entry holds what the last argument of its name stands for.
pub open spec fn has_last_value(
    arguments: Seq<(Positioned<String>, Positioned<InputValue>)>,
    bindings: Bindings,
    entry: (Seq<char>, ValueView),
) -> bool {
    exists|k: int|
        {
            &&& 0 <= k < arguments.len()
            &&& (#[trigger] arguments[k]).0.node@ == entry.0
            &&& substitute(arguments[k].1.node.view(), bindings) == Ok::<ValueView, Seq<char>>(
                entry.1,
            )
            &&& forall|j: int|
                k < j < arguments.len() ==> (#[trigger] arguments[j]).0.node@ != entry.0
        }
}

/// Whether a name comes up among some arguments before another one does.
pub open spec fn comes_before(
    arguments: Seq<(Positioned<String>, Positioned<InputValue>)>,
    first: Seq<char>,
    second: Seq<char>,
) -> bool {
    exists|i: int|
        {
            &&& 0 <= i < arguments.len()
            &&& (#[trigger] arguments[i]).0.node@ == first
            &&& forall|j: int| 0 <= j <= i ==> (#[trigger] arguments[j]).0.node@ != second
        }
}

/// Where a value is added: in the place of the entry of its name, or at the end.
proof fn lemma_entry_place(
    before: Seq<(Seq<char>, ValueView)>,
    name: Seq<char>,
    value: ValueView,
) -> (place: int)
    requires
        distinct_names(before),
    ensures
        0 <= place <= before.len(),
        place < before.len() ==> before[place].0 == name,
        with_entry(before, name, value).len() == if place < before.len() {
            before.len()
        } else {
            before.len() + 1
        },
        with_entry(before, name, value)[place] == (name, value),
        forall|e: int|
            0 <= e < before.len() && e != place ==> (#[trigger] before[e]).0 != name && with_entry(
                before,
                name,
                value,
            )[e] == before[e],
{
    law_with_entry_in_place(before, name, value);
    if exists|e: int| 0 <= e < before.len() && (#[trigger] before[e]).0 == name {
        let place = choose|e: int| 0 <= e < before.len() && (#[trigger] before[e]).0 == name;
        assert forall|e: int| 0 <= e < before.len() && e != place implies (
        #[trigger] before[e]).0 != name && with_entry(before, name, value)[e] == before[e] by {
            if e < place {
                assert(before[e].0 != before[place].0);
            } else {
                assert(before[place].0 != before[e].0);
            }
        }
        place
    } else {
        before.len() as int
    }
}

/// Every argument has an entry of its name.
proof fn lemma_object_has_entries(
    arguments: Seq<(Positioned<String>, Positioned<InputValue>)>,
    bindings: Bindings,
)
    requires
        arguments_object(arguments, bindings) is Ok,
    ensures
        forall|i: int|
            0 <= i < arguments.len() ==> has_entry(
                arguments_object(arguments, bindings)->Ok_0,
                (#[trigger] arguments[i]).0.node@,
            ),
    decreases arguments.len(),
{
    if arguments.len() > 0 {
        let earlier = arguments.drop_last();
        let last = arguments.len() - 1;
        let before = arguments_object(earlier, bindings)->Ok_0;
        let after = arguments_object(arguments, bindings)->Ok_0;
        let name = arguments[last].0.node@;
        let value = substitute(arguments[last].1.node.view(), bindings)->Ok_0;
        lemma_object_has_entries(earlier, bindings);
        law_arguments_object_distinct(earlier, bindings);
        assert(arguments[last] == arguments.last());
        let place = lemma_entry_place(before, name, value);
        assert forall|i: int| 0 <= i < arguments.len() implies has_entry(
            after,
            (#[trigger] arguments[i]).0.node@,
        ) by {
            if i < last {
                assert(earlier[i] == arguments[i]);
                let e = choose|e: int|
                    0 <= e < before.len() && (#[trigger] before[e]).0 == earlier[i].0.node@;
                if e == place {
                    assert(after[place].0 == arguments[i].0.node@);
                } else {
                    assert(after[e] == before[e]);
                }
            } else {
                assert(after[place].0 == name);
            }
        }
    }
}

/// Every entry holds what the last argument of its name stands for.
proof fn lemma_object_has_last_values(
    arguments: Seq<(Positioned<String>, Positioned<InputValue>)>,
    bindings: Bindings,
)
    requires
        arguments_object(arguments, bindings) is Ok,
    ensures
        forall|e: int|
            0 <= e < arguments_object(arguments, bindings)->Ok_0.len() ==> has_last_value(
                arguments,
                bindings,
                #[trigger] arguments_object(arguments, bindings)->Ok_0[e],
            ),
    decreases arguments.len(),
{
    if arguments.len() > 0 {
        let earlier = arguments.drop_last();
        let last = arguments.len() - 1;
        let before = arguments_object(earlier, bindings)->Ok_0;
        let after = arguments_object(arguments, bindings)->Ok_0;
        let name = arguments[last].0.node@;
        let value = substitute(arguments[last].1.node.view(), bindings)->Ok_0;
        lemma_object_has_last_values(earlier, bindings);
        law_arguments_object_distinct(earlier, bindings);
        assert(arguments[last] == arguments.last());
        let place = lemma_entry_place(before, name, value);
        assert forall|e: int| 0 <= e < after.len() implies has_last_value(
            arguments,
            bindings,
            #[trigger] after[e],
        ) by {
            if e == place {
                assert(arguments[last].0.node@ == after[e].0);
            } else {
                assert(after[e] == before[e] && before[e].0 != name);
                assert(has_last_value(earlier, bindings, before[e]));
                let k = choose|k: int|
                    {
                        &&& 0 <= k < earlier.len()
                        &&& (#[trigger] earlier[k]).0.node@ == before[e].0
                        &&& substitute(earlier[k].1.node.view(), bindings) == Ok::<
                            ValueView,
                            Seq<char>,
                        >(before[e].1)
                        &&& forall|j: int|
                            k < j < earlier.len() ==> (#[trigger] earlier[j]).0.node@ != before[e].0
                    };
                assert(arguments[k] == earlier[k]);
                assert forall|j: int| k < j < arguments.len() implies (
                #[trigger] arguments[j]).0.node@ != after[e].0 by {
                    if j < last {
                        assert(earlier[j] == arguments[j]);
                    }
                }
            }
        }
    }
}

/// Entries come in the order in which their names come up first.
proof fn lemma_object_order(
    arguments: Seq<(Positioned<String>, Positioned<InputValue>)>,
    bindings: Bindings,
)
    requires
        arguments_object(arguments, bindings) is Ok,
    ensures
        forall|e: int, f: int|
            0 <= e < f < arguments_object(arguments, bindings)->Ok_0.len() ==> comes_before(
                arguments,
                (#[trigger] arguments_object(arguments, bindings)->Ok_0[e]).0,
                (#[trigger] arguments_object(arguments, bindings)->Ok_0[f]).0,
            ),
    decreases arguments.len(),
{
    if arguments.len() > 0 {
        let earlier = arguments.drop_last();
        let last = arguments.len() - 1;
        let before = arguments_object(earlier, bindings)->Ok_0;
        let after = arguments_object(arguments, bindings)->Ok_0;
        let name = arguments[last].0.node@;
        let value = substitute(arguments[last].1.node.view(), bindings)->Ok_0;
        lemma_object_order(earlier, bindings);
        law_arguments_object_distinct(earlier, bindings);
        assert(arguments[last] == arguments.last());
        let place = lemma_entry_place(before, name, value);
        assert forall|e: int, f: int| 0 <= e < f < after.len() implies comes_before(
            arguments,
            (#[trigger] after[e]).0,
            (#[trigger] after[f]).0,
        ) by {
            assert(e < before.len());
            assert(after[e].0 == before[e].0);
            if f < before.len() {
                assert(after[f].0 == before[f].0);
                assert(comes_before(earlier, before[e].0, before[f].0));
                lemma_comes_before_more(arguments, before[e].0, before[f].0);
            } else {
                lemma_new_name_comes_after(arguments, bindings, e);
            }
        }
    }
}

proof fn lemma_comes_before_more(
    arguments: Seq<(Positioned<String>, Positioned<InputValue>)>,
    first: Seq<char>,
    second: Seq<char>,
)
    requires
        arguments.len() > 0,
        comes_before(arguments.drop_last(), first, second),
    ensures
        comes_before(arguments, first, second),
{
    let earlier = arguments.drop_last();
    let i = choose|i: int|
        {
            &&& 0 <= i < earlier.len()
            &&& (#[trigger] earlier[i]).0.node@ == first
            &&& forall|j: int| 0 <= j <= i ==> (#[trigger] earlier[j]).0.node@ != second
        };
    assert(arguments[i] == earlier[i]);
    assert forall|j: int| 0 <= j <= i implies (#[trigger] arguments[j]).0.node@ != second by {
        assert(earlier[j] == arguments[j]);
    }
}

/// A name that has no entry yet comes up after every name that has one.
proof fn lemma_new_name_comes_after(
    arguments: Seq<(Positioned<String>, Positioned<InputValue>)>,
    bindings: Bindings,
    e: int,
)
    requires
        arguments.len() > 0,
        arguments_object(arguments.drop_last(), bindings) is Ok,
        0 <= e < arguments_object(arguments.drop_last(), bindings)->Ok_0.len(),
        forall|d: int|
            0 <= d < arguments_object(arguments.drop_last(), bindings)->Ok_0.len() ==> (
            #[trigger] arguments_object(arguments.drop_last(), bindings)->Ok_0[d]).0
                != arguments[arguments.len() - 1].0.node@,
    ensures
        comes_before(
            arguments,
            arguments_object(arguments.drop_last(), bindings)->Ok_0[e].0,
            arguments[arguments.len() - 1].0.node@,
        ),
{
    let earlier = arguments.drop_last();
    let before = arguments_object(earlier, bindings)->Ok_0;
    let name = arguments[arguments.len() - 1].0.node@;
    lemma_object_has_entries(earlier, bindings);
    lemma_object_has_last_values(earlier, bindings);
    assert(has_last_value(earlier, bindings, before[e]));
    let k = choose|k: int|
        {
            &&& 0 <= k < earlier.len()
            &&& (#[trigger] earlier[k]).0.node@ == before[e].0
            &&& substitute(earlier[k].1.node.view(), bindings) == Ok::<ValueView, Seq<char>>(
                before[e].1,
            )
            &&& forall|j: int|
                k < j < earlier.len() ==> (#[trigger] earlier[j]).0.node@ != before[e].0
        };
    assert(arguments[k] == earlier[k]);
    assert forall|j: int| 0 <= j <= k implies (#[trigger] arguments[j]).0.node@ != name by {
        assert(earlier[j] == arguments[j]);
        assert(has_entry(before, earlier[j].0.node@));
    }
}

/// The object of some arguments has one entry for each name, in the order in which the names come
/// up first, with the value that the last argument of the name stands for.
pub proof fn law_arguments_object(
    arguments: Seq<(Positioned<String>, Positioned<InputValue>)>,
    bindings: Bindings,
)
    ensures
        arguments_object(arguments, bindings) matches Ok(entries) ==> {
            &&& forall|i: int|
                0 <= i < arguments.len() ==> has_entry(
                    entries,
                    (#[trigger] arguments[i]).0.node@,
                )
            &&& forall|e: int|
                0 <= e < entries.len() ==> has_last_value(
                    arguments,
                    bindings,
                    #[trigger] entries[e],
                )
            &&& forall|e: int, f: int|
                0 <= e < f < entries.len() ==> comes_before(
                    arguments,
                    (#[trigger] entries[e]).0,
                    (#[trigger] entries[f]).0,
                )
        },
{
    if arguments_object(arguments, bindings) is Ok {
        lemma_object_has_entries(arguments, bindings);
        lemma_object_has_last_values(arguments, bindings);
        lemma_object_order(arguments, bindings);
    }
}

/// Arguments make an object exactly if each of their values stands for something; otherwise the
/// first one that does not is to blame, at its place.
pub proof fn law_arguments_object_first_failure(
    arguments: Seq<(Positioned<String>, Positioned<InputValue>)>,
    bindings: Bindings,
)
    ensures
        arguments_object(arguments, bindings) is Ok <==> forall|i: int|
            0 <= i < arguments.len() ==> substitute(
                (#[trigger] arguments[i]).1.node.view(),
                bindings,
            ) is Ok,
        arguments_object(arguments, bindings) matches Err(missing) ==> exists|k: int|
            {
                &&& 0 <= k < arguments.len()
                &&& substitute((#[trigger] arguments[k]).1.node.view(), bindings) == Err::<
                    ValueView,
                    Seq<char>,
                >(missing.0)
                &&& missing.1 == arguments[k].1.pos
                &&& forall|j: int|
                    0 <= j < k ==> substitute((#[trigger] arguments[j]).1.node.view(), bindings)
                        is Ok
            },
    decreases arguments.len(),
{
    if arguments.len() > 0 {
        let earlier = arguments.drop_last();
        let last = arguments.len() - 1;
        law_arguments_object_first_failure(earlier, bindings);
        assert forall|i: int| 0 <= i < earlier.len() implies #[trigger] earlier[i]
            == arguments[i] by {}
        if arguments_object(earlier, bindings) is Err {
            let missing = arguments_object(earlier, bindings)->Err_0;
            let k = choose|k: int|
                {
                    &&& 0 <= k < earlier.len()
                    &&& substitute((#[trigger] earlier[k]).1.node.view(), bindings) == Err::<
                        ValueView,
                        Seq<char>,
                    >(missing.0)
                    &&& missing.1 == earlier[k].1.pos
                    &&& forall|j: int|
                        0 <= j < k ==> substitute((#[trigger] earlier[j]).1.node.view(), bindings)
                            is Ok
                };
            assert(arguments[k] == earlier[k]);
            assert forall|j: int| 0 <= j < k implies substitute(
                (#[trigger] arguments[j]).1.node.view(),
                bindings,
            ) is Ok by {
                assert(earlier[j] == arguments[j]);
            }
        } else {
            assert forall|j: int| 0 <= j < last implies substitute(
                (#[trigger] arguments[j]).1.node.view(),
                bindings,
            ) is Ok by {
                assert(earlier[j] == arguments[j]);
            }
            assert(arguments[last] == arguments.last());
        }
    }
}

} // verus!
