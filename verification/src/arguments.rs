//! The arguments and directives of a selected field, without variables.
use vstd::prelude::*;

use crate::document::{Arguments, ConstDirective, Directive};
use crate::error::ServerResult;
use crate::params::is_undefined;
use crate::pos::{Pos, Positioned};
use crate::selection::SelectionField;
use crate::value::{entry_views, substitute, Bindings, InputValue, Value, ValueView};

verus! {

/// An argument without variables.
pub struct ArgumentView {
    /// The name, and where it was written.
    pub name: Positioned<String>,
    /// Where the value was written.
    pub pos: Pos,
    /// The value.
    pub value: ValueView,
}

/// Arguments read as mathematical ones.
pub open spec fn argument_views(
    arguments: Seq<(Positioned<String>, Positioned<Value>)>,
) -> Seq<ArgumentView> {
    Seq::new(
        arguments.len(),
        |i: int|
            ArgumentView {
                name: arguments[i].0,
                pos: arguments[i].1.pos,
                value: arguments[i].1.node.view(),
            },
    )
}

/// Some arguments with their variables replaced, in order; or the first variable that stands for
/// nothing, with the place of the name of the argument it stands in.
pub open spec fn const_arguments(
    arguments: Seq<(Positioned<String>, Positioned<InputValue>)>,
    bindings: Bindings,
) -> Result<Seq<ArgumentView>, (Seq<char>, Pos)>
    decreases arguments.len(),
{
    if arguments.len() == 0 {
        Ok(Seq::empty())
    } else {
        let (name, value) = arguments.last();
        match const_arguments(arguments.drop_last(), bindings) {
            Ok(before) => match substitute(value.node.view(), bindings) {
                Ok(found) => Ok(before.push(ArgumentView { name, pos: value.pos, value: found })),
                Err(variable) => Err((variable, name.pos)),
            },
            Err(missing) => Err(missing),
        }
    }
}

/// A directive without variables.
pub struct DirectiveView {
    /// The name, and where it was written.
    pub name: Positioned<String>,
    /// The arguments.
    pub arguments: Seq<ArgumentView>,
}

/// Directives read as mathematical ones.
pub open spec fn directive_views(directives: Seq<ConstDirective>) -> Seq<DirectiveView> {
    Seq::new(
        directives.len(),
        |i: int|
            DirectiveView {
                name: directives[i].name,
                arguments: argument_views(directives[i].arguments@),
            },
    )
}

/// Some directives with their variables replaced, in order; or the first variable that stands for
/// nothing, with the place of the name of the argument it stands in.
pub open spec fn const_directives(
    directives: Seq<Positioned<Directive>>,
    bindings: Bindings,
) -> Result<Seq<DirectiveView>, (Seq<char>, Pos)>
    decreases directives.len(),
{
    if directives.len() == 0 {
        Ok(Seq::empty())
    } else {
        let directive = directives.last().node;
        match const_directives(directives.drop_last(), bindings) {
            Ok(before) => match const_arguments(directive.arguments@, bindings) {
                Ok(arguments) => Ok(
                    before.push(DirectiveView { name: directive.name, arguments }),
                ),
                Err(missing) => Err(missing),
            },
            Err(missing) => Err(missing),
        }
    }
}

/// A prefix of some arguments fails exactly as they do.
proof fn lemma_arguments_prefix(
    arguments: Seq<(Positioned<String>, Positioned<InputValue>)>,
    count: int,
    bindings: Bindings,
)
    requires
        0 <= count <= arguments.len(),
        const_arguments(arguments.take(count), bindings) is Err,
    ensures
        const_arguments(arguments, bindings) == const_arguments(arguments.take(count), bindings),
    decreases arguments.len() - count,
{
    if count < arguments.len() {
        assert(arguments.take(count + 1).drop_last() =~= arguments.take(count));
        lemma_arguments_prefix(arguments, count + 1, bindings);
    } else {
        assert(arguments.take(count) =~= arguments);
    }
}

/// A prefix of some directives fails exactly as they do.
proof fn lemma_directives_prefix(
    directives: Seq<Positioned<Directive>>,
    count: int,
    bindings: Bindings,
)
    requires
        0 <= count <= directives.len(),
        const_directives(directives.take(count), bindings) is Err,
    ensures
        const_directives(directives, bindings) == const_directives(
            directives.take(count),
            bindings,
        ),
    decreases directives.len() - count,
{
    if count < directives.len() {
        assert(directives.take(count + 1).drop_last() =~= directives.take(count));
        lemma_directives_prefix(directives, count + 1, bindings);
    } else {
        assert(directives.take(count) =~= directives);
    }
}

/// Copies a name with its position.
fn copy_name(name: &Positioned<String>) -> (copy: Positioned<String>)
    ensures
        copy == *name,
{
    Positioned::new(name.node.clone(), name.pos)
}

/// The names and values of some arguments.
pub open spec fn named_values(arguments: Seq<ArgumentView>) -> Seq<(Seq<char>, ValueView)> {
    Seq::new(arguments.len(), |i: int| (arguments[i].name.node@, arguments[i].value))
}

impl<'a, V> SelectionField<'a, V> {
    /// Replaces the variables in some arguments.
    fn resolve_arguments(&self, arguments: &Arguments) -> (outcome: ServerResult<
        Vec<(Positioned<String>, Positioned<Value>)>,
    >)
        ensures
            match const_arguments(arguments@, self.context.bindings()) {
                Ok(expected) => outcome matches Ok(found) && argument_views(found@) == expected,
                Err(missing) => outcome matches Err(error) && is_undefined(error, missing),
            },
    {
        let mut found: Vec<(Positioned<String>, Positioned<Value>)> = Vec::with_capacity(
            arguments.len(),
        );
        let count: usize = arguments.len();
        assert(arguments@.take(0) =~= Seq::empty());
        assert(argument_views(found@) =~= Seq::empty());
        for i in 0..count
            invariant
                count == arguments@.len(),
                const_arguments(arguments@.take(i as int), self.context.bindings()) == Ok::<
                    Seq<ArgumentView>,
                    (Seq<char>, Pos),
                >(argument_views(found@)),
        {
            assert(arguments@.take(i + 1).drop_last() =~= arguments@.take(i as int));
            assert(arguments@.take(i + 1).last() == arguments@[i as int]);
            let name: &Positioned<String> = &arguments[i].0;
            let value: &Positioned<InputValue> = &arguments[i].1;
            match self.context.resolve_at(&value.node, name.pos) {
                Ok(resolved) => {
                    let ghost before = found@;
                    found.push((copy_name(name), value.position_node(resolved)));
                    assert(argument_views(found@) =~= argument_views(before).push(
                        ArgumentView { name: *name, pos: value.pos, value: resolved.view() },
                    ));
                },
                Err(error) => {
                    proof {
                        lemma_arguments_prefix(arguments@, i + 1, self.context.bindings());
                    }
                    return Err(error);
                },
            }
        }
        assert(arguments@.take(count as int) =~= arguments@);
        Ok(found)
    }

    /// Replaces the variables in the directives of this field.
    fn resolve_own_directives(&self) -> (outcome: ServerResult<Vec<ConstDirective>>)
        ensures
            match const_directives(self.field.directives@, self.context.bindings()) {
                Ok(expected) => outcome matches Ok(found) && directive_views(found@) == expected,
                Err(missing) => outcome matches Err(error) && is_undefined(error, missing),
            },
    {
        let directives: &'a Vec<Positioned<Directive>> = &self.field.directives;
        let mut found: Vec<ConstDirective> = Vec::with_capacity(directives.len());
        let count: usize = directives.len();
        assert(directives@.take(0) =~= Seq::empty());
        assert(directive_views(found@) =~= Seq::empty());
        for i in 0..count
            invariant
                count == directives@.len(),
                *directives == self.field.directives,
                const_directives(directives@.take(i as int), self.context.bindings()) == Ok::<
                    Seq<DirectiveView>,
                    (Seq<char>, Pos),
                >(directive_views(found@)),
        {
            assert(directives@.take(i + 1).drop_last() =~= directives@.take(i as int));
            assert(directives@.take(i + 1).last() == directives@[i as int]);
            let directive: &Directive = &directives[i].node;
            match self.resolve_arguments(&directive.arguments) {
                Ok(arguments) => {
                    let ghost before = found@;
                    found.push(ConstDirective { name: copy_name(&directive.name), arguments });
                    assert(directive_views(found@) =~= directive_views(before).push(
                        DirectiveView {
                            name: directive.name,
                            arguments: argument_views(arguments@),
                        },
                    ));
                },
                Err(error) => {
                    proof {
                        lemma_directives_prefix(directives@, i + 1, self.context.bindings());
                    }
                    return Err(error);
                },
            }
        }
        assert(directives@.take(count as int) =~= directives@);
        Ok(found)
    }

    /// Replaces the variables in the arguments of this field.
    fn resolve_own_arguments(&self) -> (outcome: ServerResult<Vec<(String, Value)>>)
        ensures
            match const_arguments(self.field.arguments@, self.context.bindings()) {
                Ok(expected) => outcome matches Ok(found) && entry_views(found@) == named_values(
                    expected,
                ),
                Err(missing) => outcome matches Err(error) && is_undefined(error, missing),
            },
    {
        let arguments: &'a Arguments = &self.field.arguments;
        let mut found: Vec<(String, Value)> = Vec::with_capacity(arguments.len());
        let count: usize = arguments.len();
        assert(arguments@.take(0) =~= Seq::empty());
        assert(entry_views(found@) =~= named_values(Seq::empty()));
        for i in 0..count
            invariant
                count == arguments@.len(),
                *arguments == self.field.arguments,
                const_arguments(arguments@.take(i as int), self.context.bindings()) is Ok,
                entry_views(found@) == named_values(
                    const_arguments(arguments@.take(i as int), self.context.bindings())->Ok_0,
                ),
        {
            assert(arguments@.take(i + 1).drop_last() =~= arguments@.take(i as int));
            assert(arguments@.take(i + 1).last() == arguments@[i as int]);
            let name: &Positioned<String> = &arguments[i].0;
            match self.context.resolve_at(&arguments[i].1.node, name.pos) {
                Ok(value) => {
                    let ghost before = found@;
                    found.push((name.node.clone(), value));
                    assert(entry_views(found@) =~= entry_views(before).push(
                        (name.node@, value.view()),
                    ));
                    assert(entry_views(found@) =~= named_values(
                        const_arguments(arguments@.take(i + 1), self.context.bindings())->Ok_0,
                    ));
                },
                Err(error) => {
                    proof {
                        lemma_arguments_prefix(arguments@, i + 1, self.context.bindings());
                    }
                    return Err(error);
                },
            }
        }
        assert(arguments@.take(count as int) =~= arguments@);
        Ok(found)
    }
}

impl<'a, V> SelectionField<'a, V> {
    /// Get the directives of this field.
    pub fn directives(&self) -> (outcome: ServerResult<Vec<ConstDirective>>)
        ensures
            match const_directives(self.field.directives@, self.context.bindings()) {
                Ok(expected) => outcome matches Ok(found) && directive_views(found@) == expected,
                Err(missing) => outcome matches Err(error) && is_undefined(error, missing),
            },
            match outcome {
                Ok(found) => {
                    &&& found@.len() == self.field.directives@.len()
                    &&& forall|i: int|
                        0 <= i < found@.len() ==> (#[trigger] found@[i]).name
                            == self.field.directives@[i].node.name && found@[i].arguments@.len()
                            == self.field.directives@[i].node.arguments@.len()
                    &&& forall|i: int, j: int|
                        0 <= i < found@.len() && 0 <= j < found@[i].arguments@.len() ==> {
                            let given = self.field.directives@[i].node.arguments@[j];
                            let argument = #[trigger] found@[i].arguments@[j];
                            &&& argument.0 == given.0
                            &&& argument.1.pos == given.1.pos
                            &&& substitute(given.1.node.view(), self.context.bindings()) == Ok::<
                                ValueView,
                                Seq<char>,
                            >(argument.1.node.view())
                        }
                },
                Err(error) => exists|i: int, k: int|
                    {
                        &&& 0 <= i < self.field.directives@.len()
                        &&& 0 <= k < self.field.directives@[i].node.arguments@.len()
                        &&& substitute(
                            (#[trigger] self.field.directives@[i].node.arguments@[k]).1.node.view(),
                            self.context.bindings(),
                        ) matches Err(variable)
                        &&& error.message@ == "Variable "@ + variable + " is not defined."@
                        &&& error.locations@ == seq![
                            self.field.directives@[i].node.arguments@[k].0.pos,
                        ]
                        &&& forall|j: int|
                            0 <= j < k ==> substitute(
                                (
                                #[trigger] self.field.directives@[i].node.arguments@[j]).1.node.view(),
                                self.context.bindings(),
                            ) is Ok
                        &&& forall|h: int, j: int|
                            0 <= h < i && 0 <= j < self.field.directives@[h].node.arguments@.len()
                                ==> substitute(
                                (
                                #[trigger] self.field.directives@[h].node.arguments@[j]).1.node.view(),
                                self.context.bindings(),
                            ) is Ok
                    },
            },
    {
        let outcome = self.resolve_own_directives();
        proof {
            let given = self.field.directives@;
            let bindings = self.context.bindings();
            law_directives_one_by_one(given, bindings);
            law_directives_first_failure(given, bindings);
            if outcome is Ok {
                let found = outcome->Ok_0;
                let expected = const_directives(given, bindings)->Ok_0;
                assert forall|i: int| 0 <= i < found@.len() implies (#[trigger] found@[i]).name
                    == given[i].node.name && found@[i].arguments@.len()
                    == given[i].node.arguments@.len() by {
                    assert(directive_views(found@)[i] == expected[i]);
                    assert(argument_views(found@[i].arguments@) == expected[i].arguments);
                    law_arguments_one_by_one(given[i].node.arguments@, bindings);
                }
                assert forall|i: int, j: int|
                    0 <= i < found@.len() && 0 <= j < found@[i].arguments@.len() implies {
                    let written = given[i].node.arguments@[j];
                    let argument = #[trigger] found@[i].arguments@[j];
                    &&& argument.0 == written.0
                    &&& argument.1.pos == written.1.pos
                    &&& substitute(written.1.node.view(), bindings) == Ok::<ValueView, Seq<char>>(
                        argument.1.node.view(),
                    )
                } by {
                    assert(directive_views(found@)[i] == expected[i]);
                    assert(argument_views(found@[i].arguments@)[j] == expected[i].arguments[j]);
                    law_arguments_one_by_one(given[i].node.arguments@, bindings);
                }
            } else {
                let missing = const_directives(given, bindings)->Err_0;
                let i = choose|i: int|
                    {
                        &&& 0 <= i < given.len()
                        &&& const_arguments((#[trigger] given[i]).node.arguments@, bindings)
                            == Err::<Seq<ArgumentView>, (Seq<char>, Pos)>(missing)
                        &&& forall|j: int|
                            0 <= j < i ==> const_arguments(
                                (#[trigger] given[j]).node.arguments@,
                                bindings,
                            ) is Ok
                    };
                let arguments = given[i].node.arguments@;
                law_arguments_first_failure(arguments, bindings);
                let k = choose|k: int|
                    {
                        &&& 0 <= k < arguments.len()
                        &&& substitute((#[trigger] arguments[k]).1.node.view(), bindings) == Err::<
                            ValueView,
                            Seq<char>,
                        >(missing.0)
                        &&& missing.1 == arguments[k].0.pos
                        &&& forall|j: int|
                            0 <= j < k ==> substitute(
                                (#[trigger] arguments[j]).1.node.view(),
                                bindings,
                            ) is Ok
                    };
                assert forall|h: int, j: int|
                    0 <= h < i && 0 <= j < given[h].node.arguments@.len() implies substitute(
                    (#[trigger] given[h].node.arguments@[j]).1.node.view(),
                    bindings,
                ) is Ok by {
                    law_arguments_first_failure(given[h].node.arguments@, bindings);
                }
                assert(given[i].node.arguments@[k] == arguments[k]);
            }
        }
        outcome
    }

    /// Get the arguments of this field.
    pub fn arguments(&self) -> (outcome: ServerResult<Vec<(String, Value)>>)
        ensures
            match const_arguments(self.field.arguments@, self.context.bindings()) {
                Ok(expected) => outcome matches Ok(found) && entry_views(found@) == named_values(
                    expected,
                ),
                Err(missing) => outcome matches Err(error) && is_undefined(error, missing),
            },
            match outcome {
                Ok(found) => {
                    &&& found@.len() == self.field.arguments@.len()
                    &&& forall|i: int|
                        0 <= i < found@.len() ==> (#[trigger] found@[i]).0@
                            == self.field.arguments@[i].0.node@ && substitute(
                            self.field.arguments@[i].1.node.view(),
                            self.context.bindings(),
                        ) == Ok::<ValueView, Seq<char>>(found@[i].1.view())
                },
                Err(error) => exists|k: int|
                    {
                        &&& 0 <= k < self.field.arguments@.len()
                        &&& substitute(
                            (#[trigger] self.field.arguments@[k]).1.node.view(),
                            self.context.bindings(),
                        ) matches Err(variable)
                        &&& error.message@ == "Variable "@ + variable + " is not defined."@
                        &&& error.locations@ == seq![self.field.arguments@[k].0.pos]
                        &&& forall|j: int|
                            0 <= j < k ==> substitute(
                                (#[trigger] self.field.arguments@[j]).1.node.view(),
                                self.context.bindings(),
                            ) is Ok
                    },
            },
    {
        let outcome = self.resolve_own_arguments();
        proof {
            let given = self.field.arguments@;
            let bindings = self.context.bindings();
            law_arguments_one_by_one(given, bindings);
            law_arguments_first_failure(given, bindings);
            if outcome is Ok {
                let found = outcome->Ok_0;
                let expected = const_arguments(given, bindings)->Ok_0;
                assert(entry_views(found@).len() == named_values(expected).len());
                assert forall|i: int| 0 <= i < found@.len() implies (#[trigger] found@[i]).0@
                    == given[i].0.node@ && substitute(given[i].1.node.view(), bindings) == Ok::<
                    ValueView,
                    Seq<char>,
                >(found@[i].1.view()) by {
                    assert(entry_views(found@)[i] == named_values(expected)[i]);
                    assert(expected[i].name == given[i].0);
                }
            }
        }
        outcome
    }
}

/// The arguments of a field or directive keep their names, their positions and their order, and
/// each value stands for what it stands for alone.
pub proof fn law_arguments_one_by_one(
    arguments: Seq<(Positioned<String>, Positioned<InputValue>)>,
    bindings: Bindings,
)
    ensures
        const_arguments(arguments, bindings) matches Ok(found) ==> {
            &&& found.len() == arguments.len()
            &&& forall|i: int|
                0 <= i < found.len() ==> (#[trigger] found[i]).name == arguments[i].0
                    && found[i].pos == arguments[i].1.pos && substitute(
                    arguments[i].1.node.view(),
                    bindings,
                ) == Ok::<ValueView, Seq<char>>(found[i].value)
        },
    decreases arguments.len(),
{
    if arguments.len() > 0 {
        let earlier = arguments.drop_last();
        law_arguments_one_by_one(earlier, bindings);
        if let Ok(found) = const_arguments(arguments, bindings) {
            let before = const_arguments(earlier, bindings)->Ok_0;
            assert forall|i: int| 0 <= i < found.len() implies (#[trigger] found[i]).name
                == arguments[i].0 && found[i].pos == arguments[i].1.pos && substitute(
                arguments[i].1.node.view(),
                bindings,
            ) == Ok::<ValueView, Seq<char>>(found[i].value) by {
                if i < earlier.len() {
                    assert(found[i] == before[i]);
                    assert(earlier[i] == arguments[i]);
                }
            }
        }
    }
}

/// The directives of a field keep their names and their order, and each has the arguments that it
/// has alone.
pub proof fn law_directives_one_by_one(
    directives: Seq<Positioned<Directive>>,
    bindings: Bindings,
)
    ensures
        const_directives(directives, bindings) matches Ok(found) ==> {
            &&& found.len() == directives.len()
            &&& forall|i: int|
                0 <= i < found.len() ==> (#[trigger] found[i]).name == directives[i].node.name
                    && const_arguments(directives[i].node.arguments@, bindings) == Ok::<
                    Seq<ArgumentView>,
                    (Seq<char>, Pos),
                >(found[i].arguments)
        },
    decreases directives.len(),
{
    if directives.len() > 0 {
        let earlier = directives.drop_last();
        law_directives_one_by_one(earlier, bindings);
        if let Ok(found) = const_directives(directives, bindings) {
            let before = const_directives(earlier, bindings)->Ok_0;
            assert forall|i: int| 0 <= i < found.len() implies (#[trigger] found[i]).name
                == directives[i].node.name && const_arguments(
                directives[i].node.arguments@,
                bindings,
            ) == Ok::<Seq<ArgumentView>, (Seq<char>, Pos)>(found[i].arguments) by {
                if i < earlier.len() {
                    assert(found[i] == before[i]);
                    assert(earlier[i] == directives[i]);
                }
            }
        }
    }
}

/// Arguments are resolved exactly if each of their values is; otherwise they fail as the first one
/// whose value is not, at the place of its name.
pub proof fn law_arguments_first_failure(
    arguments: Seq<(Positioned<String>, Positioned<InputValue>)>,
    bindings: Bindings,
)
    ensures
        const_arguments(arguments, bindings) is Ok <==> forall|i: int|
            0 <= i < arguments.len() ==> substitute(
                (#[trigger] arguments[i]).1.node.view(),
                bindings,
            ) is Ok,
        const_arguments(arguments, bindings) matches Err(missing) ==> exists|k: int|
            {
                &&& 0 <= k < arguments.len()
                &&& substitute((#[trigger] arguments[k]).1.node.view(), bindings) == Err::<
                    ValueView,
                    Seq<char>,
                >(missing.0)
                &&& missing.1 == arguments[k].0.pos
                &&& forall|j: int|
                    0 <= j < k ==> substitute((#[trigger] arguments[j]).1.node.view(), bindings)
                        is Ok
            },
    decreases arguments.len(),
{
    if arguments.len() > 0 {
        let earlier = arguments.drop_last();
        let last = arguments.len() - 1;
        law_arguments_first_failure(earlier, bindings);
        assert forall|i: int| 0 <= i < earlier.len() implies #[trigger] earlier[i]
            == arguments[i] by {}
        if const_arguments(earlier, bindings) is Err {
            let missing = const_arguments(earlier, bindings)->Err_0;
            let k = choose|k: int|
                {
                    &&& 0 <= k < earlier.len()
                    &&& substitute((#[trigger] earlier[k]).1.node.view(), bindings) == Err::<
                        ValueView,
                        Seq<char>,
                    >(missing.0)
                    &&& missing.1 == earlier[k].0.pos
                    &&& forall|j: int|
                        0 <= j < k ==> substitute((#[trigger] earlier[j]).1.node.view(), bindings)
                            is Ok
                };
            assert(arguments[k] == earlier[k]);
            assert forall|j: int| 0 <= j < k implies substitute(
                (#[trigger] arguments[j]).1.node.view(),
                bindings,
            ) is Ok by {
                assert(earlier[j] == arguments[j]);
            }
        } else {
            assert forall|j: int| 0 <= j < last implies substitute(
                (#[trigger] arguments[j]).1.node.view(),
                bindings,
            ) is Ok by {
                assert(earlier[j] == arguments[j]);
            }
            assert(arguments[last] == arguments.last());
        }
    }
}

/// Directives are resolved exactly if the arguments of each of them are; otherwise they fail as
/// those of the first one that are not.
pub proof fn law_directives_first_failure(
    directives: Seq<Positioned<Directive>>,
    bindings: Bindings,
)
    ensures
        const_directives(directives, bindings) is Ok <==> forall|i: int|
            0 <= i < directives.len() ==> const_arguments(
                (#[trigger] directives[i]).node.arguments@,
                bindings,
            ) is Ok,
        const_directives(directives, bindings) matches Err(missing) ==> exists|k: int|
            {
                &&& 0 <= k < directives.len()
                &&& const_arguments((#[trigger] directives[k]).node.arguments@, bindings) == Err::<
                    Seq<ArgumentView>,
                    (Seq<char>, Pos),
                >(missing)
                &&& forall|j: int|
                    0 <= j < k ==> const_arguments(
                        (#[trigger] directives[j]).node.arguments@,
                        bindings,
                    ) is Ok
            },
    decreases directives.len(),
{
    if directives.len() > 0 {
        let earlier = directives.drop_last();
        let last = directives.len() - 1;
        law_directives_first_failure(earlier, bindings);
        assert forall|i: int| 0 <= i < earlier.len() implies #[trigger] earlier[i]
            == directives[i] by {}
        if const_directives(earlier, bindings) is Err {
            let missing = const_directives(earlier, bindings)->Err_0;
            let k = choose|k: int|
                {
                    &&& 0 <= k < earlier.len()
                    &&& const_arguments((#[trigger] earlier[k]).node.arguments@, bindings) == Err::<
                        Seq<ArgumentView>,
                        (Seq<char>, Pos),
                    >(missing)
                    &&& forall|j: int|
                        0 <= j < k ==> const_arguments(
                            (#[trigger] earlier[j]).node.arguments@,
                            bindings,
                        ) is Ok
                };
            assert(directives[k] == earlier[k]);
            assert forall|j: int| 0 <= j < k implies const_arguments(
                (#[trigger] directives[j]).node.arguments@,
                bindings,
            ) is Ok by {
                assert(earlier[j] == directives[j]);
            }
        } else {
            assert forall|j: int| 0 <= j < last implies const_arguments(
                (#[trigger] directives[j]).node.arguments@,
                bindings,
            ) is Ok by {
                assert(earlier[j] == directives[j]);
            }
            assert(directives[last] == directives.last());
        }
    }
}

/// Arguments and directives are read one by one: names, positions and values as they are.
pub proof fn law_argument_views(
    arguments: Seq<(Positioned<String>, Positioned<Value>)>,
    directives: Seq<ConstDirective>,
    resolved: Seq<ArgumentView>,
)
    ensures
        argument_views(arguments).len() == arguments.len(),
        forall|i: int|
            0 <= i < arguments.len() ==> {
                let view = #[trigger] argument_views(arguments)[i];
                &&& view.name == arguments[i].0
                &&& view.pos == arguments[i].1.pos
                &&& view.value == arguments[i].1.node.view()
            },
        directive_views(directives).len() == directives.len(),
        forall|i: int|
            0 <= i < directives.len() ==> {
                let view = #[trigger] directive_views(directives)[i];
                &&& view.name == directives[i].name
                &&& view.arguments == argument_views(directives[i].arguments@)
            },
        named_values(resolved).len() == resolved.len(),
        forall|i: int|
            0 <= i < resolved.len() ==> {
                let view = #[trigger] named_values(resolved)[i];
                &&& view.0 == resolved[i].name.node@
                &&& view.1 == resolved[i].value
            },
{
}

} // verus!
