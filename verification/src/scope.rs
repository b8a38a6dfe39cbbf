//! The variables an operation can use.
use vstd::prelude::*;

use crate::document::{VariableDefinition, Variables};
use crate::pos::Positioned;
use crate::text::same_text;
use crate::value::{named_once, optional_view, Bindings, Value, ValueView};

verus! {

impl VariableDefinition {
    /// What a variable stands for when the client sent nothing: the declared default, else `null`
    /// if the type admits it, else nothing.
    pub open spec fn fallback(&self) -> Option<ValueView> {
        match self.default_value {
            Some(value) => Some(value.node.view()),
            None => if self.var_type.node.nullable {
                Some(ValueView::Null)
            } else {
                None
            },
        }
    }

    /// What a variable stands for when the client sent nothing.
    pub fn default_value(&self) -> (value: Option<Value>)
        ensures
            optional_view(value) == self.fallback(),
            match value {
                Some(found) => if self.default_value is Some {
                    found.view() == self.default_value->0.node.view()
                } else {
                    self.var_type.node.nullable && found == Value::Null
                },
                None => self.default_value is None && !self.var_type.node.nullable,
            },
    {
        match &self.default_value {
            Some(value) => Some(value.node.clone()),
            None => if self.var_type.node.nullable {
                Some(Value::Null)
            } else {
                None
            },
        }
    }
}

/// The position of the first declaration of a variable.
pub open spec fn declares(
    definitions: Seq<Positioned<VariableDefinition>>,
    name: Seq<char>,
    index: int,
) -> bool {
    &&& 0 <= index < definitions.len()
    &&& definitions[index].node.name.node@ == name
    &&& forall|i: int|
        0 <= i < index ==> (#[trigger] definitions[i]).node.name.node@ != name
}

/// What a variable stands for: nothing unless the operation declares it; then what the client
/// sent, else what its first declaration falls back to.
pub open spec fn variable_value(
    definitions: Seq<Positioned<VariableDefinition>>,
    variables: Map<Seq<char>, Value>,
    name: Seq<char>,
) -> Option<ValueView> {
    if exists|index: int| declares(definitions, name, index) {
        if variables.contains_key(name) {
            Some(variables[name].view())
        } else {
            definitions[choose|index: int| declares(definitions, name, index)].node.fallback()
        }
    } else {
        None
    }
}

/// The variables an operation declares, with the values a client sent for them.
pub struct Scope<'a> {
    /// The declarations of the operation.
    pub definitions: &'a Vec<Positioned<VariableDefinition>>,
    /// The values the client sent.
    pub variables: &'a Variables,
}

impl<'a> Scope<'a> {
    /// What each variable stands for.
    pub open spec fn bindings(&self) -> Bindings {
        |name: Seq<char>| variable_value(self.definitions@, self.variables@, name)
    }

    /// What one variable stands for.
    pub fn value_of(&self, name: &str) -> (value: Option<Value>)
        ensures
            optional_view(value) == self.bindings()(name@),
    {
        let count: usize = self.definitions.len();
        for i in 0..count
            invariant
                count == self.definitions@.len(),
                forall|j: int|
                    0 <= j < i ==> (#[trigger] self.definitions@[j]).node.name.node@ != name@,
        {
            let definition: &VariableDefinition = &self.definitions[i].node;
            if same_text(definition.name.node.as_str(), name) {
                proof {
                    assert(declares(self.definitions@, name@, i as int));
                    let first = choose|index: int| declares(self.definitions@, name@, index);
                    assert(first == i) by {
                        if first < i {
                            assert(self.definitions@[first].node.name.node@ != name@);
                        } else if i < first {
                            assert(self.definitions@[i as int].node.name.node@ != name@);
                        }
                    }
                }
                return match self.variables.get(name) {
                    Some(value) => Some(value.clone()),
                    None => definition.default_value(),
                };
            }
        }
        assert(forall|index: int| !declares(self.definitions@, name@, index));
        None
    }
}

/// A variable that the operation does not declare stands for nothing, whatever the client sent.
pub proof fn law_undeclared_variable(
    definitions: Seq<Positioned<VariableDefinition>>,
    variables: Map<Seq<char>, Value>,
    name: Seq<char>,
)
    requires
        forall|i: int|
            0 <= i < definitions.len() ==> (#[trigger] definitions[i]).node.name.node@ != name,
    ensures
        variable_value(definitions, variables, name) is None,
{
}

/// A declared variable stands for what the client sent, if it sent anything, and else for what its
/// first declaration falls back to: the default, or `null` if the type admits it, or nothing.
pub proof fn law_declared_variable(
    definitions: Seq<Positioned<VariableDefinition>>,
    variables: Map<Seq<char>, Value>,
    index: int,
)
    requires
        0 <= index < definitions.len(),
        forall|i: int|
            0 <= i < index ==> (#[trigger] definitions[i]).node.name.node@
                != definitions[index].node.name.node@,
    ensures
        variable_value(definitions, variables, definitions[index].node.name.node@) == ({
            let definition = definitions[index].node;
            let name = definition.name.node@;
            if variables.contains_key(name) {
                Some(variables[name].view())
            } else if definition.default_value is Some {
                Some(definition.default_value->0.node.view())
            } else if definition.var_type.node.nullable {
                Some(ValueView::Null)
            } else {
                None
            }
        }),
{
    let name = definitions[index].node.name.node@;
    assert(declares(definitions, name, index));
    let first = choose|i: int| declares(definitions, name, i);
    assert(first == index) by {
        if first < index {
            assert(definitions[first].node.name.node@ != name);
        } else if index < first {
            assert(definitions[index].node.name.node@ != name);
        }
    }
}

/// In a scope every name stands for what its declarations and the values that were sent make of
/// it: nothing if it is not declared, else what was sent, else what its first declaration falls
/// back to.
pub proof fn law_scope_binds<'a>(scope: Scope<'a>, name: Seq<char>)
    ensures
        (forall|i: int|
            0 <= i < scope.definitions@.len() ==> (
            #[trigger] scope.definitions@[i]).node.name.node@ != name) ==> scope.bindings()(name)
            is None,
        forall|index: int|
            {
                &&& 0 <= index < scope.definitions@.len()
                &&& (#[trigger] scope.definitions@[index]).node.name.node@ == name
                &&& forall|i: int|
                    0 <= i < index ==> (#[trigger] scope.definitions@[i]).node.name.node@ != name
            } ==> scope.bindings()(name) == ({
                let definition = scope.definitions@[index].node;
                if scope.variables@.contains_key(name) {
                    Some(scope.variables@[name].view())
                } else if definition.default_value is Some {
                    Some(definition.default_value->0.node.view())
                } else if definition.var_type.node.nullable {
                    Some(ValueView::Null)
                } else {
                    None
                }
            }),
{
    assert forall|index: int|
        {
            &&& 0 <= index < scope.definitions@.len()
            &&& (#[trigger] scope.definitions@[index]).node.name.node@ == name
            &&& forall|i: int|
                0 <= i < index ==> (#[trigger] scope.definitions@[i]).node.name.node@ != name
        } implies scope.bindings()(name) == ({
        let definition = scope.definitions@[index].node;
        if scope.variables@.contains_key(name) {
            Some(scope.variables@[name].view())
        } else if definition.default_value is Some {
            Some(definition.default_value->0.node.view())
        } else if definition.var_type.node.nullable {
            Some(ValueView::Null)
        } else {
            None
        }
    }) by {
        law_declared_variable(scope.definitions@, scope.variables@, index);
    }
}

/// If neither what the client sent nor a declared default holds an object with two entries of one
/// name, no variable stands for one.
pub proof fn law_variables_name_once(
    definitions: Seq<Positioned<VariableDefinition>>,
    variables: Map<Seq<char>, Value>,
    name: Seq<char>,
)
    requires
        forall|sent: Seq<char>| #[trigger]
            variables.contains_key(sent) ==> named_once(variables[sent].view()),
        forall|i: int|
            0 <= i < definitions.len() ==> ((#[trigger] definitions[i]).node.default_value matches
                Some(value) ==> named_once(value.node.view())),
    ensures
        variable_value(definitions, variables, name) matches Some(value) ==> named_once(value),
{
}

} // verus!
