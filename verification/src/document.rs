//! The parts of a parsed request that a context reads.
use vstd::hash_map::StringHashMap;
use vstd::prelude::*;

use crate::pos::Positioned;
use crate::value::{InputValue, Value};

verus! {

/// The values a client sent for the variables of its request.
pub type Variables = StringHashMap<Value>;

/// The fragments a request defines, by name.
pub type Fragments = StringHashMap<Positioned<FragmentDefinition>>;

/// Arguments as a client writes them: names and values, in order.
pub type Arguments = Vec<(Positioned<String>, Positioned<InputValue>)>;

/// A field being selected, such as `key: name(unit: KILOGRAMS) { part }`.
#[derive(Debug)]
pub struct Field {
    /// The name the client gave the field, if any.
    pub alias: Option<Positioned<String>>,
    /// The name of the field.
    pub name: Positioned<String>,
    /// The arguments of the field.
    pub arguments: Arguments,
    /// The directives of the field.
    pub directives: Vec<Positioned<Directive>>,
    /// What is selected inside the field.
    pub selection_set: Positioned<SelectionSet>,
}

impl Field {
    /// The key under which the field is answered: its alias if it has one, else its name.
    pub open spec fn key(&self) -> Positioned<String> {
        match self.alias {
            Some(alias) => alias,
            None => self.name,
        }
    }

    /// The key under which the field is answered.
    pub fn response_key(&self) -> (key: &Positioned<String>)
        ensures
            *key == self.key(),
            self.alias matches Some(alias) ==> *key == alias,
            self.alias is None ==> *key == self.name,
    {
        match &self.alias {
            Some(alias) => alias,
            None => &self.name,
        }
    }
}

/// A directive, such as `@include(if: $wanted)`.
#[derive(Debug)]
pub struct Directive {
    /// The name of the directive.
    pub name: Positioned<String>,
    /// The arguments of the directive.
    pub arguments: Arguments,
}

/// A directive whose arguments hold no variables.
#[derive(Debug)]
pub struct ConstDirective {
    /// The name of the directive.
    pub name: Positioned<String>,
    /// The arguments of the directive.
    pub arguments: Vec<(Positioned<String>, Positioned<Value>)>,
}

/// A set of selections, such as `{ name age }`.
#[derive(Debug)]
pub struct SelectionSet {
    /// The selections, in order.
    pub items: Vec<Positioned<Selection>>,
}

/// One item of a selection set.
#[derive(Debug)]
pub enum Selection {
    /// A field.
    Field(Positioned<Field>),
    /// A fragment, by name.
    FragmentSpread(Positioned<FragmentSpread>),
    /// A fragment written in place.
    InlineFragment(Positioned<InlineFragment>),
}

/// A fragment named in a selection set, such as `... userFields`.
#[derive(Debug)]
pub struct FragmentSpread {
    /// The name of the fragment.
    pub fragment_name: Positioned<String>,
    /// The directives of the spread.
    pub directives: Vec<Positioned<Directive>>,
}

/// A fragment written in place, such as `... on User { name }`.
#[derive(Debug)]
pub struct InlineFragment {
    /// The type the fragment applies to, if it says so.
    pub type_condition: Option<Positioned<TypeCondition>>,
    /// The directives of the fragment.
    pub directives: Vec<Positioned<Directive>>,
    /// What the fragment selects.
    pub selection_set: Positioned<SelectionSet>,
}

/// A fragment definition, such as `fragment userFields on User { name }`.
#[derive(Debug)]
pub struct FragmentDefinition {
    /// The type the fragment applies to.
    pub type_condition: Positioned<TypeCondition>,
    /// The directives of the fragment.
    pub directives: Vec<Positioned<Directive>>,
    /// What the fragment selects.
    pub selection_set: Positioned<SelectionSet>,
}

/// The type a fragment applies to.
#[derive(Debug)]
pub struct TypeCondition {
    /// The name of the type.
    pub on: Positioned<String>,
}

/// The kind of an operation.
#[derive(Debug, Clone, Copy, PartialEq, Eq, Structural)]
pub enum OperationType {
    /// A query.
    Query,
    /// A mutation.
    Mutation,
    /// A subscription.
    Subscription,
}

/// The operation being executed.
#[derive(Debug)]
pub struct OperationDefinition {
    /// The kind of the operation.
    pub ty: OperationType,
    /// The variables the operation declares.
    pub variable_definitions: Vec<Positioned<VariableDefinition>>,
    /// The directives of the operation.
    pub directives: Vec<Positioned<Directive>>,
    /// What the operation selects.
    pub selection_set: Positioned<SelectionSet>,
}

/// A type that a variable is declared with, such as `[String!]`.
#[derive(Debug)]
pub struct Type {
    /// The type without its outermost `!`, as it is written.
    pub base: String,
    /// Whether the type admits `null`.
    pub nullable: bool,
}

/// The declaration of a variable, such as `$name: String = "me"`.
#[derive(Debug)]
pub struct VariableDefinition {
    /// The name of the variable, without the leading `$`.
    pub name: Positioned<String>,
    /// The type of the variable.
    pub var_type: Positioned<Type>,
    /// The directives of the declaration.
    pub directives: Vec<Positioned<Directive>>,
    /// The default value, if one is declared.
    pub default_value: Option<Positioned<Value>>,
}

/// A field is answered under its alias whenever it has one and under its name whenever it has none,
/// whatever its arguments, directives and selections are.
pub proof fn law_field_key(field: Field)
    ensures
        field.alias matches Some(alias) ==> field.key() == alias,
        field.alias is None ==> field.key() == field.name,
{
}

/// Fields with one alias and one name are answered under one key.
pub proof fn law_field_key_rests_on_names(left: Field, right: Field)
    requires
        left.alias == right.alias,
        left.name == right.name,
    ensures
        left.key() == right.key(),
{
}

} // verus!
