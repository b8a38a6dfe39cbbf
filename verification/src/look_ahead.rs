//! Looking at the forthcoming selections.
use std::ops::Deref;
use vstd::prelude::*;

use crate::context::{Context, ContextBase};
use crate::document::{Field, Fragments};
use crate::pos::Positioned;
use crate::selection::{field_views, SelectionField};
use crate::text::same_text;
use crate::unfold::{law_unfold_deeper, unfold, FragmentMap, Selected};

verus! {

/// A uniform interface to inspect the forthcoming selections.
#[verifier::reject_recursive_types(V)]
pub struct Lookahead<'a, V> {
    fragments: &'a Fragments,
    fields: Vec<SelectionField<'a, V>>,
    context: &'a Context<'a, V>,
}

/// Those of some fields that have a name, in order.
pub open spec fn named(fields: Seq<Selected>, name: Seq<char>) -> Seq<Selected>
    decreases fields.len(),
{
    if fields.len() == 0 {
        Seq::empty()
    } else if fields.last().field.name.node@ == name {
        named(fields.drop_last(), name).push(fields.last())
    } else {
        named(fields.drop_last(), name)
    }
}

/// The fields of a name that are selected inside some fields, in order; `None` if fragments in
/// there go deeper than `depth`.
pub open spec fn named_inside(
    fragments: FragmentMap,
    fields: Seq<Selected>,
    name: Seq<char>,
    depth: nat,
) -> Option<Seq<Selected>>
    decreases fields.len(),
{
    if fields.len() == 0 {
        Some(Seq::empty())
    } else {
        let inside = unfold(
            fragments,
            fields.last().field.selection_set.node.items@,
            None,
            depth,
        );
        match named_inside(fragments, fields.drop_last(), name, depth) {
            Some(before) if inside.complete => Some(before + named(inside.fields, name)),
            _ => None,
        }
    }
}

/// What is found within some depth is found in the same way within every larger one.
pub proof fn law_named_inside_deeper(
    fragments: FragmentMap,
    fields: Seq<Selected>,
    name: Seq<char>,
    depth: nat,
    deeper: nat,
)
    requires
        named_inside(fragments, fields, name, depth) is Some,
        depth <= deeper,
    ensures
        named_inside(fragments, fields, name, deeper) == named_inside(
            fragments,
            fields,
            name,
            depth,
        ),
    decreases fields.len(),
{
    if fields.len() > 0 {
        let items = fields.last().field.selection_set.node.items@;
        law_unfold_deeper(fragments, items, None, depth, deeper);
        law_named_inside_deeper(fragments, fields.drop_last(), name, depth, deeper);
    }
}

/// If all of some fields can be looked into, the first ones can, and each one can.
proof fn lemma_named_inside_prefix(
    fragments: FragmentMap,
    fields: Seq<Selected>,
    name: Seq<char>,
    count: int,
    depth: nat,
)
    requires
        0 <= count <= fields.len(),
        named_inside(fragments, fields, name, depth) is Some,
    ensures
        named_inside(fragments, fields.take(count), name, depth) is Some,
        count < fields.len() ==> unfold(
            fragments,
            fields[count].field.selection_set.node.items@,
            None,
            depth,
        ).complete,
    decreases fields.len(),
{
    if count < fields.len() {
        let shorter = fields.drop_last();
        if count == shorter.len() {
            assert(fields.take(count) =~= shorter);
        } else {
            lemma_named_inside_prefix(fragments, shorter, name, count, depth);
            assert(fields.take(count) =~= shorter.take(count));
        }
    } else {
        assert(fields.take(count) =~= fields);
    }
}

impl<'a, V> Lookahead<'a, V> {
    /// The fragments of the request.
    pub closed spec fn request(&self) -> Fragments {
        *self.fragments
    }

    /// The context that the fields are seen from.
    pub closed spec fn seen_from(&self) -> Context<'a, V> {
        *self.context
    }

    /// The fields that have been reached.
    pub closed spec fn view(&self) -> Seq<Selected> {
        field_views(self.fields@)
    }

    /// Whether every field that has been reached belongs to this request and context.
    #[verifier::type_invariant]
    spec fn is_consistent(&self) -> bool {
        forall|i: int|
            0 <= i < self.fields@.len() ==> (#[trigger] self.fields@[i]).fragments
                == self.fragments && self.fields@[i].context == self.context
    }

    /// Starts from one field.
    pub fn new(
        fragments: &'a Fragments,
        field: &'a Field,
        context: &'a Context<'a, V>,
    ) -> (ahead: Self)
        ensures
            ahead.request() == *fragments,
            ahead.seen_from() == *context,
            ahead@ == seq![Selected { field: *field, type_condition: None }],
    {
        let mut fields: Vec<SelectionField<'a, V>> = Vec::new();
        fields.push(SelectionField { fragments, field, context, type_condition: None });
        Lookahead { fragments, fields, context }
    }

    /// Get the fields of the specified name that are selected inside those reached so far.
    ///
    /// There must be a depth that no fragment in there exceeds.
    pub fn field(&self, name: &str) -> (ahead: Self)
        requires
            exists|depth: nat|
                (#[trigger] named_inside(self.request()@, self@, name@, depth)) is Some,
        ensures
            ahead.request() == self.request(),
            ahead.seen_from() == self.seen_from(),
            forall|depth: nat|
                (#[trigger] named_inside(self.request()@, self@, name@, depth)) matches Some(found)
                    ==> ahead@ == found,
    {
        proof {
            use_type_invariant(self);
        }
        let ghost enough = choose|depth: nat|
            (#[trigger] named_inside(self.request()@, self@, name@, depth)) is Some;
        let ghost request = self.fragments@;
        let mut found: Vec<SelectionField<'a, V>> = Vec::new();
        let count: usize = self.fields.len();
        assert(self@.take(0) =~= Seq::empty());
        assert(field_views(found@) =~= Seq::empty());
        for i in 0..count
            invariant
                count == self.fields@.len(),
                request == self.fragments@,
                self.is_consistent(),
                named_inside(request, self@, name@, enough) is Some,
                named_inside(request, self@.take(i as int), name@, enough) == Some(
                    field_views(found@),
                ),
                forall|j: int|
                    0 <= j < found@.len() ==> (#[trigger] found@[j]).fragments == self.fragments
                        && found@[j].context == self.context,
        {
            let ghost before = field_views(found@);
            proof {
                lemma_named_inside_prefix(request, self@, name@, i as int, enough);
                assert(self@[i as int] == self.fields@[i as int].view());
                assert(self@.take(i + 1).drop_last() =~= self@.take(i as int));
            }
            let iter = self.fields[i].selection_set();
            assert(iter.remaining(enough).complete);
            let inside = iter.collect();
            let ghost fields = field_views(inside@);
            let inner: usize = inside.len();
            assert(fields.take(0) =~= Seq::empty());
            assert(before + named(Seq::empty(), name@) =~= before);
            for j in 0..inner
                invariant
                    inner == inside@.len(),
                    fields == field_views(inside@),
                    field_views(found@) == before + named(fields.take(j as int), name@),
                    forall|k: int|
                        0 <= k < inside@.len() ==> (#[trigger] inside@[k]).fragments
                            == self.fragments && inside@[k].context == self.context,
                    forall|k: int|
                        0 <= k < found@.len() ==> (#[trigger] found@[k]).fragments
                            == self.fragments && found@[k].context == self.context,
            {
                let ghost earlier = field_views(found@);
                assert(fields.take(j + 1).drop_last() =~= fields.take(j as int));
                if same_text(inside[j].name(), name) {
                    found.push(inside[j]);
                    assert(field_views(found@) =~= earlier.push(fields[j as int]));
                    assert(field_views(found@) =~= before + named(fields.take(j + 1), name@));
                }
            }
            assert(fields.take(inner as int) =~= fields);
        }
        assert(self@.take(count as int) =~= self@);
        let ahead = Lookahead { fragments: self.fragments, fields: found, context: self.context };
        assert forall|depth: nat|
            (#[trigger] named_inside(request, self@, name@, depth)) is Some implies named_inside(
            request,
            self@,
            name@,
            depth,
        ) == Some(ahead@) by {
            if depth <= enough {
                law_named_inside_deeper(request, self@, name@, depth, enough);
            } else {
                law_named_inside_deeper(request, self@, name@, enough, depth);
            }
        }
        ahead
    }

    /// Whether any field has been reached.
    pub fn is_present(&self) -> (any: bool)
        ensures
            any == (self@.len() > 0),
    {
        self.fields.len() > 0
    }

    /// Get the fields that have been reached.
    pub fn selection_fields(&self) -> (fields: Vec<SelectionField<'a, V>>)
        ensures
            field_views(fields@) == self@,
            forall|i: int|
                0 <= i < fields@.len() ==> *(#[trigger] fields@[i]).fragments == self.request()
                    && *fields@[i].context == self.seen_from(),
    {
        proof {
            use_type_invariant(self);
        }
        let mut fields: Vec<SelectionField<'a, V>> = Vec::new();
        let count: usize = self.fields.len();
        for i in 0..count
            invariant
                count == self.fields@.len(),
                self.is_consistent(),
                fields@ == self.fields@.take(i as int),
        {
            fields.push(self.fields[i]);
        }
        assert(fields@ =~= self.fields@);
        fields
    }
}

impl<'a, V> ContextBase<'a, &'a Positioned<Field>, V> {
    /// Creates a uniform interface to inspect the forthcoming selections.
    pub fn look_ahead(&self) -> (ahead: Lookahead<'_, V>)
        ensures
            ahead.request() == self.query_env@.fragments,
            ahead.seen_from() == *self,
            ahead@ == seq![Selected { field: self.item.node, type_condition: None }],
    {
        Lookahead::new(&self.query_env.deref().fragments, &self.item.node, self)
    }

    /// Get the current field.
    pub fn field(&self) -> (field: SelectionField<'_, V>)
        ensures
            *field.fragments == self.query_env@.fragments,
            *field.field == self.item.node,
            *field.context == *self,
            field.type_condition is None,
    {
        SelectionField {
            fragments: &self.query_env.deref().fragments,
            field: &self.item.node,
            context: self,
            type_condition: None,
        }
    }
}

/// The fields of a name are exactly those of all the fields whose name it is, wherever they stand,
/// in order and as often as they occur.
pub proof fn law_named_filters(fields: Seq<Selected>, name: Seq<char>)
    ensures
        named(fields, name) == fields.filter(|field: Selected| field.field.name.node@ == name),
    decreases fields.len(),
{
    reveal(Seq::filter);
    if fields.len() > 0 {
        law_named_filters(fields.drop_last(), name);
    }
}

/// A field is found under a name exactly if it is one of the fields and has that name; nothing is
/// found only if no field has the name.
pub proof fn law_named_finds_all(fields: Seq<Selected>, name: Seq<char>)
    ensures
        forall|field: Selected| #[trigger]
            named(fields, name).contains(field) <==> fields.contains(field)
                && field.field.name.node@ == name,
        named(fields, name).len() == 0 <==> forall|i: int|
            0 <= i < fields.len() ==> (#[trigger] fields[i]).field.name.node@ != name,
    decreases fields.len(),
{
    let found = named(fields, name);
    if fields.len() > 0 {
        let earlier = fields.drop_last();
        let before = named(earlier, name);
        let last = fields.len() - 1;
        law_named_finds_all(earlier, name);
        assert forall|field: Selected| #[trigger] found.contains(field) <==> fields.contains(field)
            && field.field.name.node@ == name by {
            if found.contains(field) {
                let i = choose|i: int| 0 <= i < found.len() && found[i] == field;
                if i < before.len() {
                    assert(before[i] == field);
                    assert(before.contains(field));
                    let j = choose|j: int| 0 <= j < earlier.len() && earlier[j] == field;
                    assert(fields[j] == field);
                } else {
                    assert(fields[last] == field);
                }
            }
            if fields.contains(field) && field.field.name.node@ == name {
                let j = choose|j: int| 0 <= j < fields.len() && fields[j] == field;
                if j < last {
                    assert(earlier[j] == field);
                    assert(before.contains(field));
                    let i = choose|i: int| 0 <= i < before.len() && before[i] == field;
                    assert(found[i] == field);
                } else {
                    assert(found[found.len() - 1] == field);
                }
            }
        }
        if found.len() == 0 {
            assert forall|i: int| 0 <= i < fields.len() implies (
            #[trigger] fields[i]).field.name.node@ != name by {
                if fields[i].field.name.node@ == name {
                    assert(fields.contains(fields[i]));
                    assert(found.contains(fields[i]));
                }
            }
        } else {
            assert(found.contains(found[0]));
            let j = choose|j: int| 0 <= j < fields.len() && fields[j] == found[0];
            assert(fields[j].field.name.node@ == name);
        }
    }
}

/// Looking for a name in one field finds those of the fields inside it that have the name.
pub proof fn law_named_inside_one(
    fragments: FragmentMap,
    field: Selected,
    name: Seq<char>,
    depth: nat,
)
    ensures
        ({
            let inside = unfold(fragments, field.field.selection_set.node.items@, None, depth);
            let found = named_inside(fragments, seq![field], name, depth);
            if inside.complete {
                found == Some(
                    inside.fields.filter(|field: Selected| field.field.name.node@ == name),
                )
            } else {
                found is None
            }
        }),
{
    let one = seq![field];
    let inside = unfold(fragments, field.field.selection_set.node.items@, None, depth);
    law_named_filters(inside.fields, name);
    assert(one.drop_last() =~= Seq::empty());
    assert(named_inside(fragments, Seq::empty(), name, depth) == Some(Seq::<Selected>::empty()));
    assert(Seq::empty() + named(inside.fields, name) =~= named(inside.fields, name));
}

/// Looking for a name in several fields finds what is found in the first ones and what is found in
/// the others, in that order.
pub proof fn law_named_inside_in_order(
    fragments: FragmentMap,
    left: Seq<Selected>,
    right: Seq<Selected>,
    name: Seq<char>,
    depth: nat,
)
    ensures
        match (
            named_inside(fragments, left, name, depth),
            named_inside(fragments, right, name, depth),
        ) {
            (Some(first), Some(second)) => named_inside(fragments, left + right, name, depth)
                == Some(first + second),
            _ => named_inside(fragments, left + right, name, depth) is None,
        },
    decreases right.len(),
{
    if right.len() == 0 {
        assert(left + right =~= left);
        if let Some(first) = named_inside(fragments, left, name, depth) {
            assert(first + Seq::empty() =~= first);
        }
    } else {
        let earlier = right.drop_last();
        assert((left + right).drop_last() =~= left + earlier);
        law_named_inside_in_order(fragments, left, earlier, name, depth);
        let inside = unfold(
            fragments,
            right.last().field.selection_set.node.items@,
            None,
            depth,
        );
        if let Some(first) = named_inside(fragments, left, name, depth) {
            if let Some(second) = named_inside(fragments, earlier, name, depth) {
                assert((first + second) + named(inside.fields, name) =~= first + (second + named(
                    inside.fields,
                    name,
                )));
            }
        }
    }
}

/// A field is found under a name exactly if it has the name and is selected inside one of the
/// fields; nothing is found only if no field inside has the name.
pub proof fn law_named_inside_finds_all(
    fragments: FragmentMap,
    fields: Seq<Selected>,
    name: Seq<char>,
    depth: nat,
)
    ensures
        named_inside(fragments, fields, name, depth) is Some <==> forall|i: int|
            0 <= i < fields.len() ==> unfold(
                fragments,
                (#[trigger] fields[i]).field.selection_set.node.items@,
                None,
                depth,
            ).complete,
        named_inside(fragments, fields, name, depth) matches Some(found) ==> forall|field: Selected|
            #[trigger]
            found.contains(field) <==> field.field.name.node@ == name && exists|i: int|
                0 <= i < fields.len() && unfold(
                    fragments,
                    (#[trigger] fields[i]).field.selection_set.node.items@,
                    None,
                    depth,
                ).fields.contains(field),
    decreases fields.len(),
{
    if fields.len() > 0 {
        let earlier = fields.drop_last();
        let last = fields.len() - 1;
        let inside = unfold(
            fragments,
            fields[last].field.selection_set.node.items@,
            None,
            depth,
        );
        law_named_inside_finds_all(fragments, earlier, name, depth);
        law_named_finds_all(inside.fields, name);
        assert forall|i: int| 0 <= i < earlier.len() implies #[trigger] earlier[i] == fields[i] by {
        }
        if named_inside(fragments, fields, name, depth) is Some {
            assert forall|i: int| 0 <= i < fields.len() implies unfold(
                fragments,
                (#[trigger] fields[i]).field.selection_set.node.items@,
                None,
                depth,
            ).complete by {
                if i < last {
                    assert(earlier[i] == fields[i]);
                }
            }
            let found = named_inside(fragments, fields, name, depth)->0;
            let before = named_inside(fragments, earlier, name, depth)->0;
            let added = named(inside.fields, name);
            assert forall|field: Selected| #[trigger] found.contains(field) <==> (
            field.field.name.node@ == name && exists|i: int|
                0 <= i < fields.len() && unfold(
                    fragments,
                    (#[trigger] fields[i]).field.selection_set.node.items@,
                    None,
                    depth,
                ).fields.contains(field)) by {
                if found.contains(field) {
                    let k = choose|k: int| 0 <= k < found.len() && found[k] == field;
                    if k < before.len() {
                        assert(before[k] == field);
                        assert(before.contains(field));
                        let i = choose|i: int|
                            0 <= i < earlier.len() && unfold(
                                fragments,
                                (#[trigger] earlier[i]).field.selection_set.node.items@,
                                None,
                                depth,
                            ).fields.contains(field);
                        assert(fields[i] == earlier[i]);
                    } else {
                        assert(added[k - before.len()] == field);
                        assert(added.contains(field));
                        assert(inside.fields.contains(field));
                    }
                }
                if field.field.name.node@ == name && exists|i: int|
                    0 <= i < fields.len() && unfold(
                        fragments,
                        (#[trigger] fields[i]).field.selection_set.node.items@,
                        None,
                        depth,
                    ).fields.contains(field) {
                    let i = choose|i: int|
                        0 <= i < fields.len() && unfold(
                            fragments,
                            (#[trigger] fields[i]).field.selection_set.node.items@,
                            None,
                            depth,
                        ).fields.contains(field);
                    if i < last {
                        assert(earlier[i] == fields[i]);
                        assert(before.contains(field));
                        let k = choose|k: int| 0 <= k < before.len() && before[k] == field;
                        assert(found[k] == field);
                    } else {
                        assert(added.contains(field));
                        let k = choose|k: int| 0 <= k < added.len() && added[k] == field;
                        assert(found[before.len() + k] == field);
                    }
                }
            }
        } else {
            if forall|i: int|
                0 <= i < fields.len() ==> unfold(
                    fragments,
                    (#[trigger] fields[i]).field.selection_set.node.items@,
                    None,
                    depth,
                ).complete {
                assert forall|i: int| 0 <= i < earlier.len() implies unfold(
                    fragments,
                    (#[trigger] earlier[i]).field.selection_set.node.items@,
                    None,
                    depth,
                ).complete by {
                    assert(fields[i] == earlier[i]);
                }
                assert(fields[last] == fields.last());
            }
        }
    }
}

} // verus!
