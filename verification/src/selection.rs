//! The fields being selected.
use vstd::prelude::*;
use vstd::slice::slice_subrange;

use crate::context::Context;
use crate::document::{Field, Fragments, Selection};
use crate::pos::Positioned;
use crate::unfold::{
    cost_levels, lemma_level_done, lemma_level_enter, lemma_level_step, lemma_nothing_followed_by,
    nothing, unfold, unfold_levels, Level, Selected, Walk,
};

verus! {

/// Selection field.
#[verifier::reject_recursive_types(V)]
pub struct SelectionField<'a, V> {
    /// The fragments of the request.
    pub fragments: &'a Fragments,
    /// The field.
    pub field: &'a Field,
    /// The context that the field is seen from.
    pub context: &'a Context<'a, V>,
    /// The type of the fragment around the field.
    pub type_condition: Option<&'a str>,
}

impl<'a, V> Clone for SelectionField<'a, V> {
    fn clone(&self) -> (field: Self)
        ensures
            field == *self,
    {
        *self
    }
}

impl<'a, V> Copy for SelectionField<'a, V> {

}

/// An optional text read as a sequence.
pub open spec fn text_view(text: Option<&str>) -> Option<Seq<char>> {
    match text {
        Some(text) => Some(text@),
        None => None,
    }
}

impl<'a, V> SelectionField<'a, V> {
    /// The field and the type condition under which it is selected.
    pub open spec fn view(&self) -> Selected {
        Selected { field: *self.field, type_condition: text_view(self.type_condition) }
    }
}

/// Selections that are left to be read at one level of fragments.
struct Frame<'a> {
    items: &'a [Positioned<Selection>],
    type_condition: Option<&'a str>,
}

impl<'a> Frame<'a> {
    spec fn view(&self) -> Level {
        Level { items: self.items@, type_condition: text_view(self.type_condition) }
    }
}

spec fn frame_views<'a>(frames: Seq<Frame<'a>>) -> Seq<Level> {
    Seq::new(frames.len(), |i: int| frames[i].view())
}

/// The fields of a selection set, one by one.
#[verifier::reject_recursive_types(V)]
pub struct SelectionFieldsIter<'a, V> {
    fragments: &'a Fragments,
    frames: Vec<Frame<'a>>,
    context: &'a Context<'a, V>,
}

impl<'a, V> SelectionFieldsIter<'a, V> {
    /// The fragments of the request.
    pub closed spec fn request(&self) -> Fragments {
        *self.fragments
    }

    /// The context that the fields are seen from.
    pub closed spec fn seen_from(&self) -> Context<'a, V> {
        *self.context
    }

    /// The fields that are still to come, as far as they are found going into fragments down to
    /// `depth`.
    pub closed spec fn remaining(&self, depth: nat) -> Walk {
        unfold_levels(self.fragments@, frame_views(self.frames@), depth)
    }

    /// The next field.
    ///
    /// A search that goes round in fragments that hold no field would have no end: there must be
    /// a depth at which the search meets a field, or the end.
    pub fn next(&mut self) -> (field: Option<SelectionField<'a, V>>)
        requires
            exists|depth: nat| (#[trigger] old(self).remaining(depth)).answers(),
        ensures
            final(self).request() == old(self).request(),
            final(self).seen_from() == old(self).seen_from(),
            field matches Some(field) ==> *field.fragments == old(self).request() && *field.context
                == old(self).seen_from(),
            forall|depth: nat|
                (#[trigger] old(self).remaining(depth)).answers() ==> {
                    let walk = old(self).remaining(depth);
                    &&& final(self).remaining(depth) == walk.rest()
                    &&& match field {
                        Some(field) => walk.fields.len() > 0 && field.view() == walk.fields[0],
                        None => walk.fields.len() == 0,
                    }
                },
            field is None ==> forall|depth: nat| #[trigger]
                final(self).remaining(depth) == nothing(),
            forall|depth: nat|
                (#[trigger] old(self).remaining(depth)).fields.len() > 0 ==> {
                    let fields = old(self).remaining(depth).fields;
                    &&& final(self).remaining(depth).fields == fields.drop_first()
                    &&& final(self).remaining(depth).complete == old(self).remaining(depth).complete
                    &&& field matches Some(found)
                    &&& *found.field == fields[0].field
                    &&& found.type_condition is Some <==> fields[0].type_condition is Some
                    &&& found.type_condition matches Some(on) ==> fields[0].type_condition == Some(
                        on@,
                    )
                },
            forall|depth: nat|
                (#[trigger] old(self).remaining(depth)).complete && old(self).remaining(
                    depth,
                ).fields.len() == 0 ==> field is None,
    {
        let ghost enough = choose|depth: nat| (#[trigger] self.remaining(depth)).answers();
        let ghost start = *self;
        loop
            invariant
                start == *old(self),
                self.fragments == start.fragments,
                self.context == start.context,
                start.remaining(enough).answers(),
                forall|depth: nat|
                    (#[trigger] start.remaining(depth)).answers() ==> self.remaining(depth)
                        == start.remaining(depth),
            decreases cost_levels(self.fragments@, frame_views(self.frames@), enough),
        {
            let ghost levels = frame_views(self.frames@);
            assert(self.remaining(enough) == start.remaining(enough));
            match self.frames.pop() {
                None => {
                    assert(levels =~= Seq::empty());
                    assert(frame_views(self.frames@) =~= Seq::empty());
                    assert forall|depth: nat| (#[trigger] start.remaining(depth)).answers() implies
                        start.remaining(depth) == nothing() by {
                        assert(frame_views(self.frames@) =~= levels);
                    }
                    return None;
                },
                Some(frame) => {
                    let ghost outer = frame_views(self.frames@);
                    assert(levels.drop_last() =~= outer);
                    assert(levels =~= outer.push(frame.view()));
                    if frame.items.len() == 0 {
                        proof {
                            lemma_level_done(self.fragments@, levels, enough);
                            assert forall|depth: nat|
                                (#[trigger] start.remaining(
                                    depth,
                                )).answers() implies self.remaining(depth)
                                == start.remaining(depth) by {
                                lemma_level_done(self.fragments@, levels, depth);
                            }
                        }
                        continue ;
                    }
                    let selection: &'a Selection = &frame.items[0].node;
                    let rest = Frame {
                        items: slice_subrange(frame.items, 1, frame.items.len()),
                        type_condition: frame.type_condition,
                    };
                    assert(rest.view() == (Level {
                        items: frame.view().items.drop_first(),
                        ..frame.view()
                    }));
                    self.frames.push(rest);
                    let ghost inside = frame_views(self.frames@);
                    assert(inside =~= outer.push(rest.view()));
                    proof {
                        lemma_level_step(self.fragments@, outer, frame.view(), enough);
                    }
                    match selection {
                        Selection::Field(field) => {
                            let found = SelectionField {
                                fragments: self.fragments,
                                field: &field.node,
                                context: self.context,
                                type_condition: frame.type_condition,
                            };
                            assert forall|depth: nat|
                                (#[trigger] start.remaining(depth)).answers() implies {
                                let walk = start.remaining(depth);
                                &&& self.remaining(depth) == walk.rest()
                                &&& walk.fields.len() > 0
                                &&& found.view() == walk.fields[0]
                            } by {
                                lemma_level_step(self.fragments@, outer, frame.view(), depth);
                                let walk = start.remaining(depth);
                                assert(walk.fields.drop_first() =~= self.remaining(depth).fields);
                            }
                            return Some(found);
                        },
                        Selection::FragmentSpread(spread) => {
                            match self.fragments.get(spread.node.fragment_name.node.as_str()) {
                                Some(fragment) => {
                                    let entered = Frame {
                                        items: fragment.node.selection_set.node.items.as_slice(),
                                        type_condition: Some(
                                            fragment.node.type_condition.node.on.node.as_str(),
                                        ),
                                    };
                                    self.frames.push(entered);
                                    proof {
                                        assert(frame_views(self.frames@) =~= inside.push(
                                            entered.view(),
                                        ));
                                        lemma_level_enter(
                                            self.fragments@,
                                            inside,
                                            entered.view(),
                                            enough,
                                        );
                                        assert forall|depth: nat|
                                            (#[trigger] start.remaining(
                                                depth,
                                            )).answers() implies self.remaining(depth)
                                            == start.remaining(depth) by {
                                            lemma_level_step(
                                                self.fragments@,
                                                outer,
                                                frame.view(),
                                                depth,
                                            );
                                            lemma_level_enter(
                                                self.fragments@,
                                                inside,
                                                entered.view(),
                                                depth,
                                            );
                                        }
                                    }
                                },
                                None => {
                                    proof {
                                        assert forall|depth: nat|
                                            (#[trigger] start.remaining(
                                                depth,
                                            )).answers() implies self.remaining(depth)
                                            == start.remaining(depth) by {
                                            lemma_level_step(
                                                self.fragments@,
                                                outer,
                                                frame.view(),
                                                depth,
                                            );
                                            lemma_nothing_followed_by(self.remaining(depth));
                                        }
                                    }
                                },
                            }
                        },
                        Selection::InlineFragment(fragment) => {
                            let entered = Frame {
                                items: fragment.node.selection_set.node.items.as_slice(),
                                type_condition: match &fragment.node.type_condition {
                                    Some(condition) => Some(condition.node.on.node.as_str()),
                                    None => frame.type_condition,
                                },
                            };
                            self.frames.push(entered);
                            proof {
                                assert(frame_views(self.frames@) =~= inside.push(entered.view()));
                                lemma_level_enter(
                                    self.fragments@,
                                    inside,
                                    entered.view(),
                                    enough,
                                );
                                assert forall|depth: nat|
                                    (#[trigger] start.remaining(
                                        depth,
                                    )).answers() implies self.remaining(depth)
                                    == start.remaining(depth) by {
                                    lemma_level_step(self.fragments@, outer, frame.view(), depth);
                                    lemma_level_enter(
                                        self.fragments@,
                                        inside,
                                        entered.view(),
                                        depth,
                                    );
                                }
                            }
                        },
                    }
                },
            }
        }
    }
}

/// The views of some fields.
pub open spec fn field_views<'a, V>(fields: Seq<SelectionField<'a, V>>) -> Seq<Selected> {
    Seq::new(fields.len(), |i: int| fields[i].view())
}

impl<'a, V> SelectionFieldsIter<'a, V> {
    /// All the fields that are still to come.
    ///
    /// There must be a depth that no fragment exceeds.
    pub fn collect(self) -> (fields: Vec<SelectionField<'a, V>>)
        requires
            exists|depth: nat| (#[trigger] self.remaining(depth)).complete,
        ensures
            forall|depth: nat|
                (#[trigger] self.remaining(depth)).complete ==> field_views(fields@)
                    == self.remaining(depth).fields,
            forall|i: int|
                0 <= i < fields@.len() ==> *(#[trigger] fields@[i]).fragments == self.request()
                    && *fields@[i].context == self.seen_from(),
            forall|depth: nat|
                (#[trigger] self.remaining(depth)).complete ==> fields@.len() == self.remaining(
                    depth,
                ).fields.len(),
            forall|depth: nat, i: int|
                self.remaining(depth).complete && 0 <= i < fields@.len() ==> {
                    let found = #[trigger] fields@[i];
                    let expected = (#[trigger] self.remaining(depth)).fields[i];
                    &&& *found.field == expected.field
                    &&& found.type_condition is Some <==> expected.type_condition is Some
                    &&& found.type_condition matches Some(on) ==> expected.type_condition == Some(
                        on@,
                    )
                },
    {
        let ghost start = self;
        let ghost enough = choose|depth: nat| (#[trigger] self.remaining(depth)).complete;
        let mut left = self;
        let mut fields: Vec<SelectionField<'a, V>> = Vec::new();
        assert forall|depth: nat| (#[trigger] start.remaining(depth)).complete implies field_views(
            fields@,
        ) + left.remaining(depth).fields == start.remaining(depth).fields by {
            assert(field_views(fields@) + left.remaining(depth).fields =~= start.remaining(
                depth,
            ).fields);
        }
        loop
            invariant
                start.remaining(enough).complete,
                left.request() == start.request(),
                left.seen_from() == start.seen_from(),
                forall|depth: nat|
                    (#[trigger] start.remaining(depth)).complete ==> left.remaining(depth).complete
                        && field_views(fields@) + left.remaining(depth).fields == start.remaining(
                        depth,
                    ).fields,
                forall|i: int|
                    0 <= i < fields@.len() ==> *(#[trigger] fields@[i]).fragments
                        == start.request() && *fields@[i].context == start.seen_from(),
            ensures
                forall|depth: nat|
                    (#[trigger] start.remaining(depth)).complete ==> field_views(fields@)
                        == start.remaining(depth).fields,
                forall|i: int|
                    0 <= i < fields@.len() ==> *(#[trigger] fields@[i]).fragments
                        == start.request() && *fields@[i].context == start.seen_from(),
            decreases left.remaining(enough).fields.len(),
        {
            let ghost before = left;
            let ghost collected = field_views(fields@);
            assert(start.remaining(enough).complete);
            assert(left.remaining(enough).answers());
            match left.next() {
                Some(field) => {
                    fields.push(field);
                    assert(before.remaining(enough).answers());
                    assert forall|depth: nat|
                        (#[trigger] start.remaining(depth)).complete implies left.remaining(
                        depth,
                    ).complete && field_views(fields@) + left.remaining(depth).fields
                        == start.remaining(depth).fields by {
                        assert(before.remaining(depth).answers());
                        assert(field_views(fields@) =~= collected.push(field.view()));
                        assert(field_views(fields@) + left.remaining(depth).fields =~= collected
                            + before.remaining(depth).fields);
                    }
                },
                None => {
                    assert forall|depth: nat|
                        (#[trigger] start.remaining(depth)).complete implies field_views(fields@)
                        == start.remaining(depth).fields by {
                        assert(before.remaining(depth).answers());
                        assert(collected + before.remaining(depth).fields =~= collected);
                    }
                    break ;
                },
            }
        }
        fields
    }
}

impl<'a, V> SelectionField<'a, V> {
    /// Get the name of this field.
    #[inline]
    pub fn name(&self) -> (name: &'a str)
        ensures
            name@ == self.field.name.node@,
    {
        self.field.name.node.as_str()
    }

    /// Get the alias of this field.
    #[inline]
    pub fn alias(&self) -> (alias: Option<&'a str>)
        ensures
            text_view(alias) == (match self.field.alias {
                Some(alias) => Some(alias.node@),
                None => None,
            }),
            alias is Some <==> self.field.alias is Some,
            alias matches Some(text) ==> text@ == self.field.alias->0.node@,
    {
        match &self.field.alias {
            Some(alias) => Some(alias.node.as_str()),
            None => None,
        }
    }

    /// The fields selected inside this one, as far as they are found going into fragments down to
    /// `depth`.
    pub open spec fn subfields(&self, depth: nat) -> Walk {
        unfold(self.fragments@, self.field.selection_set.node.items@, None, depth)
    }

    /// Get all subfields of the current selection set.
    pub fn selection_set(&self) -> (fields: SelectionFieldsIter<'a, V>)
        ensures
            fields.request() == *self.fragments,
            fields.seen_from() == *self.context,
            forall|depth: nat| #[trigger] fields.remaining(depth) == self.subfields(depth),
            forall|depth: nat| #[trigger]
                fields.remaining(depth) == unfold(
                    self.fragments@,
                    self.field.selection_set.node.items@,
                    None,
                    depth,
                ),
    {
        let mut frames: Vec<Frame<'a>> = Vec::new();
        frames.push(
            Frame {
                items: self.field.selection_set.node.items.as_slice(),
                type_condition: None,
            },
        );
        let fields = SelectionFieldsIter {
            fragments: self.fragments,
            frames,
            context: self.context,
        };
        assert forall|depth: nat| #[trigger] fields.remaining(depth) == self.subfields(depth) by {
            let levels = frame_views(frames@);
            assert(levels.drop_last() =~= Seq::empty());
            assert(levels.last() == frames@[0].view());
            assert(unfold_levels(self.fragments@, Seq::empty(), depth) == nothing());
            lemma_nothing_followed_by(self.subfields(depth));
        }
        fields
    }

    /// The fragment type condition under which this field was requested, if any.
    #[inline]
    pub fn type_condition(&self) -> (condition: Option<&'a str>)
        ensures
            condition == self.type_condition,
    {
        self.type_condition
    }
}

/// An iterator that meets nothing answers without searching, so that its end stays its end.
pub proof fn law_end_is_final<'a, V>(fields: SelectionFieldsIter<'a, V>)
    requires
        forall|depth: nat| #[trigger] fields.remaining(depth) == nothing(),
    ensures
        exists|depth: nat| (#[trigger] fields.remaining(depth)).answers(),
{
    assert(fields.remaining(0).answers());
}

/// A selected field is read as the field and the type condition that it has.
pub proof fn law_selection_field_view<'a, V>(field: SelectionField<'a, V>)
    ensures
        field.view().field == *field.field,
        field.type_condition matches Some(on) ==> field.view().type_condition == Some(on@),
        field.type_condition is None ==> field.view().type_condition is None,
{
}

/// Selected fields are read one by one.
pub proof fn law_field_views<'a, V>(fields: Seq<SelectionField<'a, V>>)
    ensures
        field_views(fields).len() == fields.len(),
        forall|i: int|
            0 <= i < fields.len() ==> #[trigger] field_views(fields)[i] == fields[i].view(),
{
}

/// The fields inside a field are what its selections stand for, under no type condition but those
/// of the fragments among them.
pub proof fn law_subfields<'a, V>(field: SelectionField<'a, V>, depth: nat)
    ensures
        field.subfields(depth) == unfold(
            field.fragments@,
            field.field.selection_set.node.items@,
            None,
            depth,
        ),
{
}

} // verus!
