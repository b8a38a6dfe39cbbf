//! Fragments that do not lead back to themselves: what names only such fragments can be read to
//! the end.
use vstd::prelude::*;

use crate::describe::{all_fit, fits, lemma_described_all_deeper};
use crate::document::{Field, Selection};
use crate::look_ahead::{law_named_inside_deeper, named_inside};
use crate::pos::Positioned;
use crate::unfold::{
    law_unfold_deeper, lemma_unfold_one_deeper, unfold, unfold_one, FragmentMap, Selected,
};

verus! {

/// A number for each fragment.
pub type Ranking = spec_fn(Seq<char>) -> nat;

/// Whether all the fragments named in some selections rank below `bound`. What is selected inside
/// fields counts only if `nested`.
pub open spec fn names_below(
    fragments: FragmentMap,
    items: Seq<Positioned<Selection>>,
    ranking: Ranking,
    bound: nat,
    nested: bool,
) -> bool
    decreases items,
{
    forall|i: int|
        0 <= i < items.len() ==> selection_below(
            fragments,
            (#[trigger] items[i]).node,
            ranking,
            bound,
            nested,
        )
}

/// Whether all the fragments named in a selection rank below `bound`.
pub open spec fn selection_below(
    fragments: FragmentMap,
    selection: Selection,
    ranking: Ranking,
    bound: nat,
    nested: bool,
) -> bool
    decreases selection,
{
    match selection {
        Selection::Field(field) => nested ==> names_below(
            fragments,
            field.node.selection_set.node.items@,
            ranking,
            bound,
            nested,
        ),
        Selection::FragmentSpread(spread) => {
            let name = spread.node.fragment_name.node@;
            fragments.contains_key(name) ==> ranking(name) < bound
        },
        Selection::InlineFragment(fragment) => names_below(
            fragments,
            fragment.node.selection_set.node.items@,
            ranking,
            bound,
            nested,
        ),
    }
}

/// Whether every fragment names only fragments that rank below it.
pub open spec fn is_ranked(fragments: FragmentMap, ranking: Ranking, nested: bool) -> bool {
    forall|name: Seq<char>| #[trigger]
        fragments.contains_key(name) ==> names_below(
            fragments,
            fragments[name].node.selection_set.node.items@,
            ranking,
            ranking(name),
            nested,
        )
}

/// Whether no fragment leads back to itself: the fragments can be ranked. What is selected inside
/// fields counts only if `nested`.
pub open spec fn is_acyclic(fragments: FragmentMap, nested: bool) -> bool {
    exists|ranking: Ranking| is_ranked(fragments, ranking, nested)
}

/// Whether all the fragments named in some selections, as far as the request defines them, are
/// among those in `reached`. What is selected inside fields counts only if `nested`.
pub open spec fn names_within(
    fragments: FragmentMap,
    reached: FragmentMap,
    items: Seq<Positioned<Selection>>,
    nested: bool,
) -> bool
    decreases items,
{
    forall|i: int|
        0 <= i < items.len() ==> selection_within(
            fragments,
            reached,
            (#[trigger] items[i]).node,
            nested,
        )
}

/// Whether all the fragments named in a selection are among those in `reached`.
pub open spec fn selection_within(
    fragments: FragmentMap,
    reached: FragmentMap,
    selection: Selection,
    nested: bool,
) -> bool
    decreases selection,
{
    match selection {
        Selection::Field(field) => nested ==> names_within(
            fragments,
            reached,
            field.node.selection_set.node.items@,
            nested,
        ),
        Selection::FragmentSpread(spread) => {
            let name = spread.node.fragment_name.node@;
            fragments.contains_key(name) ==> reached.contains_key(name)
        },
        Selection::InlineFragment(fragment) => names_within(
            fragments,
            reached,
            fragment.node.selection_set.node.items@,
            nested,
        ),
    }
}

/// Whether `reached` is a part of the fragments that names no fragment outside it.
pub open spec fn is_closed(fragments: FragmentMap, reached: FragmentMap, nested: bool) -> bool {
    &&& reached.submap_of(fragments)
    &&& forall|name: Seq<char>| #[trigger]
        reached.contains_key(name) ==> names_within(
            fragments,
            reached,
            reached[name].node.selection_set.node.items@,
            nested,
        )
}

/// All the fragments of a request name no fragment outside them, and neither do any selections.
pub proof fn law_all_fragments_are_closed(
    fragments: FragmentMap,
    items: Seq<Positioned<Selection>>,
    nested: bool,
)
    ensures
        is_closed(fragments, fragments, nested),
        names_within(fragments, fragments, items, nested),
{
    lemma_within_itself(fragments, items, nested);
    assert forall|name: Seq<char>| #[trigger] fragments.contains_key(name) implies names_within(
        fragments,
        fragments,
        fragments[name].node.selection_set.node.items@,
        nested,
    ) by {
        lemma_within_itself(fragments, fragments[name].node.selection_set.node.items@, nested);
    }
}

proof fn lemma_within_itself(
    fragments: FragmentMap,
    items: Seq<Positioned<Selection>>,
    nested: bool,
)
    ensures
        names_within(fragments, fragments, items, nested),
    decreases items,
{
    assert forall|i: int| 0 <= i < items.len() implies selection_within(
        fragments,
        fragments,
        (#[trigger] items[i]).node,
        nested,
    ) by {
        assert(decreases_to!(items => items[i]));
        match items[i].node {
            Selection::Field(field) => {
                lemma_within_itself(fragments, field.node.selection_set.node.items@, nested);
            },
            Selection::FragmentSpread(_) => {},
            Selection::InlineFragment(fragment) => {
                lemma_within_itself(fragments, fragment.node.selection_set.node.items@, nested);
            },
        }
    }
}

/// Selections that name only reached fragments stand for the same among those alone.
proof fn lemma_unfold_reached(
    fragments: FragmentMap,
    reached: FragmentMap,
    items: Seq<Positioned<Selection>>,
    type_condition: Option<Seq<char>>,
    depth: nat,
    nested: bool,
)
    requires
        is_closed(fragments, reached, nested),
        names_within(fragments, reached, items, nested),
    ensures
        unfold(fragments, items, type_condition, depth) == unfold(
            reached,
            items,
            type_condition,
            depth,
        ),
        nested ==> all_within(
            fragments,
            reached,
            unfold(reached, items, type_condition, depth).fields,
            nested,
        ),
    decreases depth, items.len(),
{
    if items.len() > 0 {
        let rest = items.drop_first();
        assert(selection_within(fragments, reached, items[0].node, nested));
        assert forall|i: int| 0 <= i < rest.len() implies selection_within(
            fragments,
            reached,
            (#[trigger] rest[i]).node,
            nested,
        ) by {
            assert(rest[i] == items[i + 1]);
        }
        lemma_unfold_one_reached(
            fragments,
            reached,
            items[0].node,
            type_condition,
            depth,
            nested,
        );
        lemma_unfold_reached(fragments, reached, rest, type_condition, depth, nested);
    }
}

proof fn lemma_unfold_one_reached(
    fragments: FragmentMap,
    reached: FragmentMap,
    selection: Selection,
    type_condition: Option<Seq<char>>,
    depth: nat,
    nested: bool,
)
    requires
        is_closed(fragments, reached, nested),
        selection_within(fragments, reached, selection, nested),
    ensures
        unfold_one(fragments, selection, type_condition, depth) == unfold_one(
            reached,
            selection,
            type_condition,
            depth,
        ),
        nested ==> all_within(
            fragments,
            reached,
            unfold_one(reached, selection, type_condition, depth).fields,
            nested,
        ),
    decreases depth, 0nat,
{
    match selection {
        Selection::Field(_) => {},
        Selection::FragmentSpread(spread) => {
            let name = spread.node.fragment_name.node@;
            assert(reached.contains_key(name) ==> reached[name] == fragments[name]
                && fragments.contains_key(name)) by {
                assert(reached.submap_of(fragments));
                if reached.dom().contains(name) {
                    assert(fragments.dom().contains(name));
                }
            }
            if reached.contains_key(name) && depth > 0 {
                let fragment = reached[name].node;
                lemma_unfold_reached(
                    fragments,
                    reached,
                    fragment.selection_set.node.items@,
                    Some(fragment.type_condition.node.on.node@),
                    (depth - 1) as nat,
                    nested,
                );
            }
        },
        Selection::InlineFragment(fragment) => if depth > 0 {
            lemma_unfold_reached(
                fragments,
                reached,
                fragment.node.selection_set.node.items@,
                match fragment.node.type_condition {
                    Some(condition) => Some(condition.node.on.node@),
                    None => type_condition,
                },
                (depth - 1) as nat,
                nested,
            );
        },
    }
}

/// Whether what is selected inside some fields names only reached fragments.
pub open spec fn all_within(
    fragments: FragmentMap,
    reached: FragmentMap,
    fields: Seq<Selected>,
    nested: bool,
) -> bool {
    forall|i: int|
        0 <= i < fields.len() ==> names_within(
            fragments,
            reached,
            (#[trigger] fields[i]).field.selection_set.node.items@,
            nested,
        )
}

/// A field that fits a depth among the reached fragments fits it among all of them.
proof fn lemma_fits_reached(
    fragments: FragmentMap,
    reached: FragmentMap,
    field: Field,
    depth: nat,
)
    requires
        is_closed(fragments, reached, true),
        names_within(fragments, reached, field.selection_set.node.items@, true),
        fits(reached, field, depth),
    ensures
        fits(fragments, field, depth),
    decreases depth,
{
    let items = field.selection_set.node.items@;
    let inner = (depth - 1) as nat;
    lemma_unfold_reached(fragments, reached, items, None, inner, true);
    let inside = unfold(reached, items, None, inner).fields;
    assert forall|i: int| 0 <= i < inside.len() implies fits(
        fragments,
        (#[trigger] inside[i]).field,
        inner,
    ) by {
        lemma_fits_reached(fragments, reached, inside[i].field, inner);
    }
}

proof fn lemma_names_below_more(
    fragments: FragmentMap,
    items: Seq<Positioned<Selection>>,
    ranking: Ranking,
    bound: nat,
    more: nat,
    nested: bool,
)
    requires
        names_below(fragments, items, ranking, bound, nested),
        bound <= more,
    ensures
        names_below(fragments, items, ranking, more, nested),
    decreases items,
{
    assert forall|i: int| 0 <= i < items.len() implies selection_below(
        fragments,
        (#[trigger] items[i]).node,
        ranking,
        more,
        nested,
    ) by {
        assert(decreases_to!(items => items[i]));
        lemma_selection_below_more(fragments, items[i].node, ranking, bound, more, nested);
    }
}

proof fn lemma_selection_below_more(
    fragments: FragmentMap,
    selection: Selection,
    ranking: Ranking,
    bound: nat,
    more: nat,
    nested: bool,
)
    requires
        selection_below(fragments, selection, ranking, bound, nested),
        bound <= more,
    ensures
        selection_below(fragments, selection, ranking, more, nested),
    decreases selection,
{
    match selection {
        Selection::Field(field) => if nested {
            lemma_names_below_more(
                fragments,
                field.node.selection_set.node.items@,
                ranking,
                bound,
                more,
                nested,
            );
        },
        Selection::FragmentSpread(_) => {},
        Selection::InlineFragment(fragment) => {
            lemma_names_below_more(
                fragments,
                fragment.node.selection_set.node.items@,
                ranking,
                bound,
                more,
                nested,
            );
        },
    }
}

/// A bound for the fragments named in some selections.
proof fn lemma_bound(
    fragments: FragmentMap,
    items: Seq<Positioned<Selection>>,
    ranking: Ranking,
    nested: bool,
) -> (bound: nat)
    ensures
        names_below(fragments, items, ranking, bound, nested),
    decreases items,
{
    if items.len() == 0 {
        0
    } else {
        let before = lemma_bound(fragments, items.drop_last(), ranking, nested);
        assert(decreases_to!(items => items[items.len() - 1]));
        let last = lemma_selection_bound(fragments, items.last().node, ranking, nested);
        let bound = if before < last {
            last
        } else {
            before
        };
        lemma_names_below_more(fragments, items.drop_last(), ranking, before, bound, nested);
        lemma_selection_below_more(fragments, items.last().node, ranking, last, bound, nested);
        assert forall|i: int| 0 <= i < items.len() implies selection_below(
            fragments,
            (#[trigger] items[i]).node,
            ranking,
            bound,
            nested,
        ) by {
            if i < items.len() - 1 {
                assert(items.drop_last()[i] == items[i]);
            }
        }
        bound
    }
}

/// A bound for the fragments named in a selection.
proof fn lemma_selection_bound(
    fragments: FragmentMap,
    selection: Selection,
    ranking: Ranking,
    nested: bool,
) -> (bound: nat)
    ensures
        selection_below(fragments, selection, ranking, bound, nested),
    decreases selection,
{
    match selection {
        Selection::Field(field) => lemma_bound(
            fragments,
            field.node.selection_set.node.items@,
            ranking,
            nested,
        ),
        Selection::FragmentSpread(spread) => ranking(spread.node.fragment_name.node@) + 1,
        Selection::InlineFragment(fragment) => lemma_bound(
            fragments,
            fragment.node.selection_set.node.items@,
            ranking,
            nested,
        ),
    }
}

/// A depth within which some selections are read to the end and, if `nested`, everything below them
/// lies.
proof fn lemma_depth(
    fragments: FragmentMap,
    ranking: Ranking,
    items: Seq<Positioned<Selection>>,
    type_condition: Option<Seq<char>>,
    bound: nat,
    nested: bool,
) -> (depth: nat)
    requires
        is_ranked(fragments, ranking, nested),
        names_below(fragments, items, ranking, bound, nested),
    ensures
        unfold(fragments, items, type_condition, depth).complete,
        nested ==> all_fit(
            fragments,
            unfold(fragments, items, type_condition, depth).fields,
            depth,
        ),
    decreases bound, items,
{
    if items.len() == 0 {
        0
    } else {
        let first = items[0].node;
        let rest = items.drop_first();
        assert(selection_below(fragments, items[0].node, ranking, bound, nested));
        assert forall|i: int| 0 <= i < rest.len() implies selection_below(
            fragments,
            (#[trigger] rest[i]).node,
            ranking,
            bound,
            nested,
        ) by {
            assert(rest[i] == items[i + 1]);
        }
        assert(decreases_to!(items => items[0]));
        let one = lemma_selection_depth(
            fragments,
            ranking,
            first,
            type_condition,
            bound,
            nested,
        );
        let others = lemma_depth(fragments, ranking, rest, type_condition, bound, nested);
        let depth = if one < others {
            others
        } else {
            one
        };
        lemma_unfold_one_deeper(fragments, first, type_condition, one, depth);
        law_unfold_deeper(fragments, rest, type_condition, others, depth);
        if nested {
            let met = unfold_one(fragments, first, type_condition, depth).fields;
            let left = unfold(fragments, rest, type_condition, depth).fields;
            lemma_described_all_deeper(fragments, met, one, depth);
            lemma_described_all_deeper(fragments, left, others, depth);
            assert forall|i: int| 0 <= i < (met + left).len() implies fits(
                fragments,
                (#[trigger] (met + left)[i]).field,
                depth,
            ) by {
                if i < met.len() {
                    assert((met + left)[i] == met[i]);
                } else {
                    assert((met + left)[i] == left[i - met.len()]);
                }
            }
        }
        depth
    }
}

/// A depth within which a selection is read to the end and, if `nested`, everything below it lies.
proof fn lemma_selection_depth(
    fragments: FragmentMap,
    ranking: Ranking,
    selection: Selection,
    type_condition: Option<Seq<char>>,
    bound: nat,
    nested: bool,
) -> (depth: nat)
    requires
        is_ranked(fragments, ranking, nested),
        selection_below(fragments, selection, ranking, bound, nested),
    ensures
        unfold_one(fragments, selection, type_condition, depth).complete,
        nested ==> all_fit(
            fragments,
            unfold_one(fragments, selection, type_condition, depth).fields,
            depth,
        ),
    decreases bound, selection,
{
    match selection {
        Selection::Field(field) => if nested {
            let inside = lemma_depth(
                fragments,
                ranking,
                field.node.selection_set.node.items@,
                None,
                bound,
                nested,
            );
            assert(fits(fragments, field.node, inside + 1));
            inside + 1
        } else {
            0
        },
        Selection::FragmentSpread(spread) => {
            let name = spread.node.fragment_name.node@;
            if fragments.contains_key(name) {
                let fragment = fragments[name].node;
                let items = fragment.selection_set.node.items@;
                let condition = Some(fragment.type_condition.node.on.node@);
                let inside = lemma_depth(
                    fragments,
                    ranking,
                    items,
                    condition,
                    ranking(name),
                    nested,
                );
                if nested {
                    lemma_described_all_deeper(
                        fragments,
                        unfold(fragments, items, condition, inside).fields,
                        inside,
                        inside + 1,
                    );
                }
                inside + 1
            } else {
                0
            }
        },
        Selection::InlineFragment(fragment) => {
            let items = fragment.node.selection_set.node.items@;
            let condition = match fragment.node.type_condition {
                Some(condition) => Some(condition.node.on.node@),
                None => type_condition,
            };
            let inside = lemma_depth(fragments, ranking, items, condition, bound, nested);
            if nested {
                lemma_described_all_deeper(
                    fragments,
                    unfold(fragments, items, condition, inside).fields,
                    inside,
                    inside + 1,
                );
            }
            inside + 1
        },
    }
}

/// Selections can be read to the end if none of the fragments they reach leads back to itself. What
/// is selected inside fields does not count.
pub proof fn law_acyclic_unfolds(
    fragments: FragmentMap,
    reached: FragmentMap,
    items: Seq<Positioned<Selection>>,
    type_condition: Option<Seq<char>>,
)
    requires
        is_closed(fragments, reached, false),
        names_within(fragments, reached, items, false),
        is_acyclic(reached, false),
    ensures
        exists|depth: nat| (#[trigger] unfold(fragments, items, type_condition, depth)).complete,
{
    let ranking = choose|ranking: Ranking| is_ranked(reached, ranking, false);
    let bound = lemma_bound(reached, items, ranking, false);
    let depth = lemma_depth(reached, ranking, items, type_condition, bound, false);
    lemma_unfold_reached(fragments, reached, items, type_condition, depth, false);
    assert(unfold(fragments, items, type_condition, depth).complete);
}

/// A field can be described if none of the fragments reached in it, at whatever depth, leads back
/// to itself.
pub proof fn law_acyclic_described(fragments: FragmentMap, reached: FragmentMap, field: Field)
    requires
        is_closed(fragments, reached, true),
        names_within(fragments, reached, field.selection_set.node.items@, true),
        is_acyclic(reached, true),
    ensures
        exists|depth: nat| fits(fragments, field, depth),
{
    let ranking = choose|ranking: Ranking| is_ranked(reached, ranking, true);
    let items = field.selection_set.node.items@;
    let bound = lemma_bound(reached, items, ranking, true);
    let inside = lemma_depth(reached, ranking, items, None, bound, true);
    assert(fits(reached, field, inside + 1));
    lemma_fits_reached(fragments, reached, field, inside + 1);
}

/// Fields can be looked into if none of the fragments that their selections reach leads back to
/// itself.
pub proof fn law_acyclic_looks_ahead(
    fragments: FragmentMap,
    reached: FragmentMap,
    fields: Seq<Selected>,
    name: Seq<char>,
)
    requires
        is_closed(fragments, reached, false),
        all_within(fragments, reached, fields, false),
        is_acyclic(reached, false),
    ensures
        exists|depth: nat| (#[trigger] named_inside(fragments, fields, name, depth)) is Some,
    decreases fields.len(),
{
    if fields.len() == 0 {
        assert(named_inside(fragments, fields, name, 0) is Some);
    } else {
        let earlier = fields.drop_last();
        let items = fields[fields.len() - 1].field.selection_set.node.items@;
        assert forall|i: int| 0 <= i < earlier.len() implies names_within(
            fragments,
            reached,
            (#[trigger] earlier[i]).field.selection_set.node.items@,
            false,
        ) by {
            assert(earlier[i] == fields[i]);
        }
        law_acyclic_looks_ahead(fragments, reached, earlier, name);
        law_acyclic_unfolds(fragments, reached, items, None);
        let before = choose|depth: nat|
            (#[trigger] named_inside(fragments, earlier, name, depth)) is Some;
        let last = choose|depth: nat| (#[trigger] unfold(fragments, items, None, depth)).complete;
        let depth = if before < last {
            last
        } else {
            before
        };
        law_named_inside_deeper(fragments, earlier, name, before, depth);
        law_unfold_deeper(fragments, items, None, last, depth);
        assert(named_inside(fragments, fields, name, depth) is Some);
    }
}

} // verus!
