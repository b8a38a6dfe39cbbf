//! The fields that a selection set stands for, with its fragments taken apart.
use vstd::prelude::*;

use crate::document::{Field, FragmentDefinition, FragmentSpread, InlineFragment, Selection};
use crate::pos::Positioned;

verus! {

/// The fragments of a request, by name.
pub type FragmentMap = Map<Seq<char>, Positioned<FragmentDefinition>>;

/// A selected field, with the type of the innermost fragment around it that names one.
pub struct Selected {
    /// The field.
    pub field: Field,
    /// The type condition under which it is selected.
    pub type_condition: Option<Seq<char>>,
}

/// What is met when selections are read in order, going into fragments down to some depth.
pub struct Walk {
    /// The fields, up to the first fragment that lies too deep.
    pub fields: Seq<Selected>,
    /// Whether no fragment lies too deep.
    pub complete: bool,
}

/// The walk that meets nothing.
pub open spec fn nothing() -> Walk {
    Walk { fields: Seq::empty(), complete: true }
}

/// The walk that stops at once.
pub open spec fn stopped() -> Walk {
    Walk { fields: Seq::empty(), complete: false }
}

impl Walk {
    /// This walk and, unless it is cut short, another one after it.
    pub open spec fn followed_by(self, next: Walk) -> Walk {
        if self.complete {
            Walk { fields: self.fields + next.fields, complete: next.complete }
        } else {
            self
        }
    }

    /// Whether the walk shows what comes first: a field, or the end.
    pub open spec fn answers(self) -> bool {
        self.complete || self.fields.len() > 0
    }

    /// What is left of the walk after its first field.
    pub open spec fn rest(self) -> Walk {
        if self.fields.len() > 0 {
            Walk { fields: self.fields.drop_first(), complete: self.complete }
        } else {
            self
        }
    }
}

/// The fields that some selections stand for: the fields among them, and in the place of a
/// fragment the fields that it stands for. A fragment that the request does not define stands for
/// none. `type_condition` is that of the fragment around the selections; one without a type of
/// its own passes it on. Fragments are entered down to `depth`.
pub open spec fn unfold(
    fragments: FragmentMap,
    items: Seq<Positioned<Selection>>,
    type_condition: Option<Seq<char>>,
    depth: nat,
) -> Walk
    decreases depth, items.len(),
{
    if items.len() == 0 {
        nothing()
    } else {
        unfold_one(fragments, items[0].node, type_condition, depth).followed_by(
            unfold(fragments, items.drop_first(), type_condition, depth),
        )
    }
}

/// The fields that one selection stands for.
pub open spec fn unfold_one(
    fragments: FragmentMap,
    selection: Selection,
    type_condition: Option<Seq<char>>,
    depth: nat,
) -> Walk
    decreases depth, 0nat,
{
    match selection {
        Selection::Field(field) => Walk {
            fields: seq![Selected { field: field.node, type_condition }],
            complete: true,
        },
        Selection::FragmentSpread(spread) => {
            let name = spread.node.fragment_name.node@;
            if !fragments.contains_key(name) {
                nothing()
            } else if depth == 0 {
                stopped()
            } else {
                let fragment = fragments[name].node;
                unfold(
                    fragments,
                    fragment.selection_set.node.items@,
                    Some(fragment.type_condition.node.on.node@),
                    (depth - 1) as nat,
                )
            }
        },
        Selection::InlineFragment(fragment) => if depth == 0 {
            stopped()
        } else {
            unfold(
                fragments,
                fragment.node.selection_set.node.items@,
                match fragment.node.type_condition {
                    Some(condition) => Some(condition.node.on.node@),
                    None => type_condition,
                },
                (depth - 1) as nat,
            )
        },
    }
}

/// Selections that are left to be read at one level of fragments.
pub struct Level {
    /// The selections.
    pub items: Seq<Positioned<Selection>>,
    /// The type condition of the level.
    pub type_condition: Option<Seq<char>>,
}

/// What is met when the levels are read, the innermost, which is the last, first. The level at
/// `i` lies `i` fragments deep.
pub open spec fn unfold_levels(fragments: FragmentMap, levels: Seq<Level>, depth: nat) -> Walk
    decreases levels.len(),
{
    if levels.len() == 0 {
        nothing()
    } else {
        let inner = levels.len() - 1;
        (if inner <= depth {
            unfold(
                fragments,
                levels.last().items,
                levels.last().type_condition,
                (depth - inner) as nat,
            )
        } else {
            stopped()
        }).followed_by(unfold_levels(fragments, levels.drop_last(), depth))
    }
}

/// How many steps it takes to read selections, going into fragments down to `depth`.
pub(crate) open spec fn cost(
    fragments: FragmentMap,
    items: Seq<Positioned<Selection>>,
    depth: nat,
) -> nat
    decreases depth, items.len(),
{
    if items.len() == 0 {
        0
    } else {
        1 + cost_one(fragments, items[0].node, depth) + cost(fragments, items.drop_first(), depth)
    }
}

/// How many further steps it takes to read one selection.
pub(crate) open spec fn cost_one(
    fragments: FragmentMap,
    selection: Selection,
    depth: nat,
) -> nat
    decreases depth, 0nat,
{
    match selection {
        Selection::Field(_) => 0,
        Selection::FragmentSpread(spread) => {
            let name = spread.node.fragment_name.node@;
            if fragments.contains_key(name) && depth > 0 {
                1 + cost(
                    fragments,
                    fragments[name].node.selection_set.node.items@,
                    (depth - 1) as nat,
                )
            } else {
                0
            }
        },
        Selection::InlineFragment(fragment) => if depth > 0 {
            1 + cost(
                fragments,
                fragment.node.selection_set.node.items@,
                (depth - 1) as nat,
            )
        } else {
            0
        },
    }
}

/// How many steps it takes to read the levels.
pub(crate) open spec fn cost_levels(
    fragments: FragmentMap,
    levels: Seq<Level>,
    depth: nat,
) -> nat
    decreases levels.len(),
{
    if levels.len() == 0 {
        0
    } else {
        let inner = levels.len() - 1;
        1 + (if inner <= depth {
            cost(fragments, levels.last().items, (depth - inner) as nat)
        } else {
            0
        }) + cost_levels(fragments, levels.drop_last(), depth)
    }
}

/// Walks in a row can be grouped in any way.
pub proof fn lemma_followed_by_grouping(first: Walk, second: Walk, third: Walk)
    ensures
        first.followed_by(second).followed_by(third) == first.followed_by(
            second.followed_by(third),
        ),
{
    assert((first.fields + second.fields) + third.fields =~= first.fields + (second.fields
        + third.fields));
}

/// The walk that meets nothing changes nothing.
pub proof fn lemma_nothing_followed_by(walk: Walk)
    ensures
        nothing().followed_by(walk) == walk,
        walk.followed_by(nothing()) == walk,
{
    assert(Seq::empty() + walk.fields =~= walk.fields);
    assert(walk.fields + Seq::empty() =~= walk.fields);
}

/// Reading past an exhausted level: the levels around it come next.
pub(crate) proof fn lemma_level_done(fragments: FragmentMap, levels: Seq<Level>, depth: nat)
    requires
        levels.len() > 0,
        levels.last().items.len() == 0,
    ensures
        unfold_levels(fragments, levels, depth).answers() ==> unfold_levels(
            fragments,
            levels,
            depth,
        ) == unfold_levels(fragments, levels.drop_last(), depth),
        cost_levels(fragments, levels, depth) == 1 + cost_levels(
            fragments,
            levels.drop_last(),
            depth,
        ),
{
    lemma_nothing_followed_by(unfold_levels(fragments, levels.drop_last(), depth));
}

/// Reading one selection of the innermost level.
pub(crate) proof fn lemma_level_step(
    fragments: FragmentMap,
    outer: Seq<Level>,
    level: Level,
    depth: nat,
)
    requires
        level.items.len() > 0,
        unfold_levels(fragments, outer.push(level), depth).answers(),
    ensures
        outer.len() <= depth,
        unfold_levels(fragments, outer.push(level), depth) == unfold_one(
            fragments,
            level.items[0].node,
            level.type_condition,
            (depth - outer.len()) as nat,
        ).followed_by(
            unfold_levels(
                fragments,
                outer.push(Level { items: level.items.drop_first(), ..level }),
                depth,
            ),
        ),
        cost_levels(fragments, outer.push(level), depth) == 1 + cost_one(
            fragments,
            level.items[0].node,
            (depth - outer.len()) as nat,
        ) + cost_levels(
            fragments,
            outer.push(Level { items: level.items.drop_first(), ..level }),
            depth,
        ),
{
    let before = outer.push(level);
    let after = outer.push(Level { items: level.items.drop_first(), ..level });
    assert(before.drop_last() =~= outer);
    assert(after.drop_last() =~= outer);
    if outer.len() <= depth {
        let budget = (depth - outer.len()) as nat;
        lemma_followed_by_grouping(
            unfold_one(fragments, level.items[0].node, level.type_condition, budget),
            unfold(fragments, level.items.drop_first(), level.type_condition, budget),
            unfold_levels(fragments, outer, depth),
        );
    }
}

/// Going into a fragment of the innermost level.
pub(crate) proof fn lemma_level_enter(
    fragments: FragmentMap,
    levels: Seq<Level>,
    inner: Level,
    depth: nat,
)
    requires
        0 < levels.len() <= depth,
    ensures
        unfold_levels(fragments, levels.push(inner), depth) == unfold(
            fragments,
            inner.items,
            inner.type_condition,
            (depth - levels.len()) as nat,
        ).followed_by(unfold_levels(fragments, levels, depth)),
        cost_levels(fragments, levels.push(inner), depth) == 1 + cost(
            fragments,
            inner.items,
            (depth - levels.len()) as nat,
        ) + cost_levels(fragments, levels, depth),
{
    assert(levels.push(inner).drop_last() =~= levels);
}

/// Selections whose fragments lie within some depth stand for the same fields at every larger one.
pub proof fn law_unfold_deeper(
    fragments: FragmentMap,
    items: Seq<Positioned<Selection>>,
    type_condition: Option<Seq<char>>,
    depth: nat,
    deeper: nat,
)
    requires
        unfold(fragments, items, type_condition, depth).complete,
        depth <= deeper,
    ensures
        unfold(fragments, items, type_condition, deeper) == unfold(
            fragments,
            items,
            type_condition,
            depth,
        ),
    decreases depth, items.len(),
{
    if items.len() > 0 {
        lemma_unfold_one_deeper(fragments, items[0].node, type_condition, depth, deeper);
        law_unfold_deeper(fragments, items.drop_first(), type_condition, depth, deeper);
    }
}

pub(crate) proof fn lemma_unfold_one_deeper(
    fragments: FragmentMap,
    selection: Selection,
    type_condition: Option<Seq<char>>,
    depth: nat,
    deeper: nat,
)
    requires
        unfold_one(fragments, selection, type_condition, depth).complete,
        depth <= deeper,
    ensures
        unfold_one(fragments, selection, type_condition, deeper) == unfold_one(
            fragments,
            selection,
            type_condition,
            depth,
        ),
    decreases depth, 0nat,
{
    match selection {
        Selection::Field(_) => {},
        Selection::FragmentSpread(spread) => {
            let name = spread.node.fragment_name.node@;
            if fragments.contains_key(name) {
                let fragment = fragments[name].node;
                law_unfold_deeper(
                    fragments,
                    fragment.selection_set.node.items@,
                    Some(fragment.type_condition.node.on.node@),
                    (depth - 1) as nat,
                    (deeper - 1) as nat,
                );
            }
        },
        Selection::InlineFragment(fragment) => {
            law_unfold_deeper(
                fragments,
                fragment.node.selection_set.node.items@,
                match fragment.node.type_condition {
                    Some(condition) => Some(condition.node.on.node@),
                    None => type_condition,
                },
                (depth - 1) as nat,
                (deeper - 1) as nat,
            );
        },
    }
}

/// At a larger depth the same fields are met in the same order, and perhaps some more.
pub proof fn law_unfold_extends(
    fragments: FragmentMap,
    items: Seq<Positioned<Selection>>,
    type_condition: Option<Seq<char>>,
    depth: nat,
    deeper: nat,
)
    requires
        depth <= deeper,
    ensures
        unfold(fragments, items, type_condition, depth).fields.is_prefix_of(
            unfold(fragments, items, type_condition, deeper).fields,
        ),
    decreases depth, items.len(),
{
    if items.len() > 0 {
        let first = items[0].node;
        let rest = items.drop_first();
        lemma_unfold_one_extends(fragments, first, type_condition, depth, deeper);
        if unfold_one(fragments, first, type_condition, depth).complete {
            lemma_unfold_one_deeper(fragments, first, type_condition, depth, deeper);
            law_unfold_extends(fragments, rest, type_condition, depth, deeper);
        }
    }
}

proof fn lemma_unfold_one_extends(
    fragments: FragmentMap,
    selection: Selection,
    type_condition: Option<Seq<char>>,
    depth: nat,
    deeper: nat,
)
    requires
        depth <= deeper,
    ensures
        unfold_one(fragments, selection, type_condition, depth).fields.is_prefix_of(
            unfold_one(fragments, selection, type_condition, deeper).fields,
        ),
    decreases depth, 0nat,
{
    match selection {
        Selection::Field(_) => {},
        Selection::FragmentSpread(spread) => {
            let name = spread.node.fragment_name.node@;
            if fragments.contains_key(name) && depth > 0 {
                let fragment = fragments[name].node;
                law_unfold_extends(
                    fragments,
                    fragment.selection_set.node.items@,
                    Some(fragment.type_condition.node.on.node@),
                    (depth - 1) as nat,
                    (deeper - 1) as nat,
                );
            }
        },
        Selection::InlineFragment(fragment) => if depth > 0 {
            law_unfold_extends(
                fragments,
                fragment.node.selection_set.node.items@,
                match fragment.node.type_condition {
                    Some(condition) => Some(condition.node.on.node@),
                    None => type_condition,
                },
                (depth - 1) as nat,
                (deeper - 1) as nat,
            );
        },
    }
}

/// Selections are read in the order they were written: those of a list stand for what its two
/// halves stand for, one after the other.
pub proof fn law_unfold_in_order(
    fragments: FragmentMap,
    left: Seq<Positioned<Selection>>,
    right: Seq<Positioned<Selection>>,
    type_condition: Option<Seq<char>>,
    depth: nat,
)
    ensures
        unfold(fragments, left + right, type_condition, depth) == unfold(
            fragments,
            left,
            type_condition,
            depth,
        ).followed_by(unfold(fragments, right, type_condition, depth)),
    decreases left.len(),
{
    let after = unfold(fragments, right, type_condition, depth);
    if left.len() == 0 {
        assert(left + right =~= right);
        lemma_nothing_followed_by(after);
    } else {
        assert((left + right).drop_first() =~= left.drop_first() + right);
        law_unfold_in_order(fragments, left.drop_first(), right, type_condition, depth);
        lemma_followed_by_grouping(
            unfold_one(fragments, left[0].node, type_condition, depth),
            unfold(fragments, left.drop_first(), type_condition, depth),
            after,
        );
    }
}

/// The fields among some selections, all of which are fields.
pub open spec fn selected_fields(
    items: Seq<Positioned<Selection>>,
    type_condition: Option<Seq<char>>,
) -> Seq<Selected> {
    Seq::new(
        items.len(),
        |i: int| Selected { field: items[i].node->Field_0.node, type_condition },
    )
}

/// Selections without fragments stand for themselves, all under the type condition around them.
pub proof fn law_unfold_fields(
    fragments: FragmentMap,
    items: Seq<Positioned<Selection>>,
    type_condition: Option<Seq<char>>,
    depth: nat,
)
    requires
        forall|i: int| 0 <= i < items.len() ==> (#[trigger] items[i]).node is Field,
    ensures
        unfold(fragments, items, type_condition, depth).complete,
        unfold(fragments, items, type_condition, depth).fields == selected_fields(
            items,
            type_condition,
        ),
    decreases items.len(),
{
    let expected = selected_fields(items, type_condition);
    if items.len() == 0 {
        assert(expected =~= Seq::empty());
    } else {
        let rest = items.drop_first();
        law_unfold_fields(fragments, rest, type_condition, depth);
        assert(items[0].node is Field);
        assert(unfold_one(fragments, items[0].node, type_condition, depth).complete);
        assert(expected =~= seq![expected[0]] + selected_fields(rest, type_condition));
    }
}

/// A fragment written in place stands for what its selections stand for: under its own type
/// condition if it has one, else under the one around it.
pub proof fn law_unfold_inline(
    fragments: FragmentMap,
    fragment: Positioned<InlineFragment>,
    type_condition: Option<Seq<char>>,
    depth: nat,
)
    ensures
        unfold_one(fragments, Selection::InlineFragment(fragment), type_condition, depth + 1)
            == unfold(
            fragments,
            fragment.node.selection_set.node.items@,
            match fragment.node.type_condition {
                Some(condition) => Some(condition.node.on.node@),
                None => type_condition,
            },
            depth,
        ),
{
}

/// The name of a fragment stands for what its definition selects, under the type condition of the
/// definition, whatever is around it; a name that is not defined stands for nothing.
pub proof fn law_unfold_spread(
    fragments: FragmentMap,
    spread: Positioned<FragmentSpread>,
    type_condition: Option<Seq<char>>,
    depth: nat,
)
    ensures
        ({
            let name = spread.node.fragment_name.node@;
            unfold_one(fragments, Selection::FragmentSpread(spread), type_condition, depth + 1)
                == if fragments.contains_key(name) {
                unfold(
                    fragments,
                    fragments[name].node.selection_set.node.items@,
                    Some(fragments[name].node.type_condition.node.on.node@),
                    depth,
                )
            } else {
                nothing()
            }
        }),
{
}

/// The fields of a walk, whatever their type conditions.
pub open spec fn plain_fields(walk: Walk) -> Seq<Field> {
    Seq::new(walk.fields.len(), |i: int| walk.fields[i].field)
}

/// Type conditions mark fields and drop none: which fields are met does not depend on them.
pub proof fn law_type_condition_keeps_fields(
    fragments: FragmentMap,
    items: Seq<Positioned<Selection>>,
    left: Option<Seq<char>>,
    right: Option<Seq<char>>,
    depth: nat,
)
    ensures
        plain_fields(unfold(fragments, items, left, depth)) == plain_fields(
            unfold(fragments, items, right, depth),
        ),
        unfold(fragments, items, left, depth).complete == unfold(
            fragments,
            items,
            right,
            depth,
        ).complete,
    decreases depth, items.len(),
{
    if items.len() > 0 {
        let rest = items.drop_first();
        lemma_type_condition_one(fragments, items[0].node, left, right, depth);
        law_type_condition_keeps_fields(fragments, rest, left, right, depth);
        lemma_plain_fields_followed_by(
            unfold_one(fragments, items[0].node, left, depth),
            unfold(fragments, rest, left, depth),
        );
        lemma_plain_fields_followed_by(
            unfold_one(fragments, items[0].node, right, depth),
            unfold(fragments, rest, right, depth),
        );
    }
}

proof fn lemma_type_condition_one(
    fragments: FragmentMap,
    selection: Selection,
    left: Option<Seq<char>>,
    right: Option<Seq<char>>,
    depth: nat,
)
    ensures
        plain_fields(unfold_one(fragments, selection, left, depth)) == plain_fields(
            unfold_one(fragments, selection, right, depth),
        ),
        unfold_one(fragments, selection, left, depth).complete == unfold_one(
            fragments,
            selection,
            right,
            depth,
        ).complete,
    decreases depth, 0nat,
{
    match selection {
        Selection::Field(_) => {
            assert(plain_fields(unfold_one(fragments, selection, left, depth)) =~= plain_fields(
                unfold_one(fragments, selection, right, depth),
            ));
        },
        Selection::FragmentSpread(_) => {},
        Selection::InlineFragment(fragment) => if depth > 0 {
            let own = fragment.node.type_condition;
            law_type_condition_keeps_fields(
                fragments,
                fragment.node.selection_set.node.items@,
                match own {
                    Some(condition) => Some(condition.node.on.node@),
                    None => left,
                },
                match own {
                    Some(condition) => Some(condition.node.on.node@),
                    None => right,
                },
                (depth - 1) as nat,
            );
        },
    }
}

proof fn lemma_plain_fields_followed_by(first: Walk, second: Walk)
    ensures
        plain_fields(first.followed_by(second)) == if first.complete {
            plain_fields(first) + plain_fields(second)
        } else {
            plain_fields(first)
        },
{
    if first.complete {
        assert(plain_fields(first.followed_by(second)) =~= plain_fields(first) + plain_fields(
            second,
        ));
    }
}

/// What walks are made of: one after another meets the fields of both, unless the first is cut
/// short; a walk answers if it has a field or an end; what is left of it lacks its first field.
pub proof fn law_walks(first: Walk, second: Walk)
    ensures
        first.complete ==> first.followed_by(second).fields == first.fields + second.fields
            && first.followed_by(second).complete == second.complete,
        !first.complete ==> first.followed_by(second) == first,
        first.answers() <==> first.complete || first.fields.len() > 0,
        first.fields.len() > 0 ==> first.rest().fields == first.fields.drop_first(),
        first.fields.len() == 0 ==> first.rest().fields.len() == 0,
        first.rest().complete == first.complete,
        nothing().complete && nothing().fields.len() == 0,
        !stopped().complete && stopped().fields.len() == 0,
{
}

/// Selections stand for what the first of them stands for, followed by what the others stand for;
/// no selections stand for nothing.
pub proof fn law_unfold_first(
    fragments: FragmentMap,
    items: Seq<Positioned<Selection>>,
    type_condition: Option<Seq<char>>,
    depth: nat,
)
    ensures
        items.len() == 0 ==> unfold(fragments, items, type_condition, depth).complete && unfold(
            fragments,
            items,
            type_condition,
            depth,
        ).fields.len() == 0,
        items.len() > 0 ==> ({
            let whole = unfold(fragments, items, type_condition, depth);
            let one = unfold_one(fragments, items[0].node, type_condition, depth);
            let others = unfold(fragments, items.drop_first(), type_condition, depth);
            if one.complete {
                whole.fields == one.fields + others.fields && whole.complete == others.complete
            } else {
                whole.fields == one.fields && !whole.complete
            }
        }),
{
}

/// A field stands for itself, under the type condition around it, at every depth; a fragment lies
/// one deeper than the selections that name it.
pub proof fn law_unfold_one(
    fragments: FragmentMap,
    selection: Selection,
    type_condition: Option<Seq<char>>,
    depth: nat,
)
    ensures
        ({
            let walk = unfold_one(fragments, selection, type_condition, depth);
            match selection {
                Selection::Field(field) => {
                    &&& walk.complete
                    &&& walk.fields.len() == 1
                    &&& walk.fields[0].field == field.node
                    &&& walk.fields[0].type_condition == type_condition
                },
                Selection::FragmentSpread(spread) => {
                    let name = spread.node.fragment_name.node@;
                    if !fragments.contains_key(name) {
                        walk.complete && walk.fields.len() == 0
                    } else if depth == 0 {
                        !walk.complete && walk.fields.len() == 0
                    } else {
                        walk == unfold(
                            fragments,
                            fragments[name].node.selection_set.node.items@,
                            Some(fragments[name].node.type_condition.node.on.node@),
                            (depth - 1) as nat,
                        )
                    }
                },
                Selection::InlineFragment(fragment) => if depth == 0 {
                    !walk.complete && walk.fields.len() == 0
                } else if fragment.node.type_condition is Some {
                    walk == unfold(
                        fragments,
                        fragment.node.selection_set.node.items@,
                        Some(fragment.node.type_condition->0.node.on.node@),
                        (depth - 1) as nat,
                    )
                } else {
                    walk == unfold(
                        fragments,
                        fragment.node.selection_set.node.items@,
                        type_condition,
                        (depth - 1) as nat,
                    )
                },
            }
        }),
{
}

} // verus!
