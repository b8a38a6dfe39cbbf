//! How a selected field shows itself.
use vstd::prelude::*;
use vstd::string::StringExecFns;

use crate::document::Field;
use crate::path::string_views;
use crate::selection::{field_views, SelectionField};
use crate::unfold::{law_unfold_deeper, unfold, FragmentMap, Selected};

verus! {

/// A text in quotes, with what cannot stand there escaped: what `<str as Debug>::fmt` writes.
pub uninterp spec fn quoted(text: Seq<char>) -> Seq<char>;

/// Whether a text consists of ASCII letters, digits and underscores, as every name in a parsed
/// request does.
pub open spec fn is_plain(text: Seq<char>) -> bool {
    forall|i: int|
        0 <= i < text.len() ==> {
            let c = #[trigger] text[i];
            ||| 'a' <= c <= 'z'
            ||| 'A' <= c <= 'Z'
            ||| '0' <= c <= '9'
            ||| c == '_'
        }
}

/// A text in quotes: a plain one stands between them as it is.
pub open spec fn in_quotes(text: Seq<char>) -> Seq<char> {
    if is_plain(text) {
        seq!['"'] + text + seq!['"']
    } else {
        quoted(text)
    }
}

/// Formats a text with `<str as Debug>::fmt`. Claimed: the result depends on the text alone, and
/// ASCII letters, digits and underscores are only put between two quotes.
#[verifier::external_body]
fn quote(text: &str) -> (result: String)
    ensures
        result@ == quoted(text@),
        is_plain(text@) ==> result@ == seq!['"'] + text@ + seq!['"'],
{
    format!("{:?}", text)
}

/// Texts with commas between them.
pub open spec fn listed(texts: Seq<Seq<char>>) -> Seq<char>
    decreases texts.len(),
{
    if texts.len() == 0 {
        Seq::empty()
    } else if texts.len() == 1 {
        texts[0]
    } else {
        listed(texts.drop_last()) + ", "@ + texts.last()
    }
}

/// A field by its name, its name in quotes and what is selected inside it.
pub open spec fn shown_as(
    name: Seq<char>,
    quoted_name: Seq<char>,
    inside: Seq<Seq<char>>,
) -> Seq<char> {
    name + " { name: "@ + quoted_name + ", selection_set: ["@ + listed(inside) + "] }"@
}

/// Writes a field by its name, its name in quotes and what is selected inside it.
pub fn show_field(name: &str, quoted_name: &str, inside: &Vec<String>) -> (text: String)
    ensures
        text@ == shown_as(name@, quoted_name@, string_views(inside@)),
        text@ == name@ + " { name: "@ + quoted_name@ + ", selection_set: ["@ + listed(
            string_views(inside@),
        ) + "] }"@,
{
    let ghost texts = string_views(inside@);
    let mut list: String = String::new();
    let count: usize = inside.len();
    assert(texts.take(0) =~= Seq::empty());
    assert(list@ =~= listed(Seq::empty()));
    for i in 0..count
        invariant
            count == inside@.len(),
            texts == string_views(inside@),
            list@ == listed(texts.take(i as int)),
    {
        if i > 0 {
            list.append(", ");
        }
        list.append(inside[i].as_str());
        proof {
            let shown = texts.take(i + 1);
            assert(shown.drop_last() =~= texts.take(i as int));
            assert(shown.last() == inside@[i as int]@);
            if i == 0 {
                assert(list@ =~= shown[0]);
            }
        }
    }
    assert(texts.take(count as int) =~= texts);
    let mut text: String = name.to_owned();
    text.append(" { name: ");
    text.append(quoted_name);
    text.append(", selection_set: [");
    text.append(list.as_str());
    text.append("] }");
    text
}

/// Whether what is selected inside a field, at whatever depth, goes no deeper than `depth`,
/// counting both fields and fragments.
pub open spec fn fits(fragments: FragmentMap, field: Field, depth: nat) -> bool
    decreases depth, 0nat,
{
    if depth == 0 {
        false
    } else {
        let inside = unfold(
            fragments,
            field.selection_set.node.items@,
            None,
            (depth - 1) as nat,
        );
        inside.complete && all_fit(fragments, inside.fields, (depth - 1) as nat)
    }
}

/// Whether that holds of several fields.
pub open spec fn all_fit(fragments: FragmentMap, fields: Seq<Selected>, depth: nat) -> bool
    decreases depth, 1nat,
{
    forall|i: int| 0 <= i < fields.len() ==> fits(fragments, (#[trigger] fields[i]).field, depth)
}

/// A field with its name and what is selected inside it, each in the same form, if that goes no
/// deeper than `depth`.
pub open spec fn described(fragments: FragmentMap, field: Field, depth: nat) -> Seq<char>
    decreases depth, 0nat,
{
    if depth == 0 {
        Seq::empty()
    } else {
        let inside = unfold(
            fragments,
            field.selection_set.node.items@,
            None,
            (depth - 1) as nat,
        );
        shown_as(
            field.name.node@,
            in_quotes(field.name.node@),
            described_all(fragments, inside.fields, (depth - 1) as nat),
        )
    }
}

/// Several fields in that form.
pub open spec fn described_all(
    fragments: FragmentMap,
    fields: Seq<Selected>,
    depth: nat,
) -> Seq<Seq<char>>
    decreases depth, 1nat,
{
    Seq::new(fields.len(), |i: int| described(fragments, fields[i].field, depth))
}

/// What can be described at some depth is described in the same way at every larger one.
pub proof fn law_described_deeper(fragments: FragmentMap, field: Field, depth: nat, deeper: nat)
    requires
        fits(fragments, field, depth),
        depth <= deeper,
    ensures
        fits(fragments, field, deeper),
        described(fragments, field, deeper) == described(fragments, field, depth),
    decreases depth, 0nat,
{
    let items = field.selection_set.node.items@;
    let inside = unfold(fragments, items, None, (depth - 1) as nat);
    law_unfold_deeper(fragments, items, None, (depth - 1) as nat, (deeper - 1) as nat);
    lemma_described_all_deeper(
        fragments,
        inside.fields,
        (depth - 1) as nat,
        (deeper - 1) as nat,
    );
}

pub(crate) proof fn lemma_described_all_deeper(
    fragments: FragmentMap,
    fields: Seq<Selected>,
    depth: nat,
    deeper: nat,
)
    requires
        all_fit(fragments, fields, depth),
        depth <= deeper,
    ensures
        all_fit(fragments, fields, deeper),
        described_all(fragments, fields, deeper) == described_all(fragments, fields, depth),
    decreases depth, 1nat,
{
    assert forall|i: int| 0 <= i < fields.len() implies fits(
        fragments,
        (#[trigger] fields[i]).field,
        deeper,
    ) && described(fragments, fields[i].field, deeper) == described(
        fragments,
        fields[i].field,
        depth,
    ) by {
        law_described_deeper(fragments, fields[i].field, depth, deeper);
    }
    assert(described_all(fragments, fields, deeper) =~= described_all(fragments, fields, depth));
}

impl<'a, V> SelectionField<'a, V> {
    fn describe(&self, Ghost(depth): Ghost<nat>) -> (text: String)
        requires
            fits(self.fragments@, *self.field, depth),
        ensures
            text@ == described(self.fragments@, *self.field, depth),
        decreases depth,
    {
        let ghost inner = (depth - 1) as nat;
        let ghost inside = self.subfields(inner);
        let ghost texts = described_all(self.fragments@, inside.fields, inner);
        let iter = self.selection_set();
        assert(iter.remaining(inner).complete);
        let fields = iter.collect();
        assert(field_views(fields@) == inside.fields);
        let mut shown: Vec<String> = Vec::new();
        let count: usize = fields.len();
        assert(string_views(shown@) =~= texts.take(0));
        for i in 0..count
            invariant
                count == fields@.len(),
                depth > 0,
                inner == depth - 1,
                field_views(fields@) == inside.fields,
                all_fit(self.fragments@, inside.fields, inner),
                texts == described_all(self.fragments@, inside.fields, inner),
                string_views(shown@) == texts.take(i as int),
                forall|j: int|
                    0 <= j < count ==> (#[trigger] fields@[j]).fragments == self.fragments,
        {
            assert(inside.fields[i as int] == fields@[i as int].view());
            let ghost before = string_views(shown@);
            let text: String = fields[i].describe(Ghost(inner));
            assert(text@ == texts[i as int]);
            shown.push(text);
            assert(string_views(shown@) =~= before.push(text@));
            assert(string_views(shown@) =~= texts.take(i + 1));
        }
        assert(texts.take(count as int) =~= texts);
        show_field(self.name(), quote(self.name()).as_str(), &shown)
    }

    /// The field with its name and what is selected inside it.
    ///
    /// There must be a depth that neither fields nor fragments exceed.
    pub fn debug_string(&self) -> (text: String)
        requires
            exists|depth: nat| fits(self.fragments@, *self.field, depth),
        ensures
            forall|depth: nat| #[trigger]
                fits(self.fragments@, *self.field, depth) ==> text@ == described(
                    self.fragments@,
                    *self.field,
                    depth,
                ),
    {
        let ghost enough = choose|depth: nat| fits(self.fragments@, *self.field, depth);
        let text = self.describe(Ghost(enough));
        assert forall|depth: nat| #[trigger]
            fits(self.fragments@, *self.field, depth) implies text@ == described(
            self.fragments@,
            *self.field,
            depth,
        ) by {
            if depth <= enough {
                law_described_deeper(self.fragments@, *self.field, depth, enough);
            } else {
                law_described_deeper(self.fragments@, *self.field, enough, depth);
            }
        }
        text
    }
}

/// No text makes an empty list, one text stands alone, and each further text comes after a comma
/// and a blank.
pub proof fn law_listed(texts: Seq<Seq<char>>, text: Seq<char>)
    ensures
        listed(Seq::empty()) == Seq::<char>::empty(),
        listed(seq![text]) == text,
        texts.len() > 0 ==> listed(texts.push(text)) == listed(texts) + ", "@ + text,
{
    assert(texts.push(text).drop_last() =~= texts);
}

/// A text of ASCII letters, digits and underscores stands between two quotes as it is; any other
/// stands there as it is quoted.
pub proof fn law_in_quotes(text: Seq<char>)
    ensures
        (forall|i: int|
            0 <= i < text.len() ==> {
                ||| 'a' <= (#[trigger] text[i]) <= 'z'
                ||| 'A' <= text[i] <= 'Z'
                ||| '0' <= text[i] <= '9'
                ||| text[i] == '_'
            }) ==> in_quotes(text) == seq!['"'] + text + seq!['"'],
        (exists|i: int|
            0 <= i < text.len() && !{
                ||| 'a' <= (#[trigger] text[i]) <= 'z'
                ||| 'A' <= text[i] <= 'Z'
                ||| '0' <= text[i] <= '9'
                ||| text[i] == '_'
            }) ==> in_quotes(text) == quoted(text),
{
}

/// A field goes no deeper than a depth exactly if that depth is not zero, its selections can be
/// read to the end within one less, and none of the fields met there goes deeper than one less.
pub proof fn law_fits(fragments: FragmentMap, field: Field, depth: nat)
    ensures
        fits(fragments, field, depth) <==> {
            &&& depth > 0
            &&& unfold(
                fragments,
                field.selection_set.node.items@,
                None,
                (depth - 1) as nat,
            ).complete
            &&& forall|i: int|
                0 <= i < unfold(
                    fragments,
                    field.selection_set.node.items@,
                    None,
                    (depth - 1) as nat,
                ).fields.len() ==> fits(
                    fragments,
                    (#[trigger] unfold(
                        fragments,
                        field.selection_set.node.items@,
                        None,
                        (depth - 1) as nat,
                    ).fields[i]).field,
                    (depth - 1) as nat,
                )
        },
{
}

/// A field is described by its name, its name in quotes and, between brackets and with commas
/// between them, the descriptions of all the fields selected inside it, in order.
pub proof fn law_described(fragments: FragmentMap, field: Field, depth: nat)
    requires
        fits(fragments, field, depth),
    ensures
        ({
            let inside = unfold(
                fragments,
                field.selection_set.node.items@,
                None,
                (depth - 1) as nat,
            ).fields;
            let name = field.name.node@;
            described(fragments, field, depth) == name + " { name: "@ + in_quotes(name)
                + ", selection_set: ["@ + listed(
                Seq::new(
                    inside.len(),
                    |i: int| described(fragments, inside[i].field, (depth - 1) as nat),
                ),
            ) + "] }"@
        }),
{
    let inside = unfold(
        fragments,
        field.selection_set.node.items@,
        None,
        (depth - 1) as nat,
    ).fields;
    assert(described_all(fragments, inside, (depth - 1) as nat) =~= Seq::new(
        inside.len(),
        |i: int| described(fragments, inside[i].field, (depth - 1) as nat),
    ));
}

} // verus!
