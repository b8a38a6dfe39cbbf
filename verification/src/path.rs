//! The path from the root of a query to what is being resolved.
use vstd::prelude::*;
use vstd::string::StringExecFns;

use crate::error::{path_views, PathSegment, SegmentView};
use crate::text::{decimal, decimal_text};

verus! {

/// A segment in the path to the current query.
#[derive(Debug, Clone, Copy)]
pub enum QueryPathSegment<'a> {
    /// We are currently resolving an element in a list.
    Index(usize),
    /// We are currently resolving a field in an object.
    Name(&'a str),
}

impl<'a> QueryPathSegment<'a> {
    /// The segment with its name read as a sequence.
    pub open spec fn view(&self) -> SegmentView {
        match self {
            QueryPathSegment::Index(index) => SegmentView::Index(*index),
            QueryPathSegment::Name(name) => SegmentView::Name(name@),
        }
    }
}

/// Segments with their names read as sequences.
pub open spec fn segment_views<'a>(segments: Seq<QueryPathSegment<'a>>) -> Seq<SegmentView> {
    Seq::new(segments.len(), |i: int| segments[i].view())
}

/// A path to the current query.
///
/// The path is stored as a kind of reverse linked list.
#[derive(Debug, Clone, Copy)]
pub struct QueryPathNode<'a> {
    /// The parent node to this, if there is one.
    pub parent: Option<&'a QueryPathNode<'a>>,
    /// The current path segment being resolved.
    pub segment: QueryPathSegment<'a>,
}

/// Something that is shown the segments of a path one by one, and may stop the walk.
pub trait PathVisitor<'a>: Sized {
    /// Why the walk was stopped.
    type Break;

    /// Whether being shown `segment` may turn `before` into `after` with this outcome; of a
    /// visitor that does not say, nothing is known.
    open spec fn visits(
        before: Self,
        segment: QueryPathSegment<'a>,
        after: Self,
        outcome: Result<(), Self::Break>,
    ) -> bool {
        true
    }

    /// Takes a segment; an error stops the walk.
    fn visit(&mut self, segment: &QueryPathSegment<'a>) -> (outcome: Result<(), Self::Break>)
        ensures
            Self::visits(*old(self), *segment, *final(self), outcome),
    ;
}

/// Whether showing `segments` in order may turn `before` into `after` with this outcome: every
/// segment is taken until the first one that stops the walk.
pub open spec fn walks<'a, F: PathVisitor<'a>>(
    before: F,
    segments: Seq<QueryPathSegment<'a>>,
    after: F,
    outcome: Result<(), F::Break>,
) -> bool
    decreases segments.len(),
{
    if segments.len() == 0 {
        after == before && outcome is Ok
    } else {
        ||| outcome is Err && walks(before, segments.drop_last(), after, outcome)
        ||| exists|between: F|
            walks(before, segments.drop_last(), between, Ok(())) && #[trigger] F::visits(
                between,
                segments.last(),
                after,
                outcome,
            )
    }
}

impl<'a> QueryPathNode<'a> {
    /// The segments from the root to this node.
    pub open spec fn segments(&self) -> Seq<QueryPathSegment<'a>>
        decreases self,
    {
        match self.parent {
            Some(parent) => parent.segments().push(self.segment),
            None => seq![self.segment],
        }
    }

    /// The path from the root to this node.
    pub open spec fn path(&self) -> Seq<SegmentView> {
        segment_views(self.segments())
    }

    /// Shows every segment from the root to this node, up to the first that stops the walk.
    fn try_for_each_ref<F: PathVisitor<'a>>(&self, f: &mut F) -> (outcome: Result<(), F::Break>)
        ensures
            walks(*old(f), self.segments(), *final(f), outcome),
        decreases self,
    {
        let ghost start = *f;
        if let Some(parent) = self.parent {
            match parent.try_for_each_ref(f) {
                Ok(unit) => {
                    assert(unit == ());
                },
                Err(stop) => {
                    assert(self.segments().drop_last() =~= parent.segments());
                    return Err(stop);
                },
            }
            assert(self.segments().drop_last() =~= parent.segments());
        } else {
            assert(self.segments().drop_last() =~= Seq::empty());
        }
        let ghost between = *f;
        assert(walks(start, self.segments().drop_last(), between, Ok(())));
        let outcome = f.visit(&self.segment);
        assert(F::visits(between, self.segments().last(), *f, outcome));
        outcome
    }

    /// Shows every segment from the root to this node, up to the first that stops the walk.
    pub fn try_for_each<F: PathVisitor<'a>>(&self, f: &mut F) -> (outcome: Result<(), F::Break>)
        ensures
            walks(*old(f), self.segments(), *final(f), outcome),
    {
        self.try_for_each_ref(f)
    }

    /// Shows every segment from the root to this node to a visitor that never stops the walk.
    pub fn for_each<F: PathVisitor<'a>>(&self, f: &mut F)
        requires
            forall|
                before: F,
                segment: QueryPathSegment<'a>,
                after: F,
                outcome: Result<(), F::Break>,
            | #[trigger] F::visits(before, segment, after, outcome) ==> outcome is Ok,
        ensures
            walks(*old(f), self.segments(), *final(f), Ok(())),
    {
        let ghost start = *f;
        let outcome = self.try_for_each(f);
        proof {
            lemma_unstopped(start, self.segments(), *f, outcome);
            assert(outcome->Ok_0 == ());
        }
    }
}

/// A visitor that never stops the walk sees all of it.
proof fn lemma_unstopped<'a, F: PathVisitor<'a>>(
    before: F,
    segments: Seq<QueryPathSegment<'a>>,
    after: F,
    outcome: Result<(), F::Break>,
)
    requires
        forall|
            before: F,
            segment: QueryPathSegment<'a>,
            after: F,
            outcome: Result<(), F::Break>,
        | #[trigger] F::visits(before, segment, after, outcome) ==> outcome is Ok,
        walks(before, segments, after, outcome),
    ensures
        outcome is Ok,
    decreases segments.len(),
{
    if segments.len() > 0 && outcome is Err && walks(
        before,
        segments.drop_last(),
        after,
        outcome,
    ) {
        lemma_unstopped(before, segments.drop_last(), after, outcome);
    }
}

/// A segment as text: a name as it is, an index in decimal.
pub open spec fn segment_text(segment: SegmentView) -> Seq<char> {
    match segment {
        SegmentView::Name(name) => name,
        SegmentView::Index(index) => decimal(index as nat),
    }
}

/// The texts of the segments of a path.
pub open spec fn path_texts(path: Seq<SegmentView>) -> Seq<Seq<char>> {
    Seq::new(path.len(), |i: int| segment_text(path[i]))
}

/// Texts joined by dots.
pub open spec fn dotted(texts: Seq<Seq<char>>) -> Seq<char>
    decreases texts.len(),
{
    if texts.len() == 0 {
        Seq::empty()
    } else if texts.len() == 1 {
        texts[0]
    } else {
        dotted(texts.drop_last()) + seq!['.'] + texts.last()
    }
}

/// Strings read as sequences.
pub open spec fn string_views(strings: Seq<String>) -> Seq<Seq<char>> {
    Seq::new(strings.len(), |i: int| strings[i]@)
}

/// Writes a segment as text.
fn text_of(segment: &QueryPathSegment<'_>) -> (text: String)
    ensures
        text@ == segment_text(segment.view()),
{
    match segment {
        QueryPathSegment::Name(name) => (*name).to_owned(),
        QueryPathSegment::Index(index) => decimal_text(*index),
    }
}

/// Collects the texts of the segments.
struct Texts {
    texts: Vec<String>,
}

impl<'a> PathVisitor<'a> for Texts {
    type Break = ();

    closed spec fn visits(
        before: Self,
        segment: QueryPathSegment<'a>,
        after: Self,
        outcome: Result<(), ()>,
    ) -> bool {
        &&& outcome is Ok
        &&& string_views(after.texts@) == string_views(before.texts@).push(
            segment_text(segment.view()),
        )
    }

    fn visit(&mut self, segment: &QueryPathSegment<'a>) -> (outcome: Result<(), ()>) {
        self.texts.push(text_of(segment));
        assert(string_views(self.texts@) =~= string_views(old(self).texts@).push(
            segment_text(segment.view()),
        ));
        Ok(())
    }
}

proof fn lemma_texts<'a>(before: Texts, segments: Seq<QueryPathSegment<'a>>, after: Texts)
    requires
        walks(before, segments, after, Ok(())),
    ensures
        string_views(after.texts@) == string_views(before.texts@) + path_texts(
            segment_views(segments),
        ),
    decreases segments.len(),
{
    if segments.len() == 0 {
        assert(string_views(after.texts@) =~= string_views(before.texts@) + path_texts(
            segment_views(segments),
        ));
    } else {
        let between = choose|between: Texts|
            walks(before, segments.drop_last(), between, Ok(())) && #[trigger] Texts::visits(
                between,
                segments.last(),
                after,
                Ok(()),
            );
        lemma_texts(before, segments.drop_last(), between);
        assert(path_texts(segment_views(segments)) =~= path_texts(
            segment_views(segments.drop_last()),
        ).push(segment_text(segments.last().view())));
        assert(string_views(after.texts@) =~= string_views(before.texts@) + path_texts(
            segment_views(segments),
        ));
    }
}

/// Collects the segments in their owned form.
struct Owned {
    path: Vec<PathSegment>,
}

impl<'a> PathVisitor<'a> for Owned {
    type Break = ();

    closed spec fn visits(
        before: Self,
        segment: QueryPathSegment<'a>,
        after: Self,
        outcome: Result<(), ()>,
    ) -> bool {
        &&& outcome is Ok
        &&& path_views(after.path@) == path_views(before.path@).push(segment.view())
    }

    fn visit(&mut self, segment: &QueryPathSegment<'a>) -> (outcome: Result<(), ()>) {
        self.path.push(
            match segment {
                QueryPathSegment::Name(name) => PathSegment::Field((*name).to_owned()),
                QueryPathSegment::Index(index) => PathSegment::Index(*index),
            },
        );
        assert(path_views(self.path@) =~= path_views(old(self).path@).push(segment.view()));
        Ok(())
    }
}

proof fn lemma_owned<'a>(before: Owned, segments: Seq<QueryPathSegment<'a>>, after: Owned)
    requires
        walks(before, segments, after, Ok(())),
    ensures
        path_views(after.path@) == path_views(before.path@) + segment_views(segments),
    decreases segments.len(),
{
    if segments.len() == 0 {
        assert(path_views(after.path@) =~= path_views(before.path@) + segment_views(segments));
    } else {
        let between = choose|between: Owned|
            walks(before, segments.drop_last(), between, Ok(())) && #[trigger] Owned::visits(
                between,
                segments.last(),
                after,
                Ok(()),
            );
        lemma_owned(before, segments.drop_last(), between);
        assert(path_views(after.path@) =~= path_views(before.path@) + segment_views(segments));
    }
}

/// Writes the segments in one line, with dots between them.
struct Line {
    text: String,
    first: bool,
}

impl<'a> PathVisitor<'a> for Line {
    type Break = ();

    closed spec fn visits(
        before: Self,
        segment: QueryPathSegment<'a>,
        after: Self,
        outcome: Result<(), ()>,
    ) -> bool {
        &&& outcome is Ok
        &&& !after.first
        &&& after.text@ == if before.first {
            before.text@ + segment_text(segment.view())
        } else {
            before.text@ + seq!['.'] + segment_text(segment.view())
        }
    }

    fn visit(&mut self, segment: &QueryPathSegment<'a>) -> (outcome: Result<(), ()>) {
        if !self.first {
            proof {
                reveal_strlit(".");
                assert("."@ =~= seq!['.']);
            }
            self.text.append(".");
        }
        self.first = false;
        self.text.append(text_of(segment).as_str());
        Ok(())
    }
}

proof fn lemma_line<'a>(before: Line, segments: Seq<QueryPathSegment<'a>>, after: Line)
    requires
        walks(before, segments, after, Ok(())),
        before.first,
        before.text@.len() == 0,
    ensures
        after.text@ == dotted(path_texts(segment_views(segments))),
        after.first == (segments.len() == 0),
    decreases segments.len(),
{
    if segments.len() == 0 {
        assert(after.text@ =~= Seq::empty());
    } else {
        let between = choose|between: Line|
            walks(before, segments.drop_last(), between, Ok(())) && #[trigger] Line::visits(
                between,
                segments.last(),
                after,
                Ok(()),
            );
        lemma_line(before, segments.drop_last(), between);
        let texts = path_texts(segment_views(segments));
        assert(texts.drop_last() =~= path_texts(segment_views(segments.drop_last())));
        assert(between.text@ + texts.last() =~= texts.last() || segments.len() > 1);
    }
}

/// Whether `name` is the last name in a path.
pub open spec fn names_field(path: Seq<SegmentView>, name: Seq<char>) -> bool {
    exists|i: int|
        #![trigger path[i]]
        {
            &&& 0 <= i < path.len()
            &&& path[i] == SegmentView::Name(name)
            &&& forall|j: int| i < j < path.len() ==> (#[trigger] path[j]) is Index
        }
}

impl<'a> QueryPathNode<'a> {
    /// Get the current field name.
    ///
    /// This traverses all the parents of the node until it finds one that is a
    /// field name.
    pub fn field_name(&self) -> (name: &str)
        requires
            exists|i: int| 0 <= i < self.path().len() && (#[trigger] self.path()[i]) is Name,
        ensures
            names_field(self.path(), name@),
            exists|i: int|
                {
                    &&& 0 <= i < self.segments().len()
                    &&& #[trigger] self.segments()[i] matches QueryPathSegment::Name(text)
                    &&& text@ == name@
                    &&& forall|j: int|
                        i < j < self.segments().len() ==> (#[trigger] self.segments()[j]) is Index
                },
    {
        let mut node: QueryPathNode<'a> = *self;
        loop
            invariant
                node.path().len() <= self.path().len(),
                node.path() == self.path().take(node.path().len() as int),
                forall|j: int|
                    node.path().len() <= j < self.path().len() ==> (#[trigger] self.path()[j])
                        is Index,
                exists|i: int| 0 <= i < self.path().len() && (#[trigger] self.path()[i]) is Name,
            decreases node,
        {
            proof {
                node.lemma_last();
            }
            let ghost last = node.path().len() - 1;
            assert(self.path()[last] == node.path()[last]);
            match node.segment {
                QueryPathSegment::Name(name) => {
                    assert(self.path()[last] == self.segments()[last].view());
                    assert forall|j: int| last < j < self.segments().len() implies (
                    #[trigger] self.segments()[j]) is Index by {
                        assert(self.path()[j] is Index);
                    }
                    return name;
                },
                QueryPathSegment::Index(_) => {},
            }
            match node.parent {
                Some(parent) => {
                    assert(parent.path() =~= node.path().drop_last());
                    assert(parent.path() =~= self.path().take(last));
                    node = *parent;
                },
                None => {
                    assert(false);
                },
            }
        }
    }

    /// Get the path represented by `Vec<String>`; numbers will be stringified.
    #[must_use]
    pub fn to_string_vec(self) -> (texts: Vec<String>)
        ensures
            string_views(texts@) == path_texts(self.path()),
            texts@.len() == self.segments().len(),
            forall|i: int|
                0 <= i < texts@.len() ==> match (#[trigger] self.segments()[i]) {
                    QueryPathSegment::Name(name) => texts@[i]@ == name@,
                    QueryPathSegment::Index(index) => texts@[i]@ == decimal(index as nat),
                },
    {
        let mut texts = Texts { texts: Vec::new() };
        let ghost start = texts;
        self.for_each(&mut texts);
        proof {
            lemma_texts(start, self.segments(), texts);
            assert(string_views(start.texts@) + path_texts(self.path()) =~= path_texts(
                self.path(),
            ));
            assert forall|i: int| 0 <= i < texts.texts@.len() implies match (
            #[trigger] self.segments()[i]) {
                QueryPathSegment::Name(name) => texts.texts@[i]@ == name@,
                QueryPathSegment::Index(index) => texts.texts@[i]@ == decimal(index as nat),
            } by {
                assert(string_views(texts.texts@)[i] == path_texts(self.path())[i]);
            }
        }
        texts.texts
    }

    /// The path in its owned form.
    pub fn to_owned_path(&self) -> (path: Vec<PathSegment>)
        ensures
            path_views(path@) == self.path(),
            path@.len() == self.segments().len(),
            forall|i: int|
                0 <= i < path@.len() ==> match (#[trigger] self.segments()[i]) {
                    QueryPathSegment::Name(name) => path@[i] matches PathSegment::Field(text)
                        && text@ == name@,
                    QueryPathSegment::Index(index) => path@[i] == PathSegment::Index(index),
                },
    {
        let mut owned = Owned { path: Vec::new() };
        let ghost start = owned;
        self.for_each(&mut owned);
        proof {
            lemma_owned(start, self.segments(), owned);
            assert(path_views(start.path@) + self.path() =~= self.path());
            assert forall|i: int| 0 <= i < owned.path@.len() implies match (
            #[trigger] self.segments()[i]) {
                QueryPathSegment::Name(name) => owned.path@[i] matches PathSegment::Field(text)
                    && text@ == name@,
                QueryPathSegment::Index(index) => owned.path@[i] == PathSegment::Index(index),
            } by {
                assert(path_views(owned.path@)[i] == self.path()[i]);
            }
        }
        owned.path
    }

    /// The path in one line, its segments separated by dots.
    pub fn to_string(&self) -> (text: String)
        ensures
            text@ == dotted(path_texts(self.path())),
    {
        let mut line = Line { text: String::new(), first: true };
        let ghost start = line;
        self.for_each(&mut line);
        proof {
            lemma_line(start, self.segments(), line);
        }
        line.text
    }

    /// Iterate over the parents of the node.
    pub fn parents(&self) -> (parents: Parents<'_>)
        ensures
            parents.node() == *self,
    {
        Parents(self)
    }

    /// A path ends in the segment of its node, after the path of the parent.
    proof fn lemma_last(self)
        ensures
            self.path().len() > 0,
            self.path().last() == self.segment.view(),
            match self.parent {
                Some(parent) => self.path().drop_last() == parent.path(),
                None => self.path().len() == 1,
            },
    {
        if let Some(parent) = self.parent {
            assert(self.path().drop_last() =~= parent.path());
        }
    }
}

/// An iterator over the parents of a [`QueryPathNode`].
#[derive(Debug)]
pub struct Parents<'a>(&'a QueryPathNode<'a>);

impl<'a> Clone for Parents<'a> {
    fn clone(&self) -> (parents: Self)
        ensures
            parents == *self,
    {
        Parents(self.0)
    }
}

impl<'a> Parents<'a> {
    /// The node whose parent comes next.
    pub closed spec fn node(&self) -> QueryPathNode<'a> {
        *self.0
    }

    /// Get the current query path node, which the next call to `next` will get
    /// the parents of.
    #[must_use]
    pub fn current(&self) -> (node: &'a QueryPathNode<'a>)
        ensures
            *node == self.node(),
    {
        self.0
    }

    /// The next parent; at the root there is none, and the iterator stays there.
    pub fn next(&mut self) -> (parent: Option<&'a QueryPathNode<'a>>)
        ensures
            parent == old(self).node().parent,
            final(self).node() == (match old(self).node().parent {
                Some(parent) => *parent,
                None => old(self).node(),
            }),
    {
        let parent = self.0.parent;
        if let Some(parent) = parent {
            self.0 = parent;
        }
        parent
    }
}

/// No path is empty: it ends in the segment of its node, after the path of the parent.
pub proof fn law_path_extends_parent<'a>(node: QueryPathNode<'a>)
    ensures
        node.path().len() > 0,
        node.path().last() == node.segment.view(),
        node.path().drop_last() == (match node.parent {
            Some(parent) => parent.path(),
            None => Seq::empty(),
        }),
{
    node.lemma_last();
    if node.parent is None {
        assert(node.path().drop_last() =~= Seq::empty());
    }
}

/// The line of a path is that of its parent, a dot and the text of the last segment: a name as it
/// is, an index in decimal.
pub proof fn law_dotted_path<'a>(node: QueryPathNode<'a>)
    ensures
        ({
            let text = match node.segment {
                QueryPathSegment::Name(name) => name@,
                QueryPathSegment::Index(index) => decimal(index as nat),
            };
            dotted(path_texts(node.path())) == (match node.parent {
                Some(parent) => dotted(path_texts(parent.path())) + seq!['.'] + text,
                None => text,
            })
        }),
        dotted(path_texts(node.path())) == (match node.parent {
            Some(parent) => dotted(path_texts(parent.path())) + seq!['.'] + segment_text(
                node.segment.view(),
            ),
            None => segment_text(node.segment.view()),
        }),
{
    let texts = path_texts(node.path());
    node.lemma_last();
    assert(texts.last() == segment_text(node.segment.view()));
    if let Some(parent) = node.parent {
        parent.lemma_last();
        assert(texts.drop_last() =~= path_texts(parent.path()));
    }
}

/// The name of a field is unique: a path has one last name.
pub proof fn law_field_name_unique(path: Seq<SegmentView>, left: Seq<char>, right: Seq<char>)
    requires
        names_field(path, left),
        names_field(path, right),
    ensures
        left == right,
{
    let i = choose|i: int|
        #![trigger path[i]]
        {
            &&& 0 <= i < path.len()
            &&& path[i] == SegmentView::Name(left)
            &&& forall|j: int| i < j < path.len() ==> (#[trigger] path[j]) is Index
        };
    let j = choose|i: int|
        #![trigger path[i]]
        {
            &&& 0 <= i < path.len()
            &&& path[i] == SegmentView::Name(right)
            &&& forall|j: int| i < j < path.len() ==> (#[trigger] path[j]) is Index
        };
    assert(path[i] is Name && path[j] is Name);
    assert(i == j);
}

/// A segment is what it was made from: a field by its name, an element by its index.
pub proof fn law_segment_view<'a>(segment: QueryPathSegment<'a>)
    ensures
        segment matches QueryPathSegment::Name(name) ==> segment.view() == SegmentView::Name(name@),
        segment matches QueryPathSegment::Index(index) ==> segment.view() == SegmentView::Index(
            index,
        ),
{
}

/// The segments of a node are those of its parent and its own after them.
pub proof fn law_segments<'a>(node: QueryPathNode<'a>)
    ensures
        node.segments().len() > 0,
        node.segments().last() == node.segment,
        node.parent matches Some(parent) ==> node.segments().drop_last() == parent.segments(),
        node.parent is None ==> node.segments().len() == 1,
{
    if let Some(parent) = node.parent {
        assert(node.segments().drop_last() =~= parent.segments());
    }
}

/// The path of a node is read segment by segment.
pub proof fn law_path_segments<'a>(node: QueryPathNode<'a>)
    ensures
        node.path().len() == node.segments().len(),
        forall|i: int|
            0 <= i < node.segments().len() ==> match (#[trigger] node.segments()[i]) {
                QueryPathSegment::Name(name) => node.path()[i] == SegmentView::Name(name@),
                QueryPathSegment::Index(index) => node.path()[i] == SegmentView::Index(index),
            },
{
}

/// A name is written as it is and an index in decimal, segment by segment.
pub proof fn law_path_texts(path: Seq<SegmentView>)
    ensures
        path_texts(path).len() == path.len(),
        forall|i: int|
            0 <= i < path.len() ==> match (#[trigger] path[i]) {
                SegmentView::Name(name) => path_texts(path)[i] == name,
                SegmentView::Index(index) => path_texts(path)[i] == decimal(index as nat),
            },
{
}

/// Strings are read one by one.
pub proof fn law_string_views(strings: Seq<String>)
    ensures
        string_views(strings).len() == strings.len(),
        forall|i: int|
            0 <= i < strings.len() ==> #[trigger] string_views(strings)[i] == strings[i]@,
{
}

/// No text makes an empty line, one text stands alone, and each further text comes after a dot.
pub proof fn law_dotted(texts: Seq<Seq<char>>, text: Seq<char>)
    ensures
        dotted(Seq::empty()) == Seq::<char>::empty(),
        dotted(seq![text]) == text,
        texts.len() > 0 ==> dotted(texts.push(text)) == dotted(texts) + seq!['.'] + text,
{
    assert(texts.push(text).drop_last() =~= texts);
}

/// A name that names the field of a path stands in it, and only indices come after it.
pub proof fn law_names_field(path: Seq<SegmentView>, name: Seq<char>)
    requires
        names_field(path, name),
    ensures
        exists|i: int|
            {
                &&& 0 <= i < path.len()
                &&& #[trigger] path[i] == SegmentView::Name(name)
                &&& forall|j: int| i < j < path.len() ==> (#[trigger] path[j]) is Index
            },
{
}

/// Whether `states` are those of a visitor that takes the first segments one after the other.
pub open spec fn takes_each<'a, F: PathVisitor<'a>>(
    states: Seq<F>,
    segments: Seq<QueryPathSegment<'a>>,
) -> bool {
    &&& 0 < states.len() <= segments.len() + 1
    &&& forall|i: int|
        0 <= i < states.len() - 1 ==> F::visits(
            states[i],
            #[trigger] segments[i],
            states[i + 1],
            Ok(()),
        )
}

/// A walk shows the segments in order, each once: all of them, or up to the first one that stops
/// it.
pub proof fn law_walks_in_order<'a, F: PathVisitor<'a>>(
    before: F,
    segments: Seq<QueryPathSegment<'a>>,
    after: F,
    outcome: Result<(), F::Break>,
)
    requires
        walks(before, segments, after, outcome),
    ensures
        outcome is Ok ==> exists|states: Seq<F>|
            {
                &&& #[trigger] takes_each(states, segments)
                &&& states.len() == segments.len() + 1
                &&& states[0] == before
                &&& states.last() == after
            },
        outcome is Err ==> exists|states: Seq<F>|
            {
                &&& #[trigger] takes_each(states, segments)
                &&& states.len() <= segments.len()
                &&& states[0] == before
                &&& F::visits(states.last(), segments[states.len() - 1], after, outcome)
            },
    decreases segments.len(),
{
    if segments.len() == 0 {
        assert(takes_each(seq![before], segments));
    } else {
        let earlier = segments.drop_last();
        if outcome is Err && walks(before, earlier, after, outcome) {
            law_walks_in_order(before, earlier, after, outcome);
            let states = choose|states: Seq<F>|
                {
                    &&& #[trigger] takes_each(states, earlier)
                    &&& states.len() <= earlier.len()
                    &&& states[0] == before
                    &&& F::visits(states.last(), earlier[states.len() - 1], after, outcome)
                };
            assert forall|i: int| 0 <= i < states.len() - 1 implies F::visits(
                states[i],
                #[trigger] segments[i],
                states[i + 1],
                Ok(()),
            ) by {
                assert(earlier[i] == segments[i]);
            }
            assert(takes_each(states, segments));
            assert(earlier[states.len() - 1] == segments[states.len() - 1]);
        } else {
            let between = choose|between: F|
                walks(before, earlier, between, Ok(())) && #[trigger] F::visits(
                    between,
                    segments.last(),
                    after,
                    outcome,
                );
            law_walks_in_order(before, earlier, between, Ok(()));
            let states = choose|states: Seq<F>|
                {
                    &&& #[trigger] takes_each(states, earlier)
                    &&& states.len() == earlier.len() + 1
                    &&& states[0] == before
                    &&& states.last() == between
                };
            assert forall|i: int| 0 <= i < states.len() - 1 implies F::visits(
                states[i],
                #[trigger] segments[i],
                states[i + 1],
                Ok(()),
            ) by {
                assert(earlier[i] == segments[i]);
            }
            assert(takes_each(states, segments));
            if outcome is Ok {
                assert(outcome->Ok_0 == ());
                let longer = states.push(after);
                assert forall|i: int| 0 <= i < longer.len() - 1 implies F::visits(
                    longer[i],
                    #[trigger] segments[i],
                    longer[i + 1],
                    Ok(()),
                ) by {
                    if i < states.len() - 1 {
                        assert(longer[i] == states[i]);
                        assert(longer[i + 1] == states[i + 1]);
                    } else {
                        assert(longer[i] == between);
                    }
                }
                assert(takes_each(longer, segments));
            }
        }
    }
}

} // verus!
