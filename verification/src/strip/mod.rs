//! Reducing markup to its structural skeleton.

use vstd::prelude::*;

pub mod filter_attributes;
pub mod strip_content;
pub mod tree;

use crate::strip::tree::children_of;
use crate::strip::tree::has_element;
use crate::strip::tree::is_walk;
use crate::strip::tree::lemma_walk_shape;
use crate::strip::tree::lemma_walks_join;
use crate::strip::tree::mark_at;
use crate::strip::tree::marks_of;
use crate::strip::tree::marks_of_all;
use crate::strip::tree::tree_of;
use crate::strip::tree::tree_of_walk;
use crate::strip::tree::tree_skeleton;
use crate::strip::tree::walk;
use crate::strip::tree::walk_gives_tree_skeleton;
use crate::strip::tree::walks;
use crate::strip::tree::Node;

verus! {

/// One attribute of an element.
#[derive(Clone, Debug, PartialEq, Eq)]
pub struct Attribute {
    pub name: String,
    pub value: String,
}

/// The name and the attributes of an element, in the order the parser keeps
/// them.
#[derive(Clone, Debug, PartialEq, Eq)]
pub struct Tag {
    pub name: String,
    pub attributes: Vec<Attribute>,
}

/// One step of the depth-first walk over a parsed document, in document order:
/// the walk enters a node or leaves it.
#[derive(Clone, Debug, PartialEq, Eq)]
pub struct Edge {
    /// Whether the walk leaves the node here.
    pub closing: bool,
    /// The element at the node; `None` at a node of another kind, such as text.
    pub tag: Option<Tag>,
}

/// What the place of a node in the tree adds to an edge of the walk.
#[derive(Clone, Copy, Debug, PartialEq, Eq, Structural)]
pub struct Mark {
    /// Whether the node is an element that the skeleton shows: no node above
    /// it is of another kind.
    pub shown: bool,
    /// Whether the node is an element with a child that is an element.
    pub has_children: bool,
}

/// What a policy reads of one element to write its opening token.
#[derive(Clone, Copy, Debug)]
pub struct Element<'a> {
    /// The tag name.
    pub name: &'a str,
    /// The attributes, in the order the parser keeps them.
    pub attributes: &'a Vec<Attribute>,
    /// Whether the element has a child that is an element.
    pub has_children: bool,
}

/// An attribute as a value of the model.
pub struct AttributeView {
    pub name: Seq<char>,
    pub value: Seq<char>,
}

/// A tag as a value of the model.
pub struct TagView {
    pub name: Seq<char>,
    pub attributes: Seq<AttributeView>,
}

/// An element as a value of the model.
pub struct ElementView {
    pub name: Seq<char>,
    pub attributes: Seq<AttributeView>,
    pub has_children: bool,
}

/// An edge as a value of the model.
pub struct EdgeView {
    pub closing: bool,
    pub tag: Option<TagView>,
}

impl Attribute {
    /// The attribute of a name and a value.
    pub fn of(name: &str, value: &str) -> (attribute: Attribute)
        ensures
            attribute@ == (AttributeView { name: name@, value: value@ }),
    {
        Attribute { name: name.to_owned(), value: value.to_owned() }
    }
}

impl View for Attribute {
    type V = AttributeView;

    open spec fn view(&self) -> AttributeView {
        AttributeView { name: self.name@, value: self.value@ }
    }
}

impl View for Tag {
    type V = TagView;

    open spec fn view(&self) -> TagView {
        TagView { name: self.name@, attributes: self.attributes@.map_values(|a: Attribute| a@) }
    }
}

impl<'a> View for Element<'a> {
    type V = ElementView;

    open spec fn view(&self) -> ElementView {
        ElementView {
            name: self.name@,
            attributes: self.attributes@.map_values(|a: Attribute| a@),
            has_children: self.has_children,
        }
    }
}

impl View for Edge {
    type V = EdgeView;

    open spec fn view(&self) -> EdgeView {
        EdgeView {
            closing: self.closing,
            tag: match self.tag {
                Some(tag) => Some(tag@),
                None => None,
            },
        }
    }
}

/// A list of edges as a value of the model.
pub open spec fn walk_of(edges: Seq<Edge>) -> Seq<EdgeView> {
    edges.map_values(|edge: Edge| edge@)
}

/// A list of texts as a value of the model.
pub open spec fn messages_of(messages: Seq<String>) -> Seq<Seq<char>> {
    messages.map_values(|message: String| message@)
}

/// What the parser makes of a page.
pub struct Parsed {
    /// The walk over the tree it builds, from the root element down.
    pub edges: Vec<Edge>,
    /// The errors it records on the way.
    pub errors: Vec<String>,
}

/// A page on which the parser recorded errors, with what it recorded.
#[derive(Clone, Debug, PartialEq, Eq)]
pub struct MarkupParseError {
    pub messages: Vec<String>,
}

/// The tree that the parser builds from `page`, from the root element down.
pub uninterp spec fn document_tree(page: Seq<char>) -> Node;

/// The errors that the parser records on `page`, in the order it meets them.
pub uninterp spec fn parse_errors(page: Seq<char>) -> Seq<Seq<char>>;

/// Parses `page` with `scraper::Html::parse_document` and copies out, edge by
/// edge, the walk that `traverse` makes from the root element, and the errors
/// the parser recorded.
///
/// Nothing is proved of the parser. The contract gives the tree it builds and
/// the errors it records a name each, which depend on the text of the page and
/// on nothing else, and claims of the copy that it is the depth-first walk over
/// that tree: each node is entered, its children are walked in document order,
/// and it is left, whatever kind the node is of.
#[verifier::external_body]
fn parse_document(page: &str) -> (parsed: Parsed)
    ensures
        walk_of(parsed.edges@) == walk(document_tree(page@)),
        messages_of(parsed.errors@) == parse_errors(page@),
{
    let document = scraper::Html::parse_document(page);
    let edges = document.root_element().traverse().map(|edge| match edge {
        ego_tree::iter::Edge::Open(node) => (false, node),
        ego_tree::iter::Edge::Close(node) => (true, node),
    }).map(|(closing, node)| Edge {
        closing,
        tag: node.value().as_element().map(|element| Tag {
            name: element.name().to_owned(),
            attributes: element.attrs().map(|(name, value)| Attribute::of(name, value)).collect(),
        }),
    }).collect();
    Parsed { edges, errors: document.errors.iter().map(ToString::to_string).collect() }
}

/// The text of one attribute inside an opening token.
pub open spec fn attribute_text(attribute: AttributeView) -> Seq<char> {
    " "@ + attribute.name + "=\""@ + attribute.value + "\""@
}

/// The text of the attributes that `retained` keeps, in their order.
pub open spec fn attributes_text(
    attributes: Seq<AttributeView>,
    retained: spec_fn(Seq<char>) -> bool,
) -> Seq<char>
    decreases attributes.len(),
{
    if attributes.len() == 0 {
        Seq::empty()
    } else {
        attributes_text(attributes.drop_last(), retained) + if retained(attributes.last().name) {
            attribute_text(attributes.last())
        } else {
            Seq::empty()
        }
    }
}

/// The opening token of an element: its name and the attributes that `retained`
/// keeps, closed in itself where the element has no child that is an element.
pub open spec fn opening_token(element: ElementView, retained: spec_fn(Seq<char>) -> bool) -> Seq<
    char,
> {
    "<"@ + element.name + attributes_text(element.attributes, retained) + if element.has_children {
        ""@
    } else {
        " /"@
    } + ">"@
}

/// The closing token of an element.
pub open spec fn closing_token(element: ElementView) -> Seq<char> {
    "</"@ + element.name + ">"@
}

/// Whether a policy keeps an attribute of this name: every attribute, or only
/// those that identify or classify an element, `id` and `class`.
pub open spec fn retains(only_identity: bool, name: Seq<char>) -> bool {
    !only_identity || name == "id"@ || name == "class"@
}

/// The opening token of an element under a policy that keeps every attribute
/// or only `id` and `class`.
pub open spec fn token_under(element: ElementView, only_identity: bool) -> Seq<char> {
    opening_token(element, |name: Seq<char>| retains(only_identity, name))
}

/// The element that an edge and its mark show, if they show one.
pub open spec fn shown_element(edge: EdgeView, mark: Mark) -> Option<ElementView> {
    match edge.tag {
        Some(tag) => if mark.shown {
            Some(
                ElementView {
                    name: tag.name,
                    attributes: tag.attributes,
                    has_children: mark.has_children,
                },
            )
        } else {
            None
        },
        None => None,
    }
}

/// What one edge adds to the skeleton under its mark, where `token` gives each
/// element its opening token: the opening token where the walk enters an
/// element that is shown, the closing token where it leaves one that has a
/// child element, nothing elsewhere.
pub open spec fn edge_text(edge: EdgeView, mark: Mark, token: spec_fn(ElementView) -> Seq<char>) -> Seq<
    char,
> {
    match shown_element(edge, mark) {
        Some(element) => if !edge.closing {
            token(element)
        } else if element.has_children {
            closing_token(element)
        } else {
            Seq::empty()
        },
        None => Seq::empty(),
    }
}

/// The mark at a place of a list of marks; beyond the list nothing is shown.
pub open spec fn mark_for(marks: Seq<Mark>, place: int) -> Mark {
    if 0 <= place < marks.len() {
        marks[place]
    } else {
        Mark { shown: false, has_children: false }
    }
}

/// The texts of the edges of a walk, each under the mark of its place, in
/// order.
pub open spec fn skeleton_text(
    edges: Seq<EdgeView>,
    marks: Seq<Mark>,
    token: spec_fn(ElementView) -> Seq<char>,
) -> Seq<char>
    decreases edges.len(),
{
    if edges.len() == 0 {
        Seq::empty()
    } else {
        skeleton_text(edges.drop_last(), marks, token) + edge_text(
            edges.last(),
            mark_for(marks, edges.len() - 1),
            token,
        )
    }
}

/// Whether `part` stands in `edges` at the place `at`.
pub open spec fn occurs_in(edges: Seq<EdgeView>, at: int, part: Seq<EdgeView>) -> bool {
    0 <= at && at + part.len() <= edges.len() && edges.subrange(at, at + part.len()) == part
}

/// Where the walk over the child of place `k` stands in the walk over a node,
/// and what the walks and marks of the first children add up to.
proof fn lemma_child_at(node: Node, k: int, visible: bool)
    requires
        0 <= k <= children_of(node).len(),
    ensures
        ({
            let children = children_of(node);
            let before = walks(children.take(k)).len() as int;
            if k < children.len() {
                &&& occurs_in(walk(node), 1 + before, walk(children[k]))
                &&& 1 + before + walk(children[k]).len() < walk(node).len()
                &&& walks(children.take(k + 1)) == walks(children.take(k)) + walk(children[k])
                &&& marks_of_all(children.take(k + 1), visible) == marks_of_all(
                    children.take(k),
                    visible,
                ) + marks_of(children[k], visible)
                &&& has_element(children.take(k + 1)) == (has_element(children.take(k))
                    || children[k] is Element)
            } else {
                &&& 1 + before == walk(node).len() - 1
                &&& children.take(k) == children
            }
        }),
{
    let children = children_of(node);
    let first = children.take(k);
    let rest = children.skip(k);
    assert(first + rest =~= children);
    lemma_walks_join(first, rest, visible);
    if k < children.len() {
        let child = children[k];
        let later = children.skip(k + 1);
        assert(seq![child] + later =~= rest);
        lemma_walks_join(seq![child], later, visible);
        assert(seq![child].drop_last() =~= Seq::<Node>::empty());
        assert(seq![child].last() == child);
        assert(walks(seq![child].drop_last()) =~= Seq::<EdgeView>::empty());
        assert(marks_of_all(seq![child].drop_last(), visible) =~= Seq::<Mark>::empty());
        assert(walks(seq![child]) =~= walk(child));
        assert(marks_of_all(seq![child], visible) =~= marks_of(child, visible));
        assert(children.take(k + 1).drop_last() =~= first);
        assert(children.take(k + 1).last() == child);
        lemma_walk_shape(child, visible);
        let start = 1 + walks(first).len() as int;
        assert(walk(node).subrange(start, start + walk(child).len()) =~= walk(child));
        if has_element(children.take(k + 1)) {
            let i = choose|i: int|
                0 <= i < children.take(k + 1).len() && #[trigger] children.take(k + 1)[i] is Element;
            if i < k {
                assert(first[i] is Element);
            }
        }
        if has_element(first) {
            let i = choose|i: int| 0 <= i < first.len() && #[trigger] first[i] is Element;
            assert(children.take(k + 1)[i] is Element);
        }
        if child is Element {
            assert(children.take(k + 1)[k] is Element);
        }
    } else {
        assert(first =~= children);
        assert(rest =~= Seq::<Node>::empty());
    }
}

/// Marks the edges of the walk over the tree under `node`, which stands in
/// `edges` at the place `at`, and returns the place after it.
fn mark_node(
    edges: &Vec<Edge>,
    at: usize,
    visible: bool,
    Ghost(node): Ghost<Node>,
    marks: &mut Vec<Mark>,
) -> (next: usize)
    requires
        occurs_in(walk_of(edges@), at as int, walk(node)),
    ensures
        next == at + walk(node).len(),
        final(marks)@ == old(marks)@ + marks_of(node, visible),
    decreases node,
{
    let ghost all = walk_of(edges@);
    let ghost children = children_of(node);
    let ghost before = marks@;
    let total = edges.len();
    proof {
        lemma_walk_shape(node, visible);
        assert(all.len() == total);
        assert(all.subrange(at as int, at + walk(node).len())[0] == all[at as int]);
    }
    let is_element = edges[at].tag.is_some();
    let inner = visible && is_element;
    let place = marks.len();
    let blank = Mark { shown: inner, has_children: false };
    marks.push(blank);
    let mut i: usize = at + 1;
    let mut found = false;
    let ghost mut k: int = 0;
    proof {
        assert(children.take(0) =~= Seq::<Node>::empty());
        lemma_child_at(node, 0, inner);
        assert(before + seq![blank] + Seq::<Mark>::empty() =~= before + seq![blank]);
    }
    loop
        invariant
            occurs_in(all, at as int, walk(node)),
            all == walk_of(edges@),
            all.len() == total,
            children == children_of(node),
            is_element == node is Element,
            inner == (visible && node is Element),
            0 <= k <= children.len(),
            i == at + 1 + walks(children.take(k)).len(),
            i < at + walk(node).len(),
            place == before.len(),
            marks@ == before + seq![blank] + marks_of_all(children.take(k), inner),
            found == has_element(children.take(k)),
        ensures
            k == children.len(),
        decreases children.len() - k,
    {
        proof {
            lemma_child_at(node, k, inner);
            assert(all.subrange(at as int, at + walk(node).len())[i - at] == all[i as int]);
            if k < children.len() {
                lemma_walk_shape(children[k], inner);
                assert(walk(node).subrange(i - at, i - at + walk(children[k]).len())[0] == walk(
                    node,
                )[i - at]);
                assert(all.subrange(i as int, i + walk(children[k]).len()) =~= all.subrange(
                    at as int,
                    at + walk(node).len(),
                ).subrange(i - at, i - at + walk(children[k]).len()));
                assert(!all[i as int].closing);
            } else {
                lemma_walk_shape(node, visible);
                assert(all[i as int].closing);
            }
        }
        if edges[i].closing {
            break ;
        }
        if edges[i].tag.is_some() {
            found = true;
        }
        i = mark_node(edges, i, inner, Ghost(children[k]), marks);
        proof {
            assert(marks@ =~= before + seq![blank] + (marks_of_all(children.take(k), inner)
                + marks_of(children[k], inner)));
            k = k + 1;
            if k <= children.len() {
                lemma_child_at(node, k, inner);
            }
        }
    }
    let mark = Mark { shown: inner, has_children: is_element && found };
    marks.set(place, mark);
    marks.push(mark);
    proof {
        assert(children.take(k) =~= children);
        assert(mark == mark_at(node, visible));
        assert(marks@ =~= before + marks_of(node, visible));
    }
    i + 1
}

/// The marks of the edges of a walk over a tree: which edges belong to an
/// element that the skeleton shows, and which of those elements have a child
/// that is an element.
pub fn mark_edges(edges: &Vec<Edge>) -> (marks: Vec<Mark>)
    requires
        is_walk(walk_of(edges@)),
    ensures
        marks@ == marks_of(tree_of(walk_of(edges@)), true),
        marks.len() == edges.len(),
{
    let ghost node = tree_of(walk_of(edges@));
    let mut marks: Vec<Mark> = Vec::new();
    proof {
        lemma_walk_shape(node, true);
        assert(walk_of(edges@).subrange(0, walk(node).len() as int) =~= walk(node));
    }
    mark_node(edges, 0, true, Ghost(node), &mut marks);
    assert(marks@ =~= marks_of(node, true));
    marks
}

/// The opening token of an element under a policy that keeps every attribute
/// or only `id` and `class`.
pub fn open_tag(element: &Element, only_identity: bool) -> (token: String)
    ensures
        token@ == token_under(element@, only_identity),
{
    let ghost all = element.attributes@.map_values(|a: Attribute| a@);
    let ghost retained = |name: Seq<char>| retains(only_identity, name);
    let id = "id".to_owned();
    let class = "class".to_owned();
    let mut attributes = String::new();
    let mut i: usize = 0;
    assert(all.take(0) =~= Seq::empty());
    while i < element.attributes.len()
        invariant
            i <= element.attributes.len(),
            all == element.attributes@.map_values(|a: Attribute| a@),
            retained == |name: Seq<char>| retains(only_identity, name),
            id@ == "id"@,
            class@ == "class"@,
            attributes@ == attributes_text(all.take(i as int), retained),
        decreases element.attributes.len() - i,
    {
        let attribute = &element.attributes[i];
        assert(all.take(i + 1).drop_last() =~= all.take(i as int));
        assert(all.take(i + 1).last() == attribute@);
        if !only_identity || attribute.name == id || attribute.name == class {
            attributes.append(" ");
            attributes.append(attribute.name.as_str());
            attributes.append("=\"");
            attributes.append(attribute.value.as_str());
            attributes.append("\"");
        }
        i += 1;
    }
    assert(all.take(i as int) =~= all);
    let mut token = String::new();
    token.append("<");
    token.append(element.name);
    token.append(attributes.as_str());
    token.append(if element.has_children { "" } else { " /" });
    token.append(">");
    token
}

/// A policy for reducing a page to its skeleton. The policies differ in the
/// opening token they give an element; the walk is common to them.
pub trait StripHtml: Sized {
    /// The opening token this policy gives an element.
    spec fn element_token(&self, element: ElementView) -> Seq<char>;

    /// The opening token of `element`.
    fn strip_element(&self, element: &Element) -> (token: String)
        ensures
            token@ == self.element_token(element@),
    ;

    /// Appends to `result` what `edge` adds to the skeleton under its mark.
    fn process_element(&self, edge: &Edge, mark: Mark, result: &mut String)
        ensures
            final(result)@ == old(result)@ + edge_text(
                edge@,
                mark,
                |element: ElementView| self.element_token(element),
            ),
    {
        match &edge.tag {
            Some(tag) => {
                if mark.shown {
                    if !edge.closing {
                        let element = Element {
                            name: tag.name.as_str(),
                            attributes: &tag.attributes,
                            has_children: mark.has_children,
                        };
                        let begin = self.strip_element(&element);
                        result.append(begin.as_str());
                    } else if mark.has_children {
                        result.append("</");
                        result.append(tag.name.as_str());
                        result.append(">");
                    }
                }
            },
            None => {},
        }
    }

    /// The skeleton of a walk under this policy, each edge under the mark of
    /// its place; an edge beyond the marks is not shown.
    fn strip_edges(&self, edges: &Vec<Edge>, marks: &Vec<Mark>) -> (skeleton: String)
        ensures
            skeleton@ == skeleton_text(
                walk_of(edges@),
                marks@,
                |element: ElementView| self.element_token(element),
            ),
    {
        let ghost walk = walk_of(edges@);
        let mut result = String::new();
        let mut i: usize = 0;
        assert(walk.take(0) =~= Seq::empty());
        while i < edges.len()
            invariant
                i <= edges.len(),
                walk == walk_of(edges@),
                result@ == skeleton_text(
                    walk.take(i as int),
                    marks@,
                    |element: ElementView| self.element_token(element),
                ),
            decreases edges.len() - i,
        {
            assert(walk.take(i + 1).drop_last() =~= walk.take(i as int));
            assert(walk.take(i + 1).last() == edges[i as int]@);
            let mark = if i < marks.len() {
                marks[i]
            } else {
                Mark { shown: false, has_children: false }
            };
            self.process_element(&edges[i], mark, &mut result);
            i += 1;
        }
        assert(walk.take(i as int) =~= walk);
        result
    }

    /// The skeleton, under this policy, of the tree that `edges` is the walk
    /// over.
    fn strip_walk(&self, edges: &Vec<Edge>) -> (skeleton: String)
        requires
            is_walk(walk_of(edges@)),
        ensures
            skeleton@ == tree_skeleton(
                tree_of(walk_of(edges@)),
                |element: ElementView| self.element_token(element),
            ),
    {
        let marks = mark_edges(edges);
        proof {
            walk_gives_tree_skeleton(
                tree_of(walk_of(edges@)),
                true,
                |element: ElementView| self.element_token(element),
            );
        }
        self.strip_edges(edges, &marks)
    }

    /// The skeleton of `page` under this policy, whatever the parser recorded
    /// on the way.
    ///
    /// This is the lenient reading, and the distance is built on it. The parser
    /// recovers a tree from every page, and it records an error on most pages
    /// met in practice, a missing doctype among them. To take the empty
    /// skeleton for each of those would give them all the distance zero from
    /// one another. `try_strip_html` and `strip_well_formed` are the strict
    /// readings.
    fn strip_html(&self, page: &str) -> (skeleton: String)
        ensures
            skeleton@ == tree_skeleton(
                document_tree(page@),
                |element: ElementView| self.element_token(element),
            ),
    {
        let parsed = parse_document(page);
        proof {
            tree_of_walk(document_tree(page@));
        }
        self.strip_walk(&parsed.edges)
    }

    /// The skeleton of `page` under this policy where the page is well formed,
    /// and the errors of the parser where it is not: a page counts as malformed
    /// where the parser records an error on it. A caller that goes on after
    /// such a page takes the empty skeleton for it.
    fn try_strip_html(&self, page: &str) -> (skeleton: Result<String, MarkupParseError>)
        ensures
            match skeleton {
                Ok(skeleton) => parse_errors(page@).len() == 0 && skeleton@ == tree_skeleton(
                    document_tree(page@),
                    |element: ElementView| self.element_token(element),
                ),
                Err(error) => parse_errors(page@).len() > 0 && messages_of(error.messages@)
                    == parse_errors(page@),
            },
    {
        let parsed = parse_document(page);
        if parsed.errors.len() > 0 {
            return Err(MarkupParseError { messages: parsed.errors });
        }
        proof {
            tree_of_walk(document_tree(page@));
        }
        Ok(self.strip_walk(&parsed.edges))
    }

    /// The skeleton of `page` under this policy where the page is well formed,
    /// and the empty skeleton where the parser records an error on it: the
    /// strict reading for a caller that goes on after a malformed page.
    fn strip_well_formed(&self, page: &str) -> (skeleton: String)
        ensures
            skeleton@ == if parse_errors(page@).len() > 0 {
                Seq::<char>::empty()
            } else {
                tree_skeleton(
                    document_tree(page@),
                    |element: ElementView| self.element_token(element),
                )
            },
    {
        match self.try_strip_html(page) {
            Ok(skeleton) => skeleton,
            Err(_) => String::new(),
        }
    }
}

/// The skeleton that `policy` makes of the tree under a node.
pub open spec fn skeleton<S: StripHtml>(policy: &S, node: Node) -> Seq<char> {
    tree_skeleton(node, |element: ElementView| policy.element_token(element))
}

} // verus!
