//! The tree of a parsed document, the walk over it, and the skeleton read off
//! it.

use vstd::prelude::*;

use crate::strip::closing_token;
use crate::strip::edge_text;
use crate::strip::mark_for;
use crate::strip::skeleton_text;
use crate::strip::AttributeView;
use crate::strip::EdgeView;
use crate::strip::ElementView;
use crate::strip::Mark;
use crate::strip::TagView;

verus! {

/// A node of a parsed document, with its child nodes in document order.
pub enum Node {
    /// An element.
    Element { name: Seq<char>, attributes: Seq<AttributeView>, children: Seq<Node> },
    /// A node of another kind: text, a comment, the content of a template.
    Other { children: Seq<Node> },
}

/// The child nodes of a node.
pub open spec fn children_of(node: Node) -> Seq<Node> {
    match node {
        Node::Element { name, attributes, children } => children,
        Node::Other { children } => children,
    }
}

/// The name and attributes of the element at a node; `None` at a node of
/// another kind.
pub open spec fn tag_at(node: Node) -> Option<TagView> {
    match node {
        Node::Element { name, attributes, children } => Some(TagView { name, attributes }),
        Node::Other { children } => None,
    }
}

/// Whether there is an element among the nodes.
pub open spec fn has_element(nodes: Seq<Node>) -> bool {
    exists|i: int| 0 <= i < nodes.len() && #[trigger] nodes[i] is Element
}

/// What the skeleton needs of the element at a node: its name, its attributes
/// and whether it has a child that is an element.
pub open spec fn element_at(node: Node) -> ElementView {
    ElementView {
        name: node->name,
        attributes: node->attributes,
        has_children: has_element(children_of(node)),
    }
}

/// The depth-first walk over the tree under a node, in document order: the
/// edge that enters the node, the walks over its children, the edge that leaves
/// it.
pub open spec fn walk(node: Node) -> Seq<EdgeView>
    decreases node, 1int,
{
    seq![EdgeView { closing: false, tag: tag_at(node) }] + walks(children_of(node)) + seq![
        EdgeView { closing: true, tag: tag_at(node) },
    ]
}

/// The walks over a list of nodes, one after the other.
pub open spec fn walks(nodes: Seq<Node>) -> Seq<EdgeView>
    decreases nodes, 0int,
{
    if nodes.len() == 0 {
        Seq::empty()
    } else {
        walks(nodes.drop_last()) + walk(nodes.last())
    }
}

/// The skeleton of the tree under a node, where `token` gives each element its
/// opening token: nothing for a node that is no element, whatever lies below
/// it; for an element its opening token and, where it has a child that is an
/// element, the skeletons of its children in their order and its closing token.
pub open spec fn tree_skeleton(node: Node, token: spec_fn(ElementView) -> Seq<char>) -> Seq<char>
    decreases node, 1int,
{
    match node {
        Node::Element { name, attributes, children } => token(element_at(node)) + if has_element(
            children,
        ) {
            forest_skeleton(children, token) + closing_token(element_at(node))
        } else {
            Seq::empty()
        },
        Node::Other { children } => Seq::empty(),
    }
}

/// The skeletons of a list of nodes, one after the other.
pub open spec fn forest_skeleton(nodes: Seq<Node>, token: spec_fn(ElementView) -> Seq<char>) -> Seq<
    char,
>
    decreases nodes, 0int,
{
    if nodes.len() == 0 {
        Seq::empty()
    } else {
        forest_skeleton(nodes.drop_last(), token) + tree_skeleton(nodes.last(), token)
    }
}

/// The mark of both edges of a node: the node is shown where it is an element
/// and `visible`, that is, where nothing above it is a node of another kind.
pub open spec fn mark_at(node: Node, visible: bool) -> Mark {
    Mark {
        shown: visible && node is Element,
        has_children: node is Element && has_element(children_of(node)),
    }
}

/// The marks of the edges of the walk over the tree under a node, edge by
/// edge.
pub open spec fn marks_of(node: Node, visible: bool) -> Seq<Mark>
    decreases node, 1int,
{
    seq![mark_at(node, visible)] + marks_of_all(children_of(node), visible && node is Element)
        + seq![mark_at(node, visible)]
}

/// The marks of the edges of the walks over a list of nodes.
pub open spec fn marks_of_all(nodes: Seq<Node>, visible: bool) -> Seq<Mark>
    decreases nodes, 0int,
{
    if nodes.len() == 0 {
        Seq::empty()
    } else {
        marks_of_all(nodes.drop_last(), visible) + marks_of(nodes.last(), visible)
    }
}

/// The walks over two lists of nodes joined are the walks over the first and
/// then those over the second; so are their marks, and the walks are as long as
/// their marks.
pub proof fn lemma_walks_join(first: Seq<Node>, second: Seq<Node>, visible: bool)
    ensures
        walks(first + second) == walks(first) + walks(second),
        marks_of_all(first + second, visible) == marks_of_all(first, visible) + marks_of_all(
            second,
            visible,
        ),
    decreases second.len(),
{
    if second.len() == 0 {
        assert(first + second =~= first);
        assert(walks(first) + walks(second) =~= walks(first));
        assert(marks_of_all(first, visible) + marks_of_all(second, visible) =~= marks_of_all(
            first,
            visible,
        ));
    } else {
        lemma_walks_join(first, second.drop_last(), visible);
        assert((first + second).drop_last() =~= first + second.drop_last());
        assert((first + second).last() == second.last());
        assert(walks(first) + (walks(second.drop_last()) + walk(second.last())) =~= walks(first)
            + walks(second.drop_last()) + walk(second.last()));
        assert(marks_of_all(first, visible) + (marks_of_all(second.drop_last(), visible)
            + marks_of(second.last(), visible)) =~= marks_of_all(first, visible) + marks_of_all(
            second.drop_last(),
            visible,
        ) + marks_of(second.last(), visible));
    }
}

/// A walk has as many marks as edges, at least two, and begins with an edge
/// that enters.
pub proof fn lemma_walk_shape(node: Node, visible: bool)
    ensures
        marks_of(node, visible).len() == walk(node).len(),
        walk(node).len() >= 2,
        walk(node)[0] == (EdgeView { closing: false, tag: tag_at(node) }),
        walk(node).last() == (EdgeView { closing: true, tag: tag_at(node) }),
    decreases node, 1int,
{
    lemma_walks_shape(children_of(node), visible && node is Element);
}

/// The walks over a list of nodes have as many marks as edges.
pub proof fn lemma_walks_shape(nodes: Seq<Node>, visible: bool)
    ensures
        marks_of_all(nodes, visible).len() == walks(nodes).len(),
    decreases nodes, 0int,
{
    if nodes.len() > 0 {
        lemma_walks_shape(nodes.drop_last(), visible);
        lemma_walk_shape(nodes.last(), visible);
    }
}

/// The text of a walk under its marks looks at no mark beyond the walk.
proof fn lemma_text_ignores_later_marks(
    edges: Seq<EdgeView>,
    marks: Seq<Mark>,
    more: Seq<Mark>,
    token: spec_fn(ElementView) -> Seq<char>,
)
    requires
        marks.len() >= edges.len(),
    ensures
        skeleton_text(edges, marks + more, token) == skeleton_text(edges, marks, token),
    decreases edges.len(),
{
    if edges.len() > 0 {
        lemma_text_ignores_later_marks(edges.drop_last(), marks, more, token);
        assert(mark_for(marks + more, edges.len() - 1) == mark_for(marks, edges.len() - 1));
    }
}

/// The texts of two marked walks joined are the texts of the first and then
/// those of the second.
pub proof fn lemma_skeleton_text_joins(
    first: Seq<EdgeView>,
    first_marks: Seq<Mark>,
    second: Seq<EdgeView>,
    second_marks: Seq<Mark>,
    token: spec_fn(ElementView) -> Seq<char>,
)
    requires
        first_marks.len() == first.len(),
        second_marks.len() >= second.len(),
    ensures
        skeleton_text(first + second, first_marks + second_marks, token) == skeleton_text(
            first,
            first_marks,
            token,
        ) + skeleton_text(second, second_marks, token),
    decreases second.len(),
{
    if second.len() == 0 {
        assert(first + second =~= first);
        lemma_text_ignores_later_marks(first, first_marks, second_marks, token);
        assert(skeleton_text(first, first_marks, token) + Seq::<char>::empty() =~= skeleton_text(
            first,
            first_marks,
            token,
        ));
    } else {
        lemma_skeleton_text_joins(first, first_marks, second.drop_last(), second_marks, token);
        assert((first + second).drop_last() =~= first + second.drop_last());
        assert((first + second).last() == second.last());
        assert(mark_for(first_marks + second_marks, first.len() + second.len() - 1) == mark_for(
            second_marks,
            second.len() - 1,
        ));
        assert(skeleton_text(first, first_marks, token) + (skeleton_text(
            second.drop_last(),
            second_marks,
            token,
        ) + edge_text(second.last(), mark_for(second_marks, second.len() - 1), token))
            =~= skeleton_text(first, first_marks, token) + skeleton_text(
            second.drop_last(),
            second_marks,
            token,
        ) + edge_text(second.last(), mark_for(second_marks, second.len() - 1), token));
    }
}

/// The text of a walk of one edge is the text of the edge.
proof fn lemma_single_edge(edge: EdgeView, mark: Mark, token: spec_fn(ElementView) -> Seq<char>)
    ensures
        skeleton_text(seq![edge], seq![mark], token) == edge_text(edge, mark, token),
{
    assert(seq![edge].drop_last() =~= Seq::<EdgeView>::empty());
    assert(skeleton_text(seq![edge].drop_last(), seq![mark], token) =~= Seq::<char>::empty());
    assert(Seq::<char>::empty() + edge_text(edge, mark, token) =~= edge_text(edge, mark, token));
}

/// A list of nodes without an element has an empty skeleton.
proof fn lemma_no_element_no_text(nodes: Seq<Node>, token: spec_fn(ElementView) -> Seq<char>)
    requires
        !has_element(nodes),
    ensures
        forest_skeleton(nodes, token) == Seq::<char>::empty(),
    decreases nodes.len(),
{
    if nodes.len() > 0 {
        assert(!(nodes[nodes.len() - 1] is Element));
        assert forall|i: int| 0 <= i < nodes.drop_last().len() implies !(
        #[trigger] nodes.drop_last()[i] is Element) by {
            assert(!(nodes[i] is Element));
        }
        lemma_no_element_no_text(nodes.drop_last(), token);
        assert(nodes.last() is Other);
        assert(tree_skeleton(nodes.last(), token) =~= Seq::<char>::empty());
        assert(Seq::<char>::empty() + Seq::<char>::empty() =~= Seq::<char>::empty());
    }
}

/// Reading the edges of the walk over a tree one by one, each under its mark,
/// gives the skeleton of the tree: each element is opened before its children,
/// the children come in document order, an element with a child element is
/// closed after them, and nothing below a node of another kind is read.
pub proof fn walk_gives_tree_skeleton(
    node: Node,
    visible: bool,
    token: spec_fn(ElementView) -> Seq<char>,
)
    ensures
        skeleton_text(walk(node), marks_of(node, visible), token) == if visible {
            tree_skeleton(node, token)
        } else {
            Seq::<char>::empty()
        },
    decreases node, 1int,
{
    let children = children_of(node);
    let inner = visible && node is Element;
    let open = EdgeView { closing: false, tag: tag_at(node) };
    let close = EdgeView { closing: true, tag: tag_at(node) };
    let mark = mark_at(node, visible);
    walks_give_forest_skeleton(children, inner, token);
    lemma_walks_shape(children, inner);
    lemma_skeleton_text_joins(
        seq![open] + walks(children),
        seq![mark] + marks_of_all(children, inner),
        seq![close],
        seq![mark],
        token,
    );
    lemma_skeleton_text_joins(
        seq![open],
        seq![mark],
        walks(children),
        marks_of_all(children, inner),
        token,
    );
    lemma_single_edge(open, mark, token);
    lemma_single_edge(close, mark, token);
    let middle = skeleton_text(walks(children), marks_of_all(children, inner), token);
    if inner {
        if has_element(children) {
            assert(token(element_at(node)) + middle + closing_token(element_at(node)) =~= token(
                element_at(node),
            ) + (middle + closing_token(element_at(node))));
        } else {
            lemma_no_element_no_text(children, token);
            assert(token(element_at(node)) + Seq::<char>::empty() + Seq::<char>::empty()
                =~= token(element_at(node)) + Seq::<char>::empty());
        }
    } else {
        assert(Seq::<char>::empty() + Seq::<char>::empty() + Seq::<char>::empty() =~= Seq::<
            char,
        >::empty());
    }
}

/// Reading the edges of the walks over a list of trees, each under its mark,
/// gives the skeletons of the trees, one after the other.
pub proof fn walks_give_forest_skeleton(
    nodes: Seq<Node>,
    visible: bool,
    token: spec_fn(ElementView) -> Seq<char>,
)
    ensures
        skeleton_text(walks(nodes), marks_of_all(nodes, visible), token) == if visible {
            forest_skeleton(nodes, token)
        } else {
            Seq::<char>::empty()
        },
    decreases nodes, 0int,
{
    if nodes.len() > 0 {
        walks_give_forest_skeleton(nodes.drop_last(), visible, token);
        walk_gives_tree_skeleton(nodes.last(), visible, token);
        lemma_walks_shape(nodes.drop_last(), visible);
        lemma_walk_shape(nodes.last(), visible);
        lemma_skeleton_text_joins(
            walks(nodes.drop_last()),
            marks_of_all(nodes.drop_last(), visible),
            walk(nodes.last()),
            marks_of(nodes.last(), visible),
            token,
        );
        if !visible {
            assert(Seq::<char>::empty() + Seq::<char>::empty() =~= Seq::<char>::empty());
        }
    }
}

/// The attributes that `retained` keeps, in their order.
pub open spec fn kept_attributes(
    attributes: Seq<AttributeView>,
    retained: spec_fn(Seq<char>) -> bool,
) -> Seq<AttributeView> {
    attributes.filter(|attribute: AttributeView| retained(attribute.name))
}

/// The tree under a node with everything taken out that the skeleton drops:
/// the nodes that are no elements, with what lies below them, and the
/// attributes that `retained` does not keep.
pub open spec fn pruned(node: Node, retained: spec_fn(Seq<char>) -> bool) -> Node
    decreases node, 1int,
{
    match node {
        Node::Element { name, attributes, children } => Node::Element {
            name,
            attributes: kept_attributes(attributes, retained),
            children: pruned_all(children, retained),
        },
        Node::Other { children } => Node::Other { children: Seq::empty() },
    }
}

/// The elements of a list of nodes, each pruned.
pub open spec fn pruned_all(nodes: Seq<Node>, retained: spec_fn(Seq<char>) -> bool) -> Seq<Node>
    decreases nodes, 0int,
{
    if nodes.len() == 0 {
        Seq::empty()
    } else if nodes.last() is Element {
        pruned_all(nodes.drop_last(), retained).push(pruned(nodes.last(), retained))
    } else {
        pruned_all(nodes.drop_last(), retained)
    }
}

/// The text of the attributes that are kept is the text of all of them: the
/// others add nothing to it.
proof fn lemma_kept_attributes_text(
    attributes: Seq<AttributeView>,
    retained: spec_fn(Seq<char>) -> bool,
)
    ensures
        crate::strip::attributes_text(kept_attributes(attributes, retained), retained)
            == crate::strip::attributes_text(attributes, retained),
        kept_attributes(kept_attributes(attributes, retained), retained) == kept_attributes(
            attributes,
            retained,
        ),
    decreases attributes.len(),
{
    reveal(Seq::filter);
    if attributes.len() > 0 {
        lemma_kept_attributes_text(attributes.drop_last(), retained);
        let front = kept_attributes(attributes.drop_last(), retained);
        if retained(attributes.last().name) {
            assert(front.push(attributes.last()).drop_last() =~= front);
        } else {
            assert(crate::strip::attributes_text(attributes.drop_last(), retained)
                + Seq::<char>::empty() =~= crate::strip::attributes_text(
                attributes.drop_last(),
                retained,
            ));
        }
    }
}

/// Pruning a list of nodes leaves elements alone, and leaves one exactly
/// where there was one.
proof fn lemma_pruned_all_elements(nodes: Seq<Node>, retained: spec_fn(Seq<char>) -> bool)
    ensures
        has_element(pruned_all(nodes, retained)) == has_element(nodes),
        forall|i: int|
            0 <= i < pruned_all(nodes, retained).len() ==> #[trigger] pruned_all(
                nodes,
                retained,
            )[i] is Element,
    decreases nodes.len(),
{
    if nodes.len() > 0 {
        let front = nodes.drop_last();
        lemma_pruned_all_elements(front, retained);
        let after = pruned_all(nodes, retained);
        if has_element(front) {
            let i = choose|i: int| 0 <= i < front.len() && #[trigger] front[i] is Element;
            assert(nodes[i] is Element);
            let j = choose|j: int|
                0 <= j < pruned_all(front, retained).len() && #[trigger] pruned_all(
                    front,
                    retained,
                )[j] is Element;
            assert(after[j] is Element);
        }
        if nodes.last() is Element {
            assert(nodes[nodes.len() - 1] is Element);
            assert(pruned(nodes.last(), retained) is Element);
            assert(after == pruned_all(front, retained).push(pruned(nodes.last(), retained)));
            assert(after[after.len() - 1] is Element);
            assert forall|i: int| 0 <= i < after.len() implies #[trigger] after[i] is Element by {
                if i < after.len() - 1 {
                    assert(after[i] == pruned_all(front, retained)[i]);
                }
            }
        } else {
            if has_element(nodes) {
                let i = choose|i: int| 0 <= i < nodes.len() && #[trigger] nodes[i] is Element;
                assert(front[i] is Element);
            }
        }
        if has_element(after) && !has_element(front) {
            let j = choose|j: int| 0 <= j < after.len() && #[trigger] after[j] is Element;
            if j < pruned_all(front, retained).len() {
                assert(pruned_all(front, retained)[j] is Element);
            }
        }
    }
}

/// The skeleton of a tree is the skeleton of the tree pruned: what pruning
/// takes out, the skeleton never showed.
pub proof fn skeleton_of_pruned_tree(node: Node, retained: spec_fn(Seq<char>) -> bool)
    ensures
        tree_skeleton(
            pruned(node, retained),
            |element: ElementView| crate::strip::opening_token(element, retained),
        ) == tree_skeleton(
            node,
            |element: ElementView| crate::strip::opening_token(element, retained),
        ),
    decreases node, 1int,
{
    match node {
        Node::Element { name, attributes, children } => {
            lemma_kept_attributes_text(attributes, retained);
            lemma_pruned_all_elements(children, retained);
            skeleton_of_pruned_forest(children, retained);
        },
        Node::Other { children } => {},
    }
}

/// The skeletons of a list of trees are the skeletons of its elements pruned.
pub proof fn skeleton_of_pruned_forest(nodes: Seq<Node>, retained: spec_fn(Seq<char>) -> bool)
    ensures
        forest_skeleton(
            pruned_all(nodes, retained),
            |element: ElementView| crate::strip::opening_token(element, retained),
        ) == forest_skeleton(
            nodes,
            |element: ElementView| crate::strip::opening_token(element, retained),
        ),
    decreases nodes, 0int,
{
    let token = |element: ElementView| crate::strip::opening_token(element, retained);
    if nodes.len() > 0 {
        skeleton_of_pruned_forest(nodes.drop_last(), retained);
        skeleton_of_pruned_tree(nodes.last(), retained);
        let front = pruned_all(nodes.drop_last(), retained);
        if nodes.last() is Element {
            assert(front.push(pruned(nodes.last(), retained)).drop_last() =~= front);
        } else {
            assert(forest_skeleton(nodes.drop_last(), token) + Seq::<char>::empty()
                =~= forest_skeleton(nodes.drop_last(), token));
        }
    }
}

/// A tree that was pruned is left as it is by pruning it again.
pub proof fn pruning_is_idempotent(node: Node, retained: spec_fn(Seq<char>) -> bool)
    ensures
        pruned(pruned(node, retained), retained) == pruned(node, retained),
    decreases node, 1int,
{
    match node {
        Node::Element { name, attributes, children } => {
            lemma_kept_attributes_text(attributes, retained);
            lemma_pruned_all_twice(children, retained);
        },
        Node::Other { children } => {
            assert(pruned_all(Seq::<Node>::empty(), retained) =~= Seq::<Node>::empty());
        },
    }
}

/// A list of trees that was pruned is left as it is by pruning it again.
proof fn lemma_pruned_all_twice(nodes: Seq<Node>, retained: spec_fn(Seq<char>) -> bool)
    ensures
        pruned_all(pruned_all(nodes, retained), retained) == pruned_all(nodes, retained),
    decreases nodes, 0int,
{
    if nodes.len() > 0 {
        lemma_pruned_all_twice(nodes.drop_last(), retained);
        if nodes.last() is Element {
            pruning_is_idempotent(nodes.last(), retained);
            let front = pruned_all(nodes.drop_last(), retained);
            assert(front.push(pruned(nodes.last(), retained)).drop_last() =~= front);
        }
    }
}

/// The walks over a list of nodes begin with the walk over the first.
proof fn lemma_walks_front(nodes: Seq<Node>)
    requires
        nodes.len() > 0,
    ensures
        walks(nodes) == walk(nodes[0]) + walks(nodes.drop_first()),
{
    let first = seq![nodes[0]];
    assert(first + nodes.drop_first() =~= nodes);
    lemma_walks_join(first, nodes.drop_first(), true);
    assert(first.drop_last() =~= Seq::<Node>::empty());
    assert(walks(first.drop_last()) =~= Seq::<EdgeView>::empty());
    assert(first.last() == nodes[0]);
    assert(walks(first) =~= walk(nodes[0]));
}

/// Two walks that begin a common list of edges are walks over the same tree,
/// and what follows them is the same.
proof fn lemma_walk_begins(a: Node, b: Node, after_a: Seq<EdgeView>, after_b: Seq<EdgeView>)
    requires
        walk(a) + after_a == walk(b) + after_b,
    ensures
        a == b,
        after_a == after_b,
    decreases a, 1int,
{
    let open_a = seq![EdgeView { closing: false, tag: tag_at(a) }];
    let close_a = seq![EdgeView { closing: true, tag: tag_at(a) }];
    let open_b = seq![EdgeView { closing: false, tag: tag_at(b) }];
    let close_b = seq![EdgeView { closing: true, tag: tag_at(b) }];
    let left = walk(a) + after_a;
    let right = walk(b) + after_b;
    assert(left[0] == open_a[0]);
    assert(right[0] == open_b[0]);
    assert(tag_at(a) == tag_at(b));
    let rest_a = close_a + after_a;
    let rest_b = close_b + after_b;
    assert(left.drop_first() =~= walks(children_of(a)) + rest_a);
    assert(right.drop_first() =~= walks(children_of(b)) + rest_b);
    assert(rest_a[0].closing && rest_b[0].closing);
    lemma_walks_begin(children_of(a), children_of(b), rest_a, rest_b);
    assert(after_a =~= rest_a.drop_first());
    assert(after_b =~= rest_b.drop_first());
    match a {
        Node::Element { name, attributes, children } => {
            assert(b is Element);
        },
        Node::Other { children } => {
            assert(b is Other);
        },
    }
}

/// Two lists of walks that begin a common list of edges, each followed by an
/// edge that leaves, are walks over the same trees, and what follows them is the
/// same.
proof fn lemma_walks_begin(
    a: Seq<Node>,
    b: Seq<Node>,
    after_a: Seq<EdgeView>,
    after_b: Seq<EdgeView>,
)
    requires
        walks(a) + after_a == walks(b) + after_b,
        after_a.len() > 0 && after_a[0].closing,
        after_b.len() > 0 && after_b[0].closing,
    ensures
        a == b,
        after_a == after_b,
    decreases a, 0int,
{
    let left = walks(a) + after_a;
    let right = walks(b) + after_b;
    if a.len() == 0 {
        assert(walks(a) =~= Seq::<EdgeView>::empty());
        assert(left =~= after_a);
        if b.len() > 0 {
            lemma_walks_front(b);
            lemma_walk_shape(b[0], true);
            assert(right[0] == walk(b[0])[0]);
            assert(false);
        }
        assert(walks(b) =~= Seq::<EdgeView>::empty());
        assert(right =~= after_b);
        assert(a =~= b);
    } else {
        lemma_walks_front(a);
        lemma_walk_shape(a[0], true);
        assert(left[0] == walk(a[0])[0]);
        if b.len() == 0 {
            assert(walks(b) =~= Seq::<EdgeView>::empty());
            assert(right =~= after_b);
            assert(false);
        }
        lemma_walks_front(b);
        let more_a = walks(a.drop_first()) + after_a;
        let more_b = walks(b.drop_first()) + after_b;
        assert(left =~= walk(a[0]) + more_a);
        assert(right =~= walk(b[0]) + more_b);
        lemma_walk_begins(a[0], b[0], more_a, more_b);
        lemma_walks_begin(a.drop_first(), b.drop_first(), after_a, after_b);
        assert(a =~= seq![a[0]] + a.drop_first());
        assert(b =~= seq![b[0]] + b.drop_first());
    }
}

/// The walk over a tree determines the tree: two trees with the same walk are
/// the same tree.
pub proof fn walk_determines_tree(a: Node, b: Node)
    requires
        walk(a) == walk(b),
    ensures
        a == b,
{
    lemma_walk_begins(a, b, Seq::empty(), Seq::empty());
}

/// Whether a list of edges is the walk over a tree.
pub open spec fn is_walk(edges: Seq<EdgeView>) -> bool {
    exists|node: Node| walk(node) == edges
}

/// The tree that a list of edges is the walk over.
pub open spec fn tree_of(edges: Seq<EdgeView>) -> Node {
    choose|node: Node| walk(node) == edges
}

/// The tree of the walk over a tree is that tree.
pub proof fn tree_of_walk(node: Node)
    ensures
        is_walk(walk(node)),
        tree_of(walk(node)) == node,
{
    walk_determines_tree(tree_of(walk(node)), node);
}

} // verus!
