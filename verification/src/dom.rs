//! The document tree that queries run over, and its mathematical model.

use vstd::prelude::*;

verus! {

/// One node of a document: an element, or a leaf of text or comment.
#[derive(Debug, PartialEq)]
pub enum Node {
    Text(String),
    Element(Element),
    Comment(String),
}

/// An element: its tag name, its id if it has one, its classes and its
/// children in document order.
#[derive(Debug, PartialEq)]
pub struct Element {
    pub id: Option<String>,
    pub name: String,
    pub classes: Vec<String>,
    pub children: Vec<Node>,
}

/// A whole document: the nodes at its top level, in document order.
#[derive(Debug, PartialEq)]
pub struct Dom {
    pub children: Vec<Node>,
}

/// The model of a node.
pub ghost enum NodeView {
    Text(Seq<char>),
    Element(ElementView),
    Comment(Seq<char>),
}

/// The model of an element. Classes form a set: neither their order nor a
/// repetition matters to a query.
pub ghost struct ElementView {
    pub id: Option<Seq<char>>,
    pub name: Seq<char>,
    pub classes: Set<Seq<char>>,
    pub children: Seq<NodeView>,
}

/// The set of the strings that a list of strings holds.
pub open spec fn string_set(list: Seq<String>) -> Set<Seq<char>> {
    Set::new(|c: Seq<char>| exists|i: int| 0 <= i < list.len() && #[trigger] list[i]@ == c)
}

/// The model of a node: its text, or the model of the element that it is.
pub open spec fn node_model(node: Node) -> NodeView
    decreases node,
{
    match node {
        Node::Text(text) => NodeView::Text(text@),
        Node::Element(element) => NodeView::Element(element_model(element)),
        Node::Comment(text) => NodeView::Comment(text@),
    }
}

/// The model of an element: its id and its name as texts, its classes as a
/// set, and the models of its children in their order.
pub open spec fn element_model(element: Element) -> ElementView
    decreases element,
{
    ElementView {
        id: match element.id {
            Some(id) => Some(id@),
            None => None,
        },
        name: element.name@,
        classes: string_set(element.classes@),
        children: Seq::new(
            element.children@.len(),
            |i: int|
                if 0 <= i < element.children@.len() {
                    node_model(element.children@[i])
                } else {
                    NodeView::Text(Seq::empty())
                },
        ),
    }
}

impl View for Node {
    type V = NodeView;

    open spec fn view(&self) -> NodeView {
        node_model(*self)
    }
}

impl View for Element {
    type V = ElementView;

    open spec fn view(&self) -> ElementView {
        element_model(*self)
    }
}

/// The models of the nodes of a list, in their order.
pub open spec fn nodes_view(nodes: Seq<Node>) -> Seq<NodeView> {
    Seq::new(nodes.len(), |i: int| nodes[i]@)
}

/// A whole document's model: the models of its top-level nodes.
impl View for Dom {
    type V = Seq<NodeView>;

    open spec fn view(&self) -> Seq<NodeView> {
        nodes_view(self.children@)
    }
}

/// The model of an element holds the models of its children, in their order.
pub proof fn lemma_children_view(element: Element)
    ensures
        element@.children == nodes_view(element.children@),
{
    assert(element@.children =~= nodes_view(element.children@));
}

/// The indices of a path as integers.
pub open spec fn path_view(path: Seq<usize>) -> Seq<int> {
    Seq::new(path.len(), |k: int| path[k] as int)
}

/// The paths of a list, each as a sequence of integers.
pub open spec fn paths_view(paths: Seq<Vec<usize>>) -> Seq<Seq<int>> {
    Seq::new(paths.len(), |k: int| path_view(paths[k]@))
}

/// The element that a path leads to from `element`, if it leads to one: the
/// empty path leads to `element` itself, and each index picks a child, which
/// has to be an element.
pub open spec fn node_at(element: ElementView, path: Seq<int>) -> Option<ElementView>
    decreases path.len(), 1nat,
{
    if path.len() == 0 {
        Some(element)
    } else {
        node_among(element.children, path)
    }
}

/// The element that a path leads to from a list of nodes, if it leads to
/// one: its first index picks a node of the list.
pub open spec fn node_among(nodes: Seq<NodeView>, path: Seq<int>) -> Option<ElementView>
    decreases path.len(), 0nat,
{
    if path.len() == 0 || !(0 <= path[0] < nodes.len()) {
        None
    } else {
        match nodes[path[0]] {
            NodeView::Element(child) => node_at(child, path.drop_first()),
            _ => None,
        }
    }
}

/// Whether the element at the path `first` comes before the element at
/// `second` in document order: it lies above it, or in the tree of an
/// earlier child of the element where the two paths part.
pub open spec fn precedes(first: Seq<int>, second: Seq<int>) -> bool
    decreases first.len(),
{
    if first.len() == 0 {
        second.len() > 0
    } else if second.len() == 0 {
        false
    } else if first[0] != second[0] {
        first[0] < second[0]
    } else {
        precedes(first.drop_first(), second.drop_first())
    }
}

/// Whether the paths of a list come in document order, none of them twice.
pub open spec fn in_document_order(paths: Seq<Seq<int>>) -> bool {
    forall|i: int, j: int| 0 <= i < j < paths.len() ==> precedes(paths[i], paths[j])
}

/// The models of the elements of a list.
pub open spec fn elements_view(elements: Seq<&Element>) -> Seq<ElementView> {
    Seq::new(elements.len(), |k: int| elements[k]@)
}

/// Follows a path from a list of nodes.
fn descend<'a>(nodes: &'a Vec<Node>, path: &Vec<usize>) -> (found: Option<&'a Element>)
    ensures
        match found {
            Some(element) => node_among(nodes_view(nodes@), path_view(path@)) == Some(element@),
            None => node_among(nodes_view(nodes@), path_view(path@)) is None,
        },
{
    let ghost whole = path_view(path@);
    let ghost top = nodes_view(nodes@);
    let mut level: &'a Vec<Node> = nodes;
    let mut depth: usize = 0;
    assert(whole.skip(0) =~= whole);
    while depth < path.len()
        invariant
            depth <= path.len(),
            whole == path_view(path@),
            top == nodes_view(nodes@),
            node_among(top, whole) == node_among(nodes_view(level@), whole.skip(depth as int)),
        decreases path.len() - depth,
    {
        let index = path[depth];
        let ghost rest = whole.skip(depth as int);
        assert(rest[0] == index as int);
        assert(rest.drop_first() =~= whole.skip(depth + 1));
        if index >= level.len() {
            return None;
        }
        match &level[index] {
            Node::Element(child) => {
                if depth + 1 == path.len() {
                    return Some(child);
                }
                proof {
                    lemma_children_view(*child);
                }
                level = &child.children;
            },
            _ => {
                return None;
            },
        }
        depth += 1;
    }
    None
}

/// The element that a path leads to from `root`, if it leads to one.
pub fn element_at<'a>(root: &'a Element, path: &Vec<usize>) -> (found: Option<&'a Element>)
    ensures
        match found {
            Some(element) => node_at(root@, path_view(path@)) == Some(element@),
            None => node_at(root@, path_view(path@)) is None,
        },
{
    if path.len() == 0 {
        Some(root)
    } else {
        proof {
            lemma_children_view(*root);
        }
        descend(&root.children, path)
    }
}

/// The element that a path leads to from the top level of a document, if it
/// leads to one.
pub fn element_in<'a>(dom: &'a Dom, path: &Vec<usize>) -> (found: Option<&'a Element>)
    ensures
        match found {
            Some(element) => node_among(dom@, path_view(path@)) == Some(element@),
            None => node_among(dom@, path_view(path@)) is None,
        },
{
    descend(&dom.children, path)
}

/// Following one path and then another is following the two joined.
pub proof fn lemma_node_at_concat(root: ElementView, first: Seq<int>, second: Seq<int>)
    ensures
        node_at(root, first + second) == match node_at(root, first) {
            Some(element) => node_at(element, second),
            None => None,
        },
    decreases first.len(),
{
    if first.len() == 0 {
        assert(first + second =~= second);
    } else {
        let whole = first + second;
        assert(whole.drop_first() =~= first.drop_first() + second);
        assert(whole[0] == first[0]);
        if 0 <= first[0] < root.children.len() {
            match root.children[first[0]] {
                NodeView::Element(child) => {
                    lemma_node_at_concat(child, first.drop_first(), second);
                },
                _ => {},
            }
        }
    }
}

/// A path that leads to an element passes through an element at each depth,
/// and each of them holds the next as the child that the path names.
pub proof fn lemma_node_at_step(root: ElementView, path: Seq<int>, depth: int)
    requires
        node_at(root, path) is Some,
        0 <= depth < path.len(),
    ensures
        node_at(root, path.take(depth)) is Some,
        node_at(root, path.take(depth + 1)) is Some,
        0 <= path[depth] < node_at(root, path.take(depth)).unwrap().children.len(),
        node_at(root, path.take(depth)).unwrap().children[path[depth]] == NodeView::Element(
            node_at(root, path.take(depth + 1)).unwrap(),
        ),
{
    let above = path.take(depth);
    let rest = path.skip(depth);
    assert(above + rest =~= path);
    lemma_node_at_concat(root, above, rest);
    let here = node_at(root, above).unwrap();
    assert(rest[0] == path[depth]);
    assert(node_at(here, rest) == node_among(here.children, rest));
    let step = seq![path[depth]];
    assert(above + step =~= path.take(depth + 1));
    lemma_node_at_concat(root, above, step);
    assert(step.drop_first() =~= Seq::<int>::empty());
    assert(node_at(here, step) == node_among(here.children, step));
}

/// No path comes before itself.
pub proof fn lemma_precedes_is_strict(path: Seq<int>)
    ensures
        !precedes(path, path),
    decreases path.len(),
{
    if path.len() > 0 {
        lemma_precedes_is_strict(path.drop_first());
    }
}

} // verus!
