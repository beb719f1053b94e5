//! Reading the text of a table cell.

use vstd::prelude::*;
use crate::dom::{Element, Node, NodeView, lemma_children_view, nodes_view};

verus! {

/// The content of the first text node from index `from` on, if there is one.
pub open spec fn first_text_from(nodes: Seq<NodeView>, from: int) -> Option<Seq<char>>
    decreases nodes.len() - from,
{
    if from < 0 || from >= nodes.len() {
        None
    } else {
        match nodes[from] {
            NodeView::Text(content) => Some(content),
            _ => first_text_from(nodes, from + 1),
        }
    }
}

/// The texts that a cell shows, read from the nodes from index `from` on.
/// A text node gives its content and ends the reading. An element named
/// `link` gives the content of its first text child, if it has one, and the
/// reading goes on behind it. Every other node is passed over.
pub open spec fn cell_texts_from(nodes: Seq<NodeView>, link: Seq<char>, from: int) -> Seq<
    Seq<char>,
>
    decreases nodes.len() - from,
{
    if from < 0 || from >= nodes.len() {
        Seq::empty()
    } else {
        let rest = cell_texts_from(nodes, link, from + 1);
        match nodes[from] {
            NodeView::Text(content) => seq![content],
            NodeView::Element(element) => if element.name == link {
                match first_text_from(element.children, 0) {
                    Some(content) => seq![content] + rest,
                    None => rest,
                }
            } else {
                rest
            },
            NodeView::Comment(_) => rest,
        }
    }
}

/// The contents of a list of texts.
pub open spec fn texts_view(texts: Seq<&String>) -> Seq<Seq<char>> {
    Seq::new(texts.len(), |k: int| texts[k]@)
}

/// The first text node among `nodes`, if there is one.
pub fn first_text<'a>(nodes: &'a Vec<Node>) -> (found: Option<&'a String>)
    ensures
        match found {
            Some(content) => first_text_from(nodes_view(nodes@), 0) == Some(content@),
            None => first_text_from(nodes_view(nodes@), 0) is None,
        },
{
    let mut i: usize = 0;
    while i < nodes.len()
        invariant
            i <= nodes.len(),
            first_text_from(nodes_view(nodes@), 0) == first_text_from(nodes_view(nodes@), i as int),
        decreases nodes.len() - i,
    {
        assert(nodes_view(nodes@)[i as int] == nodes@[i as int]@);
        match &nodes[i] {
            Node::Text(content) => {
                return Some(content);
            },
            _ => {},
        }
        i += 1;
    }
    None
}

/// The texts that a table cell shows: the content of its leading text node,
/// or, where elements named `link` stand before it, the first text of each
/// of them as well.
pub fn cell_texts<'a>(cell: &'a Element, link: &str) -> (texts: Vec<&'a String>)
    ensures
        texts_view(texts@) == cell_texts_from(cell@.children, link@, 0),
{
    let link_name = link.to_owned();
    let mut texts: Vec<&'a String> = Vec::new();
    let mut i: usize = 0;
    let ghost nodes = cell@.children;
    proof {
        lemma_children_view(*cell);
        assert(texts_view(texts@) =~= Seq::<Seq<char>>::empty());
        assert(Seq::<Seq<char>>::empty() + cell_texts_from(nodes, link@, 0) =~= cell_texts_from(
            nodes,
            link@,
            0,
        ));
    }
    while i < cell.children.len()
        invariant
            i <= cell.children.len(),
            nodes == cell@.children,
            nodes == nodes_view(cell.children@),
            link_name@ == link@,
            cell_texts_from(nodes, link@, 0) == texts_view(texts@) + cell_texts_from(
                nodes,
                link@,
                i as int,
            ),
        decreases cell.children.len() - i,
    {
        let ghost sofar = texts_view(texts@);
        let ghost rest = cell_texts_from(nodes, link@, i + 1);
        assert(nodes[i as int] == cell.children@[i as int]@);
        match &cell.children[i] {
            Node::Text(content) => {
                texts.push(content);
                assert(texts_view(texts@) =~= sofar + seq![content@]);
                return texts;
            },
            Node::Element(element) => {
                if element.name == link_name {
                    proof {
                        lemma_children_view(*element);
                    }
                    match first_text(&element.children) {
                        Some(content) => {
                            texts.push(content);
                            assert(texts_view(texts@) =~= sofar + seq![content@]);
                            assert((sofar + seq![content@]) + rest =~= sofar + (seq![content@]
                                + rest));
                        },
                        None => {},
                    }
                }
            },
            Node::Comment(_) => {},
        }
        i += 1;
    }
    assert(texts_view(texts@) + Seq::<Seq<char>>::empty() =~= texts_view(texts@));
    texts
}

} // verus!
