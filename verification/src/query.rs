//! The two queries: below one element, and over a whole document.

use vstd::prelude::*;
use crate::dom::{
    Dom, Element, ElementView, NodeView, element_at, element_in, elements_view, node_among,
    node_at, paths_view,
};
use crate::error::{QueryError, QueryErrorView};
use crate::laws::soundness::{lemma_find_all_sound, lemma_find_among_sound};
use crate::parser::{parse_selector_string, selector_list};
use crate::search::{find_all, find_among, find_elements, find_elements_in};
use crate::selector::selectors_view;

verus! {

/// The elements that paths lead to from `root`, in the order of the paths.
pub open spec fn elements_at(root: ElementView, paths: Seq<Seq<int>>) -> Seq<ElementView> {
    Seq::new(paths.len(), |k: int| node_at(root, paths[k]).unwrap())
}

/// The elements that paths lead to from a list of nodes, in the order of the
/// paths.
pub open spec fn elements_among(nodes: Seq<NodeView>, paths: Seq<Seq<int>>) -> Seq<ElementView> {
    Seq::new(paths.len(), |k: int| node_among(nodes, paths[k]).unwrap())
}

/// What a query below `root` gives: the elements that the selector list of
/// `text` picks out in the tree of `root`, or the reason for which `text` is
/// refused.
pub open spec fn find_outcome(root: ElementView, text: Seq<char>) -> Result<
    Seq<ElementView>,
    QueryErrorView,
> {
    match selector_list(text) {
        Ok(selectors) => Ok(elements_at(root, find_all(root, selectors))),
        Err(error) => Err(error),
    }
}

/// What a query over a whole document gives: the elements that the selector
/// list of `text` picks out in the trees of its top-level elements, or the
/// reason for which `text` is refused.
pub open spec fn select_outcome(dom: Seq<NodeView>, text: Seq<char>) -> Result<
    Seq<ElementView>,
    QueryErrorView,
> {
    match selector_list(text) {
        Ok(selectors) => Ok(elements_among(dom, find_among(dom, selectors, dom.len()))),
        Err(error) => Err(error),
    }
}

/// The model of what a query gave.
pub open spec fn query_outcome(found: Result<Vec<&Element>, QueryError>) -> Result<
    Seq<ElementView>,
    QueryErrorView,
> {
    match found {
        Ok(elements) => Ok(elements_view(elements@)),
        Err(error) => Err(error@),
    }
}

/// Searches the tree of `element` for the elements that a selector list
/// picks out. The string is parsed before the tree is looked at, and a
/// string that is refused gives no element at all.
pub fn find<'a>(element: &'a Element, selectors_string: &str) -> (found: Result<
    Vec<&'a Element>,
    QueryError,
>)
    ensures
        query_outcome(found) == find_outcome(element@, selectors_string@),
{
    let selectors = match parse_selector_string(selectors_string) {
        Ok(selectors) => selectors,
        Err(error) => {
            return Err(error);
        },
    };
    let paths = find_elements(element, &selectors);
    let ghost picked = paths_view(paths@);
    let mut elements: Vec<&'a Element> = Vec::new();
    let mut i: usize = 0;
    proof {
        lemma_find_all_sound(element@, selectors_view(selectors@));
    }
    while i < paths.len()
        invariant
            i <= paths.len(),
            picked == paths_view(paths@),
            forall|k: int| 0 <= k < picked.len() ==> node_at(element@, #[trigger] picked[k]) is Some,
            elements.len() == i,
            forall|k: int|
                0 <= k < i ==> node_at(element@, picked[k]) == Some((#[trigger] elements@[k])@),
        decreases paths.len() - i,
    {
        assert(picked[i as int] == crate::dom::path_view(paths@[i as int]@));
        match element_at(element, &paths[i]) {
            Some(found) => {
                elements.push(found);
            },
            None => {
                assert(false);
            },
        }
        i += 1;
    }
    assert(elements_view(elements@) =~= elements_at(element@, picked));
    Ok(elements)
}

/// Searches a whole document for the elements that a selector list picks
/// out. The string is parsed before the document is looked at, and a string
/// that is refused gives no element at all.
pub fn select<'a>(dom: &'a Dom, selectors_string: &str) -> (found: Result<
    Vec<&'a Element>,
    QueryError,
>)
    ensures
        query_outcome(found) == select_outcome(dom@, selectors_string@),
{
    let selectors = match parse_selector_string(selectors_string) {
        Ok(selectors) => selectors,
        Err(error) => {
            return Err(error);
        },
    };
    let paths = find_elements_in(dom, &selectors);
    let ghost picked = paths_view(paths@);
    let mut elements: Vec<&'a Element> = Vec::new();
    let mut i: usize = 0;
    proof {
        lemma_find_among_sound(dom@, selectors_view(selectors@), dom@.len());
    }
    while i < paths.len()
        invariant
            i <= paths.len(),
            picked == paths_view(paths@),
            forall|k: int| 0 <= k < picked.len() ==> node_among(dom@, #[trigger] picked[k]) is Some,
            elements.len() == i,
            forall|k: int|
                0 <= k < i ==> node_among(dom@, picked[k]) == Some((#[trigger] elements@[k])@),
        decreases paths.len() - i,
    {
        assert(picked[i as int] == crate::dom::path_view(paths@[i as int]@));
        match element_in(dom, &paths[i]) {
            Some(found) => {
                elements.push(found);
            },
            None => {
                assert(false);
            },
        }
        i += 1;
    }
    assert(elements_view(elements@) =~= elements_among(dom@, picked));
    Ok(elements)
}

/// A query fails for its selector string alone: it gives elements, few or
/// none, exactly when the string is accepted, whatever the tree.
pub proof fn lemma_queries_fail_on_the_string_alone(
    root: ElementView,
    dom: Seq<NodeView>,
    text: Seq<char>,
)
    ensures
        find_outcome(root, text) is Ok <==> selector_list(text) is Ok,
        select_outcome(dom, text) is Ok <==> selector_list(text) is Ok,
{
}

/// Over a document without nodes, every selector string that is accepted
/// gives the empty list.
pub proof fn lemma_empty_document_selects_nothing(text: Seq<char>)
    requires
        selector_list(text) is Ok,
    ensures
        select_outcome(Seq::empty(), text) == Ok::<Seq<ElementView>, QueryErrorView>(Seq::empty()),
{
    let selectors = selector_list(text)->Ok_0;
    let nothing = Seq::<NodeView>::empty();
    assert(elements_among(nothing, find_among(nothing, selectors, 0)) =~= Seq::<
        ElementView,
    >::empty());
}

} // verus!
