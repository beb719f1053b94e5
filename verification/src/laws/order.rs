//! Where the results of a search come in document order.
//!
//! One selector gives its results in document order, none of them twice.
//! So does a list of basic selectors. A list with chains may give an element
//! more than once, and the results of one visit follow the order of the
//! selectors.

use vstd::prelude::*;
use crate::dom::{ElementView, NodeView, in_document_order, lemma_precedes_is_strict, precedes};
use crate::laws::soundness::{lemma_append_new_members, lemma_frame_matches_distinct};
use crate::matcher::element_matches;
use crate::search::{
    below, chain_matches, chain_matches_among, find_all, find_among, frame_matches,
    selector_matches,
};
use crate::selector::{BasicSelectorView, SelectorView};

verus! {

/// Whether every selector of a list is a basic selector.
pub open spec fn all_basic(selectors: Seq<SelectorView>) -> bool {
    forall|s: int| 0 <= s < selectors.len() ==> (#[trigger] selectors[s]) is Basic
}

/// Whether every path of a list starts with an index below `count`.
pub open spec fn start_below(paths: Seq<Seq<int>>, count: int) -> bool {
    forall|k: int|
        0 <= k < paths.len() ==> (#[trigger] paths[k]).len() > 0 && 0 <= paths[k][0] < count
}

/// Paths in document order hold no path twice.
pub proof fn lemma_document_order_is_strict(paths: Seq<Seq<int>>)
    requires
        in_document_order(paths),
    ensures
        paths.no_duplicates(),
{
    assert forall|i: int, j: int| 0 <= i < j < paths.len() implies paths[i] != paths[j] by {
        lemma_precedes_is_strict(paths[i]);
        assert(precedes(paths[i], paths[j]));
    }
}

/// Results below earlier children, followed by results below a later child,
/// come in document order where each of the two lists does.
pub proof fn lemma_document_order_extends(
    before: Seq<Seq<int>>,
    index: int,
    deeper: Seq<Seq<int>>,
)
    requires
        0 <= index,
        in_document_order(before),
        start_below(before, index),
        in_document_order(deeper),
    ensures
        in_document_order(before + below(index, deeper)),
        start_below(before + below(index, deeper), index + 1),
{
    let paths = before + below(index, deeper);
    assert forall|k: int| 0 <= k < paths.len() implies (#[trigger] paths[k]).len() > 0 && 0
        <= paths[k][0] < index + 1 by {
        if k < before.len() {
            assert(paths[k] == before[k]);
        } else {
            assert(paths[k] == seq![index] + deeper[k - before.len()]);
        }
    }
    assert forall|i: int, j: int| 0 <= i < j < paths.len() implies precedes(
        paths[i],
        paths[j],
    ) by {
        if j < before.len() {
            assert(paths[i] == before[i]);
            assert(paths[j] == before[j]);
            assert(precedes(before[i], before[j]));
        } else if i < before.len() {
            assert(paths[i] == before[i]);
            assert(paths[j] == seq![index] + deeper[j - before.len()]);
            assert(before[i].len() > 0 && before[i][0] < index);
            assert(paths[j][0] == index);
        } else {
            let first = deeper[i - before.len()];
            let second = deeper[j - before.len()];
            assert(paths[i] == seq![index] + first);
            assert(paths[j] == seq![index] + second);
            assert(paths[i].drop_first() =~= first);
            assert(paths[j].drop_first() =~= second);
            assert(precedes(first, second));
            assert(paths[i][0] == paths[j][0]);
        }
    }
}

/// The results of a chain at an element come in document order, and no
/// element comes twice.
pub proof fn lemma_chain_matches_in_document_order(
    element: ElementView,
    chain: Seq<BasicSelectorView>,
)
    ensures
        in_document_order(chain_matches(element, chain)),
        chain_matches(element, chain).no_duplicates(),
    decreases element, 0nat,
{
    if chain.len() == 0 {
    } else if !element_matches(element, chain[0]) {
        lemma_chain_matches_among_in_document_order(
            element.children,
            chain,
            element.children.len(),
        );
    } else if chain.len() > 1 {
        lemma_chain_matches_among_in_document_order(
            element.children,
            chain.drop_first(),
            element.children.len(),
        );
    }
    lemma_document_order_is_strict(chain_matches(element, chain));
}

/// The results of a chain among the first nodes of a list come in document
/// order, each below one of those nodes.
pub proof fn lemma_chain_matches_among_in_document_order(
    nodes: Seq<NodeView>,
    chain: Seq<BasicSelectorView>,
    count: nat,
)
    ensures
        in_document_order(chain_matches_among(nodes, chain, count)),
        start_below(chain_matches_among(nodes, chain, count), count as int),
    decreases nodes, count,
{
    if count == 0 || count > nodes.len() {
    } else {
        let index = count - 1;
        lemma_chain_matches_among_in_document_order(nodes, chain, index as nat);
        match nodes[index] {
            NodeView::Element(child) => {
                lemma_chain_matches_in_document_order(child, chain);
                lemma_document_order_extends(
                    chain_matches_among(nodes, chain, index as nat),
                    index,
                    chain_matches(child, chain),
                );
            },
            _ => {},
        }
    }
}

/// The results of one selector at an element come in document order, and no
/// element comes twice.
pub proof fn lemma_selector_matches_in_document_order(element: ElementView, selector: SelectorView)
    ensures
        in_document_order(selector_matches(element, selector)),
        selector_matches(element, selector).no_duplicates(),
{
    match selector {
        SelectorView::Basic(_) => {},
        SelectorView::Hierarchical(chain) => {
            lemma_chain_matches_in_document_order(element, chain);
        },
    }
}

/// Basic selectors give at an element nothing but the element itself, and
/// that at most once.
pub proof fn lemma_basic_frame(element: ElementView, selectors: Seq<SelectorView>, count: nat)
    requires
        all_basic(selectors),
    ensures
        frame_matches(element, selectors, count).len() <= 1,
        forall|k: int|
            0 <= k < frame_matches(element, selectors, count).len() ==> (
            #[trigger] frame_matches(element, selectors, count)[k]).len() == 0,
    decreases count,
{
    let paths = frame_matches(element, selectors, count);
    if count == 0 || count > selectors.len() {
    } else {
        let before = frame_matches(element, selectors, (count - 1) as nat);
        let more = selector_matches(element, selectors[count - 1]);
        lemma_basic_frame(element, selectors, (count - 1) as nat);
        lemma_append_new_members(before, more);
        assert forall|k: int| 0 <= k < paths.len() implies (#[trigger] paths[k]).len() == 0 by {
            assert(paths.contains(paths[k]));
            if before.contains(paths[k]) {
                let at = choose|at: int| 0 <= at < before.len() && before[at] == paths[k];
            } else {
                let at = choose|at: int| 0 <= at < more.len() && more[at] == paths[k];
            }
        }
        lemma_frame_matches_distinct(element, selectors, count);
        if paths.len() > 1 {
            assert(paths[0] =~= paths[1]);
        }
    }
}

/// With basic selectors alone, the results of a search come in document
/// order, and no element comes twice.
pub proof fn lemma_basic_results_in_document_order(
    element: ElementView,
    selectors: Seq<SelectorView>,
)
    requires
        all_basic(selectors),
    ensures
        in_document_order(find_all(element, selectors)),
        find_all(element, selectors).no_duplicates(),
    decreases element, 0nat,
{
    let here = frame_matches(element, selectors, selectors.len());
    let deeper = find_among(element.children, selectors, element.children.len());
    let paths = find_all(element, selectors);
    lemma_basic_frame(element, selectors, selectors.len());
    lemma_basic_results_among_in_document_order(
        element.children,
        selectors,
        element.children.len(),
    );
    assert forall|i: int, j: int| 0 <= i < j < paths.len() implies precedes(
        paths[i],
        paths[j],
    ) by {
        if i < here.len() {
            assert(paths[i] == here[i]);
            assert(paths[j] == deeper[j - here.len()]);
        } else {
            assert(paths[i] == deeper[i - here.len()]);
            assert(paths[j] == deeper[j - here.len()]);
        }
    }
    lemma_document_order_is_strict(paths);
}

/// With basic selectors alone, the results of a search among the first
/// nodes of a list come in document order, each below one of those nodes.
pub proof fn lemma_basic_results_among_in_document_order(
    nodes: Seq<NodeView>,
    selectors: Seq<SelectorView>,
    count: nat,
)
    requires
        all_basic(selectors),
    ensures
        in_document_order(find_among(nodes, selectors, count)),
        start_below(find_among(nodes, selectors, count), count as int),
    decreases nodes, count,
{
    if count == 0 || count > nodes.len() {
    } else {
        let index = count - 1;
        lemma_basic_results_among_in_document_order(nodes, selectors, index as nat);
        match nodes[index] {
            NodeView::Element(child) => {
                lemma_basic_results_in_document_order(child, selectors);
                lemma_document_order_extends(
                    find_among(nodes, selectors, index as nat),
                    index,
                    find_all(child, selectors),
                );
            },
            _ => {},
        }
    }
}

} // verus!
