//! Each result of a search is an element of the tree, and one that the
//! selector list asks for.

use vstd::prelude::*;
use crate::dom::{ElementView, NodeView, node_among, node_at};
use crate::matcher::element_matches;
use crate::search::{
    append_new, chain_matches, chain_matches_among, find_all, find_among, frame_matches,
    selector_matches,
};
use crate::selector::{BasicSelectorView, SelectorView};

verus! {

/// Whether an element is what a selector asks for in the end: the element
/// matches a basic selector, or the last selector of a chain.
pub open spec fn picks(selector: SelectorView, element: ElementView) -> bool {
    match selector {
        SelectorView::Basic(basic) => element_matches(element, basic),
        SelectorView::Hierarchical(chain) => chain.len() > 0 && element_matches(
            element,
            chain.last(),
        ),
    }
}

/// Whether an element is what one of the selectors of a list asks for.
pub open spec fn picked_by(selectors: Seq<SelectorView>, element: ElementView) -> bool {
    exists|s: int| 0 <= s < selectors.len() && picks(#[trigger] selectors[s], element)
}

/// Every path that a chain gives leads to an element of the tree, and that
/// element matches the last selector of the chain.
pub proof fn lemma_chain_matches_sound(element: ElementView, chain: Seq<BasicSelectorView>)
    ensures
        forall|k: int|
            0 <= k < chain_matches(element, chain).len() ==> {
                let found = node_at(element, #[trigger] chain_matches(element, chain)[k]);
                found is Some && chain.len() > 0 && element_matches(found.unwrap(), chain.last())
            },
    decreases element, 0nat,
{
    let paths = chain_matches(element, chain);
    if chain.len() == 0 {
    } else if !element_matches(element, chain[0]) {
        lemma_chain_matches_among_sound(element.children, chain, element.children.len());
    } else if chain.len() == 1 {
        assert(paths[0].len() == 0);
    } else {
        lemma_chain_matches_among_sound(
            element.children,
            chain.drop_first(),
            element.children.len(),
        );
        assert(chain.drop_first().last() == chain.last());
    }
}

/// Every path that a chain gives among a list of nodes leads to an element
/// below one of them, and that element matches the last selector of the
/// chain.
pub proof fn lemma_chain_matches_among_sound(
    nodes: Seq<NodeView>,
    chain: Seq<BasicSelectorView>,
    count: nat,
)
    ensures
        forall|k: int|
            0 <= k < chain_matches_among(nodes, chain, count).len() ==> {
                let path = #[trigger] chain_matches_among(nodes, chain, count)[k];
                let found = node_among(nodes, path);
                path.len() > 0 && found is Some && chain.len() > 0 && element_matches(
                    found.unwrap(),
                    chain.last(),
                )
            },
    decreases nodes, count,
{
    if count == 0 || count > nodes.len() {
    } else {
        let index = count - 1;
        let before = chain_matches_among(nodes, chain, index as nat);
        lemma_chain_matches_among_sound(nodes, chain, index as nat);
        match nodes[index] {
            NodeView::Element(child) => {
                let deeper = chain_matches(child, chain);
                lemma_chain_matches_sound(child, chain);
                let paths = chain_matches_among(nodes, chain, count);
                assert forall|k: int| 0 <= k < paths.len() implies {
                    let path = #[trigger] paths[k];
                    let found = node_among(nodes, path);
                    path.len() > 0 && found is Some && chain.len() > 0 && element_matches(
                        found.unwrap(),
                        chain.last(),
                    )
                } by {
                    if k >= before.len() {
                        let inner = deeper[k - before.len()];
                        assert(paths[k] == seq![index] + inner);
                        assert(paths[k].drop_first() =~= inner);
                    } else {
                        assert(paths[k] == before[k]);
                    }
                }
            },
            _ => {},
        }
    }
}

/// Every path that one selector gives at an element leads to an element of
/// its tree that the selector asks for.
pub proof fn lemma_selector_matches_sound(element: ElementView, selector: SelectorView)
    ensures
        forall|k: int|
            0 <= k < selector_matches(element, selector).len() ==> {
                let found = node_at(element, #[trigger] selector_matches(element, selector)[k]);
                found is Some && picks(selector, found.unwrap())
            },
{
    match selector {
        SelectorView::Basic(basic) => {
            if element_matches(element, basic) {
                assert(selector_matches(element, selector)[0].len() == 0);
            }
        },
        SelectorView::Hierarchical(chain) => {
            lemma_chain_matches_sound(element, chain);
        },
    }
}

/// Adding without repetition adds nothing else: the result holds exactly
/// the paths of the two lists.
pub proof fn lemma_append_new_members(found: Seq<Seq<int>>, more: Seq<Seq<int>>)
    ensures
        forall|path: Seq<int>|
            append_new(found, more).contains(path) <==> found.contains(path) || more.contains(
                path,
            ),
    decreases more.len(),
{
    if more.len() > 0 {
        let sofar = append_new(found, more.drop_last());
        lemma_append_new_members(found, more.drop_last());
        assert forall|path: Seq<int>|
            append_new(found, more).contains(path) <==> found.contains(path) || more.contains(
                path,
            ) by {
            if more.contains(path) {
                let at = choose|at: int| 0 <= at < more.len() && more[at] == path;
                if at < more.len() - 1 {
                    assert(more.drop_last()[at] == path);
                } else if !sofar.contains(path) {
                    assert(sofar.push(path).last() == path);
                }
            }
            if more.drop_last().contains(path) {
                let at = choose|at: int|
                    0 <= at < more.drop_last().len() && more.drop_last()[at] == path;
                assert(more[at] == path);
            }
            if sofar.contains(path) {
                let at = choose|at: int| 0 <= at < sofar.len() && sofar[at] == path;
                assert(append_new(found, more)[at] == path);
            }
            if append_new(found, more).contains(path) && !sofar.contains(path) {
                let at = choose|at: int|
                    0 <= at < append_new(found, more).len() && append_new(found, more)[at] == path;
                if at < sofar.len() {
                    assert(sofar[at] == path);
                }
                assert(more[more.len() - 1] == path);
            }
        }
    }
}

/// Adding without repetition keeps a list free of repetitions.
pub proof fn lemma_append_new_distinct(found: Seq<Seq<int>>, more: Seq<Seq<int>>)
    requires
        found.no_duplicates(),
    ensures
        append_new(found, more).no_duplicates(),
    decreases more.len(),
{
    if more.len() > 0 {
        lemma_append_new_distinct(found, more.drop_last());
    }
}

/// No element is reported twice at one element: the results of the
/// selectors of a list for the element itself hold no path twice, however
/// many of the selectors give it.
pub proof fn lemma_frame_matches_distinct(
    element: ElementView,
    selectors: Seq<SelectorView>,
    count: nat,
)
    ensures
        frame_matches(element, selectors, count).no_duplicates(),
    decreases count,
{
    if count == 0 || count > selectors.len() {
    } else {
        lemma_frame_matches_distinct(element, selectors, (count - 1) as nat);
        lemma_append_new_distinct(
            frame_matches(element, selectors, (count - 1) as nat),
            selector_matches(element, selectors[count - 1]),
        );
    }
}

/// Every path that the first selectors of a list give at an element leads
/// to an element of its tree that one of them asks for.
pub proof fn lemma_frame_matches_sound(
    element: ElementView,
    selectors: Seq<SelectorView>,
    count: nat,
)
    ensures
        forall|k: int|
            0 <= k < frame_matches(element, selectors, count).len() ==> {
                let found = node_at(element, #[trigger] frame_matches(element, selectors, count)[k]);
                found is Some && picked_by(selectors, found.unwrap())
            },
    decreases count,
{
    if count == 0 || count > selectors.len() {
    } else {
        let before = frame_matches(element, selectors, (count - 1) as nat);
        let more = selector_matches(element, selectors[count - 1]);
        let paths = frame_matches(element, selectors, count);
        lemma_frame_matches_sound(element, selectors, (count - 1) as nat);
        lemma_selector_matches_sound(element, selectors[count - 1]);
        lemma_append_new_members(before, more);
        assert forall|k: int| 0 <= k < paths.len() implies {
            let found = node_at(element, #[trigger] paths[k]);
            found is Some && picked_by(selectors, found.unwrap())
        } by {
            assert(paths.contains(paths[k]));
            if before.contains(paths[k]) {
                let at = choose|at: int| 0 <= at < before.len() && before[at] == paths[k];
                assert(node_at(element, before[at]) is Some);
            } else {
                let at = choose|at: int| 0 <= at < more.len() && more[at] == paths[k];
                assert(node_at(element, more[at]) is Some);
                assert(picks(selectors[count - 1], node_at(element, more[at]).unwrap()));
            }
        }
    }
}

/// Every result of a search leads to an element of the tree, and that
/// element is what one of the selectors asks for.
pub proof fn lemma_find_all_sound(element: ElementView, selectors: Seq<SelectorView>)
    ensures
        forall|k: int|
            0 <= k < find_all(element, selectors).len() ==> {
                let found = node_at(element, #[trigger] find_all(element, selectors)[k]);
                found is Some && picked_by(selectors, found.unwrap())
            },
    decreases element, 0nat,
{
    let here = frame_matches(element, selectors, selectors.len());
    let deeper = find_among(element.children, selectors, element.children.len());
    let paths = find_all(element, selectors);
    lemma_frame_matches_sound(element, selectors, selectors.len());
    lemma_find_among_sound(element.children, selectors, element.children.len());
    assert forall|k: int| 0 <= k < paths.len() implies {
        let found = node_at(element, #[trigger] paths[k]);
        found is Some && picked_by(selectors, found.unwrap())
    } by {
        if k < here.len() {
            assert(paths[k] == here[k]);
        } else {
            assert(paths[k] == deeper[k - here.len()]);
        }
    }
}

/// Every result of a search among a list of nodes leads to an element below
/// one of them, and that element is what one of the selectors asks for.
pub proof fn lemma_find_among_sound(nodes: Seq<NodeView>, selectors: Seq<SelectorView>, count: nat)
    ensures
        forall|k: int|
            0 <= k < find_among(nodes, selectors, count).len() ==> {
                let path = #[trigger] find_among(nodes, selectors, count)[k];
                let found = node_among(nodes, path);
                path.len() > 0 && found is Some && picked_by(selectors, found.unwrap())
            },
    decreases nodes, count,
{
    if count == 0 || count > nodes.len() {
    } else {
        let index = count - 1;
        let before = find_among(nodes, selectors, index as nat);
        lemma_find_among_sound(nodes, selectors, index as nat);
        match nodes[index] {
            NodeView::Element(child) => {
                let deeper = find_all(child, selectors);
                lemma_find_all_sound(child, selectors);
                let paths = find_among(nodes, selectors, count);
                assert forall|k: int| 0 <= k < paths.len() implies {
                    let path = #[trigger] paths[k];
                    let found = node_among(nodes, path);
                    path.len() > 0 && found is Some && picked_by(selectors, found.unwrap())
                } by {
                    if k >= before.len() {
                        let inner = deeper[k - before.len()];
                        assert(paths[k] == seq![index] + inner);
                        assert(paths[k].drop_first() =~= inner);
                    } else {
                        assert(paths[k] == before[k]);
                    }
                }
            },
            _ => {},
        }
    }
}

/// A tag name that no element of the tree has finds nothing.
pub proof fn lemma_absent_tag_finds_nothing(root: ElementView, tag: Seq<char>)
    requires
        forall|path: Seq<int>|
            node_at(root, path) is Some ==> (#[trigger] node_at(root, path)).unwrap().name != tag,
    ensures
        find_all(root, seq![SelectorView::Basic(BasicSelectorView::Element(tag))]).len() == 0,
{
    let selectors = seq![SelectorView::Basic(BasicSelectorView::Element(tag))];
    let paths = find_all(root, selectors);
    lemma_find_all_sound(root, selectors);
    if paths.len() > 0 {
        let found = node_at(root, paths[0]);
        assert(picked_by(selectors, found.unwrap()));
        let which = choose|which: int|
            0 <= which < selectors.len() && picks(#[trigger] selectors[which], found.unwrap());
        assert(selectors[which] == SelectorView::Basic(BasicSelectorView::Element(tag)));
    }
}

/// A document without nodes gives no result, whatever the selectors.
pub proof fn lemma_empty_document_gives_nothing(selectors: Seq<SelectorView>)
    ensures
        find_among(Seq::empty(), selectors, 0).len() == 0,
{
}

} // verus!
