//! The search visits every element of the tree, and nothing else gives a
//! result: the results are what the selectors give at the elements of the
//! tree, each behind the path to its element.

use vstd::prelude::*;
use crate::dom::{ElementView, NodeView, node_at};
use crate::laws::soundness::lemma_append_new_members;
use crate::matcher::element_matches;
use crate::search::{
    chain_matches, chain_matches_among, find_all, find_among, frame_matches, selector_matches,
};
use crate::selector::{BasicSelectorView, SelectorView};

verus! {

/// What a chain gives at a child element, it gives among the children, behind
/// the child's index.
pub proof fn lemma_chain_matches_among_holds(
    nodes: Seq<NodeView>,
    chain: Seq<BasicSelectorView>,
    count: nat,
    index: int,
    inner: Seq<int>,
)
    requires
        0 <= index < count <= nodes.len(),
        nodes[index] is Element,
        chain_matches(nodes[index]->Element_0, chain).contains(inner),
    ensures
        chain_matches_among(nodes, chain, count).contains(seq![index] + inner),
    decreases count,
{
    let before = chain_matches_among(nodes, chain, (count - 1) as nat);
    let paths = chain_matches_among(nodes, chain, count);
    if index == count - 1 {
        let deeper = chain_matches(nodes[index]->Element_0, chain);
        let at = choose|at: int| 0 <= at < deeper.len() && deeper[at] == inner;
        assert(paths[before.len() + at] == seq![index] + inner);
    } else {
        lemma_chain_matches_among_holds(nodes, chain, (count - 1) as nat, index, inner);
        let at = choose|at: int| 0 <= at < before.len() && before[at] == seq![index] + inner;
        assert(paths[at] == seq![index] + inner);
    }
}

/// What a search gives in the tree of a child element, it gives among the
/// children, behind the child's index.
pub proof fn lemma_find_among_holds(
    nodes: Seq<NodeView>,
    selectors: Seq<SelectorView>,
    count: nat,
    index: int,
    inner: Seq<int>,
)
    requires
        0 <= index < count <= nodes.len(),
        nodes[index] is Element,
        find_all(nodes[index]->Element_0, selectors).contains(inner),
    ensures
        find_among(nodes, selectors, count).contains(seq![index] + inner),
    decreases count,
{
    let before = find_among(nodes, selectors, (count - 1) as nat);
    let paths = find_among(nodes, selectors, count);
    if index == count - 1 {
        let deeper = find_all(nodes[index]->Element_0, selectors);
        let at = choose|at: int| 0 <= at < deeper.len() && deeper[at] == inner;
        assert(paths[before.len() + at] == seq![index] + inner);
    } else {
        lemma_find_among_holds(nodes, selectors, (count - 1) as nat, index, inner);
        let at = choose|at: int| 0 <= at < before.len() && before[at] == seq![index] + inner;
        assert(paths[at] == seq![index] + inner);
    }
}

/// What one selector of a list gives at an element is among what the list
/// gives at it.
pub proof fn lemma_frame_matches_holds(
    element: ElementView,
    selectors: Seq<SelectorView>,
    count: nat,
    which: int,
    path: Seq<int>,
)
    requires
        0 <= which < count <= selectors.len(),
        selector_matches(element, selectors[which]).contains(path),
    ensures
        frame_matches(element, selectors, count).contains(path),
    decreases count,
{
    let before = frame_matches(element, selectors, (count - 1) as nat);
    lemma_append_new_members(before, selector_matches(element, selectors[count - 1]));
    if which < count - 1 {
        lemma_frame_matches_holds(element, selectors, (count - 1) as nat, which, path);
    }
}

/// What a selector list gives at an element of the tree is among the results
/// of the search, behind the path to that element: the search visits every
/// element.
pub proof fn lemma_find_all_visits(
    root: ElementView,
    selectors: Seq<SelectorView>,
    to: Seq<int>,
    from_there: Seq<int>,
)
    requires
        node_at(root, to) is Some,
        frame_matches(node_at(root, to).unwrap(), selectors, selectors.len()).contains(from_there),
    ensures
        find_all(root, selectors).contains(to + from_there),
    decreases to.len(),
{
    let here = frame_matches(root, selectors, selectors.len());
    let deeper = find_among(root.children, selectors, root.children.len());
    let paths = find_all(root, selectors);
    if to.len() == 0 {
        assert(to + from_there =~= from_there);
        let at = choose|at: int| 0 <= at < here.len() && here[at] == from_there;
        assert(paths[at] == from_there);
    } else {
        let child = root.children[to[0]]->Element_0;
        lemma_find_all_visits(child, selectors, to.drop_first(), from_there);
        lemma_find_among_holds(
            root.children,
            selectors,
            root.children.len(),
            to[0],
            to.drop_first() + from_there,
        );
        assert(seq![to[0]] + (to.drop_first() + from_there) =~= to + from_there);
        let at = choose|at: int| 0 <= at < deeper.len() && deeper[at] == to + from_there;
        assert(paths[here.len() + at] == to + from_there);
    }
}

/// Every element of the tree that matches a basic selector of the list is
/// among the results.
pub proof fn lemma_basic_selector_complete(
    root: ElementView,
    selectors: Seq<SelectorView>,
    which: int,
    path: Seq<int>,
)
    requires
        0 <= which < selectors.len(),
        selectors[which] is Basic,
        node_at(root, path) is Some,
        element_matches(node_at(root, path).unwrap(), selectors[which]->Basic_0),
    ensures
        find_all(root, selectors).contains(path),
{
    let element = node_at(root, path).unwrap();
    let nowhere = Seq::<int>::empty();
    assert(selector_matches(element, selectors[which])[0] == nowhere);
    lemma_frame_matches_holds(element, selectors, selectors.len(), which, nowhere);
    lemma_find_all_visits(root, selectors, path, nowhere);
    assert(path + nowhere =~= path);
}

/// `*` finds every element of the tree.
pub proof fn lemma_universal_finds_every_element(root: ElementView, path: Seq<int>)
    requires
        node_at(root, path) is Some,
    ensures
        find_all(root, seq![SelectorView::Basic(BasicSelectorView::All)]).contains(path),
{
    lemma_basic_selector_complete(
        root,
        seq![SelectorView::Basic(BasicSelectorView::All)],
        0,
        path,
    );
}

/// Whether a path is given by one of the selectors at one of the elements
/// on it: the selector `selectors[which]` gives, at the element at depth
/// `depth` of the path, the rest of the path.
pub open spec fn given_at(
    root: ElementView,
    selectors: Seq<SelectorView>,
    path: Seq<int>,
    depth: int,
    which: int,
) -> bool {
    &&& 0 <= depth <= path.len()
    &&& 0 <= which < selectors.len()
    &&& node_at(root, path.take(depth)) is Some
    &&& selector_matches(node_at(root, path.take(depth)).unwrap(), selectors[which]).contains(
        path.skip(depth),
    )
}

/// A path among the results of a search among the first nodes of a list
/// starts with the index of one of them, an element, and goes on with a
/// result of the search in the tree of that element.
pub proof fn lemma_find_among_parts(
    nodes: Seq<NodeView>,
    selectors: Seq<SelectorView>,
    count: nat,
    path: Seq<int>,
)
    requires
        find_among(nodes, selectors, count).contains(path),
    ensures
        path.len() > 0,
        0 <= path[0] < count <= nodes.len(),
        nodes[path[0]] is Element,
        find_all(nodes[path[0]]->Element_0, selectors).contains(path.drop_first()),
    decreases count,
{
    let paths = find_among(nodes, selectors, count);
    let at = choose|at: int| 0 <= at < paths.len() && paths[at] == path;
    let before = find_among(nodes, selectors, (count - 1) as nat);
    if at < before.len() {
        assert(before[at] == path);
        lemma_find_among_parts(nodes, selectors, (count - 1) as nat, path);
    } else {
        let deeper = find_all(nodes[count - 1]->Element_0, selectors);
        let inner = deeper[at - before.len()];
        assert(path == seq![count - 1] + inner);
        assert(path.drop_first() =~= inner);
    }
}

/// What the selectors of a list give at an element, one of them gives.
pub proof fn lemma_frame_matches_parts(
    element: ElementView,
    selectors: Seq<SelectorView>,
    count: nat,
    path: Seq<int>,
) -> (which: int)
    requires
        frame_matches(element, selectors, count).contains(path),
    ensures
        0 <= which < count <= selectors.len(),
        selector_matches(element, selectors[which]).contains(path),
    decreases count,
{
    let paths = frame_matches(element, selectors, count);
    let at = choose|at: int| 0 <= at < paths.len() && paths[at] == path;
    let before = frame_matches(element, selectors, (count - 1) as nat);
    lemma_append_new_members(before, selector_matches(element, selectors[count - 1]));
    if before.contains(path) {
        lemma_frame_matches_parts(element, selectors, (count - 1) as nat, path)
    } else {
        count - 1
    }
}

/// Every result of a search is given by one of the selectors at one of the
/// elements on the path.
pub proof fn lemma_find_all_parts(
    root: ElementView,
    selectors: Seq<SelectorView>,
    path: Seq<int>,
) -> (place: (int, int))
    requires
        find_all(root, selectors).contains(path),
    ensures
        given_at(root, selectors, path, place.0, place.1),
    decreases root,
{
    let here = frame_matches(root, selectors, selectors.len());
    let deeper = find_among(root.children, selectors, root.children.len());
    let paths = find_all(root, selectors);
    let at = choose|at: int| 0 <= at < paths.len() && paths[at] == path;
    if at < here.len() {
        assert(here[at] == path);
        let which = lemma_frame_matches_parts(root, selectors, selectors.len(), path);
        assert(path.take(0) =~= Seq::<int>::empty());
        assert(path.skip(0) =~= path);
        (0, which)
    } else {
        assert(deeper[at - here.len()] == path);
        lemma_find_among_parts(root.children, selectors, root.children.len(), path);
        let child = root.children[path[0]]->Element_0;
        let inner = path.drop_first();
        let below = lemma_find_all_parts(child, selectors, inner);
        assert(path.take(below.0 + 1).drop_first() =~= inner.take(below.0));
        assert(path.take(below.0 + 1)[0] == path[0]);
        assert(path.skip(below.0 + 1) =~= inner.skip(below.0));
        (below.0 + 1, below.1)
    }
}

/// The results of a search are exactly the paths that one of the selectors
/// gives at one of the elements on them.
pub proof fn lemma_find_all_characterized(
    root: ElementView,
    selectors: Seq<SelectorView>,
    path: Seq<int>,
)
    ensures
        find_all(root, selectors).contains(path) <==> exists|depth: int, which: int|
            given_at(root, selectors, path, depth, which),
{
    if find_all(root, selectors).contains(path) {
        let place = lemma_find_all_parts(root, selectors, path);
        assert(given_at(root, selectors, path, place.0, place.1));
    }
    if exists|depth: int, which: int| given_at(root, selectors, path, depth, which) {
        let (depth, which) = choose|depth: int, which: int|
            given_at(root, selectors, path, depth, which);
        let element = node_at(root, path.take(depth)).unwrap();
        lemma_frame_matches_holds(element, selectors, selectors.len(), which, path.skip(depth));
        lemma_find_all_visits(root, selectors, path.take(depth), path.skip(depth));
        assert(path.take(depth) + path.skip(depth) =~= path);
    }
}

} // verus!
