//! What a chain gives, said path by path.
//!
//! On the way down a path, each selector of a chain is matched by the first
//! element that matches it once the selector before it has been matched. The
//! path is a result where the last selector is matched by the element at its
//! end.

use vstd::prelude::*;
use crate::dom::{ElementView, NodeView, lemma_node_at_step, node_at};
use crate::laws::reach::{
    lemma_chain_matches_among_holds, lemma_find_all_visits, lemma_frame_matches_holds,
};
use crate::matcher::element_matches;
use crate::search::{chain_matches, chain_matches_among, find_all};
use crate::selector::{BasicSelectorView, SelectorView};

verus! {

/// Whether the element at depth `depth` of a path matches a selector.
pub open spec fn matches_at_depth(
    root: ElementView,
    path: Seq<int>,
    depth: int,
    selector: BasicSelectorView,
) -> bool {
    element_matches(node_at(root, path.take(depth)).unwrap(), selector)
}

/// Whether the elements on a path answer a chain step by step: the element
/// at depth `depths[j]` matches the selector `chain[j]`, each of these
/// elements lies below the one before, the last of them is the end of the
/// path, and no element between two of them matches the later one's selector.
pub open spec fn answers_chain(
    root: ElementView,
    chain: Seq<BasicSelectorView>,
    path: Seq<int>,
    depths: Seq<int>,
) -> bool {
    &&& chain.len() >= 1
    &&& depths.len() == chain.len()
    &&& node_at(root, path) is Some
    &&& 0 <= depths[0]
    &&& depths.last() == path.len()
    &&& forall|i: int, j: int| 0 <= i < j < depths.len() ==> depths[i] < depths[j]
    &&& forall|j: int|
        0 <= j < depths.len() ==> #[trigger] matches_at_depth(root, path, depths[j], chain[j])
    &&& forall|j: int, depth: int|
        1 <= j < depths.len() && depths[j - 1] < depth < depths[j] ==> !#[trigger] matches_at_depth(
            root,
            path,
            depth,
            chain[j],
        )
}

/// Whether a path is what a chain gives at `root`: its elements answer the
/// chain step by step, and no element above the first of them matches the
/// first selector of the chain. Each selector is thus matched by the first
/// element on the way down that matches it, once the selector before it has
/// been matched.
pub open spec fn follows_chain(
    root: ElementView,
    chain: Seq<BasicSelectorView>,
    path: Seq<int>,
    depths: Seq<int>,
) -> bool {
    &&& answers_chain(root, chain, path, depths)
    &&& forall|above: int|
        0 <= above < depths[0] ==> !#[trigger] matches_at_depth(root, path, above, chain[0])
}

/// One step of the way down a path that answers a chain: from the element at
/// `depth`, where the selectors before `chain[sought]` have been matched
/// above, the rest of the chain gives the rest of the path.
proof fn lemma_chain_follows(
    root: ElementView,
    chain: Seq<BasicSelectorView>,
    path: Seq<int>,
    depths: Seq<int>,
    sought: int,
    depth: int,
)
    requires
        answers_chain(root, chain, path, depths),
        0 <= sought < chain.len(),
        0 <= depth <= depths[sought],
        sought == 0 ==> forall|above: int|
            depth <= above < depths[0] ==> !#[trigger] matches_at_depth(
                root,
                path,
                above,
                chain[0],
            ),
        sought > 0 ==> depths[sought - 1] < depth,
    ensures
        node_at(root, path.take(depth)) is Some,
        chain_matches(node_at(root, path.take(depth)).unwrap(), chain.skip(sought)).contains(
            path.skip(depth),
        ),
    decreases path.len() - depth,
{
    let rest = chain.skip(sought);
    assert(rest[0] == chain[sought]);
    assert(rest.len() == chain.len() - sought);
    if depth == path.len() {
        let element = node_at(root, path).unwrap();
        assert(path.take(depth) =~= path);
        assert(path.skip(depth) =~= Seq::<int>::empty());
        assert(matches_at_depth(root, path, depths[sought], chain[sought]));
        assert(chain_matches(element, rest) == seq![Seq::<int>::empty()]);
        assert(chain_matches(element, rest)[0] == path.skip(depth));
    } else {
        lemma_node_at_step(root, path, depth);
        let element = node_at(root, path.take(depth)).unwrap();
        let matched = depth == depths[sought];
        if matched {
            assert(matches_at_depth(root, path, depths[sought], chain[sought]));
            assert(rest.drop_first() =~= chain.skip(sought + 1));
        } else {
            assert(!matches_at_depth(root, path, depth, chain[sought]));
        }
        let next = if matched {
            sought + 1
        } else {
            sought
        };
        lemma_chain_follows(root, chain, path, depths, next, depth + 1);
        assert(chain_matches(element, rest) == chain_matches_among(
            element.children,
            chain.skip(next),
            element.children.len(),
        ));
        lemma_chain_matches_among_holds(
            element.children,
            chain.skip(next),
            element.children.len(),
            path[depth],
            path.skip(depth + 1),
        );
        assert(seq![path[depth]] + path.skip(depth + 1) =~= path.skip(depth));
    }
}

/// A chain finds an element at any depth below its matches: where the
/// elements on the path to it answer the chain step by step, whatever lies
/// between them, the element is among the results of every selector list
/// that holds the chain.
pub proof fn lemma_chain_depth_independence(
    root: ElementView,
    selectors: Seq<SelectorView>,
    which: int,
    path: Seq<int>,
    depths: Seq<int>,
)
    requires
        0 <= which < selectors.len(),
        selectors[which] is Hierarchical,
        answers_chain(root, selectors[which]->Hierarchical_0, path, depths),
    ensures
        find_all(root, selectors).contains(path),
{
    let chain = selectors[which]->Hierarchical_0;
    let top = depths[0];
    lemma_chain_follows(root, chain, path, depths, 0, top);
    let first = node_at(root, path.take(top)).unwrap();
    assert(chain.skip(0) =~= chain);
    lemma_frame_matches_holds(first, selectors, selectors.len(), which, path.skip(top));
    lemma_find_all_visits(root, selectors, path.take(top), path.skip(top));
    assert(path.take(top) + path.skip(top) =~= path);
}

/// A path that follows a chain is among what the chain gives.
pub proof fn lemma_chain_matches_complete(
    root: ElementView,
    chain: Seq<BasicSelectorView>,
    path: Seq<int>,
    depths: Seq<int>,
)
    requires
        follows_chain(root, chain, path, depths),
    ensures
        chain_matches(root, chain).contains(path),
{
    lemma_chain_follows(root, chain, path, depths, 0, 0);
    assert(path.take(0) =~= Seq::<int>::empty());
    assert(path.skip(0) =~= path);
    assert(chain.skip(0) =~= chain);
}

/// A path among what a chain gives among the first nodes of a list starts
/// with the index of one of them, an element, and goes on with a path that
/// the chain gives at that element.
pub proof fn lemma_chain_matches_among_parts(
    nodes: Seq<NodeView>,
    chain: Seq<BasicSelectorView>,
    count: nat,
    path: Seq<int>,
)
    requires
        chain_matches_among(nodes, chain, count).contains(path),
    ensures
        path.len() > 0,
        0 <= path[0] < count <= nodes.len(),
        nodes[path[0]] is Element,
        chain_matches(nodes[path[0]]->Element_0, chain).contains(path.drop_first()),
    decreases count,
{
    let paths = chain_matches_among(nodes, chain, count);
    let at = choose|at: int| 0 <= at < paths.len() && paths[at] == path;
    let before = chain_matches_among(nodes, chain, (count - 1) as nat);
    if at < before.len() {
        assert(before[at] == path);
        lemma_chain_matches_among_parts(nodes, chain, (count - 1) as nat, path);
    } else {
        let deeper = chain_matches(nodes[count - 1]->Element_0, chain);
        let inner = deeper[at - before.len()];
        assert(path == seq![count - 1] + inner);
        assert(path.drop_first() =~= inner);
    }
}

/// The elements on a path that starts with the index of a child are, from
/// depth one on, those on the rest of the path from that child.
proof fn lemma_one_level_down(
    element: ElementView,
    path: Seq<int>,
    depth: int,
    selector: BasicSelectorView,
)
    requires
        path.len() > 0,
        0 <= path[0] < element.children.len(),
        element.children[path[0]] is Element,
        1 <= depth <= path.len(),
    ensures
        matches_at_depth(element, path, depth, selector) == matches_at_depth(
            element.children[path[0]]->Element_0,
            path.drop_first(),
            depth - 1,
            selector,
        ),
{
    assert(path.take(depth).drop_first() =~= path.drop_first().take(depth - 1));
    assert(path.take(depth)[0] == path[0]);
}

/// A path among what a chain gives follows the chain: there are depths at
/// which its elements match the selectors of the chain, each at the first
/// element on the way down that matches it.
pub proof fn lemma_chain_matches_exact(
    element: ElementView,
    chain: Seq<BasicSelectorView>,
    path: Seq<int>,
) -> (depths: Seq<int>)
    requires
        chain_matches(element, chain).contains(path),
    ensures
        follows_chain(element, chain, path, depths),
    decreases element,
{
    let paths = chain_matches(element, chain);
    let at = choose|at: int| 0 <= at < paths.len() && paths[at] == path;
    assert(path.take(0) =~= Seq::<int>::empty());
    if element_matches(element, chain[0]) && chain.len() == 1 {
        assert(path.len() == 0);
        let depths = seq![0int];
        assert(matches_at_depth(element, path, 0, chain[0]));
        assert(follows_chain(element, chain, path, depths));
        depths
    } else {
        let matched = element_matches(element, chain[0]);
        let rest = if matched {
            chain.drop_first()
        } else {
            chain
        };
        lemma_chain_matches_among_parts(element.children, rest, element.children.len(), path);
        let child = element.children[path[0]]->Element_0;
        let inner = path.drop_first();
        let below = lemma_chain_matches_exact(child, rest, inner);
        let shifted = Seq::new(below.len(), |j: int| below[j] + 1);
        let depths = if matched {
            seq![0int] + shifted
        } else {
            shifted
        };
        let lead: int = if matched {
            1
        } else {
            0
        };
        assert(depths.len() == chain.len());
        assert forall|j: int| lead <= j < depths.len() implies depths[j] == below[j - lead] + 1
            && chain[j] == rest[j - lead] by {}
        assert(node_at(element, path) == node_at(child, inner));
        assert(depths.last() == path.len());
        assert forall|i: int, j: int| 0 <= i < j < depths.len() implies depths[i] < depths[j] by {
            if i >= lead {
                assert(below[i - lead] < below[j - lead]);
            }
        }
        assert forall|j: int| 0 <= j < depths.len() implies #[trigger] matches_at_depth(
            element,
            path,
            depths[j],
            chain[j],
        ) by {
            if j >= lead {
                assert(matches_at_depth(child, inner, below[j - lead], rest[j - lead]));
                lemma_one_level_down(element, path, depths[j], chain[j]);
            }
        }
        assert forall|j: int, depth: int|
            1 <= j < depths.len() && depths[j - 1] < depth < depths[j] implies !#[trigger] matches_at_depth(
            element,
            path,
            depth,
            chain[j],
        ) by {
            lemma_one_level_down(element, path, depth, chain[j]);
            if j - lead >= 1 {
                assert(below[j - lead - 1] < depth - 1 < below[j - lead]);
                assert(!matches_at_depth(child, inner, depth - 1, rest[j - lead]));
            } else {
                assert(0 <= depth - 1 < below[0]);
                assert(!matches_at_depth(child, inner, depth - 1, rest[0]));
            }
        }
        assert forall|above: int| 0 <= above < depths[0] implies !#[trigger] matches_at_depth(
            element,
            path,
            above,
            chain[0],
        ) by {
            if above >= 1 {
                lemma_one_level_down(element, path, above, chain[0]);
                assert(!matches_at_depth(child, inner, above - 1, rest[0]));
            }
        }
        assert(follows_chain(element, chain, path, depths));
        depths
    }
}

/// What a chain gives at an element is exactly the paths that follow the
/// chain from it.
pub proof fn lemma_chain_matches_characterized(
    element: ElementView,
    chain: Seq<BasicSelectorView>,
    path: Seq<int>,
)
    ensures
        chain_matches(element, chain).contains(path) <==> exists|depths: Seq<int>|
            follows_chain(element, chain, path, depths),
{
    if chain_matches(element, chain).contains(path) {
        let depths = lemma_chain_matches_exact(element, chain, path);
        assert(follows_chain(element, chain, path, depths));
    }
    if exists|depths: Seq<int>| follows_chain(element, chain, path, depths) {
        let depths = choose|depths: Seq<int>| follows_chain(element, chain, path, depths);
        lemma_chain_matches_complete(element, chain, path, depths);
    }
}

} // verus!
