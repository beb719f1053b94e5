//! Searching a tree for the elements that a selector list picks out.
//!
//! An element is named by its path: the indices, among all the children of
//! each element on the way, that lead to it from the element where the
//! search began. Two elements of one tree are the same element exactly when
//! their paths are equal.
//!
//! The search visits every element of the tree, parents before children and
//! children in their order, and asks at each what the selectors pick out
//! there. An element that several selectors pick out at one visit is
//! reported once for that visit. A chain is looked for anew at every visit:
//! what it picks out below an element that is not its start is picked out
//! again at the visits on the way down to the start.

use vstd::prelude::*;
use crate::dom::{
    Dom, Element, ElementView, Node, NodeView, in_document_order, lemma_children_view, nodes_view,
    path_view, paths_view,
};
use crate::laws::order::lemma_selector_matches_in_document_order;
use crate::matcher::{element_matches, element_matches_basic_selector};
use crate::selector::{
    BasicSelector, BasicSelectorView, Selector, SelectorView, chain_view, selectors_view,
};

verus! {

/// Each path of `paths` with `index` put in front of it.
pub open spec fn below(index: int, paths: Seq<Seq<int>>) -> Seq<Seq<int>> {
    Seq::new(paths.len(), |k: int| seq![index] + paths[k])
}

/// Each path of `paths` with the path `prefix` put in front of it.
pub open spec fn under(prefix: Seq<int>, paths: Seq<Seq<int>>) -> Seq<Seq<int>> {
    Seq::new(paths.len(), |k: int| prefix + paths[k])
}

/// What a descendant chain picks out at `element`, as paths from it.
///
/// Where the element matches the first selector of the chain, the rest of the
/// chain is looked for below it, or the element itself is the result if
/// nothing is left. Where it does not, the whole chain is looked for below.
pub open spec fn chain_matches(element: ElementView, chain: Seq<BasicSelectorView>) -> Seq<
    Seq<int>,
>
    decreases element, 0nat,
{
    if chain.len() == 0 {
        Seq::empty()
    } else if !element_matches(element, chain[0]) {
        chain_matches_among(element.children, chain, element.children.len())
    } else if chain.len() == 1 {
        seq![Seq::empty()]
    } else {
        chain_matches_among(element.children, chain.drop_first(), element.children.len())
    }
}

/// What a descendant chain picks out at the elements among the first `count`
/// nodes of `nodes`, in their order; each path starts with the node's index.
pub open spec fn chain_matches_among(
    nodes: Seq<NodeView>,
    chain: Seq<BasicSelectorView>,
    count: nat,
) -> Seq<Seq<int>>
    decreases nodes, count,
{
    if count == 0 || count > nodes.len() {
        Seq::empty()
    } else {
        let index = count - 1;
        let before = chain_matches_among(nodes, chain, index as nat);
        match nodes[index] {
            NodeView::Element(child) => before + below(index, chain_matches(child, chain)),
            _ => before,
        }
    }
}

/// What one selector picks out at `element`, as paths from it.
pub open spec fn selector_matches(element: ElementView, selector: SelectorView) -> Seq<Seq<int>> {
    match selector {
        SelectorView::Basic(basic) => if element_matches(element, basic) {
            seq![Seq::empty()]
        } else {
            Seq::empty()
        },
        SelectorView::Hierarchical(chain) => chain_matches(element, chain),
    }
}

/// `found`, followed by the paths of `more` that are not yet there, in their
/// order: no path is added twice.
pub open spec fn append_new(found: Seq<Seq<int>>, more: Seq<Seq<int>>) -> Seq<Seq<int>>
    decreases more.len(),
{
    if more.len() == 0 {
        found
    } else {
        let sofar = append_new(found, more.drop_last());
        if sofar.contains(more.last()) {
            sofar
        } else {
            sofar.push(more.last())
        }
    }
}

/// What the first `count` selectors of a list pick out at `element` itself:
/// the results of each in turn, without those that an earlier one gave.
pub open spec fn frame_matches(element: ElementView, selectors: Seq<SelectorView>, count: nat) -> Seq<
    Seq<int>,
>
    decreases count,
{
    if count == 0 || count > selectors.len() {
        Seq::empty()
    } else {
        append_new(
            frame_matches(element, selectors, (count - 1) as nat),
            selector_matches(element, selectors[count - 1]),
        )
    }
}

/// What a selector list picks out in the tree of `element`, as paths from
/// it: first what it picks out at `element` itself, then what it picks out in
/// the tree of each child element, in the children's order.
pub open spec fn find_all(element: ElementView, selectors: Seq<SelectorView>) -> Seq<Seq<int>>
    decreases element, 0nat,
{
    frame_matches(element, selectors, selectors.len()) + find_among(
        element.children,
        selectors,
        element.children.len(),
    )
}

/// What a selector list picks out in the trees of the elements among the
/// first `count` nodes of `nodes`; each path starts with the node's index.
pub open spec fn find_among(nodes: Seq<NodeView>, selectors: Seq<SelectorView>, count: nat) -> Seq<
    Seq<int>,
>
    decreases nodes, count,
{
    if count == 0 || count > nodes.len() {
        Seq::empty()
    } else {
        let index = count - 1;
        let before = find_among(nodes, selectors, index as nat);
        match nodes[index] {
            NodeView::Element(child) => before + below(index, find_all(child, selectors)),
            _ => before,
        }
    }
}

/// Putting a prefix in front of two lists in a row is putting it in front of
/// each.
proof fn lemma_under_concat(prefix: Seq<int>, first: Seq<Seq<int>>, second: Seq<Seq<int>>)
    ensures
        under(prefix, first + second) == under(prefix, first) + under(prefix, second),
{
    assert(under(prefix, first + second) =~= under(prefix, first) + under(prefix, second));
}

/// An index put in front, and a prefix in front of that, is the prefix with
/// the index at its end put in front.
proof fn lemma_under_below(prefix: Seq<int>, index: int, paths: Seq<Seq<int>>)
    ensures
        under(prefix, below(index, paths)) == under(prefix.push(index), paths),
{
    assert forall|k: int| 0 <= k < paths.len() implies prefix + (seq![index] + paths[k])
        == prefix.push(index) + paths[k] by {
        assert(prefix + (seq![index] + paths[k]) =~= prefix.push(index) + paths[k]);
    }
    assert(under(prefix, below(index, paths)) =~= under(prefix.push(index), paths));
}

/// The empty prefix changes nothing.
proof fn lemma_under_nothing(paths: Seq<Seq<int>>)
    ensures
        under(Seq::empty(), paths) == paths,
{
    assert forall|k: int| 0 <= k < paths.len() implies Seq::<int>::empty() + paths[k]
        == paths[k] by {
        assert(Seq::<int>::empty() + paths[k] =~= paths[k]);
    }
    assert(under(Seq::empty(), paths) =~= paths);
}

/// A copy of a path.
fn copy_path(path: &Vec<usize>) -> (copy: Vec<usize>)
    ensures
        copy@ == path@,
{
    path.clone()
}

/// Adds to `found` what the chain `chain[from..]` picks out at `element`,
/// each path behind `prefix`.
fn collect_chain(
    element: &Element,
    chain: &Vec<BasicSelector>,
    from: usize,
    prefix: &mut Vec<usize>,
    found: &mut Vec<Vec<usize>>,
)
    requires
        from <= chain.len(),
    ensures
        final(prefix)@ == old(prefix)@,
        paths_view(final(found)@) == paths_view(old(found)@) + under(
            path_view(old(prefix)@),
            chain_matches(element@, chain_view(chain@).skip(from as int)),
        ),
    decreases element,
{
    let ghost start = prefix@;
    let ghost before = paths_view(found@);
    let ghost rest = chain_view(chain@).skip(from as int);
    if from >= chain.len() {
        assert(paths_view(found@) =~= before + under(
            path_view(start),
            chain_matches(element@, rest),
        ));
        return ;
    }
    assert(rest[0] == chain@[from as int]@);
    let here = element_matches_basic_selector(element, &chain[from]);
    if here && from + 1 == chain.len() {
        found.push(copy_path(prefix));
        assert(paths_view(found@) =~= before + under(
            path_view(start),
            chain_matches(element@, rest),
        )) by {
            assert(path_view(start) + Seq::<int>::empty() =~= path_view(start));
        }
        return ;
    }
    let next = if here {
        from + 1
    } else {
        from
    };
    let ghost sought = chain_view(chain@).skip(next as int);
    assert(here ==> sought =~= rest.drop_first());
    let count = element.children.len();
    let mut i: usize = 0;
    proof {
        lemma_children_view(*element);
    }
    while i < count
        invariant
            i <= count,
            count == element.children.len(),
            element@.children == nodes_view(element.children@),
            next <= chain.len(),
            sought == chain_view(chain@).skip(next as int),
            prefix@ == start,
            paths_view(found@) == before + under(
                path_view(start),
                chain_matches_among(element@.children, sought, i as nat),
            ),
        decreases count - i,
    {
        let ghost sofar = chain_matches_among(element@.children, sought, i as nat);
        match &element.children[i] {
            Node::Element(child) => {
                prefix.push(i);
                collect_chain(child, chain, next, prefix, found);
                prefix.pop();
                proof {
                    let deeper = chain_matches(child@, sought);
                    assert(element@.children[i as int] == NodeView::Element(child@));
                    assert(path_view(start.push(i)) =~= path_view(start).push(i as int));
                    lemma_under_below(path_view(start), i as int, deeper);
                    lemma_under_concat(path_view(start), sofar, below(i as int, deeper));
                    assert(prefix@ =~= start);
                }
            },
            _ => {
                assert(!(element@.children[i as int] is Element));
            },
        }
        i += 1;
    }
}

/// The elements that one selector picks out at `element`, in document order,
/// each as its path from `element`.
pub fn find_elements_for_selector(element: &Element, selector: &Selector) -> (paths: Vec<
    Vec<usize>,
>)
    ensures
        paths_view(paths@) == selector_matches(element@, selector@),
        in_document_order(paths_view(paths@)),
{
    proof {
        lemma_selector_matches_in_document_order(element@, selector@);
    }
    let mut paths: Vec<Vec<usize>> = Vec::new();
    match selector {
        Selector::Basic(basic_selector) => {
            if element_matches_basic_selector(element, basic_selector) {
                paths.push(Vec::new());
                assert(path_view(paths@[0]@) =~= Seq::<int>::empty());
            }
            assert(paths_view(paths@) =~= selector_matches(element@, selector@));
        },
        Selector::Hierarchical(basic_selectors) => {
            let mut prefix: Vec<usize> = Vec::new();
            collect_chain(element, basic_selectors, 0, &mut prefix, &mut paths);
            proof {
                assert(chain_view(basic_selectors@).skip(0) =~= chain_view(basic_selectors@));
                lemma_under_nothing(chain_matches(element@, chain_view(basic_selectors@)));
                assert(path_view(Seq::<usize>::empty()) =~= Seq::<int>::empty());
                assert(paths_view(Seq::<Vec<usize>>::empty()) =~= Seq::<Seq<int>>::empty());
            }
        },
    }
    paths
}

/// Whether two paths are equal.
fn same_path(first: &Vec<usize>, second: &Vec<usize>) -> (same: bool)
    ensures
        same == (path_view(first@) == path_view(second@)),
{
    if first.len() != second.len() {
        assert(path_view(first@).len() != path_view(second@).len());
        return false;
    }
    let mut i: usize = 0;
    while i < first.len()
        invariant
            i <= first.len(),
            first.len() == second.len(),
            forall|k: int| 0 <= k < i ==> first@[k] == second@[k],
        decreases first.len() - i,
    {
        if first[i] != second[i] {
            assert(path_view(first@)[i as int] != path_view(second@)[i as int]);
            return false;
        }
        i += 1;
    }
    assert(path_view(first@) =~= path_view(second@));
    true
}

/// Whether `path` is one of `paths`.
fn has_path(paths: &Vec<Vec<usize>>, path: &Vec<usize>) -> (present: bool)
    ensures
        present == paths_view(paths@).contains(path_view(path@)),
{
    let mut i: usize = 0;
    while i < paths.len()
        invariant
            i <= paths.len(),
            forall|k: int| 0 <= k < i ==> paths_view(paths@)[k] != path_view(path@),
        decreases paths.len() - i,
    {
        if same_path(&paths[i], path) {
            assert(paths_view(paths@)[i as int] == path_view(path@));
            return true;
        }
        i += 1;
    }
    false
}

/// Adds to `frame` the paths of `hits` that it does not hold yet.
fn add_new(frame: &mut Vec<Vec<usize>>, hits: &Vec<Vec<usize>>)
    ensures
        paths_view(final(frame)@) == append_new(paths_view(old(frame)@), paths_view(hits@)),
{
    let ghost more = paths_view(hits@);
    let ghost start = paths_view(frame@);
    let mut i: usize = 0;
    assert(more.take(0) =~= Seq::empty());
    while i < hits.len()
        invariant
            i <= hits.len(),
            more == paths_view(hits@),
            paths_view(frame@) == append_new(start, more.take(i as int)),
        decreases hits.len() - i,
    {
        let ghost sofar = paths_view(frame@);
        assert(more.take(i + 1).drop_last() =~= more.take(i as int));
        assert(more.take(i + 1).last() == path_view(hits@[i as int]@));
        if !has_path(frame, &hits[i]) {
            frame.push(copy_path(&hits[i]));
            assert(paths_view(frame@) =~= sofar.push(path_view(hits@[i as int]@)));
        }
        i += 1;
    }
    assert(more.take(hits.len() as int) =~= more);
}

/// The path `prefix` followed by the path `path`.
fn join_paths(prefix: &Vec<usize>, path: &Vec<usize>) -> (joined: Vec<usize>)
    ensures
        path_view(joined@) == path_view(prefix@) + path_view(path@),
{
    let mut joined = copy_path(prefix);
    let mut i: usize = 0;
    while i < path.len()
        invariant
            i <= path.len(),
            joined@ == prefix@ + path@.take(i as int),
        decreases path.len() - i,
    {
        joined.push(path[i]);
        assert(joined@ =~= prefix@ + path@.take(i + 1));
        i += 1;
    }
    assert(path@.take(path.len() as int) =~= path@);
    assert(path_view(joined@) =~= path_view(prefix@) + path_view(path@));
    joined
}

/// Adds to `found` what the selector list picks out in the tree of
/// `element`, each path behind `prefix`.
fn collect_all(
    element: &Element,
    selectors: &Vec<Selector>,
    prefix: &mut Vec<usize>,
    found: &mut Vec<Vec<usize>>,
)
    ensures
        final(prefix)@ == old(prefix)@,
        paths_view(final(found)@) == paths_view(old(found)@) + under(
            path_view(old(prefix)@),
            find_all(element@, selectors_view(selectors@)),
        ),
    decreases element,
{
    let ghost start = prefix@;
    let ghost before = paths_view(found@);
    let ghost sought = selectors_view(selectors@);
    let mut frame: Vec<Vec<usize>> = Vec::new();
    let mut s: usize = 0;
    assert(paths_view(frame@) =~= Seq::<Seq<int>>::empty());
    while s < selectors.len()
        invariant
            s <= selectors.len(),
            sought == selectors_view(selectors@),
            paths_view(frame@) == frame_matches(element@, sought, s as nat),
        decreases selectors.len() - s,
    {
        let hits = find_elements_for_selector(element, &selectors[s]);
        add_new(&mut frame, &hits);
        s += 1;
    }
    let ghost here = paths_view(frame@);
    let mut j: usize = 0;
    assert(before =~= before + under(path_view(start), here.take(0)));
    while j < frame.len()
        invariant
            j <= frame.len(),
            prefix@ == start,
            here == paths_view(frame@),
            paths_view(found@) == before + under(path_view(start), here.take(j as int)),
        decreases frame.len() - j,
    {
        let ghost sofar = paths_view(found@);
        found.push(join_paths(prefix, &frame[j]));
        assert(paths_view(found@) =~= sofar.push(path_view(start) + here[j as int]));
        assert(under(path_view(start), here.take(j + 1)) =~= under(
            path_view(start),
            here.take(j as int),
        ).push(path_view(start) + here[j as int]));
        j += 1;
    }
    assert(here.take(frame.len() as int) =~= here);
    let count = element.children.len();
    let mut i: usize = 0;
    proof {
        lemma_children_view(*element);
        assert(under(path_view(start), here) =~= under(path_view(start), here) + under(
            path_view(start),
            find_among(element@.children, sought, 0),
        ));
    }
    while i < count
        invariant
            i <= count,
            count == element.children.len(),
            element@.children == nodes_view(element.children@),
            sought == selectors_view(selectors@),
            prefix@ == start,
            paths_view(found@) == before + (under(path_view(start), here) + under(
                path_view(start),
                find_among(element@.children, sought, i as nat),
            )),
        decreases count - i,
    {
        let ghost sofar = find_among(element@.children, sought, i as nat);
        match &element.children[i] {
            Node::Element(child) => {
                prefix.push(i);
                collect_all(child, selectors, prefix, found);
                prefix.pop();
                proof {
                    let deeper = find_all(child@, sought);
                    assert(element@.children[i as int] == NodeView::Element(child@));
                    assert(path_view(start.push(i)) =~= path_view(start).push(i as int));
                    lemma_under_below(path_view(start), i as int, deeper);
                    lemma_under_concat(path_view(start), sofar, below(i as int, deeper));
                    assert(prefix@ =~= start);
                }
            },
            _ => {
                assert(!(element@.children[i as int] is Element));
            },
        }
        i += 1;
    }
    proof {
        lemma_under_concat(
            path_view(start),
            here,
            find_among(element@.children, sought, count as nat),
        );
    }
}

/// The elements that a selector list picks out in the tree of `element`,
/// each as its path from `element`: first those that it picks out at
/// `element` itself, then those in the tree of each child element.
pub fn find_elements(element: &Element, selectors: &Vec<Selector>) -> (paths: Vec<Vec<usize>>)
    ensures
        paths_view(paths@) == find_all(element@, selectors_view(selectors@)),
{
    let mut paths: Vec<Vec<usize>> = Vec::new();
    let mut prefix: Vec<usize> = Vec::new();
    collect_all(element, selectors, &mut prefix, &mut paths);
    proof {
        let picked = find_all(element@, selectors_view(selectors@));
        lemma_under_nothing(picked);
        assert(path_view(Seq::<usize>::empty()) =~= Seq::<int>::empty());
        assert(paths_view(Seq::<Vec<usize>>::empty()) =~= Seq::<Seq<int>>::empty());
    }
    paths
}

/// The elements that a selector list picks out in a whole document, each as
/// its path from the top level: what it picks out in the tree of each
/// top-level element, in their order.
pub fn find_elements_in(dom: &Dom, selectors: &Vec<Selector>) -> (paths: Vec<Vec<usize>>)
    ensures
        paths_view(paths@) == find_among(dom@, selectors_view(selectors@), dom@.len()),
{
    let ghost sought = selectors_view(selectors@);
    let mut paths: Vec<Vec<usize>> = Vec::new();
    let mut prefix: Vec<usize> = Vec::new();
    let count = dom.children.len();
    let mut i: usize = 0;
    assert(paths_view(paths@) =~= find_among(dom@, sought, 0));
    while i < count
        invariant
            i <= count,
            count == dom.children.len(),
            sought == selectors_view(selectors@),
            prefix@.len() == 0,
            paths_view(paths@) == find_among(dom@, sought, i as nat),
        decreases count - i,
    {
        let ghost sofar = paths_view(paths@);
        match &dom.children[i] {
            Node::Element(child) => {
                prefix.push(i);
                let ghost start = prefix@;
                collect_all(child, selectors, &mut prefix, &mut paths);
                prefix.pop();
                proof {
                    let deeper = find_all(child@, sought);
                    assert(dom@[i as int] == NodeView::Element(child@));
                    assert(path_view(start) =~= Seq::<int>::empty().push(i as int));
                    lemma_under_below(Seq::empty(), i as int, deeper);
                    lemma_under_nothing(below(i as int, deeper));
                }
            },
            _ => {
                assert(!(dom@[i as int] is Element));
            },
        }
        i += 1;
    }
    paths
}

} // verus!
