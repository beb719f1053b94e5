//! Testing one element against one basic selector.

use vstd::prelude::*;
use crate::dom::{Element, ElementView, string_set};
use crate::selector::{BasicSelector, BasicSelectorView, strings_view};

verus! {

/// Whether an element carries every class of a list.
pub open spec fn has_all_classes(element: ElementView, classes: Seq<Seq<char>>) -> bool {
    forall|i: int| 0 <= i < classes.len() ==> element.classes.contains(#[trigger] classes[i])
}

/// Whether an element satisfies a basic selector. Ids, tag names and classes
/// are compared character by character.
pub open spec fn element_matches(element: ElementView, selector: BasicSelectorView) -> bool {
    match selector {
        BasicSelectorView::All => true,
        BasicSelectorView::Id(id) => element.id == Some(id),
        BasicSelectorView::Element(tag) => element.name == tag,
        BasicSelectorView::Class(class) => element.classes.contains(class),
        BasicSelectorView::IdWithClasses(id, classes) => element.id == Some(id) && has_all_classes(
            element,
            classes,
        ),
        BasicSelectorView::ElementWithClasses(tag, classes) => element.name == tag
            && has_all_classes(element, classes),
        BasicSelectorView::ClassList(classes) => has_all_classes(element, classes),
    }
}

/// Whether `class` is one of `classes`.
fn has_class(classes: &Vec<String>, class: &String) -> (found: bool)
    ensures
        found == string_set(classes@).contains(class@),
{
    let mut i: usize = 0;
    while i < classes.len()
        invariant
            i <= classes.len(),
            forall|k: int| 0 <= k < i ==> classes@[k]@ != class@,
        decreases classes.len() - i,
    {
        if classes[i] == *class {
            return true;
        }
        i += 1;
    }
    false
}

/// Whether every string of `wanted` is one of `classes`.
fn has_classes(classes: &Vec<String>, wanted: &Vec<String>) -> (all: bool)
    ensures
        all == (forall|i: int|
            0 <= i < wanted.len() ==> string_set(classes@).contains(
                #[trigger] strings_view(wanted@)[i],
            )),
{
    let mut i: usize = 0;
    while i < wanted.len()
        invariant
            i <= wanted.len(),
            forall|k: int|
                0 <= k < i ==> string_set(classes@).contains(#[trigger] strings_view(wanted@)[k]),
        decreases wanted.len() - i,
    {
        if !has_class(classes, &wanted[i]) {
            assert(strings_view(wanted@)[i as int] == wanted@[i as int]@);
            return false;
        }
        assert(strings_view(wanted@)[i as int] == wanted@[i as int]@);
        i += 1;
    }
    true
}

/// Tests an element against a basic selector.
pub fn element_matches_basic_selector(element: &Element, basic_selector: &BasicSelector) -> (matched:
    bool)
    ensures
        matched == element_matches(element@, basic_selector@),
{
    match basic_selector {
        BasicSelector::All => true,
        BasicSelector::Id(id) => match &element.id {
            Some(element_id) => *id == *element_id,
            None => false,
        },
        BasicSelector::Element(tag) => *tag == element.name,
        BasicSelector::Class(class) => has_class(&element.classes, class),
        BasicSelector::IdWithClasses(id, class_list) => match &element.id {
            Some(element_id) => *id == *element_id && has_classes(&element.classes, class_list),
            None => false,
        },
        BasicSelector::ElementWithClasses(tag, class_list) => *tag == element.name && has_classes(
            &element.classes,
            class_list,
        ),
        BasicSelector::ClassList(class_list) => has_classes(&element.classes, class_list),
    }
}

/// `*` matches every element.
pub proof fn lemma_universal_matches(element: ElementView)
    ensures
        element_matches(element, BasicSelectorView::All),
{
}

/// A tag name matches exactly the elements of that name.
pub proof fn lemma_tag_matches_by_name(element: ElementView, tag: Seq<char>)
    ensures
        element_matches(element, BasicSelectorView::Element(tag)) <==> element.name == tag,
{
}

/// A compound asks for all of its parts at once: an element matches it
/// exactly when it matches the tag name or the id alone, if there is one,
/// and each of the classes alone.
pub proof fn lemma_compound_needs_every_part(
    element: ElementView,
    anchor: Seq<char>,
    classes: Seq<Seq<char>>,
)
    ensures
        element_matches(element, BasicSelectorView::ElementWithClasses(anchor, classes)) <==> {
            &&& element_matches(element, BasicSelectorView::Element(anchor))
            &&& forall|i: int|
                0 <= i < classes.len() ==> element_matches(
                    element,
                    BasicSelectorView::Class(#[trigger] classes[i]),
                )
        },
        element_matches(element, BasicSelectorView::IdWithClasses(anchor, classes)) <==> {
            &&& element_matches(element, BasicSelectorView::Id(anchor))
            &&& forall|i: int|
                0 <= i < classes.len() ==> element_matches(
                    element,
                    BasicSelectorView::Class(#[trigger] classes[i]),
                )
        },
        element_matches(element, BasicSelectorView::ClassList(classes)) <==> forall|i: int|
            0 <= i < classes.len() ==> element_matches(
                element,
                BasicSelectorView::Class(#[trigger] classes[i]),
            ),
{
}

} // verus!
