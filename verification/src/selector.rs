//! Parsed selectors and their models.

use vstd::prelude::*;
use crate::text::is_name;

verus! {

/// A selector that is tested against a single element.
#[derive(Debug, PartialEq, Eq)]
pub enum BasicSelector {
    /// `*`: any element.
    All,
    /// `#id`: the element's id.
    Id(String),
    /// `tag`: the element's tag name.
    Element(String),
    /// `.class`: one class of the element.
    Class(String),
    /// `#id.a.b`: the id together with every listed class.
    IdWithClasses(String, Vec<String>),
    /// `tag.a.b`: the tag name together with every listed class.
    ElementWithClasses(String, Vec<String>),
    /// `.a.b`: every listed class.
    ClassList(Vec<String>),
}

/// One alternative of a selector list.
#[derive(Debug, PartialEq, Eq)]
pub enum Selector {
    /// A single basic selector.
    Basic(BasicSelector),
    /// A descendant chain: each basic selector is looked for below an
    /// element that matched the one before it.
    Hierarchical(Vec<BasicSelector>),
}

/// The model of a basic selector.
pub ghost enum BasicSelectorView {
    All,
    Id(Seq<char>),
    Element(Seq<char>),
    Class(Seq<char>),
    IdWithClasses(Seq<char>, Seq<Seq<char>>),
    ElementWithClasses(Seq<char>, Seq<Seq<char>>),
    ClassList(Seq<Seq<char>>),
}

/// The model of a selector.
pub ghost enum SelectorView {
    Basic(BasicSelectorView),
    Hierarchical(Seq<BasicSelectorView>),
}

/// Whether every text of a list can stand as a name.
pub open spec fn are_names(texts: Seq<Seq<char>>) -> bool {
    forall|i: int| 0 <= i < texts.len() ==> is_name(#[trigger] texts[i])
}

impl BasicSelectorView {
    /// Whether the selector is one that the grammar can write: its tag name,
    /// id and classes are names, a tag name or an id with classes has at
    /// least one class, and a list of classes has at least two.
    pub open spec fn well_formed(self) -> bool {
        match self {
            BasicSelectorView::All => true,
            BasicSelectorView::Id(id) => is_name(id),
            BasicSelectorView::Element(tag) => is_name(tag),
            BasicSelectorView::Class(class) => is_name(class),
            BasicSelectorView::IdWithClasses(id, classes) => is_name(id) && classes.len() >= 1
                && are_names(classes),
            BasicSelectorView::ElementWithClasses(tag, classes) => is_name(tag) && classes.len()
                >= 1 && are_names(classes),
            BasicSelectorView::ClassList(classes) => classes.len() >= 2 && are_names(classes),
        }
    }
}

impl SelectorView {
    /// Whether the selector is one that the grammar can write: its basic
    /// selectors are, and a chain has at least two of them.
    pub open spec fn well_formed(self) -> bool {
        match self {
            SelectorView::Basic(basic) => basic.well_formed(),
            SelectorView::Hierarchical(chain) => chain.len() >= 2 && forall|i: int|
                0 <= i < chain.len() ==> (#[trigger] chain[i]).well_formed(),
        }
    }
}

/// The strings of a list, each as a sequence of characters.
pub open spec fn strings_view(list: Seq<String>) -> Seq<Seq<char>> {
    Seq::new(list.len(), |i: int| list[i]@)
}

/// The models of a list of basic selectors.
pub open spec fn chain_view(chain: Seq<BasicSelector>) -> Seq<BasicSelectorView> {
    Seq::new(chain.len(), |i: int| chain[i]@)
}

/// The models of a list of selectors.
pub open spec fn selectors_view(selectors: Seq<Selector>) -> Seq<SelectorView> {
    Seq::new(selectors.len(), |i: int| selectors[i]@)
}

impl View for BasicSelector {
    type V = BasicSelectorView;

    open spec fn view(&self) -> BasicSelectorView {
        match self {
            BasicSelector::All => BasicSelectorView::All,
            BasicSelector::Id(id) => BasicSelectorView::Id(id@),
            BasicSelector::Element(tag) => BasicSelectorView::Element(tag@),
            BasicSelector::Class(class) => BasicSelectorView::Class(class@),
            BasicSelector::IdWithClasses(id, classes) => BasicSelectorView::IdWithClasses(
                id@,
                strings_view(classes@),
            ),
            BasicSelector::ElementWithClasses(tag, classes) => BasicSelectorView::ElementWithClasses(
                tag@,
                strings_view(classes@),
            ),
            BasicSelector::ClassList(classes) => BasicSelectorView::ClassList(strings_view(classes@)),
        }
    }
}

impl View for Selector {
    type V = SelectorView;

    open spec fn view(&self) -> SelectorView {
        match self {
            Selector::Basic(basic) => SelectorView::Basic(basic@),
            Selector::Hierarchical(chain) => SelectorView::Hierarchical(chain_view(chain@)),
        }
    }
}

/// A copy of a list of strings.
fn clone_strings(list: &Vec<String>) -> (copy: Vec<String>)
    ensures
        strings_view(copy@) == strings_view(list@),
{
    let mut copy: Vec<String> = Vec::new();
    let mut i: usize = 0;
    while i < list.len()
        invariant
            i <= list.len(),
            copy@.len() == i,
            forall|k: int| 0 <= k < i ==> copy@[k]@ == list@[k]@,
        decreases list.len() - i,
    {
        copy.push(list[i].clone());
        i += 1;
    }
    assert(strings_view(copy@) =~= strings_view(list@));
    copy
}

impl Clone for BasicSelector {
    fn clone(&self) -> (copy: Self)
        ensures
            copy@ == self@,
    {
        match self {
            BasicSelector::All => BasicSelector::All,
            BasicSelector::Id(id) => BasicSelector::Id(id.clone()),
            BasicSelector::Element(tag) => BasicSelector::Element(tag.clone()),
            BasicSelector::Class(class) => BasicSelector::Class(class.clone()),
            BasicSelector::IdWithClasses(id, classes) => BasicSelector::IdWithClasses(
                id.clone(),
                clone_strings(classes),
            ),
            BasicSelector::ElementWithClasses(tag, classes) => BasicSelector::ElementWithClasses(
                tag.clone(),
                clone_strings(classes),
            ),
            BasicSelector::ClassList(classes) => BasicSelector::ClassList(clone_strings(classes)),
        }
    }
}

} // verus!
