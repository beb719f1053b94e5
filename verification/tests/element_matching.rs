use html_query::matcher::element_matches_basic_selector;
use html_query::{BasicSelector, Element, Node};

fn element(name: &str, id: Option<&str>, classes: &[&str], children: Vec<Node>) -> Element {
    Element {
        id: id.map(|id| id.to_string()),
        name: name.to_string(),
        classes: classes.iter().map(|class| class.to_string()).collect(),
        children,
    }
}

fn names(list: &[&str]) -> Vec<String> {
    list.iter().map(|name| name.to_string()).collect()
}

#[test]
fn all_matches_every_element() {
    let plain = element("div", None, &[], vec![]);
    let full = element("li", Some("x"), &["a", "b"], vec![Node::Text("t".to_string())]);
    let nameless = element("", None, &[], vec![]);
    assert!(element_matches_basic_selector(&plain, &BasicSelector::All));
    assert!(element_matches_basic_selector(&full, &BasicSelector::All));
    assert!(element_matches_basic_selector(&nameless, &BasicSelector::All));
}

#[test]
fn tag_matches_by_exact_name() {
    let li = element("li", Some("li"), &["li"], vec![]);
    assert!(element_matches_basic_selector(&li, &BasicSelector::Element("li".to_string())));
    assert!(!element_matches_basic_selector(&li, &BasicSelector::Element("LI".to_string())));
    assert!(!element_matches_basic_selector(&li, &BasicSelector::Element("l".to_string())));
    assert!(!element_matches_basic_selector(&li, &BasicSelector::Element("lii".to_string())));
    assert!(!element_matches_basic_selector(&li, &BasicSelector::Element("ul".to_string())));
}

#[test]
fn id_matches_only_an_element_with_that_id() {
    let with_id = element("div", Some("main"), &[], vec![]);
    let without_id = element("main", None, &["main"], vec![]);
    assert!(element_matches_basic_selector(&with_id, &BasicSelector::Id("main".to_string())));
    assert!(!element_matches_basic_selector(&with_id, &BasicSelector::Id("Main".to_string())));
    assert!(!element_matches_basic_selector(&with_id, &BasicSelector::Id("div".to_string())));
    assert!(!element_matches_basic_selector(&without_id, &BasicSelector::Id("main".to_string())));
}

#[test]
fn class_matches_any_of_the_classes() {
    let li = element("li", None, &["item", "extra", "item"], vec![]);
    assert!(element_matches_basic_selector(&li, &BasicSelector::Class("item".to_string())));
    assert!(element_matches_basic_selector(&li, &BasicSelector::Class("extra".to_string())));
    assert!(!element_matches_basic_selector(&li, &BasicSelector::Class("missing".to_string())));
    assert!(!element_matches_basic_selector(&li, &BasicSelector::Class("li".to_string())));
    let bare = element("li", None, &[], vec![]);
    assert!(!element_matches_basic_selector(&bare, &BasicSelector::Class("item".to_string())));
}

#[test]
fn tag_with_classes_needs_all_of_them() {
    let li = element("li", None, &["item", "extra"], vec![]);
    let both = BasicSelector::ElementWithClasses("li".to_string(), names(&["item", "extra"]));
    let swapped = BasicSelector::ElementWithClasses("li".to_string(), names(&["extra", "item"]));
    let one = BasicSelector::ElementWithClasses("li".to_string(), names(&["extra"]));
    let missing = BasicSelector::ElementWithClasses("li".to_string(), names(&["item", "missing"]));
    let other_tag = BasicSelector::ElementWithClasses("ul".to_string(), names(&["item", "extra"]));
    assert!(element_matches_basic_selector(&li, &both));
    assert!(element_matches_basic_selector(&li, &swapped));
    assert!(element_matches_basic_selector(&li, &one));
    assert!(!element_matches_basic_selector(&li, &missing));
    assert!(!element_matches_basic_selector(&li, &other_tag));
}

#[test]
fn id_with_classes_needs_all_of_them() {
    let div = element("div", Some("main"), &["a", "b"], vec![]);
    let both = BasicSelector::IdWithClasses("main".to_string(), names(&["a", "b"]));
    let missing = BasicSelector::IdWithClasses("main".to_string(), names(&["a", "c"]));
    let other_id = BasicSelector::IdWithClasses("side".to_string(), names(&["a"]));
    assert!(element_matches_basic_selector(&div, &both));
    assert!(!element_matches_basic_selector(&div, &missing));
    assert!(!element_matches_basic_selector(&div, &other_id));
    let no_id = element("div", None, &["a", "b"], vec![]);
    assert!(!element_matches_basic_selector(&no_id, &both));
}

#[test]
fn class_list_needs_all_of_them() {
    let li = element("li", Some("x"), &["item", "extra"], vec![]);
    assert!(element_matches_basic_selector(
        &li,
        &BasicSelector::ClassList(names(&["item", "extra"]))
    ));
    assert!(element_matches_basic_selector(
        &li,
        &BasicSelector::ClassList(names(&["extra", "extra"]))
    ));
    assert!(!element_matches_basic_selector(
        &li,
        &BasicSelector::ClassList(names(&["item", "extra", "more"]))
    ));
}

#[test]
fn empty_list_of_classes_asks_for_nothing() {
    let li = element("li", None, &[], vec![]);
    assert!(element_matches_basic_selector(&li, &BasicSelector::ClassList(vec![])));
    assert!(element_matches_basic_selector(
        &li,
        &BasicSelector::ElementWithClasses("li".to_string(), vec![])
    ));
}

#[test]
fn children_do_not_matter_to_a_match() {
    let inner = element("li", Some("in"), &["item"], vec![]);
    let outer = element("ul", None, &[], vec![Node::Element(inner)]);
    assert!(!element_matches_basic_selector(&outer, &BasicSelector::Element("li".to_string())));
    assert!(!element_matches_basic_selector(&outer, &BasicSelector::Class("item".to_string())));
    assert!(!element_matches_basic_selector(&outer, &BasicSelector::Id("in".to_string())));
}
