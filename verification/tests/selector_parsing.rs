use html_query::parser::{
    parese_complex_selector, parse_individual_selector_string, parse_selector_string,
};
use html_query::{BasicSelector, ErrorKind, QueryError, Selector};

fn strings(list: &[&str]) -> Vec<String> {
    list.iter().map(|s| s.to_string()).collect()
}

fn refused(kind: ErrorKind, offending: &str) -> QueryError {
    QueryError { kind, offending: offending.to_string() }
}

#[test]
fn individual_selector_of_each_form() {
    assert_eq!(parse_individual_selector_string("*"), Ok(BasicSelector::All));
    assert_eq!(
        parse_individual_selector_string(".item"),
        Ok(BasicSelector::Class("item".to_string()))
    );
    assert_eq!(
        parse_individual_selector_string("#myDiv"),
        Ok(BasicSelector::Id("myDiv".to_string()))
    );
    assert_eq!(
        parse_individual_selector_string("li"),
        Ok(BasicSelector::Element("li".to_string()))
    );
}

#[test]
fn individual_selector_keeps_the_name_behind_the_mark() {
    assert_eq!(
        parse_individual_selector_string(".x"),
        Ok(BasicSelector::Class("x".to_string()))
    );
    assert_eq!(
        parse_individual_selector_string("#é1"),
        Ok(BasicSelector::Id("é1".to_string()))
    );
}

#[test]
fn individual_selector_faults() {
    assert_eq!(
        parse_individual_selector_string(""),
        Err(refused(ErrorKind::EmptySelector, ""))
    );
    assert_eq!(
        parse_individual_selector_string("."),
        Err(refused(ErrorKind::EmptyClass, "."))
    );
    assert_eq!(
        parse_individual_selector_string("#"),
        Err(refused(ErrorKind::EmptyId, "#"))
    );
    assert_eq!(
        parse_individual_selector_string("##"),
        Err(refused(ErrorKind::SecondId, "##"))
    );
    assert_eq!(
        parse_individual_selector_string("#a#b"),
        Err(refused(ErrorKind::SecondId, "#a#b"))
    );
    assert_eq!(
        parse_individual_selector_string("a b"),
        Err(refused(ErrorKind::Whitespace, "a b"))
    );
    assert_eq!(
        parse_individual_selector_string(".a\u{a0}"),
        Err(refused(ErrorKind::Whitespace, ".a\u{a0}"))
    );
    assert_eq!(
        parse_individual_selector_string("a.b"),
        Err(refused(ErrorKind::StraySigil, "a.b"))
    );
    assert_eq!(
        parse_individual_selector_string("div#x"),
        Err(refused(ErrorKind::StraySigil, "div#x"))
    );
    assert_eq!(
        parse_individual_selector_string("**"),
        Err(refused(ErrorKind::StraySigil, "**"))
    );
    assert_eq!(
        parse_individual_selector_string("#a*"),
        Err(refused(ErrorKind::StraySigil, "#a*"))
    );
    assert_eq!(
        parse_individual_selector_string(".a,b"),
        Err(refused(ErrorKind::StraySigil, ".a,b"))
    );
}

#[test]
fn whitespace_comes_before_other_faults_of_a_name() {
    assert_eq!(
        parse_individual_selector_string("#a #b"),
        Err(refused(ErrorKind::Whitespace, "#a #b"))
    );
    assert_eq!(
        parse_individual_selector_string("a *"),
        Err(refused(ErrorKind::Whitespace, "a *"))
    );
}

#[test]
fn compound_of_each_form() {
    assert_eq!(parese_complex_selector("*"), Ok(BasicSelector::All));
    assert_eq!(
        parese_complex_selector("li"),
        Ok(BasicSelector::Element("li".to_string()))
    );
    assert_eq!(
        parese_complex_selector("#main"),
        Ok(BasicSelector::Id("main".to_string()))
    );
    assert_eq!(
        parese_complex_selector(".item"),
        Ok(BasicSelector::Class("item".to_string()))
    );
    assert_eq!(
        parese_complex_selector("li.item"),
        Ok(BasicSelector::ElementWithClasses("li".to_string(), strings(&["item"])))
    );
    assert_eq!(
        parese_complex_selector("li.item.extra"),
        Ok(BasicSelector::ElementWithClasses("li".to_string(), strings(&["item", "extra"])))
    );
    assert_eq!(
        parese_complex_selector("#main.a"),
        Ok(BasicSelector::IdWithClasses("main".to_string(), strings(&["a"])))
    );
    assert_eq!(
        parese_complex_selector("#main.a.b.c"),
        Ok(BasicSelector::IdWithClasses("main".to_string(), strings(&["a", "b", "c"])))
    );
    assert_eq!(
        parese_complex_selector(".item.extra"),
        Ok(BasicSelector::ClassList(strings(&["item", "extra"])))
    );
    assert_eq!(
        parese_complex_selector(".a.b.c"),
        Ok(BasicSelector::ClassList(strings(&["a", "b", "c"])))
    );
}

#[test]
fn compound_faults() {
    assert_eq!(parese_complex_selector(""), Err(refused(ErrorKind::EmptySelector, "")));
    assert_eq!(parese_complex_selector("."), Err(refused(ErrorKind::EmptyClass, ".")));
    assert_eq!(parese_complex_selector(".."), Err(refused(ErrorKind::EmptyClass, "..")));
    assert_eq!(parese_complex_selector("..a"), Err(refused(ErrorKind::EmptyClass, "..a")));
    assert_eq!(parese_complex_selector(".a."), Err(refused(ErrorKind::EmptyClass, ".a.")));
    assert_eq!(parese_complex_selector(".a..b"), Err(refused(ErrorKind::EmptyClass, ".a..b")));
    assert_eq!(parese_complex_selector("li."), Err(refused(ErrorKind::EmptyClass, "li.")));
    assert_eq!(parese_complex_selector("li..a"), Err(refused(ErrorKind::EmptyClass, "li..a")));
    assert_eq!(parese_complex_selector("#a."), Err(refused(ErrorKind::EmptyClass, "#a.")));
    assert_eq!(parese_complex_selector("#"), Err(refused(ErrorKind::EmptyId, "#")));
    assert_eq!(parese_complex_selector("#.a"), Err(refused(ErrorKind::EmptyId, "#.a")));
    assert_eq!(parese_complex_selector("##.a"), Err(refused(ErrorKind::SecondId, "##.a")));
    assert_eq!(parese_complex_selector("#a#b"), Err(refused(ErrorKind::SecondId, "#a#b")));
    assert_eq!(
        parese_complex_selector("*.foo"),
        Err(refused(ErrorKind::UniversalWithClasses, "*.foo"))
    );
    assert_eq!(
        parese_complex_selector("*."),
        Err(refused(ErrorKind::UniversalWithClasses, "*."))
    );
    assert_eq!(
        parese_complex_selector("*.a.b"),
        Err(refused(ErrorKind::UniversalWithClasses, "*.a.b"))
    );
    assert_eq!(parese_complex_selector("div#x"), Err(refused(ErrorKind::StraySigil, "div#x")));
    assert_eq!(
        parese_complex_selector("div#x.a"),
        Err(refused(ErrorKind::StraySigil, "div#x.a"))
    );
    assert_eq!(parese_complex_selector(".a#b"), Err(refused(ErrorKind::StraySigil, ".a#b")));
    assert_eq!(parese_complex_selector("li.a*"), Err(refused(ErrorKind::StraySigil, "li.a*")));
    assert_eq!(parese_complex_selector("a b"), Err(refused(ErrorKind::Whitespace, "a b")));
    assert_eq!(
        parese_complex_selector("li.a\u{2003}b"),
        Err(refused(ErrorKind::Whitespace, "li.a\u{2003}b"))
    );
}

#[test]
fn the_first_fault_from_the_left_decides() {
    assert_eq!(parese_complex_selector("#.*"), Err(refused(ErrorKind::EmptyId, "#.*")));
    assert_eq!(parese_complex_selector("li..a*"), Err(refused(ErrorKind::EmptyClass, "li..a*")));
    assert_eq!(parese_complex_selector("li.a*."), Err(refused(ErrorKind::StraySigil, "li.a*.")));
}

#[test]
fn list_of_one_basic_selector() {
    assert_eq!(
        parse_selector_string("li"),
        Ok(vec![Selector::Basic(BasicSelector::Element("li".to_string()))])
    );
    assert_eq!(parse_selector_string("*"), Ok(vec![Selector::Basic(BasicSelector::All)]));
    assert_eq!(
        parse_selector_string("li.item.extra"),
        Ok(vec![Selector::Basic(BasicSelector::ElementWithClasses(
            "li".to_string(),
            strings(&["item", "extra"])
        ))])
    );
}

#[test]
fn list_of_alternatives_keeps_their_order() {
    assert_eq!(
        parse_selector_string("#myDiv,h1,.x"),
        Ok(vec![
            Selector::Basic(BasicSelector::Id("myDiv".to_string())),
            Selector::Basic(BasicSelector::Element("h1".to_string())),
            Selector::Basic(BasicSelector::Class("x".to_string())),
        ])
    );
}

#[test]
fn chain_of_compounds() {
    assert_eq!(
        parse_selector_string("#myDiv li.item"),
        Ok(vec![Selector::Hierarchical(vec![
            BasicSelector::Id("myDiv".to_string()),
            BasicSelector::ElementWithClasses("li".to_string(), strings(&["item"])),
        ])])
    );
    assert_eq!(
        parse_selector_string("a b c"),
        Ok(vec![Selector::Hierarchical(vec![
            BasicSelector::Element("a".to_string()),
            BasicSelector::Element("b".to_string()),
            BasicSelector::Element("c".to_string()),
        ])])
    );
}

#[test]
fn white_space_around_and_between_compounds() {
    let chain = Selector::Hierarchical(vec![
        BasicSelector::Element("a".to_string()),
        BasicSelector::Class("b".to_string()),
    ]);
    assert_eq!(parse_selector_string("  a \t\n .b\r\u{c}"), Ok(vec![chain]));
    assert_eq!(
        parse_selector_string(" h1 , p "),
        Ok(vec![
            Selector::Basic(BasicSelector::Element("h1".to_string())),
            Selector::Basic(BasicSelector::Element("p".to_string())),
        ])
    );
}

#[test]
fn chains_and_basic_selectors_mixed() {
    assert_eq!(
        parse_selector_string("ul li, .x ,*"),
        Ok(vec![
            Selector::Hierarchical(vec![
                BasicSelector::Element("ul".to_string()),
                BasicSelector::Element("li".to_string()),
            ]),
            Selector::Basic(BasicSelector::Class("x".to_string())),
            Selector::Basic(BasicSelector::All),
        ])
    );
}

#[test]
fn empty_alternative_blames_the_whole_string() {
    assert_eq!(parse_selector_string(""), Err(refused(ErrorKind::EmptySelector, "")));
    assert_eq!(parse_selector_string("   "), Err(refused(ErrorKind::EmptySelector, "   ")));
    assert_eq!(parse_selector_string(","), Err(refused(ErrorKind::EmptySelector, ",")));
    assert_eq!(parse_selector_string("a,,b"), Err(refused(ErrorKind::EmptySelector, "a,,b")));
    assert_eq!(parse_selector_string(",a"), Err(refused(ErrorKind::EmptySelector, ",a")));
    assert_eq!(parse_selector_string("a,"), Err(refused(ErrorKind::EmptySelector, "a,")));
    assert_eq!(parse_selector_string("a, ,b"), Err(refused(ErrorKind::EmptySelector, "a, ,b")));
}

#[test]
fn fault_in_a_compound_blames_the_compound() {
    assert_eq!(parse_selector_string("a, b #"), Err(refused(ErrorKind::EmptyId, "#")));
    assert_eq!(parse_selector_string("a .b. c"), Err(refused(ErrorKind::EmptyClass, ".b.")));
    assert_eq!(
        parse_selector_string("ul *.x"),
        Err(refused(ErrorKind::UniversalWithClasses, "*.x"))
    );
    assert_eq!(parse_selector_string("p,#a#b"), Err(refused(ErrorKind::SecondId, "#a#b")));
    assert_eq!(parse_selector_string("p div#x"), Err(refused(ErrorKind::StraySigil, "div#x")));
}

#[test]
fn white_space_that_does_not_separate_is_refused() {
    assert_eq!(
        parse_selector_string("a\u{a0}b"),
        Err(refused(ErrorKind::Whitespace, "a\u{a0}b"))
    );
    assert_eq!(
        parse_selector_string("x y\u{b}z"),
        Err(refused(ErrorKind::Whitespace, "y\u{b}z"))
    );
}

#[test]
fn the_first_faulty_alternative_decides() {
    assert_eq!(parse_selector_string("a.,,#"), Err(refused(ErrorKind::EmptyClass, "a.")));
    assert_eq!(parse_selector_string(",a."), Err(refused(ErrorKind::EmptySelector, ",a.")));
    assert_eq!(parse_selector_string("# ."), Err(refused(ErrorKind::EmptyId, "#")));
}

#[test]
fn lone_marks_are_syntax_errors() {
    for input in [".", "#", "*.foo"] {
        let error = parse_selector_string(input).unwrap_err();
        assert!(error.is_syntax());
        assert!(error.kind.is_syntax());
        assert_eq!(error.offending, input);
    }
}

#[test]
fn only_the_internal_kind_is_no_syntax_error() {
    let kinds = [
        ErrorKind::EmptySelector,
        ErrorKind::EmptyClass,
        ErrorKind::EmptyId,
        ErrorKind::SecondId,
        ErrorKind::UniversalWithClasses,
        ErrorKind::Whitespace,
        ErrorKind::StraySigil,
    ];
    for kind in kinds {
        assert!(kind.is_syntax());
    }
    assert!(!ErrorKind::InternalInconsistency.is_syntax());
    assert!(!refused(ErrorKind::InternalInconsistency, "x").is_syntax());
}

#[test]
fn new_error_copies_the_text() {
    let error = QueryError::new(ErrorKind::EmptyId, "#");
    assert_eq!(error.kind, ErrorKind::EmptyId);
    assert_eq!(error.offending, "#");
}

#[test]
fn parsing_twice_gives_equal_lists() {
    for input in ["*", "ul,li", "#myDiv li.item , .a.b", "a b c", "x..y", "", "a,,b"] {
        assert_eq!(parse_selector_string(input), parse_selector_string(input));
    }
}

#[test]
fn cloned_selector_is_equal() {
    let selectors = [
        BasicSelector::All,
        BasicSelector::Id("a".to_string()),
        BasicSelector::Element("b".to_string()),
        BasicSelector::Class("c".to_string()),
        BasicSelector::IdWithClasses("a".to_string(), strings(&["x", "y"])),
        BasicSelector::ElementWithClasses("b".to_string(), strings(&["x"])),
        BasicSelector::ClassList(strings(&["x", "y", "z"])),
    ];
    for selector in &selectors {
        assert_eq!(&selector.clone(), selector);
    }
}
