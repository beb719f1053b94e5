//! From a selector string to a list of selectors.
//!
//! ```text
//! list     := selector (',' selector)*
//! selector := compound (white space compound)*
//! compound := '*' | '#' name ('.' name)* | name ('.' name)* | ('.' name)+
//! ```
//!
//! A name is not empty and holds neither white space nor one of the marks
//! `*`, `#`, `.` and `,`.

use vstd::prelude::*;
use vstd::string::StrSliceExecFns;
use crate::error::{ErrorKind, QueryError, QueryErrorView};
use crate::selector::{
    BasicSelector, BasicSelectorView, Selector, SelectorView, are_names, chain_view,
    selectors_view, strings_view,
};
use crate::text::{
    chars_of, contains_char, contains_sigil, contains_whitespace, has_sigil, has_space,
    lemma_split_len, lemma_split_pieces, split, split_at_char, split_words, strs_view, words,
};

verus! {

/// What is wrong with a class name, if anything.
pub open spec fn class_fault(class: Seq<char>) -> Option<ErrorKind> {
    if class.len() == 0 {
        Some(ErrorKind::EmptyClass)
    } else if has_space(class) {
        Some(ErrorKind::Whitespace)
    } else if has_sigil(class) {
        Some(ErrorKind::StraySigil)
    } else {
        None
    }
}

/// What is wrong with an id, if anything.
pub open spec fn id_fault(id: Seq<char>) -> Option<ErrorKind> {
    if id.len() == 0 {
        Some(ErrorKind::EmptyId)
    } else if has_space(id) {
        Some(ErrorKind::Whitespace)
    } else if id.contains('#') {
        Some(ErrorKind::SecondId)
    } else if has_sigil(id) {
        Some(ErrorKind::StraySigil)
    } else {
        None
    }
}

/// What is wrong with a tag name, if anything.
pub open spec fn tag_fault(tag: Seq<char>) -> Option<ErrorKind> {
    if tag.len() == 0 {
        Some(ErrorKind::EmptySelector)
    } else if has_space(tag) {
        Some(ErrorKind::Whitespace)
    } else if has_sigil(tag) {
        Some(ErrorKind::StraySigil)
    } else {
        None
    }
}

/// The first fault among the class names of a list, if there is one.
pub open spec fn classes_fault(classes: Seq<Seq<char>>) -> Option<ErrorKind>
    decreases classes.len(),
{
    if classes.len() == 0 {
        None
    } else {
        match classes_fault(classes.drop_last()) {
            Some(kind) => Some(kind),
            None => class_fault(classes.last()),
        }
    }
}

/// The selector that a text without classes behind it stands for: `*`, a
/// class behind `.`, an id behind `#`, or else a tag name.
pub open spec fn simple_selector(text: Seq<char>) -> Result<BasicSelectorView, ErrorKind> {
    if text.len() == 0 {
        Err(ErrorKind::EmptySelector)
    } else if text == seq!['*'] {
        Ok(BasicSelectorView::All)
    } else if text[0] == '.' {
        match class_fault(text.drop_first()) {
            Some(kind) => Err(kind),
            None => Ok(BasicSelectorView::Class(text.drop_first())),
        }
    } else if text[0] == '#' {
        match id_fault(text.drop_first()) {
            Some(kind) => Err(kind),
            None => Ok(BasicSelectorView::Id(text.drop_first())),
        }
    } else {
        match tag_fault(text) {
            Some(kind) => Err(kind),
            None => Ok(BasicSelectorView::Element(text)),
        }
    }
}

/// The selector that a compound stands for. The text is split at each `.`;
/// what stands before the first is the anchor, the rest are classes. Without
/// an anchor the compound is a class or a list of classes. The first fault
/// from the left decides.
pub open spec fn compound_selector(text: Seq<char>) -> Result<BasicSelectorView, ErrorKind> {
    let parts = split(text, '.');
    let classes = parts.drop_first();
    if parts.len() == 1 {
        simple_selector(text)
    } else if parts[0].len() == 0 {
        match classes_fault(classes) {
            Some(kind) => Err(kind),
            None => if classes.len() == 1 {
                Ok(BasicSelectorView::Class(classes[0]))
            } else {
                Ok(BasicSelectorView::ClassList(classes))
            },
        }
    } else {
        match simple_selector(parts[0]) {
            Err(kind) => Err(kind),
            Ok(BasicSelectorView::All) => Err(ErrorKind::UniversalWithClasses),
            Ok(BasicSelectorView::Id(id)) => match classes_fault(classes) {
                Some(kind) => Err(kind),
                None => Ok(BasicSelectorView::IdWithClasses(id, classes)),
            },
            Ok(BasicSelectorView::Element(tag)) => match classes_fault(classes) {
                Some(kind) => Err(kind),
                None => Ok(BasicSelectorView::ElementWithClasses(tag, classes)),
            },
            Ok(_) => Err(ErrorKind::InternalInconsistency),
        }
    }
}

/// An outcome with the text that a failure is blamed on.
pub open spec fn blame(
    outcome: Result<BasicSelectorView, ErrorKind>,
    offending: Seq<char>,
) -> Result<BasicSelectorView, QueryErrorView> {
    match outcome {
        Ok(selector) => Ok(selector),
        Err(kind) => Err(QueryErrorView { kind, offending }),
    }
}

/// The compounds of the first `count` words, or the first failure among
/// them, blamed on its word.
pub open spec fn chain_selectors(tokens: Seq<Seq<char>>, count: nat) -> Result<
    Seq<BasicSelectorView>,
    QueryErrorView,
>
    decreases count,
{
    if count == 0 || count > tokens.len() {
        Ok(Seq::empty())
    } else {
        match chain_selectors(tokens, (count - 1) as nat) {
            Err(error) => Err(error),
            Ok(chain) => match blame(compound_selector(tokens[count - 1]), tokens[count - 1]) {
                Err(error) => Err(error),
                Ok(selector) => Ok(chain.push(selector)),
            },
        }
    }
}

/// The selector that one alternative of a list stands for: a basic selector
/// where it has one word, a chain where it has more. One without a word is
/// refused, and the whole string `whole` is blamed.
pub open spec fn item_selector(item: Seq<char>, whole: Seq<char>) -> Result<
    SelectorView,
    QueryErrorView,
> {
    let tokens = words(item);
    if tokens.len() == 0 {
        Err(QueryErrorView { kind: ErrorKind::EmptySelector, offending: whole })
    } else {
        match chain_selectors(tokens, tokens.len()) {
            Err(error) => Err(error),
            Ok(chain) => if chain.len() == 1 {
                Ok(SelectorView::Basic(chain[0]))
            } else {
                Ok(SelectorView::Hierarchical(chain))
            },
        }
    }
}

/// The selectors of the first `count` alternatives, or the first failure
/// among them.
pub open spec fn list_selectors(items: Seq<Seq<char>>, whole: Seq<char>, count: nat) -> Result<
    Seq<SelectorView>,
    QueryErrorView,
>
    decreases count,
{
    if count == 0 || count > items.len() {
        Ok(Seq::empty())
    } else {
        match list_selectors(items, whole, (count - 1) as nat) {
            Err(error) => Err(error),
            Ok(selectors) => match item_selector(items[count - 1], whole) {
                Err(error) => Err(error),
                Ok(selector) => Ok(selectors.push(selector)),
            },
        }
    }
}

/// The selector list that a string stands for: its alternatives are the
/// pieces between its commas.
pub open spec fn selector_list(text: Seq<char>) -> Result<Seq<SelectorView>, QueryErrorView> {
    list_selectors(split(text, ','), text, split(text, ',').len())
}

/// The model of what parsing a single selector gave.
pub open spec fn basic_outcome(parsed: Result<BasicSelector, QueryError>) -> Result<
    BasicSelectorView,
    QueryErrorView,
> {
    match parsed {
        Ok(selector) => Ok(selector@),
        Err(error) => Err(error@),
    }
}

/// The model of what parsing a selector list gave.
pub open spec fn list_outcome(parsed: Result<Vec<Selector>, QueryError>) -> Result<
    Seq<SelectorView>,
    QueryErrorView,
> {
    match parsed {
        Ok(selectors) => Ok(selectors_view(selectors@)),
        Err(error) => Err(error@),
    }
}

/// Class names without a fault are names, and a fault among them lies in
/// the selector string.
pub proof fn lemma_classes_fault(classes: Seq<Seq<char>>)
    ensures
        match classes_fault(classes) {
            None => are_names(classes),
            Some(kind) => kind.syntax(),
        },
    decreases classes.len(),
{
    if classes.len() > 0 {
        lemma_classes_fault(classes.drop_last());
        if classes_fault(classes) is None {
            assert forall|i: int| 0 <= i < classes.len() implies crate::text::is_name(
                #[trigger] classes[i],
            ) by {
                if i < classes.len() - 1 {
                    assert(classes.drop_last()[i] == classes[i]);
                }
            }
        }
    }
}

/// A compound that is accepted is one that the grammar can write, and one
/// that is refused is refused for a fault in the string: the case of a tag
/// name joined to an id never arises.
pub proof fn lemma_compound_selector_well_formed(text: Seq<char>)
    ensures
        match compound_selector(text) {
            Ok(selector) => selector.well_formed(),
            Err(kind) => kind.syntax(),
        },
{
    let parts = split(text, '.');
    lemma_split_len(text, '.');
    lemma_split_pieces(text, '.');
    lemma_classes_fault(parts.drop_first());
    if parts.len() > 1 && parts[0].len() > 0 {
        assert(parts[0][0] != '.');
    }
}

/// The compounds of a chain that is accepted are as many as its words, and
/// each is one that the grammar can write; a chain that is refused is
/// refused for a fault in the string.
pub proof fn lemma_chain_selectors_well_formed(tokens: Seq<Seq<char>>, count: nat)
    requires
        count <= tokens.len(),
    ensures
        match chain_selectors(tokens, count) {
            Ok(chain) => chain.len() == count && forall|i: int|
                0 <= i < chain.len() ==> (#[trigger] chain[i]).well_formed(),
            Err(error) => error.kind.syntax(),
        },
    decreases count,
{
    if count > 0 {
        lemma_chain_selectors_well_formed(tokens, (count - 1) as nat);
        lemma_compound_selector_well_formed(tokens[count - 1]);
    }
}

/// Every selector of a list that is accepted is one that the grammar can
/// write; a list that is refused is refused for a fault in the string.
pub proof fn lemma_list_selectors_well_formed(items: Seq<Seq<char>>, whole: Seq<char>, count: nat)
    requires
        count <= items.len(),
    ensures
        match list_selectors(items, whole, count) {
            Ok(selectors) => selectors.len() == count && forall|i: int|
                0 <= i < selectors.len() ==> (#[trigger] selectors[i]).well_formed(),
            Err(error) => error.kind.syntax(),
        },
    decreases count,
{
    if count > 0 {
        lemma_list_selectors_well_formed(items, whole, (count - 1) as nat);
        let tokens = words(items[count - 1]);
        lemma_chain_selectors_well_formed(tokens, tokens.len());
    }
}

/// Every selector of the list that a string stands for is one that the
/// grammar can write, and a string that is refused is refused for a fault in
/// it: no string leads to an inconsistency of the parser.
pub proof fn lemma_selector_list_well_formed(text: Seq<char>)
    ensures
        match selector_list(text) {
            Ok(selectors) => forall|i: int|
                0 <= i < selectors.len() ==> (#[trigger] selectors[i]).well_formed(),
            Err(error) => error.kind.syntax(),
        },
{
    let items = split(text, ',');
    lemma_list_selectors_well_formed(items, text, items.len());
}

/// Parsing depends on the characters of the string alone: what two runs on
/// the same string give stands for the same selector list, or for the same
/// refusal.
pub proof fn lemma_parsing_is_deterministic(
    text: Seq<char>,
    first: Result<Vec<Selector>, QueryError>,
    second: Result<Vec<Selector>, QueryError>,
)
    requires
        list_outcome(first) == selector_list(text),
        list_outcome(second) == selector_list(text),
    ensures
        list_outcome(first) == list_outcome(second),
{
}

/// Parses a selector without classes behind it: `*`, `.class`, `#id` or a
/// tag name.
pub fn parse_individual_selector_string(selector_string: &str) -> (parsed: Result<
    BasicSelector,
    QueryError,
>)
    ensures
        basic_outcome(parsed) == blame(simple_selector(selector_string@), selector_string@),
{
    let chars = chars_of(selector_string);
    let length = chars.len();
    let ghost text = selector_string@;
    if length == 0 {
        return Err(QueryError::new(ErrorKind::EmptySelector, selector_string));
    }
    if length == 1 && chars[0] == '*' {
        assert(text =~= seq!['*']);
        return Ok(BasicSelector::All);
    }
    assert(text != seq!['*']) by {
        if text == seq!['*'] {
            assert(seq!['*'].len() == 1);
            assert(seq!['*'][0] == '*');
        }
    }
    assert(text.drop_first() =~= chars@.skip(1));
    assert(text =~= chars@.skip(0));
    let named = chars[0] == '.' || chars[0] == '#';
    let from: usize = if named {
        1
    } else {
        0
    };
    if named && length == 1 {
        let kind = if chars[0] == '.' {
            ErrorKind::EmptyClass
        } else {
            ErrorKind::EmptyId
        };
        return Err(QueryError::new(kind, selector_string));
    }
    if contains_whitespace(&chars, from) {
        return Err(QueryError::new(ErrorKind::Whitespace, selector_string));
    }
    if chars[0] == '#' && contains_char(&chars, 1, '#') {
        return Err(QueryError::new(ErrorKind::SecondId, selector_string));
    }
    if contains_sigil(&chars, from) {
        return Err(QueryError::new(ErrorKind::StraySigil, selector_string));
    }
    let name = selector_string.substring_char(from, length).to_owned();
    assert(name@ =~= chars@.skip(from as int));
    if chars[0] == '.' {
        Ok(BasicSelector::Class(name))
    } else if chars[0] == '#' {
        Ok(BasicSelector::Id(name))
    } else {
        Ok(BasicSelector::Element(name))
    }
}

/// A fault among the first class names of a list is the fault of the list.
proof fn lemma_classes_fault_prefix(classes: Seq<Seq<char>>, count: int)
    requires
        0 <= count <= classes.len(),
        classes_fault(classes.take(count)) is Some,
    ensures
        classes_fault(classes) == classes_fault(classes.take(count)),
    decreases classes.len() - count,
{
    if count < classes.len() {
        assert(classes.take(count + 1).drop_last() =~= classes.take(count));
        lemma_classes_fault_prefix(classes, count + 1);
    } else {
        assert(classes.take(count) =~= classes);
    }
}

/// A failure among the first words of a chain is the failure of the chain.
proof fn lemma_chain_failure_stays(tokens: Seq<Seq<char>>, count: nat)
    requires
        count <= tokens.len(),
        chain_selectors(tokens, count) is Err,
    ensures
        chain_selectors(tokens, tokens.len()) == chain_selectors(tokens, count),
    decreases tokens.len() - count,
{
    if count < tokens.len() {
        lemma_chain_failure_stays(tokens, count + 1);
    }
}

/// A failure among the first alternatives of a list is the failure of the
/// list.
proof fn lemma_list_failure_stays(items: Seq<Seq<char>>, whole: Seq<char>, count: nat)
    requires
        count <= items.len(),
        list_selectors(items, whole, count) is Err,
    ensures
        list_selectors(items, whole, items.len()) == list_selectors(items, whole, count),
    decreases items.len() - count,
{
    if count < items.len() {
        lemma_list_failure_stays(items, whole, count + 1);
    }
}

/// What is wrong with a class name, if anything.
fn check_class(class: &str) -> (fault: Option<ErrorKind>)
    ensures
        fault == class_fault(class@),
{
    let chars = chars_of(class);
    assert(chars@.skip(0) =~= class@);
    if chars.len() == 0 {
        Some(ErrorKind::EmptyClass)
    } else if contains_whitespace(&chars, 0) {
        Some(ErrorKind::Whitespace)
    } else if contains_sigil(&chars, 0) {
        Some(ErrorKind::StraySigil)
    } else {
        None
    }
}

/// The class names behind the first part of a compound, or the first fault
/// among them.
fn collect_classes(parts: &Vec<&str>) -> (collected: Result<Vec<String>, ErrorKind>)
    requires
        parts.len() >= 1,
    ensures
        match collected {
            Ok(classes) => classes_fault(strs_view(parts@).drop_first()) is None && strings_view(
                classes@,
            ) == strs_view(parts@).drop_first(),
            Err(kind) => classes_fault(strs_view(parts@).drop_first()) == Some(kind),
        },
{
    let ghost names = strs_view(parts@).drop_first();
    let mut classes: Vec<String> = Vec::new();
    let mut i: usize = 1;
    assert(names.take(0) =~= Seq::<Seq<char>>::empty());
    assert(strings_view(classes@) =~= names.take(0));
    while i < parts.len()
        invariant
            1 <= i <= parts.len(),
            names == strs_view(parts@).drop_first(),
            classes_fault(names.take(i - 1)) is None,
            strings_view(classes@) == names.take(i - 1),
        decreases parts.len() - i,
    {
        let ghost sofar = strings_view(classes@);
        assert(names.take(i as int).drop_last() =~= names.take(i - 1));
        assert(names.take(i as int).last() == parts@[i as int]@);
        match check_class(parts[i]) {
            Some(kind) => {
                proof {
                    lemma_classes_fault_prefix(names, i as int);
                }
                return Err(kind);
            },
            None => {
                classes.push(parts[i].to_owned());
                assert(strings_view(classes@) =~= sofar.push(parts@[i as int]@));
                assert(names.take(i as int) =~= names.take(i - 1).push(parts@[i as int]@));
            },
        }
        i += 1;
    }
    assert(names.take(parts.len() - 1) =~= names);
    Ok(classes)
}

/// Parses a compound: `*`, or an id, a tag name or nothing, with classes
/// behind it.
pub fn parese_complex_selector(selector_string: &str) -> (parsed: Result<BasicSelector, QueryError>)
    ensures
        basic_outcome(parsed) == blame(compound_selector(selector_string@), selector_string@),
        parsed matches Ok(selector) ==> selector@.well_formed(),
        parsed matches Err(error) ==> error@.kind.syntax(),
{
    let class_parts = split_at_char(selector_string, '.');
    proof {
        lemma_split_len(selector_string@, '.');
        lemma_compound_selector_well_formed(selector_string@);
    }
    if class_parts.len() == 1 {
        return parse_individual_selector_string(selector_string);
    }
    assert(strs_view(class_parts@)[0] == class_parts@[0]@);
    if class_parts[0].unicode_len() == 0 {
        match collect_classes(&class_parts) {
            Err(kind) => Err(QueryError::new(kind, selector_string)),
            Ok(mut classes) => {
                if classes.len() == 1 {
                    let ghost names = strings_view(classes@);
                    match classes.pop() {
                        Some(class) => {
                            assert(names[0] == class@);
                            Ok(BasicSelector::Class(class))
                        },
                        None => Ok(BasicSelector::ClassList(classes)),
                    }
                } else {
                    Ok(BasicSelector::ClassList(classes))
                }
            },
        }
    } else {
        match parse_individual_selector_string(class_parts[0]) {
            Err(error) => Err(QueryError::new(error.kind, selector_string)),
            Ok(BasicSelector::All) => Err(
                QueryError::new(ErrorKind::UniversalWithClasses, selector_string),
            ),
            Ok(BasicSelector::Id(id)) => match collect_classes(&class_parts) {
                Err(kind) => Err(QueryError::new(kind, selector_string)),
                Ok(classes) => Ok(BasicSelector::IdWithClasses(id, classes)),
            },
            Ok(BasicSelector::Element(element)) => match collect_classes(&class_parts) {
                Err(kind) => Err(QueryError::new(kind, selector_string)),
                Ok(classes) => Ok(BasicSelector::ElementWithClasses(element, classes)),
            },
            Ok(_) => Err(QueryError::new(ErrorKind::InternalInconsistency, selector_string)),
        }
    }
}

/// Parses each word as a compound.
fn parse_chain(tokens: &Vec<&str>) -> (parsed: Result<Vec<BasicSelector>, QueryError>)
    ensures
        match parsed {
            Ok(chain) => chain_selectors(strs_view(tokens@), tokens.len() as nat) == Ok::<
                Seq<BasicSelectorView>,
                QueryErrorView,
            >(chain_view(chain@)),
            Err(error) => chain_selectors(strs_view(tokens@), tokens.len() as nat) == Err::<
                Seq<BasicSelectorView>,
                QueryErrorView,
            >(error@),
        },
{
    let ghost texts = strs_view(tokens@);
    let mut chain: Vec<BasicSelector> = Vec::new();
    let mut i: usize = 0;
    assert(chain_view(chain@) =~= Seq::<BasicSelectorView>::empty());
    while i < tokens.len()
        invariant
            i <= tokens.len(),
            texts == strs_view(tokens@),
            chain_selectors(texts, i as nat) == Ok::<Seq<BasicSelectorView>, QueryErrorView>(
                chain_view(chain@),
            ),
        decreases tokens.len() - i,
    {
        let ghost sofar = chain_view(chain@);
        assert(texts[i as int] == tokens@[i as int]@);
        match parese_complex_selector(tokens[i]) {
            Err(error) => {
                proof {
                    lemma_chain_failure_stays(texts, (i + 1) as nat);
                }
                return Err(error);
            },
            Ok(basic_selector) => {
                chain.push(basic_selector);
                assert(chain_view(chain@) =~= sofar.push(basic_selector@));
            },
        }
        i += 1;
    }
    Ok(chain)
}

/// Parses a selector list: alternatives between commas, each of them one
/// compound or a chain of compounds with white space between them. One
/// fault anywhere refuses the whole string.
pub fn parse_selector_string(selector_string: &str) -> (parsed: Result<Vec<Selector>, QueryError>)
    ensures
        list_outcome(parsed) == selector_list(selector_string@),
        parsed matches Ok(selectors) ==> forall|i: int|
            0 <= i < selectors.len() ==> (#[trigger] selectors@[i])@.well_formed(),
        parsed matches Err(error) ==> error@.kind.syntax(),
{
    let items = split_at_char(selector_string, ',');
    let ghost texts = strs_view(items@);
    let ghost whole = selector_string@;
    let mut selectors: Vec<Selector> = Vec::new();
    let mut i: usize = 0;
    assert(selectors_view(selectors@) =~= Seq::<SelectorView>::empty());
    while i < items.len()
        invariant
            i <= items.len(),
            texts == strs_view(items@),
            texts == split(whole, ','),
            whole == selector_string@,
            selectors.len() == i,
            list_selectors(texts, whole, i as nat) == Ok::<Seq<SelectorView>, QueryErrorView>(
                selectors_view(selectors@),
            ),
        decreases items.len() - i,
    {
        let ghost sofar = selectors_view(selectors@);
        assert(texts[i as int] == items@[i as int]@);
        let selector_strings = split_words(items[i]);
        if selector_strings.len() == 0 {
            proof {
                assert(strs_view(selector_strings@).len() == 0);
                lemma_list_failure_stays(texts, whole, (i + 1) as nat);
                lemma_list_selectors_well_formed(texts, whole, texts.len());
            }
            return Err(QueryError::new(ErrorKind::EmptySelector, selector_string));
        }
        match parse_chain(&selector_strings) {
            Err(error) => {
                proof {
                    lemma_list_failure_stays(texts, whole, (i + 1) as nat);
                    lemma_list_selectors_well_formed(texts, whole, texts.len());
                }
                return Err(error);
            },
            Ok(mut hierarchical_selectors) => {
                let ghost chain = chain_view(hierarchical_selectors@);
                if hierarchical_selectors.len() == 1 {
                    match hierarchical_selectors.pop() {
                        Some(basic_selector) => {
                            assert(chain[0] == basic_selector@);
                            selectors.push(Selector::Basic(basic_selector));
                        },
                        None => {},
                    }
                } else {
                    selectors.push(Selector::Hierarchical(hierarchical_selectors));
                }
                assert(selectors_view(selectors@) =~= sofar.push(selectors@[i as int]@));
            },
        }
        i += 1;
    }
    proof {
        lemma_list_selectors_well_formed(texts, whole, texts.len());
        assert forall|k: int| 0 <= k < selectors.len() implies (#[trigger] selectors@[k])@.well_formed() by {
            assert(selectors_view(selectors@)[k] == selectors@[k]@);
        }
    }
    Ok(selectors)
}

} // verus!
