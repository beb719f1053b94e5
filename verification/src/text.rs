//! Characters and the splitting of text that the selector grammar rests on.

use vstd::prelude::*;
use vstd::std_specs::iter::IteratorSpec;
use vstd::string::StrSliceExecFns;

verus! {

/// The white space that separates the selectors of a chain: space, tab, line
/// feed, form feed and carriage return.
pub open spec fn is_ascii_space(c: char) -> bool {
    c == ' ' || c == '\t' || c == '\n' || c == '\x0C' || c == '\r'
}

/// The characters that Unicode gives the property `White_Space`.
pub open spec fn is_space(c: char) -> bool {
    let code = c as u32;
    ||| 0x09 <= code <= 0x0D
    ||| code == 0x20
    ||| code == 0x85
    ||| code == 0xA0
    ||| code == 0x1680
    ||| 0x2000 <= code <= 0x200A
    ||| code == 0x2028
    ||| code == 0x2029
    ||| code == 0x202F
    ||| code == 0x205F
    ||| code == 0x3000
}

/// Whether a text holds white space anywhere.
pub open spec fn has_space(text: Seq<char>) -> bool {
    exists|i: int| 0 <= i < text.len() && is_space(#[trigger] text[i])
}

/// The marks of the selector grammar.
pub open spec fn is_sigil(c: char) -> bool {
    c == '*' || c == '#' || c == '.' || c == ','
}

/// Whether a text holds one of the marks of the selector grammar.
pub open spec fn has_sigil(text: Seq<char>) -> bool {
    exists|i: int| 0 <= i < text.len() && is_sigil(#[trigger] text[i])
}

/// Whether a text can stand as a tag name, a class name or an id: it is not
/// empty and holds neither white space nor a mark of the grammar.
pub open spec fn is_name(text: Seq<char>) -> bool {
    text.len() > 0 && !has_space(text) && !has_sigil(text)
}

/// The pieces of `text` between the occurrences of `sep`, in their order.
/// A text with `n` occurrences has `n + 1` pieces, empty ones included.
pub open spec fn split(text: Seq<char>, sep: char) -> Seq<Seq<char>>
    decreases text.len(),
{
    if text.len() == 0 {
        seq![Seq::empty()]
    } else {
        let pieces = split(text.drop_last(), sep);
        if text.last() == sep {
            pieces.push(Seq::empty())
        } else {
            pieces.drop_last().push(pieces.last().push(text.last()))
        }
    }
}

/// The words of `text`: its longest runs of characters other than
/// [`is_ascii_space`], in their order. No word is empty.
pub open spec fn words(text: Seq<char>) -> Seq<Seq<char>>
    decreases text.len(),
{
    if text.len() == 0 {
        Seq::empty()
    } else {
        let before = words(text.drop_last());
        if is_ascii_space(text.last()) {
            before
        } else if text.len() >= 2 && !is_ascii_space(text[text.len() - 2]) {
            before.drop_last().push(before.last().push(text.last()))
        } else {
            before.push(seq![text.last()])
        }
    }
}

/// The texts of a list of string slices.
pub open spec fn strs_view(list: Seq<&str>) -> Seq<Seq<char>> {
    Seq::new(list.len(), |i: int| list[i]@)
}

/// A text always has a last piece.
pub proof fn lemma_split_len(text: Seq<char>, sep: char)
    ensures
        split(text, sep).len() >= 1,
    decreases text.len(),
{
    if text.len() > 0 {
        lemma_split_len(text.drop_last(), sep);
    }
}

/// No piece holds the separator, and every character of a piece is one of
/// the text.
pub proof fn lemma_split_pieces(text: Seq<char>, sep: char)
    ensures
        forall|k: int, i: int|
            0 <= k < split(text, sep).len() && 0 <= i < split(text, sep)[k].len() ==> {
                &&& (#[trigger] split(text, sep)[k][i]) != sep
                &&& text.contains(split(text, sep)[k][i])
            },
    decreases text.len(),
{
    if text.len() > 0 {
        let shorter = text.drop_last();
        lemma_split_pieces(shorter, sep);
        lemma_split_len(shorter, sep);
        let pieces = split(text, sep);
        let before = split(shorter, sep);
        assert forall|k: int, i: int| 0 <= k < pieces.len() && 0 <= i < pieces[k].len() implies {
            &&& (#[trigger] pieces[k][i]) != sep
            &&& text.contains(pieces[k][i])
        } by {
            if k < before.len() - 1 || text.last() == sep || i < before.last().len() {
                assert(pieces[k][i] == before[k][i]);
                assert(shorter.contains(before[k][i]));
                let at = choose|at: int| 0 <= at < shorter.len() && shorter[at] == before[k][i];
                assert(text[at] == pieces[k][i]);
            } else {
                assert(pieces[k][i] == text.last());
                assert(text[text.len() - 1] == pieces[k][i]);
            }
        }
    }
}

/// The pieces of a list put together again, with `sep` between each two.
pub open spec fn join(pieces: Seq<Seq<char>>, sep: char) -> Seq<char>
    decreases pieces.len(),
{
    if pieces.len() == 0 {
        Seq::empty()
    } else if pieces.len() == 1 {
        pieces[0]
    } else {
        join(pieces.drop_last(), sep).push(sep) + pieces.last()
    }
}

/// Splitting loses nothing: the pieces, with the separator between each two,
/// are the text again.
pub proof fn lemma_split_joins_back(text: Seq<char>, sep: char)
    ensures
        join(split(text, sep), sep) == text,
    decreases text.len(),
{
    if text.len() > 0 {
        let shorter = text.drop_last();
        let before = split(shorter, sep);
        let pieces = split(text, sep);
        lemma_split_joins_back(shorter, sep);
        lemma_split_len(shorter, sep);
        if text.last() == sep {
            assert(pieces.drop_last() =~= before);
            assert(join(pieces, sep) =~= shorter.push(sep));
        } else if before.len() == 1 {
            assert(join(pieces, sep) =~= shorter.push(text.last()));
        } else {
            assert(pieces.drop_last() =~= before.drop_last());
            assert(join(pieces, sep) =~= join(before, sep).push(text.last()));
        }
        assert(shorter.push(text.last()) =~= text);
    } else {
        assert(join(split(text, sep), sep) =~= text);
    }
}

/// No word is empty, and none holds a character that separates words.
pub proof fn lemma_words_hold_no_space(text: Seq<char>)
    ensures
        forall|k: int|
            0 <= k < words(text).len() ==> {
                &&& (#[trigger] words(text)[k]).len() > 0
                &&& forall|i: int|
                    0 <= i < words(text)[k].len() ==> !is_ascii_space(#[trigger] words(text)[k][i])
            },
    decreases text.len(),
{
    if text.len() > 0 {
        let before = words(text.drop_last());
        let all = words(text);
        lemma_words_hold_no_space(text.drop_last());
        assert forall|k: int| 0 <= k < all.len() implies {
            &&& (#[trigger] all[k]).len() > 0
            &&& forall|i: int| 0 <= i < all[k].len() ==> !is_ascii_space(#[trigger] all[k][i])
        } by {
            if k < all.len() - 1 || is_ascii_space(text.last()) {
                assert(all[k] == before[k]);
            } else if all.len() == before.len() {
                assert(all[k] == before[k].push(text.last()));
                assert forall|i: int| 0 <= i < all[k].len() implies !is_ascii_space(
                    #[trigger] all[k][i],
                ) by {
                    if i < before[k].len() {
                        assert(all[k][i] == before[k][i]);
                    }
                }
            } else {
                assert(all[k] == seq![text.last()]);
            }
        }
    }
}

/// The characters of a string, in their order.
pub fn chars_of(text: &str) -> (chars: Vec<char>)
    ensures
        chars@ == text@,
{
    let mut chars: Vec<char> = Vec::new();
    let mut rest = text.chars();
    loop
        invariant
            rest.obeys_prophetic_iter_laws(),
            rest.decrease() is Some,
            chars@ + rest.remaining() == text@,
        decreases rest.decrease()->0,
    {
        match rest.next() {
            Some(c) => {
                chars.push(c);
                assert(chars@ + rest.remaining() =~= text@);
            },
            None => {
                assert(chars@ =~= text@);
                return chars;
            },
        }
    }
}

/// Whether a character separates the selectors of a chain.
pub fn is_ascii_whitespace(c: char) -> (space: bool)
    ensures
        space == is_ascii_space(c),
{
    c == ' ' || c == '\t' || c == '\n' || c == '\x0C' || c == '\r'
}

/// Whether a character is white space.
pub fn is_whitespace(c: char) -> (space: bool)
    ensures
        space == is_space(c),
{
    let code: u32 = c as u32;
    (0x09 <= code && code <= 0x0D) || code == 0x20 || code == 0x85 || code == 0xA0 || code
        == 0x1680 || (0x2000 <= code && code <= 0x200A) || code == 0x2028 || code == 0x2029 || code
        == 0x202F || code == 0x205F || code == 0x3000
}

/// Whether one of the characters from index `from` on is `wanted`. Behind
/// the end there is none.
pub fn contains_char(chars: &Vec<char>, from: usize, wanted: char) -> (found: bool)
    ensures
        found == (from <= chars.len() && chars@.skip(from as int).contains(wanted)),
{
    if from > chars.len() {
        return false;
    }
    let mut i: usize = from;
    while i < chars.len()
        invariant
            from <= i <= chars.len(),
            forall|k: int| from <= k < i ==> chars@[k] != wanted,
        decreases chars.len() - i,
    {
        if chars[i] == wanted {
            assert(chars@.skip(from as int)[i - from] == wanted);
            return true;
        }
        i += 1;
    }
    assert forall|k: int| 0 <= k < chars@.skip(from as int).len() implies chars@.skip(
        from as int,
    )[k] != wanted by {
        assert(chars@.skip(from as int)[k] == chars@[k + from]);
    }
    false
}

/// Whether one of the characters from index `from` on is a mark of the
/// selector grammar. Behind the end there is none.
pub fn contains_sigil(chars: &Vec<char>, from: usize) -> (found: bool)
    ensures
        found == (from <= chars.len() && has_sigil(chars@.skip(from as int))),
{
    if from > chars.len() {
        return false;
    }
    let mut i: usize = from;
    while i < chars.len()
        invariant
            from <= i <= chars.len(),
            forall|k: int| from <= k < i ==> !is_sigil(#[trigger] chars@[k]),
        decreases chars.len() - i,
    {
        let c = chars[i];
        if c == '*' || c == '#' || c == '.' || c == ',' {
            assert(is_sigil(chars@.skip(from as int)[i - from]));
            return true;
        }
        i += 1;
    }
    assert forall|k: int| 0 <= k < chars@.skip(from as int).len() implies !is_sigil(
        #[trigger] chars@.skip(from as int)[k],
    ) by {
        assert(chars@.skip(from as int)[k] == chars@[k + from]);
    }
    false
}

/// Whether one of the characters from index `from` on is white space.
/// Behind the end there is none.
pub fn contains_whitespace(chars: &Vec<char>, from: usize) -> (found: bool)
    ensures
        found == (from <= chars.len() && has_space(chars@.skip(from as int))),
{
    if from > chars.len() {
        return false;
    }
    let mut i: usize = from;
    while i < chars.len()
        invariant
            from <= i <= chars.len(),
            forall|k: int| from <= k < i ==> !is_space(#[trigger] chars@[k]),
        decreases chars.len() - i,
    {
        if is_whitespace(chars[i]) {
            assert(is_space(chars@.skip(from as int)[i - from]));
            return true;
        }
        i += 1;
    }
    assert forall|k: int| 0 <= k < chars@.skip(from as int).len() implies !is_space(
        #[trigger] chars@.skip(from as int)[k],
    ) by {
        assert(chars@.skip(from as int)[k] == chars@[k + from]);
    }
    false
}

/// Splits a string at every occurrence of `sep`.
pub fn split_at_char<'a>(text: &'a str, sep: char) -> (pieces: Vec<&'a str>)
    ensures
        strs_view(pieces@) == split(text@, sep),
{
    let chars = chars_of(text);
    let mut pieces: Vec<&'a str> = Vec::new();
    let mut start: usize = 0;
    let mut i: usize = 0;
    assert(text@.take(0) =~= Seq::<char>::empty());
    assert(split(text@.take(0), sep) =~= strs_view(pieces@).push(text@.subrange(0, 0)));
    while i < chars.len()
        invariant
            start <= i <= chars.len(),
            chars@ == text@,
            split(text@.take(i as int), sep) == strs_view(pieces@).push(
                text@.subrange(start as int, i as int),
            ),
        decreases chars.len() - i,
    {
        let ghost done = strs_view(pieces@);
        let ghost current = text@.subrange(start as int, i as int);
        assert(text@.take(i + 1).drop_last() =~= text@.take(i as int));
        assert(done.push(current).drop_last() =~= done);
        if chars[i] == sep {
            pieces.push(text.substring_char(start, i));
            start = i + 1;
            assert(strs_view(pieces@) =~= done.push(current));
            assert(text@.subrange(start as int, i + 1) =~= Seq::<char>::empty());
        } else {
            assert(text@.subrange(start as int, i + 1) =~= current.push(text@[i as int]));
        }
        i += 1;
    }
    let ghost done = strs_view(pieces@);
    pieces.push(text.substring_char(start, i));
    assert(text@.take(i as int) =~= text@);
    assert(strs_view(pieces@) =~= done.push(text@.subrange(start as int, i as int)));
    pieces
}

/// Splits a string into its words.
pub fn split_words<'a>(text: &'a str) -> (pieces: Vec<&'a str>)
    ensures
        strs_view(pieces@) == words(text@),
{
    let chars = chars_of(text);
    let mut pieces: Vec<&'a str> = Vec::new();
    let mut start: usize = 0;
    let mut i: usize = 0;
    assert(text@.take(0) =~= Seq::<char>::empty());
    assert(strs_view(pieces@) =~= words(text@.take(0)));
    while i < chars.len()
        invariant
            start <= i <= chars.len(),
            chars@ == text@,
            start < i ==> !is_ascii_space(text@[i - 1]),
            start < i ==> words(text@.take(i as int)) == strs_view(pieces@).push(
                text@.subrange(start as int, i as int),
            ),
            start == i ==> words(text@.take(i as int)) == strs_view(pieces@),
            start == i && i > 0 ==> is_ascii_space(text@[i - 1]),
        decreases chars.len() - i,
    {
        let ghost done = strs_view(pieces@);
        let ghost current = text@.subrange(start as int, i as int);
        assert(text@.take(i + 1).drop_last() =~= text@.take(i as int));
        assert(text@.take(i + 1).last() == text@[i as int]);
        assert(i > 0 ==> text@.take(i + 1)[i - 1] == text@[i - 1]);
        assert(done.push(current).drop_last() =~= done);
        if is_ascii_whitespace(chars[i]) {
            if start < i {
                pieces.push(text.substring_char(start, i));
                assert(strs_view(pieces@) =~= done.push(current));
            }
            start = i + 1;
        } else {
            if start < i {
                assert(text@.subrange(start as int, i + 1) =~= current.push(text@[i as int]));
            } else {
                assert(text@.subrange(start as int, i + 1) =~= seq![text@[i as int]]);
            }
        }
        i += 1;
    }
    assert(text@.take(i as int) =~= text@);
    if start < i {
        let ghost done = strs_view(pieces@);
        pieces.push(text.substring_char(start, i));
        assert(strs_view(pieces@) =~= done.push(text@.subrange(start as int, i as int)));
    }
    pieces
}

} // verus!
