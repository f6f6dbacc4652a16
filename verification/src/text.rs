//! Texts as sequences of characters: their order, their lower-case form,
//! and how they are searched and split.

use vstd::prelude::*;

verus! {

/// Strict lexicographic order of two texts by the code points of their
/// characters; a proper prefix comes before the longer text.
pub open spec fn lex_less(a: Seq<char>, b: Seq<char>) -> bool
    decreases a.len(),
{
    if b.len() == 0 {
        false
    } else if a.len() == 0 {
        true
    } else if a[0] == b[0] {
        lex_less(a.drop_first(), b.drop_first())
    } else {
        (a[0] as int) < (b[0] as int)
    }
}

/// No text comes before itself.
pub proof fn lemma_lex_less_irreflexive(a: Seq<char>)
    ensures
        !lex_less(a, a),
    decreases a.len(),
{
    if a.len() > 0 {
        lemma_lex_less_irreflexive(a.drop_first());
    }
}

/// Of two different texts one comes before the other.
pub proof fn lemma_lex_less_total(a: Seq<char>, b: Seq<char>)
    ensures
        a != b ==> lex_less(a, b) || lex_less(b, a),
        !(lex_less(a, b) && lex_less(b, a)),
    decreases a.len(),
{
    if a.len() > 0 && b.len() > 0 {
        if a[0] == b[0] {
            lemma_lex_less_total(a.drop_first(), b.drop_first());
            if a.drop_first() == b.drop_first() {
                assert(a =~= seq![a[0]] + a.drop_first());
                assert(b =~= seq![b[0]] + b.drop_first());
            }
        }
    } else if a.len() == 0 && b.len() == 0 {
        assert(a =~= b);
    }
}

/// The order is transitive.
pub proof fn lemma_lex_less_transitive(a: Seq<char>, b: Seq<char>, c: Seq<char>)
    requires
        lex_less(a, b),
        lex_less(b, c),
    ensures
        lex_less(a, c),
    decreases a.len(),
{
    if a.len() > 0 && b.len() > 0 && c.len() > 0 {
        if a[0] == b[0] && b[0] == c[0] {
            lemma_lex_less_transitive(a.drop_first(), b.drop_first(), c.drop_first());
        }
    }
}

/// Whether `a` comes before `b` in lexicographic order.
pub fn chars_less(a: &Vec<char>, b: &Vec<char>) -> (less: bool)
    ensures
        less == lex_less(a@, b@),
{
    let mut i: usize = 0;
    proof {
        assert(a@.skip(0) =~= a@);
        assert(b@.skip(0) =~= b@);
    }
    while i < a.len() && i < b.len()
        invariant
            i <= a.len(),
            i <= b.len(),
            lex_less(a@, b@) == lex_less(a@.skip(i as int), b@.skip(i as int)),
        decreases a.len() - i,
    {
        proof {
            assert(a@.skip(i as int)[0] == a@[i as int]);
            assert(b@.skip(i as int)[0] == b@[i as int]);
            assert(a@.skip(i as int).drop_first() =~= a@.skip(i + 1));
            assert(b@.skip(i as int).drop_first() =~= b@.skip(i + 1));
        }
        if a[i] != b[i] {
            return a[i] < b[i];
        }
        i = i + 1;
    }
    i < b.len()
}

/// Whether the text `a` comes before the text `b` in lexicographic order,
/// which is the order of `str`.
pub fn text_less(a: &str, b: &str) -> (less: bool)
    ensures
        less == lex_less(a@, b@),
{
    let x = chars_of(a);
    let y = chars_of(b);
    chars_less(&x, &y)
}

/// The characters of a text.
pub fn chars_of(s: &str) -> (chars: Vec<char>)
    ensures
        chars@ == s@,
{
    let mut chars: Vec<char> = Vec::new();
    for c in iter: s.chars()
        invariant
            iter.seq() == s@,
            chars@ == iter.seq().take(iter.index() as int),
    {
        chars.push(c);
        proof {
            assert(chars@ =~= iter.seq().take(iter.index() + 1));
        }
    }
    proof {
        assert(chars@ =~= s@);
    }
    chars
}

/// The lower-case form of a text as the standard library computes it for
/// `str::to_lowercase`, which follows the Unicode case mappings.
pub uninterp spec fn lowercase_of(s: Seq<char>) -> Seq<char>;

/// Lower-cases a text with `str::to_lowercase`. The result depends on the
/// characters of the text alone; it is named [`lowercase_of`].
#[verifier::external_body]
pub(crate) fn lowercase(s: &str) -> (lower: String)
    ensures
        lower@ == lowercase_of(s@),
{
    s.to_lowercase()
}

/// `needle` occurs in `hay` at position `at`.
pub open spec fn occurs_at(needle: Seq<char>, hay: Seq<char>, at: int) -> bool {
    0 <= at && at + needle.len() <= hay.len() && hay.subrange(at, at + needle.len()) == needle
}

/// `needle` occurs somewhere in `hay` as a run of consecutive characters.
pub open spec fn is_infix(needle: Seq<char>, hay: Seq<char>) -> bool {
    exists|at: int| occurs_at(needle, hay, at)
}

/// Whether `needle` occurs in `hay` at position `at`.
pub fn matches_at(needle: &Vec<char>, hay: &Vec<char>, at: usize) -> (hit: bool)
    requires
        at + needle.len() <= hay.len(),
    ensures
        hit == occurs_at(needle@, hay@, at as int),
{
    let mut k: usize = 0;
    while k < needle.len()
        invariant
            k <= needle.len(),
            at + needle.len() <= hay.len(),
            forall|j: int| 0 <= j < k ==> hay@[at + j] == needle@[j],
        decreases needle.len() - k,
    {
        if hay[at + k] != needle[k] {
            proof {
                assert(hay@.subrange(at as int, at + needle.len())[k as int] == hay@[at + k]);
            }
            return false;
        }
        k = k + 1;
    }
    proof {
        assert(hay@.subrange(at as int, at + needle.len()) =~= needle@);
    }
    true
}

/// Whether `needle` occurs somewhere in `hay`.
pub fn contains_chars(hay: &Vec<char>, needle: &Vec<char>) -> (found: bool)
    ensures
        found == is_infix(needle@, hay@),
{
    if needle.len() > hay.len() {
        return false;
    }
    let last: usize = hay.len() - needle.len();
    let mut at: usize = 0;
    while at < last
        invariant
            last == hay.len() - needle.len(),
            at <= last,
            forall|i: int| 0 <= i < at ==> !occurs_at(needle@, hay@, i),
        decreases last - at,
    {
        if matches_at(needle, hay, at) {
            return true;
        }
        at = at + 1;
    }
    matches_at(needle, hay, last)
}

/// Whether a character is white space as `char::is_whitespace` decides
/// it, which follows the Unicode property `White_Space`.
pub uninterp spec fn is_whitespace(c: char) -> bool;

/// Asks `char::is_whitespace`. The answer depends on the character alone;
/// it is named [`is_whitespace`].
#[verifier::external_body]
pub(crate) fn char_is_whitespace(c: char) -> (white: bool)
    ensures
        white == is_whitespace(c),
{
    c.is_whitespace()
}

/// Makes a `String` of the given characters with `String::from_iter`: the
/// view of the result is the sequence of the characters.
#[verifier::external_body]
pub(crate) fn text_of(chars: &Vec<char>) -> (text: String)
    ensures
        text@ == chars@,
{
    String::from_iter(chars)
}

/// The texts that a sequence of character vectors holds.
pub open spec fn texts_of(pieces: Seq<Vec<char>>) -> Seq<Seq<char>> {
    Seq::new(pieces.len(), |i: int| pieces[i]@)
}

/// A copy of the characters of `text` from position `from` up to `to`.
pub fn copy_range(text: &Vec<char>, from: usize, to: usize) -> (part: Vec<char>)
    requires
        from <= to <= text.len(),
    ensures
        part@ == text@.subrange(from as int, to as int),
{
    let mut part: Vec<char> = Vec::new();
    let mut i: usize = from;
    while i < to
        invariant
            from <= i <= to <= text.len(),
            part@ == text@.subrange(from as int, i as int),
        decreases to - i,
    {
        part.push(text[i]);
        proof {
            assert(part@ =~= text@.subrange(from as int, i + 1));
        }
        i = i + 1;
    }
    part
}

/// The pieces of `text` between the occurrences of `sep`: one more piece
/// than there are separators, empty pieces included.
pub open spec fn split_on(text: Seq<char>, sep: char) -> Seq<Seq<char>>
    decreases text.len(),
{
    if text.len() == 0 {
        seq![Seq::empty()]
    } else {
        let front = split_on(text.drop_last(), sep);
        if text.last() == sep {
            front.push(Seq::empty())
        } else {
            front.update(front.len() - 1, front.last().push(text.last()))
        }
    }
}

/// A text always splits into at least one piece.
pub proof fn lemma_split_on_nonempty(text: Seq<char>, sep: char)
    ensures
        split_on(text, sep).len() >= 1,
    decreases text.len(),
{
    if text.len() > 0 {
        lemma_split_on_nonempty(text.drop_last(), sep);
    }
}

/// Splits `text` at every occurrence of `sep`.
pub fn split_chars(text: &Vec<char>, sep: char) -> (pieces: Vec<Vec<char>>)
    ensures
        texts_of(pieces@) == split_on(text@, sep),
{
    let mut pieces: Vec<Vec<char>> = Vec::new();
    let mut piece: Vec<char> = Vec::new();
    let mut i: usize = 0;
    proof {
        assert(texts_of(pieces@).push(piece@) =~= split_on(text@.take(0), sep));
    }
    while i < text.len()
        invariant
            i <= text.len(),
            texts_of(pieces@).push(piece@) == split_on(text@.take(i as int), sep),
        decreases text.len() - i,
    {
        let c = text[i];
        let ghost front = split_on(text@.take(i as int), sep);
        proof {
            assert(text@.take(i + 1).drop_last() =~= text@.take(i as int));
            assert(text@.take(i + 1).last() == c);
            assert(front.len() == pieces@.len() + 1);
            assert(front.last() == piece@);
        }
        if c == sep {
            pieces.push(piece);
            piece = Vec::new();
            proof {
                assert(texts_of(pieces@).push(piece@) =~= front.push(Seq::empty()));
            }
        } else {
            piece.push(c);
            proof {
                assert(texts_of(pieces@).push(piece@) =~= front.update(
                    front.len() - 1,
                    front.last().push(c),
                ));
            }
        }
        i = i + 1;
    }
    proof {
        assert(text@.take(i as int) =~= text@);
    }
    let ghost before = texts_of(pieces@);
    let ghost last = piece@;
    pieces.push(piece);
    proof {
        assert(texts_of(pieces@) =~= before.push(last));
    }
    pieces
}

/// The words of `text`: its maximal runs of characters that are not white
/// space, in order.
pub open spec fn words_of(text: Seq<char>) -> Seq<Seq<char>>
    decreases text.len(),
{
    if text.len() == 0 {
        Seq::empty()
    } else {
        let front = words_of(text.drop_last());
        if is_whitespace(text.last()) {
            front
        } else if text.len() >= 2 && !is_whitespace(text[text.len() - 2]) {
            front.update(front.len() - 1, front.last().push(text.last()))
        } else {
            front.push(seq![text.last()])
        }
    }
}

/// Splits `text` into its words.
pub fn split_words(text: &Vec<char>) -> (words: Vec<Vec<char>>)
    ensures
        texts_of(words@) == words_of(text@),
{
    let mut words: Vec<Vec<char>> = Vec::new();
    let mut word: Vec<char> = Vec::new();
    let mut in_word: bool = false;
    let mut i: usize = 0;
    proof {
        assert(texts_of(words@) =~= words_of(text@.take(0)));
    }
    while i < text.len()
        invariant
            i <= text.len(),
            in_word == (i > 0 && !is_whitespace(text@[i - 1])),
            in_word ==> texts_of(words@).push(word@) == words_of(text@.take(i as int)),
            !in_word ==> texts_of(words@) == words_of(text@.take(i as int)) && word@.len() == 0,
        decreases text.len() - i,
    {
        let c = text[i];
        let ghost prefix = text@.take(i as int);
        let ghost front = words_of(prefix);
        proof {
            assert(text@.take(i + 1).drop_last() =~= prefix);
            assert(text@.take(i + 1).last() == c);
            if i > 0 {
                assert(text@.take(i + 1)[i - 1] == text@[i - 1]);
            }
        }
        if char_is_whitespace(c) {
            if in_word {
                words.push(word);
                word = Vec::new();
                proof {
                    assert(texts_of(words@) =~= front);
                }
            }
            in_word = false;
        } else {
            proof {
                if in_word {
                    assert(front.len() == words@.len() + 1);
                    assert(front.last() == word@);
                }
            }
            word.push(c);
            proof {
                if in_word {
                    assert(texts_of(words@).push(word@) =~= front.update(
                        front.len() - 1,
                        front.last().push(c),
                    ));
                } else {
                    assert(word@ =~= seq![c]);
                }
            }
            in_word = true;
        }
        i = i + 1;
    }
    proof {
        assert(text@.take(i as int) =~= text@);
    }
    if in_word {
        let ghost before = texts_of(words@);
        let ghost last = word@;
        words.push(word);
        proof {
            assert(texts_of(words@) =~= before.push(last));
        }
    }
    words
}

/// `text` without the white space at its start.
pub open spec fn trim_start(text: Seq<char>) -> Seq<char>
    decreases text.len(),
{
    if text.len() > 0 && is_whitespace(text[0]) {
        trim_start(text.drop_first())
    } else {
        text
    }
}

/// `text` without the white space at its end.
pub open spec fn trim_end(text: Seq<char>) -> Seq<char>
    decreases text.len(),
{
    if text.len() > 0 && is_whitespace(text.last()) {
        trim_end(text.drop_last())
    } else {
        text
    }
}

/// `text` without the white space at its start and at its end.
pub open spec fn trim(text: Seq<char>) -> Seq<char> {
    trim_end(trim_start(text))
}

/// The part of `text` from `from` up to `to`, without the white space at
/// its start and at its end.
pub fn trim_range(text: &Vec<char>, from: usize, to: usize) -> (part: Vec<char>)
    requires
        from <= to <= text.len(),
    ensures
        part@ == trim(text@.subrange(from as int, to as int)),
{
    let mut s: usize = from;
    while s < to && char_is_whitespace(text[s])
        invariant
            from <= s <= to <= text.len(),
            trim_start(text@.subrange(from as int, to as int)) == trim_start(
                text@.subrange(s as int, to as int),
            ),
        decreases to - s,
    {
        proof {
            assert(text@.subrange(s as int, to as int).drop_first() =~= text@.subrange(
                s + 1,
                to as int,
            ));
        }
        s = s + 1;
    }
    let mut e: usize = to;
    while e > s && char_is_whitespace(text[e - 1])
        invariant
            s <= e <= to <= text.len(),
            trim_end(text@.subrange(s as int, to as int)) == trim_end(
                text@.subrange(s as int, e as int),
            ),
        decreases e,
    {
        proof {
            assert(text@.subrange(s as int, e as int).drop_last() =~= text@.subrange(
                s as int,
                e - 1,
            ));
        }
        e = e - 1;
    }
    copy_range(text, s, e)
}

/// The first position at or after `from` where `needle` occurs in `hay`,
/// or the length of `hay` if there is none.
pub open spec fn find_from(needle: Seq<char>, hay: Seq<char>, from: int) -> int
    decreases hay.len() - from,
{
    if from < 0 || from >= hay.len() || from + needle.len() > hay.len() {
        hay.len() as int
    } else if occurs_at(needle, hay, from) {
        from
    } else {
        find_from(needle, hay, from + 1)
    }
}

/// The first position at or after `from` where `needle` occurs in `hay`.
pub fn find_chars(hay: &Vec<char>, needle: &Vec<char>, from: usize) -> (at: usize)
    requires
        from <= hay.len(),
    ensures
        at == find_from(needle@, hay@, from as int),
        from <= at <= hay.len(),
        at < hay.len() ==> at + needle.len() <= hay.len(),
{
    let mut at: usize = from;
    while at < hay.len() && needle.len() <= hay.len() - at
        invariant
            from <= at <= hay.len(),
            find_from(needle@, hay@, from as int) == find_from(needle@, hay@, at as int),
        decreases hay.len() - at,
    {
        if matches_at(needle, hay, at) {
            return at;
        }
        at = at + 1;
    }
    hay.len()
}

} // verus!
