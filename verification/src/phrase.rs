//! Normal form of a phrase: its words in lower case, with one space between
//! them; digits, whitespace and punctuation only part the words.

use vstd::prelude::*;

use crate::segments::{concatenation, lemma_concatenation_push};
use crate::text::{alphanumeric, ascii, ascii_lower, ascii_text, char_lowercase, is_whitespace,
    lowercase_char, trim, trimmed, whitespace};

verus! {

/// The digits 0 to 9.
pub open spec fn ascii_digit(c: char) -> bool {
    '0' <= c <= '9'
}

/// Whether a character parts words, given whether it is a letter or a
/// numeral: whitespace does, so do the digits 0 to 9, and all that is neither
/// a letter nor a numeral.
pub open spec fn parts_words(c: char, is_alphanumeric: bool) -> bool {
    whitespace(c) || ascii_digit(c) || !is_alphanumeric
}

/// The characters that part words.
pub open spec fn separator(c: char) -> bool {
    parts_words(c, alphanumeric(c))
}

/// The last character of `p` belongs to a word.
pub open spec fn in_word(p: Seq<char>) -> bool {
    p.len() > 0 && !separator(p.last())
}

/// The words of `p`: its longest stretches without a separator.
pub open spec fn words(p: Seq<char>) -> Seq<Seq<char>>
    decreases p.len(),
{
    if p.len() == 0 {
        Seq::empty()
    } else {
        let before = words(p.drop_last());
        if separator(p.last()) {
            before
        } else if in_word(p.drop_last()) {
            before.drop_last().push(before.last().push(p.last()))
        } else {
            before.push(seq![p.last()])
        }
    }
}

/// A word in lower case, character by character.
pub open spec fn lowered(word: Seq<char>) -> Seq<char>
    decreases word.len(),
{
    if word.len() == 0 {
        Seq::empty()
    } else {
        lowered(word.drop_last()) + char_lowercase(word.last())
    }
}

/// The words in lower case, with one space between each two.
pub open spec fn spaced(words: Seq<Seq<char>>) -> Seq<char>
    decreases words.len(),
{
    if words.len() == 0 {
        Seq::empty()
    } else if words.len() == 1 {
        lowered(words[0])
    } else {
        spaced(words.drop_last()).push(' ') + lowered(words.last())
    }
}

/// The normal form of a phrase.
pub open spec fn normalized(p: Seq<char>) -> Seq<char> {
    trimmed(spaced(words(p)))
}

/// A normal form under way: the text so far, and whether a separator has come
/// since its last character.
pub struct PhraseBuilder {
    pub out: String,
    pub gap: bool,
}

impl PhraseBuilder {
    /// The empty phrase.
    pub fn new() -> (r: Self)
        ensures
            r.out@ == Seq::<char>::empty(),
            !r.gap,
    {
        PhraseBuilder { out: String::new(), gap: false }
    }

    /// Takes a separator.
    pub fn separate(&mut self)
        ensures
            final(self).out@ == old(self).out@,
            final(self).gap,
    {
        self.gap = true;
    }

    /// Takes a character of a word, in lower case; a space goes before it
    /// where it begins a word other than the first.
    pub fn append(&mut self, lower: &[char])
        ensures
            final(self).out@ == (if old(self).gap && old(self).out@.len() > 0 {
                old(self).out@.push(' ')
            } else {
                old(self).out@
            }) + lower@,
            !final(self).gap,
    {
        if self.gap && !self.out.as_str().is_empty() {
            self.out.push(' ');
        }
        self.gap = false;
        let ghost start = self.out@;
        for i in 0..lower.len()
            invariant
                self.out@ == start + lower@.take(i as int),
                !self.gap,
        {
            self.out.push(lower[i]);
            assert(lower@.take(i + 1) =~= lower@.take(i as int).push(lower@[i as int]));
        }
        assert(lower@.take(lower@.len() as int) =~= lower@);
    }

    /// The finished text.
    pub fn finish(&self) -> (r: String)
        ensures
            r@ == trimmed(self.out@),
    {
        trim(self.out.as_str()).to_owned()
    }
}

/// The lower-case text of the words is not empty where there is a word, for
/// lower case never loses a character.
spec fn fills(p: Seq<char>) -> bool {
    &&& words(p).len() > 0 <==> spaced(words(p)).len() > 0
    &&& in_word(p) ==> words(p).len() > 0
}

proof fn lemma_words_push(p: Seq<char>, c: char)
    requires
        fills(p),
        separator(c) || char_lowercase(c).len() > 0,
    ensures
        fills(p.push(c)),
        separator(c) ==> words(p.push(c)) == words(p),
        !separator(c) ==> spaced(words(p.push(c))) == (if !in_word(p) && spaced(words(p)).len()
            > 0 {
            spaced(words(p)).push(' ')
        } else {
            spaced(words(p))
        }) + char_lowercase(c),
{
    let q = p.push(c);
    let before = words(p);
    assert(q.drop_last() =~= p);
    if !separator(c) {
        if in_word(p) {
            let grown = before.last().push(c);
            let after = before.drop_last().push(grown);
            assert(words(q) == after);
            assert(grown.drop_last() =~= before.last());
            assert(lowered(grown) == lowered(before.last()) + char_lowercase(c));
            assert(after.drop_last() =~= before.drop_last());
            if before.len() > 1 {
                assert(spaced(after) =~= spaced(before) + char_lowercase(c));
            } else {
                assert(spaced(after) == lowered(grown));
            }
        } else {
            let word = seq![c];
            let after = before.push(word);
            assert(words(q) == after);
            assert(after.drop_last() =~= before);
            assert(word.drop_last() =~= Seq::<char>::empty());
            assert(lowered(word.drop_last()) =~= Seq::<char>::empty());
            assert(lowered(word) =~= char_lowercase(c));
            if before.len() == 0 {
                assert(spaced(after) =~= char_lowercase(c));
                assert(spaced(before) =~= Seq::<char>::empty());
            }
        }
    }
}

/// Tells whether a character parts words, given whether it is a letter or a
/// numeral.
pub fn is_separator(c: char, is_alphanumeric: bool) -> (r: bool)
    ensures
        r == parts_words(c, is_alphanumeric),
{
    is_whitespace(c) || ('0' <= c && c <= '9') || !is_alphanumeric
}

/// Brings a phrase into its normal form.
pub fn normalize_phrase(phrase: &str) -> (r: String)
    ensures
        r@ == normalized(phrase@),
{
    let mut builder = PhraseBuilder::new();
    assert(phrase@.take(0) =~= Seq::<char>::empty());
    for c in it: phrase.chars()
        invariant
            it.seq() == phrase@,
            fills(phrase@.take(it.index() as int)),
            builder.out@ == spaced(words(phrase@.take(it.index() as int))),
            builder.gap == (it.index() > 0 && !in_word(phrase@.take(it.index() as int))),
    {
        let ghost before = phrase@.take(it.index() as int);
        assert(phrase@.take(it.index() + 1) =~= before.push(c));
        if is_separator(c, c.is_alphanumeric()) {
            builder.separate();
        } else {
            builder.append(lowercase_char(c).as_slice());
        }
        proof {
            lemma_words_push(before, c);
        }
    }
    assert(phrase@.take(phrase@.len() as int) =~= phrase@);
    builder.finish()
}

proof fn lemma_words_append(p: Seq<char>, q: Seq<char>, y: Seq<char>)
    requires
        words(p) == words(q),
        in_word(p) == in_word(q),
    ensures
        words(p + y) == words(q + y),
        in_word(p + y) == in_word(q + y),
    decreases y.len(),
{
    if y.len() == 0 {
        assert(p + y =~= p);
        assert(q + y =~= q);
    } else {
        lemma_words_append(p, q, y.drop_last());
        assert((p + y).drop_last() =~= p + y.drop_last());
        assert((q + y).drop_last() =~= q + y.drop_last());
    }
}

proof fn lemma_words_separators(p: Seq<char>, d: Seq<char>)
    requires
        forall|i: int| 0 <= i < d.len() ==> separator(#[trigger] d[i]),
    ensures
        words(p + d) == words(p),
        d.len() > 0 ==> !in_word(p + d),
    decreases d.len(),
{
    if d.len() == 0 {
        assert(p + d =~= p);
    } else {
        assert((p + d).drop_last() =~= p + d.drop_last());
        assert(separator(d[d.len() - 1]));
        assert forall|i: int| 0 <= i < d.drop_last().len() implies separator(
            #[trigger] d.drop_last()[i],
        ) by {
            assert(d.drop_last()[i] == d[i]);
        }
        lemma_words_separators(p, d.drop_last());
    }
}

/// A word is not empty and holds no digit, whitespace or punctuation, and
/// nothing else gets lost: the words hold the rest of the phrase in order.
pub proof fn law_words_hold_all_but_separators(p: Seq<char>)
    ensures
        forall|i: int| 0 <= i < words(p).len() ==> (#[trigger] words(p)[i]).len() > 0,
        forall|i: int, j: int|
            0 <= i < words(p).len() && 0 <= j < words(p)[i].len() ==> !separator(
                #[trigger] words(p)[i][j],
            ),
        concatenation(words(p)) == p.filter(|c: char| !separator(c)),
        in_word(p) ==> words(p).len() > 0,
    decreases p.len(),
{
    reveal(Seq::filter);
    if p.len() > 0 {
        let c = p.last();
        let before = words(p.drop_last());
        law_words_hold_all_but_separators(p.drop_last());
        if !separator(c) {
            if in_word(p.drop_last()) {
                let init = before.drop_last();
                assert(before =~= init.push(before.last()));
                lemma_concatenation_push(init, before.last());
                lemma_concatenation_push(init, before.last().push(c));
                assert(concatenation(words(p)) =~= concatenation(before).push(c));
                assert forall|i: int, j: int|
                    0 <= i < words(p).len() && 0 <= j < words(p)[i].len() implies !separator(
                    #[trigger] words(p)[i][j],
                ) by {
                    if i < init.len() {
                        assert(words(p)[i] == before[i]);
                    } else if j < before.last().len() {
                        assert(words(p)[i][j] == before[i][j]);
                    }
                }
            } else {
                lemma_concatenation_push(before, seq![c]);
                assert(concatenation(words(p)) =~= concatenation(before).push(c));
            }
        }
    }
}

/// Between two parts of a phrase it does not matter which separators stand,
/// nor how many, as long as there is one.
pub proof fn law_separators_do_not_matter(
    x: Seq<char>,
    d: Seq<char>,
    e: Seq<char>,
    y: Seq<char>,
)
    requires
        d.len() > 0,
        e.len() > 0,
        forall|i: int| 0 <= i < d.len() ==> separator(#[trigger] d[i]),
        forall|i: int| 0 <= i < e.len() ==> separator(#[trigger] e[i]),
    ensures
        normalized(x + d + y) == normalized(x + e + y),
{
    lemma_words_separators(x, d);
    lemma_words_separators(x, e);
    lemma_words_append(x + d, x + e, y);
}

/// Phrases that differ only in a number have the same normal form.
pub proof fn law_numbers_do_not_matter(x: Seq<char>, d: Seq<char>, e: Seq<char>, y: Seq<char>)
    requires
        d.len() > 0,
        e.len() > 0,
        forall|i: int| 0 <= i < d.len() ==> ascii_digit(#[trigger] d[i]),
        forall|i: int| 0 <= i < e.len() ==> ascii_digit(#[trigger] e[i]),
    ensures
        normalized(x + d + y) == normalized(x + e + y),
{
    law_separators_do_not_matter(x, d, e, y);
}

/// Separators at either end of a phrase do not matter.
pub proof fn law_outer_separators_do_not_matter(d: Seq<char>, p: Seq<char>, e: Seq<char>)
    requires
        forall|i: int| 0 <= i < d.len() ==> separator(#[trigger] d[i]),
        forall|i: int| 0 <= i < e.len() ==> separator(#[trigger] e[i]),
    ensures
        normalized(d + p + e) == normalized(p),
{
    let none = Seq::<char>::empty();
    lemma_words_separators(d + p, e);
    lemma_words_separators(none, d);
    assert(none + d =~= d);
    assert(none + p =~= p);
    lemma_words_append(d, none, p);
}

/// `texts` with `gaps` between them, one between each two.
pub open spec fn interleaved(texts: Seq<Seq<char>>, gaps: Seq<Seq<char>>) -> Seq<char>
    decreases texts.len(),
{
    if texts.len() == 0 {
        Seq::empty()
    } else if texts.len() == 1 {
        texts[0]
    } else {
        interleaved(texts.drop_last(), gaps.drop_last()) + gaps.last() + texts.last()
    }
}

/// A number: one or more of the digits 0 to 9.
pub open spec fn number(d: Seq<char>) -> bool {
    d.len() > 0 && forall|i: int| 0 <= i < d.len() ==> ascii_digit(#[trigger] d[i])
}

/// Phrases that differ only in the numbers in them, however many there are,
/// have the same normal form.
pub proof fn law_any_numbers_do_not_matter(
    texts: Seq<Seq<char>>,
    ds: Seq<Seq<char>>,
    es: Seq<Seq<char>>,
)
    requires
        texts.len() == ds.len() + 1,
        texts.len() == es.len() + 1,
        forall|i: int| 0 <= i < ds.len() ==> number(#[trigger] ds[i]),
        forall|i: int| 0 <= i < es.len() ==> number(#[trigger] es[i]),
    ensures
        normalized(interleaved(texts, ds)) == normalized(interleaved(texts, es)),
{
    lemma_numbers(texts, ds, es);
}

proof fn lemma_numbers(texts: Seq<Seq<char>>, ds: Seq<Seq<char>>, es: Seq<Seq<char>>)
    requires
        texts.len() == ds.len() + 1,
        texts.len() == es.len() + 1,
        forall|i: int| 0 <= i < ds.len() ==> number(#[trigger] ds[i]),
        forall|i: int| 0 <= i < es.len() ==> number(#[trigger] es[i]),
    ensures
        words(interleaved(texts, ds)) == words(interleaved(texts, es)),
        in_word(interleaved(texts, ds)) == in_word(interleaved(texts, es)),
    decreases texts.len(),
{
    if texts.len() > 1 {
        let x = interleaved(texts.drop_last(), ds.drop_last());
        let y = interleaved(texts.drop_last(), es.drop_last());
        assert forall|i: int| 0 <= i < ds.drop_last().len() implies number(
            #[trigger] ds.drop_last()[i],
        ) by {
            assert(ds.drop_last()[i] == ds[i]);
        }
        assert forall|i: int| 0 <= i < es.drop_last().len() implies number(
            #[trigger] es.drop_last()[i],
        ) by {
            assert(es.drop_last()[i] == es[i]);
        }
        lemma_numbers(texts.drop_last(), ds.drop_last(), es.drop_last());
        assert(number(ds[ds.len() - 1]));
        assert(number(es[es.len() - 1]));
        lemma_words_separators(x, ds.last());
        lemma_words_separators(y, es.last());
        lemma_words_append(x + ds.last(), y + es.last(), texts.last());
    }
}

/// The two texts are equal but for the case of ASCII letters.
pub open spec fn equal_but_case(p: Seq<char>, q: Seq<char>) -> bool {
    &&& p.len() == q.len()
    &&& forall|i: int| 0 <= i < p.len() ==> ascii_lower(#[trigger] p[i]) == ascii_lower(q[i])
}

proof fn lemma_case_of_char(c: char, d: char)
    requires
        ascii_lower(c) == ascii_lower(d),
    ensures
        separator(c) == separator(d),
        char_lowercase(c) == char_lowercase(d),
{
}

proof fn lemma_case_of_lowered(v: Seq<char>, w: Seq<char>)
    requires
        equal_but_case(v, w),
    ensures
        lowered(v) == lowered(w),
    decreases v.len(),
{
    if v.len() > 0 {
        assert(ascii_lower(v[v.len() - 1]) == ascii_lower(w[w.len() - 1]));
        lemma_case_of_char(v.last(), w.last());
        assert(equal_but_case(v.drop_last(), w.drop_last())) by {
            assert forall|i: int| 0 <= i < v.drop_last().len() implies ascii_lower(
                #[trigger] v.drop_last()[i],
            ) == ascii_lower(w.drop_last()[i]) by {
                assert(v.drop_last()[i] == v[i]);
            }
        }
        lemma_case_of_lowered(v.drop_last(), w.drop_last());
    }
}

proof fn lemma_case_of_words(p: Seq<char>, q: Seq<char>)
    requires
        equal_but_case(p, q),
    ensures
        words(p).len() == words(q).len(),
        forall|i: int|
            0 <= i < words(p).len() ==> equal_but_case(#[trigger] words(p)[i], words(q)[i]),
        in_word(p) == in_word(q),
    decreases p.len(),
{
    if p.len() > 0 {
        let x = p.drop_last();
        let y = q.drop_last();
        assert(ascii_lower(p[p.len() - 1]) == ascii_lower(q[q.len() - 1]));
        lemma_case_of_char(p.last(), q.last());
        assert(equal_but_case(x, y)) by {
            assert forall|i: int| 0 <= i < x.len() implies ascii_lower(#[trigger] x[i])
                == ascii_lower(y[i]) by {
                assert(x[i] == p[i]);
            }
        }
        lemma_case_of_words(x, y);
        law_words_hold_all_but_separators(x);
        if !separator(p.last()) {
            let n = words(p).len() - 1;
            if in_word(x) {
                assert(equal_but_case(words(x)[n], words(y)[n]));
                assert(words(p)[n] == words(x)[n].push(p.last()));
                assert(words(q)[n] == words(y)[n].push(q.last()));
                assert forall|i: int| 0 <= i < words(p)[n].len() implies ascii_lower(
                    #[trigger] words(p)[n][i],
                ) == ascii_lower(words(q)[n][i]) by {
                    if i < words(x)[n].len() {
                        assert(words(p)[n][i] == words(x)[n][i]);
                    }
                }
            }
            assert forall|i: int| 0 <= i < words(p).len() implies equal_but_case(
                #[trigger] words(p)[i],
                words(q)[i],
            ) by {
                if i < n {
                    assert(equal_but_case(words(x)[i], words(y)[i]));
                }
            }
        }
    }
}

proof fn lemma_spaced_same(v: Seq<Seq<char>>, w: Seq<Seq<char>>)
    requires
        v.len() == w.len(),
        forall|i: int| 0 <= i < v.len() ==> lowered(#[trigger] v[i]) == lowered(w[i]),
    ensures
        spaced(v) == spaced(w),
    decreases v.len(),
{
    if v.len() > 0 {
        assert(lowered(v[v.len() - 1]) == lowered(w[w.len() - 1]));
        assert forall|i: int| 0 <= i < v.drop_last().len() implies lowered(
            #[trigger] v.drop_last()[i],
        ) == lowered(w.drop_last()[i]) by {
            assert(v.drop_last()[i] == v[i]);
        }
        lemma_spaced_same(v.drop_last(), w.drop_last());
    }
}

/// Phrases that differ only in the case of ASCII letters have the same normal
/// form.
pub proof fn law_case_does_not_matter(p: Seq<char>, q: Seq<char>)
    requires
        equal_but_case(p, q),
    ensures
        normalized(p) == normalized(q),
{
    lemma_case_of_words(p, q);
    assert forall|i: int| 0 <= i < words(p).len() implies lowered(#[trigger] words(p)[i])
        == lowered(words(q)[i]) by {
        lemma_case_of_lowered(words(p)[i], words(q)[i]);
    }
    lemma_spaced_same(words(p), words(q));
}

/// Words begin afresh behind a separator.
proof fn lemma_words_join(x: Seq<char>, y: Seq<char>)
    requires
        !in_word(x),
    ensures
        words(x + y) == words(x) + words(y),
        y.len() > 0 ==> in_word(x + y) == in_word(y),
    decreases y.len(),
{
    if y.len() == 0 {
        assert(x + y =~= x);
        assert(words(x) + words(y) =~= words(x));
    } else {
        let z = y.drop_last();
        lemma_words_join(x, z);
        law_words_hold_all_but_separators(z);
        assert((x + y).drop_last() =~= x + z);
        assert(z.len() == 0 ==> x + z =~= x);
        assert(words(x + y) =~= words(x) + words(y));
    }
}

proof fn lemma_spaced_join(v: Seq<Seq<char>>, w: Seq<Seq<char>>)
    requires
        v.len() > 0,
        w.len() > 0,
    ensures
        spaced(v + w) == spaced(v).push(' ') + spaced(w),
    decreases w.len(),
{
    assert((v + w).drop_last() =~= v + w.drop_last());
    if w.len() == 1 {
        assert(v + w.drop_last() =~= v);
    } else {
        lemma_spaced_join(v, w.drop_last());
        assert(spaced(v + w) =~= spaced(v).push(' ') + spaced(w));
    }
}

/// Two phrases with separators between them have the words of both, and one
/// space between those of the one and those of the other.
pub proof fn law_phrases_join(a: Seq<char>, d: Seq<char>, b: Seq<char>)
    requires
        d.len() > 0,
        forall|i: int| 0 <= i < d.len() ==> separator(#[trigger] d[i]),
        words(a).len() > 0,
        words(b).len() > 0,
    ensures
        words(a + d + b) == words(a) + words(b),
        spaced(words(a + d + b)) == spaced(words(a)).push(' ') + spaced(words(b)),
{
    lemma_words_separators(a, d);
    lemma_words_join(a + d, b);
    lemma_spaced_join(words(a), words(b));
}

/// The lower case of `c`, where it belongs to a word, is not empty and holds
/// no whitespace. This is so of all ASCII.
pub open spec fn clear(c: char) -> bool {
    separator(c) || (char_lowercase(c).len() > 0 && forall|i: int|
        0 <= i < char_lowercase(c).len() ==> !whitespace(#[trigger] char_lowercase(c)[i]))
}

/// A text of clear characters.
pub open spec fn clear_text(p: Seq<char>) -> bool {
    forall|i: int| 0 <= i < p.len() ==> clear(#[trigger] p[i])
}

/// Tells whether the lower case of `c` is clear of whitespace.
pub fn is_clear(c: char) -> (r: bool)
    ensures
        r == clear(c),
{
    if is_separator(c, c.is_alphanumeric()) {
        return true;
    }
    let lower: Vec<char> = lowercase_char(c);
    for i in 0..lower.len()
        invariant
            lower@ == char_lowercase(c),
            !separator(c),
            forall|j: int| 0 <= j < i ==> !whitespace(#[trigger] char_lowercase(c)[j]),
    {
        if is_whitespace(lower[i]) {
            assert(whitespace(char_lowercase(c)[i as int]));
            return false;
        }
    }
    true
}

proof fn lemma_lowered_clear(w: Seq<char>)
    requires
        w.len() > 0,
        forall|i: int| 0 <= i < w.len() ==> clear(#[trigger] w[i]) && !separator(w[i]),
    ensures
        lowered(w).len() > 0,
        forall|i: int| 0 <= i < lowered(w).len() ==> !whitespace(#[trigger] lowered(w)[i]),
    decreases w.len(),
{
    let v = w.drop_last();
    let c = w[w.len() - 1];
    assert(clear(c) && !separator(c));
    if v.len() > 0 {
        assert forall|i: int| 0 <= i < v.len() implies clear(#[trigger] v[i]) && !separator(
            v[i],
        ) by {
            assert(v[i] == w[i]);
        }
        lemma_lowered_clear(v);
    }
    assert forall|i: int| 0 <= i < lowered(w).len() implies !whitespace(
        #[trigger] lowered(w)[i],
    ) by {
        if i < lowered(v).len() {
            assert(lowered(w)[i] == lowered(v)[i]);
        } else {
            assert(lowered(w)[i] == char_lowercase(c)[i - lowered(v).len()]);
        }
    }
}

proof fn lemma_spaced_ends(w: Seq<Seq<char>>)
    requires
        w.len() > 0,
        forall|i: int|
            0 <= i < w.len() ==> {
                let t = lowered(#[trigger] w[i]);
                t.len() > 0 && !whitespace(t.first()) && !whitespace(t.last())
            },
    ensures
        spaced(w).len() > 0,
        !whitespace(spaced(w).first()),
        !whitespace(spaced(w).last()),
    decreases w.len(),
{
    let t = lowered(w[w.len() - 1]);
    assert(t.len() > 0 && !whitespace(t.last()));
    if w.len() > 1 {
        let v = w.drop_last();
        assert forall|i: int| 0 <= i < v.len() implies {
            let t = lowered(#[trigger] v[i]);
            t.len() > 0 && !whitespace(t.first()) && !whitespace(t.last())
        } by {
            assert(v[i] == w[i]);
        }
        lemma_spaced_ends(v);
        assert(spaced(w).first() == spaced(v).first());
        assert(spaced(w).last() == t.last());
    }
}

/// In a clear phrase trimming finds nothing to remove.
proof fn lemma_clear_words(p: Seq<char>)
    requires
        clear_text(p),
    ensures
        normalized(p) == spaced(words(p)),
{
    let w = words(p);
    lemma_words_chars(p);
    law_words_hold_all_but_separators(p);
    assert forall|i: int| 0 <= i < w.len() implies {
        let t = lowered(#[trigger] w[i]);
        t.len() > 0 && !whitespace(t.first()) && !whitespace(t.last())
    } by {
        assert forall|j: int| 0 <= j < w[i].len() implies clear(#[trigger] w[i][j]) && !separator(
            w[i][j],
        ) by {
            let c = words(p)[i][j];
            assert(p.contains(c));
            let k = choose|k: int| 0 <= k < p.len() && p[k] == c;
            assert(clear(p[k]));
        }
        lemma_lowered_clear(w[i]);
        let t = lowered(w[i]);
        assert(!whitespace(t[0]) && !whitespace(t[t.len() - 1]));
    }
    if w.len() > 0 {
        lemma_spaced_ends(w);
    }
}

/// The normal forms of two phrases, joined by a space, are that of the two
/// with separators between them.
pub proof fn law_normal_forms_join(a: Seq<char>, d: Seq<char>, b: Seq<char>)
    requires
        clear_text(a),
        clear_text(b),
        d.len() > 0,
        forall|i: int| 0 <= i < d.len() ==> separator(#[trigger] d[i]),
        normalized(a).len() > 0,
        normalized(b).len() > 0,
    ensures
        normalized(a + d + b) == normalized(a).push(' ') + normalized(b),
{
    let p = a + d + b;
    assert forall|i: int| 0 <= i < p.len() implies clear(#[trigger] p[i]) by {
        if i < a.len() {
            assert(p[i] == a[i]);
        } else if i < a.len() + d.len() {
            assert(p[i] == d[i - a.len()]);
        } else {
            assert(p[i] == b[i - a.len() - d.len()]);
        }
    }
    lemma_clear_words(a);
    lemma_clear_words(b);
    lemma_clear_words(p);
    law_phrases_join(a, d, b);
}

/// The lower case of `c`, where it belongs to a word, is made of characters
/// that belong to words and are their own lower case. This is so of all ASCII;
/// U+0130, whose lower case ends in a combining dot, is an exception.
pub open spec fn settled(c: char) -> bool {
    separator(c) || (char_lowercase(c).len() > 0 && forall|i: int|
        0 <= i < char_lowercase(c).len() ==> !separator(#[trigger] char_lowercase(c)[i])
            && char_lowercase(char_lowercase(c)[i]) == seq![char_lowercase(c)[i]])
}

/// A text of settled characters.
pub open spec fn settled_text(p: Seq<char>) -> bool {
    forall|i: int| 0 <= i < p.len() ==> settled(#[trigger] p[i])
}

/// Tells whether the lower case of `c` is settled.
pub fn is_settled(c: char) -> (r: bool)
    ensures
        r == settled(c),
{
    if is_separator(c, c.is_alphanumeric()) {
        return true;
    }
    let lower: Vec<char> = lowercase_char(c);
    for i in 0..lower.len()
        invariant
            lower@ == char_lowercase(c),
            !separator(c),
            forall|j: int|
                0 <= j < i ==> !separator(#[trigger] char_lowercase(c)[j]) && char_lowercase(
                    char_lowercase(c)[j],
                ) == seq![char_lowercase(c)[j]],
    {
        let d: char = lower[i];
        assert(d == char_lowercase(c)[i as int]);
        if is_separator(d, d.is_alphanumeric()) {
            return false;
        }
        let again: Vec<char> = lowercase_char(d);
        if again.len() != 1 || again[0] != d {
            assert(again@ == char_lowercase(d));
            assert(char_lowercase(d) != seq![d]);
            return false;
        }
        assert(again@ =~= seq![d]);
    }
    true
}

/// What is settled is clear.
pub proof fn law_settled_is_clear(p: Seq<char>)
    requires
        settled_text(p),
    ensures
        clear_text(p),
{
    assert forall|i: int| 0 <= i < p.len() implies clear(#[trigger] p[i]) by {
        assert(settled(p[i]));
    }
}

/// A text of ASCII characters alone is settled.
pub proof fn law_ascii_is_settled(p: Seq<char>)
    requires
        ascii_text(p),
    ensures
        settled_text(p),
{
    assert forall|i: int| 0 <= i < p.len() implies settled(#[trigger] p[i]) by {
        assert(ascii(p[i]));
        assert(char_lowercase(p[i]) =~= seq![ascii_lower(p[i])]);
    }
}

/// A character of a word in normal form.
spec fn plain(c: char) -> bool {
    !separator(c) && char_lowercase(c) == seq![c]
}

spec fn plain_text(t: Seq<char>) -> bool {
    forall|i: int| 0 <= i < t.len() ==> plain(#[trigger] t[i])
}

/// What the words hold comes out of the phrase.
proof fn lemma_words_chars(p: Seq<char>)
    ensures
        forall|i: int, j: int|
            0 <= i < words(p).len() && 0 <= j < words(p)[i].len() ==> p.contains(
                #[trigger] words(p)[i][j],
            ),
    decreases p.len(),
{
    if p.len() > 0 {
        let x = p.drop_last();
        lemma_words_chars(x);
        law_words_hold_all_but_separators(x);
        assert forall|i: int, j: int|
            0 <= i < words(p).len() && 0 <= j < words(p)[i].len() implies p.contains(
            #[trigger] words(p)[i][j],
        ) by {
            let c = words(p)[i][j];
            if i < words(x).len() && j < words(x)[i].len() {
                assert(c == words(x)[i][j]);
                let k = choose|k: int| 0 <= k < x.len() && x[k] == c;
                assert(p[k] == c);
            } else {
                assert(p[p.len() - 1] == c);
            }
        }
    }
}

proof fn lemma_lowered_plain(w: Seq<char>)
    requires
        settled_text(w),
        forall|i: int| 0 <= i < w.len() ==> !separator(#[trigger] w[i]),
    ensures
        plain_text(lowered(w)),
        w.len() > 0 ==> lowered(w).len() > 0,
    decreases w.len(),
{
    if w.len() > 0 {
        let v = w.drop_last();
        assert forall|i: int| 0 <= i < v.len() implies settled(#[trigger] v[i]) && !separator(
            v[i],
        ) by {
            assert(v[i] == w[i]);
        }
        lemma_lowered_plain(v);
        let c = w[w.len() - 1];
        assert(settled(c) && !separator(c));
        assert forall|i: int| 0 <= i < lowered(w).len() implies plain(#[trigger] lowered(w)[i]) by {
            if i < lowered(v).len() {
                assert(lowered(w)[i] == lowered(v)[i]);
            } else {
                assert(lowered(w)[i] == char_lowercase(c)[i - lowered(v).len()]);
            }
        }
    }
}

proof fn lemma_plain_lowered(t: Seq<char>)
    requires
        plain_text(t),
    ensures
        lowered(t) == t,
    decreases t.len(),
{
    if t.len() > 0 {
        let u = t.drop_last();
        assert forall|i: int| 0 <= i < u.len() implies plain(#[trigger] u[i]) by {
            assert(u[i] == t[i]);
        }
        lemma_plain_lowered(u);
        assert(plain(t[t.len() - 1]));
    }
    assert(lowered(t) =~= t);
}

proof fn lemma_one_word(w: Seq<char>)
    requires
        w.len() > 0,
        forall|i: int| 0 <= i < w.len() ==> !separator(#[trigger] w[i]),
    ensures
        words(w) == seq![w],
    decreases w.len(),
{
    let v = w.drop_last();
    assert forall|i: int| 0 <= i < v.len() implies !separator(#[trigger] v[i]) by {
        assert(v[i] == w[i]);
    }
    assert(!separator(w[w.len() - 1]));
    if v.len() > 0 {
        assert(!separator(v[v.len() - 1]));
        lemma_one_word(v);
        assert(words(w)[0] =~= w);
    } else {
        assert(seq![w.last()] =~= w);
        assert(words(v) =~= Seq::<Seq<char>>::empty());
    }
    assert(words(w) =~= seq![w]);
}

/// The words of a settled phrase, in lower case: what its normal form is made
/// of.
spec fn lower_words(w: Seq<Seq<char>>) -> Seq<Seq<char>> {
    w.map_values(|t: Seq<char>| lowered(t))
}

/// The words of what is made of words in normal form are these again.
proof fn lemma_words_of_spaced(w: Seq<Seq<char>>)
    requires
        forall|i: int|
            0 <= i < w.len() ==> lowered(#[trigger] w[i]).len() > 0 && plain_text(lowered(w[i])),
    ensures
        words(spaced(w)) == lower_words(w),
    decreases w.len(),
{
    if w.len() == 0 {
        assert(words(spaced(w)) =~= lower_words(w));
    } else {
        let t = lowered(w[w.len() - 1]);
        assert(plain_text(t));
        assert(plain(t[0]) && plain(t[t.len() - 1]));
        assert forall|i: int| 0 <= i < t.len() implies !separator(#[trigger] t[i]) by {
            assert(plain(t[i]));
        }
        lemma_one_word(t);
        if w.len() == 1 {
            assert(words(spaced(w)) =~= lower_words(w));
        } else {
            let v = w.drop_last();
            assert forall|i: int| 0 <= i < v.len() implies lowered(#[trigger] v[i]).len() > 0
                && plain_text(lowered(v[i])) by {
                assert(v[i] == w[i]);
            }
            lemma_words_of_spaced(v);
            let x = spaced(v) + seq![' '];
            assert(spaced(v).push(' ') =~= x);
            lemma_words_separators(spaced(v), seq![' ']);
            lemma_words_join(x, t);
            assert(lower_words(w) =~= lower_words(v).push(t));
            assert(words(spaced(w)) =~= lower_words(w));
        }
    }
}

proof fn lemma_settled_words(p: Seq<char>)
    requires
        settled_text(p),
    ensures
        forall|i: int|
            0 <= i < words(p).len() ==> lowered(#[trigger] words(p)[i]).len() > 0 && plain_text(
                lowered(words(p)[i]),
            ),
        normalized(p) == spaced(words(p)),
{
    lemma_words_chars(p);
    law_words_hold_all_but_separators(p);
    assert forall|i: int| 0 <= i < words(p).len() implies lowered(#[trigger] words(p)[i]).len() > 0
        && plain_text(lowered(words(p)[i])) by {
        assert forall|j: int| 0 <= j < words(p)[i].len() implies settled(
            #[trigger] words(p)[i][j],
        ) && !separator(words(p)[i][j]) by {
            let c = words(p)[i][j];
            assert(p.contains(c));
            let k = choose|k: int| 0 <= k < p.len() && p[k] == c;
            assert(settled(p[k]));
        }
        lemma_lowered_plain(words(p)[i]);
    }
    law_settled_is_clear(p);
    lemma_clear_words(p);
}

/// A normal form is its own normal form.
pub proof fn law_normalizing_twice_is_normalizing_once(p: Seq<char>)
    requires
        settled_text(p),
    ensures
        normalized(normalized(p)) == normalized(p),
{
    let w = words(p);
    lemma_settled_words(p);
    lemma_words_of_spaced(w);
    assert forall|i: int| 0 <= i < w.len() implies lowered(#[trigger] lower_words(w)[i])
        == lowered(w[i]) by {
        assert(plain_text(lowered(w[i])));
        lemma_plain_lowered(lowered(w[i]));
    }
    lemma_spaced_same(lower_words(w), w);
}


/// What parts words is whitespace, a digit 0 to 9, or neither a letter nor a
/// numeral; no letter ever does, of whatever script.
pub proof fn law_letters_are_never_separators(c: char)
    ensures
        separator(c) <==> whitespace(c) || '0' <= c <= '9' || !alphanumeric(c),
        parts_words(c, true) <==> whitespace(c) || '0' <= c <= '9',
        parts_words(c, false),
{
}

/// Separators alone have no words and nothing as their normal form, however
/// many there are.
pub proof fn law_separators_alone_are_nothing(d: Seq<char>)
    requires
        forall|i: int|
            0 <= i < d.len() ==> whitespace(#[trigger] d[i]) || '0' <= d[i] <= '9' || !alphanumeric(
                d[i],
            ),
    ensures
        words(d).len() == 0,
        normalized(d).len() == 0,
{
    let none = Seq::<char>::empty();
    assert forall|i: int| 0 <= i < d.len() implies separator(#[trigger] d[i]) by {}
    lemma_words_separators(none, d);
    assert(none + d =~= d);
}

/// Lower case goes character by character: that of two texts behind each other
/// is theirs behind each other, and that of one character comes from the
/// Unicode tables.
pub proof fn law_lowered_goes_by_characters(a: Seq<char>, b: Seq<char>, c: char)
    ensures
        lowered(a + b) == lowered(a) + lowered(b),
        lowered(seq![c]) == char_lowercase(c),
        lowered(Seq::empty()) == Seq::<char>::empty(),
    decreases b.len(),
{
    let one = seq![c];
    assert(one.drop_last() =~= Seq::<char>::empty());
    assert(lowered(one.drop_last()) =~= Seq::<char>::empty());
    assert(lowered(one) =~= char_lowercase(c));
    if b.len() == 0 {
        assert(a + b =~= a);
        assert(lowered(a) + lowered(b) =~= lowered(a));
    } else {
        law_lowered_goes_by_characters(a, b.drop_last(), c);
        assert((a + b).drop_last() =~= a + b.drop_last());
        assert(lowered(a + b) =~= lowered(a) + lowered(b));
    }
}

/// A stretch of letters and other characters that part no words is one word,
/// however long it is and whatever the script, and nothing of it gets lost:
/// its normal form is the lower case of all its characters in order.
pub proof fn law_a_word_is_kept_whole(w: Seq<char>)
    requires
        w.len() > 0,
        forall|i: int|
            0 <= i < w.len() ==> alphanumeric(#[trigger] w[i]) && !whitespace(w[i]) && !('0' <= w[i]
                <= '9'),
    ensures
        words(w) == seq![w],
        spaced(words(w)) == lowered(w),
        normalized(w) == trimmed(lowered(w)),
        (forall|i: int| 0 <= i < w.len() ==> (#[trigger] char_lowercase(w[i])).len() > 0) && (
        forall|i: int, j: int|
            0 <= i < w.len() && 0 <= j < char_lowercase(w[i]).len() ==> !whitespace(
                #[trigger] char_lowercase(w[i])[j],
            )) ==> normalized(w) == lowered(w),
{
    assert forall|i: int| 0 <= i < w.len() implies !separator(#[trigger] w[i]) by {}
    lemma_one_word(w);
    if (forall|i: int| 0 <= i < w.len() ==> (#[trigger] char_lowercase(w[i])).len() > 0) && (
    forall|i: int, j: int|
        0 <= i < w.len() && 0 <= j < char_lowercase(w[i]).len() ==> !whitespace(
            #[trigger] char_lowercase(w[i])[j],
        )) {
        assert forall|i: int| 0 <= i < w.len() implies clear(#[trigger] w[i]) by {
            assert(char_lowercase(w[i]).len() > 0);
        }
        lemma_clear_words(w);
    }
}

/// What every word of a phrase gives stands in the normal form, with one space
/// before it: a word behind separators adds its lower case to that of what
/// came before, however long that is.
pub proof fn law_a_further_word_is_added(p: Seq<char>, d: Seq<char>, w: Seq<char>)
    requires
        words(p).len() > 0,
        d.len() > 0,
        w.len() > 0,
        forall|i: int|
            0 <= i < d.len() ==> whitespace(#[trigger] d[i]) || '0' <= d[i] <= '9' || !alphanumeric(
                d[i],
            ),
        forall|i: int|
            0 <= i < w.len() ==> alphanumeric(#[trigger] w[i]) && !whitespace(w[i]) && !('0' <= w[i]
                <= '9'),
    ensures
        words(p + d + w) == words(p).push(w),
        spaced(words(p + d + w)) == spaced(words(p)).push(' ') + lowered(w),
        normalized(p + d + w) == trimmed(spaced(words(p)).push(' ') + lowered(w)),
{
    assert forall|i: int| 0 <= i < d.len() implies separator(#[trigger] d[i]) by {}
    law_a_word_is_kept_whole(w);
    law_phrases_join(p, d, w);
    assert(words(p) + seq![w] =~= words(p).push(w));
}

} // verus!
