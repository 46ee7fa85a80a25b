//! Fingerprints of the action plans in a message: the sentences that announce
//! what the speaker is about to do, in normal form.

use vstd::prelude::*;

use crate::phrase::{equal_but_case, interleaved, law_any_numbers_do_not_matter,
    law_case_does_not_matter, law_outer_separators_do_not_matter, normalize_phrase, normalized,
    number, separator};
use crate::segments::{concatenation, is_segment, law_segments_come_one_by_one,
    law_segments_concatenate, law_segments_end_in_enders, law_segments_make_up_the_text,
    lemma_concatenation_push, lemma_first_ender, lemma_first_ender_at, no_ender, remainder,
    segments};
use crate::text::{ascii, ascii_alphanumeric, ascii_lower, ascii_text,
    law_trimming_removes_outer_whitespace, lemma_trimmed, starts_with, text_lowercase, trim,
    trim_start, trimmed, trimmed_end, trimmed_start, whitespace};

verus! {

/// The least number of characters of a fingerprint; shorter ones are noise.
pub const MIN_PHRASE_CHARS: usize = 12;

/// The characters that end a sentence.
pub open spec fn sentence_enders() -> Set<char> {
    set!['.', '!', '?', '。', '！', '？', '；', ';', '\n']
}

/// Tells whether `c` ends a sentence.
fn is_sentence_ender(c: char) -> (r: bool)
    ensures
        r == sentence_enders().contains(c),
{
    c == '.' || c == '!' || c == '?' || c == '。' || c == '！' || c == '？' || c == '；' || c == ';'
        || c == '\n'
}

/// The openings of a Chinese action plan.
pub open spec fn cn_action_prefixes() -> Seq<Seq<char>> {
    seq!["让我"@, "我来"@, "我要"@, "我需要"@, "下一步"@, "现在来"@]
}

/// The openings of an English action plan.
pub open spec fn en_action_prefixes() -> Seq<Seq<char>> {
    seq![
        "let me"@,
        "i will"@,
        "i'll"@,
        "let's"@,
        "i need to"@,
        "i want to"@,
        "let me try"@,
        "let me run"@,
        "let me check"@,
        "let me view"@,
        "let me do"@,
        "let me execute"@,
    ]
}

/// `s` begins with one of `prefixes`.
pub open spec fn begins_with_any(s: Seq<char>, prefixes: Seq<Seq<char>>) -> bool {
    exists|i: int| 0 <= i < prefixes.len() && (#[trigger] prefixes[i]).is_prefix_of(s)
}

/// A character that continues a word of English or of code.
pub open spec fn word_char(c: char) -> bool {
    ascii_alphanumeric(c) || c == '_'
}

/// `s` begins with `prefix`, and the word that `prefix` ends with is over
/// there.
pub open spec fn opens_with(s: Seq<char>, prefix: Seq<char>) -> bool {
    prefix.is_prefix_of(s) && (s.len() == prefix.len() || !word_char(s[prefix.len() as int]))
}

/// `s` opens with one of `prefixes`.
pub open spec fn opens_with_any(s: Seq<char>, prefixes: Seq<Seq<char>>) -> bool {
    exists|i: int| 0 <= i < prefixes.len() && opens_with(s, #[trigger] prefixes[i])
}

/// A text in lower case opens like an action plan. An English opening stands
/// in words of its own: `let me see` has one, `let mean = 0` has none. Chinese
/// puts no space between words, so there what follows does not matter.
pub open spec fn action_opening(lower: Seq<char>) -> bool {
    begins_with_any(lower, cn_action_prefixes()) || opens_with_any(lower, en_action_prefixes())
}

/// A sentence is an action plan where it opens like one, whatever the case of
/// its letters and the whitespace before it.
pub open spec fn action_plan(sentence: Seq<char>) -> bool {
    action_opening(text_lowercase(trimmed_start(sentence)))
}

/// The sentences of a text: its segments, and what follows the last of them
/// unless that is blank.
pub open spec fn sentences(text: Seq<char>) -> Seq<Seq<char>> {
    let done = segments(text, sentence_enders());
    let rest = remainder(text, sentence_enders());
    if trimmed(rest).len() > 0 {
        done.push(rest)
    } else {
        done
    }
}

/// The fingerprint of a sentence: its normal form, where it is an action plan
/// and long enough.
pub open spec fn sentence_fingerprint(sentence: Seq<char>) -> Option<Seq<char>> {
    let s = trimmed(sentence);
    if s.len() > 0 && action_plan(s) && normalized(s).len() >= MIN_PHRASE_CHARS {
        Some(normalized(s))
    } else {
        None
    }
}

/// The fingerprints of those of `parts` that have one, in order.
pub open spec fn fingerprints_of(parts: Seq<Seq<char>>) -> Seq<Seq<char>>
    decreases parts.len(),
{
    if parts.len() == 0 {
        Seq::empty()
    } else {
        let before = fingerprints_of(parts.drop_last());
        match sentence_fingerprint(parts.last()) {
            Some(f) => before.push(f),
            None => before,
        }
    }
}

/// The fingerprints of a message.
pub open spec fn fingerprints(text: Seq<char>) -> Seq<Seq<char>> {
    fingerprints_of(sentences(text))
}

/// The texts that a sequence of strings holds.
pub open spec fn texts(v: Seq<String>) -> Seq<Seq<char>> {
    Seq::new(v.len(), |i: int| v[i]@)
}

/// Extracts the fingerprints of the action plans in a message.
pub fn extract_action_plan_fingerprints(text: &str) -> (r: Vec<String>)
    ensures
        texts(r@) == fingerprints(text@),
{
    let parts: Vec<String> = split_sentences(text);
    let ghost all = texts(parts@);
    let mut found: Vec<String> = Vec::new();
    assert(texts(found@) =~= fingerprints_of(all.take(0)));
    for i in 0..parts.len()
        invariant
            all == texts(parts@),
            texts(found@) == fingerprints_of(all.take(i as int)),
    {
        assert(all.take(i + 1).drop_last() =~= all.take(i as int));
        let sentence: &str = trim(parts[i].as_str());
        if !sentence.is_empty() && is_action_plan_sentence(sentence) {
            let phrase: String = normalize_phrase(sentence);
            if phrase.as_str().unicode_len() >= MIN_PHRASE_CHARS {
                let ghost before = found@;
                found.push(phrase);
                assert(texts(found@) =~= texts(before).push(phrase@));
            }
        }
    }
    assert(all.take(parts.len() as int) =~= all);
    found
}

/// Tells whether a sentence is an action plan.
pub fn is_action_plan_sentence(sentence: &str) -> (r: bool)
    ensures
        r == action_plan(sentence@),
{
    let lower: String = trim_start(sentence).to_lowercase();
    has_action_opening(lower.as_str())
}

/// Tells whether a text in lower case opens like an action plan.
pub fn has_action_opening(lower: &str) -> (r: bool)
    ensures
        r == action_opening(lower@),
{
    let cn: [&str; 6] = ["让我", "我来", "我要", "我需要", "下一步", "现在来"];
    let en: [&str; 12] = [
        "let me",
        "i will",
        "i'll",
        "let's",
        "i need to",
        "i want to",
        "let me try",
        "let me run",
        "let me check",
        "let me view",
        "let me do",
        "let me execute",
    ];
    proof {
        assert(cn@.map_values(|p: &str| p@) =~= cn_action_prefixes());
        assert(en@.map_values(|p: &str| p@) =~= en_action_prefixes());
    }
    starts_with_any(lower, &cn) || starts_with_words_of_any(lower, &en)
}

/// Tells whether `s` begins with one of `prefixes`.
pub fn starts_with_any(s: &str, prefixes: &[&str]) -> (r: bool)
    ensures
        r == begins_with_any(s@, prefixes@.map_values(|p: &str| p@)),
{
    let ghost all = prefixes@.map_values(|p: &str| p@);
    for i in 0..prefixes.len()
        invariant
            all == prefixes@.map_values(|p: &str| p@),
            forall|j: int| 0 <= j < i ==> !(#[trigger] all[j]).is_prefix_of(s@),
    {
        if starts_with(s, prefixes[i]) {
            assert(all[i as int].is_prefix_of(s@));
            return true;
        }
    }
    false
}

/// Tells whether `s` opens with `prefix`, with the end of a word behind it.
fn starts_with_words(s: &str, prefix: &str) -> (r: bool)
    ensures
        r == opens_with(s@, prefix@),
{
    if !starts_with(s, prefix) {
        return false;
    }
    let len: usize = prefix.unicode_len();
    if s.unicode_len() == len {
        return true;
    }
    let c: char = s.get_char(len);
    !(('a' <= c && c <= 'z') || ('A' <= c && c <= 'Z') || ('0' <= c && c <= '9') || c == '_')
}

/// Tells whether `s` opens with one of `prefixes`, with the end of a word
/// behind it.
pub fn starts_with_words_of_any(s: &str, prefixes: &[&str]) -> (r: bool)
    ensures
        r == opens_with_any(s@, prefixes@.map_values(|p: &str| p@)),
{
    let ghost all = prefixes@.map_values(|p: &str| p@);
    for i in 0..prefixes.len()
        invariant
            all == prefixes@.map_values(|p: &str| p@),
            forall|j: int| 0 <= j < i ==> !opens_with(s@, #[trigger] all[j]),
    {
        if starts_with_words(s, prefixes[i]) {
            assert(opens_with(s@, all[i as int]));
            return true;
        }
    }
    false
}

/// Cuts a text into its sentences.
pub fn split_sentences(text: &str) -> (r: Vec<String>)
    ensures
        texts(r@) == sentences(text@),
{
    let mut done: Vec<String> = Vec::new();
    let mut pending: String = String::new();
    assert(texts(done@) + segments(text@, sentence_enders()) =~= segments(text@, sentence_enders()));
    assert(pending@ + text@ =~= text@);
    assert(text@.skip(0) =~= text@);
    for c in it: text.chars()
        invariant
            it.seq() == text@,
            no_ender(pending@, sentence_enders()),
            ({
                let ahead = pending@ + text@.skip(it.index() as int);
                &&& texts(done@) + segments(ahead, sentence_enders()) == segments(
                    text@,
                    sentence_enders(),
                )
                &&& remainder(ahead, sentence_enders()) == remainder(text@, sentence_enders())
            }),
    {
        let ghost n = it.index() as int;
        let ghost before = pending@;
        let ghost ahead = before + text@.skip(n);
        pending.push(c);
        assert(text@.skip(n) =~= seq![c] + text@.skip(n + 1));
        assert(ahead =~= pending@ + text@.skip(n + 1));
        if is_sentence_ender(c) {
            let ghost so_far = done@;
            proof {
                assert forall|i: int| 0 <= i < before.len() implies !sentence_enders().contains(
                    #[trigger] ahead[i],
                ) by {
                    assert(ahead[i] == before[i]);
                }
                lemma_first_ender_at(ahead, sentence_enders(), before.len() as int);
                assert(ahead.take(before.len() as int + 1) =~= pending@);
                assert(ahead.skip(before.len() as int + 1) =~= text@.skip(n + 1));
            }
            done.push(pending);
            pending = String::new();
            proof {
                let rest = segments(text@.skip(n + 1), sentence_enders());
                assert(pending@ + text@.skip(n + 1) =~= text@.skip(n + 1));
                assert(texts(done@) =~= texts(so_far).push(before.push(c)));
                assert(texts(done@) + rest =~= texts(so_far) + (seq![before.push(c)] + rest));
            }
        } else {
            assert forall|i: int| 0 <= i < pending@.len() implies !sentence_enders().contains(
                #[trigger] pending@[i],
            ) by {
                if i < before.len() {
                    assert(pending@[i] == before[i]);
                }
            }
        }
    }
    proof {
        let ahead = pending@ + text@.skip(text@.len() as int);
        assert(ahead =~= pending@);
        lemma_first_ender(pending@, sentence_enders());
        assert(texts(done@) + segments(ahead, sentence_enders()) =~= texts(done@));
    }
    if !trim(pending.as_str()).is_empty() {
        let ghost so_far = done@;
        done.push(pending);
        assert(texts(done@) =~= texts(so_far).push(pending@));
    }
    done
}

/// The number of English openings, counted from the first, that do not begin
/// with another opening.
pub open spec fn shortest_en_prefixes() -> int {
    6
}

proof fn lemma_prefix_chars(prefix: Seq<char>, s: Seq<char>)
    requires
        prefix.is_prefix_of(s),
    ensures
        forall|i: int| 0 <= i < prefix.len() ==> #[trigger] s[i] == prefix[i],
{
    assert forall|i: int| 0 <= i < prefix.len() implies #[trigger] s[i] == prefix[i] by {
        assert(s.subrange(0, prefix.len() as int)[i] == s[i]);
    }
}

/// A text whose first words only begin like an English opening, because the
/// last of them goes on, does not open like an action plan.
pub proof fn law_longer_word_is_no_opening(lower: Seq<char>, k: int)
    requires
        0 <= k < shortest_en_prefixes(),
        en_action_prefixes()[k].is_prefix_of(lower),
        en_action_prefixes()[k].len() < lower.len(),
        word_char(lower[en_action_prefixes()[k].len() as int]),
    ensures
        !action_opening(lower),
{
    reveal_strlit("让我");
    reveal_strlit("我来");
    reveal_strlit("我要");
    reveal_strlit("我需要");
    reveal_strlit("下一步");
    reveal_strlit("现在来");
    reveal_strlit("let me");
    reveal_strlit("i will");
    reveal_strlit("i'll");
    reveal_strlit("let's");
    reveal_strlit("i need to");
    reveal_strlit("i want to");
    reveal_strlit("let me try");
    reveal_strlit("let me run");
    reveal_strlit("let me check");
    reveal_strlit("let me view");
    reveal_strlit("let me do");
    reveal_strlit("let me execute");
    let p = en_action_prefixes()[k];
    lemma_prefix_chars(p, lower);
    assert(lower[0] == p[0] && lower[1] == p[1] && lower[2] == p[2] && lower[3] == p[3]);
    assert forall|j: int| 0 <= j < en_action_prefixes().len() implies !opens_with(
        lower,
        #[trigger] en_action_prefixes()[j],
    ) by {
        let q = en_action_prefixes()[j];
        if j != k && q.is_prefix_of(lower) {
            lemma_prefix_chars(q, lower);
            assert(lower[0] == q[0] && lower[1] == q[1] && lower[2] == q[2] && lower[3] == q[3]);
            assert(q.len() > 6 ==> lower[6] == q[6]);
        }
    }
    assert forall|j: int| 0 <= j < cn_action_prefixes().len() implies !(
    #[trigger] cn_action_prefixes()[j]).is_prefix_of(lower) by {
        let q = cn_action_prefixes()[j];
        if q.is_prefix_of(lower) {
            lemma_prefix_chars(q, lower);
            assert(lower[0] == q[0]);
        }
    }
}

/// A sentence whose first words only begin like an English opening gives no
/// fingerprint.
pub proof fn law_longer_word_gives_no_fingerprint(sentence: Seq<char>, k: int)
    requires
        ({
            let lower = text_lowercase(trimmed_start(trimmed(sentence)));
            let prefix = en_action_prefixes()[k];
            &&& 0 <= k < shortest_en_prefixes()
            &&& prefix.is_prefix_of(lower)
            &&& prefix.len() < lower.len()
            &&& word_char(lower[prefix.len() as int])
        }),
    ensures
        sentence_fingerprint(sentence) is None,
{
    law_longer_word_is_no_opening(text_lowercase(trimmed_start(trimmed(sentence))), k);
}

proof fn lemma_case_of_trimmed(s: Seq<char>, t: Seq<char>)
    requires
        equal_but_case(s, t),
        ascii_text(s),
    ensures
        equal_but_case(trimmed_start(s), trimmed_start(t)),
        ascii_text(trimmed_start(s)),
        equal_but_case(trimmed_end(s), trimmed_end(t)),
        ascii_text(trimmed_end(s)),
    decreases s.len(),
{
    if s.len() > 0 {
        assert(ascii_lower(s[0]) == ascii_lower(t[0]));
        assert(ascii_lower(s[s.len() - 1]) == ascii_lower(t[t.len() - 1]));
        let a = s.drop_first();
        let b = t.drop_first();
        assert forall|i: int| 0 <= i < a.len() implies ascii_lower(#[trigger] a[i])
            == ascii_lower(b[i]) && ascii(a[i]) by {
            assert(a[i] == s[i + 1]);
        }
        lemma_case_of_trimmed(a, b);
        let c = s.drop_last();
        let d = t.drop_last();
        assert forall|i: int| 0 <= i < c.len() implies ascii_lower(#[trigger] c[i])
            == ascii_lower(d[i]) && ascii(c[i]) by {
            assert(c[i] == s[i]);
        }
        lemma_case_of_trimmed(c, d);
    }
}

/// ASCII sentences that differ only in the case of letters have the same
/// fingerprint.
pub proof fn law_case_does_not_change_the_fingerprint(s: Seq<char>, t: Seq<char>)
    requires
        ascii_text(s),
        equal_but_case(s, t),
    ensures
        sentence_fingerprint(s) == sentence_fingerprint(t),
{
    lemma_case_of_trimmed(s, t);
    lemma_case_of_trimmed(trimmed_start(s), trimmed_start(t));
    let u = trimmed(s);
    let v = trimmed(t);
    law_case_does_not_matter(u, v);
    lemma_case_of_trimmed(u, v);
    let x = trimmed_start(u);
    let y = trimmed_start(v);
    assert forall|i: int| 0 <= i < y.len() implies ascii(#[trigger] y[i]) by {
        assert(ascii(x[i]));
        assert(ascii_lower(x[i]) == ascii_lower(y[i]));
    }
    assert(text_lowercase(x) =~= text_lowercase(y));
}

/// Splitting loses nothing but a blank end: the sentences make up the text,
/// or the text up to its last ender where only whitespace follows. Each ends
/// in an ender and holds no other, but for a last one that holds none.
pub proof fn law_sentences_make_up_the_text(text: Seq<char>)
    ensures
        ({
            let rest = remainder(text, sentence_enders());
            let parts = sentences(text);
            &&& no_ender(rest, sentence_enders())
            &&& if trimmed(rest).len() > 0 {
                concatenation(parts) == text && parts.last() == rest
            } else {
                concatenation(parts) + rest == text
            }
            &&& forall|i: int|
                0 <= i < parts.len() ==> is_segment(#[trigger] parts[i], sentence_enders()) || (i
                    == parts.len() - 1 && parts[i] == rest)
        }),
{
    law_segments_make_up_the_text(text, sentence_enders());
    law_segments_end_in_enders(text, sentence_enders());
    let done = segments(text, sentence_enders());
    let rest = remainder(text, sentence_enders());
    lemma_concatenation_push(done, rest);
}

/// `f` is the normal form of the sentence at position `j`, an action plan.
pub open spec fn comes_from(f: Seq<char>, parts: Seq<Seq<char>>, j: int) -> bool {
    &&& 0 <= j < parts.len()
    &&& action_plan(trimmed(parts[j]))
    &&& f == normalized(trimmed(parts[j]))
}

/// `f` is the normal form of an action plan among `parts`.
pub open spec fn is_plan_form(f: Seq<char>, parts: Seq<Seq<char>>) -> bool {
    exists|j: int| #[trigger] comes_from(f, parts, j)
}

/// Only action plans give fingerprints, and each that is long enough gives
/// one: the fingerprints are the normal forms of those sentences.
pub proof fn law_fingerprints_are_those_of_action_plans(parts: Seq<Seq<char>>)
    ensures
        forall|i: int|
            0 <= i < fingerprints_of(parts).len() ==> is_plan_form(
                #[trigger] fingerprints_of(parts)[i],
                parts,
            ),
        forall|i: int|
            0 <= i < fingerprints_of(parts).len() ==> (#[trigger] fingerprints_of(parts)[i]).len()
                >= MIN_PHRASE_CHARS,
        forall|j: int|
            0 <= j < parts.len() && sentence_fingerprint(parts[j]) is Some
                ==> fingerprints_of(parts).contains(#[trigger] sentence_fingerprint(parts[j])->0),
    decreases parts.len(),
{
    if parts.len() > 0 {
        let init = parts.drop_last();
        let before = fingerprints_of(init);
        let after = fingerprints_of(parts);
        law_fingerprints_are_those_of_action_plans(init);
        assert forall|i: int| 0 <= i < after.len() implies is_plan_form(
            #[trigger] after[i],
            parts,
        ) by {
            if i < before.len() {
                assert(is_plan_form(before[i], init));
                let j = choose|j: int| #[trigger] comes_from(before[i], init, j);
                assert(comes_from(after[i], parts, j));
            } else {
                assert(comes_from(after[i], parts, parts.len() - 1));
            }
        }
        assert forall|j: int|
            0 <= j < parts.len() && sentence_fingerprint(parts[j]) is Some implies after.contains(
            #[trigger] sentence_fingerprint(parts[j])->0,
        ) by {
            let f = sentence_fingerprint(parts[j])->0;
            if j < init.len() {
                assert(init[j] == parts[j]);
                assert(before.contains(sentence_fingerprint(init[j])->0));
                let i = choose|i: int| 0 <= i < before.len() && before[i] == f;
                assert(after[i] == f);
            } else {
                assert(after[after.len() - 1] == f);
            }
        }
    }
}

/// Text in which no sentence is an action plan gives no fingerprints.
pub proof fn law_no_action_plan_no_fingerprint(text: Seq<char>)
    requires
        forall|j: int|
            0 <= j < sentences(text).len() ==> !action_plan(
                trimmed(#[trigger] sentences(text)[j]),
            ),
    ensures
        fingerprints(text).len() == 0,
{
    law_fingerprints_are_those_of_action_plans(sentences(text));
    if fingerprints(text).len() > 0 {
        let f = fingerprints_of(sentences(text))[0];
        assert(is_plan_form(f, sentences(text)));
        let j = choose|j: int| #[trigger] comes_from(f, sentences(text), j);
        assert(!action_plan(trimmed(sentences(text)[j])));
    }
}

/// Trimming a phrase does not change its normal form.
proof fn lemma_normalized_trimmed(s: Seq<char>)
    ensures
        normalized(trimmed(s)) == normalized(s),
{
    let (a, b) = lemma_trimmed(s);
    let front = s.take(a);
    let back = s.skip(b);
    assert(s =~= front + trimmed(s) + back);
    assert forall|i: int| 0 <= i < front.len() implies separator(#[trigger] front[i]) by {
        assert(front[i] == s[i]);
    }
    assert forall|i: int| 0 <= i < back.len() implies separator(#[trigger] back[i]) by {
        assert(back[i] == s[b + i]);
    }
    law_outer_separators_do_not_matter(front, trimmed(s), back);
}

/// Two action plans that differ only in the numbers in them, however many
/// there are, have the same fingerprint.
pub proof fn law_renumbered_plans_share_a_fingerprint(
    parts: Seq<Seq<char>>,
    ds: Seq<Seq<char>>,
    es: Seq<Seq<char>>,
)
    requires
        parts.len() == ds.len() + 1,
        parts.len() == es.len() + 1,
        forall|i: int| 0 <= i < ds.len() ==> number(#[trigger] ds[i]),
        forall|i: int| 0 <= i < es.len() ==> number(#[trigger] es[i]),
        action_plan(trimmed(interleaved(parts, ds))),
        action_plan(trimmed(interleaved(parts, es))),
    ensures
        sentence_fingerprint(interleaved(parts, ds)) == sentence_fingerprint(
            interleaved(parts, es),
        ),
{
    let s = interleaved(parts, ds);
    let t = interleaved(parts, es);
    law_any_numbers_do_not_matter(parts, ds, es);
    lemma_normalized_trimmed(s);
    lemma_normalized_trimmed(t);
    assert(trimmed(s).len() == 0 ==> normalized(trimmed(s)).len() == 0);
    assert(trimmed(t).len() == 0 ==> normalized(trimmed(t)).len() == 0);
}


/// What ends a sentence, and nothing else does.
pub proof fn law_sentence_enders(c: char)
    ensures
        sentence_enders().contains(c) <==> c == '.' || c == '!' || c == '?' || c == '。' || c == '！'
            || c == '？' || c == '；' || c == ';' || c == '\n',
{
}

/// The texts of a sequence of strings are those of all its strings, whole and
/// in order.
pub proof fn law_texts(v: Seq<String>)
    ensures
        texts(v).len() == v.len(),
        forall|i: int| 0 <= i < v.len() ==> #[trigger] texts(v)[i] == v[i]@,
{
}

proof fn lemma_blank(t: Seq<char>)
    ensures
        trimmed(t).len() == 0 <==> forall|i: int| 0 <= i < t.len() ==> whitespace(#[trigger] t[i]),
{
    let (a, b) = lemma_trimmed(t);
    if a < b {
        assert(!whitespace(t[a]));
    } else {
        assert forall|i: int| 0 <= i < t.len() implies whitespace(#[trigger] t[i]) by {
            if i < a {
            } else {
                assert(b <= i);
            }
        }
    }
}

/// The sentences come one by one: what stands before an ender is a sentence
/// together with it, and what follows is split by itself, however much it is.
/// The end of a text is a sentence unless it is blank.
pub proof fn law_sentences_come_one_by_one(head: Seq<char>, ender: char, rest: Seq<char>)
    requires
        forall|i: int| 0 <= i < head.len() ==> !sentence_enders().contains(#[trigger] head[i]),
        sentence_enders().contains(ender),
    ensures
        sentences(head.push(ender) + rest) == seq![head.push(ender)] + sentences(rest),
        (forall|i: int| 0 <= i < head.len() ==> whitespace(#[trigger] head[i])) ==> sentences(
            head,
        ).len() == 0,
        !(forall|i: int| 0 <= i < head.len() ==> whitespace(#[trigger] head[i])) ==> sentences(
            head,
        ) == seq![head],
{
    law_segments_come_one_by_one(head, ender, rest, sentence_enders());
    lemma_blank(head);
    assert(sentences(head.push(ender) + rest) =~= seq![head.push(ender)] + sentences(rest));
    assert(Seq::<Seq<char>>::empty().push(head) =~= seq![head]);
}

proof fn lemma_fingerprints_add(a: Seq<Seq<char>>, b: Seq<Seq<char>>)
    ensures
        fingerprints_of(a + b) == fingerprints_of(a) + fingerprints_of(b),
    decreases b.len(),
{
    if b.len() == 0 {
        assert(a + b =~= a);
        assert(fingerprints_of(a) + fingerprints_of(b) =~= fingerprints_of(a));
    } else {
        lemma_fingerprints_add(a, b.drop_last());
        assert((a + b).drop_last() =~= a + b.drop_last());
        assert(fingerprints_of(a + b) =~= fingerprints_of(a) + fingerprints_of(b));
    }
}

/// The fingerprints of two messages behind each other are those of the one
/// and then those of the other, as long as the first ends with its sentence;
/// so no sentence goes unseen, however long the message.
pub proof fn law_fingerprints_of_messages_add_up(a: Seq<char>, b: Seq<char>)
    requires
        a.len() == 0 || sentence_enders().contains(a[a.len() - 1]),
    ensures
        sentences(a + b) == sentences(a) + sentences(b),
        fingerprints(a + b) == fingerprints(a) + fingerprints(b),
{
    law_segments_concatenate(a, b, sentence_enders());
    lemma_blank(remainder(a, sentence_enders()));
    assert(sentences(a + b) =~= sentences(a) + sentences(b));
    lemma_fingerprints_add(sentences(a), sentences(b));
}

proof fn lemma_short_normal_form(s: Seq<char>)
    ensures
        s.len() == 0 ==> normalized(s).len() == 0,
{
}

/// A message of one sentence, with an ender or without, has its normal form as
/// the only fingerprint where it is an action plan of 12 characters or more,
/// and none otherwise, whatever its length.
pub proof fn law_fingerprint_of_one_sentence(head: Seq<char>, ender: char)
    requires
        forall|i: int| 0 <= i < head.len() ==> !sentence_enders().contains(#[trigger] head[i]),
        sentence_enders().contains(ender),
    ensures
        ({
            let s = trimmed(head.push(ender));
            fingerprints(head.push(ender)) == if action_plan(s) && normalized(s).len() >= 12 {
                seq![normalized(s)]
            } else {
                Seq::empty()
            }
        }),
        ({
            let s = trimmed(head);
            fingerprints(head) == if action_plan(s) && normalized(s).len() >= 12 {
                seq![normalized(s)]
            } else {
                Seq::empty()
            }
        }),
{
    let none = Seq::<char>::empty();
    let whole = head.push(ender);
    law_sentences_come_one_by_one(head, ender, none);
    law_sentences_come_one_by_one(none, ender, none);
    assert(whole + none =~= whole);
    assert(sentences(none) =~= Seq::<Seq<char>>::empty());
    assert(seq![whole] + sentences(none) =~= seq![whole]);
    assert(sentences(whole) == seq![whole]);
    lemma_fingerprint_alone(whole);
    lemma_blank(head);
    lemma_short_normal_form(trimmed(head));
    lemma_short_normal_form(trimmed(whole));
    if trimmed(head).len() > 0 {
        lemma_fingerprint_alone(head);
    } else {
        assert(sentences(head) =~= Seq::<Seq<char>>::empty());
    }
}

proof fn lemma_fingerprint_alone(s: Seq<char>)
    ensures
        fingerprints_of(seq![s]) == match sentence_fingerprint(s) {
            Some(f) => seq![f],
            None => Seq::empty(),
        },
{
    assert(seq![s].drop_last() =~= Seq::<Seq<char>>::empty());
    assert(fingerprints_of(seq![s].drop_last()) =~= Seq::<Seq<char>>::empty());
    assert(seq![s].last() == s);
    match sentence_fingerprint(s) {
        Some(f) => {
            assert(fingerprints_of(seq![s]) =~= seq![f]);
        },
        None => {},
    }
}

/// The sentences of a message that are action plans with 12 characters or more
/// of normal form, by their positions.
pub open spec fn plans_at(parts: Seq<Seq<char>>, at: Seq<int>) -> bool {
    &&& forall|i: int, j: int| 0 <= i < j < at.len() ==> #[trigger] at[i] < #[trigger] at[j]
    &&& forall|i: int| 0 <= i < at.len() ==> 0 <= #[trigger] at[i] < parts.len()
    &&& forall|k: int|
        0 <= k < parts.len() ==> (at.contains(k) <==> action_plan(trimmed(#[trigger] parts[k]))
            && normalized(trimmed(parts[k])).len() >= 12)
}

proof fn lemma_plans_at(parts: Seq<Seq<char>>) -> (at: Seq<int>)
    ensures
        plans_at(parts, at),
        fingerprints_of(parts).len() == at.len(),
        forall|i: int|
            0 <= i < at.len() ==> #[trigger] fingerprints_of(parts)[i] == normalized(
                trimmed(parts[at[i]]),
            ),
    decreases parts.len(),
{
    if parts.len() == 0 {
        Seq::empty()
    } else {
        let init = parts.drop_last();
        let n = parts.len() - 1;
        let s = trimmed(parts[n]);
        let before = lemma_plans_at(init);
        lemma_short_normal_form(s);
        let at = if action_plan(s) && normalized(s).len() >= 12 {
            before.push(n)
        } else {
            before
        };
        assert forall|k: int| 0 <= k < parts.len() implies (at.contains(k) <==> action_plan(
            trimmed(#[trigger] parts[k]),
        ) && normalized(trimmed(parts[k])).len() >= 12) by {
            if k < n {
                assert(init[k] == parts[k]);
                if before.contains(k) {
                    let i = choose|i: int| 0 <= i < before.len() && before[i] == k;
                    assert(at[i] == k);
                }
                if at.contains(k) {
                    let i = choose|i: int| 0 <= i < at.len() && at[i] == k;
                    assert(before[i] == k);
                }
            } else {
                if action_plan(s) && normalized(s).len() >= 12 {
                    assert(at[at.len() - 1] == n);
                } else if at.contains(k) {
                    let i = choose|i: int| 0 <= i < at.len() && at[i] == k;
                    assert(before[i] < init.len());
                }
            }
        }
        assert forall|i: int| 0 <= i < at.len() implies #[trigger] fingerprints_of(parts)[i]
            == normalized(trimmed(parts[at[i]])) by {
            if i < before.len() {
                assert(fingerprints_of(init)[i] == normalized(trimmed(init[before[i]])));
                assert(init[before[i]] == parts[at[i]]);
            }
        }
        at
    }
}

/// Every sentence of a message counts: there are as many fingerprints as it
/// has action plans of 12 characters or more, wherever they stand in it, and
/// they are the normal forms of these in the same order.
pub proof fn law_every_sentence_counts(text: Seq<char>) -> (at: Seq<int>)
    ensures
        plans_at(sentences(text), at),
        fingerprints(text).len() == at.len(),
        forall|i: int|
            0 <= i < at.len() ==> #[trigger] fingerprints(text)[i] == normalized(
                trimmed(sentences(text)[at[i]]),
            ),
        forall|j: int|
            0 <= j < sentences(text).len() && action_plan(trimmed(#[trigger] sentences(text)[j]))
                && normalized(trimmed(sentences(text)[j])).len() >= 12 ==> fingerprints(
                text,
            ).contains(normalized(trimmed(sentences(text)[j]))),
{
    let at = lemma_plans_at(sentences(text));
    assert forall|j: int|
        0 <= j < sentences(text).len() && action_plan(trimmed(#[trigger] sentences(text)[j]))
            && normalized(trimmed(sentences(text)[j])).len() >= 12 implies fingerprints(
        text,
    ).contains(normalized(trimmed(sentences(text)[j]))) by {
        assert(at.contains(j));
        let i = choose|i: int| 0 <= i < at.len() && at[i] == j;
        assert(fingerprints(text)[i] == normalized(trimmed(sentences(text)[j])));
    }
    at
}

/// An English opening counts where it is over: behind it stands nothing, or a
/// character that is no ASCII letter, digit or underscore. What does not begin
/// with it does not open with it.
pub proof fn law_opens_with(prefix: Seq<char>, rest: Seq<char>, other: Seq<char>)
    ensures
        opens_with(prefix + rest, prefix) <==> rest.len() == 0 || !('a' <= rest[0] <= 'z' || 'A'
            <= rest[0] <= 'Z' || '0' <= rest[0] <= '9' || rest[0] == '_'),
        opens_with(other, prefix) ==> prefix.is_prefix_of(other),
{
    assert(prefix =~= (prefix + rest).subrange(0, prefix.len() as int));
    assert(rest.len() > 0 ==> (prefix + rest)[prefix.len() as int] == rest[0]);
}

/// Of no prefixes none fits; one prefix more fits what fitted before and what
/// it fits itself.
pub proof fn law_one_more_prefix(s: Seq<char>, prefixes: Seq<Seq<char>>, prefix: Seq<char>)
    ensures
        !begins_with_any(s, Seq::empty()),
        !opens_with_any(s, Seq::empty()),
        begins_with_any(s, prefixes.push(prefix)) <==> begins_with_any(s, prefixes)
            || prefix.is_prefix_of(s),
        opens_with_any(s, prefixes.push(prefix)) <==> opens_with_any(s, prefixes) || opens_with(
            s,
            prefix,
        ),
{
    let more = prefixes.push(prefix);
    assert(more[prefixes.len() as int] == prefix);
    assert forall|i: int| 0 <= i < prefixes.len() implies #[trigger] more[i] == prefixes[i] by {}
    if begins_with_any(s, prefixes) {
        let i = choose|i: int| 0 <= i < prefixes.len() && (#[trigger] prefixes[i]).is_prefix_of(s);
        assert(more[i].is_prefix_of(s));
    }
    if opens_with_any(s, prefixes) {
        let i = choose|i: int| 0 <= i < prefixes.len() && opens_with(s, #[trigger] prefixes[i]);
        assert(opens_with(s, more[i]));
    }
}

proof fn lemma_longer_prefix(s: Seq<char>, longer: Seq<char>, shorter: Seq<char>)
    requires
        shorter.is_prefix_of(longer),
        shorter.len() < longer.len(),
        longer[shorter.len() as int] == ' ',
        opens_with(s, longer),
    ensures
        opens_with(s, shorter),
{
    lemma_prefix_chars(longer, s);
    lemma_prefix_chars(shorter, longer);
    assert(s[shorter.len() as int] == ' ');
    assert forall|i: int| 0 <= i < shorter.len() implies s[i] == shorter[i] by {
        assert(s[i] == longer[i]);
        assert(longer[i] == shorter[i]);
    }
    assert(shorter =~= s.subrange(0, shorter.len() as int));
}

/// A text opens like an action plan exactly where it begins with one of six
/// Chinese openings or opens with one of six English ones; its length and what
/// follows do not matter.
pub proof fn law_there_are_twelve_openings(s: Seq<char>)
    ensures
        action_opening(s) <==> {
            ||| "让我"@.is_prefix_of(s)
            ||| "我来"@.is_prefix_of(s)
            ||| "我要"@.is_prefix_of(s)
            ||| "我需要"@.is_prefix_of(s)
            ||| "下一步"@.is_prefix_of(s)
            ||| "现在来"@.is_prefix_of(s)
            ||| opens_with(s, "let me"@)
            ||| opens_with(s, "i will"@)
            ||| opens_with(s, "i'll"@)
            ||| opens_with(s, "let's"@)
            ||| opens_with(s, "i need to"@)
            ||| opens_with(s, "i want to"@)
        },
{
    let cn = cn_action_prefixes();
    let en = en_action_prefixes();
    assert(cn[0] == "让我"@ && cn[1] == "我来"@ && cn[2] == "我要"@ && cn[3] == "我需要"@ && cn[4]
        == "下一步"@ && cn[5] == "现在来"@);
    assert(en[0] == "let me"@ && en[1] == "i will"@ && en[2] == "i'll"@ && en[3] == "let's"@
        && en[4] == "i need to"@ && en[5] == "i want to"@);
    reveal_strlit("let me");
    reveal_strlit("let me try");
    reveal_strlit("let me run");
    reveal_strlit("let me check");
    reveal_strlit("let me view");
    reveal_strlit("let me do");
    reveal_strlit("let me execute");
    assert forall|j: int| 6 <= j < en.len() && opens_with(s, #[trigger] en[j]) implies opens_with(
        s,
        "let me"@,
    ) by {
        assert("let me"@ =~= en[j].subrange(0, 6));
        lemma_longer_prefix(s, en[j], "let me"@);
    }
    if begins_with_any(s, cn) {
        let i = choose|i: int| 0 <= i < cn.len() && (#[trigger] cn[i]).is_prefix_of(s);
        assert(i == 0 || i == 1 || i == 2 || i == 3 || i == 4 || i == 5);
    }
    if opens_with_any(s, en) {
        let i = choose|i: int| 0 <= i < en.len() && opens_with(s, #[trigger] en[i]);
        assert(i == 0 || i == 1 || i == 2 || i == 3 || i == 4 || i == 5 || i >= 6);
    }
}

/// A sentence is an action plan exactly where its lower case opens like one:
/// neither whitespace before it, nor the case of ASCII letters, nor its length
/// makes a difference.
pub proof fn law_action_plans_go_by_their_opening(lead: Seq<char>, body: Seq<char>)
    requires
        forall|i: int| 0 <= i < lead.len() ==> whitespace(#[trigger] lead[i]),
        body.len() > 0,
        !whitespace(body[0]),
    ensures
        action_plan(lead + body) <==> action_opening(text_lowercase(body)),
{
    let s = lead + body;
    let (a, b) = lemma_trimmed(body);
    assert(a == 0) by {
        if a > 0 {
            assert(whitespace(body[0]));
        }
    }
    assert(b > 0) by {
        if b == 0 {
            assert(whitespace(body[0]));
        }
    }
    let kept = body.take(b);
    let tail = body.skip(b);
    assert forall|i: int| 0 <= i < tail.len() implies whitespace(#[trigger] tail[i]) by {
        assert(tail[i] == body[b + i]);
    }
    assert(lead + kept + tail =~= s);
    assert(kept + tail =~= body);
    law_trimming_removes_outer_whitespace(lead, kept, tail);
}

} // verus!
