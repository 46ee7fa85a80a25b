//! Characters and texts: whitespace, trimming, comparing and lower case.

use vstd::prelude::*;

verus! {

/// `String::push` appends the given character to the end of the string.
pub assume_specification[ String::push ](s: &mut String, c: char)
    ensures
        final(s)@ == old(s)@.push(c),
;

/// The ASCII characters.
pub open spec fn ascii(c: char) -> bool {
    c <= '\u{7f}'
}

/// A text of ASCII characters alone.
pub open spec fn ascii_text(s: Seq<char>) -> bool {
    forall|i: int| 0 <= i < s.len() ==> ascii(#[trigger] s[i])
}

/// The letters of ASCII, and the digits 0 to 9.
pub open spec fn ascii_alphanumeric(c: char) -> bool {
    'a' <= c <= 'z' || 'A' <= c <= 'Z' || '0' <= c <= '9'
}

/// A character with the letters A to Z in lower case.
pub open spec fn ascii_lower(c: char) -> char {
    if 'A' <= c <= 'Z' {
        (c as u32 + 32) as char
    } else {
        c
    }
}

/// What `char::is_alphanumeric` says of a character beyond ASCII.
pub uninterp spec fn unicode_alphanumeric(c: char) -> bool;

/// Whether a character is a letter or a numeral, of any script.
pub open spec fn alphanumeric(c: char) -> bool {
    if ascii(c) {
        ascii_alphanumeric(c)
    } else {
        unicode_alphanumeric(c)
    }
}

/// `char::is_alphanumeric` tells whether Unicode has a character as alphabetic
/// or numeric. Of ASCII those are the letters and the digits; what it says of
/// other characters is named, not stated.
pub assume_specification[ char::is_alphanumeric ](c: char) -> (r: bool)
    ensures
        r == (if ascii(c) {
            ascii_alphanumeric(c)
        } else {
            unicode_alphanumeric(c)
        }),
;

/// What `char::to_lowercase` gives for a character beyond ASCII.
pub uninterp spec fn unicode_char_lowercase(c: char) -> Seq<char>;

/// The lower case of one character, which can be several characters.
pub open spec fn char_lowercase(c: char) -> Seq<char> {
    if ascii(c) {
        seq![ascii_lower(c)]
    } else {
        unicode_char_lowercase(c)
    }
}

/// Calls `char::to_lowercase`, which maps one character to one or more by the
/// Unicode tables. There the letters A to Z have a to z, and other ASCII
/// characters have no lower case but themselves; what comes of characters
/// beyond ASCII is named, not stated.
#[verifier::external_body]
pub(crate) fn lowercase_char(c: char) -> (r: Vec<char>)
    ensures
        r@ == (if ascii(c) {
            seq![ascii_lower(c)]
        } else {
            unicode_char_lowercase(c)
        }),
        r@.len() > 0,
{
    c.to_lowercase().collect()
}

/// What `str::to_lowercase` gives for a text with characters beyond ASCII.
pub uninterp spec fn unicode_text_lowercase(s: Seq<char>) -> Seq<char>;

/// The lower case of a text.
pub open spec fn text_lowercase(s: Seq<char>) -> Seq<char> {
    if ascii_text(s) {
        s.map_values(|c: char| ascii_lower(c))
    } else {
        unicode_text_lowercase(s)
    }
}

/// `str::to_lowercase` maps a whole text by the Unicode tables. A text of
/// ASCII alone is mapped letter by letter, A to Z to a to z; what comes of any
/// other text is named, not stated.
pub assume_specification[ str::to_lowercase ](s: &str) -> (r: String)
    ensures
        r@ == (if ascii_text(s@) {
            s@.map_values(|c: char| ascii_lower(c))
        } else {
            unicode_text_lowercase(s@)
        }),
;

/// The Unicode characters with the `White_Space` property.
pub open spec fn whitespace(c: char) -> bool {
    ||| '\u{9}' <= c <= '\u{d}'
    ||| c == '\u{20}'
    ||| c == '\u{85}'
    ||| c == '\u{a0}'
    ||| c == '\u{1680}'
    ||| '\u{2000}' <= c <= '\u{200a}'
    ||| c == '\u{2028}'
    ||| c == '\u{2029}'
    ||| c == '\u{202f}'
    ||| c == '\u{205f}'
    ||| c == '\u{3000}'
}

/// Tells whether `c` has the Unicode `White_Space` property.
pub fn is_whitespace(c: char) -> (r: bool)
    ensures
        r == whitespace(c),
{
    ('\u{9}' <= c && c <= '\u{d}') || c == '\u{20}' || c == '\u{85}' || c == '\u{a0}' || c
        == '\u{1680}' || ('\u{2000}' <= c && c <= '\u{200a}') || c == '\u{2028}' || c == '\u{2029}'
        || c == '\u{202f}' || c == '\u{205f}' || c == '\u{3000}'
}

/// Collects the characters of a text.
pub fn to_chars(s: &str) -> (r: Vec<char>)
    ensures
        r@ == s@,
{
    let mut r: Vec<char> = Vec::new();
    for c in it: s.chars()
        invariant
            it.seq() == s@,
            r@ == s@.take(it.index() as int),
    {
        r.push(c);
    }
    r
}

/// Tells whether `s` begins with `prefix`.
pub fn starts_with(s: &str, prefix: &str) -> (r: bool)
    ensures
        r == prefix@.is_prefix_of(s@),
{
    let mut rest = s.chars();
    for p in it: prefix.chars()
        invariant
            it.seq() == prefix@,
            it.index() <= s@.len(),
            vstd::std_specs::iter::IteratorSpec::remaining(&rest) == s@.skip(it.index() as int),
            prefix@.take(it.index() as int) == s@.take(it.index() as int),
    {
        let ghost n = it.index() as int;
        match rest.next() {
            Some(c) => {
                if c != p {
                    assert(prefix@[n] != s@[n]);
                    return false;
                }
                assert(prefix@.take(n + 1) =~= prefix@.take(n).push(p));
                assert(s@.take(n + 1) =~= s@.take(n).push(p));
            },
            None => {
                return false;
            },
        }
    }
    assert(prefix@.take(prefix@.len() as int) =~= prefix@);
    true
}

/// Tells whether two texts are equal.
pub fn same_text(a: &str, b: &str) -> (r: bool)
    ensures
        r == (a@ == b@),
{
    let r: bool = a.unicode_len() == b.unicode_len() && starts_with(a, b);
    assert(r ==> a@ =~= b@);
    r
}

/// `s` without the whitespace that it begins with.
pub open spec fn trimmed_start(s: Seq<char>) -> Seq<char>
    decreases s.len(),
{
    if s.len() > 0 && whitespace(s.first()) {
        trimmed_start(s.drop_first())
    } else {
        s
    }
}

/// `s` without the whitespace that it ends with.
pub open spec fn trimmed_end(s: Seq<char>) -> Seq<char>
    decreases s.len(),
{
    if s.len() > 0 && whitespace(s.last()) {
        trimmed_end(s.drop_last())
    } else {
        s
    }
}

/// `s` without the whitespace at either end.
pub open spec fn trimmed(s: Seq<char>) -> Seq<char> {
    trimmed_end(trimmed_start(s))
}

proof fn lemma_trimmed_start(s: Seq<char>, n: int)
    requires
        0 <= n <= s.len(),
        forall|i: int| 0 <= i < n ==> whitespace(#[trigger] s[i]),
        n < s.len() ==> !whitespace(s[n]),
    ensures
        trimmed_start(s) == s.skip(n),
    decreases n,
{
    if n > 0 {
        assert(whitespace(s[0]));
        let t = s.drop_first();
        assert forall|i: int| 0 <= i < n - 1 implies whitespace(#[trigger] t[i]) by {
            assert(t[i] == s[i + 1]);
        }
        lemma_trimmed_start(t, n - 1);
        assert(t.skip(n - 1) =~= s.skip(n));
    } else {
        assert(s.skip(0) =~= s);
    }
}

proof fn lemma_trimmed_end(s: Seq<char>, n: int)
    requires
        0 <= n <= s.len(),
        forall|i: int| n <= i < s.len() ==> whitespace(#[trigger] s[i]),
        n > 0 ==> !whitespace(s[n - 1]),
    ensures
        trimmed_end(s) == s.take(n),
    decreases s.len() - n,
{
    if n < s.len() {
        assert(whitespace(s[s.len() - 1]));
        lemma_trimmed_end(s.drop_last(), n);
        assert(s.drop_last().take(n) =~= s.take(n));
    } else {
        assert(s.take(n) =~= s);
    }
}

/// Trimming leaves a part of the text, with nothing but whitespace around it.
pub proof fn lemma_trimmed(s: Seq<char>) -> (ends: (int, int))
    ensures
        0 <= ends.0 <= ends.1 <= s.len(),
        trimmed(s) == s.subrange(ends.0, ends.1),
        forall|i: int| 0 <= i < ends.0 ==> whitespace(#[trigger] s[i]),
        forall|i: int| ends.1 <= i < s.len() ==> whitespace(#[trigger] s[i]),
        ends.0 < ends.1 ==> !whitespace(s[ends.0]) && !whitespace(s[ends.1 - 1]),
    decreases s.len(),
{
    if s.len() > 0 && whitespace(s.first()) {
        let t = s.drop_first();
        let (a, b) = lemma_trimmed(t);
        assert(t.subrange(a, b) =~= s.subrange(a + 1, b + 1));
        assert forall|i: int| 0 <= i < a + 1 implies whitespace(#[trigger] s[i]) by {
            if i > 0 {
                assert(s[i] == t[i - 1]);
            }
        }
        assert forall|i: int| b + 1 <= i < s.len() implies whitespace(#[trigger] s[i]) by {
            assert(s[i] == t[i - 1]);
        }
        (a + 1, b + 1)
    } else if s.len() > 0 && whitespace(s.last()) {
        let t = s.drop_last();
        let (a, b) = lemma_trimmed(t);
        assert(trimmed_start(t) == t);
        assert(t.subrange(a, b) =~= s.subrange(a, b));
        assert forall|i: int| b <= i < s.len() implies whitespace(#[trigger] s[i]) by {
            if i < t.len() {
                assert(s[i] == t[i]);
            }
        }
        (a, b)
    } else {
        assert(s.subrange(0, s.len() as int) =~= s);
        (0, s.len() as int)
    }
}

/// Removes the whitespace that `s` begins with.
pub fn trim_start(s: &str) -> (r: &str)
    ensures
        r@ == trimmed_start(s@),
{
    let len: usize = s.unicode_len();
    let mut start: usize = 0;
    for c in it: s.chars()
        invariant
            it.seq() == s@,
            len == s@.len(),
            start == it.index(),
            forall|i: int| 0 <= i < start ==> whitespace(#[trigger] s@[i]),
    {
        if !is_whitespace(c) {
            proof {
                lemma_trimmed_start(s@, start as int);
            }
            return s.substring_char(start, len);
        }
        start = start + 1;
    }
    proof {
        lemma_trimmed_start(s@, start as int);
    }
    s.substring_char(start, len)
}

/// Removes the whitespace at either end of `s`.
pub fn trim(s: &str) -> (r: &str)
    ensures
        r@ == trimmed(s@),
{
    let t: &str = trim_start(s);
    let mut end: usize = 0;
    let mut next: usize = 0;
    let len: usize = t.unicode_len();
    for c in it: t.chars()
        invariant
            it.seq() == t@,
            len == t@.len(),
            next == it.index(),
            end <= next,
            forall|i: int| end <= i < next ==> whitespace(#[trigger] t@[i]),
            end > 0 ==> !whitespace(t@[end - 1]),
    {
        next = next + 1;
        if !is_whitespace(c) {
            end = next;
        }
    }
    proof {
        lemma_trimmed_end(t@, end as int);
    }
    t.substring_char(0, end)
}


/// Trimming removes all the whitespace at the ends, however much there is,
/// and nothing else: what stands between whitespace and begins and ends with
/// another character is what is left.
pub proof fn law_trimming_removes_outer_whitespace(
    lead: Seq<char>,
    body: Seq<char>,
    tail: Seq<char>,
)
    requires
        forall|i: int| 0 <= i < lead.len() ==> whitespace(#[trigger] lead[i]),
        forall|i: int| 0 <= i < tail.len() ==> whitespace(#[trigger] tail[i]),
        body.len() > 0 ==> !whitespace(body[0]) && !whitespace(body[body.len() - 1]),
    ensures
        trimmed(lead + body + tail) == body,
        trimmed_start(lead + body + tail) == if body.len() > 0 {
            body + tail
        } else {
            Seq::empty()
        },
{
    let s = lead + body + tail;
    let n = if body.len() > 0 {
        lead.len() as int
    } else {
        s.len() as int
    };
    assert forall|i: int| 0 <= i < n implies whitespace(#[trigger] s[i]) by {
        if i < lead.len() {
            assert(s[i] == lead[i]);
        } else {
            assert(s[i] == tail[i - lead.len()]);
        }
    }
    lemma_trimmed_start(s, n);
    let t = s.skip(n);
    if body.len() > 0 {
        assert(t =~= body + tail);
        assert forall|i: int| body.len() <= i < t.len() implies whitespace(#[trigger] t[i]) by {
            assert(t[i] == tail[i - body.len()]);
        }
        lemma_trimmed_end(t, body.len() as int);
        assert(t.take(body.len() as int) =~= body);
    } else {
        assert(t =~= Seq::<char>::empty());
        assert(body =~= Seq::<char>::empty());
    }
}

/// Lower case changes nothing of ASCII but the letters A to Z, and leaves
/// every other character to the Unicode tables.
pub proof fn law_lower_case_of_a_character(c: char)
    ensures
        'A' <= c <= 'Z' ==> char_lowercase(c) == seq![(c as u32 + 32) as char],
        c <= '\u{7f}' && !('A' <= c <= 'Z') ==> char_lowercase(c) == seq![c],
        c > '\u{7f}' ==> char_lowercase(c) == unicode_char_lowercase(c),
{
}

/// A text of ASCII has the lower case of its characters, one by one; any
/// other text is left to the Unicode tables.
pub proof fn law_lower_case_of_a_text(s: Seq<char>)
    ensures
        (forall|i: int| 0 <= i < s.len() ==> #[trigger] s[i] <= '\u{7f}') ==> {
            &&& text_lowercase(s).len() == s.len()
            &&& forall|i: int|
                0 <= i < s.len() ==> seq![#[trigger] text_lowercase(s)[i]] == char_lowercase(s[i])
        },
        !(forall|i: int| 0 <= i < s.len() ==> #[trigger] s[i] <= '\u{7f}') ==> text_lowercase(s)
            == unicode_text_lowercase(s),
{
    if ascii_text(s) {
        assert forall|i: int| 0 <= i < s.len() implies seq![#[trigger] text_lowercase(s)[i]]
            == char_lowercase(s[i]) by {
            assert(ascii(s[i]));
        }
    } else {
        let k = choose|k: int| 0 <= k < s.len() && !ascii(#[trigger] s[k]);
        assert(!(s[k] <= '\u{7f}'));
    }
}

/// Letters and numerals are, of ASCII, the letters and the digits; beyond it
/// the Unicode tables tell.
pub proof fn law_alphanumeric(c: char)
    ensures
        c <= '\u{7f}' ==> (alphanumeric(c) <==> 'a' <= c <= 'z' || 'A' <= c <= 'Z' || '0' <= c
            <= '9'),
        c > '\u{7f}' ==> alphanumeric(c) == unicode_alphanumeric(c),
{
}

} // verus!
