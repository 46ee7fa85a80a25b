//! Cutting a text into segments that end in a sentence ender.

use vstd::prelude::*;

verus! {

/// The position of the first ender in `t`, or the length of `t` where there
/// is none.
pub open spec fn first_ender(t: Seq<char>, enders: Set<char>) -> nat
    decreases t.len(),
{
    if t.len() == 0 || enders.contains(t.first()) {
        0
    } else {
        1 + first_ender(t.drop_first(), enders)
    }
}

/// The segments of `t`: each runs up to the next ender and includes it.
pub open spec fn segments(t: Seq<char>, enders: Set<char>) -> Seq<Seq<char>>
    decreases t.len(),
{
    let k = first_ender(t, enders) as int;
    if k < t.len() {
        seq![t.take(k + 1)] + segments(t.skip(k + 1), enders)
    } else {
        Seq::empty()
    }
}

/// What follows the last ender of `t`.
pub open spec fn remainder(t: Seq<char>, enders: Set<char>) -> Seq<char>
    decreases t.len(),
{
    let k = first_ender(t, enders) as int;
    if k < t.len() {
        remainder(t.skip(k + 1), enders)
    } else {
        t
    }
}

/// `t` holds no ender.
pub open spec fn no_ender(t: Seq<char>, enders: Set<char>) -> bool {
    forall|i: int| 0 <= i < t.len() ==> !enders.contains(#[trigger] t[i])
}

/// `s` ends in an ender and holds no other.
pub open spec fn is_segment(s: Seq<char>, enders: Set<char>) -> bool {
    s.len() > 0 && enders.contains(s.last()) && no_ender(s.drop_last(), enders)
}

/// The texts of `parts`, one behind the other.
pub open spec fn concatenation(parts: Seq<Seq<char>>) -> Seq<char>
    decreases parts.len(),
{
    if parts.len() == 0 {
        Seq::empty()
    } else {
        parts.first() + concatenation(parts.drop_first())
    }
}

/// A part more puts its text at the end.
pub proof fn lemma_concatenation_push(parts: Seq<Seq<char>>, part: Seq<char>)
    ensures
        concatenation(parts.push(part)) == concatenation(parts) + part,
    decreases parts.len(),
{
    if parts.len() == 0 {
        assert(parts.push(part).drop_first() =~= parts);
        assert(concatenation(parts) =~= Seq::<char>::empty());
        assert(concatenation(parts.push(part)) =~= part);
        assert(concatenation(parts) + part =~= part);
    } else {
        assert(parts.push(part).drop_first() =~= parts.drop_first().push(part));
        lemma_concatenation_push(parts.drop_first(), part);
        assert(concatenation(parts.push(part)) =~= concatenation(parts) + part);
    }
}

/// Nothing before the first ender is one.
pub proof fn lemma_first_ender(t: Seq<char>, enders: Set<char>)
    ensures
        first_ender(t, enders) <= t.len(),
        no_ender(t.take(first_ender(t, enders) as int), enders),
        first_ender(t, enders) < t.len() ==> enders.contains(t[first_ender(t, enders) as int]),
        first_ender(t, enders) == t.len() <==> no_ender(t, enders),
    decreases t.len(),
{
    if t.len() > 0 && !enders.contains(t.first()) {
        let u = t.drop_first();
        let k = first_ender(u, enders) as int;
        lemma_first_ender(u, enders);
        assert forall|i: int| 0 <= i < k + 1 implies !enders.contains(
            #[trigger] t.take(k + 1)[i],
        ) by {
            if i > 0 {
                assert(u.take(k)[i - 1] == t[i]);
            }
        }
        if no_ender(t, enders) {
            assert forall|i: int| 0 <= i < u.len() implies !enders.contains(#[trigger] u[i]) by {
                assert(u[i] == t[i + 1]);
            }
        }
        if no_ender(u, enders) {
            assert forall|i: int| 0 <= i < t.len() implies !enders.contains(#[trigger] t[i]) by {
                if i > 0 {
                    assert(t[i] == u[i - 1]);
                }
            }
        }
    }
}

/// A position with no ender before it and an ender on it is the first.
pub proof fn lemma_first_ender_at(t: Seq<char>, enders: Set<char>, k: int)
    requires
        0 <= k < t.len(),
        enders.contains(t[k]),
        forall|i: int| 0 <= i < k ==> !enders.contains(#[trigger] t[i]),
    ensures
        first_ender(t, enders) == k,
    decreases t.len(),
{
    if k > 0 {
        assert(!enders.contains(t[0]));
        let u = t.drop_first();
        assert forall|i: int| 0 <= i < k - 1 implies !enders.contains(#[trigger] u[i]) by {
            assert(u[i] == t[i + 1]);
        }
        lemma_first_ender_at(u, enders, k - 1);
    }
}

/// Every segment ends in an ender and holds no other, and the remainder holds
/// none at all.
pub proof fn law_segments_end_in_enders(t: Seq<char>, enders: Set<char>)
    ensures
        forall|i: int|
            0 <= i < segments(t, enders).len() ==> is_segment(
                #[trigger] segments(t, enders)[i],
                enders,
            ),
        no_ender(remainder(t, enders), enders),
    decreases t.len(),
{
    let k = first_ender(t, enders) as int;
    lemma_first_ender(t, enders);
    if k < t.len() {
        law_segments_end_in_enders(t.skip(k + 1), enders);
        assert(t.take(k + 1).drop_last() =~= t.take(k));
        let rest = segments(t.skip(k + 1), enders);
        assert forall|i: int| 0 <= i < segments(t, enders).len() implies is_segment(
            #[trigger] segments(t, enders)[i],
            enders,
        ) by {
            if i > 0 {
                assert(segments(t, enders)[i] == rest[i - 1]);
            }
        }
    }
}

/// Cutting loses nothing: the segments and the remainder make up the text.
pub proof fn law_segments_make_up_the_text(t: Seq<char>, enders: Set<char>)
    ensures
        concatenation(segments(t, enders)) + remainder(t, enders) == t,
    decreases t.len(),
{
    let k = first_ender(t, enders) as int;
    lemma_first_ender(t, enders);
    if k < t.len() {
        let head = t.take(k + 1);
        let rest = segments(t.skip(k + 1), enders);
        law_segments_make_up_the_text(t.skip(k + 1), enders);
        assert((seq![head] + rest).drop_first() =~= rest);
        assert(concatenation(seq![head] + rest) == head + concatenation(rest));
        assert(t =~= head + t.skip(k + 1));
        assert(head + concatenation(rest) + remainder(t, enders) =~= head + (concatenation(rest)
            + remainder(t, enders)));
    } else {
        assert(concatenation(segments(t, enders)) + t =~= t);
    }
}


/// The first ender is an ender, and no character before it is one; a text
/// without an ender has its first behind its end.
pub proof fn law_first_ender(t: Seq<char>, enders: Set<char>)
    ensures
        first_ender(t, enders) <= t.len(),
        forall|i: int| 0 <= i < first_ender(t, enders) ==> !enders.contains(#[trigger] t[i]),
        first_ender(t, enders) < t.len() ==> enders.contains(t[first_ender(t, enders) as int]),
{
    let k = first_ender(t, enders) as int;
    lemma_first_ender(t, enders);
    assert forall|i: int| 0 <= i < k implies !enders.contains(#[trigger] t[i]) by {
        assert(t.take(k)[i] == t[i]);
    }
}

/// A text without an ender has no segment and is all remainder. Any other is
/// cut behind its first ender, and what follows is cut by itself, however
/// much it is.
pub proof fn law_segments_come_one_by_one(
    head: Seq<char>,
    ender: char,
    rest: Seq<char>,
    enders: Set<char>,
)
    requires
        forall|i: int| 0 <= i < head.len() ==> !enders.contains(#[trigger] head[i]),
        enders.contains(ender),
    ensures
        segments(head, enders) == Seq::<Seq<char>>::empty(),
        remainder(head, enders) == head,
        segments(head.push(ender) + rest, enders) == seq![head.push(ender)] + segments(
            rest,
            enders,
        ),
        remainder(head.push(ender) + rest, enders) == remainder(rest, enders),
{
    lemma_first_ender(head, enders);
    assert(no_ender(head, enders));
    let t = head.push(ender) + rest;
    let k = head.len() as int;
    assert forall|i: int| 0 <= i < k implies !enders.contains(#[trigger] t[i]) by {
        assert(t[i] == head[i]);
    }
    lemma_first_ender_at(t, enders, k);
    assert(t.take(k + 1) =~= head.push(ender));
    assert(t.skip(k + 1) =~= rest);
}

/// Cutting what ends in an ender and cutting what follows is cutting the two
/// together.
pub proof fn law_segments_concatenate(a: Seq<char>, b: Seq<char>, enders: Set<char>)
    requires
        a.len() == 0 || enders.contains(a[a.len() - 1]),
    ensures
        segments(a + b, enders) == segments(a, enders) + segments(b, enders),
        remainder(a + b, enders) == remainder(b, enders),
        remainder(a, enders).len() == 0,
    decreases a.len(),
{
    if a.len() == 0 {
        assert(a + b =~= b);
        assert(segments(a, enders) + segments(b, enders) =~= segments(b, enders));
    } else {
        let k = first_ender(a, enders) as int;
        law_first_ender(a, enders);
        lemma_first_ender(a, enders);
        assert(k < a.len()) by {
            if no_ender(a, enders) {
                assert(!enders.contains(a[a.len() - 1]));
            }
        }
        let head = a.take(k);
        let c = a[k];
        let rest = a.skip(k + 1);
        assert(head.push(c) + rest =~= a);
        assert(head.push(c) + (rest + b) =~= a + b);
        law_segments_come_one_by_one(head, c, rest, enders);
        law_segments_come_one_by_one(head, c, rest + b, enders);
        assert(rest.len() > 0 ==> rest[rest.len() - 1] == a[a.len() - 1]);
        law_segments_concatenate(rest, b, enders);
        assert(segments(a + b, enders) =~= segments(a, enders) + segments(b, enders));
    }
}

} // verus!
