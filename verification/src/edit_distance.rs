//! Character-level Levenshtein distance.

use vstd::prelude::*;

use crate::text::to_chars;

verus! {

pub open spec fn min2(x: nat, y: nat) -> nat {
    if x <= y {
        x
    } else {
        y
    }
}

pub open spec fn max2(x: nat, y: nat) -> nat {
    if x <= y {
        y
    } else {
        x
    }
}

/// The cost of turning one character into another.
pub open spec fn substitution_cost(x: char, y: char) -> nat {
    if x == y {
        0
    } else {
        1
    }
}

/// The Levenshtein distance, by the last characters of the two texts: delete
/// the last of `a`, insert the last of `b`, or turn the one into the other.
pub open spec fn edit_distance(a: Seq<char>, b: Seq<char>) -> nat
    decreases a.len() + b.len(),
{
    if a.len() == 0 {
        b.len()
    } else if b.len() == 0 {
        a.len()
    } else {
        min2(
            min2(edit_distance(a.drop_last(), b) + 1, edit_distance(a, b.drop_last()) + 1),
            edit_distance(a.drop_last(), b.drop_last()) + substitution_cost(a.last(), b.last()),
        )
    }
}

/// One edit: a character inserted, deleted or replaced at position `i`.
pub open spec fn edit_at(a: Seq<char>, b: Seq<char>, i: int) -> bool {
    ||| 0 <= i < b.len() && a == b.remove(i)
    ||| 0 <= i < a.len() && b == a.remove(i)
    ||| 0 <= i < a.len() && a.len() == b.len() && b == a.update(i, b[i])
}

/// `b` comes from `a` by at most one edit.
pub open spec fn one_edit(a: Seq<char>, b: Seq<char>) -> bool {
    exists|i: int| #[trigger] edit_at(a, b, i)
}

/// An edit script from `a` to `b`: a chain of texts, each one edit away from
/// the text before it.
pub open spec fn edit_script(steps: Seq<Seq<char>>, a: Seq<char>, b: Seq<char>) -> bool {
    &&& steps.len() > 0
    &&& steps.first() == a
    &&& steps.last() == b
    &&& forall|i: int| 0 < i < steps.len() ==> one_edit(steps[i - 1], #[trigger] steps[i])
}

/// The distance lies between the difference of the two lengths and the
/// greater of them.
pub proof fn law_distance_bounds(a: Seq<char>, b: Seq<char>)
    ensures
        edit_distance(a, b) <= max2(a.len(), b.len()),
        a.len() <= b.len() + edit_distance(a, b),
        b.len() <= a.len() + edit_distance(a, b),
    decreases a.len() + b.len(),
{
    if a.len() > 0 && b.len() > 0 {
        law_distance_bounds(a.drop_last(), b);
        law_distance_bounds(a, b.drop_last());
        law_distance_bounds(a.drop_last(), b.drop_last());
    }
}

/// The distance is symmetric.
pub proof fn law_distance_symmetric(a: Seq<char>, b: Seq<char>)
    ensures
        edit_distance(a, b) == edit_distance(b, a),
    decreases a.len() + b.len(),
{
    if a.len() > 0 && b.len() > 0 {
        law_distance_symmetric(a.drop_last(), b);
        law_distance_symmetric(a, b.drop_last());
        law_distance_symmetric(a.drop_last(), b.drop_last());
    }
}

/// The distance is zero between equal texts and between no others.
pub proof fn law_distance_zero(a: Seq<char>, b: Seq<char>)
    ensures
        edit_distance(a, b) == 0 <==> a == b,
    decreases a.len() + b.len(),
{
    if a.len() > 0 && b.len() > 0 {
        law_distance_zero(a.drop_last(), b.drop_last());
        assert(a =~= a.drop_last().push(a.last()));
        assert(b =~= b.drop_last().push(b.last()));
    } else {
        assert(a.len() == 0 && b.len() == 0 ==> a =~= b);
    }
}

/// The triangle inequality.
pub proof fn law_distance_triangle(a: Seq<char>, b: Seq<char>, c: Seq<char>)
    ensures
        edit_distance(a, c) <= edit_distance(a, b) + edit_distance(b, c),
    decreases a.len() + b.len() + c.len(),
{
    law_distance_bounds(a, b);
    law_distance_bounds(b, c);
    law_distance_bounds(a, c);
    if a.len() > 0 && b.len() > 0 && c.len() > 0 {
        law_distance_triangle(a.drop_last(), b, c);
        law_distance_triangle(a, b, c.drop_last());
        law_distance_triangle(a, b.drop_last(), c);
        law_distance_triangle(a, b.drop_last(), c.drop_last());
        law_distance_triangle(a.drop_last(), b.drop_last(), c);
        law_distance_triangle(a.drop_last(), b.drop_last(), c.drop_last());
    }
}

/// A single edit is at distance one at most.
proof fn lemma_one_edit(a: Seq<char>, b: Seq<char>, i: int)
    requires
        edit_at(a, b, i),
    ensures
        edit_distance(a, b) <= 1,
    decreases a.len() + b.len(),
{
    if 0 <= i < b.len() && a == b.remove(i) {
        lemma_insertion(a, b, i);
    } else if 0 <= i < a.len() && b == a.remove(i) {
        lemma_insertion(b, a, i);
        law_distance_symmetric(a, b);
    } else {
        lemma_replacement(a, b, i);
    }
}

proof fn lemma_insertion(a: Seq<char>, b: Seq<char>, i: int)
    requires
        0 <= i < b.len(),
        a == b.remove(i),
    ensures
        edit_distance(a, b) <= 1,
    decreases b.len(),
{
    if i == b.len() - 1 {
        assert(b.drop_last() =~= a);
        law_distance_zero(a, a);
        if a.len() > 0 {
            assert(edit_distance(a, b) <= edit_distance(a, b.drop_last()) + 1);
        }
    } else {
        assert(a.drop_last() =~= b.drop_last().remove(i));
        lemma_insertion(a.drop_last(), b.drop_last(), i);
        assert(a.last() == b.last());
    }
}

proof fn lemma_replacement(a: Seq<char>, b: Seq<char>, i: int)
    requires
        0 <= i < a.len(),
        a.len() == b.len(),
        b == a.update(i, b[i]),
    ensures
        edit_distance(a, b) <= 1,
    decreases a.len(),
{
    if i == a.len() - 1 {
        assert(a.drop_last() =~= b.drop_last());
        law_distance_zero(a.drop_last(), b.drop_last());
    } else {
        assert(b.drop_last() =~= a.drop_last().update(i, b.drop_last()[i]));
        lemma_replacement(a.drop_last(), b.drop_last(), i);
        assert(a.last() == b.last());
    }
}

/// No edit script from `a` to `b` has fewer edits than the distance.
pub proof fn law_distance_is_minimal(steps: Seq<Seq<char>>, a: Seq<char>, b: Seq<char>)
    requires
        edit_script(steps, a, b),
    ensures
        edit_distance(a, b) <= steps.len() - 1,
    decreases steps.len(),
{
    if steps.len() == 1 {
        law_distance_zero(a, b);
    } else {
        let before = steps.drop_last();
        let m = before.last();
        assert(edit_script(before, a, m)) by {
            assert forall|i: int| 0 < i < before.len() implies one_edit(
                before[i - 1],
                #[trigger] before[i],
            ) by {
                assert(before[i] == steps[i]);
            }
        }
        law_distance_is_minimal(before, a, m);
        assert(one_edit(steps[steps.len() - 2], steps[steps.len() - 1]));
        let i = choose|i: int| #[trigger] edit_at(m, b, i);
        lemma_one_edit(m, b, i);
        law_distance_triangle(a, m, b);
    }
}

/// Puts one more edit at the end of a script.
proof fn lemma_script_push(
    steps: Seq<Seq<char>>,
    a: Seq<char>,
    m: Seq<char>,
    b: Seq<char>,
    i: int,
)
    requires
        edit_script(steps, a, m),
        edit_at(m, b, i),
    ensures
        edit_script(steps.push(b), a, b),
{
    let longer = steps.push(b);
    assert forall|k: int| 0 < k < longer.len() implies one_edit(
        longer[k - 1],
        #[trigger] longer[k],
    ) by {
        if k < steps.len() {
            assert(steps[k] == longer[k]);
        } else {
            assert(edit_at(longer[k - 1], longer[k], i));
        }
    }
}

/// Appends the same character to every text of a script.
proof fn lemma_script_extend(steps: Seq<Seq<char>>, a: Seq<char>, b: Seq<char>, c: char) -> (longer:
    Seq<Seq<char>>)
    requires
        edit_script(steps, a, b),
    ensures
        edit_script(longer, a.push(c), b.push(c)),
        longer.len() == steps.len(),
{
    let longer = steps.map_values(|t: Seq<char>| t.push(c));
    assert forall|k: int| 0 < k < longer.len() implies one_edit(
        longer[k - 1],
        #[trigger] longer[k],
    ) by {
        let x = steps[k - 1];
        let y = steps[k];
        assert(one_edit(x, y));
        let i = choose|i: int| #[trigger] edit_at(x, y, i);
        if 0 <= i < y.len() && x == y.remove(i) {
            assert(x.push(c) =~= y.push(c).remove(i));
        } else if 0 <= i < x.len() && y == x.remove(i) {
            assert(y.push(c) =~= x.push(c).remove(i));
        } else {
            assert(y.push(c) =~= x.push(c).update(i, y.push(c)[i]));
        }
        assert(edit_at(longer[k - 1], longer[k], i));
    }
    longer
}

/// A script to `b` without its last character, and then that character
/// inserted.
proof fn lemma_script_insert(steps: Seq<Seq<char>>, a: Seq<char>, b: Seq<char>) -> (longer: Seq<
    Seq<char>,
>)
    requires
        b.len() > 0,
        edit_script(steps, a, b.drop_last()),
    ensures
        edit_script(longer, a, b),
        longer.len() == steps.len() + 1,
{
    assert(b.drop_last() =~= b.remove(b.len() - 1));
    assert(edit_at(b.drop_last(), b, b.len() - 1));
    lemma_script_push(steps, a, b.drop_last(), b, b.len() - 1);
    steps.push(b)
}

/// A script from `a` without its last character, and then that character
/// deleted.
proof fn lemma_script_delete(steps: Seq<Seq<char>>, a: Seq<char>, b: Seq<char>) -> (longer: Seq<
    Seq<char>,
>)
    requires
        a.len() > 0,
        edit_script(steps, a.drop_last(), b),
    ensures
        edit_script(longer, a, b),
        longer.len() == steps.len() + 1,
{
    let c = a.last();
    let kept = lemma_script_extend(steps, a.drop_last(), b, c);
    assert(a.drop_last().push(c) =~= a);
    assert(b =~= b.push(c).remove(b.len() as int));
    assert(edit_at(b.push(c), b, b.len() as int));
    lemma_script_push(kept, a, b.push(c), b, b.len() as int);
    kept.push(b)
}

/// A script between the texts without their last characters, and then the
/// one last character turned into the other.
proof fn lemma_script_replace(steps: Seq<Seq<char>>, a: Seq<char>, b: Seq<char>) -> (longer: Seq<
    Seq<char>,
>)
    requires
        a.len() > 0,
        b.len() > 0,
        edit_script(steps, a.drop_last(), b.drop_last()),
    ensures
        edit_script(longer, a, b),
        longer.len() == steps.len() + substitution_cost(a.last(), b.last()),
{
    let c = a.last();
    let kept = lemma_script_extend(steps, a.drop_last(), b.drop_last(), c);
    assert(a.drop_last().push(c) =~= a);
    let m = b.drop_last().push(c);
    if c == b.last() {
        assert(m =~= b);
        kept
    } else {
        assert(b =~= m.update(b.len() - 1, b[b.len() - 1]));
        assert(edit_at(m, b, b.len() - 1));
        lemma_script_push(kept, a, m, b, b.len() - 1);
        kept.push(b)
    }
}

/// There is an edit script from `a` to `b` with as many edits as the
/// distance says.
pub proof fn law_distance_is_reached(a: Seq<char>, b: Seq<char>) -> (steps: Seq<Seq<char>>)
    ensures
        edit_script(steps, a, b),
        steps.len() - 1 == edit_distance(a, b),
    decreases a.len() + b.len(),
{
    if a.len() == 0 && b.len() == 0 {
        assert(a =~= b);
        seq![a]
    } else if b.len() > 0 && (a.len() == 0 || edit_distance(a, b) == edit_distance(
        a,
        b.drop_last(),
    ) + 1) {
        let steps = law_distance_is_reached(a, b.drop_last());
        lemma_script_insert(steps, a, b)
    } else if b.len() == 0 || edit_distance(a, b) == edit_distance(a.drop_last(), b) + 1 {
        let steps = law_distance_is_reached(a.drop_last(), b);
        lemma_script_delete(steps, a, b)
    } else {
        let steps = law_distance_is_reached(a.drop_last(), b.drop_last());
        lemma_script_replace(steps, a, b)
    }
}

/// The distance between the first `i` characters of `a` and the first `j`
/// of `b`.
spec fn prefix_distance(a: Seq<char>, b: Seq<char>, i: int, j: int) -> nat {
    edit_distance(a.take(i), b.take(j))
}

proof fn lemma_prefix_distance(a: Seq<char>, b: Seq<char>, i: int, j: int)
    requires
        0 <= i < a.len(),
        0 <= j < b.len(),
    ensures
        prefix_distance(a, b, i + 1, j + 1) == min2(
            min2(prefix_distance(a, b, i, j + 1) + 1, prefix_distance(a, b, i + 1, j) + 1),
            prefix_distance(a, b, i, j) + substitution_cost(a[i], b[j]),
        ),
        prefix_distance(a, b, i, j + 1) <= max2(i as nat, (j + 1) as nat),
        prefix_distance(a, b, i, j) <= max2(i as nat, j as nat),
{
    assert(a.take(i + 1).drop_last() =~= a.take(i));
    assert(b.take(j + 1).drop_last() =~= b.take(j));
    law_distance_bounds(a.take(i), b.take(j + 1));
    law_distance_bounds(a.take(i), b.take(j));
}

/// The Levenshtein distance between two texts, in characters.
pub fn levenshtein_distance(a: &str, b: &str) -> (r: usize)
    ensures
        r == edit_distance(a@, b@),
{
    let a: Vec<char> = to_chars(a);
    let b: Vec<char> = to_chars(b);
    let mut prev: Vec<usize> = Vec::new();
    prev.push(0);
    for j in 0..b.len()
        invariant
            prev.len() == j + 1,
            forall|k: int| 0 <= k <= j ==> prev[k] == k,
    {
        prev.push(j + 1);
    }
    assert forall|k: int| 0 <= k <= b.len() implies prev[k] == #[trigger] prefix_distance(
        a@,
        b@,
        0,
        k,
    ) by {}
    for i in 0..a.len()
        invariant
            prev.len() == b.len() + 1,
            forall|k: int| 0 <= k <= b.len() ==> prev[k] == prefix_distance(a@, b@, i as int, k),
    {
        let mut cur: Vec<usize> = Vec::new();
        cur.push(i + 1);
        for j in 0..b.len()
            invariant
                0 <= i < a.len(),
                prev.len() == b.len() + 1,
                forall|k: int|
                    0 <= k <= b.len() ==> prev[k] == prefix_distance(a@, b@, i as int, k),
                cur.len() == j + 1,
                forall|k: int| 0 <= k <= j ==> cur[k] == prefix_distance(a@, b@, i + 1, k),
        {
            proof {
                lemma_prefix_distance(a@, b@, i as int, j as int);
            }
            let up: usize = prev[j + 1];
            let left: usize = cur[j];
            let gap: usize = if up <= left {
                up + 1
            } else {
                left + 1
            };
            let diagonal: usize = if a[i] == b[j] {
                prev[j]
            } else {
                prev[j] + 1
            };
            cur.push(if gap <= diagonal {
                gap
            } else {
                diagonal
            });
        }
        prev = cur;
    }
    assert(a@.take(a.len() as int) =~= a@);
    assert(b@.take(b.len() as int) =~= b@);
    prev[b.len()]
}


/// From nothing, or to nothing, the distance is the length.
pub proof fn law_distance_to_nothing(a: Seq<char>)
    ensures
        edit_distance(a, Seq::empty()) == a.len(),
        edit_distance(Seq::empty(), a) == a.len(),
{
}

/// How the distance grows with one more character on both sides: equal
/// characters add nothing; others cost one edit more than the nearest of the
/// three ways to do without them.
pub proof fn law_distance_of_longer_texts(a: Seq<char>, c: char, b: Seq<char>, d: char)
    ensures
        c == d ==> edit_distance(a.push(c), b.push(d)) == edit_distance(a, b),
        c != d ==> {
            let longer = edit_distance(a.push(c), b.push(d));
            let delete = edit_distance(a, b.push(d)) + 1;
            let insert = edit_distance(a.push(c), b) + 1;
            let replace = edit_distance(a, b) + 1;
            &&& longer <= delete
            &&& longer <= insert
            &&& longer <= replace
            &&& longer == delete || longer == insert || longer == replace
        },
{
    assert(a.push(c).drop_last() =~= a);
    assert(b.push(d).drop_last() =~= b);
    assert(a.push(c).remove(a.len() as int) =~= a);
    assert(b.push(d).remove(b.len() as int) =~= b);
    lemma_insertion(a, a.push(c), a.len() as int);
    lemma_insertion(b, b.push(d), b.len() as int);
    law_distance_symmetric(b, b.push(d));
    law_distance_triangle(a, a.push(c), b);
    law_distance_triangle(a, b.push(d), b);
}

} // verus!
