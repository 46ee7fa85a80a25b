//! Detection of a model that repeats the same sentence over and over within
//! one streamed message.

use vstd::prelude::*;

use crate::segments::{first_ender, lemma_first_ender, lemma_first_ender_at, no_ender, remainder,
    segments};
use crate::text::{lemma_trimmed, same_text, trim, trimmed, whitespace};

verus! {

/// The number of equal segments in a row at which a loop is reported.
pub const REPEAT_THRESHOLD: usize = 8;

/// The least number of characters of a segment that counts.
pub const MIN_SEGMENT_CHARS: usize = 10;

/// The number of characters up to which unfinished text is kept.
pub const MAX_PENDING_CHARS: usize = 4096;

/// The characters that end a segment.
pub open spec fn sentence_enders() -> Set<char> {
    set!['.', '!', '?', '。', '！', '？', '\n']
}

/// Tells whether `c` ends a segment.
fn is_sentence_ender(c: char) -> (r: bool)
    ensures
        r == sentence_enders().contains(c),
{
    c == '.' || c == '!' || c == '?' || c == '。' || c == '！' || c == '？' || c == '\n'
}

/// What a detector has seen: the text behind the last ender, the last segment
/// that counted, and how many times in a row it has come.
pub struct Progress {
    pub pending: Seq<char>,
    pub last: Option<Seq<char>>,
    pub count: nat,
}

/// A segment counts where it is long enough and not blank.
pub open spec fn counts(segment: Seq<char>) -> bool {
    segment.len() >= MIN_SEGMENT_CHARS && trimmed(segment).len() > 0
}

/// One more, as far as the counter goes.
pub open spec fn one_more(count: nat) -> nat {
    if count < usize::MAX {
        count + 1
    } else {
        count
    }
}

/// The progress after one more segment.
pub open spec fn after_segment(p: Progress, segment: Seq<char>) -> Progress {
    if !counts(segment) {
        p
    } else if p.last == Some(trimmed(segment)) {
        Progress { count: one_more(p.count), ..p }
    } else {
        Progress { last: Some(trimmed(segment)), count: 1, ..p }
    }
}

/// Takes the segments of the pending text one by one, up to the first that
/// completes a loop; says whether there was one.
pub open spec fn scan(p: Progress) -> (Progress, bool)
    decreases p.pending.len(),
{
    let k = first_ender(p.pending, sentence_enders()) as int;
    if k < p.pending.len() {
        let segment = p.pending.take(k + 1);
        let next = after_segment(Progress { pending: p.pending.skip(k + 1), ..p }, segment);
        if counts(segment) && next.count >= REPEAT_THRESHOLD {
            (next, true)
        } else {
            scan(next)
        }
    } else {
        (p, false)
    }
}

/// The progress with `delta` received: the text that was pending is dropped
/// where the two together would be too long.
pub open spec fn received(p: Progress, delta: Seq<char>) -> Progress {
    Progress {
        pending: if p.pending.len() + delta.len() > MAX_PENDING_CHARS {
            delta
        } else {
            p.pending + delta
        },
        ..p
    }
}

/// Detects the same segment repeated in a row in a stream of text.
#[derive(Debug)]
pub struct RepeatDetector {
    pending: String,
    last_segment: Option<String>,
    consecutive_count: usize,
}

impl View for RepeatDetector {
    type V = Progress;

    closed spec fn view(&self) -> Progress {
        Progress {
            pending: self.pending@,
            last: match self.last_segment {
                Some(s) => Some(s@),
                None => None,
            },
            count: self.consecutive_count as nat,
        }
    }
}

impl Progress {
    /// There is a last segment where at least one has been counted.
    pub open spec fn wf(self) -> bool {
        self.last is Some <==> self.count > 0
    }
}

impl Default for RepeatDetector {
    fn default() -> (r: Self)
        ensures
            r@ == (Progress { pending: Seq::empty(), last: None, count: 0 }),
            r@.wf(),
    {
        RepeatDetector { pending: String::new(), last_segment: None, consecutive_count: 0 }
    }
}

impl RepeatDetector {
    /// A detector that has seen nothing.
    pub fn new() -> (r: Self)
        ensures
            r@ == (Progress { pending: Seq::empty(), last: None, count: 0 }),
            r@.wf(),
    {
        Self::default()
    }

    /// Receives the next piece of the stream and says whether it completes a
    /// loop.
    pub fn push(&mut self, delta: &str) -> (r: bool)
        ensures
            (final(self)@, r) == scan(received(old(self)@, delta@)),
            old(self)@.wf() ==> final(self)@.wf(),
    {
        let pending_len: usize = self.pending.as_str().unicode_len();
        let delta_len: usize = delta.unicode_len();
        if pending_len > MAX_PENDING_CHARS || delta_len > MAX_PENDING_CHARS - pending_len {
            self.pending = String::new();
        }
        self.pending.append(delta);
        assert(self@ =~= received(old(self)@, delta@));
        loop
            invariant
                scan(self@) == scan(received(old(self)@, delta@)),
                old(self)@.wf() ==> self@.wf(),
            decreases self@.pending.len(),
        {
            let segment: String = match Self::take_next_segment(&mut self.pending) {
                Some(segment) => segment,
                None => {
                    return false;
                },
            };
            if segment.as_str().unicode_len() < MIN_SEGMENT_CHARS {
                continue;
            }
            let text: &str = trim(segment.as_str());
            if text.is_empty() {
                continue;
            }
            let is_same: bool = match &self.last_segment {
                Some(last) => same_text(last.as_str(), text),
                None => false,
            };
            if is_same {
                self.consecutive_count = self.consecutive_count.saturating_add(1);
            } else {
                self.last_segment = Some(text.to_owned());
                self.consecutive_count = 1;
            }
            if self.consecutive_count >= REPEAT_THRESHOLD {
                return true;
            }
        }
    }

    /// Takes the first segment out of the pending text, up to and with its
    /// ender; gives `None` and leaves the text alone where there is no ender.
    pub fn take_next_segment(pending: &mut String) -> (r: Option<String>)
        ensures
            ({
                let k = first_ender(old(pending)@, sentence_enders()) as int;
                match r {
                    Some(segment) => {
                        &&& k < old(pending)@.len()
                        &&& segment@ == old(pending)@.take(k + 1)
                        &&& final(pending)@ == old(pending)@.skip(k + 1)
                    },
                    None => {
                        &&& k == old(pending)@.len()
                        &&& no_ender(old(pending)@, sentence_enders())
                        &&& final(pending)@ == old(pending)@
                    },
                }
            }),
    {
        let len: usize = pending.as_str().unicode_len();
        let mut end: usize = 0;
        for c in it: pending.as_str().chars()
            invariant
                it.seq() == old(pending)@,
                pending@ == old(pending)@,
                len == pending@.len(),
                end == it.index(),
                forall|i: int|
                    0 <= i < end ==> !sentence_enders().contains(#[trigger] pending@[i]),
        {
            end = end + 1;
            if is_sentence_ender(c) {
                proof {
                    lemma_first_ender_at(pending@, sentence_enders(), end - 1);
                }
                let segment: String = pending.as_str().substring_char(0, end).to_owned();
                let rest: String = pending.as_str().substring_char(end, len).to_owned();
                *pending = rest;
                return Some(segment);
            }
        }
        proof {
            lemma_first_ender(pending@, sentence_enders());
        }
        None
    }
}

/// The segments that count, in order and trimmed.
pub open spec fn counted(segs: Seq<Seq<char>>) -> Seq<Seq<char>>
    decreases segs.len(),
{
    if segs.len() == 0 {
        Seq::empty()
    } else if counts(segs.first()) {
        seq![trimmed(segs.first())] + counted(segs.drop_first())
    } else {
        counted(segs.drop_first())
    }
}

/// The run of equal segments that the detector has seen last.
pub open spec fn current_run(p: Progress) -> Seq<Seq<char>> {
    Seq::new(p.count, |i: int| p.last->0)
}

/// The `n` texts from position `i` on are there and equal.
pub open spec fn run_at(texts: Seq<Seq<char>>, i: int, n: int) -> bool {
    &&& 0 <= i
    &&& i + n <= texts.len()
    &&& forall|j: int| i <= j < i + n ==> #[trigger] texts[j] == texts[i]
}

/// Among `texts` there is a run of `REPEAT_THRESHOLD` equal ones that ends
/// behind the first `seen` of them.
pub open spec fn has_loop_after(texts: Seq<Seq<char>>, seen: int) -> bool {
    exists|i: int|
        i + REPEAT_THRESHOLD > seen && #[trigger] run_at(texts, i, REPEAT_THRESHOLD as int)
}

/// A loop is reported exactly where `REPEAT_THRESHOLD` segments that count
/// are equal in a row, with those received before taken into account.
pub proof fn law_loop_is_reported_iff_repeated(p: Progress)
    requires
        p.wf(),
    ensures
        scan(p).1 <==> has_loop_after(
            current_run(p) + counted(segments(p.pending, sentence_enders())),
            p.count as int,
        ),
    decreases p.pending.len(),
{
    let n = REPEAT_THRESHOLD as int;
    let k = first_ender(p.pending, sentence_enders()) as int;
    let run = current_run(p);
    let segs = segments(p.pending, sentence_enders());
    let all = run + counted(segs);
    lemma_first_ender(p.pending, sentence_enders());
    if k < p.pending.len() {
        let segment = p.pending.take(k + 1);
        let rest = segments(p.pending.skip(k + 1), sentence_enders());
        let next = after_segment(Progress { pending: p.pending.skip(k + 1), ..p }, segment);
        assert(segs.drop_first() =~= rest);
        if !counts(segment) {
            law_loop_is_reported_iff_repeated(next);
            assert(current_run(next) =~= run);
        } else {
            let x = trimmed(segment);
            assert(all =~= run + (seq![x] + counted(rest)));
            assert(all[p.count as int] == x);
            if p.last == Some(x) {
                if next.count >= REPEAT_THRESHOLD {
                    let i = p.count + 1 - n;
                    assert forall|j: int| i <= j < i + n implies #[trigger] all[j] == all[i] by {}
                    assert(run_at(all, i, n));
                } else {
                    law_loop_is_reported_iff_repeated(next);
                    assert(current_run(next) + counted(rest) =~= all);
                    assert forall|i: int| i + n > p.count && #[trigger] run_at(all, i, n) implies i
                        + n > next.count by {}
                }
            } else {
                law_loop_is_reported_iff_repeated(next);
                let shorter = current_run(next) + counted(rest);
                assert(shorter =~= all.skip(p.count as int));
                if has_loop_after(shorter, 1) {
                    let i = choose|i: int| i + n > 1 && #[trigger] run_at(shorter, i, n);
                    let m = i + p.count;
                    assert forall|j: int| m <= j < m + n implies #[trigger] all[j] == all[m] by {
                        assert(all[j] == shorter[j - p.count]);
                        assert(all[m] == shorter[i]);
                    }
                    assert(run_at(all, m, n));
                }
                if has_loop_after(all, p.count as int) {
                    let i = choose|i: int| i + n > p.count && #[trigger] run_at(all, i, n);
                    if i < p.count {
                        assert(all[i] == p.last->0);
                        assert(all[p.count as int] == all[i]);
                    }
                    let m = i - p.count;
                    assert forall|j: int| m <= j < m + n implies #[trigger] shorter[j]
                        == shorter[m] by {
                        assert(shorter[j] == all[j + p.count]);
                        assert(shorter[m] == all[i]);
                    }
                    assert(run_at(shorter, m, n));
                }
            }
        }
    } else {
        assert(all =~= run);
    }
}

/// `p` has counted the run of equal texts that `texts` ends with.
pub open spec fn counts_last_run(p: Progress, texts: Seq<Seq<char>>) -> bool {
    let start = texts.len() - p.count;
    &&& run_at(texts, start, p.count as int)
    &&& p.count > 0 ==> p.last == Some(texts[start])
    &&& p.count == 0 ==> p.last is None
    &&& 0 < start < texts.len() ==> texts[start - 1] != texts[start]
    &&& texts.len() > 0 ==> p.count > 0
}

/// Where no loop is reported, the detector has counted the run of equal
/// segments that came last.
pub proof fn law_count_is_the_last_run(p: Progress)
    requires
        p.wf(),
        !scan(p).1,
    ensures
        counts_last_run(
            scan(p).0,
            current_run(p) + counted(segments(p.pending, sentence_enders())),
        ),
    decreases p.pending.len(),
{
    let k = first_ender(p.pending, sentence_enders()) as int;
    let run = current_run(p);
    let segs = segments(p.pending, sentence_enders());
    let all = run + counted(segs);
    lemma_first_ender(p.pending, sentence_enders());
    if k < p.pending.len() {
        let segment = p.pending.take(k + 1);
        let rest = segments(p.pending.skip(k + 1), sentence_enders());
        let next = after_segment(Progress { pending: p.pending.skip(k + 1), ..p }, segment);
        assert(segs.drop_first() =~= rest);
        law_count_is_the_last_run(next);
        let q = scan(p).0;
        let later = current_run(next) + counted(rest);
        if !counts(segment) {
            assert(later =~= all);
        } else {
            let x = trimmed(segment);
            assert(all =~= run + (seq![x] + counted(rest)));
            if p.last == Some(x) {
                assert(later =~= all);
            } else {
                assert(later =~= all.skip(p.count as int));
                let start = all.len() - q.count;
                assert forall|j: int| start <= j < start + q.count implies #[trigger] all[j]
                    == all[start] by {
                    assert(all[j] == later[j - p.count]);
                    assert(all[start] == later[start - p.count]);
                }
                if start > p.count {
                    assert(all[start - 1] == later[start - p.count - 1]);
                }
            }
        }
    } else {
        assert(all =~= run);
    }
}

/// Where no loop is reported, what is left pending is the text behind the
/// last ender.
pub proof fn law_pending_is_unfinished(p: Progress)
    requires
        !scan(p).1,
    ensures
        scan(p).0.pending == remainder(p.pending, sentence_enders()),
        no_ender(scan(p).0.pending, sentence_enders()),
    decreases p.pending.len(),
{
    let k = first_ender(p.pending, sentence_enders()) as int;
    lemma_first_ender(p.pending, sentence_enders());
    if k < p.pending.len() {
        let segment = p.pending.take(k + 1);
        law_pending_is_unfinished(
            after_segment(Progress { pending: p.pending.skip(k + 1), ..p }, segment),
        );
    }
}

proof fn lemma_scan_shrinks(p: Progress)
    ensures
        scan(p).0.pending.len() <= p.pending.len(),
    decreases p.pending.len(),
{
    let k = first_ender(p.pending, sentence_enders()) as int;
    if k < p.pending.len() {
        let segment = p.pending.take(k + 1);
        lemma_scan_shrinks(
            after_segment(Progress { pending: p.pending.skip(k + 1), ..p }, segment),
        );
    }
}

/// The pending text never grows beyond `MAX_PENDING_CHARS` characters or the
/// length of the piece received last.
pub proof fn law_pending_is_bounded(p: Progress, delta: Seq<char>)
    ensures
        ({
            let left = scan(received(p, delta)).0.pending.len();
            left <= MAX_PENDING_CHARS || left <= delta.len()
        }),
{
    lemma_scan_shrinks(received(p, delta));
}

/// Text in which no segment counts changes neither the last segment nor the
/// count, and is no loop.
pub proof fn law_segments_that_do_not_count_are_ignored(p: Progress)
    requires
        counted(segments(p.pending, sentence_enders())).len() == 0,
    ensures
        scan(p) == (
            Progress { pending: remainder(p.pending, sentence_enders()), ..p },
            false,
        ),
    decreases p.pending.len(),
{
    let k = first_ender(p.pending, sentence_enders()) as int;
    lemma_first_ender(p.pending, sentence_enders());
    if k < p.pending.len() {
        let rest = segments(p.pending.skip(k + 1), sentence_enders());
        assert(segments(p.pending, sentence_enders()).drop_first() =~= rest);
        law_segments_that_do_not_count_are_ignored(
            Progress { pending: p.pending.skip(k + 1), ..p },
        );
    }
}

proof fn lemma_scan_append(p: Progress, more: Seq<char>)
    requires
        !scan(p).1,
    ensures
        ({
            let q = scan(p).0;
            scan(Progress { pending: q.pending + more, ..q }) == scan(
                Progress { pending: p.pending + more, ..p },
            )
        }),
    decreases p.pending.len(),
{
    let k = first_ender(p.pending, sentence_enders()) as int;
    lemma_first_ender(p.pending, sentence_enders());
    if k < p.pending.len() {
        let longer = p.pending + more;
        let segment = p.pending.take(k + 1);
        let next = after_segment(Progress { pending: p.pending.skip(k + 1), ..p }, segment);
        lemma_scan_append(next, more);
        assert forall|i: int| 0 <= i < k implies !sentence_enders().contains(
            #[trigger] longer[i],
        ) by {
            assert(longer[i] == p.pending.take(k)[i]);
        }
        lemma_first_ender_at(longer, sentence_enders(), k);
        assert(longer.take(k + 1) =~= segment);
        assert(longer.skip(k + 1) =~= p.pending.skip(k + 1) + more);
    }
}

/// The pending text is kept when `delta` is received, or there is none.
pub open spec fn drops_nothing(p: Progress, delta: Seq<char>) -> bool {
    p.pending.len() == 0 || p.pending.len() + delta.len() <= MAX_PENDING_CHARS
}

/// It does not matter how the stream is cut into pieces: as long as nothing
/// is reported and nothing has to be dropped, two pieces one after the other
/// do what both together do.
pub proof fn law_pieces_do_not_matter(p: Progress, a: Seq<char>, b: Seq<char>)
    requires
        !scan(received(p, a)).1,
        drops_nothing(p, a),
        drops_nothing(scan(received(p, a)).0, b),
        drops_nothing(p, a + b),
    ensures
        scan(received(scan(received(p, a)).0, b)) == scan(received(p, a + b)),
{
    let none = Seq::<char>::empty();
    assert(p.pending.len() == 0 ==> p.pending =~= none);
    assert(none + a =~= a);
    assert(none + b =~= b);
    assert(none + (a + b) =~= a + b);
    let q = scan(received(p, a)).0;
    assert(q.pending.len() == 0 ==> q.pending =~= none);
    lemma_scan_append(received(p, a), b);
    assert(p.pending + a + b =~= p.pending + (a + b));
}


/// What ends a segment, and nothing else does.
pub proof fn law_sentence_enders(c: char)
    ensures
        sentence_enders().contains(c) <==> c == '.' || c == '!' || c == '?' || c == '。' || c == '！'
            || c == '？' || c == '\n',
{
}

/// Text is pending until its ender comes: where what is pending and what is
/// received hold no ender and no more than 4096 characters together, they are
/// kept as one, and nothing is counted or reported.
pub proof fn law_unfinished_text_is_kept(p: Progress, delta: Seq<char>)
    requires
        p.pending.len() + delta.len() <= 4096,
        forall|i: int|
            0 <= i < p.pending.len() ==> !sentence_enders().contains(#[trigger] p.pending[i]),
        forall|i: int| 0 <= i < delta.len() ==> !sentence_enders().contains(#[trigger] delta[i]),
    ensures
        scan(received(p, delta)) == (Progress { pending: p.pending + delta, ..p }, false),
{
    let t = p.pending + delta;
    assert(no_ender(t, sentence_enders())) by {
        assert forall|i: int| 0 <= i < t.len() implies !sentence_enders().contains(
            #[trigger] t[i],
        ) by {
            if i < p.pending.len() {
                assert(t[i] == p.pending[i]);
            } else {
                assert(t[i] == delta[i - p.pending.len()]);
            }
        }
    }
    lemma_first_ender(t, sentence_enders());
}

/// Up to 4096 characters the pending text goes before what is received;
/// beyond that it is as if nothing had been pending.
pub proof fn law_pending_text_goes_before_the_next(p: Progress, delta: Seq<char>)
    ensures
        p.pending.len() + delta.len() <= 4096 ==> scan(received(p, delta)) == scan(
            received(Progress { pending: Seq::empty(), ..p }, p.pending + delta),
        ),
        p.pending.len() + delta.len() > 4096 ==> scan(received(p, delta)) == scan(
            received(Progress { pending: Seq::empty(), ..p }, delta),
        ),
{
    let none = Seq::<char>::empty();
    assert(none + (p.pending + delta) =~= p.pending + delta);
    assert(none + delta =~= delta);
}

/// What one segment does, whatever its length: from 10 characters on, unless
/// it is blank, it is compared without the whitespace around it with the one
/// before; an equal one adds one to the count, any other begins anew with one,
/// and a loop is reported exactly where the count is 8 or more. A shorter or
/// blank one does nothing.
pub proof fn law_every_long_segment_counts(p: Progress, head: Seq<char>, ender: char)
    requires
        p.pending.len() == 0,
        p.count < usize::MAX,
        forall|i: int| 0 <= i < head.len() ==> !sentence_enders().contains(#[trigger] head[i]),
        sentence_enders().contains(ender),
    ensures
        ({
            let s = head.push(ender);
            let (after, reported) = scan(received(p, s));
            &&& after.pending.len() == 0
            &&& s.len() >= 10 && (exists|i: int| 0 <= i < s.len() && !whitespace(#[trigger] s[i]))
                ==> {
                &&& after.last == Some(trimmed(s))
                &&& after.count == if p.last == Some(trimmed(s)) {
                    p.count + 1
                } else {
                    1
                }
                &&& reported <==> after.count >= 8
            }
            &&& s.len() < 10 || (forall|i: int| 0 <= i < s.len() ==> whitespace(#[trigger] s[i]))
                ==> {
                &&& after.last == p.last
                &&& after.count == p.count
                &&& !reported
            }
        }),
{
    let s = head.push(ender);
    lemma_scan_segment(p, head, ender, Seq::empty());
    assert(s + Seq::<char>::empty() =~= s);
    lemma_not_blank(s);
    let next = after_segment(Progress { pending: Seq::empty(), ..p }, s);
    lemma_first_ender(next.pending, sentence_enders());
    assert(scan(next) == (next, false));
}

proof fn lemma_not_blank(s: Seq<char>)
    ensures
        trimmed(s).len() > 0 <==> exists|i: int| 0 <= i < s.len() && !whitespace(#[trigger] s[i]),
{
    let (a, b) = lemma_trimmed(s);
    if a < b {
        assert(!whitespace(s[a]));
    } else {
        assert forall|i: int| 0 <= i < s.len() implies whitespace(#[trigger] s[i]) by {
            if i >= a {
                assert(b <= i);
            }
        }
    }
}

proof fn lemma_scan_segment(p: Progress, head: Seq<char>, ender: char, rest: Seq<char>)
    requires
        p.pending.len() == 0,
        forall|i: int| 0 <= i < head.len() ==> !sentence_enders().contains(#[trigger] head[i]),
        sentence_enders().contains(ender),
    ensures
        ({
            let s = head.push(ender);
            let next = after_segment(Progress { pending: rest, ..p }, s);
            scan(received(p, s + rest)) == if counts(s) && next.count >= REPEAT_THRESHOLD {
                (next, true)
            } else {
                scan(next)
            }
        }),
{
    let s = head.push(ender);
    let t = s + rest;
    let k = head.len() as int;
    assert(p.pending + t =~= t);
    assert forall|i: int| 0 <= i < k implies !sentence_enders().contains(#[trigger] t[i]) by {
        assert(t[i] == head[i]);
    }
    lemma_first_ender_at(t, sentence_enders(), k);
    assert(t.take(k + 1) =~= s);
    assert(t.skip(k + 1) =~= rest);
}

/// The segments of a piece are taken one by one, however many there are: the
/// first does what it does alone, and then what follows does what it does
/// then, unless the first has been reported; in that case what follows is
/// pending.
pub proof fn law_segments_are_taken_one_by_one(
    p: Progress,
    head: Seq<char>,
    ender: char,
    rest: Seq<char>,
)
    requires
        p.pending.len() == 0,
        forall|i: int| 0 <= i < head.len() ==> !sentence_enders().contains(#[trigger] head[i]),
        sentence_enders().contains(ender),
    ensures
        ({
            let s = head.push(ender);
            let (after, reported) = scan(received(p, s));
            scan(received(p, s + rest)) == if reported {
                (Progress { pending: rest, ..after }, true)
            } else {
                scan(received(after, rest))
            }
        }),
{
    let none = Seq::<char>::empty();
    let s = head.push(ender);
    lemma_scan_segment(p, head, ender, rest);
    lemma_scan_segment(p, head, ender, none);
    assert(s + none =~= s);
    let alone = after_segment(Progress { pending: none, ..p }, s);
    lemma_first_ender(none, sentence_enders());
    assert(scan(alone) == (alone, false));
    assert(none + rest =~= rest);
}

/// The progress after `n` pieces that are all `s`.
pub open spec fn after_pieces(p: Progress, s: Seq<char>, n: nat) -> Progress
    decreases n,
{
    if n == 0 {
        p
    } else {
        scan(received(after_pieces(p, s, (n - 1) as nat), s)).0
    }
}

proof fn lemma_after_pieces(p: Progress, head: Seq<char>, ender: char, n: nat)
    requires
        p.pending.len() == 0,
        p.last != Some(trimmed(head.push(ender))),
        p.count < usize::MAX,
        0 < n < usize::MAX,
        forall|i: int| 0 <= i < head.len() ==> !sentence_enders().contains(#[trigger] head[i]),
        sentence_enders().contains(ender),
        head.len() >= 9,
        exists|i: int|
            0 <= i < head.push(ender).len() && !whitespace(#[trigger] head.push(ender)[i]),
    ensures
        after_pieces(p, head.push(ender), n).pending.len() == 0,
        after_pieces(p, head.push(ender), n).last == Some(trimmed(head.push(ender))),
        after_pieces(p, head.push(ender), n).count == n,
    decreases n,
{
    let s = head.push(ender);
    let before = after_pieces(p, s, (n - 1) as nat);
    if n > 1 {
        lemma_after_pieces(p, head, ender, (n - 1) as nat);
    }
    law_every_long_segment_counts(before, head, ender);
}

/// The same segment of 10 characters or more, not blank, pushed over and over,
/// is reported from the eighth time on and not before, however long it is.
pub proof fn law_eighth_copy_is_reported(p: Progress, head: Seq<char>, ender: char, n: nat)
    requires
        p.pending.len() == 0,
        p.last != Some(trimmed(head.push(ender))),
        p.count < usize::MAX,
        0 < n < usize::MAX,
        forall|i: int| 0 <= i < head.len() ==> !sentence_enders().contains(#[trigger] head[i]),
        sentence_enders().contains(ender),
        head.len() >= 9,
        exists|i: int|
            0 <= i < head.push(ender).len() && !whitespace(#[trigger] head.push(ender)[i]),
    ensures
        scan(received(after_pieces(p, head.push(ender), (n - 1) as nat), head.push(ender))).1
            <==> n >= 8,
{
    let s = head.push(ender);
    if n > 1 {
        lemma_after_pieces(p, head, ender, (n - 1) as nat);
    }
    law_every_long_segment_counts(after_pieces(p, s, (n - 1) as nat), head, ender);
}

} // verus!
