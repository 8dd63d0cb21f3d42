//! Writing direction of a text and its split into direction runs.

use crate::direction::{is_ltr_char, is_rtl_char, spec_is_ltr, spec_is_rtl};
use crate::rope::{min, BiDiSegment, TextDirection};
use crate::text_rope::{rope_len_chars, rope_slice_string, rope_text};
use ropey::Rope;
use vstd::prelude::*;

verus! {

/// The direction that `c` asks for, if any: right-to-left characters win
/// over left-to-right ones, and other characters are neutral.
pub open spec fn char_direction(c: char) -> Option<TextDirection> {
    if spec_is_rtl(c) {
        Some(TextDirection::Rtl)
    } else if spec_is_ltr(c) {
        Some(TextDirection::Ltr)
    } else {
        None
    }
}

/// The segments closed so far and the open run (its direction and the
/// index where it began) after the first `n` characters of `s`, whose
/// first character stands at position `base` of the text.
pub open spec fn bidi_scan(s: Seq<char>, base: int, n: int) -> (Seq<BiDiSegment>, Option<(TextDirection, int)>)
    decreases n,
{
    if n <= 0 {
        (Seq::empty(), None)
    } else {
        let (segs, cur) = bidi_scan(s, base, n - 1);
        let i = n - 1;
        match char_direction(s[i]) {
            None => (segs, cur),
            Some(cd) => match cur {
                None => (segs, Some((cd, i))),
                Some((d, st)) => if d == cd {
                    (segs, cur)
                } else {
                    (
                        segs.push(
                            BiDiSegment {
                                start: (base + st) as usize,
                                end: (base + i) as usize,
                                direction: d,
                            },
                        ),
                        Some((cd, i)),
                    )
                },
            },
        }
    }
}

/// The direction runs of `s` (placed at `base`): each run starts at a
/// character with a direction and lasts until the next character with the
/// other direction; the last run lasts until `end`.  Neutral characters
/// join the run before them; those before the first directed character
/// belong to no run.
pub open spec fn bidi_segments(s: Seq<char>, base: int, end: int) -> Seq<BiDiSegment> {
    let (segs, cur) = bidi_scan(s, base, s.len() as int);
    match cur {
        Some((d, st)) => segs.push(
            BiDiSegment { start: (base + st) as usize, end: end as usize, direction: d },
        ),
        None => segs,
    }
}

/// The direction runs of the characters `start..end` of `text`, the end
/// clamped to the text; none for an empty range.
pub open spec fn bidi_segments_in_range(text: Seq<char>, start: int, end: int) -> Seq<BiDiSegment> {
    let e = min(end, text.len() as int);
    if start >= e {
        Seq::empty()
    } else {
        bidi_segments(text.subrange(start, e), start, e)
    }
}

fn char_direction_of(c: char) -> (r: Option<TextDirection>)
    ensures
        r == char_direction(c),
{
    if is_rtl_char(c) {
        Some(TextDirection::Rtl)
    } else if is_ltr_char(c) {
        Some(TextDirection::Ltr)
    } else {
        None
    }
}

/// The direction runs of the characters `start..end` of the rope.
pub(crate) fn compute_bidi_segments(rope: &Rope, start: usize, end: usize) -> (segments: Vec<BiDiSegment>)
    ensures
        segments@ == bidi_segments_in_range(rope_text(*rope), start as int, end as int),
{
    let len = rope_len_chars(rope);
    let end: usize = if end < len { end } else { len };
    if start >= end {
        return Vec::new();
    }
    let mut segments: Vec<BiDiSegment> = Vec::new();
    let mut current_dir: Option<TextDirection> = None;
    let mut segment_start: usize = 0;
    let slice = rope_slice_string(rope, start, end);
    let ghost s = slice@;
    let mut i: usize = 0;
    for c in it: slice.chars()
        invariant
            it.seq() == s,
            s == rope_text(*rope).subrange(start as int, end as int),
            start < end,
            i == it.index(),
            i <= s.len() == end - start,
            ({
                let (segs, cur) = bidi_scan(s, start as int, i as int);
                &&& segments@ == segs
                &&& match cur {
                    None => current_dir is None,
                    Some((d, st)) => current_dir == Some(d) && segment_start == st && st < i,
                }
            }),
    {
        assert(s[i as int] == c);
        let char_dir = char_direction_of(c);
        if let Some(cd) = char_dir {
            match current_dir {
                None => {
                    current_dir = Some(cd);
                    segment_start = i;
                },
                Some(d) => {
                    if d != cd {
                        segments.push(
                            BiDiSegment { start: start + segment_start, end: start + i, direction: d },
                        );
                        current_dir = Some(cd);
                        segment_start = i;
                    }
                },
            }
        }
        i += 1;
    }
    if let Some(cd) = current_dir {
        segments.push(BiDiSegment { start: start + segment_start, end, direction: cd });
    }
    segments
}

/// The closed segments `segs` are non-empty, follow one another without
/// gaps, alternate in direction and start at a character of their
/// direction; the open run `cur` continues them.
pub open spec fn segments_well_formed(
    s: Seq<char>,
    base: int,
    n: int,
    segs: Seq<BiDiSegment>,
    cur: Option<(TextDirection, int)>,
) -> bool {
    &&& forall|i: int|
        0 <= i < segs.len() ==> base <= (#[trigger] segs[i]).start < segs[i].end <= base + n
            && char_direction(s[segs[i].start - base]) == Some(segs[i].direction)
    &&& forall|i: int, j: int|
        0 <= i && j == i + 1 && j < segs.len() ==> (#[trigger] segs[i]).end == (#[trigger] segs[j]).start
            && segs[i].direction != segs[j].direction
    &&& match cur {
        None => segs.len() == 0,
        Some((d, st)) => {
            &&& 0 <= st < n
            &&& char_direction(s[st]) == Some(d)
            &&& segs.len() > 0 ==> segs.last().end == base + st && segs.last().direction != d
        },
    }
}

proof fn lemma_segments_push(
    s: Seq<char>,
    base: int,
    n: int,
    segs: Seq<BiDiSegment>,
    d: TextDirection,
    st: int,
    cd: TextDirection,
)
    requires
        0 <= base,
        0 < n <= s.len(),
        base + s.len() <= usize::MAX,
        segments_well_formed(s, base, n - 1, segs, Some((d, st))),
        char_direction(s[n - 1]) == Some(cd),
        d != cd,
    ensures
        segments_well_formed(
            s,
            base,
            n,
            segs.push(
                BiDiSegment { start: (base + st) as usize, end: (base + n - 1) as usize, direction: d },
            ),
            Some((cd, n - 1)),
        ),
{
    let seg = BiDiSegment { start: (base + st) as usize, end: (base + n - 1) as usize, direction: d };
    let segs2 = segs.push(seg);
    assert forall|k: int| 0 <= k < segs2.len() implies base <= (#[trigger] segs2[k]).start
        < segs2[k].end <= base + n && char_direction(s[segs2[k].start - base]) == Some(
        segs2[k].direction,
    ) by {
        if k < segs.len() {
            assert(segs2[k] == segs[k]);
        }
    }
    assert forall|k: int, j: int| 0 <= k && j == k + 1 && j < segs2.len() implies (
    #[trigger] segs2[k]).end == (#[trigger] segs2[j]).start && segs2[k].direction
        != segs2[j].direction by {
        assert(segs2[k] == segs[k]);
        if j < segs.len() {
            assert(segs2[j] == segs[j]);
        } else {
            assert(segs[k] == segs.last());
        }
    }
}

proof fn lemma_segments_grow(
    s: Seq<char>,
    base: int,
    n: int,
    segs: Seq<BiDiSegment>,
    cur: Option<(TextDirection, int)>,
)
    requires
        segments_well_formed(s, base, n - 1, segs, cur),
    ensures
        segments_well_formed(s, base, n, segs, cur),
{
}

pub proof fn lemma_bidi_scan_well_formed(s: Seq<char>, base: int, n: int)
    requires
        0 <= base,
        0 <= n <= s.len(),
        base + s.len() <= usize::MAX,
    ensures
        segments_well_formed(s, base, n, bidi_scan(s, base, n).0, bidi_scan(s, base, n).1),
    decreases n,
{
    if n > 0 {
        lemma_bidi_scan_well_formed(s, base, n - 1);
        let (segs, cur) = bidi_scan(s, base, n - 1);
        let i = n - 1;
        match char_direction(s[i]) {
            None => {
                assert(bidi_scan(s, base, n) == (segs, cur));
                lemma_segments_grow(s, base, n, segs, cur);
            },
            Some(cd) => match cur {
                None => {
                    assert(bidi_scan(s, base, n) == (segs, Some((cd, i))));
                },
                Some((d, st)) => {
                    if d == cd {
                        assert(bidi_scan(s, base, n) == (segs, cur));
                        lemma_segments_grow(s, base, n, segs, cur);
                    } else {
                        assert(bidi_scan(s, base, n) == (
                            segs.push(
                                BiDiSegment {
                                    start: (base + st) as usize,
                                    end: (base + i) as usize,
                                    direction: d,
                                },
                            ),
                            Some((cd, i)),
                        ));
                        lemma_segments_push(s, base, n, segs, d, st, cd);
                    }
                },
            },
        }
    }
}

/// `c` is neutral or of direction `d`.
pub open spec fn fits_run(c: char, d: TextDirection) -> bool {
    char_direction(c) is None || char_direction(c) == Some(d)
}

/// Where the first run starts, relative to `s`: the closed runs first, then
/// the open one; `n` when there is none.
pub open spec fn first_run_start(
    base: int,
    n: int,
    segs: Seq<BiDiSegment>,
    cur: Option<(TextDirection, int)>,
) -> int {
    if segs.len() > 0 {
        segs[0].start - base
    } else {
        match cur {
            Some((d, st)) => st,
            None => n,
        }
    }
}

/// The characters before the first run are neutral, and each run, the
/// open one included, holds no character of the other direction.
pub open spec fn runs_exact(
    s: Seq<char>,
    base: int,
    n: int,
    segs: Seq<BiDiSegment>,
    cur: Option<(TextDirection, int)>,
) -> bool {
    &&& forall|k: int|
        0 <= k < first_run_start(base, n, segs, cur) ==> #[trigger] char_direction(s[k]) is None
    &&& forall|i: int, k: int|
        0 <= i < segs.len() && segs[i].start - base <= k < segs[i].end - base ==> #[trigger] fits_run(
            s[k],
            segs[i].direction,
        )
    &&& match cur {
        Some((d, st)) => forall|k: int| st <= k < n ==> #[trigger] fits_run(s[k], d),
        None => true,
    }
}

proof fn lemma_bidi_scan_exact(s: Seq<char>, base: int, n: int)
    requires
        0 <= base,
        0 <= n <= s.len(),
        base + s.len() <= usize::MAX,
    ensures
        runs_exact(s, base, n, bidi_scan(s, base, n).0, bidi_scan(s, base, n).1),
    decreases n,
{
    if n > 0 {
        lemma_bidi_scan_exact(s, base, n - 1);
        lemma_bidi_scan_well_formed(s, base, n - 1);
        let (segs, cur) = bidi_scan(s, base, n - 1);
        let i = n - 1;
        let (segs2, cur2) = bidi_scan(s, base, n);
        assert(fits_run(s[i], TextDirection::Ltr) || fits_run(s[i], TextDirection::Rtl));
        match char_direction(s[i]) {
            None => {
                assert(segs2 == segs && cur2 == cur);
                assert forall|k: int| 0 <= k < first_run_start(base, n, segs2, cur2) implies
                    #[trigger] char_direction(s[k]) is None by {
                    if k < i {
                        assert(k < first_run_start(base, n - 1, segs, cur));
                    }
                }
            },
            Some(cd) => match cur {
                None => {
                    assert(segs2 == segs && cur2 == Some((cd, i)));
                    assert forall|k: int| 0 <= k < first_run_start(base, n, segs2, cur2) implies
                        #[trigger] char_direction(s[k]) is None by {
                        assert(k < first_run_start(base, n - 1, segs, cur));
                    }
                },
                Some((d, st)) => {
                    if d == cd {
                        assert(segs2 == segs && cur2 == cur);
                    } else {
                        let seg = BiDiSegment {
                            start: (base + st) as usize,
                            end: (base + i) as usize,
                            direction: d,
                        };
                        assert(segs2 == segs.push(seg) && cur2 == Some((cd, i)));
                        assert(first_run_start(base, n, segs2, cur2) == first_run_start(
                            base,
                            n - 1,
                            segs,
                            cur,
                        )) by {
                            if segs.len() > 0 {
                                assert(segs2[0] == segs[0]);
                            }
                        }
                        assert forall|j: int, k: int|
                            0 <= j < segs2.len() && segs2[j].start - base <= k < segs2[j].end
                                - base implies #[trigger] fits_run(s[k], segs2[j].direction) by {
                            if j < segs.len() {
                                assert(segs2[j] == segs[j]);
                            } else {
                                assert(segs2[j] == seg);
                                assert(fits_run(s[k], d));
                            }
                        }
                    }
                },
            },
        }
    }
}

/// The direction runs of a range partition it from its first directed
/// character to its end: each run is non-empty, starts at a character of
/// its direction, holds no character of the other direction, ends where
/// the next run starts, and differs in direction from the next run; the
/// characters before the first run are neutral (all of them when there is
/// no run), and the last run ends at the end of the range, clamped to the
/// text.
pub proof fn law_bidi_segments_partition(text: Seq<char>, start: usize, end: usize)
    ensures
        ({
            let segs = bidi_segments_in_range(text, start as int, end as int);
            let e = min(end as int, text.len() as int);
            &&& forall|i: int|
                0 <= i < segs.len() ==> start <= (#[trigger] segs[i]).start < segs[i].end <= e
                    && char_direction(text[segs[i].start as int]) == Some(segs[i].direction)
            &&& forall|i: int, j: int|
                0 <= i && j == i + 1 && j < segs.len() ==> (#[trigger] segs[i]).end == (
                #[trigger] segs[j]).start && segs[i].direction != segs[j].direction
            &&& segs.len() > 0 ==> segs.last().end == e
            &&& forall|k: int|
                start <= k < (if segs.len() > 0 {
                    segs[0].start as int
                } else {
                    e
                }) ==> #[trigger] char_direction(text[k]) is None
            &&& forall|i: int, k: int|
                0 <= i < segs.len() && segs[i].start <= k < segs[i].end ==> #[trigger] fits_run(
                    text[k],
                    segs[i].direction,
                )
        }),
{
    let e = min(end as int, text.len() as int);
    if (start as int) < e {
        let s = text.subrange(start as int, e);
        lemma_bidi_scan_well_formed(s, start as int, s.len() as int);
        lemma_bidi_scan_exact(s, start as int, s.len() as int);
        let (segs, cur) = bidi_scan(s, start as int, s.len() as int);
        assert(segments_well_formed(s, start as int, s.len() as int, segs, cur));
        let all = bidi_segments(s, start as int, e);
        assert(all == bidi_segments_in_range(text, start as int, end as int));
        let bound = if all.len() > 0 {
            all[0].start as int
        } else {
            e
        };
        assert(bound - start == first_run_start(start as int, s.len() as int, segs, cur)) by {
            if segs.len() > 0 {
                assert(all[0] == segs[0]);
            }
        }
        assert forall|k: int| start <= k < bound implies #[trigger] char_direction(text[k]) is None by {
            assert(text[k] == s[k - start]);
            assert(char_direction(s[k - start]) is None);
        }
        match cur {
            None => {
                assert(all == segs);
            },
            Some((d, st)) => {
                let last = BiDiSegment { start: (start + st) as usize, end: e as usize, direction: d };
                assert(all == segs.push(last));
                assert forall|i: int| 0 <= i < all.len() implies start <= (#[trigger] all[i]).start
                    < all[i].end <= e && char_direction(text[all[i].start as int]) == Some(
                    all[i].direction,
                ) by {
                    if i < segs.len() {
                        assert(all[i] == segs[i]);
                    }
                    assert(text[all[i].start as int] == s[all[i].start - start]);
                }
                assert forall|i: int, j: int| 0 <= i && j == i + 1 && j < all.len() implies (
                #[trigger] all[i]).end == (#[trigger] all[j]).start && all[i].direction
                    != all[j].direction by {
                    assert(all[i] == segs[i]);
                    if j < segs.len() {
                        assert(all[j] == segs[j]);
                    } else {
                        assert(segs[i] == segs.last());
                    }
                }
            },
        }
        assert forall|i: int, k: int|
            0 <= i < all.len() && all[i].start <= k < all[i].end implies #[trigger] fits_run(
            text[k],
            all[i].direction,
        ) by {
            assert(text[k] == s[k - start]);
            if i < segs.len() {
                assert(all[i] == segs[i]);
                assert(fits_run(s[k - start], segs[i].direction));
            } else {
                let (d, st) = cur->Some_0;
                assert(fits_run(s[k - start], d));
            }
        }
    }
}

proof fn lemma_find_run(segs: Seq<BiDiSegment>, k: int, i: int) -> (r: int)
    requires
        0 <= i < segs.len(),
        segs[i].start <= k < segs.last().end,
        forall|a: int, b: int|
            0 <= a && b == a + 1 && b < segs.len() ==> (#[trigger] segs[a]).end == (
            #[trigger] segs[b]).start,
    ensures
        i <= r < segs.len(),
        segs[r].start <= k < segs[r].end,
    decreases segs.len() - i,
{
    if k < segs[i].end {
        i
    } else {
        if i + 1 == segs.len() {
            assert(segs[i] == segs.last());
        }
        assert(segs[i].end == segs[i + 1].start);
        lemma_find_run(segs, k, i + 1)
    }
}

/// Every character of the range that has a direction lies in a run of
/// that direction: a right-to-left character in a right-to-left run, a
/// left-to-right one in a left-to-right run.
pub proof fn law_directed_characters_lie_in_their_runs(text: Seq<char>, start: usize, end: usize, k: int)
    requires
        start <= k < min(end as int, text.len() as int),
        char_direction(text[k]) is Some,
    ensures
        ({
            let segs = bidi_segments_in_range(text, start as int, end as int);
            exists|i: int|
                0 <= i < segs.len() && (#[trigger] segs[i]).start <= k < segs[i].end && Some(
                    segs[i].direction,
                ) == char_direction(text[k])
        }),
{
    law_bidi_segments_partition(text, start, end);
    let segs = bidi_segments_in_range(text, start as int, end as int);
    let e = min(end as int, text.len() as int);
    assert(segs.len() > 0) by {
        if segs.len() == 0 {
            assert(char_direction(text[k]) is None);
        }
    }
    if k < segs[0].start {
        assert(char_direction(text[k]) is None);
    }
    let i = lemma_find_run(segs, k, 0);
    assert(fits_run(text[k], segs[i].direction));
}

/// The number of right-to-left characters of `s`.
pub open spec fn count_rtl(s: Seq<char>) -> nat
    decreases s.len(),
{
    if s.len() == 0 {
        0
    } else {
        count_rtl(s.drop_last()) + if spec_is_rtl(s.last()) {
            1nat
        } else {
            0nat
        }
    }
}

/// The number of left-to-right characters of `s` that are not also
/// right-to-left.
pub open spec fn count_ltr(s: Seq<char>) -> nat
    decreases s.len(),
{
    if s.len() == 0 {
        0
    } else {
        count_ltr(s.drop_last()) + if !spec_is_rtl(s.last()) && spec_is_ltr(s.last()) {
            1nat
        } else {
            0nat
        }
    }
}

/// The direction held by most directed characters of `s`: right-to-left
/// only when strictly more of its characters are right-to-left.
pub open spec fn majority_direction(s: Seq<char>) -> TextDirection {
    if count_rtl(s) == 0 && count_ltr(s) == 0 {
        TextDirection::Ltr
    } else if count_rtl(s) > count_ltr(s) {
        TextDirection::Rtl
    } else {
        TextDirection::Ltr
    }
}

pub open spec fn has_rtl(s: Seq<char>) -> bool {
    exists|i: int| 0 <= i < s.len() && spec_is_rtl(#[trigger] s[i])
}

pub open spec fn has_ltr(s: Seq<char>) -> bool {
    exists|i: int| 0 <= i < s.len() && !spec_is_rtl(#[trigger] s[i]) && spec_is_ltr(s[i])
}

/// `Mixed` when `s` has characters of both directions, `Rtl` when it has
/// only right-to-left ones, `Ltr` otherwise.
pub open spec fn overall_direction(s: Seq<char>) -> TextDirection {
    if has_rtl(s) && has_ltr(s) {
        TextDirection::Mixed
    } else if has_rtl(s) {
        TextDirection::Rtl
    } else {
        TextDirection::Ltr
    }
}

/// The majority direction of `text`.
pub(crate) fn majority_direction_of(text: &str) -> (d: TextDirection)
    requires
        text@.len() <= usize::MAX,
    ensures
        d == majority_direction(text@),
{
    let mut rtl_count: usize = 0;
    let mut ltr_count: usize = 0;
    for c in it: text.chars()
        invariant
            it.seq() == text@,
            rtl_count == count_rtl(text@.take(it.index() as int)),
            ltr_count == count_ltr(text@.take(it.index() as int)),
            rtl_count + ltr_count <= it.index(),
            it.index() <= text@.len() <= usize::MAX,
    {
        proof {
            let i = it.index() as int;
            assert(text@.take(i + 1).drop_last() == text@.take(i));
            assert(text@.take(i + 1).last() == c);
        }
        if is_rtl_char(c) {
            rtl_count += 1;
        } else if is_ltr_char(c) {
            ltr_count += 1;
        }
    }
    assert(text@.take(text@.len() as int) == text@);
    if rtl_count == 0 && ltr_count == 0 {
        TextDirection::Ltr
    } else if rtl_count > ltr_count {
        TextDirection::Rtl
    } else {
        TextDirection::Ltr
    }
}

/// The overall direction of `cs`.
pub(crate) fn overall_direction_of(text: &str) -> (d: TextDirection)
    ensures
        d == overall_direction(text@),
{
    let mut has_r = false;
    let mut has_l = false;
    for c in it: text.chars()
        invariant
            it.seq() == text@,
            it.index() <= text@.len(),
            has_r == has_rtl(text@.take(it.index() as int)),
            has_l == has_ltr(text@.take(it.index() as int)),
            !(has_r && has_l),
    {
        let ghost i = it.index() as int;
        let ghost pre = text@.take(i);
        let ghost post = text@.take(i + 1);
        assert(post == pre.push(c));
        if is_rtl_char(c) {
            has_r = true;
            assert(post[i] == c);
        } else if is_ltr_char(c) {
            has_l = true;
            assert(post[i] == c);
        }
        assert(has_rtl(post) == has_r) by {
            if has_rtl(post) {
                let k = choose|k: int| 0 <= k < post.len() && spec_is_rtl(#[trigger] post[k]);
                if k < i {
                    assert(pre[k] == post[k]);
                }
            }
            if has_rtl(pre) {
                let k = choose|k: int| 0 <= k < pre.len() && spec_is_rtl(#[trigger] pre[k]);
                assert(post[k] == pre[k]);
            }
        }
        assert(has_ltr(post) == has_l) by {
            if has_ltr(post) {
                let k = choose|k: int|
                    0 <= k < post.len() && !spec_is_rtl(#[trigger] post[k]) && spec_is_ltr(post[k]);
                if k < i {
                    assert(pre[k] == post[k]);
                }
            }
            if has_ltr(pre) {
                let k = choose|k: int|
                    0 <= k < pre.len() && !spec_is_rtl(#[trigger] pre[k]) && spec_is_ltr(pre[k]);
                assert(post[k] == pre[k]);
            }
        }
        if has_r && has_l {
            proof {
                lemma_has_direction_prefix(text@, i + 1);
            }
            return TextDirection::Mixed;
        }
    }
    assert(text@.take(text@.len() as int) == text@);
    if !has_r && !has_l {
        TextDirection::Ltr
    } else if !has_r {
        TextDirection::Ltr
    } else {
        TextDirection::Rtl
    }
}

/// A character of a direction in a prefix is one in the whole.
proof fn lemma_has_direction_prefix(s: Seq<char>, n: int)
    requires
        0 <= n <= s.len(),
    ensures
        has_rtl(s.take(n)) ==> has_rtl(s),
        has_ltr(s.take(n)) ==> has_ltr(s),
{
    if has_rtl(s.take(n)) {
        let k = choose|k: int| 0 <= k < s.take(n).len() && spec_is_rtl(#[trigger] s.take(n)[k]);
        assert(s[k] == s.take(n)[k]);
    }
    if has_ltr(s.take(n)) {
        let k = choose|k: int| 0 <= k < s.take(n).len() && !spec_is_rtl(#[trigger] s.take(n)[k]) && spec_is_ltr(s.take(n)[k]);
        assert(s[k] == s.take(n)[k]);
    }
}

} // verus!
