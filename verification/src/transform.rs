//! The haiku segmenter: word-by-word accumulation of syllable counts into
//! three line buckets with exact targets 5, 7 and 5. A line closes only when
//! its running total equals its target exactly on a word boundary; an
//! overshoot is never corrected, so it forces rejection.

use crate::syllables::syllable_count;
use crate::words::words_of;
use vstd::prelude::*;

verus! {

/// The accumulation state: the active line (filled strictly in order
/// 0, 1, 2) and the running syllable total of each line.
pub struct SegState {
    pub line: nat,
    pub c0: nat,
    pub c1: nat,
    pub c2: nat,
}

/// The state before any word is read.
pub open spec fn seg_init() -> SegState {
    (SegState { line: 0, c0: 0, c1: 0, c2: 0 })
}

/// Adds a word's syllable count to the active line's total.
pub open spec fn seg_add(st: SegState, syl: nat) -> SegState {
    if st.line == 0 {
        (SegState { line: st.line, c0: st.c0 + syl, c1: st.c1, c2: st.c2 })
    } else if st.line == 1 {
        (SegState { line: st.line, c0: st.c0, c1: st.c1 + syl, c2: st.c2 })
    } else {
        (SegState { line: st.line, c0: st.c0, c1: st.c1, c2: st.c2 + syl })
    }
}

/// One word's worth of segmentation, from word `i` on: the word's count is
/// added to the active line, the word and a space go to the output, then the
/// line-close checks run in order (line 0 at 5, line 1 at 7, line 2 at 5);
/// closing line 2 returns the output at once, later words unread. When the
/// words run out, the accumulated totals must be exactly 5, 7, 5.
pub open spec fn seg_run(words: Seq<Seq<char>>, i: int, st: SegState, out: Seq<char>) -> Option<
    Seq<char>,
>
    decreases words.len() - i,
{
    if i < 0 || i >= words.len() {
        if st.c0 == 5 && st.c1 == 7 && st.c2 == 5 {
            Some(out)
        } else {
            None
        }
    } else {
        let syl = syllable_count(words[i]);
        let out1 = out + words[i] + seq![' '];
        let st1 = seg_add(st, syl);
        let fire0 = st1.line == 0 && st1.c0 == 5;
        let st2 = if fire0 {
            (SegState { line: 1, c0: st1.c0, c1: st1.c1, c2: st1.c2 })
        } else {
            st1
        };
        let out2 = if fire0 {
            out1 + seq!['\n']
        } else {
            out1
        };
        let fire1 = st2.line == 1 && st2.c1 == 7;
        let st3 = if fire1 {
            (SegState { line: 2, c0: st2.c0, c1: st2.c1, c2: st2.c2 })
        } else {
            st2
        };
        let out3 = if fire1 {
            out2 + seq!['\n']
        } else {
            out2
        };
        if st3.line == 2 && st3.c2 == 5 {
            Some(out3 + seq!['\n'])
        } else {
            seg_run(words, i + 1, st3, out3)
        }
    }
}

/// What `transform_to_haiku` returns, as a function of the input's characters:
/// the words of the input, segmented from the initial state into an empty
/// output.
pub open spec fn spec_transform(s: Seq<char>) -> Option<Seq<char>> {
    seg_run(words_of(s), 0, seg_init(), Seq::empty())
}

proof fn lemma_line0_stuck(words: Seq<Seq<char>>, i: int, st: SegState, out: Seq<char>)
    requires
        0 <= i <= words.len(),
        st.line == 0,
        st.c0 > 5,
    ensures
        seg_run(words, i, st, out) is None,
    decreases words.len() - i,
{
    if i < words.len() {
        let syl = syllable_count(words[i]);
        let st1 = seg_add(st, syl);
        assert(st1.c0 > 5);
        lemma_line0_stuck(words, i + 1, st1, out + words[i] + seq![' ']);
    }
}

proof fn lemma_line1_stuck(words: Seq<Seq<char>>, i: int, st: SegState, out: Seq<char>)
    requires
        0 <= i <= words.len(),
        st.line == 1,
        st.c1 > 7,
    ensures
        seg_run(words, i, st, out) is None,
    decreases words.len() - i,
{
    if i < words.len() {
        let syl = syllable_count(words[i]);
        let st1 = seg_add(st, syl);
        assert(st1.c1 > 7);
        lemma_line1_stuck(words, i + 1, st1, out + words[i] + seq![' ']);
    }
}

proof fn lemma_line2_stuck(words: Seq<Seq<char>>, i: int, st: SegState, out: Seq<char>)
    requires
        0 <= i <= words.len(),
        st.line == 2,
        st.c2 > 5,
    ensures
        seg_run(words, i, st, out) is None,
    decreases words.len() - i,
{
    if i < words.len() {
        let syl = syllable_count(words[i]);
        let st1 = seg_add(st, syl);
        assert(st1.c2 > 5);
        lemma_line2_stuck(words, i + 1, st1, out + words[i] + seq![' ']);
    }
}

/// The syllable counts of a sequence of words, word by word.
pub open spec fn word_syllables(words: Seq<Seq<char>>) -> Seq<nat> {
    words.map_values(|w: Seq<char>| syllable_count(w))
}

/// The sum of `syls[from .. to]`.
pub open spec fn sum_range(syls: Seq<nat>, from: int, to: int) -> nat
    decreases to - from,
{
    if from >= to {
        0
    } else {
        syls[from] + sum_range(syls, from + 1, to)
    }
}

/// The running total after the first `k` words.
pub open spec fn prefix_total(syls: Seq<nat>, k: int) -> nat {
    sum_range(syls, 0, k)
}

/// The running total equals `t` at some word boundary.
pub open spec fn lands_on(syls: Seq<nat>, t: nat) -> bool {
    exists|k: int| 1 <= k <= syls.len() && prefix_total(syls, k) == t
}

/// The first word index `k >= i` at which `acc` plus the counts of words
/// `i ..= k` equals `t` exactly; `syls.len()` when no such index exists.
pub open spec fn first_land(syls: Seq<nat>, i: int, acc: nat, t: nat) -> int
    decreases syls.len() - i,
{
    if i < 0 || i >= syls.len() {
        syls.len() as int
    } else if acc + syls[i] == t {
        i
    } else {
        first_land(syls, i + 1, acc + syls[i], t)
    }
}

/// The words `words[from .. to]`, each followed by one space.
pub open spec fn words_cat(words: Seq<Seq<char>>, from: int, to: int) -> Seq<char>
    decreases to - from,
{
    if from >= to {
        Seq::empty()
    } else {
        words[from] + seq![' '] + words_cat(words, from + 1, to)
    }
}

/// The formatted haiku whose lines end after words `a`, `b` and `c`: each
/// word followed by one space, each line closed by a newline.
pub open spec fn render_haiku(words: Seq<Seq<char>>, a: int, b: int, c: int) -> Seq<char> {
    words_cat(words, 0, a + 1) + seq!['\n'] + words_cat(words, a + 1, b + 1) + seq!['\n']
        + words_cat(words, b + 1, c + 1) + seq!['\n']
}

proof fn lemma_sum_range_split(syls: Seq<nat>, from: int, mid: int, to: int)
    requires
        from <= mid <= to,
    ensures
        sum_range(syls, from, to) == sum_range(syls, from, mid) + sum_range(syls, mid, to),
    decreases mid - from,
{
    if from < mid {
        lemma_sum_range_split(syls, from + 1, mid, to);
    }
}

proof fn lemma_first_land_props(syls: Seq<nat>, i: int, acc: nat, t: nat)
    requires
        0 <= i <= syls.len(),
    ensures
        ({
            let k = first_land(syls, i, acc, t);
            &&& i <= k <= syls.len()
            &&& (k < syls.len() ==> acc + sum_range(syls, i, k + 1) == t)
            &&& (forall|j: int| i <= j < k ==> acc + #[trigger] sum_range(syls, i, j + 1) != t)
        }),
    decreases syls.len() - i,
{
    let k = first_land(syls, i, acc, t);
    if i == syls.len() {
    } else if acc + syls[i] == t {
        assert(sum_range(syls, i, i + 1) == syls[i] + sum_range(syls, i + 1, i + 1));
    } else {
        lemma_first_land_props(syls, i + 1, (acc + syls[i]) as nat, t);
        if k < syls.len() {
            assert(sum_range(syls, i, k + 1) == syls[i] + sum_range(syls, i + 1, k + 1));
        }
        assert forall|j: int| i <= j < k implies acc + #[trigger] sum_range(syls, i, j + 1) != t by {
            assert(sum_range(syls, i, j + 1) == syls[i] + sum_range(syls, i + 1, j + 1));
        }
    }
}

proof fn lemma_run_third_line(words: Seq<Seq<char>>, i: int, c2: nat, out: Seq<char>)
    requires
        0 <= i <= words.len(),
        c2 != 5,
    ensures
        ({
            let syls = word_syllables(words);
            let k = first_land(syls, i, c2, 5);
            let st = (SegState { line: 2, c0: 5, c1: 7, c2 });
            if k == words.len() {
                seg_run(words, i, st, out) is None
            } else {
                seg_run(words, i, st, out) == Some(
                    out + words_cat(words, i, k + 1) + seq!['\n'],
                )
            }
        }),
    decreases words.len() - i,
{
    let syls = word_syllables(words);
    let k = first_land(syls, i, c2, 5);
    let st = (SegState { line: 2, c0: 5, c1: 7, c2 });
    if i < words.len() {
        let syl = syllable_count(words[i]);
        assert(syls[i] == syl);
        let out1 = out + words[i] + seq![' '];
        if c2 + syl == 5 {
            assert(k == i);
            assert(words_cat(words, i, i + 1) =~= words[i] + seq![' ']);
            assert(out1 + seq!['\n'] =~= out + words_cat(words, i, i + 1) + seq!['\n']);
        } else {
            lemma_run_third_line(words, i + 1, (c2 + syl) as nat, out1);
            assert(k == first_land(syls, i + 1, (c2 + syl) as nat, 5));
            if k < words.len() {
                lemma_first_land_props(syls, i + 1, (c2 + syl) as nat, 5);
                assert(i + 1 <= k);
                assert(words_cat(words, i, k + 1) =~= words[i] + seq![' '] + words_cat(
                    words,
                    i + 1,
                    k + 1,
                ));
                assert(out1 + words_cat(words, i + 1, k + 1) + seq!['\n'] =~= out + words_cat(
                    words,
                    i,
                    k + 1,
                ) + seq!['\n']);
            }
        }
    }
}

proof fn lemma_run_second_line(words: Seq<Seq<char>>, i: int, c1: nat, out: Seq<char>)
    requires
        0 <= i <= words.len(),
        c1 != 7,
    ensures
        ({
            let syls = word_syllables(words);
            let j = first_land(syls, i, c1, 7);
            let k = first_land(syls, j + 1, 0, 5);
            let st = (SegState { line: 1, c0: 5, c1, c2: 0 });
            if j == words.len() || k == words.len() {
                seg_run(words, i, st, out) is None
            } else {
                seg_run(words, i, st, out) == Some(
                    out + words_cat(words, i, j + 1) + seq!['\n'] + words_cat(words, j + 1, k + 1)
                        + seq!['\n'],
                )
            }
        }),
    decreases words.len() - i,
{
    let syls = word_syllables(words);
    let j = first_land(syls, i, c1, 7);
    let k = first_land(syls, j + 1, 0, 5);
    let st = (SegState { line: 1, c0: 5, c1, c2: 0 });
    lemma_first_land_props(syls, i, c1, 7);
    if j < words.len() {
        lemma_first_land_props(syls, j + 1, 0nat, 5);
    } else {
        assert(k == syls.len() as int);
    }
    if i < words.len() {
        let syl = syllable_count(words[i]);
        assert(syls[i] == syl);
        let out1 = out + words[i] + seq![' '];
        if c1 + syl == 7 {
            assert(j == i);
            let out2 = out1 + seq!['\n'];
            lemma_run_third_line(words, i + 1, 0nat, out2);
            assert(seg_run(words, i, st, out) == seg_run(
                words,
                i + 1,
                (SegState { line: 2, c0: 5, c1: 7, c2: 0 }),
                out2,
            ));
            if k < words.len() {
                lemma_first_land_props(syls, i + 1, 0nat, 5);
                assert(words_cat(words, i, i + 1) =~= words[i] + seq![' ']);
                assert(out2 + words_cat(words, i + 1, k + 1) + seq!['\n'] =~= out + words_cat(
                    words,
                    i,
                    i + 1,
                ) + seq!['\n'] + words_cat(words, i + 1, k + 1) + seq!['\n']);
            }
        } else {
            lemma_run_second_line(words, i + 1, (c1 + syl) as nat, out1);
            assert(j == first_land(syls, i + 1, (c1 + syl) as nat, 7));
            if j < words.len() && k < words.len() {
                lemma_first_land_props(syls, i + 1, (c1 + syl) as nat, 7);
                assert(i + 1 <= j);
                assert(words_cat(words, i, j + 1) =~= words[i] + seq![' '] + words_cat(
                    words,
                    i + 1,
                    j + 1,
                ));
                assert(out1 + words_cat(words, i + 1, j + 1) + seq!['\n'] + words_cat(
                    words,
                    j + 1,
                    k + 1,
                ) + seq!['\n'] =~= out + words_cat(words, i, j + 1) + seq!['\n'] + words_cat(
                    words,
                    j + 1,
                    k + 1,
                ) + seq!['\n']);
            }
        }
    }
}

proof fn lemma_run_first_line(words: Seq<Seq<char>>, i: int, c0: nat, out: Seq<char>)
    requires
        0 <= i <= words.len(),
        c0 != 5,
    ensures
        ({
            let syls = word_syllables(words);
            let g = first_land(syls, i, c0, 5);
            let j = first_land(syls, g + 1, 0, 7);
            let k = first_land(syls, j + 1, 0, 5);
            let st = (SegState { line: 0, c0, c1: 0, c2: 0 });
            if g == words.len() || j == words.len() || k == words.len() {
                seg_run(words, i, st, out) is None
            } else {
                seg_run(words, i, st, out) == Some(
                    out + words_cat(words, i, g + 1) + seq!['\n'] + words_cat(words, g + 1, j + 1)
                        + seq!['\n'] + words_cat(words, j + 1, k + 1) + seq!['\n'],
                )
            }
        }),
    decreases words.len() - i,
{
    let syls = word_syllables(words);
    let g = first_land(syls, i, c0, 5);
    let j = first_land(syls, g + 1, 0, 7);
    let k = first_land(syls, j + 1, 0, 5);
    let st = (SegState { line: 0, c0, c1: 0, c2: 0 });
    lemma_first_land_props(syls, i, c0, 5);
    if g < words.len() {
        lemma_first_land_props(syls, g + 1, 0nat, 7);
    } else {
        assert(j == syls.len() as int);
    }
    if j < words.len() {
        lemma_first_land_props(syls, j + 1, 0nat, 5);
    } else {
        assert(k == syls.len() as int);
    }
    if i < words.len() {
        let syl = syllable_count(words[i]);
        assert(syls[i] == syl);
        let out1 = out + words[i] + seq![' '];
        if c0 + syl == 5 {
            assert(g == i);
            let out2 = out1 + seq!['\n'];
            lemma_run_second_line(words, i + 1, 0nat, out2);
            assert(seg_run(words, i, st, out) == seg_run(
                words,
                i + 1,
                (SegState { line: 1, c0: 5, c1: 0, c2: 0 }),
                out2,
            ));
            if j < words.len() && k < words.len() {
                assert(words_cat(words, i, i + 1) =~= words[i] + seq![' ']);
                assert(out2 + words_cat(words, i + 1, j + 1) + seq!['\n'] + words_cat(
                    words,
                    j + 1,
                    k + 1,
                ) + seq!['\n'] =~= out + words_cat(words, i, i + 1) + seq!['\n'] + words_cat(
                    words,
                    i + 1,
                    j + 1,
                ) + seq!['\n'] + words_cat(words, j + 1, k + 1) + seq!['\n']);
            }
        } else {
            lemma_run_first_line(words, i + 1, (c0 + syl) as nat, out1);
            assert(g == first_land(syls, i + 1, (c0 + syl) as nat, 5));
            if g < words.len() && j < words.len() && k < words.len() {
                lemma_first_land_props(syls, i + 1, (c0 + syl) as nat, 5);
                assert(i + 1 <= g);
                assert(words_cat(words, i, g + 1) =~= words[i] + seq![' '] + words_cat(
                    words,
                    i + 1,
                    g + 1,
                ));
                assert(out1 + words_cat(words, i + 1, g + 1) + seq!['\n'] + words_cat(
                    words,
                    g + 1,
                    j + 1,
                ) + seq!['\n'] + words_cat(words, j + 1, k + 1) + seq!['\n'] =~= out + words_cat(
                    words,
                    i,
                    g + 1,
                ) + seq!['\n'] + words_cat(words, g + 1, j + 1) + seq!['\n'] + words_cat(
                    words,
                    j + 1,
                    k + 1,
                ) + seq!['\n']);
            }
        }
    }
}

/// How the segmenter decides: with `a`, `b` and `c` the first word boundaries
/// at which the running totals land exactly on 5, then 7 more, then 5 more,
/// the transform succeeds if and only if all three exist, and then returns
/// the words up to `c` formatted as three lines.
pub proof fn lemma_transform_characterization(s: Seq<char>)
    ensures
        ({
            let words = words_of(s);
            let syls = word_syllables(words);
            let a = first_land(syls, 0, 0, 5);
            let b = first_land(syls, a + 1, 0, 7);
            let c = first_land(syls, b + 1, 0, 5);
            if a == words.len() || b == words.len() || c == words.len() {
                spec_transform(s) is None
            } else {
                spec_transform(s) == Some(render_haiku(words, a, b, c))
            }
        }),
{
    let words = words_of(s);
    let syls = word_syllables(words);
    let a = first_land(syls, 0, 0, 5);
    let b = first_land(syls, a + 1, 0, 7);
    let c = first_land(syls, b + 1, 0, 5);
    lemma_run_first_line(words, 0, 0nat, Seq::empty());
    if a < words.len() && b < words.len() && c < words.len() {
        assert(Seq::empty() + words_cat(words, 0, a + 1) + seq!['\n'] + words_cat(
            words,
            a + 1,
            b + 1,
        ) + seq!['\n'] + words_cat(words, b + 1, c + 1) + seq!['\n'] =~= render_haiku(
            words,
            a,
            b,
            c,
        ));
    }
}

/// Overshoot forces rejection: if the running word-syllable total never
/// equals 5, or never 12, or never 17 at a word boundary — in particular when
/// a single word carries the total strictly past a line target — the
/// transform rejects, even when the grand total is 17.
pub proof fn lemma_overshoot_rejects(s: Seq<char>)
    requires
        ({
            let syls = word_syllables(words_of(s));
            !(lands_on(syls, 5) && lands_on(syls, 12) && lands_on(syls, 17))
        }),
    ensures
        spec_transform(s) is None,
{
    let words = words_of(s);
    let syls = word_syllables(words);
    let a = first_land(syls, 0, 0, 5);
    let b = first_land(syls, a + 1, 0, 7);
    let c = first_land(syls, b + 1, 0, 5);
    lemma_transform_characterization(s);
    lemma_first_land_props(syls, 0, 0nat, 5);
    if a < words.len() {
        lemma_first_land_props(syls, a + 1, 0nat, 7);
    } else {
        assert(b == syls.len() as int);
    }
    if b < words.len() {
        lemma_first_land_props(syls, b + 1, 0nat, 5);
    } else {
        assert(c == syls.len() as int);
    }
    if a < words.len() && b < words.len() && c < words.len() {
        assert(prefix_total(syls, a + 1) == 5);
        lemma_sum_range_split(syls, 0, a + 1, b + 1);
        assert(prefix_total(syls, b + 1) == 12);
        lemma_sum_range_split(syls, 0, b + 1, c + 1);
        assert(prefix_total(syls, c + 1) == 17);
        assert(1 <= a + 1 <= syls.len() && prefix_total(syls, a + 1) == 5);
        assert(1 <= b + 1 <= syls.len() && prefix_total(syls, b + 1) == 12);
        assert(1 <= c + 1 <= syls.len() && prefix_total(syls, c + 1) == 17);
        assert(false);
    }
}

/// Exact hits are accepted: if the running totals land exactly on 5, 12 and
/// 17 for the first time after words `a`, `b` and `c`, the transform returns
/// the words up to `c`, joined with single spaces, a newline closing each of
/// the three lines.
pub proof fn lemma_exact_hits_accepted(s: Seq<char>, a: int, b: int, c: int)
    requires
        ({
            let words = words_of(s);
            let syls = word_syllables(words);
            &&& 0 <= a < b < c < words.len()
            &&& prefix_total(syls, a + 1) == 5
            &&& forall|k: int| 1 <= k <= a ==> prefix_total(syls, k) != 5
            &&& prefix_total(syls, b + 1) == 12
            &&& forall|k: int| 1 <= k <= b ==> prefix_total(syls, k) != 12
            &&& prefix_total(syls, c + 1) == 17
            &&& forall|k: int| 1 <= k <= c ==> prefix_total(syls, k) != 17
        }),
    ensures
        spec_transform(s) == Some(render_haiku(words_of(s), a, b, c)),
{
    let words = words_of(s);
    let syls = word_syllables(words);
    let a0 = first_land(syls, 0, 0, 5);
    lemma_first_land_props(syls, 0, 0nat, 5);
    if a0 < a {
        assert(prefix_total(syls, a0 + 1) == 5);
        assert(false);
    }
    if a0 > a {
        assert(0 + sum_range(syls, 0, a + 1) != 5);
        assert(false);
    }
    let b0 = first_land(syls, a + 1, 0, 7);
    lemma_first_land_props(syls, a + 1, 0nat, 7);
    if b0 == syls.len() || b0 > b {
        lemma_sum_range_split(syls, 0, a + 1, b + 1);
        assert(0 + sum_range(syls, a + 1, b + 1) != 7);
        assert(false);
    }
    if b0 < b {
        lemma_sum_range_split(syls, 0, a + 1, b0 + 1);
        assert(prefix_total(syls, b0 + 1) == 12);
        assert(false);
    }
    let c0 = first_land(syls, b + 1, 0, 5);
    lemma_first_land_props(syls, b + 1, 0nat, 5);
    if c0 == syls.len() || c0 > c {
        lemma_sum_range_split(syls, 0, b + 1, c + 1);
        assert(0 + sum_range(syls, b + 1, c + 1) != 5);
        assert(false);
    }
    if c0 < c {
        lemma_sum_range_split(syls, 0, b + 1, c0 + 1);
        assert(prefix_total(syls, c0 + 1) == 17);
        assert(false);
    }
    lemma_transform_characterization(s);
}

/// Segments the input into a 5-7-5 haiku, or rejects it. On success the
/// result is the consumed words in order, each followed by one space, with a
/// newline closing each of the three lines; words after the third line's
/// close are discarded. The result is a function of the input characters
/// alone.
pub fn transform_to_haiku(s: String) -> (r: Option<String>)
    ensures
        r.deep_view() == spec_transform(s@),
{
    let words = crate::words::split_whitespace_words(s.as_str());
    let ghost wseq: Seq<Seq<char>> = words.deep_view();
    let mut out = String::new();
    let mut line: usize = 0;
    let mut c0: usize = 0;
    let mut c1: usize = 0;
    let mut c2: usize = 0;
    let mut i: usize = 0;
    proof {
        reveal_strlit(" ");
        reveal_strlit("\n");
        assert(out@ =~= Seq::<char>::empty());
    }
    while i < words.len()
        invariant
            i <= words.len(),
            wseq == words.deep_view(),
            wseq == words_of(s@),
            line <= 2,
            line == 0 ==> c0 < 5 && c1 == 0 && c2 == 0,
            line == 1 ==> c0 == 5 && c1 < 7 && c2 == 0,
            line == 2 ==> c0 == 5 && c1 == 7 && c2 < 5,
            spec_transform(s@) == seg_run(
                wseq,
                i as int,
                (SegState { line: line as nat, c0: c0 as nat, c1: c1 as nat, c2: c2 as nat }),
                out@,
            ),
        decreases words.len() - i,
    {
        let ghost st = SegState { line: line as nat, c0: c0 as nat, c1: c1 as nat, c2: c2 as nat };
        let ghost out_pre = out@;
        let w = &words[i];
        proof {
            assert(w@ == wseq[i as int]);
        }
        let syl = crate::syllables::count_syllables_in_word(w.as_str());
        out.append(w.as_str());
        out.append(" ");
        proof {
            reveal_strlit(" ");
            assert(" "@ =~= seq![' ']);
            assert(out@ == out_pre + wseq[i as int] + seq![' ']);
        }
        let ghost st1 = seg_add(st, syl as nat);
        if line == 0 {
            if syl > 5 || c0 + syl > 5 {
                proof {
                    assert(st1.line == 0 && st1.c0 > 5);
                    lemma_line0_stuck(wseq, i as int + 1, st1, out@);
                }
                return None;
            }
            let t = c0 + syl;
            c0 = t;
            if t == 5 {
                out.append("\n");
                line = 1;
                proof {
                    reveal_strlit("\n");
                    assert("\n"@ =~= seq!['\n']);
                }
            }
        } else if line == 1 {
            if syl > 7 || c1 + syl > 7 {
                proof {
                    assert(st1.line == 1 && st1.c1 > 7);
                    lemma_line1_stuck(wseq, i as int + 1, st1, out@);
                }
                return None;
            }
            let t = c1 + syl;
            c1 = t;
            if t == 7 {
                out.append("\n");
                line = 2;
                proof {
                    reveal_strlit("\n");
                    assert("\n"@ =~= seq!['\n']);
                }
            }
        } else {
            if syl > 5 || c2 + syl > 5 {
                proof {
                    assert(st1.line == 2 && st1.c2 > 5);
                    lemma_line2_stuck(wseq, i as int + 1, st1, out@);
                }
                return None;
            }
            let t = c2 + syl;
            c2 = t;
            if t == 5 {
                out.append("\n");
                proof {
                    reveal_strlit("\n");
                    assert("\n"@ =~= seq!['\n']);
                    assert(spec_transform(s@) == Some(out@));
                }
                return Some(out);
            }
        }
        i = i + 1;
    }
    None
}

} // verus!
