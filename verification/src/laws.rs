use vstd::prelude::*;
use vstd::string::StringSliceAdditionalSpecFns;

use crate::filter::{
    color_upto, filter_answers, filter_from, leftover, lemma_color_upto_bounds, spec_eligible,
};
use crate::histogram::{count_in, spec_histo_val};
use crate::scorer::{
    avail, green_upto, is_yellow, lemma_avail_mono, lemma_avail_nonneg, lemma_green_upto_le_count,
    spec_color, spec_score,
};
use crate::words::{wf_word, wf_words, Color};

verus! {

// ------------------------------------------------------------------
// Counting helpers
// ------------------------------------------------------------------

proof fn lemma_color_upto_mono(g: Seq<u8>, r: Seq<Color>, c: u8, col: Color, i: int, j: int)
    requires
        0 <= i <= j,
    ensures
        color_upto(g, r, c, col, i) <= color_upto(g, r, c, col, j),
    decreases j - i,
{
    if i < j {
        lemma_color_upto_mono(g, r, c, col, i, j - 1);
    }
}

/// A color count stands still over a stretch where the color never
/// appears on that letter.
proof fn lemma_color_upto_frozen(g: Seq<u8>, r: Seq<Color>, c: u8, col: Color, i: int, j: int)
    requires
        0 <= i <= j,
        forall|k: int| i <= k < j ==> !(g[k] == c && #[trigger] r[k] == col),
    ensures
        color_upto(g, r, c, col, j) == color_upto(g, r, c, col, i),
    decreases j - i,
{
    if i < j {
        lemma_color_upto_frozen(g, r, c, col, i, j - 1);
    }
}

/// Where greens sit exactly at matching positions, the feedback's green
/// count per letter is the scorer's green count.
proof fn lemma_green_color_eq(a: Seq<u8>, g: Seq<u8>, r: Seq<Color>, c: u8, i: int)
    requires
        0 <= i <= 5,
        forall|j: int| 0 <= j < 5 ==> ((#[trigger] r[j] == Color::GREEN) <==> a[j] == g[j]),
    ensures
        color_upto(g, r, c, Color::GREEN, i) == green_upto(a, g, c, i),
    decreases i,
{
    if i > 0 {
        lemma_green_color_eq(a, g, r, c, i - 1);
    }
}

/// The unclaimed count at position `i` is the letter's total, less all
/// greens, less the yellows the score hands out before `i`.
proof fn lemma_avail_decomp(a: Seq<u8>, g: Seq<u8>, c: u8, i: int)
    requires
        wf_word(a),
        wf_word(g),
        0 <= i <= 5,
    ensures
        avail(a, g, c, i) == count_in(a, c) - green_upto(a, g, c, 5) - color_upto(
            g,
            spec_score(a, g),
            c,
            Color::YELLOW,
            i,
        ),
    decreases i,
{
    if i > 0 {
        lemma_avail_decomp(a, g, c, i - 1);
        let r = spec_score(a, g);
        assert(r[i - 1] == spec_color(a, g, i - 1));
        if g[i - 1] == c {
            if is_yellow(a, g, i - 1) {
                assert(spec_color(a, g, i - 1) == Color::YELLOW);
            } else {
                assert(spec_color(a, g, i - 1) != Color::YELLOW);
            }
        }
    }
}

proof fn lemma_avail0_nonneg(a: Seq<u8>, g: Seq<u8>, c: u8)
    requires
        wf_word(a),
    ensures
        avail(a, g, c, 0) >= 0,
{
    lemma_green_upto_le_count(a, g, c, 5);
}

// ------------------------------------------------------------------
// Soundness: scoring a word against a guess always leaves the word
// consistent with the feedback it produced.
// ------------------------------------------------------------------

/// For every answer and guess, the answer itself passes the consistency
/// test against its own feedback.
pub proof fn lemma_score_eligible(a: Seq<u8>, g: Seq<u8>)
    requires
        wf_word(a),
        wf_word(g),
    ensures
        spec_eligible(a, g, spec_score(a, g)),
{
    let r = spec_score(a, g);
    assert forall|i: int| 0 <= i < 5 implies ((#[trigger] r[i] == Color::GREEN) <==> a[i]
        == g[i]) by {
        assert(r[i] == spec_color(a, g, i));
    }
    assert forall|i: int| 0 <= i < 5 && #[trigger] r[i] == Color::YELLOW implies leftover(
        a,
        g,
        r,
        g[i],
    ) >= 0 by {
        let c = g[i];
        assert(r[i] == spec_color(a, g, i));
        assert(is_yellow(a, g, i));
        lemma_avail0_nonneg(a, g, c);
        lemma_avail_nonneg(a, g, c, 5);
        lemma_avail_decomp(a, g, c, 5);
        lemma_green_color_eq(a, g, r, c, 5);
        lemma_avail_mono(a, g, c, 0, i);
        lemma_green_upto_le_count(a, g, c, 5);
        assert(avail(a, g, c, i) > 0);
        assert(count_in(a, c) >= avail(a, g, c, 0));
        assert(count_in(a, c) > 0);
        assert(spec_histo_val(a, c) == count_in(a, c));
        assert(leftover(a, g, r, c) == avail(a, g, c, 5));
    }
    assert forall|i: int| 0 <= i < 5 && #[trigger] r[i] == Color::GREY implies leftover(
        a,
        g,
        r,
        g[i],
    ) <= 0 by {
        let c = g[i];
        assert(r[i] == spec_color(a, g, i));
        assert(a[i] != g[i] && !is_yellow(a, g, i));
        assert(avail(a, g, c, i) <= 0);
        lemma_avail_mono(a, g, c, i, 5);
        lemma_avail_decomp(a, g, c, 5);
        lemma_green_color_eq(a, g, r, c, 5);
        lemma_green_upto_le_count(a, g, c, 5);
        if count_in(a, c) == 0 {
            lemma_color_upto_bounds(g, r, c, Color::GREEN, 5);
            lemma_color_upto_bounds(g, r, c, Color::YELLOW, 5);
            assert(spec_histo_val(a, c) == -1);
        } else {
            assert(leftover(a, g, r, c) == avail(a, g, c, 5));
        }
    }
}

// ------------------------------------------------------------------
// Canonical feedback: what a real score can look like.
// ------------------------------------------------------------------

/// Within one guessed letter, a grey position is never followed by a
/// yellow one: the scorer hands yellows out left to right.
pub open spec fn canonical_feedback(g: Seq<u8>, r: Seq<Color>) -> bool {
    forall|i: int, j: int|
        #![trigger r[i], r[j], g[i], g[j]]
        0 <= i < j < 5 && g[i] == g[j] && r[i] == Color::GREY ==> r[j] != Color::YELLOW
}

/// Every feedback the scorer produces is canonical.
pub proof fn lemma_score_canonical(a: Seq<u8>, g: Seq<u8>)
    requires
        wf_word(a),
        wf_word(g),
    ensures
        canonical_feedback(g, spec_score(a, g)),
{
    let r = spec_score(a, g);
    assert forall|i: int, j: int|
        #![trigger r[i], r[j], g[i], g[j]]
        0 <= i < j < 5 && g[i] == g[j] && r[i] == Color::GREY implies r[j] != Color::YELLOW by {
        assert(r[i] == spec_color(a, g, i));
        assert(r[j] == spec_color(a, g, j));
        if r[j] == Color::YELLOW {
            assert(is_yellow(a, g, j));
            assert(a[i] != g[i] && !is_yellow(a, g, i));
            lemma_avail_mono(a, g, g[i], i, j);
        }
    }
}

// ------------------------------------------------------------------
// Completeness: a consistent word scores back exactly the canonical
// feedback it was tested against.
// ------------------------------------------------------------------

proof fn lemma_complete_upto(w: Seq<u8>, g: Seq<u8>, r: Seq<Color>, k: int)
    requires
        wf_word(w),
        wf_word(g),
        r.len() == 5,
        canonical_feedback(g, r),
        spec_eligible(w, g, r),
        0 <= k <= 5,
    ensures
        forall|j: int| 0 <= j < k ==> #[trigger] spec_color(w, g, j) == r[j],
        forall|c: u8| #[trigger] avail(w, g, c, k) == count_in(w, c) - green_upto(w, g, c, 5)
            - color_upto(g, r, c, Color::YELLOW, k),
    decreases k,
{
    if k == 0 {
        assert forall|c: u8| #[trigger] avail(w, g, c, 0) == count_in(w, c) - green_upto(
            w,
            g,
            c,
            5,
        ) - color_upto(g, r, c, Color::YELLOW, 0) by {
        }
    } else {
        lemma_complete_upto(w, g, r, k - 1);
        let i = k - 1;
        let c = g[i];
        lemma_green_color_eq(w, g, r, c, 5);
        lemma_green_upto_le_count(w, g, c, 5);
        lemma_color_upto_bounds(g, r, c, Color::YELLOW, i);
        if w[i] == g[i] {
            assert(r[i] == Color::GREEN);
            assert(spec_color(w, g, i) == Color::GREEN);
        } else {
            assert(r[i] != Color::GREEN);
            if r[i] == Color::YELLOW {
                // The feedback still owes this letter an occurrence, so
                // the scorer finds one unclaimed here.
                if count_in(w, c) == 0 {
                    lemma_color_upto_bounds(g, r, c, Color::GREEN, 5);
                    lemma_color_upto_bounds(g, r, c, Color::YELLOW, 5);
                    assert(leftover(w, g, r, c) <= -1);
                    assert(false);
                }
                assert(spec_histo_val(w, c) == count_in(w, c));
                assert(count_in(w, c) - green_upto(w, g, c, 5) - color_upto(
                    g,
                    r,
                    c,
                    Color::YELLOW,
                    5,
                ) >= 0);
                lemma_color_upto_mono(g, r, c, Color::YELLOW, k, 5);
                assert(color_upto(g, r, c, Color::YELLOW, k) == color_upto(
                    g,
                    r,
                    c,
                    Color::YELLOW,
                    i,
                ) + 1);
                assert(avail(w, g, c, i) >= 1);
                assert(is_yellow(w, g, i));
                assert(spec_color(w, g, i) == Color::YELLOW);
            } else {
                assert(r[i] == Color::GREY);
                if count_in(w, c) == 0 {
                    assert(green_upto(w, g, c, 5) >= 0);
                    assert(avail(w, g, c, i) <= 0);
                } else {
                    assert(leftover(w, g, r, c) <= 0);
                    assert(spec_histo_val(w, c) == count_in(w, c));
                    // Canonically, no yellow for this letter follows a grey,
                    // so the yellows before i are already all of them.
                    assert forall|j: int| i <= j < 5 implies !(g[j] == c && #[trigger] r[j]
                        == Color::YELLOW) by {
                        if j > i {
                            assert(r[i] == Color::GREY && g[i] == c);
                        }
                    }
                    lemma_color_upto_frozen(g, r, c, Color::YELLOW, i, 5);
                    assert(avail(w, g, c, i) <= 0);
                }
                assert(!is_yellow(w, g, i));
                assert(spec_color(w, g, i) == Color::GREY);
            }
        }
        assert forall|c2: u8| #[trigger] avail(w, g, c2, k) == count_in(w, c2) - green_upto(
            w,
            g,
            c2,
            5,
        ) - color_upto(g, r, c2, Color::YELLOW, k) by {
            assert(avail(w, g, c2, k) == avail(w, g, c2, i) - (
            if is_yellow(w, g, i) && g[i] == c2 {
                1int
            } else {
                0int
            }));
            assert(color_upto(g, r, c2, Color::YELLOW, k) == color_upto(
                g,
                r,
                c2,
                Color::YELLOW,
                i,
            ) + (if g[i] == c2 && r[i] == Color::YELLOW {
                1int
            } else {
                0int
            }));
            assert(spec_color(w, g, i) == r[i]);
            if g[i] == c2 {
                if is_yellow(w, g, i) {
                    assert(spec_color(w, g, i) == Color::YELLOW);
                } else {
                    assert(spec_color(w, g, i) != Color::YELLOW);
                }
            }
        }
    }
}

/// A word consistent with a canonical feedback scores back exactly that
/// feedback.
pub proof fn lemma_eligible_complete(w: Seq<u8>, g: Seq<u8>, r: Seq<Color>)
    requires
        wf_word(w),
        wf_word(g),
        r.len() == 5,
        canonical_feedback(g, r),
        spec_eligible(w, g, r),
    ensures
        spec_score(w, g) == r,
{
    lemma_complete_upto(w, g, r, 5);
    assert(spec_score(w, g) =~= r);
}

/// Consistency with a scored feedback means scoring identically: the
/// pruning test keeps exactly the words that would have produced the
/// observed pattern.
pub proof fn lemma_eligible_iff_same_score(w: Seq<u8>, a: Seq<u8>, g: Seq<u8>)
    requires
        wf_word(w),
        wf_word(a),
        wf_word(g),
    ensures
        spec_eligible(w, g, spec_score(a, g)) <==> spec_score(w, g) == spec_score(a, g),
{
    lemma_score_canonical(a, g);
    if spec_eligible(w, g, spec_score(a, g)) {
        lemma_eligible_complete(w, g, spec_score(a, g));
    }
    if spec_score(w, g) == spec_score(a, g) {
        lemma_score_eligible(w, g);
    }
}

// ------------------------------------------------------------------
// Self-match: guessing the answer itself comes back all green.
// ------------------------------------------------------------------

/// Scoring a word against itself gives green everywhere.
pub proof fn lemma_score_self(w: Seq<u8>)
    requires
        wf_word(w),
    ensures
        forall|i: int| 0 <= i < 5 ==> #[trigger] spec_score(w, w)[i] == Color::GREEN,
{
    assert forall|i: int| 0 <= i < 5 implies #[trigger] spec_score(w, w)[i] == Color::GREEN by {
        assert(spec_score(w, w)[i] == spec_color(w, w, i));
    }
}

// ------------------------------------------------------------------
// List-level pruning laws
// ------------------------------------------------------------------

/// Every word a pruning pass keeps came from the input list and is
/// consistent with the feedback.
pub proof fn lemma_filter_elems(s: Seq<&str>, g: Seq<u8>, r: Seq<Color>, k: int)
    requires
        0 <= k < filter_answers(s, g, r).len(),
    ensures
        spec_eligible(filter_answers(s, g, r)[k].spec_bytes(), g, r),
        exists|j: int| 0 <= j < s.len() && filter_answers(s, g, r)[k] == s[j],
{
    lemma_filter_from_elems(s, g, r, 0, k);
}

proof fn lemma_filter_from_elems(s: Seq<&str>, g: Seq<u8>, r: Seq<Color>, from: int, k: int)
    requires
        0 <= from,
        0 <= k < filter_from(s, g, r, from).len(),
    ensures
        spec_eligible(filter_from(s, g, r, from)[k].spec_bytes(), g, r),
        exists|j: int| 0 <= j < s.len() && filter_from(s, g, r, from)[k] == s[j],
    decreases s.len() - from,
{
    if from < s.len() {
        if spec_eligible(s[from].spec_bytes(), g, r) {
            if k == 0 {
                assert(filter_from(s, g, r, from)[0] == s[from]);
            } else {
                lemma_filter_from_elems(s, g, r, from + 1, k - 1);
            }
        } else {
            lemma_filter_from_elems(s, g, r, from + 1, k);
        }
    }
}

/// A pruned list still holds only well-formed words.
pub proof fn lemma_filter_wf(s: Seq<&str>, g: Seq<u8>, r: Seq<Color>)
    requires
        wf_words(s),
    ensures
        wf_words(filter_answers(s, g, r)),
{
    let f = filter_answers(s, g, r);
    assert forall|k: int| 0 <= k < f.len() implies wf_word(#[trigger] f[k].spec_bytes()) by {
        lemma_filter_from_elems(s, g, r, 0, k);
        let j = choose|j: int| 0 <= j < s.len() && f[k] == s[j];
        assert(wf_word(s[j].spec_bytes()));
    }
}

/// Soundness of pruning: a candidate list that holds the true answer
/// still holds it after pruning by the answer's own feedback.
pub proof fn lemma_prune_sound(s: Seq<&str>, i: int, g: Seq<u8>)
    requires
        wf_words(s),
        wf_word(g),
        0 <= i < s.len(),
    ensures
        filter_answers(s, g, spec_score(s[i].spec_bytes(), g)).contains(s[i]),
{
    lemma_score_eligible(s[i].spec_bytes(), g);
    lemma_filter_from_keeps(s, g, spec_score(s[i].spec_bytes(), g), 0, i);
}

proof fn lemma_filter_from_keeps(s: Seq<&str>, g: Seq<u8>, r: Seq<Color>, from: int, i: int)
    requires
        0 <= from <= i < s.len(),
        spec_eligible(s[i].spec_bytes(), g, r),
    ensures
        filter_from(s, g, r, from).contains(s[i]),
    decreases s.len() - from,
{
    if from == i {
        assert(filter_from(s, g, r, from)[0] == s[i]);
    } else {
        lemma_filter_from_keeps(s, g, r, from + 1, i);
        let tail = filter_from(s, g, r, from + 1);
        let k = choose|k: int| 0 <= k < tail.len() && tail[k] == s[i];
        if spec_eligible(s[from].spec_bytes(), g, r) {
            assert(filter_from(s, g, r, from)[k + 1] == s[i]);
        }
    }
}

/// Completeness of pruning: every word kept by pruning with a canonical
/// feedback scores back exactly that feedback.
pub proof fn lemma_prune_complete(s: Seq<&str>, g: Seq<u8>, r: Seq<Color>, k: int)
    requires
        wf_words(s),
        wf_word(g),
        r.len() == 5,
        canonical_feedback(g, r),
        0 <= k < filter_answers(s, g, r).len(),
    ensures
        spec_score(filter_answers(s, g, r)[k].spec_bytes(), g) == r,
{
    lemma_filter_elems(s, g, r, k);
    let j = choose|j: int| 0 <= j < s.len() && filter_answers(s, g, r)[k] == s[j];
    lemma_eligible_complete(filter_answers(s, g, r)[k].spec_bytes(), g, r);
}

/// Pruning by a real feedback keeps a word exactly when that word would
/// have produced the same feedback: the filter neither loses the truth
/// nor keeps an impostor.
pub proof fn lemma_prune_exact(s: Seq<&str>, i: int, answ: Seq<u8>, g: Seq<u8>)
    requires
        wf_words(s),
        wf_word(answ),
        wf_word(g),
        0 <= i < s.len(),
    ensures
        filter_answers(s, g, spec_score(answ, g)).contains(s[i]) <==> spec_score(
            s[i].spec_bytes(),
            g,
        ) == spec_score(answ, g),
{
    let r = spec_score(answ, g);
    lemma_score_canonical(answ, g);
    if spec_score(s[i].spec_bytes(), g) == r {
        lemma_score_eligible(s[i].spec_bytes(), g);
        assert(spec_eligible(s[i].spec_bytes(), g, spec_score(s[i].spec_bytes(), g)));
        lemma_filter_from_keeps(s, g, r, 0, i);
    }
    if filter_answers(s, g, r).contains(s[i]) {
        let k = choose|k: int|
            0 <= k < filter_answers(s, g, r).len() && filter_answers(s, g, r)[k] == s[i];
        lemma_filter_elems(s, g, r, k);
        lemma_eligible_complete(s[i].spec_bytes(), g, r);
    }
}

// ------------------------------------------------------------------
// Counting kept candidates
// ------------------------------------------------------------------

/// No two words of the list spell the same letters.
pub open spec fn distinct_words(s: Seq<&str>) -> bool {
    forall|i: int, j: int|
        0 <= i < j < s.len() ==> (#[trigger] s[i].spec_bytes()) != (#[trigger] s[j].spec_bytes())
}

/// A word scores all green against a guess exactly when it is that word.
pub proof fn lemma_score_eq_iff(w: Seq<u8>, g: Seq<u8>)
    requires
        wf_word(w),
        wf_word(g),
    ensures
        (spec_score(w, g) == spec_score(g, g)) <==> w == g,
{
    lemma_score_self(g);
    if spec_score(w, g) == spec_score(g, g) {
        assert forall|i: int| 0 <= i < 5 implies w[i] == g[i] by {
            assert(spec_score(w, g)[i] == spec_color(w, g, i));
            assert(spec_score(w, g)[i] == Color::GREEN);
        }
        assert(w =~= g);
    }
}

/// A pass that keeps nothing has an empty result.
proof fn lemma_filter_from_none(s: Seq<&str>, g: Seq<u8>, r: Seq<Color>, from: int)
    requires
        0 <= from,
        forall|i: int|
            from <= i < s.len() ==> !spec_eligible((#[trigger] s[i]).spec_bytes(), g, r),
    ensures
        filter_from(s, g, r, from).len() == 0,
    decreases s.len() - from,
{
    if from < s.len() {
        lemma_filter_from_none(s, g, r, from + 1);
    }
}

/// Dropping at least one word leaves the kept list strictly shorter than
/// the stretch read.
pub proof fn lemma_filter_from_excludes(s: Seq<&str>, g: Seq<u8>, r: Seq<Color>, from: int, i: int)
    requires
        0 <= from <= i < s.len(),
        !spec_eligible(s[i].spec_bytes(), g, r),
    ensures
        filter_from(s, g, r, from).len() <= s.len() - from - 1,
    decreases s.len() - from,
{
    if from == i {
        crate::filter::lemma_filter_from_len(s, g, r, from + 1);
    } else {
        lemma_filter_from_excludes(s, g, r, from + 1, i);
    }
}

/// When a single position can pass the test, at most one word is kept.
pub proof fn lemma_filter_from_at_most_one(
    s: Seq<&str>,
    g: Seq<u8>,
    r: Seq<Color>,
    from: int,
    ai: int,
)
    requires
        0 <= from,
        forall|i: int|
            from <= i < s.len() && i != ai ==> !spec_eligible((#[trigger] s[i]).spec_bytes(), g, r),
    ensures
        filter_from(s, g, r, from).len() <= 1,
    decreases s.len() - from,
{
    if from < s.len() {
        if from == ai {
            lemma_filter_from_none(s, g, r, from + 1);
        } else {
            lemma_filter_from_at_most_one(s, g, r, from + 1, ai);
        }
    }
}

/// Pruning keeps words of the list, so it keeps them pairwise distinct.
pub proof fn lemma_filter_distinct(s: Seq<&str>, g: Seq<u8>, r: Seq<Color>)
    requires
        distinct_words(s),
    ensures
        distinct_words(filter_answers(s, g, r)),
{
    let f = filter_answers(s, g, r);
    assert forall|i: int, j: int|
        0 <= i < j < f.len() implies (#[trigger] f[i].spec_bytes()) != (
    #[trigger] f[j].spec_bytes()) by {
        lemma_filter_from_distinct_aux(s, g, r, 0, i, j);
    }
}

proof fn lemma_filter_from_distinct_aux(
    s: Seq<&str>,
    g: Seq<u8>,
    r: Seq<Color>,
    from: int,
    i: int,
    j: int,
)
    requires
        distinct_words(s),
        0 <= from,
        0 <= i < j < filter_from(s, g, r, from).len(),
    ensures
        filter_from(s, g, r, from)[i].spec_bytes() != filter_from(s, g, r, from)[j].spec_bytes(),
    decreases s.len() - from,
{
    let f = filter_from(s, g, r, from);
    if from < s.len() {
        if spec_eligible(s[from].spec_bytes(), g, r) {
            let tail = filter_from(s, g, r, from + 1);
            if i == 0 {
                assert(f[0] == s[from]);
                assert(f[j] == tail[j - 1]);
                lemma_filter_from_elems_idx(s, g, r, from + 1, j - 1);
                let k = choose|k: int|
                    from + 1 <= k < s.len() && tail[j - 1] == s[k];
                assert(s[from].spec_bytes() != s[k].spec_bytes());
            } else {
                lemma_filter_from_distinct_aux(s, g, r, from + 1, i - 1, j - 1);
            }
        } else {
            lemma_filter_from_distinct_aux(s, g, r, from + 1, i, j);
        }
    }
}

proof fn lemma_filter_from_elems_idx(s: Seq<&str>, g: Seq<u8>, r: Seq<Color>, from: int, k: int)
    requires
        0 <= from,
        0 <= k < filter_from(s, g, r, from).len(),
    ensures
        exists|j: int| from <= j < s.len() && filter_from(s, g, r, from)[k] == s[j],
    decreases s.len() - from,
{
    if from < s.len() {
        if spec_eligible(s[from].spec_bytes(), g, r) {
            if k == 0 {
                assert(filter_from(s, g, r, from)[0] == s[from]);
            } else {
                lemma_filter_from_elems_idx(s, g, r, from + 1, k - 1);
            }
        } else {
            lemma_filter_from_elems_idx(s, g, r, from + 1, k);
        }
    }
}

// ------------------------------------------------------------------
// Pruning order does not matter
// ------------------------------------------------------------------

proof fn lemma_filter_from_shift(s: Seq<&str>, g: Seq<u8>, r: Seq<Color>, from: int)
    requires
        1 <= from <= s.len(),
    ensures
        filter_from(s, g, r, from) == filter_from(s.skip(1), g, r, from - 1),
    decreases s.len() - from,
{
    if from < s.len() {
        lemma_filter_from_shift(s, g, r, from + 1);
        assert(s.skip(1)[from - 1] == s[from]);
        assert(filter_from(s, g, r, from) =~= filter_from(s.skip(1), g, r, from - 1));
    } else {
        assert(filter_from(s.skip(1), g, r, from - 1) =~= Seq::<&str>::empty());
    }
}

/// Pruning a list starts with its first word's verdict, then prunes the
/// rest.
proof fn lemma_filter_unfold(s: Seq<&str>, g: Seq<u8>, r: Seq<Color>)
    requires
        s.len() > 0,
    ensures
        filter_answers(s, g, r) == (if spec_eligible(s[0].spec_bytes(), g, r) {
            seq![s[0]]
        } else {
            Seq::<&str>::empty()
        }) + filter_answers(s.skip(1), g, r),
{
    lemma_filter_from_shift(s, g, r, 1);
    if spec_eligible(s[0].spec_bytes(), g, r) {
        assert(filter_answers(s, g, r) =~= seq![s[0]] + filter_answers(s.skip(1), g, r));
    } else {
        assert(filter_answers(s, g, r) =~= Seq::<&str>::empty() + filter_answers(
            s.skip(1),
            g,
            r,
        ));
    }
}

/// Pruning by two feedbacks in either order keeps exactly the same
/// candidate sequence.
pub proof fn lemma_prune_commutes(
    s: Seq<&str>,
    g1: Seq<u8>,
    r1: Seq<Color>,
    g2: Seq<u8>,
    r2: Seq<Color>,
)
    ensures
        filter_answers(filter_answers(s, g1, r1), g2, r2) == filter_answers(
            filter_answers(s, g2, r2),
            g1,
            r1,
        ),
    decreases s.len(),
{
    if s.len() == 0 {
        assert(filter_answers(s, g1, r1) =~= Seq::<&str>::empty());
        assert(filter_answers(s, g2, r2) =~= Seq::<&str>::empty());
    } else {
        let x = s[0];
        let t = s.skip(1);
        lemma_prune_commutes(t, g1, r1, g2, r2);
        lemma_filter_unfold(s, g1, r1);
        lemma_filter_unfold(s, g2, r2);
        let e1 = spec_eligible(x.spec_bytes(), g1, r1);
        let e2 = spec_eligible(x.spec_bytes(), g2, r2);
        if e1 {
            let u = filter_answers(t, g1, r1);
            assert(filter_answers(s, g1, r1) == seq![x] + u);
            assert((seq![x] + u).skip(1) =~= u);
            lemma_filter_unfold(seq![x] + u, g2, r2);
        } else {
            assert(filter_answers(s, g1, r1) =~= filter_answers(t, g1, r1));
        }
        if e2 {
            let u = filter_answers(t, g2, r2);
            assert(filter_answers(s, g2, r2) == seq![x] + u);
            assert((seq![x] + u).skip(1) =~= u);
            lemma_filter_unfold(seq![x] + u, g1, r1);
        } else {
            assert(filter_answers(s, g2, r2) =~= filter_answers(t, g2, r2));
        }
        assert(filter_answers(filter_answers(s, g1, r1), g2, r2) =~= filter_answers(
            filter_answers(s, g2, r2),
            g1,
            r1,
        ));
    }
}

} // verus!
