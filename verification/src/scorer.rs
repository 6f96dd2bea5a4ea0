use vstd::prelude::*;
use vstd::string::StringSliceAdditionalSpecFns;

use crate::histogram::{
    count_in, count_upto, histo, lemma_count_upto_bounds, lemma_count_upto_mono, spec_histo_val,
};
use crate::words::{wf_word, Color};

verus! {

/// How many of the first `i` positions are green (answer and guess agree)
/// with guess letter `c`.
pub open spec fn green_upto(a: Seq<u8>, g: Seq<u8>, c: u8, i: int) -> int
    decreases i,
{
    if i <= 0 {
        0
    } else {
        green_upto(a, g, c, i - 1) + if a[i - 1] == g[i - 1] && g[i - 1] == c {
            1int
        } else {
            0int
        }
    }
}

/// How many occurrences of letter `c` in the answer are still unclaimed
/// when the yellow pass reaches position `i`: the total count, less the
/// green positions of `c`, less the yellows already handed out before `i`.
pub open spec fn avail(a: Seq<u8>, g: Seq<u8>, c: u8, i: int) -> int
    decreases i, 0int,
{
    if i <= 0 {
        count_in(a, c) - green_upto(a, g, c, 5)
    } else {
        avail(a, g, c, i - 1) - if is_yellow(a, g, i - 1) && g[i - 1] == c {
            1int
        } else {
            0int
        }
    }
}

/// Position `i` earns yellow: not green, and the answer still has an
/// unclaimed occurrence of the guessed letter.
pub open spec fn is_yellow(a: Seq<u8>, g: Seq<u8>, i: int) -> bool
    decreases i, 1int,
{
    a[i] != g[i] && avail(a, g, g[i], i) > 0
}

/// The color position `i` receives when `g` is guessed against answer `a`.
pub open spec fn spec_color(a: Seq<u8>, g: Seq<u8>, i: int) -> Color {
    if a[i] == g[i] {
        Color::GREEN
    } else if is_yellow(a, g, i) {
        Color::YELLOW
    } else {
        Color::GREY
    }
}

/// The full five-color feedback for guessing `g` against answer `a`.
pub open spec fn spec_score(a: Seq<u8>, g: Seq<u8>) -> Seq<Color> {
    Seq::new(5, |i| spec_color(a, g, i))
}

pub proof fn lemma_green_upto_le_count(a: Seq<u8>, g: Seq<u8>, c: u8, i: int)
    requires
        0 <= i,
    ensures
        0 <= green_upto(a, g, c, i) <= count_upto(a, c, i),
    decreases i,
{
    if i > 0 {
        lemma_green_upto_le_count(a, g, c, i - 1);
    }
}

/// The unclaimed count for a letter never goes up as the yellow pass moves right.
pub proof fn lemma_avail_mono(a: Seq<u8>, g: Seq<u8>, c: u8, i: int, j: int)
    requires
        0 <= i <= j,
    ensures
        avail(a, g, c, j) <= avail(a, g, c, i),
    decreases j - i,
{
    if i < j {
        lemma_avail_mono(a, g, c, i, j - 1);
    }
}

/// The unclaimed count never drops below zero: a yellow is only handed out
/// while an occurrence is left.
pub proof fn lemma_avail_nonneg(a: Seq<u8>, g: Seq<u8>, c: u8, i: int)
    requires
        0 <= i,
        avail(a, g, c, 0) >= 0,
    ensures
        avail(a, g, c, i) >= 0,
    decreases i,
{
    if i > 0 {
        lemma_avail_nonneg(a, g, c, i - 1);
        if is_yellow(a, g, i - 1) && g[i - 1] == c {
            assert(avail(a, g, c, i - 1) > 0);
            assert(avail(a, g, c, i) == avail(a, g, c, i - 1) - 1);
        } else {
            assert(avail(a, g, c, i) == avail(a, g, c, i - 1));
        }
    }
}

/// Scores a guess against a hidden answer: a green pass claims exact
/// matches, then a yellow pass claims leftover occurrences left to right.
pub fn score(answ: &str, guess: &str) -> (res: [Color; 5])
    requires
        wf_word(answ.spec_bytes()),
        wf_word(guess.spec_bytes()),
    ensures
        res@ == spec_score(answ.spec_bytes(), guess.spec_bytes()),
{
    let mut res: [Color; 5] = [Color::GREY; 5];
    let mut hist = histo(answ.as_bytes());

    let answ = answ.as_bytes();
    let guess = guess.as_bytes();
    let ghost a = answ@;
    let ghost g = guess@;

    // Green pass: claim exact matches and consume those occurrences.
    let mut i: usize = 0;
    while i < 5
        invariant
            wf_word(a),
            wf_word(g),
            answ@ == a,
            guess@ == g,
            res@.len() == 5,
            hist@.len() == 26,
            i <= 5,
            forall|c: int| 0 <= c < 26 ==> #[trigger] hist@[c] as int == spec_histo_val(
                a,
                (97 + c) as u8,
            ) - green_upto(a, g, (97 + c) as u8, i as int),
            forall|j: int| 0 <= j < i ==> #[trigger] res@[j] == (if a[j] == g[j] {
                Color::GREEN
            } else {
                Color::GREY
            }),
            forall|j: int| i <= j < 5 ==> #[trigger] res@[j] == Color::GREY,
        decreases 5 - i,
    {
        let av = answ[i];
        let gv = guess[i];
        if av == gv {
            res[i] = Color::GREEN;
            let idx: usize = (av - 97) as usize;
            proof {
                let c = (97 + idx) as u8;
                // The match at position i is one more occurrence of c in a,
                // so the signature entry is still at least 1 here.
                lemma_green_upto_le_count(a, g, c, i as int);
                lemma_count_upto_bounds(a, c, 5);
                lemma_count_upto_mono(a, c, i as int + 1, 5);
                assert(count_upto(a, c, i as int + 1) == count_upto(a, c, i as int) + 1);
                assert(count_in(a, c) >= green_upto(a, g, c, i as int) + 1);
                assert(hist@[idx as int] as int >= 1);
            }
            hist[idx] = hist[idx] - 1;
        }
        i = i + 1;
    }

    proof {
        assert forall|c: u8| 97 <= c <= 122 implies avail(a, g, c, 0) >= 0 by {
            lemma_green_upto_le_count(a, g, c, 5);
        }
    }

    // Yellow pass: hand out yellows while unclaimed occurrences remain.
    let mut i: usize = 0;
    while i < 5
        invariant
            wf_word(a),
            wf_word(g),
            answ@ == a,
            guess@ == g,
            res@.len() == 5,
            hist@.len() == 26,
            i <= 5,
            forall|c: u8| 97 <= c <= 122 ==> avail(a, g, c, 0) >= 0,
            forall|c: int| 0 <= c < 26 ==> #[trigger] hist@[c] as int == avail(
                a,
                g,
                (97 + c) as u8,
                i as int,
            ) + (if count_in(a, (97 + c) as u8) == 0 {
                -1int
            } else {
                0int
            }),
            forall|j: int| 0 <= j < i ==> #[trigger] res@[j] == spec_color(a, g, j),
            forall|j: int| i <= j < 5 ==> #[trigger] res@[j] == (if a[j] == g[j] {
                Color::GREEN
            } else {
                Color::GREY
            }),
        decreases 5 - i,
    {
        let av = answ[i];
        let gv = guess[i];
        let idx: usize = (gv - 97) as usize;
        proof {
            let c = (97 + idx) as u8;
            lemma_avail_mono(a, g, c, 0, i as int);
            lemma_green_upto_le_count(a, g, c, 5);
            if count_in(a, c) == 0 {
                // No occurrence at all: nothing is ever unclaimed.
                assert(green_upto(a, g, c, 5) == 0);
                assert(avail(a, g, c, i as int) <= 0);
            } else {
                lemma_avail_nonneg(a, g, c, i as int);
            }
        }
        if av != gv {
            if hist[idx] > 0 {
                proof {
                    assert(is_yellow(a, g, i as int));
                }
                res[i] = Color::YELLOW;
                hist[idx] = hist[idx] - 1;
            } else {
                proof {
                    assert(!is_yellow(a, g, i as int));
                }
            }
        } else {
            proof {
                assert(!is_yellow(a, g, i as int));
            }
        }
        proof {
            assert forall|c: int| 0 <= c < 26 implies #[trigger] avail(a, g, (97 + c) as u8, i as int + 1)
                == avail(a, g, (97 + c) as u8, i as int) - (
                if is_yellow(a, g, i as int) && g[i as int] == (97 + c) as u8 {
                    1int
                } else {
                    0int
                }) by {
            }
        }
        i = i + 1;
    }
    proof {
        assert(res@ =~= spec_score(a, g));
    }
    res
}

} // verus!
