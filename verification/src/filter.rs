use vstd::prelude::*;
use vstd::string::StringSliceAdditionalSpecFns;

use crate::histogram::{hist_matches, make_histos, spec_histo_val};
use crate::words::{parse_guess, parse_result, wf_word, wf_words, Color};

verus! {

/// How many of the first `i` feedback positions carry color `col` for
/// guess letter `c`.
pub open spec fn color_upto(g: Seq<u8>, r: Seq<Color>, c: u8, col: Color, i: int) -> int
    decreases i,
{
    if i <= 0 {
        0
    } else {
        color_upto(g, r, c, col, i - 1) + if g[i - 1] == c && r[i - 1] == col {
            1int
        } else {
            0int
        }
    }
}

/// The candidate's signature entry for letter `c`, less every green and
/// yellow mark the feedback spends on that letter. A yellow mark needs
/// this to stay non-negative; a grey mark needs it non-positive.
pub open spec fn leftover(w: Seq<u8>, g: Seq<u8>, r: Seq<Color>, c: u8) -> int {
    spec_histo_val(w, c) - color_upto(g, r, c, Color::GREEN, 5) - color_upto(
        g,
        r,
        c,
        Color::YELLOW,
        5,
    )
}

/// Whether candidate `w` is consistent with seeing feedback `r` after
/// guessing `g`: greens exactly at matching positions, every yellow letter
/// still accounted for, and no grey letter left with spare occurrences.
pub open spec fn spec_eligible(w: Seq<u8>, g: Seq<u8>, r: Seq<Color>) -> bool {
    &&& forall|i: int| 0 <= i < 5 ==> ((#[trigger] r[i] == Color::GREEN) <==> w[i] == g[i])
    &&& forall|i: int| 0 <= i < 5 && #[trigger] r[i] == Color::YELLOW ==> leftover(w, g, r, g[i])
        >= 0
    &&& forall|i: int| 0 <= i < 5 && #[trigger] r[i] == Color::GREY ==> leftover(w, g, r, g[i])
        <= 0
}

/// Decides `spec_eligible` from the candidate's precomputed signature,
/// without rescoring: one pass spends the feedback's green and yellow
/// marks, a second pass checks every non-green position.
fn eligible(word: &str, word_hist: &[i8; 26], guess: &[u8; 5], result: &[Color; 5]) -> (ok: bool)
    requires
        wf_word(word.spec_bytes()),
        wf_word(guess@),
        hist_matches(word_hist@, word.spec_bytes()),
    ensures
        ok == spec_eligible(word.spec_bytes(), guess@, result@),
{
    let w = word.as_bytes();
    let ghost wv = word.spec_bytes();
    let ghost g = guess@;
    let ghost r = result@;
    let mut hist = *word_hist;

    // First pass: spend the marks. A green position must match.
    let mut i: usize = 0;
    while i < 5
        invariant
            wf_word(wv),
            wf_word(g),
            w@ == wv,
            word.spec_bytes() == wv,
            guess@ == g,
            result@ == r,
            r.len() == 5,
            hist@.len() == 26,
            i <= 5,
            forall|c: int| 0 <= c < 26 ==> #[trigger] hist@[c] as int == spec_histo_val(
                wv,
                (97 + c) as u8,
            ) - color_upto(g, r, (97 + c) as u8, Color::GREEN, i as int) - color_upto(
                g,
                r,
                (97 + c) as u8,
                Color::YELLOW,
                i as int,
            ),
            forall|j: int| 0 <= j < i && #[trigger] r[j] == Color::GREEN ==> wv[j] == g[j],
        decreases 5 - i,
    {
        let wl = w[i];
        let gl = guess[i];
        let rl = result[i];
        let idx: usize = (gl - 97) as usize;
        proof {
            crate::histogram::lemma_count_upto_bounds(wv, (97 + idx) as u8, 5);
            lemma_color_upto_bounds(g, r, (97 + idx) as u8, Color::GREEN, i as int);
            lemma_color_upto_bounds(g, r, (97 + idx) as u8, Color::YELLOW, i as int);
        }
        if rl == Color::GREEN {
            if wl != gl {
                return false;
            }
            hist[idx] = hist[idx] - 1;
        } else if rl == Color::YELLOW {
            hist[idx] = hist[idx] - 1;
        }
        i = i + 1;
    }

    // Second pass: every non-green position must mismatch, and the spent
    // signature decides yellow against grey.
    let mut i: usize = 0;
    while i < 5
        invariant
            wf_word(wv),
            wf_word(g),
            w@ == wv,
            word.spec_bytes() == wv,
            guess@ == g,
            result@ == r,
            r.len() == 5,
            hist@.len() == 26,
            i <= 5,
            forall|c: int| 0 <= c < 26 ==> #[trigger] hist@[c] as int == leftover(
                wv,
                g,
                r,
                (97 + c) as u8,
            ),
            forall|j: int| 0 <= j < 5 && #[trigger] r[j] == Color::GREEN ==> wv[j] == g[j],
            forall|j: int| 0 <= j < i && #[trigger] r[j] != Color::GREEN ==> wv[j] != g[j],
            forall|j: int| 0 <= j < i && #[trigger] r[j] == Color::YELLOW ==> leftover(
                wv,
                g,
                r,
                g[j],
            ) >= 0,
            forall|j: int| 0 <= j < i && #[trigger] r[j] == Color::GREY ==> leftover(
                wv,
                g,
                r,
                g[j],
            ) <= 0,
        decreases 5 - i,
    {
        let wl = w[i];
        let gl = guess[i];
        let rl = result[i];
        let idx: usize = (gl - 97) as usize;
        if rl != Color::GREEN {
            if wl == gl {
                return false;
            }
            let g_freq = hist[idx];
            if rl == Color::YELLOW && g_freq < 0 {
                return false;
            }
            if rl == Color::GREY && g_freq > 0 {
                return false;
            }
        }
        i = i + 1;
    }
    true
}

pub proof fn lemma_color_upto_bounds(g: Seq<u8>, r: Seq<Color>, c: u8, col: Color, i: int)
    requires
        0 <= i,
    ensures
        0 <= color_upto(g, r, c, col, i) <= i,
    decreases i,
{
    if i > 0 {
        lemma_color_upto_bounds(g, r, c, col, i - 1);
    }
}

/// The consistent candidates among `s[from..]`, in their original order.
pub open spec fn filter_from(s: Seq<&str>, g: Seq<u8>, r: Seq<Color>, from: int) -> Seq<&str>
    decreases s.len() - from,
{
    if from < 0 || from >= s.len() {
        Seq::empty()
    } else if spec_eligible(s[from].spec_bytes(), g, r) {
        seq![s[from]] + filter_from(s, g, r, from + 1)
    } else {
        filter_from(s, g, r, from + 1)
    }
}

/// The consistent candidates of the whole list, in order: what a correct
/// pruning step keeps.
pub open spec fn filter_answers(s: Seq<&str>, g: Seq<u8>, r: Seq<Color>) -> Seq<&str> {
    filter_from(s, g, r, 0)
}

/// A lazy pass over a candidate list that yields only the words consistent
/// with one observed feedback, reusing precomputed signatures.
pub struct AnswerIterator<'s1, 's2> {
    pub answers: &'s2 [&'s1 str],
    pub histos: &'s2 [[i8; 26]],
    pub index: usize,
    pub guess: [u8; 5],
    pub result: [Color; 5],
}

impl<'s1, 's2> AnswerIterator<'s1, 's2> {
    /// The iterator's lists line up and hold only well-formed words.
    pub open spec fn wf(&self) -> bool {
        &&& wf_words(self.answers@)
        &&& self.histos@.len() == self.answers@.len()
        &&& forall|j: int| 0 <= j < self.answers@.len() ==> hist_matches(
            #[trigger] self.histos@[j]@,
            self.answers@[j].spec_bytes(),
        )
        &&& wf_word(self.guess@)
        &&& self.index <= self.answers@.len()
    }

    /// What this iterator has still to yield.
    pub open spec fn remaining(&self) -> Seq<&'s1 str> {
        filter_from(self.answers@, self.guess@, self.result@, self.index as int)
    }

    /// Starts a pruning pass over `answers` with their signatures, for one
    /// guess and one observed feedback.
    pub fn prune(
        answers: &'s2 [&'s1 str],
        histos: &'s2 [[i8; 26]],
        guess: [u8; 5],
        result: [Color; 5],
    ) -> (it: Self)
        requires
            wf_words(answers@),
            histos@.len() == answers@.len(),
            forall|j: int| 0 <= j < answers@.len() ==> hist_matches(
                #[trigger] histos@[j]@,
                answers@[j].spec_bytes(),
            ),
            wf_word(guess@),
        ensures
            it.wf(),
            it.answers@ == answers@,
            it.guess@ == guess@,
            it.result@ == result@,
            it.remaining() == filter_answers(answers@, guess@, result@),
    {
        Self { answers, histos, index: 0, guess, result }
    }

    /// Yields the next consistent candidate, or nothing when the list is
    /// exhausted.
    pub fn next(&mut self) -> (item: Option<&'s1 str>)
        requires
            old(self).wf(),
        ensures
            final(self).wf(),
            final(self).answers@ == old(self).answers@,
            final(self).histos@ == old(self).histos@,
            final(self).guess@ == old(self).guess@,
            final(self).result@ == old(self).result@,
            match item {
                Some(w) => old(self).remaining().len() > 0 && w == old(self).remaining()[0]
                    && final(self).remaining() == old(self).remaining().skip(1)
                    && spec_eligible(w.spec_bytes(), old(self).guess@, old(self).result@),
                None => old(self).remaining().len() == 0 && final(self).remaining().len() == 0,
            },
    {
        while self.index < self.answers.len()
            invariant
                self.wf(),
                self.answers@ == old(self).answers@,
                self.histos@ == old(self).histos@,
                self.guess@ == old(self).guess@,
                self.result@ == old(self).result@,
                self.remaining() == old(self).remaining(),
            decreases self.answers@.len() - self.index,
        {
            let item = self.answers[self.index];
            let ok = eligible(item, &self.histos[self.index], &self.guess, &self.result);
            self.index = self.index + 1;
            if ok {
                proof {
                    assert(old(self).remaining() =~= seq![item] + self.remaining());
                    assert((seq![item] + self.remaining()).skip(1) =~= self.remaining());
                }
                return Some(item);
            }
        }
        None
    }

    /// Materializes everything this iterator has still to yield.
    pub fn collect_remaining(&mut self) -> (out: Vec<&'s1 str>)
        requires
            old(self).wf(),
        ensures
            final(self).wf(),
            out@ == old(self).remaining(),
            final(self).remaining().len() == 0,
    {
        let mut out: Vec<&'s1 str> = Vec::new();
        loop
            invariant
                self.wf(),
                out@ + self.remaining() == old(self).remaining(),
            decreases self.remaining().len(), self.answers@.len() - self.index,
        {
            match self.next() {
                Some(w) => {
                    out.push(w);
                    proof {
                        assert(out@ + self.remaining() =~= old(self).remaining());
                    }
                },
                None => {
                    proof {
                        assert(out@ =~= old(self).remaining());
                    }
                    return out;
                },
            }
        }
    }

    /// Counts everything this iterator has still to yield.
    pub fn count_remaining(&mut self) -> (n: usize)
        requires
            old(self).wf(),
        ensures
            n == old(self).remaining().len(),
            final(self).remaining().len() == 0,
    {
        let mut n: usize = 0;
        let total = self.answers.len();
        proof {
            lemma_filter_from_len(self.answers@, self.guess@, self.result@, self.index as int);
        }
        loop
            invariant
                self.wf(),
                n + self.remaining().len() == old(self).remaining().len(),
                old(self).remaining().len() <= total,
            decreases self.remaining().len(), self.answers@.len() - self.index,
        {
            match self.next() {
                Some(_) => {
                    n = n + 1;
                },
                None => {
                    return n;
                },
            }
        }
    }
}

/// A pruned suffix never holds more words than the list positions it read.
pub proof fn lemma_filter_from_len(s: Seq<&str>, g: Seq<u8>, r: Seq<Color>, from: int)
    requires
        0 <= from <= s.len(),
    ensures
        filter_from(s, g, r, from).len() <= s.len() - from,
    decreases s.len() - from,
{
    if from < s.len() {
        lemma_filter_from_len(s, g, r, from + 1);
    }
}

/// Prunes a candidate list by one guess and one feedback string, as read
/// from user input; rejects malformed input instead of touching the list.
pub fn maybe_prune<'a>(
    answers: &[&'a str],
    opt_guess: Option<&str>,
    opt_result: Option<&str>,
) -> (out: Option<Vec<&'a str>>)
    requires
        wf_words(answers@),
    ensures
        match out {
            Some(v) => {
                &&& opt_guess is Some
                &&& opt_result is Some
                &&& wf_word(opt_guess.unwrap().spec_bytes())
                &&& crate::words::wf_feedback_str(opt_result.unwrap().spec_bytes())
                &&& v@ == filter_answers(
                    answers@,
                    opt_guess.unwrap().spec_bytes(),
                    crate::words::feedback_of(opt_result.unwrap().spec_bytes()),
                )
            },
            None => opt_guess is None || opt_result is None || !wf_word(
                opt_guess.unwrap().spec_bytes(),
            ) || !crate::words::wf_feedback_str(opt_result.unwrap().spec_bytes()),
        },
{
    let guess = match opt_guess {
        Some(s) => s,
        None => {
            return None;
        },
    };
    let result = match opt_result {
        Some(s) => s,
        None => {
            return None;
        },
    };
    let bguess = match parse_guess(guess) {
        Some(b) => b,
        None => {
            return None;
        },
    };
    let bresult = match parse_result(result) {
        Some(c) => c,
        None => {
            return None;
        },
    };
    let histos = make_histos(answers);
    let mut it = AnswerIterator::prune(answers, histos.as_slice(), bguess, bresult);
    let v = it.collect_remaining();
    Some(v)
}

} // verus!
