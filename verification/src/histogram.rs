use vstd::prelude::*;
use vstd::string::StringSliceAdditionalSpecFns;

use crate::words::{wf_word, wf_words};

verus! {

/// How often letter `c` occurs among the first `i` bytes of `w`.
pub open spec fn count_upto(w: Seq<u8>, c: u8, i: int) -> int
    decreases i,
{
    if i <= 0 {
        0
    } else {
        count_upto(w, c, i - 1) + if w[i - 1] == c {
            1int
        } else {
            0int
        }
    }
}

/// How often letter `c` occurs in the whole of `w`.
pub open spec fn count_in(w: Seq<u8>, c: u8) -> int {
    count_upto(w, c, w.len() as int)
}

/// The signed signature entry for letter `c` of word `w`: −1 when the
/// letter is absent, else its number of occurrences.
pub open spec fn spec_histo_val(w: Seq<u8>, c: u8) -> int {
    if count_in(w, c) == 0 {
        -1
    } else {
        count_in(w, c)
    }
}

/// A 26-entry table holds exactly the signature of `w`.
pub open spec fn hist_matches(h: Seq<i8>, w: Seq<u8>) -> bool {
    h.len() == 26 && forall|c: int|
        0 <= c < 26 ==> #[trigger] h[c] as int == spec_histo_val(w, (97 + c) as u8)
}

pub proof fn lemma_count_upto_bounds(w: Seq<u8>, c: u8, i: int)
    requires
        0 <= i,
    ensures
        0 <= count_upto(w, c, i) <= i,
    decreases i,
{
    if i > 0 {
        lemma_count_upto_bounds(w, c, i - 1);
    }
}

pub proof fn lemma_count_upto_mono(w: Seq<u8>, c: u8, i: int, j: int)
    requires
        0 <= i <= j,
    ensures
        count_upto(w, c, i) <= count_upto(w, c, j),
    decreases j - i,
{
    if i < j {
        lemma_count_upto_mono(w, c, i, j - 1);
    }
}

/// Builds a word's letter-frequency signature: −1 for an absent letter,
/// the occurrence count for a present one.
pub fn histo(word: &[u8]) -> (res: [i8; 26])
    requires
        wf_word(word@),
    ensures
        hist_matches(res@, word@),
{
    let mut res: [i8; 26] = [-1; 26];
    let mut i: usize = 0;
    while i < 5
        invariant
            wf_word(word@),
            res@.len() == 26,
            i <= 5,
            forall|c: int| 0 <= c < 26 ==> #[trigger] res@[c] as int == (
                if count_upto(word@, (97 + c) as u8, i as int) == 0 {
                    -1
                } else {
                    count_upto(word@, (97 + c) as u8, i as int)
                }),
        decreases 5 - i,
    {
        let w: usize = (word[i] - 97) as usize;
        proof {
            lemma_count_upto_bounds(word@, (97 + w) as u8, i as int);
        }
        if res[w] > 0 {
            res[w] = res[w] + 1;
        } else {
            res[w] = res[w] + 2;
        }
        i = i + 1;
    }
    res
}

/// Builds the signature of every word of a candidate list, so that many
/// pruning checks can reuse them.
pub fn make_histos(answers: &[&str]) -> (res: Vec<[i8; 26]>)
    requires
        wf_words(answers@),
    ensures
        res@.len() == answers@.len(),
        forall|j: int| 0 <= j < answers@.len() ==> hist_matches(
            #[trigger] res@[j]@,
            answers@[j].spec_bytes(),
        ),
{
    let mut res: Vec<[i8; 26]> = Vec::new();
    let mut j: usize = 0;
    while j < answers.len()
        invariant
            wf_words(answers@),
            j <= answers@.len(),
            res@.len() == j,
            forall|k: int| 0 <= k < j ==> hist_matches(
                #[trigger] res@[k]@,
                answers@[k].spec_bytes(),
            ),
        decreases answers@.len() - j,
    {
        let h = histo(answers[j].as_bytes());
        res.push(h);
        j = j + 1;
    }
    res
}

} // verus!
