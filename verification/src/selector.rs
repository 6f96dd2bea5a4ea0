use vstd::prelude::*;
use vstd::string::StringSliceAdditionalSpecFns;

use crate::filter::{filter_answers, lemma_filter_from_len, AnswerIterator};
use crate::histogram::{hist_matches, make_histos};
use crate::scorer::{score, spec_score};
use crate::words::{parse_guess, wf_word, wf_words, word_eq};

use rayon::iter::{IntoParallelRefIterator, ParallelIterator};

verus! {

/// The views of a group of boards' candidate lists.
pub open spec fn boards_view(boards: Seq<Vec<&str>>) -> Seq<Seq<&str>> {
    boards.map_values(|b: Vec<&str>| b@)
}

/// Every board holds only well-formed words.
pub open spec fn wf_boards(boards: Seq<Seq<&str>>) -> bool {
    forall|b: int| 0 <= b < boards.len() ==> wf_words(#[trigger] boards[b])
}

/// All boards' candidates, one after another: the adversary's choice set.
pub open spec fn pool_of(boards: Seq<Seq<&str>>) -> Seq<&str>
    decreases boards.len(),
{
    if boards.len() == 0 {
        Seq::empty()
    } else {
        boards[0] + pool_of(boards.skip(1))
    }
}

/// How many candidates remain over all boards after guessing `g` when the
/// true answer is `answ`: each board is pruned by its own feedback.
pub open spec fn rem_sum(boards: Seq<Seq<&str>>, g: Seq<u8>, answ: Seq<u8>) -> int
    decreases boards.len(),
{
    if boards.len() == 0 {
        0
    } else {
        filter_answers(boards[0], g, spec_score(answ, g)).len() + rem_sum(boards.skip(1), g, answ)
    }
}

/// The worst remaining total for guess `g` over the first `k` adversary
/// choices from `pool`.
pub open spec fn worst_upto(boards: Seq<Seq<&str>>, pool: Seq<&str>, g: Seq<u8>, k: int) -> int
    decreases k,
{
    if k <= 0 {
        0
    } else {
        let prev = worst_upto(boards, pool, g, k - 1);
        let v = rem_sum(boards, g, pool[k - 1].spec_bytes());
        if v > prev {
            v
        } else {
            prev
        }
    }
}

/// The worst-case remaining total for guess `g`: the adversary picks any
/// word still alive on any board.
pub open spec fn worst_case(boards: Seq<Seq<&str>>, g: Seq<u8>) -> int {
    worst_upto(boards, pool_of(boards), g, pool_of(boards).len() as int)
}

/// Whether some word of `s` spells `w`.
pub open spec fn contains_word(s: Seq<&str>, w: Seq<u8>) -> bool {
    exists|j: int| 0 <= j < s.len() && #[trigger] s[j].spec_bytes() == w
}

/// The ranking the selector minimizes: twice the worst case, and a guess
/// that is itself still a possible answer wins ties.
pub open spec fn adjusted_score(boards: Seq<Seq<&str>>, g: Seq<u8>) -> int {
    2 * worst_case(boards, g) + if contains_word(pool_of(boards), g) {
        0int
    } else {
        1int
    }
}

/// The index of the first guess among `guesses[..k]` with the least
/// adjusted score: what the selector picks.
pub open spec fn best_idx(boards: Seq<Seq<&str>>, guesses: Seq<&str>, k: int) -> int
    decreases k,
{
    if k <= 1 {
        0
    } else {
        let b = best_idx(boards, guesses, k - 1);
        if adjusted_score(boards, guesses[k - 1].spec_bytes()) < adjusted_score(
            boards,
            guesses[b].spec_bytes(),
        ) {
            k - 1
        } else {
            b
        }
    }
}

/// The chosen index always lies among the guesses ranked.
pub proof fn lemma_best_idx_in_range(boards: Seq<Seq<&str>>, guesses: Seq<&str>, k: int)
    requires
        k >= 1,
    ensures
        0 <= best_idx(boards, guesses, k) < k,
    decreases k,
{
    if k > 1 {
        lemma_best_idx_in_range(boards, guesses, k - 1);
    }
}

/// Minimax optimality and the tie-break: the chosen guess has the least
/// adjusted score, and every earlier guess ranks strictly worse.
pub proof fn lemma_best_idx_min(boards: Seq<Seq<&str>>, guesses: Seq<&str>, k: int)
    requires
        k >= 1,
    ensures
        forall|j: int| 0 <= j < k ==> adjusted_score(
            boards,
            guesses[best_idx(boards, guesses, k)].spec_bytes(),
        ) <= adjusted_score(boards, #[trigger] guesses[j].spec_bytes()),
        forall|j: int| 0 <= j < best_idx(boards, guesses, k) ==> adjusted_score(
            boards,
            guesses[best_idx(boards, guesses, k)].spec_bytes(),
        ) < adjusted_score(boards, #[trigger] guesses[j].spec_bytes()),
    decreases k,
{
    if k > 1 {
        lemma_best_idx_min(boards, guesses, k - 1);
        lemma_best_idx_in_range(boards, guesses, k - 1);
    }
}

/// A board never keeps more candidates than it had.
proof fn lemma_rem_sum_bounds(boards: Seq<Seq<&str>>, g: Seq<u8>, answ: Seq<u8>)
    ensures
        0 <= rem_sum(boards, g, answ) <= pool_of(boards).len(),
    decreases boards.len(),
{
    if boards.len() > 0 {
        lemma_rem_sum_bounds(boards.skip(1), g, answ);
        lemma_filter_from_len(boards[0], g, spec_score(answ, g), 0);
    }
}

/// The worst case never exceeds the number of candidates in play.
pub proof fn lemma_worst_case_bounds(boards: Seq<Seq<&str>>, pool: Seq<&str>, g: Seq<u8>, k: int)
    requires
        0 <= k,
    ensures
        0 <= worst_upto(boards, pool, g, k) <= pool_of(boards).len(),
    decreases k,
{
    if k > 0 {
        lemma_worst_case_bounds(boards, pool, g, k - 1);
        lemma_rem_sum_bounds(boards, g, pool[k - 1].spec_bytes());
    }
}

/// The worst case covers every single adversary choice.
pub proof fn lemma_worst_ge_rem(boards: Seq<Seq<&str>>, pool: Seq<&str>, g: Seq<u8>, j: int, k: int)
    requires
        0 <= j < k,
    ensures
        rem_sum(boards, g, pool[j].spec_bytes()) <= worst_upto(boards, pool, g, k),
    decreases k,
{
    if j < k - 1 {
        lemma_worst_ge_rem(boards, pool, g, j, k - 1);
    }
}

/// A bound that holds for every adversary choice bounds the worst case.
pub proof fn lemma_worst_le_bound(boards: Seq<Seq<&str>>, pool: Seq<&str>, g: Seq<u8>, k: int, bound: int)
    requires
        0 <= k,
        0 <= bound,
        forall|j: int|
            0 <= j < k ==> rem_sum(boards, g, (#[trigger] pool[j]).spec_bytes()) <= bound,
    ensures
        worst_upto(boards, pool, g, k) <= bound,
    decreases k,
{
    if k > 0 {
        lemma_worst_le_bound(boards, pool, g, k - 1, bound);
    }
}

/// Every word of the pool is well formed when every board is.
proof fn lemma_pool_wf(boards: Seq<Seq<&str>>)
    requires
        wf_boards(boards),
    ensures
        wf_words(pool_of(boards)),
    decreases boards.len(),
{
    if boards.len() > 0 {
        assert(wf_boards(boards.skip(1)));
        lemma_pool_wf(boards.skip(1));
        let p = pool_of(boards);
        assert forall|j: int| 0 <= j < p.len() implies wf_word(#[trigger] p[j].spec_bytes()) by {
            if j < boards[0].len() {
                assert(p[j] == boards[0][j]);
            } else {
                assert(p[j] == pool_of(boards.skip(1))[j - boards[0].len()]);
            }
        }
    }
}

/// Collects all boards' candidates into one adversary pool, in board
/// order.
fn build_pool<'a>(boards: &Vec<Vec<&'a str>>) -> (pool: Vec<&'a str>)
    ensures
        pool@ == pool_of(boards_view(boards@)),
{
    let ghost bv = boards_view(boards@);
    let mut pool: Vec<&'a str> = Vec::new();
    proof {
        assert(bv.skip(0) =~= bv);
        assert(pool@ + pool_of(bv) =~= pool_of(bv));
    }
    let mut b: usize = 0;
    while b < boards.len()
        invariant
            bv == boards_view(boards@),
            b <= boards@.len(),
            pool@ + pool_of(bv.skip(b as int)) == pool_of(bv),
        decreases boards@.len() - b,
    {
        let board = &boards[b];
        proof {
            assert(bv.skip(b as int)[0] == bv[b as int]);
            assert(bv[b as int] == board@);
            assert(bv.skip(b as int).skip(1) =~= bv.skip(b as int + 1));
            assert(pool_of(bv.skip(b as int)) == board@ + pool_of(bv.skip(b as int + 1)));
            assert(board@.skip(0) =~= board@);
            assert(pool@ + board@.skip(0) + pool_of(bv.skip(b as int + 1)) =~= pool@ + pool_of(
                bv.skip(b as int),
            ));
        }
        let mut j: usize = 0;
        while j < board.len()
            invariant
                bv == boards_view(boards@),
                b < boards@.len(),
                board@ == bv[b as int],
                j <= board@.len(),
                pool@ + board@.skip(j as int) + pool_of(bv.skip(b as int + 1)) == pool_of(bv),
            decreases board@.len() - j,
        {
            proof {
                assert(board@.skip(j as int) =~= seq![board@[j as int]] + board@.skip(
                    j as int + 1,
                ));
                assert(pool@.push(board@[j as int]) + board@.skip(j as int + 1) + pool_of(
                    bv.skip(b as int + 1),
                ) =~= pool@ + board@.skip(j as int) + pool_of(bv.skip(b as int + 1)));
            }
            pool.push(board[j]);
            j = j + 1;
        }
        proof {
            assert(pool@ + board@.skip(board@.len() as int) + pool_of(bv.skip(b as int + 1)) =~= (
            pool@ + pool_of(bv.skip(b as int + 1))));
        }
        b = b + 1;
    }
    proof {
        assert(pool_of(bv.skip(boards@.len() as int)) =~= Seq::<&str>::empty());
        assert(pool@ + pool_of(bv.skip(boards@.len() as int)) =~= pool@);
    }
    pool
}

/// Signatures of every board's candidates, board by board.
pub open spec fn histos_match(histos: Seq<Vec<[i8; 26]>>, boards: Seq<Seq<&str>>) -> bool {
    &&& histos.len() == boards.len()
    &&& forall|b: int| 0 <= b < boards.len() ==> (#[trigger] histos[b])@.len() == boards[b].len()
    &&& forall|b: int, j: int|
        0 <= b < boards.len() && 0 <= j < boards[b].len() ==> hist_matches(
            (#[trigger] histos[b]@[j])@,
            boards[b][j].spec_bytes(),
        )
}

fn make_board_histos<'a>(boards: &Vec<Vec<&'a str>>) -> (histos: Vec<Vec<[i8; 26]>>)
    requires
        wf_boards(boards_view(boards@)),
    ensures
        histos_match(histos@, boards_view(boards@)),
{
    let mut histos: Vec<Vec<[i8; 26]>> = Vec::new();
    let mut b: usize = 0;
    while b < boards.len()
        invariant
            wf_boards(boards_view(boards@)),
            b <= boards@.len(),
            histos@.len() == b,
            forall|k: int| 0 <= k < b ==> (#[trigger] histos@[k])@.len()
                == boards_view(boards@)[k].len(),
            forall|k: int, j: int|
                0 <= k < b && 0 <= j < boards_view(boards@)[k].len() ==> hist_matches(
                    (#[trigger] histos@[k]@[j])@,
                    boards_view(boards@)[k][j].spec_bytes(),
                ),
        decreases boards@.len() - b,
    {
        assert(boards@[b as int]@ == boards_view(boards@)[b as int]);
        let h = make_histos(boards[b].as_slice());
        histos.push(h);
        b = b + 1;
    }
    histos
}

/// The worst case a single guess leaves: the maximum over every adversary
/// choice of the summed size of all pruned boards.
fn eval_guess<'a>(
    boards: &Vec<Vec<&'a str>>,
    histos: &Vec<Vec<[i8; 26]>>,
    pool: &Vec<&'a str>,
    guess: &'a str,
) -> (sco: usize)
    requires
        wf_boards(boards_view(boards@)),
        histos_match(histos@, boards_view(boards@)),
        pool@ == pool_of(boards_view(boards@)),
        wf_word(guess.spec_bytes()),
    ensures
        sco as int == worst_case(boards_view(boards@), guess.spec_bytes()),
{
    let ghost bv = boards_view(boards@);
    let ghost gb = guess.spec_bytes();
    proof {
        lemma_pool_wf(bv);
    }
    let bguess = match parse_guess(guess) {
        Some(w) => w,
        None => {
            proof {
                assert(false);
            }
            [0u8; 5]
        },
    };
    let mut sco: usize = 0;
    let pool_len = pool.len();
    let mut k: usize = 0;
    while k < pool_len
        invariant
            wf_boards(bv),
            histos_match(histos@, bv),
            pool@ == pool_of(bv),
            wf_words(pool@),
            pool@.len() == pool_len,
            wf_word(gb),
            bv == boards_view(boards@),
            gb == guess.spec_bytes(),
            bguess@ == gb,
            k <= pool@.len(),
            sco as int == worst_upto(bv, pool@, gb, k as int),
            sco <= pool@.len(),
        decreases pool@.len() - k,
    {
        let answ = pool[k];
        let result = score(answ, guess);
        let ghost ab = answ.spec_bytes();
        let mut numrem: usize = 0;
        let mut b: usize = 0;
        proof {
            lemma_rem_sum_bounds(bv, gb, ab);
            assert(bv.skip(0) =~= bv);
        }
        while b < boards.len()
            invariant
                wf_boards(bv),
                histos_match(histos@, bv),
                pool@ == pool_of(bv),
                pool@.len() == pool_len,
                wf_word(gb),
                bv == boards_view(boards@),
                bguess@ == gb,
                ab == pool@[k as int].spec_bytes(),
                k < pool@.len(),
                result@ == spec_score(ab, gb),
                b <= boards@.len(),
                numrem + rem_sum(bv.skip(b as int), gb, ab) == rem_sum(bv, gb, ab),
                rem_sum(bv, gb, ab) <= pool@.len(),
            decreases boards@.len() - b,
        {
            proof {
                assert(bv.skip(b as int)[0] == bv[b as int]);
                assert(bv.skip(b as int).skip(1) =~= bv.skip(b as int + 1));
                lemma_rem_sum_bounds(bv.skip(b as int + 1), gb, ab);
                assert(boards@[b as int]@ == bv[b as int]);
            }
            let mut it = AnswerIterator::prune(
                boards[b].as_slice(),
                histos[b].as_slice(),
                bguess,
                result,
            );
            let n = it.count_remaining();
            numrem = numrem + n;
            b = b + 1;
        }
        proof {
            assert(rem_sum(bv.skip(boards@.len() as int), gb, ab) == 0);
        }
        if numrem > sco {
            sco = numrem;
        }
        k = k + 1;
    }
    sco
}

/// Scores every allowed guess in parallel. Relies on rayon's
/// `par_iter().map(..).collect::<Vec<_>>()` over a slice: collecting an
/// indexed parallel iterator into a `Vec` keeps the input order, so entry
/// `i` is exactly what `eval_guess` returns for `guesses[i]`, whatever the
/// worker count or schedule.
#[verifier::external_body]
fn par_eval_guesses<'a>(
    boards: &Vec<Vec<&'a str>>,
    histos: &Vec<Vec<[i8; 26]>>,
    pool: &Vec<&'a str>,
    guesses: &[&'a str],
) -> (out: Vec<usize>)
    requires
        wf_boards(boards_view(boards@)),
        histos_match(histos@, boards_view(boards@)),
        pool@ == pool_of(boards_view(boards@)),
        wf_words(guesses@),
    ensures
        out@.len() == guesses@.len(),
        forall|i: int|
            0 <= i < guesses@.len() ==> #[trigger] out@[i] as int == worst_case(
                boards_view(boards@),
                guesses@[i].spec_bytes(),
            ),
{
    guesses.par_iter().map(|g| eval_guess(boards, histos, pool, *g)).collect()
}

/// Whether some word of `pool` spells the same letters as `w`.
fn pool_contains<'a>(pool: &Vec<&'a str>, w: &str) -> (found: bool)
    requires
        wf_words(pool@),
        wf_word(w.spec_bytes()),
    ensures
        found == contains_word(pool@, w.spec_bytes()),
{
    let mut j: usize = 0;
    while j < pool.len()
        invariant
            wf_words(pool@),
            wf_word(w.spec_bytes()),
            j <= pool@.len(),
            forall|k: int| 0 <= k < j ==> #[trigger] pool@[k].spec_bytes() != w.spec_bytes(),
        decreases pool@.len() - j,
    {
        if word_eq(pool[j], w) {
            return true;
        }
        j = j + 1;
    }
    false
}

/// Picks the guess that minimizes the worst-case remaining candidate
/// total over every board, preferring a guess that is itself still a
/// possible answer, then the earliest in `guesses`. Yields the guess and
/// its worst-case count, or nothing when no guess or no candidate is
/// left.
pub fn best_guess<'a>(boards: &Vec<Vec<&'a str>>, guesses: &[&'a str]) -> (r: Option<
    (&'a str, usize),
>)
    requires
        wf_boards(boards_view(boards@)),
        wf_words(guesses@),
        pool_of(boards_view(boards@)).len() < 0x4000_0000,
    ensures
        (r is Some) <==> (guesses@.len() > 0 && pool_of(boards_view(boards@)).len() > 0),
        r matches Some((g, w)) ==> {
            &&& g == guesses@[best_idx(boards_view(boards@), guesses@, guesses@.len() as int)]
            &&& w as int == worst_case(boards_view(boards@), g.spec_bytes())
        },
{
    let ghost bv = boards_view(boards@);
    let pool = build_pool(boards);
    if guesses.len() == 0 || pool.len() == 0 {
        return None;
    }
    let histos = make_board_histos(boards);
    let scored = par_eval_guesses(boards, &histos, &pool, guesses);
    proof {
        lemma_pool_wf(bv);
    }
    let c0 = pool_contains(&pool, guesses[0]);
    proof {
        lemma_worst_case_bounds(bv, pool@, guesses@[0].spec_bytes(), pool@.len() as int);
        assert(scored@[0] as int == worst_case(bv, guesses@[0].spec_bytes()));
        assert(scored@[0] as int <= pool@.len());
    }
    let mut besti: usize = 0;
    let mut bestadj: usize = 2 * scored[0] + (if c0 {
        0
    } else {
        1
    });
    let mut i: usize = 1;
    while i < guesses.len()
        invariant
            wf_boards(bv),
            wf_words(guesses@),
            wf_words(pool@),
            bv == boards_view(boards@),
            pool@ == pool_of(bv),
            pool@.len() < 0x4000_0000,
            scored@.len() == guesses@.len(),
            forall|k: int|
                0 <= k < guesses@.len() ==> #[trigger] scored@[k] as int == worst_case(
                    bv,
                    guesses@[k].spec_bytes(),
                ),
            1 <= i <= guesses@.len(),
            besti < i,
            besti == best_idx(bv, guesses@, i as int),
            bestadj as int == adjusted_score(bv, guesses@[besti as int].spec_bytes()),
        decreases guesses@.len() - i,
    {
        let ci = pool_contains(&pool, guesses[i]);
        proof {
            lemma_worst_case_bounds(bv, pool@, guesses@[i as int].spec_bytes(), pool@.len() as int);
            assert(scored@[i as int] as int == worst_case(bv, guesses@[i as int].spec_bytes()));
            assert(scored@[i as int] as int <= pool@.len());
        }
        let adj: usize = 2 * scored[i] + (if ci {
            0
        } else {
            1
        });
        if adj < bestadj {
            besti = i;
            bestadj = adj;
        }
        i = i + 1;
    }
    Some((guesses[besti], scored[besti]))
}

} // verus!
