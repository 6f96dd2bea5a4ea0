use vstd::prelude::*;
use vstd::string::StringSliceAdditionalSpecFns;

use crate::filter::{filter_answers, lemma_filter_from_len, spec_eligible, AnswerIterator};
use crate::histogram::make_histos;
use crate::laws::{
    distinct_words, lemma_eligible_iff_same_score, lemma_filter_from_at_most_one,
    lemma_filter_from_excludes, lemma_filter_wf, lemma_score_eq_iff,
};
use crate::scorer::{score, spec_score};
use crate::selector::{
    adjusted_score, best_guess, best_idx, boards_view, contains_word, lemma_best_idx_in_range,
    lemma_best_idx_min, lemma_worst_ge_rem, lemma_worst_le_bound, pool_of, rem_sum, wf_boards,
    worst_case,
};
use crate::words::{parse_guess, wf_word, wf_words, word_eq};

verus! {

/// The solved flags after one guess: a board is done once its answer has
/// been guessed.
pub open spec fn update_solved(solved: Seq<bool>, answers: Seq<&str>, guess: Seq<u8>) -> Seq<
    bool,
> {
    Seq::new(solved.len(), |b: int| solved[b] || answers[b].spec_bytes() == guess)
}

pub open spec fn all_solved(solved: Seq<bool>) -> bool {
    forall|b: int| 0 <= b < solved.len() ==> #[trigger] solved[b]
}

/// Each board pruned by its own answer's feedback to the shared guess.
pub open spec fn prune_boards<'a>(
    boards: Seq<Seq<&'a str>>,
    answers: Seq<&str>,
    guess: Seq<u8>,
) -> Seq<Seq<&'a str>> {
    Seq::new(
        boards.len(),
        |b: int| filter_answers(boards[b], guess, spec_score(answers[b].spec_bytes(), guess)),
    )
}

/// The boards still in play: a solved board leaves the selector's
/// worst-case consideration.
pub open spec fn active_boards<'a>(boards: Seq<Seq<&'a str>>, solved: Seq<bool>) -> Seq<
    Seq<&'a str>,
>
    decreases boards.len(),
{
    if boards.len() == 0 {
        Seq::empty()
    } else {
        (if solved[0] {
            Seq::empty()
        } else {
            seq![boards[0]]
        }) + active_boards(boards.skip(1), solved.skip(1))
    }
}

/// How many rounds the auto-player needs from this position, about to
/// play `guess`: nothing when play cannot go on (no guesses or no
/// candidates left) or the fuel runs out.
pub open spec fn sim_from(
    boards: Seq<Seq<&str>>,
    answers: Seq<&str>,
    solved: Seq<bool>,
    guesses: Seq<&str>,
    guess: Seq<u8>,
    fuel: nat,
) -> Option<int>
    decreases fuel,
{
    let solved2 = update_solved(solved, answers, guess);
    if all_solved(solved2) {
        Some(1)
    } else if fuel == 0 {
        None
    } else {
        let boards2 = prune_boards(boards, answers, guess);
        let act = active_boards(boards2, solved2);
        if guesses.len() == 0 || pool_of(act).len() == 0 {
            None
        } else {
            let g2 = guesses[best_idx(act, guesses, guesses.len() as int)].spec_bytes();
            match sim_from(boards2, answers, solved2, guesses, g2, (fuel - 1) as nat) {
                Some(n) => Some(n + 1),
                None => None,
            }
        }
    }
}

/// One full board per answer, all starting from the whole corpus.
pub open spec fn init_boards(corpus: Seq<&str>, n: int) -> Seq<Seq<&str>> {
    Seq::new(n as nat, |b: int| corpus)
}

/// The fuel one auto-played game gets: more rounds than candidates, so
/// running out would mean a round that eliminated nothing.
pub open spec fn sim_fuel(corpus: Seq<&str>, answers: Seq<&str>) -> nat {
    (corpus.len() * answers.len() + 1) as nat
}

/// One auto-played game, from the full corpus, with a fixed opening.
pub open spec fn sim_case(
    corpus: Seq<&str>,
    answers: Seq<&str>,
    opening: Seq<u8>,
    guesses: Seq<&str>,
) -> Option<int> {
    sim_from(
        init_boards(corpus, answers.len() as int),
        answers,
        Seq::new(answers.len(), |b: int| false),
        guesses,
        opening,
        sim_fuel(corpus, answers),
    )
}

/// A reported round count is at least one guess and at most the fuel.
pub proof fn lemma_sim_from_bound(
    boards: Seq<Seq<&str>>,
    answers: Seq<&str>,
    solved: Seq<bool>,
    guesses: Seq<&str>,
    guess: Seq<u8>,
    fuel: nat,
)
    ensures
        match sim_from(boards, answers, solved, guesses, guess, fuel) {
            Some(n) => 1 <= n <= fuel + 1,
            None => true,
        },
    decreases fuel,
{
    if fuel > 0 {
        let solved2 = update_solved(solved, answers, guess);
        let boards2 = prune_boards(boards, answers, guess);
        let act = active_boards(boards2, solved2);
        if !all_solved(solved2) && guesses.len() > 0 && pool_of(act).len() > 0 {
            let g2 = guesses[best_idx(act, guesses, guesses.len() as int)].spec_bytes();
            lemma_sim_from_bound(boards2, answers, solved2, guesses, g2, (fuel - 1) as nat);
        }
    }
}

/// Active boards are a selection of the boards, so they stay well formed
/// and their pool no larger.
proof fn lemma_active_boards_facts(boards: Seq<Seq<&str>>, solved: Seq<bool>)
    requires
        wf_boards(boards),
    ensures
        wf_boards(active_boards(boards, solved)),
        pool_of(active_boards(boards, solved)).len() <= pool_of(boards).len(),
    decreases boards.len(),
{
    if boards.len() > 0 {
        assert(wf_boards(boards.skip(1)));
        lemma_active_boards_facts(boards.skip(1), solved.skip(1));
        let act = active_boards(boards, solved);
        let tail = active_boards(boards.skip(1), solved.skip(1));
        if solved[0] {
            assert(act =~= tail);
        } else {
            assert(act == seq![boards[0]] + tail);
            assert(act.skip(1) =~= tail);
            assert(act[0] == boards[0]);
            assert(pool_of(act) == boards[0] + pool_of(tail));
            assert forall|b: int| 0 <= b < act.len() implies wf_words(#[trigger] act[b]) by {
                if b > 0 {
                    assert(act[b] == tail[b - 1]);
                }
            }
        }
    }
}

proof fn lemma_pool_of_uniform(corpus: Seq<&str>, n: int)
    requires
        n >= 0,
    ensures
        pool_of(init_boards(corpus, n)).len() == n * corpus.len(),
    decreases n,
{
    if n == 0 {
        assert(init_boards(corpus, 0).len() == 0);
    } else {
        let s = init_boards(corpus, n);
        assert(s.skip(1) =~= init_boards(corpus, n - 1));
        lemma_pool_of_uniform(corpus, n - 1);
        assert(n * corpus.len() == (n - 1) * corpus.len() + corpus.len()) by (nonlinear_arith);
    }
}

/// A pool never grows when no board does.
proof fn lemma_pool_len_le(b1: Seq<Seq<&str>>, b2: Seq<Seq<&str>>)
    requires
        b1.len() == b2.len(),
        forall|i: int| 0 <= i < b1.len() ==> (#[trigger] b1[i]).len() <= b2[i].len(),
    ensures
        pool_of(b1).len() <= pool_of(b2).len(),
    decreases b1.len(),
{
    if b1.len() > 0 {
        assert(b1.skip(1).len() == b2.skip(1).len());
        assert forall|i: int| 0 <= i < b1.skip(1).len() implies (#[trigger] b1.skip(1)[i]).len()
            <= b2.skip(1)[i].len() by {
            assert(b1.skip(1)[i] == b1[i + 1]);
            assert(b2.skip(1)[i] == b2[i + 1]);
        }
        lemma_pool_len_le(b1.skip(1), b2.skip(1));
    }
}

/// A one-board group's pool is the board, and its remaining total is the
/// board's filtered length.
proof fn lemma_single_board(c: Seq<&str>, g: Seq<u8>, ab: Seq<u8>)
    ensures
        pool_of(seq![c]) == c,
        rem_sum(seq![c], g, ab) == filter_answers(c, g, spec_score(ab, g)).len(),
{
    let boards = seq![c];
    assert(boards.len() == 1);
    assert(boards[0] == c);
    assert(boards.skip(1) =~= Seq::<Seq<&str>>::empty());
    assert(pool_of(boards.skip(1)).len() == 0);
    assert(pool_of(boards) == c + pool_of(boards.skip(1)));
    assert(pool_of(boards) =~= c);
    assert(rem_sum(boards.skip(1), g, ab) == 0);
}

/// With at least two candidates on a single board, the selector's chosen
/// guess strictly shrinks the board, whichever candidate is the true
/// answer: every round after the opening makes progress.
pub proof fn lemma_selector_progress(c: Seq<&str>, guesses: Seq<&str>, ai: int)
    requires
        wf_words(c),
        wf_words(guesses),
        distinct_words(c),
        0 <= ai < c.len(),
        c.len() >= 2,
        guesses.len() >= 1,
        forall|i: int| 0 <= i < c.len() ==> contains_word(guesses, (#[trigger] c[i]).spec_bytes()),
    ensures
        ({
            let g = guesses[best_idx(seq![c], guesses, guesses.len() as int)].spec_bytes();
            filter_answers(c, g, spec_score(c[ai].spec_bytes(), g)).len() < c.len()
        }),
{
    let n = guesses.len() as int;
    let boards = seq![c];
    let ab = c[ai].spec_bytes();
    lemma_best_idx_in_range(boards, guesses, n);
    lemma_best_idx_min(boards, guesses, n);
    let bi = best_idx(boards, guesses, n);
    let gb = guesses[bi].spec_bytes();

    lemma_single_board(c, ab, ab);
    lemma_single_board(c, gb, ab);
    assert(wf_word(ab));
    assert(wf_word(gb));

    // The answer used as a guess leaves at most len - 1 candidates,
    // whatever the adversary picks.
    assert forall|j: int|
        0 <= j < c.len() implies rem_sum(boards, ab, (#[trigger] c[j]).spec_bytes()) <= c.len()
        - 1 by {
        let pj = c[j].spec_bytes();
        let r = spec_score(pj, ab);
        lemma_single_board(c, ab, pj);
        assert(rem_sum(boards, ab, pj) == filter_answers(c, ab, r).len());
        if pj == ab {
            // All-green feedback: only the answer's own letters pass.
            assert forall|i: int|
                0 <= i < c.len() && i != ai implies !spec_eligible(
                (#[trigger] c[i]).spec_bytes(),
                ab,
                r,
            ) by {
                lemma_eligible_iff_same_score(c[i].spec_bytes(), pj, ab);
                lemma_score_eq_iff(c[i].spec_bytes(), ab);
                if i < ai {
                    assert(c[i].spec_bytes() != c[ai].spec_bytes());
                } else {
                    assert(c[ai].spec_bytes() != c[i].spec_bytes());
                }
            }
            lemma_filter_from_at_most_one(c, ab, r, 0, ai);
        } else {
            // The answer word itself is dropped: it would score all green.
            lemma_eligible_iff_same_score(ab, pj, ab);
            lemma_score_eq_iff(pj, ab);
            assert(spec_score(ab, ab) != r);
            assert(!spec_eligible(ab, ab, r));
            lemma_filter_from_excludes(c, ab, r, 0, ai);
        }
    }
    lemma_worst_le_bound(boards, c, ab, c.len() as int, c.len() - 1);
    assert(worst_case(boards, ab) <= c.len() - 1);

    // So the answer's adjusted score, hence the chosen guess's, is small.
    assert(c[ai].spec_bytes() == ab && 0 <= ai < pool_of(boards).len());
    assert(contains_word(pool_of(boards), ab));
    assert(adjusted_score(boards, ab) <= 2 * (c.len() - 1));
    let jx = choose|jx: int| 0 <= jx < guesses.len() && (#[trigger] guesses[jx]).spec_bytes() == ab;
    assert(adjusted_score(boards, gb) <= adjusted_score(boards, guesses[jx].spec_bytes()));
    assert(adjusted_score(boards, gb) <= 2 * (c.len() - 1));
    assert(2 * worst_case(boards, gb) <= adjusted_score(boards, gb));
    assert(worst_case(boards, gb) <= c.len() - 1);

    // The true answer is one of the adversary's choices.
    lemma_worst_ge_rem(boards, c, gb, ai, c.len() as int);
    assert(rem_sum(boards, gb, ab) <= worst_case(boards, gb));
    assert(rem_sum(boards, gb, ab) == filter_answers(c, gb, spec_score(ab, gb)).len());
}

/// From a single board that still holds its answer, play that follows
/// the selector finishes within as many rounds as there are candidates.
proof fn lemma_sim_single_some(c: Seq<&str>, answers: Seq<&str>, guesses: Seq<&str>, fuel: nat)
    requires
        answers.len() == 1,
        wf_words(c),
        wf_words(guesses),
        wf_word(answers[0].spec_bytes()),
        distinct_words(c),
        contains_word(c, answers[0].spec_bytes()),
        forall|i: int| 0 <= i < c.len() ==> contains_word(guesses, (#[trigger] c[i]).spec_bytes()),
        guesses.len() >= 1,
        fuel >= c.len(),
    ensures
        sim_from(
            seq![c],
            answers,
            seq![false],
            guesses,
            guesses[best_idx(seq![c], guesses, guesses.len() as int)].spec_bytes(),
            fuel,
        ) is Some,
    decreases fuel,
{
    let ab = answers[0].spec_bytes();
    let boards = seq![c];
    let n = guesses.len() as int;
    lemma_best_idx_in_range(boards, guesses, n);
    lemma_best_idx_min(boards, guesses, n);
    let gb = guesses[best_idx(boards, guesses, n)].spec_bytes();
    let k = choose|k: int| 0 <= k < c.len() && (#[trigger] c[k]).spec_bytes() == ab;
    let solved2 = update_solved(seq![false], answers, gb);

    if ab == gb {
        assert(solved2[0]);
        assert(all_solved(solved2));
    } else {
        assert(!solved2[0]);
        assert(!all_solved(solved2));
        assert(fuel >= 1);
        let r = spec_score(ab, gb);
        let c2 = filter_answers(c, gb, r);
        lemma_single_board(c, gb, ab);
        lemma_single_board(c2, gb, ab);
        assert(wf_word(gb));

        // The chosen guess would have to be the answer itself if only one
        // candidate were left.
        if c.len() == 1 {
            assert(k == 0);
            // Any guess leaves that one candidate, so every adjusted score
            // is decided by the tie-break alone.
            crate::laws::lemma_prune_sound(c, 0, gb);
            assert(filter_answers(c, gb, spec_score(c[0].spec_bytes(), gb)).contains(c[0]));
            assert(rem_sum(boards, gb, ab) >= 1);
            lemma_worst_ge_rem(boards, c, gb, 0, 1);
            assert(worst_case(boards, gb) >= 1);
            let jx = choose|jx: int|
                0 <= jx < guesses.len() && (#[trigger] guesses[jx]).spec_bytes() == ab;
            crate::laws::lemma_prune_sound(c, 0, ab);
            lemma_single_board(c, ab, ab);
            assert(rem_sum(boards, ab, ab) >= 1);
            crate::filter::lemma_filter_from_len(c, ab, spec_score(ab, ab), 0);
            assert(rem_sum(boards, ab, ab) <= 1);
            assert forall|j: int|
                0 <= j < 1 implies rem_sum(boards, ab, (#[trigger] c[j]).spec_bytes()) <= 1 by {
                lemma_single_board(c, ab, c[j].spec_bytes());
                crate::filter::lemma_filter_from_len(c, ab, spec_score(c[j].spec_bytes(), ab), 0);
            }
            lemma_worst_le_bound(boards, c, ab, 1, 1);
            lemma_worst_ge_rem(boards, c, ab, 0, 1);
            assert(worst_case(boards, ab) == 1);
            assert(contains_word(pool_of(boards), ab));
            assert(adjusted_score(boards, ab) == 2);
            assert(adjusted_score(boards, gb) <= adjusted_score(
                boards,
                guesses[jx].spec_bytes(),
            ));
            assert(adjusted_score(boards, gb) <= 2);
            assert(contains_word(pool_of(boards), gb));
            let m = choose|m: int|
                0 <= m < c.len() && (#[trigger] c[m]).spec_bytes() == gb;
            assert(m == 0);
            assert(gb == ab);
            assert(false);
        }

        // The answer survives its own feedback, and the board shrinks.
        crate::laws::lemma_prune_sound(c, k, gb);
        assert(c2.contains(c[k]));
        let m = choose|m: int| 0 <= m < c2.len() && (#[trigger] c2[m]) == c[k];
        assert(c2[m].spec_bytes() == ab);
        assert(contains_word(c2, ab));
        lemma_selector_progress(c, guesses, k);
        assert(c2.len() < c.len());

        // The pruned board keeps every invariant.
        lemma_filter_wf(c, gb, r);
        crate::laws::lemma_filter_distinct(c, gb, r);
        assert forall|i: int|
            0 <= i < c2.len() implies contains_word(
            guesses,
            (#[trigger] c2[i]).spec_bytes(),
        ) by {
            crate::laws::lemma_filter_elems(c, gb, r, i);
            let j = choose|j: int| 0 <= j < c.len() && c2[i] == (#[trigger] c[j]);
            assert(contains_word(guesses, c[j].spec_bytes()));
        }

        // The next position matches the recursive claim.
        let boards2 = prune_boards(boards, answers, gb);
        assert(boards2.len() == 1);
        assert(boards2[0] == c2);
        assert(boards2 =~= seq![c2]);
        let act = active_boards(boards2, solved2);
        assert(boards2.skip(1) =~= Seq::<Seq<&str>>::empty());
        assert(solved2.skip(1) =~= Seq::<bool>::empty());
        assert(active_boards(boards2.skip(1), solved2.skip(1)) =~= Seq::<Seq<&str>>::empty());
        assert(act =~= seq![boards2[0]] + active_boards(boards2.skip(1), solved2.skip(1)));
        assert(act =~= seq![c2]);
        assert(pool_of(act) == c2);
        assert(pool_of(act).len() > 0);
        assert(solved2 =~= seq![false]);
        lemma_sim_single_some(c2, answers, guesses, (fuel - 1) as nat);
    }
}

/// Single-board simulation always finishes: from a duplicate-free corpus
/// that holds the answer, with every candidate allowed as a guess, the
/// harness reports a round count for every choice of answer and opening.
pub proof fn lemma_sim_single_terminates(
    corpus: Seq<&str>,
    answers: Seq<&str>,
    opening: Seq<u8>,
    guesses: Seq<&str>,
)
    requires
        answers.len() == 1,
        wf_words(corpus),
        wf_words(guesses),
        wf_word(opening),
        wf_word(answers[0].spec_bytes()),
        distinct_words(corpus),
        contains_word(corpus, answers[0].spec_bytes()),
        forall|i: int|
            0 <= i < corpus.len() ==> contains_word(guesses, (#[trigger] corpus[i]).spec_bytes()),
        guesses.len() >= 1,
    ensures
        sim_case(corpus, answers, opening, guesses) is Some,
{
    let ab = answers[0].spec_bytes();
    let fuel = sim_fuel(corpus, answers);
    assert(corpus.len() * answers.len() == corpus.len() * 1);
    assert(corpus.len() * 1 == corpus.len()) by (nonlinear_arith);
    assert(fuel == corpus.len() + 1);
    let ib = init_boards(corpus, answers.len() as int);
    assert(ib.len() == 1);
    assert(ib[0] == corpus);
    assert(ib =~= seq![corpus]);
    let is0 = Seq::new(answers.len(), |b: int| false);
    assert(is0 =~= seq![false]);
    let boards = seq![corpus];
    let k = choose|k: int| 0 <= k < corpus.len() && (#[trigger] corpus[k]).spec_bytes() == ab;
    let solved2 = update_solved(seq![false], answers, opening);
    let n = guesses.len() as int;

    if ab == opening {
        assert(solved2[0]);
        assert(all_solved(solved2));
    } else {
        assert(!solved2[0]);
        assert(!all_solved(solved2));
        assert(fuel >= 1);
        let r = spec_score(ab, opening);
        let c2 = filter_answers(corpus, opening, r);
        crate::laws::lemma_prune_sound(corpus, k, opening);
        assert(c2.contains(corpus[k]));
        let m = choose|m: int| 0 <= m < c2.len() && (#[trigger] c2[m]) == corpus[k];
        assert(c2[m].spec_bytes() == ab);
        assert(contains_word(c2, ab));
        crate::filter::lemma_filter_from_len(corpus, opening, r, 0);
        assert(c2.len() <= corpus.len());

        lemma_filter_wf(corpus, opening, r);
        crate::laws::lemma_filter_distinct(corpus, opening, r);
        assert forall|i: int|
            0 <= i < c2.len() implies contains_word(
            guesses,
            (#[trigger] c2[i]).spec_bytes(),
        ) by {
            crate::laws::lemma_filter_elems(corpus, opening, r, i);
            let j = choose|j: int| 0 <= j < corpus.len() && c2[i] == (#[trigger] corpus[j]);
            assert(contains_word(guesses, corpus[j].spec_bytes()));
        }

        let boards2 = prune_boards(boards, answers, opening);
        assert(boards2.len() == 1);
        assert(boards2[0] == c2);
        assert(boards2 =~= seq![c2]);
        let act = active_boards(boards2, solved2);
        assert(boards2.skip(1) =~= Seq::<Seq<&str>>::empty());
        assert(solved2.skip(1) =~= Seq::<bool>::empty());
        assert(active_boards(boards2.skip(1), solved2.skip(1)) =~= Seq::<Seq<&str>>::empty());
        assert(act =~= seq![boards2[0]] + active_boards(boards2.skip(1), solved2.skip(1)));
        assert(act =~= seq![c2]);
        lemma_single_board(c2, opening, ab);
        assert(pool_of(act) == c2);
        assert(pool_of(act).len() > 0);
        assert(solved2 =~= seq![false]);
        lemma_sim_single_some(c2, answers, guesses, (fuel - 1) as nat);
    }
}

/// Auto-plays one game: a fixed opening guess, then the selector's choice
/// each round, pruning every board by its own feedback, until every
/// board's answer has been guessed. Returns the number of guesses issued,
/// or nothing if play could not finish.
#[verifier::rlimit(80)]
pub fn sim_one<'a>(
    corpus: &[&'a str],
    answers: &[&'a str],
    opening: &'a str,
    guesses: &[&'a str],
) -> (r: Option<usize>)
    requires
        wf_words(corpus@),
        wf_words(answers@),
        wf_words(guesses@),
        wf_word(opening.spec_bytes()),
        answers@.len() >= 1,
        corpus@.len() * answers@.len() < 0x4000_0000,
    ensures
        match r {
            Some(n) => 1 <= n && sim_case(corpus@, answers@, opening.spec_bytes(), guesses@)
                == Some(n as int),
            None => sim_case(corpus@, answers@, opening.spec_bytes(), guesses@) is None,
        },
{
    let nb = answers.len();
    let ghost ib = init_boards(corpus@, answers@.len() as int);
    let ghost is0 = Seq::new(answers@.len(), |b: int| false);
    let ghost fuel0 = sim_fuel(corpus@, answers@);

    let mut boards: Vec<Vec<&'a str>> = Vec::new();
    let mut b0: usize = 0;
    while b0 < nb
        invariant
            nb == answers@.len(),
            b0 <= nb,
            boards@.len() == b0,
            forall|k: int| 0 <= k < b0 ==> (#[trigger] boards@[k])@ == corpus@,
        decreases nb - b0,
    {
        boards.push(vstd::slice::slice_to_vec(corpus));
        b0 = b0 + 1;
    }
    proof {
        assert(boards_view(boards@) =~= ib);
    }

    let mut solved: Vec<bool> = Vec::new();
    let mut b1: usize = 0;
    while b1 < nb
        invariant
            nb == answers@.len(),
            b1 <= nb,
            solved@.len() == b1,
            forall|k: int| 0 <= k < b1 ==> !(#[trigger] solved@[k]),
        decreases nb - b1,
    {
        solved.push(false);
        b1 = b1 + 1;
    }
    proof {
        assert(solved@ =~= is0);
        lemma_pool_of_uniform(corpus@, nb as int);
        assert(nb * corpus@.len() == corpus@.len() * nb) by (nonlinear_arith);
    }

    let mut fuel: usize = corpus.len() * nb + 1;
    let mut rounds: usize = 0;
    let mut guess: &'a str = opening;

    loop
        invariant
            nb == answers@.len(),
            nb >= 1,
            wf_words(corpus@),
            wf_words(answers@),
            wf_words(guesses@),
            wf_word(guess.spec_bytes()),
            boards@.len() == nb,
            solved@.len() == nb,
            wf_boards(boards_view(boards@)),
            pool_of(boards_view(boards@)).len() <= corpus@.len() * nb,
            corpus@.len() * nb < 0x4000_0000,
            fuel0 == (corpus@.len() * nb + 1) as nat,
            ib == init_boards(corpus@, answers@.len() as int),
            is0 == Seq::new(answers@.len() as nat, |b: int| false),
            rounds + fuel == fuel0,
            (match sim_from(
                boards_view(boards@),
                answers@,
                solved@,
                guesses@,
                guess.spec_bytes(),
                fuel as nat,
            ) {
                Some(n) => sim_from(ib, answers@, is0, guesses@, opening.spec_bytes(), fuel0)
                    == Some(n + rounds),
                None => sim_from(ib, answers@, is0, guesses@, opening.spec_bytes(), fuel0)
                    is None,
            }),
        decreases fuel,
    {
        let ghost prev_solved = solved@;
        let ghost gb = guess.spec_bytes();

        // Mark any board whose answer this guess names.
        let mut b: usize = 0;
        while b < nb
            invariant
                nb == answers@.len(),
                wf_words(answers@),
                wf_word(gb),
                guess.spec_bytes() == gb,
                b <= nb,
                solved@.len() == nb,
                prev_solved.len() == nb,
                forall|k: int|
                    0 <= k < b ==> #[trigger] solved@[k] == (prev_solved[k]
                        || answers@[k].spec_bytes() == gb),
                forall|k: int| b <= k < nb ==> #[trigger] solved@[k] == prev_solved[k],
            decreases nb - b,
        {
            if !solved[b] {
                if word_eq(answers[b], guess) {
                    solved.set(b, true);
                }
            }
            b = b + 1;
        }
        proof {
            assert(solved@ =~= update_solved(prev_solved, answers@, gb));
        }

        // All boards done?
        let mut all = true;
        let mut b2: usize = 0;
        while b2 < nb
            invariant
                b2 <= nb,
                solved@.len() == nb,
                all == (forall|k: int| 0 <= k < b2 ==> #[trigger] solved@[k]),
            decreases nb - b2,
        {
            if !solved[b2] {
                all = false;
            }
            b2 = b2 + 1;
        }
        if all {
            return Some(rounds + 1);
        }
        if fuel == 0 {
            return None;
        }
        fuel = fuel - 1;

        // Prune every board by its own feedback for this guess.
        let bg = match parse_guess(guess) {
            Some(w) => w,
            None => {
                proof {
                    assert(false);
                }
                [0u8; 5]
            },
        };
        let ghost bv_old = boards_view(boards@);
        let mut newboards: Vec<Vec<&'a str>> = Vec::new();
        let mut b3: usize = 0;
        while b3 < nb
            invariant
                nb == answers@.len(),
                wf_words(answers@),
                wf_word(gb),
                guess.spec_bytes() == gb,
                bg@ == gb,
                boards@.len() == nb,
                bv_old == boards_view(boards@),
                wf_boards(bv_old),
                b3 <= nb,
                newboards@.len() == b3,
                forall|k: int|
                    0 <= k < b3 ==> (#[trigger] newboards@[k])@ == filter_answers(
                        bv_old[k],
                        gb,
                        spec_score(answers@[k].spec_bytes(), gb),
                    ),
            decreases nb - b3,
        {
            proof {
                assert(boards@[b3 as int]@ == bv_old[b3 as int]);
                assert(wf_words(bv_old[b3 as int]));
            }
            let bhist = make_histos(boards[b3].as_slice());
            let result = score(answers[b3], guess);
            let mut it = AnswerIterator::prune(boards[b3].as_slice(), bhist.as_slice(), bg, result);
            newboards.push(it.collect_remaining());
            b3 = b3 + 1;
        }
        boards = newboards;
        proof {
            assert(boards_view(boards@) =~= prune_boards(bv_old, answers@, gb));
            assert forall|k: int| 0 <= k < nb implies wf_words(
                #[trigger] boards_view(boards@)[k],
            ) by {
                lemma_filter_wf(bv_old[k], gb, spec_score(answers@[k].spec_bytes(), gb));
            }
            assert forall|k: int| 0 <= k < nb implies (#[trigger] boards_view(boards@)[k]).len()
                <= bv_old[k].len() by {
                lemma_filter_from_len(bv_old[k], gb, spec_score(answers@[k].spec_bytes(), gb), 0);
            }
            lemma_pool_len_le(boards_view(boards@), bv_old);
            lemma_active_boards_facts(boards_view(boards@), solved@);
        }

        // A solved board leaves the selector's consideration.
        let ghost bv_new = boards_view(boards@);
        let ghost act = active_boards(bv_new, solved@);
        let mut active: Vec<Vec<&'a str>> = Vec::new();
        proof {
            assert(bv_new.skip(0) =~= bv_new);
            assert(solved@.skip(0) =~= solved@);
            assert(boards_view(active@) =~= Seq::<Seq<&str>>::empty());
            assert(boards_view(active@) + active_boards(bv_new, solved@) =~= act);
        }
        let mut b4: usize = 0;
        while b4 < nb
            invariant
                nb == boards@.len(),
                nb == solved@.len(),
                bv_new == boards_view(boards@),
                act == active_boards(bv_new, solved@),
                b4 <= nb,
                boards_view(active@) + active_boards(bv_new.skip(b4 as int), solved@.skip(
                    b4 as int,
                )) == act,
            decreases nb - b4,
        {
            proof {
                assert(bv_new.skip(b4 as int)[0] == bv_new[b4 as int]);
                assert(solved@.skip(b4 as int)[0] == solved@[b4 as int]);
                assert(bv_new.skip(b4 as int).skip(1) =~= bv_new.skip(b4 as int + 1));
                assert(solved@.skip(b4 as int).skip(1) =~= solved@.skip(b4 as int + 1));
            }
            if !solved[b4] {
                let copy = vstd::slice::slice_to_vec(boards[b4].as_slice());
                proof {
                    assert(copy@ == bv_new[b4 as int]);
                    assert(boards_view(active@.push(copy)) =~= boards_view(active@).push(copy@));
                    assert(boards_view(active@).push(copy@) + active_boards(
                        bv_new.skip(b4 as int + 1),
                        solved@.skip(b4 as int + 1),
                    ) =~= boards_view(active@) + active_boards(
                        bv_new.skip(b4 as int),
                        solved@.skip(b4 as int),
                    ));
                }
                active.push(copy);
            } else {
                proof {
                    assert(active_boards(bv_new.skip(b4 as int), solved@.skip(b4 as int))
                        =~= active_boards(bv_new.skip(b4 as int + 1), solved@.skip(b4 as int + 1)));
                }
            }
            b4 = b4 + 1;
        }
        proof {
            assert(active_boards(bv_new.skip(nb as int), solved@.skip(nb as int)) =~= Seq::<
                Seq<&str>,
            >::empty());
            assert(boards_view(active@) + active_boards(bv_new.skip(nb as int), solved@.skip(
                nb as int,
            )) =~= boards_view(active@));
            assert(boards_view(active@) == act);
        }

        match best_guess(&active, guesses) {
            Some(picked) => {
                proof {
                    let boards2 = prune_boards(bv_old, answers@, gb);
                    assert(boards_view(boards@) == boards2);
                    assert(!all_solved(update_solved(prev_solved, answers@, gb)));
                    assert(guesses@.len() > 0 && pool_of(act).len() > 0);
                    lemma_best_idx_in_range(act, guesses@, guesses@.len() as int);
                    assert(picked.0.spec_bytes() == guesses@[best_idx(
                        act,
                        guesses@,
                        guesses@.len() as int,
                    )].spec_bytes());
                }
                guess = picked.0;
                rounds = rounds + 1;
            },
            None => {
                proof {
                    let boards2 = prune_boards(bv_old, answers@, gb);
                    assert(boards_view(boards@) == boards2);
                    assert(!all_solved(update_solved(prev_solved, answers@, gb)));
                    assert(guesses@.len() == 0 || pool_of(act).len() == 0);
                }
                return None;
            },
        }
    }
}

// ------------------------------------------------------------------
// Aggregation over a whole corpus
// ------------------------------------------------------------------

/// The sum of the first `k` round counts.
pub open spec fn sum_upto(s: Seq<usize>, k: int) -> int
    decreases k,
{
    if k <= 0 {
        0
    } else {
        sum_upto(s, k - 1) + s[k - 1]
    }
}

/// The largest of the first `k` round counts (zero when there are none).
pub open spec fn max_upto(s: Seq<usize>, k: int) -> int
    decreases k,
{
    if k <= 0 {
        0
    } else {
        let p = max_upto(s, k - 1);
        if s[k - 1] > p {
            s[k - 1] as int
        } else {
            p
        }
    }
}

/// How many of the first `k` round counts equal `v`.
pub open spec fn count_eq_upto(s: Seq<usize>, v: int, k: int) -> int
    decreases k,
{
    if k <= 0 {
        0
    } else {
        count_eq_upto(s, v, k - 1) + if s[k - 1] == v {
            1int
        } else {
            0int
        }
    }
}

proof fn lemma_max_upto_ge(s: Seq<usize>, j: int, k: int)
    requires
        0 <= j < k,
    ensures
        s[j] <= max_upto(s, k),
    decreases k,
{
    if j < k - 1 {
        lemma_max_upto_ge(s, j, k - 1);
    }
}

/// What a full simulation reports: every case's round count, their sum,
/// the worst case, and how many cases took each round count.
pub struct SimStats {
    pub rounds: Vec<usize>,
    pub total: u64,
    pub worst: usize,
    pub hist: Vec<usize>,
}

/// Auto-plays every case (a set of answers, one per board) from the full
/// corpus with a fixed opening, and aggregates the round counts. Nothing
/// is reported if any single game could not finish.
pub fn fullsim<'a>(
    corpus: &[&'a str],
    cases: &Vec<Vec<&'a str>>,
    opening: &'a str,
    guesses: &[&'a str],
) -> (r: Option<SimStats>)
    requires
        wf_words(corpus@),
        wf_words(guesses@),
        wf_word(opening.spec_bytes()),
        cases@.len() < 0x8000,
        forall|i: int|
            0 <= i < cases@.len() ==> wf_words((#[trigger] cases@[i])@) && 1 <= cases@[i]@.len()
                && corpus@.len() * cases@[i]@.len() < 0x4000_0000,
    ensures
        match r {
            Some(st) => {
                &&& st.rounds@.len() == cases@.len()
                &&& forall|i: int|
                    0 <= i < cases@.len() ==> sim_case(
                        corpus@,
                        (#[trigger] cases@[i])@,
                        opening.spec_bytes(),
                        guesses@,
                    ) == Some(st.rounds@[i] as int)
                &&& st.total as int == sum_upto(st.rounds@, st.rounds@.len() as int)
                &&& st.worst as int == max_upto(st.rounds@, st.rounds@.len() as int)
                &&& st.hist@.len() == st.worst + 1
                &&& forall|k: int|
                    0 <= k < st.hist@.len() ==> #[trigger] st.hist@[k] as int == count_eq_upto(
                        st.rounds@,
                        k,
                        st.rounds@.len() as int,
                    )
            },
            None => exists|i: int|
                0 <= i < cases@.len() && sim_case(
                    corpus@,
                    (#[trigger] cases@[i])@,
                    opening.spec_bytes(),
                    guesses@,
                ) is None,
        },
{
    let ncases = cases.len();
    let mut rounds: Vec<usize> = Vec::new();
    let mut i: usize = 0;
    while i < ncases
        invariant
            ncases == cases@.len(),
            ncases < 0x8000,
            wf_words(corpus@),
            wf_words(guesses@),
            wf_word(opening.spec_bytes()),
            forall|k: int|
                0 <= k < cases@.len() ==> wf_words((#[trigger] cases@[k])@) && 1
                    <= cases@[k]@.len() && corpus@.len() * cases@[k]@.len() < 0x4000_0000,
            i <= ncases,
            rounds@.len() == i,
            forall|k: int|
                0 <= k < i ==> sim_case(
                    corpus@,
                    (#[trigger] cases@[k])@,
                    opening.spec_bytes(),
                    guesses@,
                ) == Some(rounds@[k] as int),
            forall|k: int| 0 <= k < i ==> #[trigger] rounds@[k] < 0x5000_0000,
        decreases ncases - i,
    {
        match sim_one(corpus, cases[i].as_slice(), opening, guesses) {
            Some(n) => {
                proof {
                    lemma_sim_from_bound(
                        init_boards(corpus@, cases@[i as int]@.len() as int),
                        cases@[i as int]@,
                        Seq::new(cases@[i as int]@.len(), |b: int| false),
                        guesses@,
                        opening.spec_bytes(),
                        sim_fuel(corpus@, cases@[i as int]@),
                    );
                }
                rounds.push(n);
            },
            None => {
                return None;
            },
        }
        i = i + 1;
    }

    let mut total: u64 = 0;
    let mut worst: usize = 0;
    let mut j: usize = 0;
    while j < ncases
        invariant
            ncases == rounds@.len(),
            ncases < 0x8000,
            j <= ncases,
            forall|k: int| 0 <= k < ncases ==> #[trigger] rounds@[k] < 0x5000_0000,
            total as int == sum_upto(rounds@, j as int),
            total as int <= j * 0x5000_0000,
            worst as int == max_upto(rounds@, j as int),
            worst < 0x5000_0000,
        decreases ncases - j,
    {
        let n = rounds[j];
        total = total + (n as u64);
        if n > worst {
            worst = n;
        }
        j = j + 1;
    }

    let mut hist: Vec<usize> = Vec::new();
    let mut h: usize = 0;
    while h < worst + 1
        invariant
            worst < 0x5000_0000,
            h <= worst + 1,
            hist@.len() == h,
            forall|k: int| 0 <= k < h ==> #[trigger] hist@[k] == 0,
        decreases worst + 1 - h,
    {
        hist.push(0);
        h = h + 1;
    }
    let mut j2: usize = 0;
    while j2 < ncases
        invariant
            ncases == rounds@.len(),
            ncases < 0x8000,
            j2 <= ncases,
            worst as int == max_upto(rounds@, ncases as int),
            hist@.len() == worst + 1,
            forall|k: int|
                0 <= k < hist@.len() ==> #[trigger] hist@[k] as int == count_eq_upto(
                    rounds@,
                    k,
                    j2 as int,
                ),
            forall|k: int| 0 <= k < hist@.len() ==> #[trigger] hist@[k] <= j2,
        decreases ncases - j2,
    {
        let n = rounds[j2];
        proof {
            lemma_max_upto_ge(rounds@, j2 as int, ncases as int);
        }
        let c = hist[n];
        hist.set(n, c + 1);
        j2 = j2 + 1;
    }

    Some(SimStats { rounds, total, worst, hist })
}

/// One single-board case per corpus word: the classic full-corpus run.
pub fn single_cases<'a>(corpus: &[&'a str]) -> (cases: Vec<Vec<&'a str>>)
    ensures
        cases@.len() == corpus@.len(),
        forall|i: int| 0 <= i < corpus@.len() ==> (#[trigger] cases@[i])@ == seq![corpus@[i]],
{
    let mut cases: Vec<Vec<&'a str>> = Vec::new();
    let mut i: usize = 0;
    while i < corpus.len()
        invariant
            i <= corpus@.len(),
            cases@.len() == i,
            forall|k: int| 0 <= k < i ==> (#[trigger] cases@[k])@ == seq![corpus@[k]],
        decreases corpus@.len() - i,
    {
        let mut c: Vec<&'a str> = Vec::new();
        c.push(corpus[i]);
        proof {
            assert(c@ =~= seq![corpus@[i as int]]);
        }
        cases.push(c);
        i = i + 1;
    }
    cases
}

/// The two-board cases with first word `s[i]`: one per later word.
pub open spec fn pairs_row(s: Seq<&str>, i: int, j: int) -> Seq<Seq<&str>>
    decreases s.len() - j,
{
    if j < 0 || j >= s.len() {
        Seq::empty()
    } else {
        seq![seq![s[i], s[j]]] + pairs_row(s, i, j + 1)
    }
}

/// Every unordered pair of distinct corpus words, ordered by first then
/// second position.
pub open spec fn pairs_from(s: Seq<&str>, i: int) -> Seq<Seq<&str>>
    decreases s.len() - i,
{
    if i < 0 || i >= s.len() {
        Seq::empty()
    } else {
        pairs_row(s, i, i + 1) + pairs_from(s, i + 1)
    }
}

/// One two-board case per unordered pair of distinct corpus words.
pub fn pair_cases<'a>(corpus: &[&'a str]) -> (cases: Vec<Vec<&'a str>>)
    ensures
        cases@.map_values(|c: Vec<&'a str>| c@) == pairs_from(corpus@, 0),
{
    let s = corpus;
    let ghost target = pairs_from(s@, 0);
    let mut cases: Vec<Vec<&'a str>> = Vec::new();
    proof {
        assert(cases@.map_values(|c: Vec<&'a str>| c@) =~= Seq::<Seq<&str>>::empty());
        assert(cases@.map_values(|c: Vec<&'a str>| c@) + pairs_from(s@, 0) =~= pairs_from(
            s@,
            0,
        ));
    }
    let mut i: usize = 0;
    while i < s.len()
        invariant
            i <= s@.len(),
            target == pairs_from(s@, 0),
            cases@.map_values(|c: Vec<&'a str>| c@) + pairs_from(s@, i as int) == target,
        decreases s@.len() - i,
    {
        let mut j: usize = i + 1;
        proof {
            assert(cases@.map_values(|c: Vec<&'a str>| c@) + (pairs_row(s@, i as int, i as int + 1)
                + pairs_from(s@, i as int + 1)) =~= cases@.map_values(|c: Vec<&'a str>| c@)
                + pairs_from(s@, i as int));
        }
        while j < s.len()
            invariant
                i < s@.len(),
                i < j <= s@.len(),
                target == pairs_from(s@, 0),
                cases@.map_values(|c: Vec<&'a str>| c@) + (pairs_row(s@, i as int, j as int)
                    + pairs_from(s@, i as int + 1)) == target,
            decreases s@.len() - j,
        {
            let mut c: Vec<&'a str> = Vec::new();
            c.push(s[i]);
            c.push(s[j]);
            proof {
                assert(c@ =~= seq![s@[i as int], s@[j as int]]);
                let ghost pr = seq![seq![s@[i as int], s@[j as int]]];
                assert(pairs_row(s@, i as int, j as int) =~= pr + pairs_row(
                    s@,
                    i as int,
                    j as int + 1,
                ));
                assert(cases@.push(c).map_values(|c2: Vec<&'a str>| c2@) =~= cases@.map_values(
                    |c2: Vec<&'a str>| c2@,
                ).push(c@));
                assert(cases@.push(c).map_values(|c2: Vec<&'a str>| c2@) + (pairs_row(
                    s@,
                    i as int,
                    j as int + 1,
                ) + pairs_from(s@, i as int + 1)) =~= cases@.map_values(|c2: Vec<&'a str>| c2@) + (
                pairs_row(s@, i as int, j as int) + pairs_from(s@, i as int + 1)));
            }
            cases.push(c);
            j = j + 1;
        }
        proof {
            assert(pairs_row(s@, i as int, s@.len() as int) =~= Seq::<Seq<&str>>::empty());
            assert(cases@.map_values(|c: Vec<&'a str>| c@) + (pairs_row(s@, i as int, s@.len() as int)
                + pairs_from(s@, i as int + 1)) =~= cases@.map_values(|c: Vec<&'a str>| c@)
                + pairs_from(s@, i as int + 1));
        }
        i = i + 1;
    }
    proof {
        assert(pairs_from(s@, s@.len() as int) =~= Seq::<Seq<&str>>::empty());
        assert(cases@.map_values(|c: Vec<&'a str>| c@) + pairs_from(s@, s@.len() as int)
            =~= cases@.map_values(|c: Vec<&'a str>| c@));
    }
    cases
}

} // verus!
