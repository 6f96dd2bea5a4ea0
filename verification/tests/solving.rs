use wordle::{best_guess, fullsim, pair_cases, score, sim_one, single_cases};

const CORPUS: [&str; 8] = ["abide", "spore", "crane", "slate", "moral", "lunar", "taser", "cling"];

/// Exhaustive single-board minimax with the library's tie-break, computed
/// from `score` alone.
fn brute_best<'a>(answers: &[&'a str], guesses: &[&'a str]) -> (&'a str, usize) {
    let mut besti = 0;
    let mut bestadj = usize::MAX;
    let mut bestworst = 0;
    for (gi, g) in guesses.iter().enumerate() {
        let mut worst = 0;
        for a in answers {
            let fb = score(a, g);
            let rem = answers.iter().filter(|w| score(w, g) == fb).count();
            if rem > worst {
                worst = rem;
            }
        }
        let adj = 2 * worst + if answers.contains(g) { 0 } else { 1 };
        if adj < bestadj {
            bestadj = adj;
            besti = gi;
            bestworst = worst;
        }
    }
    (guesses[besti], bestworst)
}

#[test]
fn best_guess_matches_exhaustive_minimax() {
    let answers: Vec<&str> = CORPUS.to_vec();
    let guesses: Vec<&str> = CORPUS.to_vec();
    let boards = vec![answers.clone()];
    let (bg, bw) = brute_best(&answers, &guesses);
    let (g, w) = best_guess(&boards, &guesses).unwrap();
    assert_eq!(g, bg);
    assert_eq!(w, bw);
}

#[test]
fn best_guess_on_narrowed_board() {
    let answers = vec!["moral", "lunar", "solar"];
    let guesses: Vec<&str> = CORPUS.to_vec();
    let boards = vec![answers.clone()];
    let (bg, bw) = brute_best(&answers, &guesses);
    let (g, w) = best_guess(&boards, &guesses).unwrap();
    assert_eq!((g, w), (bg, bw));
}

#[test]
fn best_guess_single_candidate_guesses_it() {
    let boards = vec![vec!["crane"]];
    let guesses: Vec<&str> = CORPUS.to_vec();
    let (g, w) = best_guess(&boards, &guesses).unwrap();
    assert_eq!(g, "crane");
    assert_eq!(w, 1);
}

#[test]
fn best_guess_empty_inputs_give_no_guess() {
    let guesses: Vec<&str> = CORPUS.to_vec();
    assert!(best_guess(&vec![Vec::new()], &guesses).is_none());
    assert!(best_guess(&vec![vec!["crane"]], &[]).is_none());
}

#[test]
fn best_guess_is_deterministic_across_pools() {
    let answers: Vec<&str> = CORPUS.to_vec();
    let guesses: Vec<&str> = CORPUS.to_vec();
    let boards = vec![answers.clone(), answers.clone()];
    let first = best_guess(&boards, &guesses).unwrap();
    let again = best_guess(&boards, &guesses).unwrap();
    assert_eq!(first, again);
    for threads in [1usize, 4] {
        let pool = rayon::ThreadPoolBuilder::new().num_threads(threads).build().unwrap();
        let there = pool.install(|| best_guess(&boards, &guesses).unwrap());
        assert_eq!(there, first);
    }
}

#[test]
fn two_board_worst_case_sums_boards() {
    // With two identical one-candidate boards, the only adversary choice
    // leaves one candidate on each board.
    let boards = vec![vec!["crane"], vec!["crane"]];
    let guesses = vec!["crane", "slate"];
    let (g, w) = best_guess(&boards, &guesses).unwrap();
    assert_eq!(g, "crane");
    assert_eq!(w, 2);
}

#[test]
fn sim_one_terminates_for_every_answer() {
    let corpus: Vec<&str> = CORPUS.to_vec();
    let guesses: Vec<&str> = CORPUS.to_vec();
    for answer in &corpus {
        let rounds = sim_one(&corpus, &[answer], "slate", &guesses).unwrap();
        assert!(rounds >= 1);
        assert!(rounds <= corpus.len() + 1);
    }
}

#[test]
fn sim_one_two_boards_terminates() {
    let corpus: Vec<&str> = CORPUS.to_vec();
    let guesses: Vec<&str> = CORPUS.to_vec();
    let rounds = sim_one(&corpus, &["moral", "cling"], "slate", &guesses).unwrap();
    assert!((2..=2 * corpus.len() + 1).contains(&rounds));
}

#[test]
fn sim_one_opening_hit_single_round() {
    let corpus: Vec<&str> = CORPUS.to_vec();
    let guesses: Vec<&str> = CORPUS.to_vec();
    assert_eq!(sim_one(&corpus, &["slate"], "slate", &guesses), Some(1));
}

#[test]
fn fullsim_stats_match_recomputation() {
    let corpus: Vec<&str> = CORPUS.to_vec();
    let guesses: Vec<&str> = CORPUS.to_vec();
    let cases = single_cases(&corpus);
    let st = fullsim(&corpus, &cases, "slate", &guesses).unwrap();
    assert_eq!(st.rounds.len(), corpus.len());
    for (i, answer) in corpus.iter().enumerate() {
        assert_eq!(sim_one(&corpus, &[answer], "slate", &guesses), Some(st.rounds[i]));
    }
    let total: u64 = st.rounds.iter().map(|&n| n as u64).sum();
    let worst: usize = st.rounds.iter().copied().max().unwrap();
    assert_eq!(st.total, total);
    assert_eq!(st.worst, worst);
    assert_eq!(st.hist.len(), worst + 1);
    for k in 0..st.hist.len() {
        assert_eq!(st.hist[k], st.rounds.iter().filter(|&&n| n == k).count());
    }
}

#[test]
fn fullsim_pairs_on_tiny_corpus() {
    let corpus = vec!["moral", "lunar", "cling"];
    let guesses: Vec<&str> = CORPUS.to_vec();
    let cases = pair_cases(&corpus);
    assert_eq!(cases.len(), 3);
    assert_eq!(cases[0], vec!["moral", "lunar"]);
    assert_eq!(cases[1], vec!["moral", "cling"]);
    assert_eq!(cases[2], vec!["lunar", "cling"]);
    let st = fullsim(&corpus, &cases, "slate", &guesses).unwrap();
    assert_eq!(st.rounds.len(), 3);
    assert!(st.rounds.iter().all(|&n| n >= 2));
}

#[test]
fn single_cases_cover_corpus_in_order() {
    let corpus = vec!["moral", "lunar"];
    let cases = single_cases(&corpus);
    assert_eq!(cases, vec![vec!["moral"], vec!["lunar"]]);
}

#[test]
fn full_corpus_scenario_best_guess_consistent() {
    // From the whole (test) corpus, the selected guess's reported worst
    // case must equal the exhaustive worst case over that corpus.
    let answers: Vec<&str> = CORPUS.to_vec();
    let guesses: Vec<&str> = CORPUS.to_vec();
    let boards = vec![answers.clone()];
    let (g, w) = best_guess(&boards, &guesses).unwrap();
    let fbmax = answers
        .iter()
        .map(|a| {
            let fb = score(a, g);
            answers.iter().filter(|x| score(x, g) == fb).count()
        })
        .max()
        .unwrap();
    assert_eq!(w, fbmax);
}
