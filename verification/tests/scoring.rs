use wordle::{histo, maybe_prune, parse_guess, parse_result, score, word_eq, Color};

#[test]
fn lib_test_score() {
    assert_eq!(
        score("solar", "taser"),
        [Color::GREY, Color::YELLOW, Color::YELLOW, Color::GREY, Color::GREEN]
    );
    assert_eq!(
        score("solar", "cling"),
        [Color::GREY, Color::YELLOW, Color::GREY, Color::GREY, Color::GREY]
    );
}

#[test]
fn main_test_score() {
    assert_eq!(
        score("solar", "taser"),
        [Color::GREY, Color::YELLOW, Color::YELLOW, Color::GREY, Color::GREEN]
    );
    assert_eq!(
        score("solar", "cling"),
        [Color::GREY, Color::YELLOW, Color::GREY, Color::GREY, Color::GREY]
    );
}

#[test]
fn score_self_match_is_all_green() {
    for w in ["solar", "taser", "cling", "abbey", "eeeee"] {
        assert_eq!(score(w, w), [Color::GREEN; 5]);
    }
}

#[test]
fn score_duplicate_letters() {
    // The answer's single 'e' is consumed by the green at the end, so the
    // earlier 'e's of the guess stay grey.
    assert_eq!(
        score("abide", "eerie"),
        [Color::GREY, Color::GREY, Color::GREY, Color::YELLOW, Color::GREEN]
    );
    // Green consumes before yellow: the answer's only 'l' goes to the
    // matching position, and the other 'l' stays grey.
    assert_eq!(
        score("aloft", "llama"),
        [Color::GREY, Color::GREEN, Color::YELLOW, Color::GREY, Color::GREY]
    );
}

#[test]
fn histo_counts_and_absence() {
    let h = histo(b"abbey");
    assert_eq!(h[0], 1); // a
    assert_eq!(h[1], 2); // b
    assert_eq!(h[4], 1); // e
    assert_eq!(h[24], 1); // y
    assert_eq!(h[2], -1); // c absent
    assert_eq!(h[25], -1); // z absent
    let h2 = histo(b"eeeee");
    assert_eq!(h2[4], 5);
    assert_eq!(h2[0], -1);
}

#[test]
fn parse_guess_accepts_words_only() {
    assert_eq!(parse_guess("crane"), Some(*b"crane"));
    assert_eq!(parse_guess("cran"), None);
    assert_eq!(parse_guess("cranes"), None);
    assert_eq!(parse_guess("CRANE"), None);
    assert_eq!(parse_guess("cr4ne"), None);
    assert_eq!(parse_guess(""), None);
}

#[test]
fn parse_result_reads_digits() {
    assert_eq!(
        parse_result("01210"),
        Some([Color::GREY, Color::YELLOW, Color::GREEN, Color::YELLOW, Color::GREY])
    );
    assert_eq!(parse_result("22222"), Some([Color::GREEN; 5]));
    assert_eq!(parse_result("0121"), None);
    assert_eq!(parse_result("012103"), None);
    assert_eq!(parse_result("01213x"), None);
    assert_eq!(parse_result("0121x"), None);
    assert_eq!(parse_result("01243"), None);
}

#[test]
fn word_eq_compares_letters() {
    assert!(word_eq("crane", "crane"));
    assert!(!word_eq("crane", "crate"));
}

fn feedback_digits(fb: &[Color; 5]) -> String {
    fb.iter()
        .map(|c| match c {
            Color::GREY => '0',
            Color::YELLOW => '1',
            Color::GREEN => '2',
        })
        .collect()
}

#[test]
fn prune_is_sound_and_complete() {
    let answers = vec!["solar", "taser", "cling", "crane", "slate", "lunar"];
    // The true answer is "solar" and we guess "taser".
    let fb = score("solar", "taser");
    let digits = feedback_digits(&fb);
    let rem = maybe_prune(&answers, Some("taser"), Some(&digits)).unwrap();
    // Soundness: the true answer survives.
    assert!(rem.contains(&"solar"));
    // Completeness: every survivor would have produced this feedback.
    for w in &rem {
        assert_eq!(score(w, "taser"), fb);
    }
    // And no dropped word would have.
    for w in &answers {
        if !rem.contains(w) {
            assert_ne!(score(w, "taser"), fb);
        }
    }
}

#[test]
fn prune_rejects_malformed_input() {
    let answers = vec!["solar", "taser"];
    assert!(maybe_prune(&answers, None, Some("00000")).is_none());
    assert!(maybe_prune(&answers, Some("taser"), None).is_none());
    assert!(maybe_prune(&answers, Some("tasers"), Some("00000")).is_none());
    assert!(maybe_prune(&answers, Some("taser"), Some("0000x")).is_none());
}

#[test]
fn prune_order_does_not_matter() {
    let answers =
        vec!["solar", "taser", "cling", "crane", "slate", "lunar", "spore", "abide", "moral"];
    let fb1 = feedback_digits(&score("moral", "taser"));
    let fb2 = feedback_digits(&score("moral", "cling"));
    let a = maybe_prune(&answers, Some("taser"), Some(&fb1)).unwrap();
    let ab = maybe_prune(&a, Some("cling"), Some(&fb2)).unwrap();
    let b = maybe_prune(&answers, Some("cling"), Some(&fb2)).unwrap();
    let ba = maybe_prune(&b, Some("taser"), Some(&fb1)).unwrap();
    assert_eq!(ab, ba);
    assert!(ab.contains(&"moral"));
}

#[test]
fn answer_iterator_yields_in_order() {
    let answers = ["solar", "molar", "taser", "lunar"];
    let histos = wordle::make_histos(&answers);
    let guess = parse_guess("polar").unwrap();
    // The answer is "solar": p grey, o/l/a/r green.
    let result = score("solar", "polar");
    let mut it = wordle::AnswerIterator::prune(&answers, &histos, guess, result);
    let mut seen = Vec::new();
    while let Some(w) = it.next() {
        seen.push(w);
    }
    assert_eq!(seen, vec!["solar", "molar"]);
}
