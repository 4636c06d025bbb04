use wordle::{
    adversary_choice, adversary_round, best_guess, game_status, generate_hint, next_candidates,
    partition, partition_cost, partition_score, process_words, GameStatus, Hint, ScoringPolicy,
    StrategyError, Word,
};

fn word(s: &str) -> Word<5> {
    Word::<5>::parse(s).unwrap()
}

fn words(list: &[&str]) -> Vec<Word<5>> {
    list.iter().map(|s| word(s)).collect()
}

fn hint(s: &str) -> Hint<5> {
    Hint::<5>::parse(s).unwrap()
}

#[test]
fn partition_of_three_words_matches_hand_computed_buckets() {
    let dict = words(&["cigar", "rebut", "sissy"]);
    let p = partition(&dict, word("cigar"));
    assert_eq!(
        p,
        vec![
            (hint("GGGGG"), words(&["cigar"])),
            (hint("BBBBY"), words(&["rebut"])),
            (hint("BGBBB"), words(&["sissy"])),
        ]
    );
}

#[test]
fn partition_keeps_dictionary_order_within_buckets() {
    let dict = words(&["mummy", "cigar", "lumpy", "cigar", "fluff"]);
    let p = partition(&dict, word("cigar"));
    assert_eq!(
        p,
        vec![
            (hint("BBBBB"), words(&["mummy", "lumpy", "fluff"])),
            (hint("GGGGG"), words(&["cigar", "cigar"])),
        ]
    );
}

#[test]
fn partition_buckets_are_disjoint_and_cover_dictionary() {
    let dict = words(&["spoke", "spear", "boots", "ovolo", "clove", "pound", "plead", "uvula", "carat", "zooks", "kooks"]);
    let guess = word("clove");
    let p = partition(&dict, guess);
    let total: usize = p.iter().map(|b| b.1.len()).sum();
    assert_eq!(total, dict.len());
    for (i, a) in p.iter().enumerate() {
        assert!(!a.1.is_empty());
        for w in &a.1 {
            assert_eq!(generate_hint(*w, guess), a.0);
        }
        for b in p.iter().skip(i + 1) {
            assert_ne!(a.0, b.0);
            assert!(a.1.iter().all(|w| !b.1.contains(w)));
        }
    }
}

#[test]
fn partition_is_deterministic() {
    let dict = words(&["spoke", "spear", "boots", "ovolo", "clove", "pound"]);
    let first = partition(&dict, word("spoke"));
    let second = partition(&dict, word("spoke"));
    assert_eq!(first, second);
}

#[test]
fn partition_of_empty_dictionary_is_empty() {
    let p = partition(&[], word("spoke"));
    assert!(p.is_empty());
}

#[test]
fn scores_of_a_partition() {
    let dict = words(&["mummy", "cigar", "lumpy", "cigar", "fluff", "rebut"]);
    let p = partition(&dict, word("cigar"));
    // Buckets: BBBBB x3, GGGGG x2, BBBBY x1.
    assert_eq!(partition_score(&p), 9 + 4 + 1);
    assert_eq!(partition_cost(&p, ScoringPolicy::SumOfSquares), 14);
    assert_eq!(partition_cost(&p, ScoringPolicy::Minimax), 3);
}

#[test]
fn minimax_leaves_out_the_all_green_bucket() {
    let dict = words(&["cigar", "cigar", "cigar", "rebut"]);
    let p = partition(&dict, word("cigar"));
    assert_eq!(partition_cost(&p, ScoringPolicy::Minimax), 1);
    let only_win = partition(&words(&["cigar"]), word("cigar"));
    assert_eq!(partition_cost(&only_win, ScoringPolicy::Minimax), 0);
}

#[test]
fn best_guess_prefers_lower_cost() {
    let candidates = words(&["mummy", "lumpy", "fluff"]);
    // "abcde" shares no letter with them; "mujfl" tells all three apart.
    let pool = words(&["abcde", "mujfl"]);
    let (i, p) = best_guess(&pool, &candidates, ScoringPolicy::SumOfSquares).unwrap();
    assert_eq!(i, 1);
    assert_eq!(p.len(), 3);
}

#[test]
fn best_guess_prefers_a_candidate_on_equal_cost() {
    let candidates = words(&["cigar", "rebut", "sissy"]);
    let pool = words(&["humph", "cigar", "rebut"]);
    // "humph" cannot tell "cigar" from "sissy"; "cigar" and "rebut" tell all three apart.
    let (i, _) = best_guess(&pool, &candidates, ScoringPolicy::SumOfSquares).unwrap();
    assert_eq!(i, 1);
    let outside = words(&["ebrsi", "cigar"]);
    let (j, _) = best_guess(&outside, &candidates, ScoringPolicy::Minimax).unwrap();
    assert_eq!(j, 1);
}

#[test]
fn best_guess_of_empty_pool_is_none() {
    let candidates = words(&["cigar"]);
    assert!(best_guess(&[], &candidates, ScoringPolicy::Minimax).is_none());
}

#[test]
fn next_candidates_follows_the_hint() {
    let dict = words(&["cigar", "rebut", "sissy"]);
    let p = partition(&dict, word("cigar"));
    assert_eq!(next_candidates(&p, &hint("BGBBB")), Ok(words(&["sissy"])));
    assert_eq!(next_candidates(&p, &hint("YYYYY")), Err(StrategyError::InconsistentHint));
}

#[test]
fn game_status_by_candidate_count() {
    assert!(matches!(game_status::<5>(&[]), GameStatus::Contradiction));
    match game_status(&words(&["cigar"])) {
        GameStatus::Solved(w) => assert_eq!(w, word("cigar")),
        _ => panic!("expected a solved game"),
    }
    assert!(matches!(game_status(&words(&["cigar", "rebut"])), GameStatus::Active));
}

#[test]
fn solver_narrows_three_words_to_the_secret() {
    let solutions = words(&["cigar", "rebut", "sissy"]);
    let secret = word("sissy");
    let mut candidates = solutions.clone();
    let mut rounds = 0;
    loop {
        match game_status(&candidates) {
            GameStatus::Solved(w) => {
                assert_eq!(w, secret);
                break;
            }
            GameStatus::Contradiction => panic!("no candidate left"),
            GameStatus::Active => {}
        }
        assert!(rounds < 3);
        let (i, p) = best_guess(&solutions, &candidates, ScoringPolicy::SumOfSquares).unwrap();
        let h = generate_hint(secret, solutions[i]);
        candidates = next_candidates(&p, &h).unwrap();
        rounds += 1;
    }
    assert_eq!(rounds, 1);
}

#[test]
fn adversary_keeps_largest_bucket_and_avoids_the_win() {
    let dict = words(&["cigar", "rebut", "sissy"]);
    let p = partition(&dict, word("cigar"));
    assert_eq!(adversary_choice(&p), Some(1));
    let (h, kept) = adversary_round(&dict, word("cigar")).unwrap();
    assert_eq!(h, hint("BBBBY"));
    assert_eq!(kept, words(&["rebut"]));

    let crowd = words(&["mummy", "cigar", "lumpy", "fluff"]);
    let (h2, kept2) = adversary_round(&crowd, word("cigar")).unwrap();
    assert_eq!(h2, hint("BBBBB"));
    assert_eq!(kept2, words(&["mummy", "lumpy", "fluff"]));
}

#[test]
fn adversary_concedes_only_when_forced() {
    let dict = words(&["cigar"]);
    let (h, kept) = adversary_round(&dict, word("cigar")).unwrap();
    assert!(h.is_win());
    assert_eq!(kept, words(&["cigar"]));
    assert!(adversary_round(&[], word("cigar")).is_none());
    assert_eq!(adversary_choice::<5>(&[]), None);
}

#[test]
fn process_words_keeps_valid_lines() {
    let lines: Vec<String> = ["cigar", "toolong", "", "Rebut", "ab1de", "sissy"]
        .iter()
        .map(|s| s.to_string())
        .collect();
    let list = process_words::<5>(&lines);
    assert_eq!(list, words(&["cigar", "rebut", "sissy"]));
}
