use cribbage_score::card::Card;
use cribbage_score::detect::{detect_fifteens, detect_pairs, detect_thirty_ones};
use cribbage_score::finding::{Finding, Scoring};
use cribbage_score::hand::{Hand, ParseError};
use cribbage_score::report::{aggregate, score_hand, Report};
use cribbage_score::runs::detect_runs;
use cribbage_score::catalog::subsets_of_size;

fn hand_of(tokens: &[&str]) -> Hand {
    let owned: Vec<String> = tokens.iter().map(|t| t.to_string()).collect();
    Hand::from_tokens(&owned).expect("valid hand")
}

fn listed(report: &Report) -> Vec<(Scoring, Vec<usize>, u64)> {
    report
        .findings
        .iter()
        .zip(report.totals.iter())
        .map(|(f, t)| (f.kind, f.positions.clone(), *t))
        .collect()
}

fn kinds_and_positions(fs: &[Finding]) -> Vec<(Scoring, Vec<usize>)> {
    fs.iter().map(|f| (f.kind, f.positions.clone())).collect()
}

#[test]
fn pair_of_fives_with_court_cards() {
    let report = score_hand(&hand_of(&["5", "5", "J", "Q", "K"]));
    assert_eq!(
        listed(&report),
        vec![
            (Scoring::Pair, vec![0, 1], 2),
            (Scoring::Run, vec![2, 3, 4], 5),
            (Scoring::Fifteen, vec![0, 2], 7),
            (Scoring::Fifteen, vec![0, 3], 9),
            (Scoring::Fifteen, vec![0, 4], 11),
            (Scoring::Fifteen, vec![1, 2], 13),
            (Scoring::Fifteen, vec![1, 3], 15),
            (Scoring::Fifteen, vec![1, 4], 17),
        ]
    );
    assert_eq!(report.total(), 17);
}

#[test]
fn ace_to_five_is_one_run_and_a_full_fifteen() {
    let report = score_hand(&hand_of(&["A", "2", "3", "4", "5"]));
    assert_eq!(
        listed(&report),
        vec![
            (Scoring::Run, vec![0, 1, 2, 3, 4], 5),
            (Scoring::Fifteen, vec![0, 1, 2, 3, 4], 7),
            (Scoring::ThirtyOne, vec![0, 1, 2, 3, 4], 9),
        ]
    );
    assert_eq!(report.total(), 9);
}

#[test]
fn consecutive_hand_in_any_order_is_one_run_of_five() {
    let runs = detect_runs(&hand_of(&["7", "3", "5", "4", "6"]));
    assert_eq!(kinds_and_positions(&runs), vec![(Scoring::Run, vec![0, 1, 2, 3, 4])]);
    assert_eq!(runs[0].points(), 5);
}

#[test]
fn run_of_four_suppresses_runs_of_three() {
    let runs = detect_runs(&hand_of(&["2", "3", "4", "5", "9"]));
    assert_eq!(kinds_and_positions(&runs), vec![(Scoring::Run, vec![0, 1, 2, 3])]);
    assert_eq!(runs[0].points(), 4);
    let runs = detect_runs(&hand_of(&["6", "3", "4", "5", "6"]));
    assert_eq!(kinds_and_positions(&runs), vec![(Scoring::Run, vec![0, 1, 2, 3])]);
}

#[test]
fn runs_of_three() {
    let runs = detect_runs(&hand_of(&["3", "K", "4", "9", "5"]));
    assert_eq!(kinds_and_positions(&runs), vec![(Scoring::Run, vec![0, 2, 4])]);
    assert_eq!(runs[0].points(), 3);
    let runs = detect_runs(&hand_of(&["J", "Q", "K", "2", "3"]));
    assert_eq!(kinds_and_positions(&runs), vec![(Scoring::Run, vec![0, 1, 2])]);
    let runs = detect_runs(&hand_of(&["J", "Q", "9", "2", "3"]));
    assert!(runs.is_empty());
}

#[test]
fn duplicate_ranks_break_a_run() {
    let runs = detect_runs(&hand_of(&["3", "3", "4", "5", "9"]));
    assert_eq!(kinds_and_positions(&runs), vec![(Scoring::Run, vec![1, 2, 3])]);
    let runs = detect_runs(&hand_of(&["A", "A", "3", "3", "5"]));
    assert!(runs.is_empty());
}

#[test]
fn four_of_a_kind_gives_six_pairs() {
    let pairs = detect_pairs(&hand_of(&["5", "5", "5", "5", "10"]));
    assert_eq!(
        kinds_and_positions(&pairs),
        vec![
            (Scoring::Pair, vec![0, 1]),
            (Scoring::Pair, vec![0, 2]),
            (Scoring::Pair, vec![0, 3]),
            (Scoring::Pair, vec![1, 2]),
            (Scoring::Pair, vec![1, 3]),
            (Scoring::Pair, vec![2, 3]),
        ]
    );
}

#[test]
fn court_cards_pair_only_with_their_own_rank() {
    let pairs = detect_pairs(&hand_of(&["J", "Q", "K", "10", "j"]));
    assert_eq!(kinds_and_positions(&pairs), vec![(Scoring::Pair, vec![0, 4])]);
}

#[test]
fn fifteens_of_every_size() {
    let fifteens = detect_fifteens(&hand_of(&["5", "5", "5", "5", "10"]));
    assert_eq!(
        kinds_and_positions(&fifteens),
        vec![
            (Scoring::Fifteen, vec![0, 4]),
            (Scoring::Fifteen, vec![1, 4]),
            (Scoring::Fifteen, vec![2, 4]),
            (Scoring::Fifteen, vec![3, 4]),
            (Scoring::Fifteen, vec![0, 1, 2]),
            (Scoring::Fifteen, vec![0, 1, 3]),
            (Scoring::Fifteen, vec![0, 2, 3]),
            (Scoring::Fifteen, vec![1, 2, 3]),
        ]
    );
    let fifteens = detect_fifteens(&hand_of(&["A", "2", "3", "4", "5"]));
    assert_eq!(kinds_and_positions(&fifteens), vec![(Scoring::Fifteen, vec![0, 1, 2, 3, 4])]);
    let fifteens = detect_fifteens(&hand_of(&["2", "3", "4", "6", "K"]));
    assert_eq!(
        kinds_and_positions(&fifteens),
        vec![
            (Scoring::Fifteen, vec![0, 1, 4]),
            (Scoring::Fifteen, vec![0, 1, 2, 3]),
        ]
    );
}

#[test]
fn thirty_one_from_four_cards() {
    let thirties = detect_thirty_ones(&hand_of(&["10", "J", "Q", "A", "5"]));
    assert_eq!(kinds_and_positions(&thirties), vec![(Scoring::ThirtyOne, vec![0, 1, 2, 3])]);
    assert_eq!(thirties[0].points(), 2);
}

#[test]
fn thirty_one_from_the_whole_hand() {
    let thirties = detect_thirty_ones(&hand_of(&["A", "10", "10", "5", "5"]));
    assert_eq!(kinds_and_positions(&thirties), vec![(Scoring::ThirtyOne, vec![0, 1, 2, 3, 4])]);
}

#[test]
fn hand_with_nothing_scores_nothing() {
    let report = score_hand(&hand_of(&["A", "3", "7", "9", "K"]));
    assert!(report.findings.is_empty());
    assert!(report.totals.is_empty());
    assert_eq!(report.total(), 0);
}

#[test]
fn arrival_order_does_not_change_the_report() {
    let hand = hand_of(&["5", "5", "J", "Q", "K"]);
    let mut mixed = detect_thirty_ones(&hand);
    mixed.extend(detect_fifteens(&hand));
    mixed.extend(detect_runs(&hand));
    mixed.extend(detect_pairs(&hand));
    let gathered = aggregate(mixed);
    assert_eq!(listed(&gathered), listed(&score_hand(&hand)));
}

#[test]
fn rescoring_gives_the_same_report() {
    let hand = hand_of(&["4", "6", "5", "5", "J"]);
    let first = score_hand(&hand);
    let second = score_hand(&hand);
    assert_eq!(listed(&first), listed(&second));
    assert!(!first.findings.is_empty());
}

#[test]
fn totals_are_running_sums_of_points() {
    let report = score_hand(&hand_of(&["4", "6", "5", "5", "J"]));
    let mut sum: u64 = 0;
    for (f, t) in report.findings.iter().zip(report.totals.iter()) {
        sum += f.points() as u64;
        assert_eq!(*t, sum);
    }
    assert_eq!(report.total(), sum);
}

#[test]
fn tokens_name_cards() {
    assert_eq!(Card::from_token("A"), Some(Card::Ace));
    assert_eq!(Card::from_token("a"), Some(Card::Ace));
    assert_eq!(Card::from_token("k"), Some(Card::King));
    assert_eq!(Card::from_token("Q"), Some(Card::Queen));
    assert_eq!(Card::from_token("j"), Some(Card::Jack));
    assert_eq!(Card::from_token("2"), Some(Card::Number(2)));
    assert_eq!(Card::from_token("10"), Some(Card::Number(10)));
    assert_eq!(Card::from_token("+7"), Some(Card::Number(7)));
    assert_eq!(Card::from_token("07"), Some(Card::Number(7)));
}

#[test]
fn bad_tokens_name_no_card() {
    for t in ["", "1", "0", "11", "255", "300", "x", "AA", "1a", "+", "-3", "Jack"] {
        assert_eq!(Card::from_token(t), None, "token {t:?}");
    }
}

#[test]
fn card_text_reads_back() {
    let cards = [
        Card::Ace,
        Card::King,
        Card::Queen,
        Card::Jack,
        Card::Number(2),
        Card::Number(9),
        Card::Number(10),
    ];
    let texts = ["A", "K", "Q", "J", "2", "9", "10"];
    for (c, t) in cards.iter().zip(texts.iter()) {
        assert_eq!(c.to_display(), *t);
        assert_eq!(Card::from_token(c.to_display()), Some(*c));
    }
}

#[test]
fn card_values() {
    assert_eq!(Card::Ace.into_u8_cribbage(), 1);
    assert_eq!(Card::King.into_u8_cribbage(), 10);
    assert_eq!(Card::Number(7).into_u8_cribbage(), 7);
    assert_eq!(Card::Ace.into_u8_normal(), 1);
    assert_eq!(Card::Jack.into_u8_normal(), 11);
    assert_eq!(Card::Queen.into_u8_normal(), 12);
    assert_eq!(Card::King.into_u8_normal(), 13);
    assert_eq!(Card::Number(10).into_u8_normal(), 10);
}

#[test]
fn missing_tokens_are_reported() {
    let tokens: Vec<String> = vec!["A".into(), "2".into(), "3".into()];
    assert!(matches!(Hand::from_tokens(&tokens), Err(ParseError::MissingArgument)));
    assert!(matches!(Hand::from_tokens(&Vec::new()), Err(ParseError::MissingArgument)));
}

#[test]
fn first_bad_token_is_reported() {
    let tokens: Vec<String> = ["A", "2", "Z", "1", "5"].iter().map(|t| t.to_string()).collect();
    assert!(matches!(Hand::from_tokens(&tokens), Err(ParseError::InvalidCardToken(2))));
    let tokens: Vec<String> = ["A", "x"].iter().map(|t| t.to_string()).collect();
    assert!(matches!(Hand::from_tokens(&tokens), Err(ParseError::InvalidCardToken(1))));
}

#[test]
fn extra_tokens_are_ignored() {
    let tokens: Vec<String> = ["A", "2", "3", "4", "5", "junk"].iter().map(|t| t.to_string()).collect();
    let hand = Hand::from_tokens(&tokens).expect("valid hand");
    assert_eq!(
        hand.cards,
        [Card::Ace, Card::Number(2), Card::Number(3), Card::Number(4), Card::Number(5)]
    );
}

#[test]
fn catalog_sizes_and_order() {
    assert_eq!(subsets_of_size(2).len(), 10);
    assert_eq!(subsets_of_size(3).len(), 10);
    assert_eq!(subsets_of_size(4).len(), 5);
    assert_eq!(subsets_of_size(5), vec![vec![0, 1, 2, 3, 4]]);
    let triples = subsets_of_size(3);
    for w in triples.windows(2) {
        assert!(w[0] < w[1]);
    }
    assert_eq!(triples[0], vec![0, 1, 2]);
    assert_eq!(triples[9], vec![2, 3, 4]);
}
