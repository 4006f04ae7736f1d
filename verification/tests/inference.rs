use chatclm::backend::clm_model::ClmModel;
use chatclm::backend::ensemble_model::EnsembleModel;
use chatclm::backend::ensemble_model::cheapest_with;
use chatclm::backend::inference::Inference;
use chatclm::backend::predictor::best_after_trials;
use chatclm::backend::tokenizer::ClmTokenizer;
use chatclm::backend::{random_tokens, Token, MAX_TOKEN};
use rand::rngs::StdRng;
use rand::SeedableRng;

fn letters() -> ClmTokenizer {
    ClmTokenizer::new_custom(6)
}

fn two_members() -> EnsembleModel {
    let first = ClmModel::with_tokenizer(Vec::new(), letters()).unwrap();
    let second =
        ClmModel::with_tokenizer(vec![0u8, 0, 0, 0, 0, 0, 0, 2], letters()).unwrap();
    EnsembleModel::from_models(vec![first, second]).unwrap()
}

#[test]
fn inference_keeps_the_size_of_what_it_has() {
    let ensemble = two_members();
    let prompt: Vec<Token> = vec![1, 2, 3];
    let mut inference = Inference::start(&ensemble, prompt.clone(), 4).unwrap();
    assert_eq!(inference.get_tokens(), &prompt);
    assert_eq!(inference.get_remaining(), 4);
    assert_eq!(inference.get_candidates().len(), 0);
    assert_eq!(
        inference.get_size_before(),
        ensemble.compressed_size(&prompt).unwrap().total
    );
    let mut expected = prompt.clone();
    while !inference.is_done() {
        inference.score(3).unwrap();
        assert_eq!(inference.get_candidates().len(), 3);
        let chosen = inference.get_candidates()[1];
        assert!(inference.take_candidate(1));
        expected.push(chosen.0);
        assert_eq!(inference.get_tokens(), &expected);
        assert_eq!(inference.get_size_before(), chosen.1);
        assert_eq!(
            inference.get_size_before(),
            ensemble.compressed_size(&expected).unwrap().total
        );
        assert_eq!(inference.get_candidates().len(), 0);
    }
    assert_eq!(expected.len(), 7);
    assert_eq!(inference.get_remaining(), 0);
}

#[test]
fn inference_takes_only_candidates_that_are_there() {
    let ensemble = two_members();
    let mut inference = Inference::start(&ensemble, vec![], 1).unwrap();
    assert!(!inference.take_candidate(0));
    inference.score(2).unwrap();
    assert!(!inference.take_candidate(2));
    assert_eq!(inference.get_candidates().len(), 2);
    assert_eq!(inference.get_tokens().len(), 0);
    assert!(inference.take_candidate(0));
    assert!(inference.is_done());
    inference.score(2).unwrap();
    assert!(!inference.take_candidate(0));
    assert_eq!(inference.get_tokens().len(), 1);
    assert_eq!(inference.get_candidates().len(), 2);
}

#[test]
fn inference_scores_the_whole_vocabulary_when_asked_for_more() {
    let ensemble = two_members();
    let mut inference = Inference::start(&ensemble, vec![5, 4], 1).unwrap();
    inference.score(100).unwrap();
    let candidates = inference.get_candidates().clone();
    assert_eq!(candidates.len(), 6);
    let mut tokens: Vec<Token> = candidates.iter().map(|x| x.0).collect();
    tokens.sort();
    assert_eq!(tokens, vec![0, 1, 2, 3, 4, 5]);
    assert!(candidates.windows(2).all(|w| w[0].1 <= w[1].1));
    for (token, size) in candidates {
        assert_eq!(size, ensemble.candidate_size(&vec![5, 4], token).unwrap());
    }
}

#[test]
fn best_after_trials_is_the_first_with_the_least_size() {
    let sorted: Vec<(Token, usize)> = vec![(7, 10), (3, 11), (9, 12), (1, 13)];
    assert_eq!(best_after_trials(&sorted, &vec![]), (0, usize::MAX));
    assert_eq!(best_after_trials(&sorted, &vec![(5, 20), (5, 20), (5, 20)]), (7, 20));
    assert_eq!(best_after_trials(&sorted, &vec![(5, 20), (6, 19), (5, 19)]), (3, 19));
    assert_eq!(best_after_trials(&sorted, &vec![(5, 20), (6, 21), (5, 18), (2, 18)]), (9, 18));
    assert_eq!(
        best_after_trials(&sorted, &vec![(5, usize::MAX), (6, usize::MAX)]),
        (0, usize::MAX)
    );
}

#[test]
fn next_token_size_is_the_size_with_the_token() {
    let model = ClmModel::untrained();
    let prompt: Vec<Token> = vec![10, 20, 30];
    assert_eq!(
        model.next_token_size(&prompt, 40).unwrap(),
        model.compress(&vec![10, 20, 30, 40]).unwrap().len()
    );
    assert_eq!(
        model.next_token_size(&vec![], 0).unwrap(),
        model.compress(&vec![0]).unwrap().len()
    );
}

#[test]
fn random_tokens_stay_below_the_largest_token() {
    let tokens = random_tokens(1000);
    assert_eq!(tokens.len(), 1000);
    assert!(tokens.iter().all(|t| *t < MAX_TOKEN));
    assert!(tokens.iter().any(|t| *t != tokens[0]));
    assert_eq!(random_tokens(0).len(), 0);
}

#[test]
fn same_seed_gives_the_same_order_among_ties() {
    let candidates: Vec<(Token, usize)> = (0..200).map(|t| (t, 5 + t % 3)).collect();
    let mut first = StdRng::seed_from_u64(17);
    let mut second = StdRng::seed_from_u64(17);
    let mut other = StdRng::seed_from_u64(18);
    let a = cheapest_with(candidates.clone(), 50, &mut first);
    let b = cheapest_with(candidates.clone(), 50, &mut second);
    let c = cheapest_with(candidates.clone(), 50, &mut other);
    assert_eq!(a, b);
    assert_ne!(a, c);
    assert!(a.iter().all(|x| x.1 == 5));
    let again = cheapest_with(candidates.clone(), 50, &mut first);
    assert_ne!(a, again);
}

#[test]
fn same_seed_gives_the_same_prediction() {
    let model = ClmModel::with_tokenizer(Vec::new(), letters()).unwrap();
    let prompt: Vec<Token> = vec![1, 2, 3];
    let answers = |seed: u64| -> Vec<(Token, usize)> {
        let mut rng = StdRng::seed_from_u64(seed);
        (0..20).map(|_| model.predict_tokens_with(&prompt, 1, 2, &mut rng).unwrap()).collect()
    };
    assert_eq!(answers(5), answers(5));
    let extended = |seed: u64| -> Vec<Vec<Token>> {
        let mut rng = StdRng::seed_from_u64(seed);
        (0..10)
            .map(|_| model.append_predicted_with(prompt.clone(), 0, 0, &mut rng).unwrap())
            .collect()
    };
    assert_eq!(extended(9), extended(9));
}

#[test]
fn same_seed_gives_the_same_inference() {
    let ensemble = two_members();
    let run = |seed: u64| -> Vec<Token> {
        let mut rng = StdRng::seed_from_u64(seed);
        let mut inference = Inference::start(&ensemble, vec![1, 2], 6).unwrap();
        while !inference.is_done() {
            inference.score_with(4, &mut rng).unwrap();
            assert!(inference.take_candidate(3));
        }
        inference.get_tokens().clone()
    };
    assert_eq!(run(3), run(3));
    assert_eq!(run(3).len(), 8);
}
