use chatclm::backend::clm_model::ClmModel;
use chatclm::backend::dataset::Dataset;
use chatclm::backend::ensemble_model::{cheapest, rows_in_index_order, EnsembleModel};
use chatclm::backend::tokenizer::ClmTokenizer;
use chatclm::backend::trainer::{finish_training, prepare_training};
use chatclm::backend::training_options::TrainingOptions;
use chatclm::backend::{ClmError, Token};

// The trainer that safe code can reach: zstd's own choice of parameters. The
// options decide only how the sentences are laid out and how much room there is.
fn train_one(input_tokens: &Vec<Vec<Token>>, training_options: &TrainingOptions) -> ClmModel {
    match prepare_training(input_tokens, training_options).unwrap() {
        None => ClmModel::untrained(),
        Some(input) => {
            let dictionary =
                zstd::dict::from_continuous(&input.raw_data, &input.sizes, input.capacity).unwrap();
            finish_training(&dictionary, Some(dictionary.len())).unwrap()
        }
    }
}

fn train(data: Dataset, options: &TrainingOptions) -> EnsembleModel {
    let chunks = EnsembleModel::training_chunks(&data, options).unwrap();
    let models = chunks.iter().map(|chunk| train_one(chunk.get_data(), options)).collect();
    EnsembleModel::from_models(models).unwrap()
}

fn repeated_dataset(copies: usize) -> Dataset {
    let sentence: Vec<Token> = (0..100).map(|i| (i * 7919 + 13) % 50281).collect();
    Dataset::from_data((0..copies).map(|_| sentence.clone()).collect())
}

#[test]
fn training_works() {
    let dataset = Dataset::test_dataset();

    let mut options = TrainingOptions::default();
    options.ensemble_size = 2;
    let trained_model = train(dataset, &options);

    assert_eq!(trained_model.len(), 2);
}

#[test]
fn compressed_size_improves() {
    let dataset = Dataset::test_dataset();

    let mut options = TrainingOptions::default();
    options.ensemble_size = 2;
    let trained_model = train(dataset.clone(), &options);
    let untrained_model = train(Dataset::empty(), &options);

    let trained_size = trained_model.compressed_size(&dataset.get_data()[0]).unwrap();
    let naive_size = untrained_model.compressed_size(&dataset.get_data()[0]).unwrap();

    let trained_size = trained_size.total as f64 / trained_size.count as f64;
    let naive_size = naive_size.total as f64 / naive_size.count as f64;
    println!("Trained size: {}", trained_size);
    println!("Naive size: {}", naive_size);
    assert!(trained_size < naive_size);
}

#[test]
fn save_and_load_ensemble_model() {
    let dataset = Dataset::test_dataset();

    let mut options = TrainingOptions::default();
    options.ensemble_size = 2;
    let trained_model = train(dataset, &options);

    let stored = trained_model.to_rows();

    let loaded_model = EnsembleModel::from_rows(&stored).unwrap();

    assert_eq!(trained_model.len(), loaded_model.len());
    assert_eq!(trained_model.to_rows()[0].1.len(), loaded_model.to_rows()[0].1.len());
    assert_eq!(trained_model.to_rows(), loaded_model.to_rows());
}

#[test]
fn ensemble_size_is_respected_and_the_size_is_the_mean() {
    let sentence = repeated_dataset(20).get_data()[0].clone();
    let mut options = TrainingOptions::default();
    options.ensemble_size = 2;
    let ensemble = train(repeated_dataset(20), &options);
    let stored = ensemble.to_rows();
    assert_eq!(stored.len(), 2);
    assert_eq!((stored[0].0, stored[1].0), (0, 1));
    let first = ClmModel::from_buffer(stored[0].1.clone()).unwrap();
    let second = ClmModel::from_buffer(stored[1].1.clone()).unwrap();
    let mean = ensemble.compressed_size(&sentence).unwrap();
    assert_eq!(mean.count, 2);
    assert_eq!(
        mean.total,
        first.compress(&sentence).unwrap().len() + second.compress(&sentence).unwrap().len()
    );
}

#[test]
fn empty_dataset_gives_untrained_members() {
    let mut options = TrainingOptions::default();
    options.ensemble_size = 3;
    let chunks = EnsembleModel::training_chunks(&Dataset::empty(), &options).unwrap();
    assert_eq!(chunks.len(), 3);
    assert!(chunks.iter().all(|c| c.len() == 0));
    let ensemble = train(Dataset::empty(), &options);
    assert_eq!(ensemble.len(), 3);
    assert!(ensemble.to_rows().iter().all(|row| row.1.is_empty()));
}

#[test]
fn training_chunks_follow_the_dataset() {
    let dataset = Dataset::from_data((0..7).map(|i| vec![i as Token; 3]).collect());
    let mut options = TrainingOptions::default();
    options.ensemble_size = 3;
    let chunks = EnsembleModel::training_chunks(&dataset, &options).unwrap();
    let sizes: Vec<usize> = chunks.iter().map(|c| c.len()).collect();
    assert_eq!(sizes, vec![3, 3, 1]);
    assert_eq!(chunks[2].get_data(), &vec![vec![6, 6, 6]]);
    options.ensemble_size = 6;
    let chunks = EnsembleModel::training_chunks(&dataset, &options).unwrap();
    let sizes: Vec<usize> = chunks.iter().map(|c| c.len()).collect();
    assert_eq!(sizes, vec![2, 2, 2, 1, 0, 0]);
    assert_eq!(train_one(chunks[5].get_data(), &options).get_dictionary_size(), 0);
}

#[test]
fn ensemble_without_members_is_refused() {
    let mut options = TrainingOptions::default();
    options.ensemble_size = 0;
    assert!(matches!(
        EnsembleModel::training_chunks(&Dataset::test_dataset(), &options),
        Err(ClmError::InvalidOptions)
    ));
    assert!(matches!(
        EnsembleModel::training_chunks(&Dataset::empty(), &options),
        Err(ClmError::InvalidOptions)
    ));
    assert!(matches!(EnsembleModel::from_models(Vec::new()), Err(ClmError::InvalidOptions)));
    assert!(matches!(EnsembleModel::from_buffers(&Vec::new()), Err(ClmError::InvalidOptions)));
    assert!(matches!(EnsembleModel::from_rows(&Vec::new()), Err(ClmError::Parse)));
}

#[test]
fn member_with_a_corrupt_dictionary_is_refused() {
    let mut corrupt = vec![0x37, 0xa4, 0x30, 0xec];
    corrupt.extend(vec![0xffu8; 64]);
    assert!(matches!(
        EnsembleModel::from_buffers(&vec![Vec::new(), corrupt.clone()]),
        Err(ClmError::CorruptModel)
    ));
    assert!(matches!(
        EnsembleModel::from_rows(&vec![(0, corrupt), (1, Vec::new())]),
        Err(ClmError::CorruptModel)
    ));
}

#[test]
fn rows_are_read_in_index_order() {
    let rows = vec![(2usize, vec![2u8; 4]), (0, vec![0u8; 3]), (1, vec![1u8; 5])];
    let ordered = rows_in_index_order(&rows);
    assert_eq!(ordered, vec![(0usize, vec![0u8; 3]), (1, vec![1u8; 5]), (2, vec![2u8; 4])]);
    let ensemble = EnsembleModel::from_rows(&rows).unwrap();
    assert_eq!(ensemble.to_rows(), ordered);
    let with_gap = vec![(7usize, vec![7u8; 2]), (3, vec![3u8; 2])];
    assert_eq!(
        EnsembleModel::from_rows(&with_gap).unwrap().to_rows(),
        vec![(0usize, vec![3u8; 2]), (1, vec![7u8; 2])]
    );
    let same_index = vec![(1usize, vec![1u8]), (1, vec![2u8]), (0, vec![3u8])];
    assert_eq!(
        rows_in_index_order(&same_index),
        vec![(0usize, vec![3u8]), (1, vec![1u8]), (1, vec![2u8])]
    );
}

#[test]
fn cheapest_keeps_the_smallest_sizes_in_order() {
    let candidates: Vec<(Token, usize)> =
        vec![(0, 50), (1, 20), (2, 70), (3, 20), (4, 10), (5, 60)];
    let top = cheapest(candidates.clone(), 3);
    assert_eq!(top[0], (4, 10));
    assert_eq!(top.iter().map(|x| x.1).collect::<Vec<_>>(), vec![10, 20, 20]);
    let mut tied: Vec<Token> = top[1..].iter().map(|x| x.0).collect();
    tied.sort();
    assert_eq!(tied, vec![1, 3]);
    assert_eq!(cheapest(candidates.clone(), 0), vec![]);
    let all = cheapest(candidates.clone(), 10);
    assert_eq!(all.len(), 6);
    assert_eq!(all.iter().map(|x| x.1).collect::<Vec<_>>(), vec![10, 20, 20, 50, 60, 70]);
}

#[test]
fn cheapest_breaks_ties_at_random() {
    let candidates: Vec<(Token, usize)> = (0..64).map(|t| (t, 5)).collect();
    let mut seen = std::collections::HashSet::new();
    for _ in 0..50 {
        seen.insert(cheapest(candidates.clone(), 1)[0].0);
    }
    assert!(seen.len() >= 2);
}

#[test]
fn candidate_sizes_add_the_members_up() {
    let tokenizer = ClmTokenizer::new_custom(8);
    let first = ClmModel::with_tokenizer(Vec::new(), tokenizer.clone()).unwrap();
    let second = ClmModel::with_tokenizer(vec![0u8, 0, 0, 0, 0, 0, 0, 3], tokenizer).unwrap();
    let ensemble =
        EnsembleModel::from_models(vec![first.duplicate(), second.duplicate()]).unwrap();
    let prompt: Vec<Token> = vec![1, 2, 3, 1, 2, 3];
    let sizes = ensemble.candidate_sizes(&prompt).unwrap();
    assert_eq!(sizes.len(), 8);
    for (t, (token, total)) in sizes.iter().enumerate() {
        assert_eq!(*token, t);
        let mut extended = prompt.clone();
        extended.push(t);
        assert_eq!(
            *total,
            first.compress(&extended).unwrap().len() + second.compress(&extended).unwrap().len()
        );
        assert_eq!(*total, ensemble.compressed_size(&extended).unwrap().total);
    }
    let top = ensemble.top_candidates(&prompt, 3).unwrap();
    assert_eq!(top.len(), 3);
    let mut totals: Vec<usize> = sizes.iter().map(|x| x.1).collect();
    totals.sort();
    assert_eq!(top.iter().map(|x| x.1).collect::<Vec<_>>(), totals[..3].to_vec());
    for (token, total) in &top {
        assert_eq!(sizes[*token].1, *total);
    }
}

#[test]
fn sampling_from_the_top_candidates_is_not_degenerate() {
    let mut options = TrainingOptions::default();
    options.ensemble_size = 1;
    let ensemble = train(repeated_dataset(10), &options);
    let prompt: Vec<Token> = Dataset::tokenize("The quick brown fox jumps over the lazy").unwrap();
    let before = ensemble.compressed_size(&prompt).unwrap().total as f64;
    let sizes = ensemble.candidate_sizes(&prompt).unwrap();
    assert_eq!(sizes.len(), 50281);
    let mut rng = rand::thread_rng();
    let mut seen = std::collections::HashSet::new();
    for _ in 0..100 {
        let top = cheapest(sizes.clone(), 300);
        assert_eq!(top.len(), 300);
        let mut weights: Vec<f64> = top.iter().map(|x| 1.0 / (x.1 as f64 - before)).collect();
        let least = weights.iter().cloned().fold(f64::INFINITY, f64::min);
        for weight in weights.iter_mut() {
            *weight -= least;
        }
        let sum: f64 = weights.iter().sum();
        assert!(sum.is_finite() && sum > 0.0);
        let mut ticket = rand::Rng::gen_range(&mut rng, 0.0..sum);
        for (candidate, weight) in top.iter().zip(weights.iter()) {
            if ticket < *weight {
                seen.insert(candidate.0);
                break;
            }
            ticket -= weight;
        }
    }
    assert!(seen.len() >= 2);
}

#[test]
fn members_must_share_their_tokenizer() {
    let custom = ClmTokenizer::new_custom(8);
    let first = ClmModel::with_tokenizer(Vec::new(), custom.clone()).unwrap();
    let second = ClmModel::untrained();
    assert!(matches!(
        EnsembleModel::from_models(vec![first.duplicate(), second.duplicate()]),
        Err(ClmError::InvalidOptions)
    ));
    assert!(matches!(
        EnsembleModel::from_models(vec![second.duplicate(), first.duplicate()]),
        Err(ClmError::InvalidOptions)
    ));
    let third = ClmModel::with_tokenizer(vec![1u8; 8], custom).unwrap();
    assert_eq!(EnsembleModel::from_models(vec![first, third]).unwrap().len(), 2);
    assert_eq!(EnsembleModel::from_models(vec![second]).unwrap().len(), 1);
}
