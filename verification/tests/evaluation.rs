use chatclm::backend::clm_model::ClmModel;
use chatclm::backend::dataset::Dataset;
use chatclm::backend::evaluation::{Sample, SAMPLES};
use chatclm::backend::trainer::{finish_training, prepare_training};
use chatclm::backend::training_options::TrainingOptions;
use chatclm::backend::{ClmError, Token, MAX_TOKEN};
use rand::Rng;

fn draw_tokens(n: usize) -> Vec<Token> {
    let mut rng = rand::thread_rng();
    (0..n).map(|_| rng.gen_range(0..MAX_TOKEN)).collect()
}

// The trainer that safe code can reach: zstd's own choice of parameters. The
// options decide only how the sentences are laid out and how much room there is.
fn trained(input_tokens: &Vec<Vec<Token>>, training_options: &TrainingOptions) -> ClmModel {
    match prepare_training(input_tokens, training_options).unwrap() {
        None => ClmModel::untrained(),
        Some(input) => {
            let dictionary =
                zstd::dict::from_continuous(&input.raw_data, &input.sizes, input.capacity).unwrap();
            finish_training(&dictionary, Some(dictionary.len())).unwrap()
        }
    }
}

fn average_with_error(values: Vec<f64>) -> (f64, f64) {
    let count = values.len() as f64;
    let average = values.iter().sum::<f64>() / count;
    let variance = values.iter().map(|x| (x - average) * (x - average)).sum::<f64>() / count;
    (average, variance.sqrt() / count.sqrt())
}

fn bytes_per_token(samples: &Vec<Sample>) -> (f64, f64) {
    average_with_error(
        samples.iter().map(|s| s.truth_size as f64 - s.prompt_size as f64).collect(),
    )
}

fn information_gain(samples: &Vec<Sample>) -> (f64, f64) {
    average_with_error(
        samples
            .iter()
            .map(|s| {
                let truth_bytes_added = s.truth_size as f64 - s.prompt_size as f64;
                let random_bytes_added = s.other_size as f64 - s.prompt_size as f64;
                random_bytes_added / truth_bytes_added.max(0.1)
            })
            .collect(),
    )
}

#[test]
fn average_bytes_per_token_improves() {
    let random_data = draw_tokens(300);
    let training_data = Dataset::from_data((0..10).map(|_| random_data.clone()).collect());

    let model = trained(&Vec::new(), &TrainingOptions::new());
    let (initial_avg, _) =
        bytes_per_token(&model.average_bytes_per_token(&training_data, SAMPLES).unwrap());

    let trained_model = trained(&training_data.get_data(), &TrainingOptions::new());
    let (trained_avg, _) =
        bytes_per_token(&trained_model.average_bytes_per_token(&training_data, SAMPLES).unwrap());

    assert!(trained_avg < initial_avg);

    println!("Initial avg: {}", initial_avg);
    println!("Trained avg: {}", trained_avg);
}

// The mean, and the mean squared deviation over the root of the count. This is
// wider than the standard error. With the standard error an untrained model's
// mean misses 1: at the few places where a frame shrinks, the gain is ten times
// the bytes that are lost.
fn average_with_spread(values: Vec<f64>) -> (f64, f64) {
    let count = values.len() as f64;
    let average = values.iter().sum::<f64>() / count;
    let spread = values.iter().map(|x| (x - average) * (x - average)).sum::<f64>() / count;
    (average, spread / count.sqrt())
}

#[test]
fn untrained_model_has_average_information_gain_of_one() {
    let random_data = draw_tokens(300);
    let testing_data = Dataset::from_data((0..10).map(|_| random_data.clone()).collect());

    let model = trained(&Vec::new(), &TrainingOptions::new());
    let samples = model.average_information_gain(&testing_data, SAMPLES).unwrap();
    let (initial_avg, initial_stderr) = average_with_spread(
        samples
            .iter()
            .map(|s| {
                let truth_bytes_added = s.truth_size as f64 - s.prompt_size as f64;
                let random_bytes_added = s.other_size as f64 - s.prompt_size as f64;
                random_bytes_added / truth_bytes_added.max(0.1)
            })
            .collect(),
    );

    // 99%  confidence interval
    let confidence_interval = 2.576 * initial_stderr;
    println!("Initial avg: {}", initial_avg);
    println!("Standard error: {}", initial_stderr);
    println!(
        "Confidence interval: [{} – {}]",
        initial_avg - confidence_interval,
        initial_avg + confidence_interval
    );

    assert!(0.99f64 <= initial_avg + confidence_interval);
    assert!(1.01f64 >= initial_avg - confidence_interval);
}

#[test]
fn untrained_model_adds_as_many_bytes_for_another_token_as_for_the_true_one() {
    let random_data = draw_tokens(300);
    let testing_data = Dataset::from_data((0..10).map(|_| random_data.clone()).collect());

    let model = trained(&Vec::new(), &TrainingOptions::new());
    let samples = model.average_information_gain(&testing_data, 2000).unwrap();
    assert_eq!(samples.len(), 2000);
    let alike = samples.iter().filter(|s| s.other_size == s.truth_size).count();
    assert!(alike * 10 >= samples.len() * 9);
    let mut gains: Vec<f64> = samples
        .iter()
        .map(|s| {
            let truth_bytes_added = s.truth_size as f64 - s.prompt_size as f64;
            let random_bytes_added = s.other_size as f64 - s.prompt_size as f64;
            random_bytes_added / truth_bytes_added.max(0.1)
        })
        .collect();
    gains.sort_by(|a, b| a.partial_cmp(b).unwrap());
    assert_eq!(gains[gains.len() / 2], 1.0);
}

#[test]
fn average_information_gain_is_greater_than_one() {
    let random_data = draw_tokens(100);
    let training_data = Dataset::from_data((0..8).map(|_| random_data.clone()).collect());

    let model = trained(&Vec::new(), &TrainingOptions::new());
    let (initial_avg, _) =
        information_gain(&model.average_information_gain(&training_data, SAMPLES).unwrap());

    let trained_model = trained(&training_data.get_data(), &TrainingOptions::new());
    let (trained_avg, trained_stderr) = information_gain(
        &trained_model.average_information_gain(&training_data, SAMPLES).unwrap(),
    );

    assert!(trained_avg > 1f64);

    println!("Initial avg: {}", initial_avg);
    println!("Trained avg: {}", trained_avg);
    println!("Trained stderr: {}", trained_stderr);
}

#[test]
fn measure_gives_the_three_sizes_at_a_place() {
    let model = ClmModel::untrained();
    let sentence: Vec<Token> = (0..12).map(|i| i * 37 + 5).collect();
    let sample = model.measure(&sentence, 6, 40000).unwrap();
    assert_eq!(sample.prompt_size, model.compress(&sentence[..6].to_vec()).unwrap().len());
    assert_eq!(sample.truth_size, model.compress(&sentence[..7].to_vec()).unwrap().len());
    let mut other = sentence[..6].to_vec();
    other.push(40000);
    assert_eq!(sample.other_size, model.compress(&other).unwrap().len());
    let same = model.measure(&sentence, 6, sentence[6]).unwrap();
    assert_eq!(same.other_size, same.truth_size);
    let first = model.measure(&sentence, 0, 1).unwrap();
    assert_eq!(first.prompt_size, model.compress(&vec![]).unwrap().len());
}

#[test]
fn samples_are_as_many_as_asked_for_when_sentences_are_long() {
    let model = ClmModel::untrained();
    let data = Dataset::from_data(vec![draw_tokens(7), draw_tokens(30)]);
    let samples = model.average_information_gain(&data, 40).unwrap();
    assert_eq!(samples.len(), 40);
    let samples = model.average_bytes_per_token(&data, 40).unwrap();
    assert_eq!(samples.len(), 40);
    assert!(samples.iter().all(|s| s.other_size == s.truth_size));
    assert_eq!(model.average_bytes_per_token(&data, 0).unwrap().len(), 0);
}

#[test]
fn short_sentences_are_skipped() {
    let model = ClmModel::untrained();
    let data = Dataset::from_data(vec![draw_tokens(6), draw_tokens(3), vec![]]);
    assert_eq!(model.average_bytes_per_token(&data, 50).unwrap().len(), 0);
    assert_eq!(model.average_information_gain(&data, 50).unwrap().len(), 0);
    let mixed = Dataset::from_data(vec![draw_tokens(6), draw_tokens(9)]);
    let count = model.average_bytes_per_token(&mixed, 200).unwrap().len();
    assert!(count > 0 && count < 200);
}

#[test]
fn samples_come_from_places_of_the_data() {
    let model = ClmModel::untrained();
    let sentence = draw_tokens(9);
    let data = Dataset::from_data(vec![sentence.clone()]);
    let mut prompts = Vec::new();
    for pos in 5..9 {
        let size = model.compress(&sentence[..pos].to_vec()).unwrap().len();
        let with_truth = model.compress(&sentence[..pos + 1].to_vec()).unwrap().len();
        prompts.push((size, with_truth));
    }
    for sample in model.average_bytes_per_token(&data, 100).unwrap() {
        assert!(prompts.contains(&(sample.prompt_size, sample.truth_size)));
    }
}

#[test]
fn measuring_on_no_data_is_refused() {
    let model = ClmModel::untrained();
    assert!(matches!(
        model.average_bytes_per_token(&Dataset::empty(), 10),
        Err(ClmError::EmptyInput)
    ));
    assert!(matches!(
        model.average_information_gain(&Dataset::empty(), 10),
        Err(ClmError::EmptyInput)
    ));
}
