use chatclm::backend::clm_model::ClmModel;
use chatclm::backend::dataset::Dataset;
use chatclm::backend::tokenizer::ClmTokenizer;
use chatclm::backend::trainer::{finish_training, prepare_training};
use chatclm::backend::training_options::TrainingOptions;
use chatclm::backend::{bytes_to_tokens, tokens_to_bytes, ClmError, Token, MAX_TOKEN};
use rand::Rng;

const LOREM: &str = "Lorem ipsum dolor sit amet, consectetur adipiscing elit. Proin tincidunt urna nisl, non molestie velit aliquam nec. In in erat id est porttitor efficitur ac eleifend ex. Nam auctor lacus urna, a sodales metus bibendum ut. Vestibulum vulputate facilisis ultrices. Vestibulum ut euismod erat. Maecenas pretium egestas nunc, non efficitur eros interdum eget. Suspendisse eleifend augue eu viverra rutrum. Phasellus non elementum erat, sit amet ultrices nunc. Sed facilisis at ipsum nec sagittis. Nulla non placerat purus. Pellentesque sed mollis enim. Praesent tincidunt purus id tellus tristique, ut rhoncus justo fringilla. Suspendisse fermentum ultrices dolor, vel mollis enim. Aliquam eros.";

fn random_tokens(n: usize) -> Vec<Token> {
    let mut rng = rand::thread_rng();
    (0..n).map(|_| rng.gen_range(0..MAX_TOKEN)).collect()
}

// The trainer that safe code can reach: zstd's own choice of parameters. The
// options decide only how the sentences are laid out and how much room there is.
fn train_model(input_tokens: &Vec<Vec<Token>>, training_options: &TrainingOptions) -> ClmModel {
    match prepare_training(input_tokens, training_options).unwrap() {
        None => ClmModel::untrained(),
        Some(input) => {
            let dictionary =
                zstd::dict::from_continuous(&input.raw_data, &input.sizes, input.capacity).unwrap();
            let written = dictionary.len();
            let mut buffer = dictionary;
            buffer.resize(input.capacity, 0);
            finish_training(&buffer, Some(written)).unwrap()
        }
    }
}

fn small_tokenizer() -> ClmTokenizer {
    ClmTokenizer::new_custom(5)
}

#[test]
fn can_compress_and_decompress() {
    let clm = ClmModel::from_buffer(Vec::new()).unwrap();
    let start: Vec<Token> = clm.get_tokenizer().encode(LOREM).unwrap();
    let compressed = clm.compress(&start).unwrap();
    let decompressed = clm.decompress_to_tokens(&compressed).unwrap();

    assert_eq!(decompressed, start);
}

#[test]
fn compress_data() {
    let tokenizer = ClmTokenizer::new_gpt2();
    let start: Vec<Token> = tokenizer.encode(LOREM).unwrap();
    let training_data = (0usize..10).map(|_| start.clone()).collect::<Vec<_>>();
    let clm = train_model(&training_data, &TrainingOptions::new());
    let compressed = clm.compress(&start).unwrap();

    println!("Compressed size: {}", compressed.len());
    println!("Tokens size: {}", tokens_to_bytes(&start).len());
    println!(
        "Compressed size without dict: {}",
        zstd::bulk::compress(&tokens_to_bytes(&start), 3).unwrap().len()
    );
    let decompressed = clm.decompress_to_tokens(&compressed).unwrap();

    assert_eq!(decompressed, start);
}

#[test]
fn save_and_load_model() {
    let data: Vec<Token> = random_tokens(100);
    let training_data = (0usize..10).map(|_| data.clone()).collect::<Vec<_>>();

    let model = train_model(&training_data, &TrainingOptions::new());
    let stored = model.to_buffer();
    let loaded_model = ClmModel::from_buffer(stored).unwrap();

    let compressed = model.compress(&data).unwrap();
    let compressed_loaded = loaded_model.compress(&data).unwrap();

    assert_eq!(compressed, compressed_loaded);
}

#[test]
fn dictionary_helps_compression() {
    let data: Vec<Token> = random_tokens(50);

    let training_data =
        Dataset::from_data((0usize..10).map(|_| data.clone()).collect::<Vec<_>>());

    let trained_model = train_model(training_data.get_data(), &TrainingOptions::new());
    let untrained_model = train_model(&Vec::new(), &TrainingOptions::default());

    let compressed = trained_model.compress(&data).unwrap();
    let compressed_no_dict = untrained_model.compress(&data).unwrap();

    println!(
        "Compressed size with dict: {}, without dict: {}",
        compressed.len(),
        compressed_no_dict.len()
    );

    assert!(compressed.len() < compressed_no_dict.len());
}

#[test]
fn tiny_corpus_trains_a_model_that_compresses_it_better() {
    let sequence: Vec<Token> = (0..100).map(|i| (i * 7919 + 13) % 50281).collect();
    let corpus = (0..10).map(|_| sequence.clone()).collect::<Vec<_>>();
    let trained = train_model(&corpus, &TrainingOptions::new());
    assert!(trained.get_dictionary_size() > 0);
    let untrained = ClmModel::untrained();
    assert_eq!(untrained.get_dictionary_size(), 0);
    assert!(trained.compress(&sequence).unwrap().len() < untrained.compress(&sequence).unwrap().len());
    for sentence in &corpus {
        assert!(
            trained.compress(sentence).unwrap().len() < untrained.compress(sentence).unwrap().len()
        );
    }
}

#[test]
fn tokens_go_to_eight_bytes_each_most_significant_first() {
    assert_eq!(tokens_to_bytes(&vec![]), Vec::<u8>::new());
    assert_eq!(tokens_to_bytes(&vec![1]), vec![0, 0, 0, 0, 0, 0, 0, 1]);
    assert_eq!(
        tokens_to_bytes(&vec![0x0102030405060708, 50280]),
        vec![1, 2, 3, 4, 5, 6, 7, 8, 0, 0, 0, 0, 0, 0, 0xc4, 0x68]
    );
    assert_eq!(tokens_to_bytes(&vec![usize::MAX]), vec![255; 8]);
}

#[test]
fn bytes_go_back_to_tokens() {
    assert_eq!(
        bytes_to_tokens(&vec![1, 2, 3, 4, 5, 6, 7, 8, 0, 0, 0, 0, 0, 0, 0xc4, 0x68]),
        Some(vec![0x0102030405060708, 50280])
    );
    assert_eq!(bytes_to_tokens(&vec![]), Some(vec![]));
    assert_eq!(bytes_to_tokens(&vec![0, 0, 0, 0, 0, 0, 1]), None);
    assert_eq!(bytes_to_tokens(&vec![0; 9]), None);
    let tokens = random_tokens(300);
    assert_eq!(bytes_to_tokens(&tokens_to_bytes(&tokens)), Some(tokens));
}

#[test]
fn compress_is_the_same_every_time() {
    let tokens = random_tokens(64);
    let model = ClmModel::untrained();
    let again = ClmModel::from_buffer(Vec::new()).unwrap();
    assert_eq!(model.compress(&tokens).unwrap(), model.compress(&tokens).unwrap());
    assert_eq!(model.compress(&tokens).unwrap(), again.compress(&tokens).unwrap());
    assert_eq!(model.duplicate().compress(&tokens).unwrap(), model.compress(&tokens).unwrap());
    assert_ne!(model.compress(&tokens).unwrap(), tokens_to_bytes(&tokens));
}

#[test]
fn compress_writes_a_zstd_frame() {
    let model = ClmModel::untrained();
    let compressed = model.compress(&vec![1, 2, 3]).unwrap();
    assert_eq!(&compressed[..4], &[0x28, 0xb5, 0x2f, 0xfd]);
    let plain = zstd::stream::decode_all(compressed.as_slice()).unwrap();
    assert_eq!(plain, tokens_to_bytes(&vec![1, 2, 3]));
}

#[test]
fn empty_sequence_round_trips() {
    let model = ClmModel::untrained();
    let compressed = model.compress(&vec![]).unwrap();
    assert!(!compressed.is_empty());
    assert_eq!(model.decompress_to_tokens(&compressed).unwrap(), Vec::<Token>::new());
}

#[test]
fn round_trip_holds_with_a_trained_model() {
    let data = random_tokens(200);
    let model = train_model(&(0..10).map(|_| data.clone()).collect(), &TrainingOptions::new());
    for length in [0usize, 1, 7, 50, 200] {
        let tokens = data[..length].to_vec();
        let compressed = model.compress(&tokens).unwrap();
        assert_eq!(model.decompress_to_tokens(&compressed).unwrap(), tokens);
    }
    let other = random_tokens(33);
    assert_eq!(model.decompress_to_tokens(&model.compress(&other).unwrap()).unwrap(), other);
}

#[test]
fn frames_that_are_none_are_refused() {
    let model = ClmModel::untrained();
    assert!(matches!(
        model.decompress_to_tokens(&vec![1, 2, 3, 4, 5]),
        Err(ClmError::CorruptModel)
    ));
    let not_tokens = zstd::stream::encode_all(&[1u8, 2, 3][..], 1).unwrap();
    assert!(matches!(model.decompress_to_tokens(&not_tokens), Err(ClmError::Parse)));
}

#[test]
fn dictionary_that_the_coder_turns_down_makes_no_model() {
    let mut corrupt = vec![0x37, 0xa4, 0x30, 0xec];
    corrupt.extend(vec![0xffu8; 64]);
    assert!(matches!(ClmModel::from_buffer(corrupt), Err(ClmError::CorruptModel)));
    let raw_content = vec![7u8; 64];
    let model = ClmModel::from_buffer(raw_content.clone()).unwrap();
    assert_eq!(model.to_buffer(), raw_content);
    assert_eq!(model.get_dictionary_size(), 64);
}

#[test]
fn compress_together_is_the_size_of_both() {
    let model = ClmModel::untrained();
    let prompt = random_tokens(20);
    let next = random_tokens(3);
    let mut both = prompt.clone();
    both.extend(&next);
    assert_eq!(
        model.compress_together(&prompt, &next).unwrap(),
        model.compress(&both).unwrap().len()
    );
    assert_eq!(
        model.compress_together(&prompt, &vec![]).unwrap(),
        model.compress(&prompt).unwrap().len()
    );
}

#[test]
fn evaluate_finds_every_token_unchanged() {
    let model = ClmModel::untrained();
    let data = vec![random_tokens(10), vec![], random_tokens(25)];
    assert_eq!(model.evaluate(&data).unwrap(), (35, 35));
    assert_eq!(model.evaluate(&vec![]).unwrap(), (0, 0));
}

#[test]
fn training_input_lays_the_sentences_end_to_end() {
    let data = vec![vec![1usize, 2], vec![], vec![258]];
    let input = prepare_training(&data, &TrainingOptions::new()).unwrap().unwrap();
    assert_eq!(
        input.raw_data,
        vec![0, 0, 0, 0, 0, 0, 0, 1, 0, 0, 0, 0, 0, 0, 0, 2, 0, 0, 0, 0, 0, 0, 1, 2]
    );
    assert_eq!(input.sizes, vec![16, 0, 8]);
    assert_eq!(input.capacity, 24);
    assert_eq!(input.sizes.iter().sum::<usize>(), input.raw_data.len());
}

#[test]
fn training_capacity_is_the_share_of_the_data() {
    let data = vec![vec![1usize; 10]];
    let mut options = TrainingOptions::new();
    options.dictionary_size_percentage = chatclm::backend::ratio::Ratio::new(1, 3).unwrap();
    let input = prepare_training(&data, &options).unwrap().unwrap();
    assert_eq!(input.capacity, 26);
}

#[test]
fn training_on_nothing_leaves_the_model_untrained() {
    assert!(prepare_training(&vec![], &TrainingOptions::new()).unwrap().is_none());
    let model = train_model(&vec![], &TrainingOptions::new());
    assert_eq!(model.get_dictionary_size(), 0);
}

#[test]
fn training_refuses_options_that_are_out_of_range() {
    let mut options = TrainingOptions::new();
    options.ensemble_size = 0;
    assert!(matches!(
        prepare_training(&vec![vec![1]], &options),
        Err(ClmError::InvalidOptions)
    ));
    let mut options = TrainingOptions::new();
    options.dictionary_size_percentage = chatclm::backend::ratio::Ratio::zero();
    assert!(matches!(options.validate(), Err(ClmError::InvalidOptions)));
    assert!(matches!(prepare_training(&vec![], &options), Err(ClmError::InvalidOptions)));
}

#[test]
fn finish_training_keeps_what_was_written() {
    let buffer = vec![9u8, 8, 7, 6, 5];
    assert_eq!(finish_training(&buffer, Some(3)).unwrap().to_buffer(), vec![9, 8, 7]);
    assert_eq!(finish_training(&buffer, Some(0)).unwrap().get_dictionary_size(), 0);
    assert_eq!(finish_training(&buffer, Some(5)).unwrap().to_buffer(), buffer);
    assert!(matches!(finish_training(&buffer, None), Err(ClmError::TrainingFailed)));
    assert!(matches!(finish_training(&buffer, Some(6)), Err(ClmError::TrainingFailed)));
}

#[test]
fn default_options_are_the_documented_ones() {
    let options = TrainingOptions::default();
    assert_eq!((options.k, options.d, options.f, options.steps), (50, 8, 25, 4));
    assert_eq!((options.nb_threads, options.accel), (8, 1));
    assert_eq!((options.shrink_dict, options.shrink_dict_max_regression), (0, 0));
    assert_eq!(options.compression_level, 3);
    assert_eq!(options.split_point.get_numerator(), 0);
    assert_eq!(options.dictionary_size_percentage.get_numerator(), 1);
    assert_eq!(options.dictionary_size_percentage.get_denominator(), 1);
    assert_eq!(options.ensemble_size, 1);
    assert!(options.validate().is_ok());
    assert!(TrainingOptions::new().validate().is_ok());
}

#[test]
fn next_token_sizes_list_every_candidate() {
    let model = ClmModel::with_tokenizer(Vec::new(), small_tokenizer()).unwrap();
    let prompt: Vec<Token> = vec![1, 2, 3];
    let sizes = model.get_next_token_sizes(&prompt).unwrap();
    assert_eq!(sizes.len(), 5);
    for (t, (token, size)) in sizes.iter().enumerate() {
        assert_eq!(*token, t);
        assert_eq!(*size, model.compress_together(&prompt, &vec![t]).unwrap());
    }
}

#[test]
fn predicted_token_is_a_cheapest_one() {
    let model = ClmModel::with_tokenizer(Vec::new(), small_tokenizer()).unwrap();
    let prompt: Vec<Token> = vec![1, 2, 3, 1, 2, 3, 1, 2];
    let sizes = model.get_next_token_sizes(&prompt).unwrap();
    let least = sizes.iter().map(|x| x.1).min().unwrap();
    for _ in 0..20 {
        let (token, size) = model.predict_tokens(&prompt, 0, 0).unwrap();
        assert_eq!(size, least);
        assert_eq!(sizes[token].1, least);
    }
}

#[test]
fn look_ahead_reports_the_least_size_or_gives_up() {
    let model = ClmModel::with_tokenizer(Vec::new(), small_tokenizer()).unwrap();
    let prompt: Vec<Token> = vec![4, 3, 2, 1];
    let sizes = model.get_next_token_sizes(&prompt).unwrap();
    let least = sizes.iter().map(|x| x.1).min().unwrap();
    let (token, size) = model.predict_tokens(&prompt, 1, 3).unwrap();
    assert_eq!(size, least);
    assert_eq!(sizes[token].1, least);
    let (token, size) = model.predict_tokens(&prompt, 2, 3).unwrap();
    assert_eq!(size, least);
    assert_eq!(sizes[token].1, least);
    assert_eq!(model.predict_tokens(&prompt, 1, 0).unwrap(), (0, usize::MAX));
    assert_eq!(model.predict_tokens(&prompt, 2, 1).unwrap(), (0, usize::MAX));
    assert_eq!(model.predict_tokens(&prompt, 3, 3).unwrap(), (0, usize::MAX));
    let (_, size) = model.predict_tokens(&prompt, 3, 4).unwrap();
    assert_eq!(size, least);
}

#[test]
fn append_predicted_adds_one_token_to_the_tokens() {
    let model = ClmModel::with_tokenizer(Vec::new(), small_tokenizer()).unwrap();
    let prompt: Vec<Token> = vec![1, 2, 3];
    let sizes = model.get_next_token_sizes(&prompt).unwrap();
    let least = sizes.iter().map(|x| x.1).min().unwrap();
    let mut rng: rand::rngs::StdRng = rand::SeedableRng::seed_from_u64(7);
    for _ in 0..10 {
        let extended = model.append_predicted_with(prompt.clone(), 0, 0, &mut rng).unwrap();
        assert_eq!(extended.len(), 4);
        assert_eq!(extended[..3], prompt[..]);
        assert_eq!(sizes[extended[3]].1, least);
    }
    assert_eq!(
        model.append_predicted_with(prompt.clone(), 1, 0, &mut rng).unwrap(),
        vec![1, 2, 3, 0]
    );
}

#[test]
fn predict_next_adds_one_token_to_the_text() {
    let model = ClmModel::untrained();
    let prompt = "Hello, world";
    let extended = model.predict_next(prompt.to_string(), 0, 0).unwrap();
    assert!(extended.starts_with(prompt) || extended == "<error>");
    let tokens = model.get_tokenizer().encode(&extended).unwrap();
    assert!(extended == "<error>" || tokens.len() >= 3);
    assert_eq!(model.predict_next("x".repeat(500001), 0, 0), None);
    let custom = ClmModel::with_tokenizer(Vec::new(), small_tokenizer()).unwrap();
    assert_eq!(custom.predict_next("hello".to_string(), 0, 0), None);
}

#[test]
fn trained_model_predicts_what_it_has_seen() {
    let tokenizer = ClmTokenizer::new_gpt2();
    let sentence = tokenizer.encode(LOREM).unwrap();
    let model = train_model(&(0..10).map(|_| sentence.clone()).collect(), &TrainingOptions::new());
    let prompt = sentence[..40].to_vec();
    let (token, size) = model.predict_tokens(&prompt, 0, 0).unwrap();
    assert_eq!(token, sentence[40]);
    assert_eq!(size, model.compress(&sentence[..41].to_vec()).unwrap().len());
}

#[test]
fn text_for_answer_puts_the_token_behind_the_prompt() {
    let model = ClmModel::with_tokenizer(Vec::new(), small_tokenizer()).unwrap();
    assert_eq!(model.text_for_answer(vec![1, 2, 3], Ok((4, 99))), Some("<error>".to_string()));
    assert_eq!(model.text_for_answer(vec![1, 2, 3], Err(ClmError::CorruptModel)), None);
    let standard = ClmModel::untrained();
    assert_eq!(standard.text_for_answer(vec![], Ok((15496, 0))), Some("Hello".to_string()));
    assert_eq!(standard.text_for_answer(vec![15496], Err(ClmError::CorruptModel)), None);
    assert_eq!(
        standard.text_for_answer(vec![15496, 11, 995], Ok((0, 5))),
        Some("Hello, world!".to_string())
    );
    assert_eq!(
        standard.text_for_answer(vec![15496], Ok((60000, 5))),
        Some("<error>".to_string())
    );
}
