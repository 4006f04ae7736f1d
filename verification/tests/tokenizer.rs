use chatclm::backend::clm_model::ClmModel;
use chatclm::backend::tokenizer::{ids_to_tokens, tokens_to_ids, ClmTokenizer};
use chatclm::backend::{Token, MAX_TOKEN};

fn custom_definition() -> Vec<u8> {
    "{\"version\":\"1.0\",\"truncation\":null,\"padding\":null,\"added_tokens\":[{\"id\":0,\"content\":\"[UNK]\",\"single_word\":false,\"lstrip\":false,\"rstrip\":false,\"normalized\":false,\"special\":true}],\"normalizer\":{\"type\":\"Lowercase\"},\"pre_tokenizer\":{\"type\":\"BertPreTokenizer\"},\"post_processor\":null,\"decoder\":{\"type\":\"WordPiece\",\"prefix\":\"##\",\"cleanup\":true},\"model\":{\"type\":\"WordPiece\",\"unk_token\":\"[UNK]\",\"continuing_subword_prefix\":\"##\",\"max_input_chars_per_word\":100,\"vocab\":{\"[UNK]\":0,\"hello\":1,\",\":2,\"world\":3,\"!\":4}}}"
        .as_bytes()
        .to_vec()
}

#[test]
fn gpt2_tokenizer_works() {
    let tokenizer = ClmTokenizer::new_gpt2();
    let encoding = tokenizer.encode("Hello, world!").unwrap();
    let decoded = tokenizer.decode(&encoding);
    assert_eq!(decoded, "Hello, world!");
}

#[test]
fn custom_tokenizer_is_served_with_tokens() {
    let outside = tokenizers::Tokenizer::from_bytes(custom_definition()).unwrap();
    let tokenizer = ClmTokenizer::new_custom(outside.get_vocab_size(true));
    assert_eq!(tokenizer.get_max_token(), 4);
    let model = ClmModel::with_tokenizer(Vec::new(), tokenizer).unwrap();
    let encoding = outside.encode("Hello, world", false).unwrap();
    let prompt: Vec<Token> = encoding.get_ids().iter().map(|id| *id as Token).collect();
    assert_eq!(prompt, vec![1, 2, 3]);
    let mut rng: rand::rngs::StdRng = rand::SeedableRng::seed_from_u64(1);
    let extended = model.append_predicted_with(prompt, 0, 0, &mut rng).unwrap();
    let ids: Vec<u32> = extended.iter().map(|t| *t as u32).collect();
    let text = outside.decode(&ids, false).unwrap();
    let choices = [
        "hello, world [UNK]",
        "hello, world hello",
        "hello, world,",
        "hello, world world",
        "hello, world!",
    ];
    assert!(choices.contains(&text.as_str()));
}

#[test]
fn custom_tokenizer_reads_and_writes_no_text_in_the_library() {
    let tokenizer = ClmTokenizer::new_custom(5);
    assert_eq!(tokenizer.encode("hello"), None);
    assert_eq!(tokenizer.encode(""), None);
    assert_eq!(tokenizer.decode(&vec![1, 2]), "<error>");
    assert_eq!(tokenizer.decode(&vec![]), "<error>");
}

#[test]
fn largest_token_is_one_less_than_the_vocabulary() {
    assert_eq!(ClmTokenizer::new_gpt2().get_max_token(), MAX_TOKEN);
    assert_eq!(ClmTokenizer::new_gpt2().get_max_token(), 50280);
    assert_eq!(ClmTokenizer::new_custom(5).get_max_token(), 4);
    assert_eq!(ClmTokenizer::new_custom(1).get_max_token(), 0);
    assert_eq!(ClmTokenizer::new_custom(0).get_max_token(), 0);
    assert_eq!(ClmTokenizer::Custom(usize::MAX).get_max_token(), usize::MAX - 1);
}

#[test]
fn tokens_out_of_the_vocabulary_decode_to_the_error_text() {
    let tokenizer = ClmTokenizer::new_gpt2();
    assert_eq!(tokenizer.decode(&vec![60000]), "<error>");
    assert_eq!(tokenizer.decode(&vec![15496, usize::MAX]), "<error>");
    assert_eq!(tokenizer.decode(&vec![]), "");
    assert_eq!(tokenizer.decode(&vec![50256]), "<|endoftext|>");
}

#[test]
fn standard_tokenizer_does_not_read_special_tokens() {
    let tokenizer = ClmTokenizer::new_gpt2();
    let tokens = tokenizer.encode("<|endoftext|>").unwrap();
    assert!(tokens.len() > 1);
    assert!(!tokens.contains(&50256));
    assert_eq!(tokenizer.decode(&tokens), "<|endoftext|>");
}

#[test]
fn ids_widen_and_narrow() {
    assert_eq!(ids_to_tokens(&vec![0, 7, u32::MAX]), vec![0usize, 7, 4294967295]);
    assert_eq!(tokens_to_ids(&vec![0, 7, 4294967295]), Some(vec![0u32, 7, u32::MAX]));
    assert_eq!(tokens_to_ids(&vec![0, 4294967296]), None);
    assert_eq!(tokens_to_ids(&vec![]), Some(vec![]));
}

#[test]
fn tokenizers_are_told_apart() {
    let standard = ClmTokenizer::new_gpt2();
    let custom = ClmTokenizer::new_custom(5);
    assert!(standard.is_same(&ClmTokenizer::GPT2));
    assert!(custom.is_same(&ClmTokenizer::Custom(5)));
    assert!(!custom.is_same(&standard));
    assert!(!standard.is_same(&custom));
    assert!(!custom.is_same(&ClmTokenizer::new_custom(6)));
    assert_eq!(custom, ClmTokenizer::Custom(5));
}

#[test]
fn standard_tokenizer_takes_no_text_that_is_too_long() {
    let tokenizer = ClmTokenizer::new_gpt2();
    assert!(tokenizer.encode(&"x".repeat(500000)).is_some());
    assert!(tokenizer.encode(&"x".repeat(500001)).is_none());
    assert!(tokenizer.encode(&" ".repeat(500001)).is_none());
    let spaces = tokenizer.encode(&" ".repeat(500000)).unwrap();
    assert_eq!(tokenizer.decode(&spaces), " ".repeat(500000));
}
