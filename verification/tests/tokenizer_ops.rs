use bit_tree::token_dict_conversion::TokenDict;
use bit_tree::{Tokenizer, TokenizerError};

fn str_dict(pairs: &[(&str, u64)]) -> Vec<(String, u64)> {
    pairs.iter().map(|(k, v)| (k.to_string(), *v)).collect()
}

#[test]
fn test_tokenizer() {
    let token_dict = str_dict(&[("hello ", 1), ("world", 2), (".", 3), ("!", 4)]);

    let tokenizer = Tokenizer::from_token_dict(&token_dict).unwrap();

    let input = "hello world!";

    let bytes: Vec<u8> = input.as_bytes().to_vec();
    let mut pos: usize = 0;

    assert_eq!(tokenizer.nibble_token(&bytes, &mut pos), 1);
    assert_eq!(tokenizer.nibble_token(&bytes, &mut pos), 2);
    assert_eq!(tokenizer.nibble_token(&bytes, &mut pos), 4);
    assert_eq!(tokenizer.nibble_token(&bytes, &mut pos), u64::MAX);
}

#[test]
fn test_tokenize_whole_input() {
    let token_dict = str_dict(&[("hello ", 1), ("world", 2), (".", 3), ("!", 4)]);
    let tokenizer = Tokenizer::from_token_dict(&token_dict).unwrap();
    let bytes = "hello world!".as_bytes().to_vec();
    assert_eq!(tokenizer.tokenize(&bytes), vec![1, 2, 4]);
}

#[test]
fn test_partial_match_falls_back() {
    // dictionary {"a": 1, "ab": 2}: "ac" gives id 1 for 'a', then no match
    let token_dict = str_dict(&[("a", 1), ("ab", 2)]);
    let tokenizer = Tokenizer::from_token_dict(&token_dict).unwrap();
    let bytes = "ac".as_bytes().to_vec();
    let mut pos: usize = 0;
    assert_eq!(tokenizer.nibble_token(&bytes, &mut pos), 1);
    assert_eq!(pos, 1);
    assert_eq!(tokenizer.nibble_token(&bytes, &mut pos), u64::MAX);
    assert_eq!(pos, 1);
}

#[test]
fn test_longest_match_then_sentinel() {
    // dictionary {"a": 1, "ab": 2, "abc": 3}: "abcd" gives id 3, then no match
    let token_dict = str_dict(&[("a", 1), ("ab", 2), ("abc", 3)]);
    let tokenizer = Tokenizer::from_token_dict(&token_dict).unwrap();
    let bytes = "abcd".as_bytes().to_vec();
    let mut pos: usize = 0;
    assert_eq!(tokenizer.nibble_token(&bytes, &mut pos), 3);
    assert_eq!(pos, 3);
    assert_eq!(tokenizer.nibble_token(&bytes, &mut pos), u64::MAX);
    assert_eq!(pos, 3);
}

#[test]
fn test_empty_dictionary_fails() {
    let empty: Vec<(String, u64)> = Vec::new();
    assert_eq!(
        Tokenizer::from_token_dict(&empty).err(),
        Some(TokenizerError::EmptyDictionary)
    );
    let empty_bytes = TokenDict { entries: Vec::new() };
    assert_eq!(
        Tokenizer::from_byte_token_dict(&empty_bytes).err(),
        Some(TokenizerError::EmptyDictionary)
    );
}

#[test]
fn test_duplicate_string_key_fails() {
    let token_dict = str_dict(&[("ab", 1), ("c", 2), ("ab", 3)]);
    assert_eq!(
        Tokenizer::from_token_dict(&token_dict).err(),
        Some(TokenizerError::DuplicateChildInsertion)
    );
}

#[test]
fn test_duplicate_key_fails() {
    let dict = TokenDict {
        entries: vec![(vec![1, 2], 5), (vec![3], 6), (vec![1, 2], 7)],
    };
    assert_eq!(
        Tokenizer::from_byte_token_dict(&dict).err(),
        Some(TokenizerError::DuplicateChildInsertion)
    );
}

#[test]
fn test_byte_dict_tokenization() {
    let dict = TokenDict {
        entries: vec![(vec![10, 20], 100), (vec![10], 101), (vec![30], 102)],
    };
    let tokenizer = Tokenizer::from_byte_token_dict(&dict).unwrap();
    let bytes = vec![10, 20, 10, 30, 99];
    assert_eq!(tokenizer.tokenize(&bytes), vec![100, 101, 102]);
    let mut pos: usize = 0;
    assert_eq!(tokenizer.nibble_token(&bytes, &mut pos), 100);
    assert_eq!(pos, 2);
}

#[test]
fn test_prefix_free_concatenation() {
    // no key is a prefix of another: the concatenation of all keys in
    // dictionary order tokenizes to exactly their ids in that order
    let dict = TokenDict {
        entries: vec![
            (vec![1, 2], 11),
            (vec![1, 3], 12),
            (vec![2], 13),
            (vec![4, 5, 6], 14),
        ],
    };
    let tokenizer = Tokenizer::from_byte_token_dict(&dict).unwrap();
    let concat: Vec<u8> = vec![1, 2, 1, 3, 2, 4, 5, 6];
    assert_eq!(tokenizer.tokenize(&concat), vec![11, 12, 13, 14]);
}
