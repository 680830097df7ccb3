use bit_tree::token_dict_conversion::{convert_to_pointernode, TokenDict};
use std::collections::HashMap;

#[test]
fn test_token_prefixing() {
    let token_dict = TokenDict {
        entries: vec![
            (vec![0, 1, 5], 0),
            (vec![0, 1, 5, 6, 8], 1),
            (vec![128, 3], 2),
            (vec![128], 3),
            (vec![192, 34], 3),
        ],
    };

    let prefixed_token_dict = token_dict.include_token_prefixes();

    let mut ref_dict: HashMap<Vec<u8>, u64> = HashMap::new();
    ref_dict.insert(vec![0], 0);
    ref_dict.insert(vec![0, 1], 0);
    ref_dict.insert(vec![0, 1, 5], 0);
    ref_dict.insert(vec![0, 1, 5, 6], 1);
    ref_dict.insert(vec![0, 1, 5, 6, 8], 1);
    ref_dict.insert(vec![128, 3], 2);
    ref_dict.insert(vec![128], 3);
    ref_dict.insert(vec![192, 34], 3);
    ref_dict.insert(vec![192], 3);

    let got: HashMap<Vec<u8>, u64> = prefixed_token_dict.entries.into_iter().collect();
    assert_eq!(ref_dict.len(), got.len());
    assert_eq!(ref_dict, got);
}

#[test]
fn test_pointer_bytenode() {
    let token_dict = TokenDict {
        entries: vec![
            (vec![0, 1, 5], 0),
            (vec![0, 1, 5, 6, 8], 1),
            (vec![128, 3], 2),
            (vec![128], 3),
            (vec![192, 34], 7),
        ],
    };

    let tree = convert_to_pointernode(&token_dict);
    assert_eq!(tree.child_unwrap(0).value(), 0);
    assert_eq!(tree.child_unwrap(0).child_unwrap(1).value(), 0);
    let first_tok_node = tree.child_unwrap(0).child_unwrap(1).child_unwrap(5);
    assert_eq!(first_tok_node.value(), 0);

    assert_eq!(first_tok_node.child_unwrap(6).value(), 1);
    assert_eq!(first_tok_node.child_unwrap(6).child_unwrap(8).value(), 1);

    assert_eq!(tree.child_unwrap(128).value(), 3);
    assert_eq!(tree.child_unwrap(128).child_unwrap(3).value(), 2);

    assert_eq!(tree.child_unwrap(192).child_unwrap(34).value(), 7);
}

#[test]
fn test_prefix_closure_shortest_cover() {
    // keys "a" and "ab": the closure keeps both and adds nothing new
    let dict = TokenDict {
        entries: vec![(vec![97], 1), (vec![97, 98], 2)],
    };
    let closed = dict.include_token_prefixes();
    let got: HashMap<Vec<u8>, u64> = closed.entries.into_iter().collect();
    let mut expected: HashMap<Vec<u8>, u64> = HashMap::new();
    expected.insert(vec![97], 1);
    expected.insert(vec![97, 98], 2);
    assert_eq!(expected, got);
}
