use tokenizer::splitter::Splitter;
use tokenizer::vocab::{numbered_tokens, sorted_distinct_tokens, Vocab};

#[test]
fn vocabulary_sorts_distinct_tokens_then_markers() {
    let v = Vocab::from_tokens(vec!["b", "a", "b", "c", "a"]);
    assert_eq!(v.get_token(0), Some("a"));
    assert_eq!(v.get_token(1), Some("b"));
    assert_eq!(v.get_token(2), Some("c"));
    assert_eq!(v.get_token(3), Some("<|endoftext|>"));
    assert_eq!(v.get_token(4), Some("<|unk|>"));
    assert_eq!(v.get_token(5), None);
}

#[test]
fn ids_of_known_and_unknown_tokens() {
    let v = Vocab::from_tokens(vec!["b", "a", "b"]);
    assert_eq!(v.get_id("a"), 0);
    assert_eq!(v.get_id("b"), 1);
    assert_eq!(v.get_id("<|endoftext|>"), 2);
    assert_eq!(v.get_id("<|unk|>"), 3);
    assert_eq!(v.get_id("zzz"), 3);
}

#[test]
fn ids_and_tokens_round_trip() {
    let v = Vocab::from_tokens(vec!["pear", "apple", "fig"]);
    for id in 0..5 {
        let t = v.get_token(id).unwrap();
        assert_eq!(v.get_id(t), id);
    }
}

#[test]
fn order_is_by_code_point() {
    let v = Vocab::from_tokens(vec!["a", "B", "é", "ab", ""]);
    assert_eq!(v.get_token(0), Some(""));
    assert_eq!(v.get_token(1), Some("B"));
    assert_eq!(v.get_token(2), Some("a"));
    assert_eq!(v.get_token(3), Some("ab"));
    assert_eq!(v.get_token(4), Some("é"));
}

#[test]
fn markers_in_the_tokens_keep_their_sorted_place() {
    let v = Vocab::from_tokens(vec!["x", "<|unk|>"]);
    assert_eq!(v.get_token(0), Some("<|unk|>"));
    assert_eq!(v.get_token(1), Some("x"));
    assert_eq!(v.get_token(2), Some("<|endoftext|>"));
    assert_eq!(v.get_token(3), None);
    assert_eq!(v.get_id("missing"), 0);
}

#[test]
fn empty_vocabulary_holds_only_markers() {
    let v = Vocab::from_tokens(vec![]);
    assert_eq!(v.get_token(0), Some("<|endoftext|>"));
    assert_eq!(v.get_id("anything"), 1);
}

#[test]
fn vocabulary_from_corpus() {
    let splitter = Splitter::default();
    let v = Vocab::from_corpus("the cat, the hat.", &splitter);
    assert_eq!(v.get_id(","), 0);
    assert_eq!(v.get_id("."), 1);
    assert_eq!(v.get_id("cat"), 2);
    assert_eq!(v.get_id("hat"), 3);
    assert_eq!(v.get_id("the"), 4);
    assert_eq!(v.get_id("dog"), 6);
}

#[test]
fn sorted_distinct_tokens_dedups_and_sorts() {
    assert_eq!(sorted_distinct_tokens(vec!["z", "y", "z", "x"]), vec!["x", "y", "z"]);
}

#[test]
fn numbered_tokens_numbers_sorted_tokens() {
    let splitter = Splitter::default();
    let n = numbered_tokens(&splitter, "b a b.");
    assert_eq!(n, vec![(".".to_string(), 0), ("a".to_string(), 1), ("b".to_string(), 2)]);
}
