use tokenizer::splitter::Splitter;
use tokenizer::tokenizer::Tokenizer;

const CORPUS: &str = "Do you like tea? I like the sunlit terraces of the house. In the end, you know.";

#[test]
fn encode_then_decode_gives_tokens_back() {
    let t = Tokenizer::from_corpus(CORPUS, Splitter::default());
    let ids = t.encode("Do you like the house?");
    let decoded = t.decode(&ids);
    assert_eq!(decoded.join(" "), "Do you like the house ?");
}

#[test]
fn unknown_tokens_decode_to_the_unknown_marker() {
    let t = Tokenizer::from_corpus(CORPUS, Splitter::default());
    let ids = t.encode("Hello, do you like tea? <|endoftext|> In the sunlit terraces of the palace.");
    let out = t.decode(&ids).join(" ");
    assert_eq!(
        out,
        "<|unk|> , <|unk|> you like tea ? <|endoftext|> In the sunlit terraces of the <|unk|> ."
    );
}

#[test]
fn encode_gives_sorted_ids() {
    let t = Tokenizer::from_corpus("b a.", Splitter::default());
    assert_eq!(t.encode("a b. c."), vec![1, 2, 0, 4, 0]);
    assert_eq!(t.decode(&[3, 4]), vec!["<|endoftext|>", "<|unk|>"]);
}

#[test]
fn corpus_round_trips() {
    let t = Tokenizer::from_corpus(CORPUS, Splitter::default());
    let ids = t.encode(CORPUS);
    let expected = Splitter::default().split_filter(CORPUS);
    assert_eq!(t.decode(&ids), expected);
}
