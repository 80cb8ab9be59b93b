use tokenizer::splitter::Splitter;

#[test]
fn test_split_filter() {
    let cases = [(
        "Hello, world. Is this-- a test?",
        vec![
            "Hello", ",", "world", ".", "Is", "this", "--", "a", "test", "?",
        ],
    )];

    let splitter = Splitter::default();

    for (i, (input, exp)) in cases.into_iter().enumerate() {
        let act: Vec<_> = splitter.split_filter(input);
        assert_eq!(exp, act, "case {i} failed");
    }
}

fn default_split(text: &str) -> Vec<&str> {
    let splitter = Splitter::default();
    splitter.split(text)
}

#[test]
fn split_keeps_text_delimiters_and_spaces() {
    let pieces = default_split("Hi, you--there.");
    assert_eq!(pieces, vec!["Hi", ",", "", " ", "you", "--", "there", "."]);
}

#[test]
fn split_pieces_join_back_to_the_text() {
    let text = "\"It's the last he painted, you know,\" Mrs. Gisburn said.";
    let pieces = default_split(text);
    assert_eq!(pieces.concat(), text);
    for (i, p) in pieces.iter().enumerate() {
        if i % 2 == 1 {
            assert!(!p.is_empty());
        }
    }
}

#[test]
fn split_of_empty_text_is_empty() {
    assert!(default_split("").is_empty());
    assert!(Splitter::default().split_filter("").is_empty());
}

#[test]
fn earlier_position_wins_over_earlier_delimiter() {
    let splitter = Splitter::new(vec!["b".to_string(), "a".to_string()]);
    assert_eq!(splitter.split("xab"), vec!["x", "a", "", "b"]);
}

#[test]
fn earlier_delimiter_wins_at_the_same_position() {
    let splitter = Splitter::new(vec!["ab".to_string(), "a".to_string()]);
    assert_eq!(splitter.split("xab"), vec!["x", "ab"]);
    let splitter = Splitter::new(vec!["a".to_string(), "ab".to_string(), "b".to_string()]);
    assert_eq!(splitter.split("xab"), vec!["x", "a", "", "b"]);
}

#[test]
fn ends_on_requires_a_final_delimiter() {
    let splitter = Splitter::default();
    assert!(splitter.ends_on("Hello, world."));
    assert!(splitter.ends_on(""));
    assert!(!splitter.ends_on("no final delimiter"));
    assert!(!splitter.ends_on("ends in a newline.\n"));
    let with_empty = Splitter::new(vec![String::new()]);
    assert!(!with_empty.ends_on("x"));
    assert!(with_empty.ends_on(""));
    let empty_after = Splitter::new(vec![",".to_string(), String::new()]);
    assert!(empty_after.ends_on(",,,"));
    assert_eq!(empty_after.split(",,"), vec!["", ",", "", ","]);
}

#[test]
fn split_filter_trims_and_drops_empty_pieces() {
    let splitter = Splitter::default();
    assert_eq!(
        splitter.split_filter("  line one\tand\ntwo  ."),
        vec!["line", "one\tand\ntwo", "."]
    );
}

#[test]
fn split_handles_multibyte_characters() {
    let splitter = Splitter::default();
    assert_eq!(splitter.split_filter("héllo, wörld!"), vec!["héllo", ",", "wörld", "!"]);
}
