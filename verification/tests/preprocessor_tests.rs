use llms_unplugged::preprocess;

#[test]
fn test_preprocess_case_exceptions() {
    let tokens = vec![
        "i".to_string(),
        "think".to_string(),
        "i'm".to_string(),
        "happy".to_string(),
    ];
    let processed = preprocess(tokens);
    assert_eq!(processed, vec!["I", "think", "I'm", "happy"]);
}

#[test]
fn test_preprocess_filters_roman_numerals() {
    let tokens = vec![
        "chapter".to_string(),
        "iv".to_string(), // should be filtered
        "section".to_string(),
        "i".to_string(), // should become "I" due to case exception, not filtered as "i" numeral
        "part".to_string(),
        "x".to_string(), // should be filtered
        "appendix".to_string(),
        "m".to_string(), // should be filtered
        "notaroman".to_string(),
    ];
    let processed = preprocess(tokens);
    assert_eq!(
        processed,
        vec!["chapter", "section", "I", "part", "appendix", "notaroman"]
    );
}

#[test]
fn test_preprocess_filters_endoftext_marker() {
    let tokens = vec![
        "this".to_string(),
        "is".to_string(),
        "<|endoftext|>".to_string(),
        "some".to_string(),
        "text".to_string(),
    ];
    let processed = preprocess(tokens);
    assert_eq!(processed, vec!["this", "is", "some", "text"]);
}

#[test]
fn test_preprocess_combined() {
    let tokens = vec![
        "i".to_string(),             // -> "I"
        "saw".to_string(),           // -> "saw"
        "part".to_string(),          // -> "part"
        "ii".to_string(),            // filtered
        "of".to_string(),            // -> "of"
        "the".to_string(),           // -> "the"
        "book".to_string(),          // -> "book"
        "<|endoftext|>".to_string(), // filtered
        "i'll".to_string(),          // -> "I'll"
        "read".to_string(),          // -> "read"
        "v".to_string(),             // filtered
        "later".to_string(),         // -> "later"
    ];
    let processed = preprocess(tokens);
    assert_eq!(
        processed,
        vec!["I", "saw", "part", "of", "the", "book", "I'll", "read", "later"]
    );
}

#[test]
fn test_roman_numeral_i_is_exception_not_filtered() {
    // "i" alone should be treated by the case exceptions, not filtered as a Roman numeral
    let tokens = vec!["i".to_string()];
    let processed = preprocess(tokens);
    assert_eq!(processed, vec!["I"]);

    // "ii", "iii" should be filtered
    let tokens_ii = vec!["ii".to_string()];
    let processed_ii = preprocess(tokens_ii);
    assert_eq!(processed_ii, Vec::<String>::new());

    let tokens_iii = vec!["iii".to_string()];
    let processed_iii = preprocess(tokens_iii);
    assert_eq!(processed_iii, Vec::<String>::new());
}

#[test]
fn test_empty_input() {
    let tokens: Vec<String> = vec![];
    let processed = preprocess(tokens);
    assert_eq!(processed, Vec::<String>::new());
}

#[test]
fn test_no_changes_needed() {
    let tokens = vec!["hello".to_string(), "world".to_string()];
    let processed = preprocess(tokens.clone()); // clone as preprocess consumes
    assert_eq!(processed, tokens);
}
