use llms_unplugged::tokenize;

fn tok(line: &str) -> Vec<String> {
    let punctuation = vec![',', '.'];
    tokenize(line, &punctuation)
}

#[test]
fn test_tokenize_simple_line() {
    let line = "Hello, world! This is a test.";
    let tokens = tok(line);
    assert_eq!(tokens, vec!["Hello", ",", "world", "This", "is", "a", "test", "."]);
}

#[test]
fn test_tokenize_filters_numbers_and_preserves_contractions() {
    let line = "Version2 and 123numbers shouldn't be filtered. Don't.";
    let tokens = tok(line);
    assert_eq!(
        tokens,
        vec![
            "Version",
            "and",
            "numbers",
            "shouldn't",
            "be",
            "filtered",
            ".",
            "Don't",
            "."
        ]
    );
}

#[test]
fn test_tokenize_special_cases_lowercase() {
    let line = "I think that I am thinking and I'm sure that I said so.";
    let tokens = tok(line);
    assert_eq!(
        tokens,
        vec![
            "I", "think", "that", "I", "am", "thinking", "and", "I'm", "sure", "that", "I",
            "said", "so", "."
        ]
    );
}

#[test]
fn test_tokenize_filters_numbers() {
    let line = "abc123 456def 789 alpha2beta";
    let tokens = tok(line);
    assert_eq!(tokens, vec!["abc", "def", "alpha", "beta"]);
}

#[test]
fn test_tokenize_handles_contractions_lowercase() {
    let line = "Don't can't won't I've I'm you're they'll it's 'quote' he'd we've 'ello goin'";
    let tokens = tok(line);
    assert_eq!(
        tokens,
        vec![
            "Don't", "can't", "won't", "I've", "I'm", "you're", "they'll", "it's", "quote",
            "he'd", "we've", "ello", "goin'"
        ]
    );
}

#[test]
fn test_tokenize_handles_apostrophes() {
    let line = "'ello 'tis 'twas '90s goin' talkin' 'n' writin' can't don't won't";
    let tokens = tok(line);
    assert_eq!(
        tokens,
        vec![
            "ello", "tis", "twas", "s", "goin'", "talkin'", "n'", "writin'", "can't", "don't",
            "won't"
        ]
    );
}

#[test]
fn test_tokenize_complex_case_from_original() {
    let complex_line = "'Bobbie, Bobbie!' she said, 'Come and kiss me, Bobbie!'";
    let complex_tokens = tok(complex_line);
    assert_eq!(
        complex_tokens,
        vec![
            "Bobbie", ",", "Bobbie", "she", "said", ",", "Come", "and", "kiss", "me", ",",
            "Bobbie"
        ]
    );
}

#[test]
fn test_tokenize_non_ascii_apostrophe() {
    let line = "It's a test with '90s style goin' talkin'.";
    let tokens = tok(line);
    assert_eq!(
        tokens,
        vec!["It's", "a", "test", "with", "s", "style", "goin'", "talkin'", "."]
    );
}

#[test]
fn test_tokenize_empty_and_edge_cases() {
    assert_eq!(tok(""), Vec::<String>::new());
    assert_eq!(tok("   "), Vec::<String>::new());
    assert_eq!(tok("''"), Vec::<String>::new());
    assert_eq!(tok("'"), Vec::<String>::new());
    assert_eq!(tok(" ' "), Vec::<String>::new());
    assert_eq!(tok("a'"), vec!["a"]); // Trailing quote apostrophe stripped
    assert_eq!(tok("'a"), vec!["a"]); // Leading quote apostrophe stripped
    assert_eq!(tok("a'b"), vec!["a'b"]); // Internal apostrophe kept
    assert_eq!(tok(" leading space"), vec!["leading", "space"]);
    assert_eq!(tok("trailing space "), vec!["trailing", "space"]);
    assert_eq!(tok("token1 token2"), vec!["token", "token"]); // Numbers filtered
}

#[test]
fn test_tokenize_double_single_quotes_around_sentence() {
    let line = "''You two are so...''";
    let tokens = tok(line);
    assert_eq!(tokens, vec!["You", "two", "are", "so", ".", ".", "."]);
}

#[test]
fn test_tokenize_single_quote_around_contraction_phrase() {
    let line = "'don't worry daisy'";
    let tokens = tok(line);
    assert_eq!(tokens, vec!["don't", "worry", "daisy"]);
}

#[test]
fn test_tokenize_handles_mixed_quoting_and_contractions() {
    let line = "''I'm not sure,'' she said, '''tis a problem.'";
    let tokens = tok(line);
    assert_eq!(
        tokens,
        vec!["I'm", "not", "sure", ",", "she", "said", ",", "tis", "a", "problem", "."]
    );
}

#[test]
fn test_tokenize_single_quotes_within_word_not_stripped() {
    let line = "o'clock";
    let tokens = tok(line);
    assert_eq!(tokens, vec!["o'clock"]);
}

#[test]
fn test_tokenize_multiple_leading_and_trailing_apostrophes() {
    let line = "'''word'''";
    let tokens = tok(line);
    assert_eq!(tokens, vec!["word"]);
}

#[test]
fn test_tokenize_apostrophes_only_token() {
    let line = "'''";
    let tokens = tok(line);
    assert_eq!(tokens, Vec::<String>::new());
}

#[test]
fn test_tokenize_apostrophe_with_contraction() {
    let line = "''can't''";
    let tokens = tok(line);
    assert_eq!(tokens, vec!["can't"]);
}

#[test]
fn test_tokenize_punctuation_tokens() {
    // Test that commas and periods are preserved as separate tokens
    let line = "Hello, world. How are you, friend?";
    let tokens = tok(line);
    assert_eq!(
        tokens,
        vec!["Hello", ",", "world", ".", "How", "are", "you", ",", "friend"]
    );

    // Test multiple consecutive punctuation
    let line2 = "Wait... really?!";
    let tokens2 = tok(line2);
    assert_eq!(tokens2, vec!["Wait", ".", ".", ".", "really"]);

    // Test mixed punctuation
    let line3 = "Yes, no. Maybe, sure.";
    let tokens3 = tok(line3);
    assert_eq!(tokens3, vec!["Yes", ",", "no", ".", "Maybe", ",", "sure", "."]);

    // Test that other punctuation is still ignored
    let line4 = "Hello! World? Test: example; done-";
    let tokens4 = tok(line4);
    assert_eq!(tokens4, vec!["Hello", "World", "Test", "example", "done"]);
}

#[test]
fn test_possessive_apostrophes() {
    let line = "The bird's nest and the birds' nests. James's book.";
    let tokens = tok(line);
    assert_eq!(
        tokens,
        vec![
            "The", "bird's", "nest", "and", "the", "birds'", "nests", ".", "James's", "book",
            "."
        ]
    );
}

#[test]
fn test_mixed_numbers_and_apostrophes() {
    let line = "The 1980's were great but '80s is shorter";
    let tokens = tok(line);
    // 1980's becomes "s" after filtering "1980"
    // '80s becomes "s" after filtering "80"
    assert_eq!(
        tokens,
        vec!["The", "s", "were", "great", "but", "s", "is", "shorter"]
    );
}

#[test]
fn test_contractions_at_start() {
    // Leading apostrophes are stripped, so 'tis becomes tis
    let line = "'Tis the season, 'twas the night";
    let tokens = tok(line);
    assert_eq!(
        tokens,
        vec!["Tis", "the", "season", ",", "twas", "the", "night"]
    );
}

#[test]
fn test_roman_numerals_later_filtered() {
    // These should tokenize fine here, but be filtered in preprocessing
    let line = "Chapter IV: Section III and Appendix VII.";
    let tokens = tok(line);
    assert_eq!(
        tokens,
        vec!["Chapter", "IV", "Section", "III", "and", "Appendix", "VII", "."]
    );
}
