use llms_unplugged::{Normalizer, NormalizerConfig};

fn normalizer() -> Normalizer {
    Normalizer::new(NormalizerConfig::new(vec![',', '.']))
}

#[test]
fn strips_quotes_and_lowercases() {
    let tokens = normalizer().normalize_line("'Hello,' she said. ''BEST''");
    assert_eq!(tokens, vec!["hello", ",", "she", "said", ".", "best"]);
}

#[test]
fn preserves_allowlisted_casing() {
    let tokens = normalizer().normalize_line("I think I'm fine and i've said so.");
    assert_eq!(
        tokens,
        vec!["I", "think", "I'm", "fine", "and", "I've", "said", "so", "."]
    );
}

#[test]
fn filters_numbers_and_roman_numerals() {
    let tokens = normalizer().normalize_line("Chapter IV is 123good and Section3 is fine.");
    assert_eq!(
        tokens,
        vec!["chapter", "is", "good", "and", "section", "is", "fine", "."]
    );
}

#[test]
fn handles_contractions_and_possessives() {
    let tokens = normalizer().normalize_line("The bird's nest and the birds' nests. goin' on");
    assert_eq!(
        tokens,
        vec![
            "the", "bird's", "nest", "and", "the", "birds'", "nests", ".", "goin'", "on"
        ]
    );
}

#[test]
fn punctuation_tokens_are_preserved() {
    let tokens = normalizer().normalize_line("Hello, world. How are you?");
    assert_eq!(tokens, vec!["hello", ",", "world", ".", "how", "are", "you"]);
}
