use llms_unplugged::{
    parse_frontmatter, split_frontmatter, Canonicalizer, ModelError, NGramCounter,
};

fn counter() -> NGramCounter {
    NGramCounter::new(2, vec![',', '.'])
}

#[test]
fn get_entries_is_idempotent() {
    let mut c = counter();
    c.process_line("The Dog barked. the dog slept, I said.");
    c.process_line("NASA announced plans. NASA continues research.");
    let first = c.get_entries();
    let second = c.get_entries();
    assert_eq!(first, second);
}

#[test]
fn case_convergence_in_output() {
    let mut c = counter();
    // "The"/"the" and "Dog"/"dog" both appear with two capitalizations
    c.process_line("The Dog barked. the dog slept.");
    let entries = c.get_entries();
    for e in &entries {
        for w in &e.prefix {
            assert_ne!(w, "The", "ambiguous word must render lowercase");
            assert_ne!(w, "Dog", "ambiguous word must render lowercase");
        }
        for (f, _) in &e.followers {
            assert_ne!(f, "The");
            assert_ne!(f, "Dog");
        }
    }
    assert!(entries.iter().any(|e| e.prefix == vec!["the"]));
    assert!(entries.iter().any(|e| e.prefix == vec!["dog"]));
}

#[test]
fn consistent_case_is_preserved() {
    let mut c = counter();
    c.process_line("NASA announced plans. NASA continues research.");
    let entries = c.get_entries();
    assert!(
        entries.iter().any(|e| e.prefix == vec!["NASA"]),
        "consistent capitalization keeps its spelling"
    );
    assert!(!entries.iter().any(|e| e.prefix == vec!["nasa"]));
}

#[test]
fn convergence_applies_retroactively() {
    let mut c = counter();
    // "Google" is recorded capitalized first; the ambiguity appears later
    c.process_line("See Google results. See google search.");
    let entries = c.get_entries();
    assert!(entries.iter().any(|e| e.prefix == vec!["google"]));
    assert!(!entries.iter().any(|e| e.prefix == vec!["Google"]));
    let see = entries.iter().find(|e| e.prefix == vec!["See"]).unwrap();
    assert!(see.followers.iter().any(|(w, n)| w == "google" && *n == 2));
}

#[test]
fn pronoun_always_capitalized() {
    let mut c = counter();
    c.process_line("i think i am sure. I said so, i'm sure i'll stay.");
    let entries = c.get_entries();
    assert!(entries.iter().any(|e| e.prefix == vec!["I"]));
    assert!(!entries.iter().any(|e| e.prefix == vec!["i"]));
    assert!(entries.iter().any(|e| e.prefix == vec!["I'm"]));
    assert!(entries.iter().any(|e| e.prefix == vec!["I'll"]));
}

#[test]
fn canonicalizer_pins_ambiguity_permanently() {
    let mut canon = Canonicalizer::new();
    assert_eq!(canon.canonicalize(&"NASA".to_string()), "NASA");
    assert_eq!(canon.canonicalize(&"NASA".to_string()), "NASA");
    // a second spelling pins the word to lowercase for good
    assert_eq!(canon.canonicalize(&"nasa".to_string()), "nasa");
    assert_eq!(canon.canonicalize(&"NASA".to_string()), "nasa");
    // final resolution maps every spelling to the pinned form
    assert_eq!(canon.resolve(&"NASA".to_string()), "nasa");
    assert_eq!(canon.resolve(&"NaSa".to_string()), "nasa");
}

#[test]
fn canonicalizer_overrides_pronouns() {
    let mut canon = Canonicalizer::new();
    assert_eq!(canon.canonicalize(&"i".to_string()), "I");
    assert_eq!(canon.canonicalize(&"I".to_string()), "I");
    assert_eq!(canon.canonicalize(&"i'm".to_string()), "I'm");
    assert_eq!(canon.canonicalize(&"i've".to_string()), "I've");
    assert_eq!(canon.canonicalize(&"i'd".to_string()), "I'd");
    assert_eq!(canon.canonicalize(&"i'll".to_string()), "I'll");
    assert_eq!(canon.resolve(&"i".to_string()), "I");
}

#[test]
fn sliding_window_records_each_boundary_once() {
    let mut c = counter();
    c.process_line("alpha bravo charlie");
    let entries = c.get_entries();
    assert_eq!(entries.len(), 2);
    let a = entries.iter().find(|e| e.prefix == vec!["alpha"]).unwrap();
    assert_eq!(a.followers, vec![("bravo".to_string(), 1)]);
    let b = entries.iter().find(|e| e.prefix == vec!["bravo"]).unwrap();
    assert_eq!(b.followers, vec![("charlie".to_string(), 1)]);
    assert_eq!(c.get_stats().total_ngram_occurrences, 2);
    assert_eq!(c.get_stats().total_tokens, 3);
}

#[test]
fn window_spans_lines() {
    let mut c = counter();
    c.process_line("alpha bravo");
    c.process_line("charlie");
    let entries = c.get_entries();
    let b = entries.iter().find(|e| e.prefix == vec!["bravo"]).unwrap();
    assert_eq!(b.followers, vec![("charlie".to_string(), 1)]);
}

#[test]
fn trigram_prefixes_have_two_words() {
    let mut c = NGramCounter::new(3, vec![',', '.']);
    c.process_line("the quick brown fox jumps over the lazy dog");
    let entries = c.get_entries();
    let tq = entries
        .iter()
        .find(|e| e.prefix == vec!["the", "quick"])
        .expect("prefix ['the', 'quick'] missing");
    assert_eq!(tq.followers, vec![("brown".to_string(), 1)]);
    let qb = entries
        .iter()
        .find(|e| e.prefix == vec!["quick", "brown"])
        .expect("prefix ['quick', 'brown'] missing");
    assert_eq!(qb.followers, vec![("fox".to_string(), 1)]);
    assert_eq!(c.get_stats().total_tokens, 9);
}

#[test]
fn ngram_order_below_two_is_clamped() {
    let mut c = NGramCounter::new(0, vec![',', '.']);
    c.process_line("alpha bravo");
    let entries = c.get_entries();
    let a = entries.iter().find(|e| e.prefix == vec!["alpha"]).unwrap();
    assert_eq!(a.followers, vec![("bravo".to_string(), 1)]);
}

#[test]
fn output_sort_invariants_hold() {
    let mut c = counter();
    c.process_line("delta alpha Charlie bravo delta alpha echo bravo Charlie delta");
    let entries = c.get_entries();
    // prefixes are case-insensitively non-decreasing
    for pair in entries.windows(2) {
        let a: Vec<String> = pair[0].prefix.iter().map(|w| w.to_lowercase()).collect();
        let b: Vec<String> = pair[1].prefix.iter().map(|w| w.to_lowercase()).collect();
        assert!(a <= b, "prefixes out of order: {:?} then {:?}", a, b);
    }
    // followers are non-increasing by count, ties alphabetical
    for e in &entries {
        for pair in e.followers.windows(2) {
            assert!(
                pair[0].1 > pair[1].1
                    || (pair[0].1 == pair[1].1
                        && pair[0].0.to_lowercase() <= pair[1].0.to_lowercase()),
                "followers out of order in {:?}",
                e
            );
        }
    }
}

#[test]
fn statistics_find_the_heaviest_pair_and_prefix() {
    let mut c = counter();
    c.process_line("the cat sat on the mat and the cat ate");
    c.calculate_statistics();
    let stats = c.get_stats();
    assert_eq!(stats.unique_ngrams, 6);
    let (prefix, follower, count) = stats.most_common_ngram.clone().unwrap();
    assert_eq!(prefix, vec!["the"]);
    assert_eq!(follower, "cat");
    assert_eq!(count, 2);
    let (popular, total) = stats.most_popular_prefix.clone().unwrap();
    assert_eq!(popular, vec!["the"]);
    assert_eq!(total, 3);
}

#[test]
fn spec_example_line_tokenizes_and_capitalizes() {
    // the worked example: quote apostrophes stripped, "I" forced
    // capital, comma and period kept as standalone tokens
    let mut c = counter();
    c.process_line("'Hello,' she said. He replied, 'I agree.'");
    assert_eq!(c.get_stats().total_tokens, 11);
    let entries = c.get_entries();
    assert!(entries.iter().any(|e| e.prefix == vec!["I"]));
    let i_entry = entries.iter().find(|e| e.prefix == vec!["I"]).unwrap();
    assert_eq!(i_entry.followers, vec![("agree".to_string(), 1)]);
    let replied = entries.iter().find(|e| e.prefix == vec!["replied"]).unwrap();
    assert_eq!(replied.followers, vec![(",".to_string(), 1)]);
}

#[test]
fn contractions_survive_the_whole_pipeline() {
    let mut c = counter();
    c.process_line(
        "The bird's nest and the birds' nests weren't gone. Don't worry, it'll be fine. goin' to see.",
    );
    let entries = c.get_entries();
    for w in ["bird's", "birds'", "weren't", "Don't", "it'll", "goin'"] {
        assert!(
            entries.iter().any(|e| e.prefix == vec![w])
                || entries
                    .iter()
                    .any(|e| e.followers.iter().any(|(f, _)| f == w)),
            "token {} should survive tokenization unsplit",
            w
        );
    }
}

#[test]
fn frontmatter_is_split_and_parsed() {
    let lines: Vec<String> = vec![
        "---".to_string(),
        "title: Test Document".to_string(),
        "author: Test Author".to_string(),
        "url: https://example.com".to_string(),
        "---".to_string(),
        "Hello world.".to_string(),
    ];
    let (raw, body_start) = split_frontmatter(&lines).expect("front matter should split");
    assert_eq!(body_start, 5);
    let meta = parse_frontmatter(&raw, 2, "test").expect("front matter should parse");
    assert_eq!(meta.title, "Test Document");
    assert_eq!(meta.author, "Test Author");
    assert_eq!(meta.url, "https://example.com");
    assert_eq!(meta.n, 2);
    assert_eq!(meta.subtitle, "A bigram language model");
    assert_eq!(meta.version, "test");
    assert!(meta.stats.is_none());
}

#[test]
fn frontmatter_structure_errors() {
    let empty: Vec<String> = vec![];
    assert_eq!(split_frontmatter(&empty), Err(ModelError::EmptyInput));

    let no_start = vec!["Hello world.".to_string()];
    assert_eq!(
        split_frontmatter(&no_start),
        Err(ModelError::MissingFrontmatterStart)
    );

    let unterminated = vec!["---".to_string(), "title: X".to_string()];
    assert_eq!(
        split_frontmatter(&unterminated),
        Err(ModelError::UnterminatedFrontmatter)
    );
}

#[test]
fn frontmatter_field_errors() {
    assert_eq!(
        parse_frontmatter("malformed: - this is not valid YAML\n", 2, "test"),
        Err(ModelError::InvalidYaml)
    );
    assert_eq!(
        parse_frontmatter("author: A\nurl: U\n", 2, "test"),
        Err(ModelError::MissingTitle)
    );
    assert_eq!(
        parse_frontmatter("title: T\nurl: U\n", 2, "test"),
        Err(ModelError::MissingAuthor)
    );
    assert_eq!(
        parse_frontmatter("title: T\nauthor: A\n", 2, "test"),
        Err(ModelError::MissingUrl)
    );
}

#[test]
fn error_messages_name_the_problem() {
    assert_eq!(
        ModelError::EmptyInput.message(),
        "Input file is empty; expected YAML frontmatter."
    );
    assert_eq!(
        ModelError::MissingFrontmatterStart.message(),
        "Input must start with '---' followed by YAML frontmatter."
    );
    assert_eq!(
        ModelError::UnterminatedFrontmatter.message(),
        "Reached end of file before closing frontmatter delimiter '---'."
    );
    assert_eq!(ModelError::InvalidYaml.message(), "Invalid YAML frontmatter.");
    assert_eq!(
        ModelError::MissingTitle.message(),
        "Frontmatter missing required field 'title'."
    );
    assert_eq!(
        ModelError::MissingAuthor.message(),
        "Frontmatter missing required field 'author'."
    );
    assert_eq!(
        ModelError::MissingUrl.message(),
        "Frontmatter missing required field 'url'."
    );
}

#[test]
fn metadata_can_be_stored_on_the_counter() {
    let mut c = counter();
    assert!(c.get_metadata().is_none());
    let meta = parse_frontmatter("title: T\nauthor: A\nurl: U\n", 2, "v").unwrap();
    c.set_metadata(meta);
    let stored = c.get_metadata().expect("metadata should be stored");
    assert_eq!(stored.title, "T");
    assert_eq!(stored.author, "A");
    assert_eq!(stored.url, "U");
}
