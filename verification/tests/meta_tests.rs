use llms_unplugged::{model_type_str, multi_book_metadata, Metadata};

fn stub_metadata() -> Metadata {
    Metadata {
        title: "Test".to_string(),
        author: "Author".to_string(),
        url: "https://example.com".to_string(),
        n: 2,
        subtitle: "A bigram language model".to_string(),
        version: "test".to_string(),
        stats: None,
    }
}

#[test]
fn formats_multi_book_metadata() {
    let meta = stub_metadata();
    let updated = multi_book_metadata(&meta, "A-C", 1, 3);
    assert!(updated.subtitle.contains("A\u{2013}C"));
    assert!(updated.subtitle.contains("Book 2 of 3"));
}

#[test]
fn multi_book_subtitle_is_exact() {
    let meta = stub_metadata();
    let updated = multi_book_metadata(&meta, "D-F", 0, 2);
    assert_eq!(
        updated.subtitle,
        "A bigram language model: D\u{2013}F (Book 1 of 2)"
    );
    assert_eq!(updated.title, "Test");
    assert_eq!(updated.author, "Author");
    assert_eq!(updated.url, "https://example.com");
    assert_eq!(updated.version, "test");
    assert_eq!(updated.n, 2);
}

#[test]
fn model_type_names() {
    assert_eq!(model_type_str(1), "unigram");
    assert_eq!(model_type_str(2), "bigram");
    assert_eq!(model_type_str(3), "trigram");
    assert_eq!(model_type_str(4), "4-gram");
    assert_eq!(model_type_str(12), "12-gram");
}
