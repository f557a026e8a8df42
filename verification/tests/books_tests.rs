use llms_unplugged::{split_entries_into_books, WordFollowEntry};

#[test]
fn test_split_entries_into_books() {
    // Create test entries with various prefixes
    let entries = vec![
        WordFollowEntry {
            prefix: vec!["apple".to_string()],
            followers: vec![("pie".to_string(), 3), ("juice".to_string(), 2)],
        },
        WordFollowEntry {
            prefix: vec!["banana".to_string()],
            followers: vec![("split".to_string(), 1)],
        },
        WordFollowEntry {
            prefix: vec!["cherry".to_string()],
            followers: vec![("pie".to_string(), 2)],
        },
        WordFollowEntry {
            prefix: vec!["date".to_string()],
            followers: vec![("palm".to_string(), 1)],
        },
        WordFollowEntry {
            prefix: vec!["elderberry".to_string()],
            followers: vec![("wine".to_string(), 1)],
        },
        WordFollowEntry {
            prefix: vec!["fig".to_string()],
            followers: vec![("tree".to_string(), 2)],
        },
        WordFollowEntry {
            prefix: vec!["grape".to_string()],
            followers: vec![("vine".to_string(), 3), ("juice".to_string(), 1)],
        },
        WordFollowEntry {
            prefix: vec!["honeydew".to_string()],
            followers: vec![("melon".to_string(), 1)],
        },
    ];

    // Test with no splitting (1 book)
    let books = split_entries_into_books(&entries, 1);
    assert_eq!(books.len(), 1);
    assert_eq!(books[0].0, "");
    assert_eq!(books[0].1.len(), 8);

    // Test with 2 books
    let books = split_entries_into_books(&entries, 2);
    assert_eq!(books.len(), 2);
    // Total entries should be preserved
    let total_entries: usize = books.iter().map(|(_, entries)| entries.len()).sum();
    assert_eq!(total_entries, 8);

    // Test with 3 books - should return exactly 3 groups
    let books = split_entries_into_books(&entries, 3);
    assert_eq!(books.len(), 3, "Expected 3 books");
    let total_entries: usize = books.iter().map(|(_, entries)| entries.len()).sum();
    assert_eq!(total_entries, 8);

    // Test that entries are not duplicated or lost
    for book in &books {
        for entry in &book.1 {
            // Check that each entry appears in original list
            assert!(entries.iter().any(|e| e.prefix == entry.prefix));
        }
    }
}

#[test]
fn test_split_entries_balanced() {
    // Create entries with uneven distribution of followers
    let entries = vec![
        WordFollowEntry {
            prefix: vec!["a".to_string()],
            followers: vec![("x".to_string(), 100)], // Heavy entry
        },
        WordFollowEntry {
            prefix: vec!["b".to_string()],
            followers: vec![("y".to_string(), 1)],
        },
        WordFollowEntry {
            prefix: vec!["c".to_string()],
            followers: vec![("z".to_string(), 1)],
        },
        WordFollowEntry {
            prefix: vec!["d".to_string()],
            followers: vec![("w".to_string(), 100)], // Heavy entry
        },
    ];

    // Split into 2 books - should balance by follower count
    let books = split_entries_into_books(&entries, 2);

    // Debug output
    println!("Books created: {}", books.len());
    for (name, entries) in &books {
        println!("  Book '{}': {} entries", name, entries.len());
    }

    assert_eq!(books.len(), 2);

    // Both books should have entries
    assert!(books[0].1.len() > 0);
    assert!(books[1].1.len() > 0);

    // Total entries preserved
    let total_entries: usize = books.iter().map(|(_, entries)| entries.len()).sum();
    assert_eq!(total_entries, 4);
}
