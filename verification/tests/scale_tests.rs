use llms_unplugged::{scale_entries, scale_entry, split_entries_into_books, WordFollowEntry};

fn entry(prefix: &[&str], followers: &[(&str, usize)]) -> WordFollowEntry {
    WordFollowEntry {
        prefix: prefix.iter().map(|w| w.to_string()).collect(),
        followers: followers.iter().map(|(w, c)| (w.to_string(), *c)).collect(),
    }
}

#[test]
fn digit_range_scaling_matches_rounding() {
    // total 10 has two digits, so the target maximum is 99; cumulative
    // counts 5, 8, 10 scale to round(49.5) = 50, round(79.2) = 79, 99
    let e = entry(&["the"], &[("dog", 5), ("cat", 3), ("bird", 2)]);
    let s = scale_entry(&e, None, false);
    assert_eq!(s.prefix, "the");
    assert_eq!(s.total, 99);
    assert_eq!(
        s.followers,
        vec![
            ("dog".to_string(), 50),
            ("cat".to_string(), 79),
            ("bird".to_string(), 99)
        ]
    );
}

#[test]
fn d_scaling_is_strictly_increasing_to_the_die_size() {
    // factor 12: ceil(5 * 12) = 60, ceil(8 * 12) = 96, last forced to 120
    let e = entry(&["the"], &[("dog", 5), ("cat", 3), ("bird", 2)]);
    let s = scale_entry(&e, Some(120), false);
    assert_eq!(s.total, 120);
    assert_eq!(
        s.followers,
        vec![
            ("dog".to_string(), 60),
            ("cat".to_string(), 96),
            ("bird".to_string(), 120)
        ]
    );
    for pair in s.followers.windows(2) {
        assert!(pair[0].1 < pair[1].1, "d-scaled values must strictly increase");
    }
    assert_eq!(s.followers.last().unwrap().1, 120);
}

#[test]
fn equal_counts_spread_over_the_die() {
    // three equal counts on a d120: 40, 80, 120
    let e = entry(&["count"], &[("a", 1), ("b", 1), ("c", 1)]);
    let s = scale_entry(&e, Some(120), false);
    assert_eq!(s.total, 120);
    assert_eq!(
        s.followers,
        vec![
            ("a".to_string(), 40),
            ("b".to_string(), 80),
            ("c".to_string(), 120)
        ]
    );
}

#[test]
fn two_equal_counts_on_a_d120() {
    let e = entry(&["test"], &[("one", 1), ("two", 1)]);
    let s = scale_entry(&e, Some(120), false);
    assert_eq!(s.total, 120);
    assert_eq!(
        s.followers,
        vec![("one".to_string(), 60), ("two".to_string(), 120)]
    );
}

#[test]
fn fallback_when_followers_exceed_die_size() {
    // four unique followers on a requested d3 fall back to the digit
    // range: total 4 has one digit, target maximum 9
    let e = entry(
        &["duplicate"],
        &[("first", 1), ("second", 1), ("third", 1), ("fourth", 1)],
    );
    let s = scale_entry(&e, Some(3), false);
    assert_eq!(s.total, 9);
    let vals: Vec<usize> = s.followers.iter().map(|(_, v)| *v).collect();
    for pair in vals.windows(2) {
        assert!(pair[0] < pair[1], "fallback values should increase here");
    }
    assert_eq!(*vals.last().unwrap(), 9);
}

#[test]
fn fallback_when_die_cannot_separate_followers() {
    // two followers cannot map uniquely onto a d1
    let e = entry(&["edge"], &[("a", 1), ("b", 1)]);
    let s = scale_entry(&e, Some(1), false);
    assert_eq!(s.total, 9);
}

#[test]
fn uneven_counts_still_fit_a_small_die() {
    let e = entry(&["mixed"], &[("a", 1), ("b", 99)]);
    let s = scale_entry(&e, Some(2), false);
    assert_eq!(s.total, 2);
    assert_eq!(s.followers[0].1, 1);
    assert_eq!(s.followers[1].1, 2);
}

#[test]
fn single_follower_takes_the_whole_die() {
    let e = entry(&["the", "quick"], &[("brown", 1)]);
    let s = scale_entry(&e, Some(120), false);
    assert_eq!(s.prefix, "the quick");
    assert_eq!(s.total, 120);
    assert_eq!(s.followers, vec![("brown".to_string(), 120)]);
}

#[test]
fn die_size_zero_forces_the_fallback() {
    let e = entry(&["the", "quick"], &[("brown", 1)]);
    let s = scale_entry(&e, Some(0), false);
    assert_eq!(s.total, 9);
    assert_eq!(s.followers, vec![("brown".to_string(), 9)]);
}

#[test]
fn raw_mode_keeps_exact_cumulative_counts() {
    let e1 = entry(&["the"], &[("dog", 3), ("cat", 2), ("bird", 1)]);
    let s1 = scale_entry(&e1, None, true);
    assert_eq!(s1.total, 6);
    assert_eq!(
        s1.followers,
        vec![
            ("dog".to_string(), 3),
            ("cat".to_string(), 5),
            ("bird".to_string(), 6)
        ]
    );
    let e2 = entry(&["a"], &[("house", 5), ("tree", 4)]);
    let s2 = scale_entry(&e2, None, true);
    assert_eq!(s2.total, 9);
    assert_eq!(
        s2.followers,
        vec![("house".to_string(), 5), ("tree".to_string(), 9)]
    );
}

#[test]
fn raw_and_scaled_differ() {
    let e = entry(&["test"], &[("word1", 10), ("word2", 8), ("word3", 7)]);
    let raw = scale_entry(&e, None, true);
    let scaled = scale_entry(&e, None, false);
    assert_eq!(raw.total, 25);
    assert_eq!(raw.followers[0].1, 10);
    assert_eq!(raw.followers[1].1, 18);
    assert_eq!(raw.followers[2].1, 25);
    assert_eq!(scaled.total, 99);
    assert_ne!(scaled.followers[0].1, raw.followers[0].1);
    assert_ne!(scaled.followers[1].1, raw.followers[1].1);
    assert_ne!(scaled.followers[2].1, raw.followers[2].1);
}

#[test]
fn zero_total_degenerates() {
    let e = entry(&["lonely"], &[]);
    let s = scale_entry(&e, Some(20), false);
    assert_eq!(s.prefix, "lonely");
    assert_eq!(s.total, 0);
    assert!(s.followers.is_empty());
}

#[test]
fn whole_lists_are_scaled_entry_by_entry() {
    let es = vec![
        entry(&["hello"], &[("world", 2), ("again", 1)]),
        entry(&["world"], &[("hello", 1)]),
    ];
    let rows = scale_entries(&es, None, false);
    assert_eq!(rows.len(), 2);
    assert_eq!(rows[0].prefix, "hello");
    assert_eq!(rows[0].total, 9);
    assert_eq!(
        rows[0].followers,
        vec![("world".to_string(), 6), ("again".to_string(), 9)]
    );
    assert_eq!(rows[1].prefix, "world");
    assert_eq!(rows[1].total, 9);
    assert_eq!(rows[1].followers, vec![("hello".to_string(), 9)]);
}

#[test]
fn books_partition_and_are_labeled() {
    let entries = vec![
        entry(&["apple"], &[("pie", 3), ("juice", 2)]),
        entry(&["banana"], &[("split", 1)]),
        entry(&["cherry"], &[("pie", 2)]),
        entry(&["date"], &[("palm", 1)]),
        entry(&["elderberry"], &[("wine", 1)]),
        entry(&["fig"], &[("tree", 2)]),
        entry(&["grape"], &[("vine", 3), ("juice", 1)]),
        entry(&["honeydew"], &[("melon", 1)]),
    ];
    let books = split_entries_into_books(&entries, 3);
    assert_eq!(books.len(), 3);
    assert_eq!(books[0].0, "A-B");
    assert_eq!(books[1].0, "C-F");
    assert_eq!(books[2].0, "G-H");
    // concatenating the books in order reconstructs the original list
    let flat: Vec<&WordFollowEntry> = books.iter().flat_map(|(_, b)| b.iter()).collect();
    assert_eq!(flat.len(), entries.len());
    for (orig, got) in entries.iter().zip(flat) {
        assert_eq!(orig, got);
    }
}

#[test]
fn empty_entry_list_yields_one_empty_book() {
    let entries: Vec<WordFollowEntry> = vec![];
    let books = split_entries_into_books(&entries, 5);
    assert_eq!(books.len(), 1);
    assert_eq!(books[0].0, "");
    assert!(books[0].1.is_empty());
}

#[test]
fn zero_weight_entries_still_count_toward_balancing() {
    let entries = vec![
        entry(&["a"], &[]),
        entry(&["b"], &[]),
        entry(&["c"], &[]),
        entry(&["d"], &[]),
    ];
    let books = split_entries_into_books(&entries, 2);
    assert_eq!(books.len(), 2);
    assert_eq!(books[0].1.len(), 2);
    assert_eq!(books[1].1.len(), 2);
}
