use llms_unplugged::NGramCounter;

#[test]
fn test_follower_sort_order() {
    // Test the sorting of followers by count (largest to smallest)
    let mut counter = NGramCounter::new(2, vec![',', '.']);
    counter.process_line("the cat sat on the mat and the cat ate");

    // Get entries and check sorting
    let entries = counter.get_entries();

    // Find entry for "the"
    let the_entry = entries.iter().find(|e| e.prefix == vec!["the"]).unwrap();

    // Check that followers are sorted by count (largest to smallest)
    assert_eq!(the_entry.followers[0].0, "cat"); // "cat" should be first (count = 2)
    assert_eq!(the_entry.followers[0].1, 2);
    assert_eq!(the_entry.followers[1].0, "mat"); // "mat" should be second (count = 1)
    assert_eq!(the_entry.followers[1].1, 1);

    // Test equal counts with alphabetical tiebreaker
    let mut counter2 = NGramCounter::new(2, vec![',', '.']);
    counter2.process_line("he no test he yes test");

    let entries2 = counter2.get_entries();
    let he_entry = entries2.iter().find(|e| e.prefix == vec!["he"]).unwrap();

    // Both followers have count 1, so should be sorted alphabetically
    assert_eq!(he_entry.followers[0].0, "no"); // "no" comes before "yes" alphabetically
    assert_eq!(he_entry.followers[0].1, 1);
    assert_eq!(he_entry.followers[1].0, "yes");
    assert_eq!(he_entry.followers[1].1, 1);
}

#[test]
fn lib_test_follower_sort_order() {
    // The same behaviour through the default punctuation configuration
    let mut counter = NGramCounter::new(2, vec![',', '.']);
    counter.process_line("the cat sat on the mat and the cat ate");

    let entries = counter.get_entries();

    let the_entry = entries.iter().find(|e| e.prefix == vec!["the"]).unwrap();

    assert_eq!(the_entry.followers[0].0, "cat");
    assert_eq!(the_entry.followers[0].1, 2);
    assert_eq!(the_entry.followers[1].0, "mat");
    assert_eq!(the_entry.followers[1].1, 1);

    let mut counter2 = NGramCounter::new(2, vec![',', '.']);
    counter2.process_line("he no test he yes test");

    let entries2 = counter2.get_entries();
    let he_entry = entries2.iter().find(|e| e.prefix == vec!["he"]).unwrap();

    assert_eq!(he_entry.followers[0].0, "no");
    assert_eq!(he_entry.followers[0].1, 1);
    assert_eq!(he_entry.followers[1].0, "yes");
    assert_eq!(he_entry.followers[1].1, 1);
}
