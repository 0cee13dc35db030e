use crony_researcher::index::{tokenize, IndexBuilder, SearchResult};

fn indexer(ratio: u64, records: Vec<(usize, &str)>) -> crony_researcher::index::Indexer {
    let mut builder = IndexBuilder::new(ratio);
    builder.bulk_add(records.into_iter().map(|(i, t)| (i, t.to_string())).collect());
    builder.build()
}

fn ids(results: &[SearchResult]) -> Vec<usize> {
    let mut v: Vec<usize> = results.iter().map(|r| r.id).collect();
    v.sort_unstable();
    v
}

#[test]
fn test_tokenize_trigrams() {
    let text = "hello world";
    let trigrams = tokenize(text);

    assert_eq!(
        trigrams,
        vec![
            ['h', 'e', 'l'],
            ['e', 'l', 'l'],
            ['l', 'l', 'o'],
            ['w', 'o', 'r'],
            ['o', 'r', 'l'],
            ['r', 'l', 'd']
        ]
    );
}

#[test]
fn test_tokenize_short_words() {
    let text = "a bc def";
    let trigrams = tokenize(text);

    assert_eq!(trigrams, vec![['d', 'e', 'f']]);
}

#[test]
fn test_index_builder_and_search() {
    let mut builder = IndexBuilder::new(500_000);

    builder.bulk_add(vec![
        (1, "hello world".to_string()),
        (2, "hello kitty".to_string()),
        (3, "something else completely".to_string()),
    ]);

    let indexer = builder.build();

    let results = indexer.search("hello", 6);

    assert_eq!(results.len(), 2);

    let mut ids: Vec<usize> = results.iter().map(|r| r.id).collect();

    ids.sort_unstable();

    assert_eq!(ids, vec![1, 2]);

    for result in results {
        assert_eq!(result.distance, 6);
    }
}

#[test]
fn test_search_by_id() {
    let mut builder = IndexBuilder::new(500_000);

    builder.bulk_add(vec![
        (1, "the quick brown fox".to_string()),
        (2, "the fast brown fox".to_string()),
        (3, "unrelated text here".to_string()),
    ]);

    let indexer = builder.build();

    let results = indexer.search_by_id(1, 10);

    assert_eq!(results.len(), 1);
    assert_eq!(results[0].id, 2);
}

#[test]
fn tokenize_lowercases_and_splits_on_punctuation() {
    assert_eq!(tokenize("AB-CDE"), vec![['c', 'd', 'e']]);
    assert_eq!(tokenize("aaaa"), vec![['a', 'a', 'a'], ['a', 'a', 'a']]);
    assert!(tokenize("").is_empty());
}

#[test]
fn tokenize_reads_at_most_ten_thousand_chars() {
    let long = "a".repeat(10_010);
    assert_eq!(tokenize(&long).len(), 9_998);
    let exact = "a".repeat(10_000);
    assert_eq!(tokenize(&exact).len(), 9_998);
}

#[test]
fn search_results_sorted_by_distance() {
    let ix = indexer(0, vec![(1, "abcd efgh"), (2, "abcd efgx"), (3, "abcd efxy")]);
    let r = ix.search("abcd efgh", 3);
    assert_eq!(ids(&r), vec![1, 2, 3]);
    assert_eq!(r.iter().map(|x| x.distance).collect::<Vec<_>>(), vec![0, 1, 2]);
}

#[test]
fn search_exact_match_is_distance_zero() {
    let ix = indexer(1_000_000, vec![(7, "World, Hello!"), (8, "hello there")]);
    let r = ix.search("hello world", 0);
    assert_eq!(r, vec![SearchResult { id: 7, distance: 0 }]);
}

#[test]
fn search_without_trigrams_is_empty() {
    let ix = indexer(0, vec![(1, "ab"), (2, "abc")]);
    assert!(ix.search("ab", 5).is_empty());
    assert!(ix.search("", 5).is_empty());
}

#[test]
fn search_by_id_unknown_id_is_empty() {
    let ix = indexer(500_000, vec![(1, "hello world"), (2, "hello world")]);
    assert!(ix.search_by_id(99, 5).is_empty());
}

#[test]
fn search_by_id_only_reports_higher_ids() {
    let ix = indexer(0, vec![(1, "same text"), (2, "same text"), (3, "same text")]);
    assert_eq!(ids(&ix.search_by_id(2, 0)), vec![3]);
    assert_eq!(ids(&ix.search_by_id(1, 0)), vec![2, 3]);
    assert!(ix.search_by_id(3, 4).is_empty());
}

#[test]
fn search_by_id_finds_near_twin() {
    let ix = indexer(500_000, vec![(4, "record linkage pipeline"), (9, "record linkage pipelines")]);
    assert_eq!(ix.search_by_id(4, 1), vec![SearchResult { id: 9, distance: 1 }]);
    assert!(ix.search_by_id(4, 0).is_empty());
}

#[test]
fn blank_records_are_skipped() {
    let ix = indexer(0, vec![(1, "   "), (2, "")]);
    assert!(ix.search_by_id(1, 3).is_empty());
    assert!(ix.search("   abc", 3).is_empty());
}

#[test]
fn duplicate_id_takes_later_text() {
    let ix = indexer(1_000_000, vec![(5, "alpha beta"), (5, "gamma delta"), (6, "gamma delta")]);
    assert!(ix.search("alpha beta", 0).is_empty());
    assert_eq!(ids(&ix.search("gamma delta", 0)), vec![5, 6]);
}

#[test]
fn match_ratio_above_one_is_clamped() {
    let ix = indexer(7_000_000, vec![(1, "hello world"), (2, "hello")]);
    assert_eq!(ids(&ix.search("hello", 10)), vec![1, 2]);
}

#[test]
fn full_ratio_requires_every_trigram() {
    let ix = indexer(1_000_000, vec![(1, "hello world"), (2, "help")]);
    assert_eq!(ids(&ix.search("hello", 10)), vec![1]);
}

#[test]
fn repeated_id_drops_its_earlier_postings() {
    let ix = indexer(0, vec![(5, "alpha beta"), (5, "alpha gamma"), (6, "beta")]);
    assert_eq!(ids(&ix.search("beta", 20)), vec![6]);
    assert_eq!(ids(&ix.search("gamma", 20)), vec![5]);
}

#[test]
fn add_single_replaces_a_record() {
    let mut builder = IndexBuilder::new(0);
    builder.add_single(1, "first words".to_string());
    builder.add_single(1, "other text".to_string());
    builder.add_single(1, "   ".to_string());
    let ix = builder.build();
    assert!(ix.search("first words", 30).is_empty());
    assert_eq!(ix.search("other text", 0), vec![SearchResult { id: 1, distance: 0 }]);
}
