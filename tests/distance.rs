use crony_researcher::distance::{levenshtein_distance_raw, normalize, DistanceBuffers};

fn chars(s: &str) -> Vec<char> {
    s.chars().collect()
}

fn norm(s: &str) -> String {
    let mut cleaned = String::new();
    let mut sorted = String::new();
    let mut ranges = Vec::new();
    normalize(s, &mut cleaned, &mut sorted, &mut ranges);
    sorted
}

#[test]
fn test_normalize() {
    let mut cleaned_buf = String::new();
    let mut sorted_buf = String::new();
    let mut token_ranges = Vec::new();

    normalize(
        "Hello World!",
        &mut cleaned_buf,
        &mut sorted_buf,
        &mut token_ranges,
    );

    assert_eq!(cleaned_buf, "hello world");
    assert_eq!(sorted_buf, "hello world");
    assert_eq!(token_ranges, vec![(0, 5), (6, 11)]);

    normalize(
        "World Hello",
        &mut cleaned_buf,
        &mut sorted_buf,
        &mut token_ranges,
    );
    assert_eq!(sorted_buf, "hello world");

    normalize(
        "  Test   cases!!!  ",
        &mut cleaned_buf,
        &mut sorted_buf,
        &mut token_ranges,
    );
    assert_eq!(cleaned_buf, "  test   cases  ");
    assert_eq!(sorted_buf, "cases test");
}

#[test]
fn test_levenshtein_distance_raw() {
    let mut bufs = DistanceBuffers::new();

    let a: Vec<char> = "kitten".chars().collect();
    let b: Vec<char> = "sitting".chars().collect();
    let max_distance = 10;

    let dist = levenshtein_distance_raw(&a, &b, max_distance, &mut bufs);
    assert_eq!(dist, 3);

    let a2: Vec<char> = "flaw".chars().collect();
    let b2: Vec<char> = "lawn".chars().collect();
    let dist2 = levenshtein_distance_raw(&a2, &b2, 10, &mut bufs);
    assert_eq!(dist2, 2);

    let dist_exceeds = levenshtein_distance_raw(&a, &b, 2, &mut bufs);
    assert_eq!(dist_exceeds, 3);

    let dist_exact = levenshtein_distance_raw(&a, &a, 10, &mut bufs);
    assert_eq!(dist_exact, 0);
}

#[test]
fn normalize_ignores_word_order() {
    assert_eq!(norm("b a c"), norm("c b a"));
    assert_eq!(norm("Zeta, alpha; MID"), "alpha mid zeta");
}

#[test]
fn normalize_empty_and_blank() {
    assert_eq!(norm(""), "");
    assert_eq!(norm("   \t \n "), "");
    assert_eq!(norm("!!! ..."), "");
}

#[test]
fn normalize_keeps_repeated_words() {
    assert_eq!(norm("b a b"), "a b b");
}

#[test]
fn normalize_reports_byte_spans_of_sorted_words() {
    let mut cleaned = String::new();
    let mut sorted = String::new();
    let mut ranges = Vec::new();
    normalize("\u{e9} a", &mut cleaned, &mut sorted, &mut ranges);
    assert_eq!(cleaned, "\u{e9} a");
    assert_eq!(sorted, "a \u{e9}");
    assert_eq!(ranges, vec![(3, 4), (0, 2)]);
}

#[test]
fn normalize_lowercases_beyond_ascii() {
    assert_eq!(norm("\u{c9}COLE"), "\u{e9}cole");
}

#[test]
fn normalize_reuses_buffers() {
    let mut cleaned = String::from("stale");
    let mut sorted = String::from("stale");
    let mut ranges = vec![(9, 9)];
    normalize("one", &mut cleaned, &mut sorted, &mut ranges);
    assert_eq!(cleaned, "one");
    assert_eq!(sorted, "one");
    assert_eq!(ranges, vec![(0, 3)]);
}

#[test]
fn distance_is_reflexive() {
    let mut bufs = DistanceBuffers::default();
    for s in ["", "a", "kitten", "the quick brown fox"] {
        for k in [0usize, 1, 5] {
            assert_eq!(levenshtein_distance_raw(&chars(s), &chars(s), k, &mut bufs), 0);
        }
    }
}

#[test]
fn distance_caps_at_bound_plus_one() {
    let mut bufs = DistanceBuffers::new();
    let a = chars("kitten");
    let b = chars("sitting");
    assert_eq!(levenshtein_distance_raw(&a, &b, 3, &mut bufs), 3);
    assert_eq!(levenshtein_distance_raw(&a, &b, 1, &mut bufs), 2);
    assert_eq!(levenshtein_distance_raw(&a, &b, 0, &mut bufs), 1);
    assert_eq!(levenshtein_distance_raw(&b, &a, 10, &mut bufs), 3);
}

#[test]
fn distance_with_an_empty_side() {
    let mut bufs = DistanceBuffers::new();
    let e = chars("");
    let s = chars("abc");
    assert_eq!(levenshtein_distance_raw(&e, &s, 5, &mut bufs), 3);
    assert_eq!(levenshtein_distance_raw(&s, &e, 3, &mut bufs), 3);
    assert_eq!(levenshtein_distance_raw(&e, &s, 2, &mut bufs), 3);
    assert_eq!(levenshtein_distance_raw(&e, &chars("abcdef"), 2, &mut bufs), 3);
}

#[test]
fn distance_length_gap_beyond_bound() {
    let mut bufs = DistanceBuffers::new();
    let a = chars("ab");
    let b = chars("abcdefgh");
    assert_eq!(levenshtein_distance_raw(&a, &b, 3, &mut bufs), 4);
    assert_eq!(levenshtein_distance_raw(&a, &b, 6, &mut bufs), 6);
}

#[test]
fn distance_stops_early_on_far_rows() {
    let mut bufs = DistanceBuffers::new();
    let a = chars("aaaaaaaaaa");
    let b = chars("bbbbbbbbbb");
    assert_eq!(levenshtein_distance_raw(&a, &b, 2, &mut bufs), 3);
    assert_eq!(levenshtein_distance_raw(&a, &b, 10, &mut bufs), 10);
}

#[test]
fn normalize_collapses_any_whitespace() {
    assert_eq!(norm("\tb\n\n  a \u{a0}c "), "a b c");
}

#[test]
fn whitespace_agrees_with_std() {
    for u in 0..=0x10FFFFu32 {
        if let Some(c) = char::from_u32(u) {
            assert_eq!(crony_researcher::chars::whitespace(c), c.is_whitespace());
        }
    }
}
