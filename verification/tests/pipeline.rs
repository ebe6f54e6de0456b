use wordfreq_rs::freq::filter_min_len;
use wordfreq_rs::{count, limit_entries, sort_alpha, sort_by_count_then_alpha, tokenize};

fn entry(w: &str, c: u64) -> (String, u64) {
    (w.to_string(), c)
}

fn get(table: &[(String, u64)], w: &str) -> Option<u64> {
    table.iter().find(|e| e.0 == w).map(|e| e.1)
}

#[test]
fn tokenize_splits_on_non_alphabetic() {
    let v = tokenize("Hi, Rust!", true);
    assert_eq!(v, vec!["hi".to_string(), "rust".to_string()]);
}

#[test]
fn tokenize_keeps_case_when_asked() {
    let v = tokenize("Hi, Rust!", false);
    assert_eq!(v, vec!["Hi".to_string(), "Rust".to_string()]);
}

#[test]
fn tokenize_splits_on_digits() {
    let v = tokenize("abc123def", true);
    assert_eq!(v, vec!["abc".to_string(), "def".to_string()]);
}

#[test]
fn tokenize_drops_empty_runs() {
    assert_eq!(tokenize("  ,,  ", true).len(), 0);
    assert_eq!(tokenize("", true).len(), 0);
    let v = tokenize("  a  b  ", true);
    assert_eq!(v, vec!["a".to_string(), "b".to_string()]);
}

#[test]
fn case_insensitive_counts_fold_together() {
    let tokens = tokenize("Rust rust RUST!", true);
    let table = count(tokens);
    assert_eq!(table.len(), 1);
    assert_eq!(get(&table, "rust"), Some(3));
}

#[test]
fn tokenize_count_boundaries() {
    let table = count(tokenize("a a b", true));
    assert_eq!(get(&table, "a"), Some(2));
    assert_eq!(get(&table, "b"), Some(1));
    assert_eq!(table.len(), 2);

    let empty = count(tokenize("", true));
    assert_eq!(empty.len(), 0);
}

#[test]
fn counts_sum_to_number_of_runs() {
    let input = "foo bar foo baz foo qux";
    let tokens = tokenize(input, true);
    assert_eq!(tokens.len(), 6);
    let table = count(tokens);
    let total: u64 = table.iter().map(|e| e.1).sum();
    assert_eq!(total, 6);
}

#[test]
fn unicode_words_fold_and_count() {
    let table = count(tokenize("Café déjà café", true));
    assert_eq!(get(&table, "café"), Some(2));
    assert_eq!(get(&table, "déjà"), Some(1));
}

#[test]
fn filter_drops_short_words_whole() {
    let table = vec![entry("a", 5), entry("tree", 2), entry("go", 3)];
    let kept = filter_min_len(table, 3);
    assert_eq!(kept, vec![entry("tree", 2)]);
}

#[test]
fn filter_of_one_keeps_everything() {
    let table = count(tokenize("a bb ccc", true));
    let kept = filter_min_len(table.clone(), 1);
    assert_eq!(kept, table);
}

#[test]
fn filter_measures_characters_not_bytes() {
    // "héllo" is five characters but six bytes.
    let table = vec![entry("héllo", 1)];
    assert_eq!(filter_min_len(table.clone(), 5), table);
    assert_eq!(filter_min_len(table, 6), Vec::<(String, u64)>::new());
}

#[test]
fn sort_by_count_then_alpha_breaks_ties_by_word() {
    let mut v = vec![entry("b", 2), entry("a", 2), entry("z", 1)];
    sort_by_count_then_alpha(&mut v);
    assert_eq!(v, vec![entry("a", 2), entry("b", 2), entry("z", 1)]);
}

#[test]
fn sort_by_count_adjacent_pairs_ordered() {
    let mut v = vec![
        entry("pear", 1),
        entry("fig", 4),
        entry("apple", 4),
        entry("yam", 9),
    ];
    sort_by_count_then_alpha(&mut v);
    for pair in v.windows(2) {
        let strictly_down = pair[0].1 > pair[1].1;
        let tie_by_word = pair[0].1 == pair[1].1 && pair[0].0 <= pair[1].0;
        assert!(strictly_down || tie_by_word);
    }
    assert_eq!(
        v,
        vec![entry("yam", 9), entry("apple", 4), entry("fig", 4), entry("pear", 1)]
    );
}

#[test]
fn sort_alpha_orders_by_word_only() {
    let mut v = vec![entry("pear", 1), entry("fig", 4), entry("apple", 2)];
    sort_alpha(&mut v);
    assert_eq!(v, vec![entry("apple", 2), entry("fig", 4), entry("pear", 1)]);
}

#[test]
fn sorting_twice_changes_nothing() {
    let mut v = vec![entry("b", 2), entry("a", 2), entry("z", 7), entry("m", 1)];
    sort_by_count_then_alpha(&mut v);
    let once = v.clone();
    sort_by_count_then_alpha(&mut v);
    assert_eq!(v, once);

    let mut w = vec![entry("b", 2), entry("a", 2), entry("z", 7), entry("m", 1)];
    sort_alpha(&mut w);
    let once_w = w.clone();
    sort_alpha(&mut w);
    assert_eq!(w, once_w);
}

#[test]
fn limit_zero_means_unlimited() {
    let orig = vec![entry("a", 3), entry("b", 2), entry("c", 1)];
    let mut v = orig.clone();
    limit_entries(&mut v, 0);
    assert_eq!(v, orig);
}

#[test]
fn limit_at_or_past_length_keeps_all() {
    let orig = vec![entry("a", 3), entry("b", 2), entry("c", 1)];
    let mut v = orig.clone();
    limit_entries(&mut v, 3);
    assert_eq!(v, orig);
    let mut w = orig.clone();
    limit_entries(&mut w, 10);
    assert_eq!(w, orig);
}

#[test]
fn limit_truncates_to_leading_entries() {
    let mut v = vec![entry("a", 3), entry("b", 2), entry("c", 1)];
    limit_entries(&mut v, 2);
    assert_eq!(v, vec![entry("a", 3), entry("b", 2)]);
    let mut w = vec![entry("a", 3), entry("b", 2), entry("c", 1)];
    limit_entries(&mut w, 1);
    assert_eq!(w, vec![entry("a", 3)]);
}

#[test]
fn full_pipeline_top_word() {
    let text = "Rust rust RUST!";
    let tokens = tokenize(text, true);
    let table = count(tokens);
    let mut entries = filter_min_len(table, 1);
    sort_by_count_then_alpha(&mut entries);
    assert_eq!(entries[0].0, "rust");
    assert_eq!(entries[0].1, 3);
}
