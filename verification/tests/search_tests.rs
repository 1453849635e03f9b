use rustsearch::entry::FileEntry;
use rustsearch::indexer::FileIndexer;
use rustsearch::searcher::Searcher;

fn entry(name: &str, path: &str) -> FileEntry {
    FileEntry {
        name: name.to_string(),
        name_lower: name.to_lowercase(),
        path: path.to_string(),
        path_lower: path.to_lowercase(),
        drive: 0,
        frn: 0,
        parent_frn: 0,
        size: 0,
        modified_ms: 0,
        is_dir: false,
        is_hidden: false,
    }
}

#[test]
fn keyword_order_is_tolerated_in_fuzzy_mode() {
    let mut indexer = FileIndexer::new();
    indexer.set_entries_from_cache(vec![entry("hello_world.txt", "C:/tmp/hello_world.txt")]);

    let mut searcher = Searcher::new();
    searcher.options.fuzzy = true;

    let results = searcher.search(&indexer, "world hello");
    assert!(!results.is_empty());
    assert_eq!(results[0].entry.name, "hello_world.txt");
}

#[test]
fn in_order_keywords_rank_higher_than_swapped() {
    let mut indexer = FileIndexer::new();
    indexer.set_entries_from_cache(vec![entry("hello_world.txt", "C:/tmp/hello_world.txt")]);

    let mut searcher = Searcher::new();
    searcher.options.fuzzy = true;

    let a = searcher.search(&indexer, "hello world");
    let b = searcher.search(&indexer, "world hello");
    assert!(!a.is_empty() && !b.is_empty());
    assert!(a[0].score > b[0].score);
}

#[test]
fn allow_one_missing_keyword_when_three_or_more() {
    let mut indexer = FileIndexer::new();
    indexer.set_entries_from_cache(vec![entry("hello_world.txt", "C:/tmp/hello_world.txt")]);

    let mut searcher = Searcher::new();
    searcher.options.fuzzy = true;

    let ok = searcher.search(&indexer, "hello world extra");
    assert!(!ok.is_empty());

    let not_ok = searcher.search(&indexer, "hello world extra more");
    assert!(not_ok.is_empty());
}

#[test]
fn max_results_does_not_hide_late_high_score_matches() {
    let mut entries = Vec::new();
    for i in 0..50 {
        entries.push(entry(
            &format!("h__e__l__l__o__noise_{i}.txt"),
            &format!("C:/tmp/h__e__l__l__o__noise_{i}.txt"),
        ));
    }
    entries.push(entry("hello_target.txt", "C:/tmp/hello_target.txt"));

    let mut indexer = FileIndexer::new();
    indexer.set_entries_from_cache(entries);

    let mut searcher = Searcher::new();
    searcher.options.fuzzy = true;
    searcher.options.max_results = 5;

    let results = searcher.search(&indexer, "hello");
    assert!(!results.is_empty());
    assert_eq!(results.len(), 5);
    assert_eq!(results[0].entry.name, "hello_target.txt");
}

#[test]
fn substring_mode_scores_prefix_match_exactly() {
    let mut indexer = FileIndexer::new();
    indexer.set_entries_from_cache(vec![entry("abc", "C:/tmp/abc")]);

    let mut searcher = Searcher::new();
    searcher.options.fuzzy = false;

    // name bonus 10000 + prefix substring 8000 - three name bytes
    let results = searcher.search(&indexer, "abc");
    assert_eq!(results.len(), 1);
    assert_eq!(results[0].score, 17997);
}

#[test]
fn fuzzy_mode_scores_exact_single_token_exactly() {
    let mut indexer = FileIndexer::new();
    indexer.set_entries_from_cache(vec![entry("abc", "C:/tmp/abc")]);

    let mut searcher = Searcher::new();
    searcher.options.fuzzy = true;

    // token: base 4000 + compactness 6000 + start bonus 3000 + gap-free 2000,
    // plus the per-match award 1800, name bonus 10000, minus three name bytes
    let results = searcher.search(&indexer, "abc");
    assert_eq!(results.len(), 1);
    assert_eq!(results[0].score, 26797);
}

#[test]
fn results_are_sorted_descending_with_stable_ties() {
    let mut indexer = FileIndexer::new();
    indexer.set_entries_from_cache(vec![
        entry("twin.txt", "C:/a/twin.txt"),
        entry("twin.txt", "C:/b/twin.txt"),
        entry("twin_longer_name.txt", "C:/c/twin_longer_name.txt"),
    ]);

    let mut searcher = Searcher::new();
    searcher.options.fuzzy = true;

    let results = searcher.search(&indexer, "twin");
    assert_eq!(results.len(), 3);
    for w in results.windows(2) {
        assert!(w[0].score >= w[1].score);
    }
    // the two identical names tie and keep entry order
    assert_eq!(results[0].entry_index, 0);
    assert_eq!(results[1].entry_index, 1);
}

#[test]
fn path_search_matches_path_only() {
    let mut indexer = FileIndexer::new();
    indexer.set_entries_from_cache(vec![entry("notes.txt", "C:/projects/alpha/notes.txt")]);

    let mut searcher = Searcher::new();
    searcher.options.fuzzy = false;
    searcher.options.path_search = true;

    let hit = searcher.search(&indexer, "alpha");
    assert_eq!(hit.len(), 1);
    assert!(matches!(hit[0].match_type, rustsearch::searcher::MatchType::Path));

    searcher.options.path_search = false;
    let miss_on_name_then_path = searcher.search(&indexer, "alpha");
    assert_eq!(miss_on_name_then_path.len(), 1);
    assert!(matches!(
        miss_on_name_then_path[0].match_type,
        rustsearch::searcher::MatchType::Path
    ));
}

#[test]
fn short_tokens_require_gap_free_fuzzy_match() {
    let mut indexer = FileIndexer::new();
    indexer.set_entries_from_cache(vec![entry("x_y.txt", "C:/tmp/x_y.txt")]);

    let mut searcher = Searcher::new();
    searcher.options.fuzzy = true;

    // "xy" appears only as a gapped subsequence of "x_y.txt": too short to count
    let results = searcher.search(&indexer, "xy");
    assert!(results.is_empty());
}

#[test]
fn zero_bound_returns_nothing() {
    let mut indexer = FileIndexer::new();
    indexer.set_entries_from_cache(vec![entry("hit.txt", "C:/hit.txt")]);

    let mut searcher = Searcher::new();
    searcher.options.max_results = 0;

    assert!(searcher.search(&indexer, "hit").is_empty());
}

#[test]
fn boundary_ties_keep_the_earliest_entry_deterministically() {
    let mut indexer = FileIndexer::new();
    indexer.set_entries_from_cache(vec![
        entry("twin.txt", "C:/a/twin.txt"),
        entry("twin.txt", "C:/b/twin.txt"),
    ]);

    let mut searcher = Searcher::new();
    searcher.options.fuzzy = true;
    searcher.options.max_results = 1;

    // a full selection is changed only for a strictly higher score, so the
    // equal-scoring later twin never displaces the earlier one
    let first = searcher.search(&indexer, "twin");
    let second = searcher.search(&indexer, "twin");
    assert_eq!(first.len(), 1);
    assert_eq!(first[0].entry_index, 0);
    assert_eq!(second.len(), 1);
    assert_eq!(second[0].entry_index, 0);
    assert_eq!(first[0].score, second[0].score);
}

#[test]
fn empty_and_whitespace_queries_return_nothing() {
    let mut indexer = FileIndexer::new();
    indexer.set_entries_from_cache(vec![entry("a.txt", "C:/a.txt")]);

    let searcher = Searcher::new();
    assert!(searcher.search(&indexer, "").is_empty());
    assert!(searcher.search(&indexer, "   ").is_empty());
}

#[test]
fn plain_indexer_search_caps_and_filters() {
    let mut indexer = FileIndexer::new();
    indexer.set_entries_from_cache(vec![
        entry("Alpha.txt", "C:/Alpha.txt"),
        entry("beta.txt", "C:/beta.txt"),
        entry("alphabet.txt", "C:/alphabet.txt"),
    ]);

    let hits = indexer.search("alpha", false, 10);
    assert_eq!(hits.len(), 2);
    assert_eq!(hits[0].name, "Alpha.txt");
    assert_eq!(hits[1].name, "alphabet.txt");

    let capped = indexer.search("alpha", false, 1);
    assert_eq!(capped.len(), 1);

    let case_sensitive = indexer.search("alpha", true, 10);
    assert_eq!(case_sensitive.len(), 1);
    assert_eq!(case_sensitive[0].name, "alphabet.txt");
}
