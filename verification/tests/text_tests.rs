use rustsearch::entry::FileEntry;
use rustsearch::searcher::fuzzy_match;
use rustsearch::text::{
    chars_of, file_name_from_normalized_path, find_substring, lowercase_for_search,
    starts_with_chars, string_from_chars, string_from_range, tokenize,
};

#[test]
fn ascii_lowercasing_takes_the_fast_path() {
    assert_eq!(lowercase_for_search("Hello_WORLD.TXT"), "hello_world.txt");
    assert_eq!(lowercase_for_search(""), "");
    assert_eq!(lowercase_for_search("123-_."), "123-_.");
}

#[test]
fn non_ascii_lowercasing_goes_through_the_full_lowering() {
    assert_eq!(lowercase_for_search("ÄRGER.txt"), "ärger.txt");
    assert_eq!(lowercase_for_search("ΣΟΦΙΑ"), "σοφια");
}

#[test]
fn tokenize_splits_on_runs_of_whitespace() {
    let q = chars_of("  hello   world\tagain ");
    let toks = tokenize(&q);
    let words: Vec<String> = toks.iter().map(string_from_chars).collect();
    assert_eq!(words, vec!["hello", "world", "again"]);

    let empty = tokenize(&chars_of("   "));
    assert!(empty.is_empty());

    // whitespace beyond ASCII splits too: the no-break space
    let wide = tokenize(&chars_of("a\u{A0}b"));
    let parts: Vec<String> = wide.iter().map(string_from_chars).collect();
    assert_eq!(parts, vec!["a", "b"]);
}

#[test]
fn file_names_come_after_the_last_separator() {
    assert_eq!(file_name_from_normalized_path("C:/tmp/x.txt"), "x.txt");
    assert_eq!(file_name_from_normalized_path("x.txt"), "x.txt");
    assert_eq!(file_name_from_normalized_path("C:/tmp/"), "");
    assert_eq!(file_name_from_normalized_path(""), "");
}

#[test]
fn substring_search_finds_the_leftmost_hit() {
    let hay = chars_of("abcabc");
    assert_eq!(find_substring(&hay, &chars_of("cab")), Some(2));
    assert_eq!(find_substring(&hay, &chars_of("abc")), Some(0));
    assert_eq!(find_substring(&hay, &chars_of("zz")), None);
    assert!(starts_with_chars(&hay, &chars_of("abc")));
    assert!(!starts_with_chars(&hay, &chars_of("bca")));
}

#[test]
fn string_building_round_trips() {
    let cs = chars_of("rebuilt");
    assert_eq!(string_from_chars(&cs), "rebuilt");
    assert_eq!(string_from_range(&cs, 2, 7), "built");
}

#[test]
fn fuzzy_match_reports_span_and_gaps() {
    let hay = chars_of("h_e_l_l_o");
    let hit = fuzzy_match(&hay, &chars_of("hello")).expect("subsequence exists");
    assert_eq!(hit.first, 0);
    assert_eq!(hit.last, 8);
    assert_eq!(hit.gaps, 4);

    let tight = fuzzy_match(&hay, &chars_of("h_e")).expect("contiguous");
    assert_eq!(tight.gaps, 0);

    assert!(fuzzy_match(&hay, &chars_of("olleh")).is_none());
    assert!(fuzzy_match(&hay, &chars_of("")).is_none());
}

#[test]
fn derived_entries_carry_recomputed_keys() {
    let e = FileEntry::from_walk("C:/Tmp/Data.TXT".to_string(), 7, 3, false, true);
    assert_eq!(e.name, "Data.TXT");
    assert_eq!(e.name_lower, "data.txt");
    assert_eq!(e.path_lower, "c:/tmp/data.txt");
    assert_eq!(e.frn, 0);
    assert!(e.is_hidden);
}
